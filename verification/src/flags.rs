use crate::text::{chars_of, string_of};
use vstd::hash_set::StringHashSet;
use vstd::prelude::*;

verus! {

/// The set of flags that are active for one run.
///
/// A flag is a bare name: it is either in the set or not, and carries no value.
pub struct FlagsHolder {
    flags: StringHashSet,
}

/// The names that occur in `flags`, as a set.
pub open spec fn names_of(flags: Seq<String>) -> Set<Seq<char>> {
    Set::new(|name: Seq<char>| exists|i: int| 0 <= i < flags.len() && #[trigger] flags[i]@ == name)
}

impl View for FlagsHolder {
    type V = Set<Seq<char>>;

    closed spec fn view(&self) -> Set<Seq<char>> {
        self.flags@
    }
}

impl FlagsHolder {
    /// Collects the given names; a name given twice counts once.
    pub fn new(flags: Vec<String>) -> (holder: Self)
        ensures
            holder@ == names_of(flags@),
    {
        let mut set = StringHashSet::new();
        let ghost all = flags@;
        for name in it: flags.into_iter()
            invariant
                it.seq() == all,
                set@ == names_of(all.take(it.index() as int)),
        {
            let ghost before = set@;
            set.insert(name);
            proof {
                let k = it.index() as int;
                assert(all.take(k + 1) == all.take(k).push(all[k]));
                assert(set@ =~= names_of(all.take(k + 1))) by {
                    assert forall|n: Seq<char>| names_of(all.take(k + 1)).contains(n) implies set@.contains(n) by {
                        let i = choose|i: int| 0 <= i < k + 1 && #[trigger] all.take(k + 1)[i]@ == n;
                        if i < k {
                            assert(all.take(k)[i]@ == n);
                        }
                    }
                    assert forall|n: Seq<char>| set@.contains(n) implies names_of(all.take(k + 1)).contains(n) by {
                        if before.contains(n) {
                            let i = choose|i: int| 0 <= i < k && #[trigger] all.take(k)[i]@ == n;
                            assert(all.take(k + 1)[i]@ == n);
                        } else {
                            assert(all.take(k + 1)[k]@ == n);
                        }
                    }
                }
            }
        }
        assert(all.take(all.len() as int) == all);
        FlagsHolder { flags: set }
    }

    /// Makes `flag` active.
    pub fn insert(&mut self, flag: String)
        ensures
            final(self)@ == old(self)@.insert(flag@),
    {
        self.flags.insert(flag);
    }

    /// Whether `flag` is active.
    pub fn contains(&self, flag: &str) -> (active: bool)
        ensures
            active == self@.contains(flag@),
    {
        self.flags.contains(flag)
    }
}

impl Default for FlagsHolder {
    fn default() -> (holder: Self)
        ensures
            holder@ == Set::<Seq<char>>::empty(),
    {
        FlagsHolder { flags: StringHashSet::new() }
    }
}

/// Whether `c` is white space between the words of a list of flags: a space, a tab, a line
/// feed, a form feed or a carriage return.
pub open spec fn is_flag_space(c: char) -> bool {
    c == ' ' || c == '\t' || c == '\n' || c == '\x0C' || c == '\r'
}

/// Whether `c` parts the flags of a list from each other: white space, or a comma.
pub open spec fn is_flag_break(c: char) -> bool {
    is_flag_space(c) || c == ','
}

/// Whether the characters of `s` from `from` up to `to` are one flag of the list `s`.
///
/// White space parts the list into words, and commas part a word into flags. So a flag holds
/// neither, and has one of them or an end of the list on either side. Between two commas, or
/// between a comma and the end of its word, stands the flag with the empty name; where white
/// space alone stands on both sides, there is no flag.
pub open spec fn is_listed(s: Seq<char>, from: int, to: int) -> bool {
    &&& 0 <= from <= to <= s.len()
    &&& forall|k: int| from <= k < to ==> !is_flag_break(#[trigger] s[k])
    &&& (from == 0 || is_flag_break(s[from - 1]))
    &&& (to == s.len() || is_flag_break(s[to]))
    &&& (from < to || (from > 0 && s[from - 1] == ',') || (to < s.len() && s[to] == ','))
}

/// The flags of the list `s` that end in front of position `bound`.
pub open spec fn listed_before(s: Seq<char>, bound: int) -> Set<Seq<char>> {
    Set::new(
        |name: Seq<char>|
            exists|from: int, to: int|
                to < bound && #[trigger] is_listed(s, from, to) && s.subrange(from, to) == name,
    )
}

/// The flags of the list `s`.
pub open spec fn listed_flags(s: Seq<char>) -> Set<Seq<char>> {
    Set::new(
        |name: Seq<char>|
            exists|from: int, to: int|
                #[trigger] is_listed(s, from, to) && s.subrange(from, to) == name,
    )
}

/// Every flag of a list ends within the list.
proof fn lemma_all_listed(s: Seq<char>)
    ensures
        listed_before(s, s.len() as int + 1) == listed_flags(s),
{
    assert forall|name: Seq<char>| listed_flags(s).contains(name) implies listed_before(
        s,
        s.len() as int + 1,
    ).contains(name) by {
        let (from, to) = choose|from: int, to: int|
            #[trigger] is_listed(s, from, to) && s.subrange(from, to) == name;
        assert(to < s.len() + 1 && is_listed(s, from, to));
    }
    assert(listed_before(s, s.len() as int + 1) =~= listed_flags(s));
}

fn flag_break(c: char) -> (yes: bool)
    ensures
        yes == is_flag_break(c),
{
    c == ' ' || c == '\t' || c == '\n' || c == '\x0C' || c == '\r' || c == ','
}

/// No flag ends where a character stands that parts no flags.
proof fn lemma_no_flag_ends_inside(s: Seq<char>, at: int)
    requires
        0 <= at < s.len(),
        !is_flag_break(s[at]),
    ensures
        listed_before(s, at + 1) == listed_before(s, at),
{
    assert forall|name: Seq<char>| listed_before(s, at + 1).contains(name) implies listed_before(
        s,
        at,
    ).contains(name) by {
        let (from, to) = choose|from: int, to: int|
            to < at + 1 && #[trigger] is_listed(s, from, to) && s.subrange(from, to) == name;
        assert(to < at);
    }
    assert(listed_before(s, at + 1) =~= listed_before(s, at));
}

/// Where a flag can end at `to`, it begins behind the last break in front of `to`.
proof fn lemma_flag_ends_at(s: Seq<char>, from: int, to: int)
    requires
        0 <= from <= to <= s.len(),
        from == 0 || is_flag_break(s[from - 1]),
        forall|k: int| from <= k < to ==> !is_flag_break(#[trigger] s[k]),
        to == s.len() || is_flag_break(s[to]),
    ensures
        listed_before(s, to + 1) == if is_listed(s, from, to) {
            listed_before(s, to).insert(s.subrange(from, to))
        } else {
            listed_before(s, to)
        },
{
    let target = if is_listed(s, from, to) {
        listed_before(s, to).insert(s.subrange(from, to))
    } else {
        listed_before(s, to)
    };
    assert forall|name: Seq<char>| listed_before(s, to + 1).contains(name) implies target.contains(
        name,
    ) by {
        let (a, b) = choose|a: int, b: int|
            b < to + 1 && #[trigger] is_listed(s, a, b) && s.subrange(a, b) == name;
        if b == to {
            if a < from {
                assert(is_flag_break(s[from - 1]));
                assert(!is_flag_break(s[from - 1]));
            } else if a > from {
                assert(is_flag_break(s[a - 1]));
                assert(!is_flag_break(s[a - 1]));
            }
        }
    }
    assert forall|name: Seq<char>| target.contains(name) implies listed_before(s, to + 1).contains(
        name,
    ) by {
        if listed_before(s, to).contains(name) {
            let (a, b) = choose|a: int, b: int|
                b < to && #[trigger] is_listed(s, a, b) && s.subrange(a, b) == name;
            assert(b < to + 1 && is_listed(s, a, b));
        } else {
            assert(is_listed(s, from, to));
        }
    }
    assert(listed_before(s, to + 1) =~= target);
}

/// Reads a list of flags and adds further flags to it.
///
/// White space parts the list into words, and commas part a word into flags: see
/// [`is_listed`]. The flags in `extra_flags` are taken as they are.
pub fn parse_flags(content: &str, extra_flags: Vec<String>) -> (holder: FlagsHolder)
    ensures
        holder@ == listed_flags(content@).union(names_of(extra_flags@)),
{
    let chars = chars_of(content);
    let ghost s = chars@;
    let ghost extra = names_of(extra_flags@);
    let mut holder = FlagsHolder::new(extra_flags);
    let mut from: usize = 0;
    let mut i: usize = 0;
    assert(listed_before(s, 0) =~= Set::<Seq<char>>::empty());
    assert(holder@ =~= listed_before(s, 0).union(extra));
    while i < chars.len()
        invariant
            s == chars@,
            from <= i <= chars.len(),
            from == 0 || is_flag_break(s[from - 1]),
            forall|k: int| from <= k < i ==> !is_flag_break(#[trigger] s[k]),
            holder@ == listed_before(s, i as int).union(extra),
        decreases chars.len() - i,
    {
        if flag_break(chars[i]) {
            proof {
                lemma_flag_ends_at(s, from as int, i as int);
            }
            if from < i || (from > 0 && chars[from - 1] == ',') || chars[i] == ',' {
                holder.insert(string_of(&chars, from, i));
                assert(holder@ =~= listed_before(s, i + 1).union(extra));
            }
            from = i + 1;
        } else {
            proof {
                lemma_no_flag_ends_inside(s, i as int);
            }
        }
        i += 1;
    }
    proof {
        lemma_flag_ends_at(s, from as int, i as int);
        lemma_all_listed(s);
    }
    if from < i || (from > 0 && chars[from - 1] == ',') {
        holder.insert(string_of(&chars, from, i));
        assert(holder@ =~= listed_before(s, i + 1).union(extra));
    }
    holder
}

} // verus!
