use vstd::prelude::*;

verus! {

/// The character that opens every directive.
pub const SENTINEL: char = '@';

/// The character that delimits code: one for an inline span, three for a fence.
pub const TICK: char = '`';

/// The five directive keywords.
#[derive(Debug, Clone, Copy, PartialEq, Eq, Structural)]
pub enum Keyword {
    If,
    Elif,
    Else,
    End,
    File,
}

impl Keyword {
    /// The keyword's spelling, in lower case.
    pub open spec fn letters(self) -> Seq<char> {
        match self {
            Keyword::If => seq!['i', 'f'],
            Keyword::Elif => seq!['e', 'l', 'i', 'f'],
            Keyword::Else => seq!['e', 'l', 's', 'e'],
            Keyword::End => seq!['e', 'n', 'd'],
            Keyword::File => seq!['f', 'i', 'l', 'e'],
        }
    }

    /// Whether the keyword is followed by `_` and a flag name.
    pub open spec fn takes_name(self) -> bool {
        self is If || self is Elif || self is File
    }
}

/// Whether `c` may occur in a flag name: an ASCII letter, an ASCII digit or `_`.
pub open spec fn is_name_char(c: char) -> bool {
    ||| 'a' <= c <= 'z'
    ||| 'A' <= c <= 'Z'
    ||| '0' <= c <= '9'
    ||| c == '_'
}

/// Whether `c` is white space that a directive swallows when it follows it.
pub open spec fn is_blank(c: char) -> bool {
    c == ' ' || c == '\t' || c == '\n' || c == '\r'
}

/// Whether `c` is the lower-case ASCII letter `letter`, in either case.
pub open spec fn same_letter(c: char, letter: char) -> bool {
    c == letter || ('A' <= c <= 'Z' && c as u32 + 32 == letter as u32)
}

/// Whether `word`, a lower-case ASCII word, stands at position `i` of `s`, in any mix of cases.
pub open spec fn word_at(s: Seq<char>, i: int, word: Seq<char>) -> bool {
    &&& 0 <= i
    &&& i + word.len() <= s.len()
    &&& forall|k: int| 0 <= k < word.len() ==> same_letter(s[i + k], #[trigger] word[k])
}

/// The keyword that stands at position `i` of `s`, if one does.
///
/// No keyword is the beginning of another, so at most one can stand at a position.
pub open spec fn keyword_at(s: Seq<char>, i: int) -> Option<Keyword> {
    if word_at(s, i, Keyword::If.letters()) {
        Some(Keyword::If)
    } else if word_at(s, i, Keyword::Elif.letters()) {
        Some(Keyword::Elif)
    } else if word_at(s, i, Keyword::Else.letters()) {
        Some(Keyword::Else)
    } else if word_at(s, i, Keyword::End.letters()) {
        Some(Keyword::End)
    } else if word_at(s, i, Keyword::File.letters()) {
        Some(Keyword::File)
    } else {
        None
    }
}

/// Whether the sentinel stands at position `i` of `s` with a keyword right behind it.
pub open spec fn marker_at(s: Seq<char>, i: int) -> bool {
    &&& 0 <= i < s.len()
    &&& s[i] == SENTINEL
    &&& keyword_at(s, i + 1) is Some
}

/// Whether the sentinel stands anywhere in `s` with a keyword right behind it.
pub open spec fn has_marker(s: Seq<char>) -> bool {
    exists|i: int| marker_at(s, i)
}

pub fn name_char(c: char) -> (yes: bool)
    ensures
        yes == is_name_char(c),
{
    ('a' <= c && c <= 'z') || ('A' <= c && c <= 'Z') || ('0' <= c && c <= '9') || c == '_'
}

pub fn blank(c: char) -> (yes: bool)
    ensures
        yes == is_blank(c),
{
    c == ' ' || c == '\t' || c == '\n' || c == '\r'
}

fn letter_at(chars: &Vec<char>, i: usize, letter: char) -> (yes: bool)
    ensures
        yes == (i < chars.len() && same_letter(chars@[i as int], letter)),
{
    if i < chars.len() {
        let c = chars[i];
        c == letter || ('A' <= c && c <= 'Z' && c as u32 + 32 == letter as u32)
    } else {
        false
    }
}

/// The keyword that stands at position `i` of `chars`, if one does.
pub fn find_keyword(chars: &Vec<char>, i: usize) -> (found: Option<Keyword>)
    ensures
        found == keyword_at(chars@, i as int),
{
    let ghost s = chars@;
    if letter_at(chars, i, 'i') {
        if letter_at(chars, i + 1, 'f') {
            assert(word_at(s, i as int, Keyword::If.letters()));
            return Some(Keyword::If);
        }
        assert(!word_at(s, i as int, Keyword::If.letters())) by {
            assert(Keyword::If.letters()[1] == 'f');
        }
        assert(!same_letter(s[i as int], 'e') && !same_letter(s[i as int], 'f'));
        assert(keyword_at(s, i as int) is None) by {
            assert(Keyword::Elif.letters()[0] == 'e');
            assert(Keyword::Else.letters()[0] == 'e');
            assert(Keyword::End.letters()[0] == 'e');
            assert(Keyword::File.letters()[0] == 'f');
        }
        return None;
    }
    assert(!word_at(s, i as int, Keyword::If.letters())) by {
        assert(Keyword::If.letters()[0] == 'i');
    }
    if letter_at(chars, i, 'e') {
        assert(!word_at(s, i as int, Keyword::File.letters())) by {
            assert(Keyword::File.letters()[0] == 'f');
        }
        if letter_at(chars, i + 1, 'l') {
            assert(!word_at(s, i as int, Keyword::End.letters())) by {
                assert(Keyword::End.letters()[1] == 'n');
            }
            if letter_at(chars, i + 2, 'i') {
                assert(!word_at(s, i as int, Keyword::Else.letters())) by {
                    assert(Keyword::Else.letters()[2] == 's');
                }
                if letter_at(chars, i + 3, 'f') {
                    assert(word_at(s, i as int, Keyword::Elif.letters()));
                    return Some(Keyword::Elif);
                }
                assert(!word_at(s, i as int, Keyword::Elif.letters())) by {
                    assert(Keyword::Elif.letters()[3] == 'f');
                }
                return None;
            }
            assert(!word_at(s, i as int, Keyword::Elif.letters())) by {
                assert(Keyword::Elif.letters()[2] == 'i');
            }
            if letter_at(chars, i + 2, 's') && letter_at(chars, i + 3, 'e') {
                assert(word_at(s, i as int, Keyword::Else.letters()));
                return Some(Keyword::Else);
            }
            assert(!word_at(s, i as int, Keyword::Else.letters())) by {
                assert(Keyword::Else.letters()[2] == 's');
                assert(Keyword::Else.letters()[3] == 'e');
            }
            return None;
        }
        assert(!word_at(s, i as int, Keyword::Elif.letters())) by {
            assert(Keyword::Elif.letters()[1] == 'l');
        }
        assert(!word_at(s, i as int, Keyword::Else.letters())) by {
            assert(Keyword::Else.letters()[1] == 'l');
        }
        if letter_at(chars, i + 1, 'n') && letter_at(chars, i + 2, 'd') {
            assert(word_at(s, i as int, Keyword::End.letters()));
            return Some(Keyword::End);
        }
        assert(!word_at(s, i as int, Keyword::End.letters())) by {
            assert(Keyword::End.letters()[1] == 'n');
            assert(Keyword::End.letters()[2] == 'd');
        }
        return None;
    }
    assert(!word_at(s, i as int, Keyword::Elif.letters())) by {
        assert(Keyword::Elif.letters()[0] == 'e');
    }
    assert(!word_at(s, i as int, Keyword::Else.letters())) by {
        assert(Keyword::Else.letters()[0] == 'e');
    }
    assert(!word_at(s, i as int, Keyword::End.letters())) by {
        assert(Keyword::End.letters()[0] == 'e');
    }
    if letter_at(chars, i, 'f') && letter_at(chars, i + 1, 'i') && letter_at(chars, i + 2, 'l')
        && letter_at(chars, i + 3, 'e') {
        assert(word_at(s, i as int, Keyword::File.letters()));
        return Some(Keyword::File);
    }
    assert(!word_at(s, i as int, Keyword::File.letters())) by {
        assert(Keyword::File.letters()[0] == 'f');
        assert(Keyword::File.letters()[1] == 'i');
        assert(Keyword::File.letters()[2] == 'l');
        assert(Keyword::File.letters()[3] == 'e');
    }
    None
}

/// Whether the sentinel stands anywhere in `chars` with a keyword right behind it.
pub fn find_marker(chars: &Vec<char>) -> (found: bool)
    ensures
        found == has_marker(chars@),
{
    let mut i: usize = 0;
    while i < chars.len()
        invariant
            i <= chars.len(),
            forall|j: int| 0 <= j < i ==> !marker_at(chars@, j),
        decreases chars.len() - i,
    {
        if chars[i] == SENTINEL && find_keyword(chars, i + 1).is_some() {
            assert(marker_at(chars@, i as int));
            return true;
        }
        i += 1;
    }
    false
}

/// Where the run of name characters that begins at position `i` of `s` ends.
pub open spec fn name_end(s: Seq<char>, i: int) -> int
    decreases s.len() - i,
{
    if 0 <= i < s.len() && is_name_char(s[i]) {
        name_end(s, i + 1)
    } else {
        i
    }
}

/// Where the run of blanks that begins at position `i` of `s` ends.
pub open spec fn blank_end(s: Seq<char>, i: int) -> int
    decreases s.len() - i,
{
    if 0 <= i < s.len() && is_blank(s[i]) {
        blank_end(s, i + 1)
    } else {
        i
    }
}

/// A directive as it stands in a text: its keyword, the flag it names (empty for `else` and
/// `end`), and where the text goes on behind it.
pub struct Directive {
    pub keyword: Keyword,
    pub name: Seq<char>,
    pub end: int,
}

/// The directive that begins at position `i` of `s`, if one does.
///
/// A directive is the sentinel, a keyword in any mix of cases and, for `if`, `elif` and `file`,
/// a `_` and the longest run of name characters behind it, which must not be empty. The blanks
/// that follow a directive go with it: the text goes on behind them.
pub open spec fn directive_at(s: Seq<char>, i: int) -> Option<Directive> {
    if marker_at(s, i) {
        let keyword = keyword_at(s, i + 1)->0;
        let after = i + 1 + keyword.letters().len();
        if !keyword.takes_name() {
            Some(Directive { keyword, name: Seq::empty(), end: blank_end(s, after) })
        } else if after + 1 < s.len() && s[after] == '_' && is_name_char(s[after + 1]) {
            Some(
                Directive {
                    keyword,
                    name: s.subrange(after + 1, name_end(s, after + 1)),
                    end: blank_end(s, name_end(s, after + 1)),
                },
            )
        } else {
            None
        }
    } else {
        None
    }
}

/// Whether a tick stands at position `i` of `s`.
pub open spec fn tick_at(s: Seq<char>, i: int) -> bool {
    0 <= i < s.len() && s[i] == TICK
}

/// Whether three ticks in a row begin at position `i` of `s`.
pub open spec fn fence_at(s: Seq<char>, i: int) -> bool {
    tick_at(s, i) && tick_at(s, i + 1) && tick_at(s, i + 2)
}

/// The first position from `i` on at which a tick stands, or the length of `s` if there is none.
pub open spec fn next_tick(s: Seq<char>, i: int) -> int
    decreases s.len() - i,
{
    if i < 0 || i >= s.len() {
        s.len() as int
    } else if tick_at(s, i) {
        i
    } else {
        next_tick(s, i + 1)
    }
}

/// The first position from `i` on at which three ticks in a row begin, or the length of `s` if
/// there is none.
pub open spec fn next_fence(s: Seq<char>, i: int) -> int
    decreases s.len() - i,
{
    if i < 0 || i >= s.len() {
        s.len() as int
    } else if fence_at(s, i) {
        i
    } else {
        next_fence(s, i + 1)
    }
}

/// A code region as it stands in a text: whether it is fenced, and where the text goes on
/// behind its closing delimiter.
pub struct Region {
    pub fenced: bool,
    pub end: int,
}

/// The code region that begins at position `i` of `s`, if one does.
///
/// Three ticks open a fenced block, which runs to the next three ticks in a row and includes
/// them. Failing that, one tick opens an inline span, which runs to the next tick and includes
/// it. A delimiter that is never closed opens nothing.
pub open spec fn region_at(s: Seq<char>, i: int) -> Option<Region> {
    if fence_at(s, i) && next_fence(s, i + 3) < s.len() {
        Some(Region { fenced: true, end: next_fence(s, i + 3) + 3 })
    } else if tick_at(s, i) && next_tick(s, i + 1) < s.len() {
        Some(Region { fenced: false, end: next_tick(s, i + 1) + 1 })
    } else {
        None
    }
}

/// Whether the character at position `i` of `s` is plain prose: neither a directive nor a code
/// region begins there.
pub open spec fn is_plain(s: Seq<char>, i: int) -> bool {
    0 <= i < s.len() && directive_at(s, i) is None && region_at(s, i) is None
}

/// Where the run of plain prose that begins at position `i` of `s` ends.
pub open spec fn text_end(s: Seq<char>, i: int) -> int
    decreases s.len() - i,
{
    if is_plain(s, i) {
        text_end(s, i + 1)
    } else {
        i
    }
}

/// What a token says, apart from where it stands.
pub enum Lexeme {
    Text(Seq<char>),
    CodeFence(Seq<char>),
    CodeSnippet(Seq<char>),
    FileGuard(Seq<char>),
    If(Seq<char>),
    Elif(Seq<char>),
    Else,
    End,
}

/// A token as it stands in a text: what it says, and where the text goes on behind it.
pub struct Scanned {
    pub lexeme: Lexeme,
    pub end: int,
}

/// The token that begins at position `i` of `s`: a directive if one begins there, else a code
/// region if one begins there, else the run of plain prose from there on.
pub open spec fn token_at(s: Seq<char>, i: int) -> Scanned {
    match directive_at(s, i) {
        Some(directive) => Scanned {
            lexeme: match directive.keyword {
                Keyword::If => Lexeme::If(directive.name),
                Keyword::Elif => Lexeme::Elif(directive.name),
                Keyword::Else => Lexeme::Else,
                Keyword::End => Lexeme::End,
                Keyword::File => Lexeme::FileGuard(directive.name),
            },
            end: directive.end,
        },
        None => match region_at(s, i) {
            Some(region) => Scanned {
                lexeme: if region.fenced {
                    Lexeme::CodeFence(s.subrange(i, region.end))
                } else {
                    Lexeme::CodeSnippet(s.subrange(i, region.end))
                },
                end: region.end,
            },
            None => Scanned { lexeme: Lexeme::Text(s.subrange(i, text_end(s, i))), end: text_end(s, i) },
        },
    }
}

/// No keyword is the beginning of another: where two keywords stand at one position, they are
/// the same keyword.
pub proof fn lemma_keyword_is_unique(s: Seq<char>, i: int, one: Keyword, other: Keyword)
    requires
        word_at(s, i, one.letters()),
        word_at(s, i, other.letters()),
    ensures
        one == other,
        keyword_at(s, i) == Some(one),
{
    let a = one.letters();
    let b = other.letters();
    assert(same_letter(s[i + 0], a[0]) && same_letter(s[i + 0], b[0]));
    assert(same_letter(s[i + 1], a[1]) && same_letter(s[i + 1], b[1]));
    assert(same_letter(s[i + 2], a[2]) || a.len() <= 2);
    assert(same_letter(s[i + 2], b[2]) || b.len() <= 2);
}

/// A run of name characters ends between where it begins and the end of the text. It holds
/// name characters alone, and none follows it.
pub proof fn lemma_name_end_bounds(s: Seq<char>, i: int)
    requires
        0 <= i <= s.len(),
    ensures
        i <= name_end(s, i) <= s.len(),
        forall|k: int| i <= k < name_end(s, i) ==> is_name_char(#[trigger] s[k]),
        name_end(s, i) < s.len() ==> !is_name_char(s[name_end(s, i)]),
    decreases s.len() - i,
{
    if i < s.len() && is_name_char(s[i]) {
        lemma_name_end_bounds(s, i + 1);
    }
}

/// A run of blanks ends between where it begins and the end of the text. It holds blanks
/// alone, and none follows it.
pub proof fn lemma_blank_end_bounds(s: Seq<char>, i: int)
    requires
        0 <= i <= s.len(),
    ensures
        i <= blank_end(s, i) <= s.len(),
        forall|k: int| i <= k < blank_end(s, i) ==> is_blank(#[trigger] s[k]),
        blank_end(s, i) < s.len() ==> !is_blank(s[blank_end(s, i)]),
    decreases s.len() - i,
{
    if i < s.len() && is_blank(s[i]) {
        lemma_blank_end_bounds(s, i + 1);
    }
}

/// The next tick stands between where the search begins and the end of the text, and no tick
/// stands in front of it.
pub proof fn lemma_next_tick_bounds(s: Seq<char>, i: int)
    requires
        0 <= i <= s.len(),
    ensures
        i <= next_tick(s, i) <= s.len(),
        next_tick(s, i) < s.len() ==> tick_at(s, next_tick(s, i)),
        forall|k: int| i <= k < next_tick(s, i) ==> !tick_at(s, k),
    decreases s.len() - i,
{
    if i < s.len() && !tick_at(s, i) {
        lemma_next_tick_bounds(s, i + 1);
    }
}

/// The next three ticks in a row begin between where the search begins and the end of the
/// text, and none begin in front of them.
pub proof fn lemma_next_fence_bounds(s: Seq<char>, i: int)
    requires
        0 <= i <= s.len(),
    ensures
        i <= next_fence(s, i) <= s.len(),
        next_fence(s, i) < s.len() ==> fence_at(s, next_fence(s, i)),
        forall|k: int| i <= k < next_fence(s, i) ==> !fence_at(s, k),
    decreases s.len() - i,
{
    if i < s.len() && !fence_at(s, i) {
        lemma_next_fence_bounds(s, i + 1);
    }
}

/// A run of plain prose ends between where it begins and the end of the text. Every character
/// of it is plain, and what follows it is not: the text ends there, or a directive or a code
/// region begins.
pub proof fn lemma_text_end_bounds(s: Seq<char>, i: int)
    requires
        0 <= i <= s.len(),
    ensures
        i <= text_end(s, i) <= s.len(),
        forall|k: int| i <= k < text_end(s, i) ==> is_plain(s, k),
        !is_plain(s, text_end(s, i)),
    decreases s.len() - i,
{
    if is_plain(s, i) {
        lemma_text_end_bounds(s, i + 1);
    }
}

/// Every token is at least one character long and ends within the text.
pub proof fn lemma_token_bounds(s: Seq<char>, i: int)
    requires
        0 <= i < s.len(),
    ensures
        i < token_at(s, i).end <= s.len(),
{
    match directive_at(s, i) {
        Some(directive) => {
            let keyword = keyword_at(s, i + 1)->0;
            let after = i + 1 + keyword.letters().len();
            if keyword.takes_name() {
                lemma_name_end_bounds(s, after + 1);
                lemma_blank_end_bounds(s, name_end(s, after + 1));
            } else {
                lemma_blank_end_bounds(s, after);
            }
        },
        None => match region_at(s, i) {
            Some(region) => {
                if region.fenced {
                    lemma_next_fence_bounds(s, i + 3);
                } else {
                    lemma_next_tick_bounds(s, i + 1);
                }
            },
            None => {
                lemma_text_end_bounds(s, i + 1);
            },
        },
    }
}

} // verus!
