use crate::syntax::{
    Directive, Keyword, Lexeme, Region, SENTINEL, TICK, blank, blank_end, directive_at, fence_at,
    find_keyword, is_plain, lemma_next_fence_bounds, lemma_token_bounds, name_char, name_end,
    next_fence, next_tick, region_at, text_end, tick_at, token_at,
};
use crate::text::string_of;
use vstd::prelude::*;

verus! {

/// One token of a document.
#[derive(Debug, PartialEq, Eq)]
pub enum Token {
    /// A run of plain prose.
    Text(String),
    /// A fenced code block, delimiters included.
    CodeFence(String),
    /// An inline code span, delimiters included.
    CodeSnippet(String),
    /// A `file` directive and the flag it names.
    FileGuard(String),
    /// An `if` directive and the flag it names.
    If(String),
    /// An `elif` directive and the flag it names.
    Elif(String),
    /// An `else` directive.
    Else,
    /// An `end` directive.
    End,
}

impl View for Token {
    type V = Lexeme;

    open spec fn view(&self) -> Lexeme {
        match self {
            Token::Text(text) => Lexeme::Text(text@),
            Token::CodeFence(text) => Lexeme::CodeFence(text@),
            Token::CodeSnippet(text) => Lexeme::CodeSnippet(text@),
            Token::FileGuard(name) => Lexeme::FileGuard(name@),
            Token::If(name) => Lexeme::If(name@),
            Token::Elif(name) => Lexeme::Elif(name@),
            Token::Else => Lexeme::Else,
            Token::End => Lexeme::End,
        }
    }
}

fn skip_names(chars: &Vec<char>, i: usize) -> (end: usize)
    requires
        i <= chars.len(),
    ensures
        end == name_end(chars@, i as int),
        i <= end <= chars.len(),
{
    let mut j: usize = i;
    while j < chars.len() && name_char(chars[j])
        invariant
            i <= j <= chars.len(),
            name_end(chars@, i as int) == name_end(chars@, j as int),
        decreases chars.len() - j,
    {
        j += 1;
    }
    j
}

fn skip_blanks(chars: &Vec<char>, i: usize) -> (end: usize)
    requires
        i <= chars.len(),
    ensures
        end == blank_end(chars@, i as int),
        i <= end <= chars.len(),
{
    let mut j: usize = i;
    while j < chars.len() && blank(chars[j])
        invariant
            i <= j <= chars.len(),
            blank_end(chars@, i as int) == blank_end(chars@, j as int),
        decreases chars.len() - j,
    {
        j += 1;
    }
    j
}

fn is_tick(chars: &Vec<char>, i: usize) -> (yes: bool)
    ensures
        yes == tick_at(chars@, i as int),
{
    i < chars.len() && chars[i] == TICK
}

fn is_fence(chars: &Vec<char>, i: usize) -> (yes: bool)
    ensures
        yes == fence_at(chars@, i as int),
{
    if i < chars.len() && chars.len() - i >= 3 {
        chars[i] == TICK && chars[i + 1] == TICK && chars[i + 2] == TICK
    } else {
        false
    }
}

fn find_tick(chars: &Vec<char>, i: usize) -> (at: usize)
    requires
        i <= chars.len(),
    ensures
        at == next_tick(chars@, i as int),
        i <= at <= chars.len(),
{
    let mut j: usize = i;
    while j < chars.len() && !is_tick(chars, j)
        invariant
            i <= j <= chars.len(),
            next_tick(chars@, i as int) == next_tick(chars@, j as int),
        decreases chars.len() - j,
    {
        j += 1;
    }
    j
}

fn find_fence(chars: &Vec<char>, i: usize) -> (at: usize)
    requires
        i <= chars.len(),
    ensures
        at == next_fence(chars@, i as int),
        i <= at <= chars.len(),
{
    let mut j: usize = i;
    while j < chars.len() && !is_fence(chars, j)
        invariant
            i <= j <= chars.len(),
            next_fence(chars@, i as int) == next_fence(chars@, j as int),
        decreases chars.len() - j,
    {
        j += 1;
    }
    j
}

struct FoundDirective {
    keyword: Keyword,
    name_from: usize,
    name_to: usize,
    end: usize,
}

fn scan_directive(chars: &Vec<char>, i: usize) -> (found: Option<FoundDirective>)
    requires
        i < chars.len(),
    ensures
        match found {
            Some(d) => {
                &&& d.name_from <= d.name_to <= d.end <= chars.len()
                &&& i < d.end
                &&& directive_at(chars@, i as int) == Some(
                    Directive {
                        keyword: d.keyword,
                        name: chars@.subrange(d.name_from as int, d.name_to as int),
                        end: d.end as int,
                    },
                )
            },
            None => directive_at(chars@, i as int) is None,
        },
{
    if chars[i] != SENTINEL {
        return None;
    }
    let keyword = match find_keyword(chars, i + 1) {
        Some(keyword) => keyword,
        None => {
            return None;
        },
    };
    let after = i + 1 + match keyword {
        Keyword::If => 2,
        Keyword::End => 3,
        _ => 4,
    };
    assert(after == i + 1 + keyword.letters().len());
    assert(after <= chars.len());
    match keyword {
        Keyword::Else | Keyword::End => {
            let end = skip_blanks(chars, after);
            assert(chars@.subrange(after as int, after as int) == Seq::<char>::empty());
            Some(FoundDirective { keyword, name_from: after, name_to: after, end })
        },
        _ => {
            if after < chars.len() && chars[after] == '_' && after + 1 < chars.len() && name_char(
                chars[after + 1],
            ) {
                let name_to = skip_names(chars, after + 1);
                let end = skip_blanks(chars, name_to);
                Some(FoundDirective { keyword, name_from: after + 1, name_to, end })
            } else {
                None
            }
        },
    }
}

fn scan_region(chars: &Vec<char>, i: usize) -> (found: Option<(bool, usize)>)
    requires
        i < chars.len(),
    ensures
        match found {
            Some((fenced, end)) => {
                &&& i < end <= chars.len()
                &&& region_at(chars@, i as int) == Some(Region { fenced, end: end as int })
            },
            None => region_at(chars@, i as int) is None,
        },
{
    if chars[i] != TICK {
        return None;
    }
    if is_fence(chars, i) {
        let close = find_fence(chars, i + 3);
        if close < chars.len() {
            proof {
                lemma_next_fence_bounds(chars@, i + 3);
            }
            return Some((true, close + 3));
        }
    }
    let close = find_tick(chars, i + 1);
    if close < chars.len() {
        Some((false, close + 1))
    } else {
        None
    }
}

fn scan_text(chars: &Vec<char>, i: usize) -> (end: usize)
    requires
        i <= chars.len(),
    ensures
        end == text_end(chars@, i as int),
        i <= end <= chars.len(),
{
    let mut j: usize = i;
    while j < chars.len()
        invariant
            i <= j <= chars.len(),
            text_end(chars@, i as int) == text_end(chars@, j as int),
        decreases chars.len() - j,
    {
        if scan_directive(chars, j).is_some() || scan_region(chars, j).is_some() {
            return j;
        }
        assert(is_plain(chars@, j as int));
        j += 1;
    }
    j
}

/// Reads the token that begins at position `i` of `chars`, and says where the next begins.
pub fn next_token(chars: &Vec<char>, i: usize) -> (next: (Token, usize))
    requires
        i < chars.len(),
    ensures
        next.0@ == token_at(chars@, i as int).lexeme,
        next.1 == token_at(chars@, i as int).end,
        i < next.1 <= chars.len(),
{
    proof {
        lemma_token_bounds(chars@, i as int);
    }
    if let Some(d) = scan_directive(chars, i) {
        let token = match d.keyword {
            Keyword::If => Token::If(string_of(chars, d.name_from, d.name_to)),
            Keyword::Elif => Token::Elif(string_of(chars, d.name_from, d.name_to)),
            Keyword::Else => Token::Else,
            Keyword::End => Token::End,
            Keyword::File => Token::FileGuard(string_of(chars, d.name_from, d.name_to)),
        };
        return (token, d.end);
    }
    if let Some((fenced, end)) = scan_region(chars, i) {
        let text = string_of(chars, i, end);
        let token = if fenced {
            Token::CodeFence(text)
        } else {
            Token::CodeSnippet(text)
        };
        return (token, end);
    }
    let end = scan_text(chars, i);
    (Token::Text(string_of(chars, i, end)), end)
}

} // verus!
