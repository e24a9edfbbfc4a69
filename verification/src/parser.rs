use crate::lexer::{Token, next_token};
use crate::syntax::{
    Lexeme, directive_at, is_name_char, keyword_at, lemma_name_end_bounds, lemma_token_bounds,
    name_end, token_at,
};
use crate::text::chars_of;
use crate::tree::{
    Branch, BranchView, Guard, GuardView, Node, NodeView, all_well_formed, branches_view,
    guard_named, is_flag_name, lemma_branches_view_push, lemma_nodes_view_push, nodes_view,
    well_formed,
};
use vstd::prelude::*;

verus! {

/// What is wrong with a document that does not parse.
#[derive(Debug, Clone, Copy, PartialEq, Eq, Structural)]
pub enum ParseErrorKind {
    /// An `if` whose block is still open where the document ends.
    UnterminatedBlock,
    /// An `elif` outside any block, or behind the `else` of its block.
    UnexpectedElif,
    /// An `else` outside any block, or behind the `else` of its block.
    UnexpectedElse,
    /// An `end` outside any block.
    UnexpectedEnd,
}

/// Why a document does not parse, and where: `at` counts the characters in front of the
/// directive at fault.
#[derive(Debug, Clone, Copy, PartialEq, Eq, Structural)]
pub struct ParseError {
    pub kind: ParseErrorKind,
    pub at: usize,
}

/// The mathematical value of a [`ParseError`].
pub struct Fault {
    pub kind: ParseErrorKind,
    pub at: int,
}

impl View for ParseError {
    type V = Fault;

    open spec fn view(&self) -> Fault {
        Fault { kind: self.kind, at: self.at as int }
    }
}

/// The guard that a branch has from the directive that opens it.
pub open spec fn guard_of(lexeme: Lexeme) -> GuardView {
    match lexeme {
        Lexeme::If(name) => GuardView::If(name),
        Lexeme::Elif(name) => GuardView::Elif(name),
        _ => GuardView::Else,
    }
}

/// The node that a token is by itself, for the tokens that are one.
pub open spec fn leaf_of(lexeme: Lexeme) -> NodeView {
    match lexeme {
        Lexeme::CodeFence(text) => NodeView::CodeFence(text),
        Lexeme::CodeSnippet(text) => NodeView::CodeSnippet(text),
        Lexeme::FileGuard(name) => NodeView::FileGuard(name),
        Lexeme::Text(text) => NodeView::Text(text),
        _ => NodeView::Text(Seq::empty()),
    }
}

/// The nodes that stand in `s` from position `i` on, and where they stop: at the end of `s`, or
/// in front of the first `elif`, `else` or `end` that belongs to no block among them.
///
/// An `if` opens a block, which is one node; every other token is a node by itself.
pub open spec fn parse_nodes(s: Seq<char>, i: int) -> Result<(Seq<NodeView>, int), Fault>
    decreases s.len() - i, 1int,
{
    if i < 0 || i >= s.len() {
        Ok((Seq::empty(), i))
    } else {
        let token = token_at(s, i);
        match token.lexeme {
            Lexeme::Elif(_) => Ok((Seq::empty(), i)),
            Lexeme::Else => Ok((Seq::empty(), i)),
            Lexeme::End => Ok((Seq::empty(), i)),
            Lexeme::If(_) => match parse_branches(s, i, i, Seq::empty()) {
                Ok((block, next)) => if i < next <= s.len() {
                    match parse_nodes(s, next) {
                        Ok((rest, stop)) => Ok((seq![block] + rest, stop)),
                        Err(fault) => Err(fault),
                    }
                } else {
                    // A block is never empty: see `lemma_block_advances`.
                    Ok((seq![block], next))
                },
                Err(fault) => Err(fault),
            },
            leaf => {
                proof {
                    lemma_token_bounds(s, i);
                }
                match parse_nodes(s, token.end) {
                    Ok((rest, stop)) => Ok((seq![leaf_of(leaf)] + rest, stop)),
                    Err(fault) => Err(fault),
                }
            },
        }
    }
}

/// The block that was opened by the `if` at position `open` of `s`, and where the text goes on
/// behind its `end`, given that the branches `done` have been read and that the directive at
/// position `head` opens the next one.
///
/// The branch runs up to the next `elif`, `else` or `end` that belongs to no block inside it.
/// An `end` closes the block. An `elif` or `else` opens a further branch, unless the branch
/// that it follows is the `else` branch.
pub open spec fn parse_branches(s: Seq<char>, open: int, head: int, done: Seq<BranchView>) -> Result<
    (NodeView, int),
    Fault,
>
    decreases s.len() - head, 0int,
{
    if head < 0 || head >= s.len() {
        Err(Fault { kind: ParseErrorKind::UnterminatedBlock, at: open })
    } else {
        let guard = guard_of(token_at(s, head).lexeme);
        proof {
            lemma_token_bounds(s, head);
        }
        match parse_nodes(s, token_at(s, head).end) {
            Ok((body, stop)) => {
                let branches = done.push(BranchView { guard, body });
                // A branch never stops in front of its own head: see `lemma_nodes_advance`.
                if stop <= head || stop >= s.len() {
                    Err(Fault { kind: ParseErrorKind::UnterminatedBlock, at: open })
                } else {
                    match token_at(s, stop).lexeme {
                        Lexeme::Elif(_) => if guard is Else {
                            Err(Fault { kind: ParseErrorKind::UnexpectedElif, at: stop })
                        } else {
                            parse_branches(s, open, stop, branches)
                        },
                        Lexeme::Else => if guard is Else {
                            Err(Fault { kind: ParseErrorKind::UnexpectedElse, at: stop })
                        } else {
                            parse_branches(s, open, stop, branches)
                        },
                        _ => Ok((NodeView::ConditionalBlock { branches }, token_at(s, stop).end)),
                    }
                }
            },
            Err(fault) => Err(fault),
        }
    }
}

/// The kind of fault that a directive is where no block is open.
pub open spec fn stray_kind(lexeme: Lexeme) -> ParseErrorKind {
    match lexeme {
        Lexeme::Elif(_) => ParseErrorKind::UnexpectedElif,
        Lexeme::Else => ParseErrorKind::UnexpectedElse,
        _ => ParseErrorKind::UnexpectedEnd,
    }
}

/// The nodes of the document `s`, or the first fault in it.
///
/// A document is a sequence of nodes that runs to its end: an `elif`, `else` or `end` that
/// stops the sequence earlier belongs to no block, and is a fault.
pub open spec fn parse_document(s: Seq<char>) -> Result<Seq<NodeView>, Fault> {
    match parse_nodes(s, 0) {
        Ok((nodes, stop)) => if stop >= s.len() {
            Ok(nodes)
        } else {
            Err(Fault { kind: stray_kind(token_at(s, stop).lexeme), at: stop })
        },
        Err(fault) => Err(fault),
    }
}

/// A sequence of nodes stops at or behind the position where it begins, and within the text.
pub proof fn lemma_nodes_advance(s: Seq<char>, i: int)
    requires
        0 <= i <= s.len(),
    ensures
        parse_nodes(s, i) matches Ok((_, stop)) ==> i <= stop <= s.len(),
    decreases s.len() - i, 1int,
{
    if i < s.len() {
        let token = token_at(s, i);
        lemma_token_bounds(s, i);
        match token.lexeme {
            Lexeme::Elif(_) => {},
            Lexeme::Else => {},
            Lexeme::End => {},
            Lexeme::If(_) => {
                lemma_block_advances(s, i, i, Seq::empty());
                if let Ok((_, next)) = parse_branches(s, i, i, Seq::empty()) {
                    lemma_nodes_advance(s, next);
                }
            },
            _ => {
                lemma_nodes_advance(s, token.end);
            },
        }
    }
}

/// The text goes on behind a block at a position behind the head of each of its branches, and
/// within the text.
pub proof fn lemma_block_advances(s: Seq<char>, open: int, head: int, done: Seq<BranchView>)
    requires
        0 <= head < s.len(),
    ensures
        parse_branches(s, open, head, done) matches Ok((_, next)) ==> head < next <= s.len(),
    decreases s.len() - head, 0int,
{
    lemma_token_bounds(s, head);
    let from = token_at(s, head).end;
    lemma_nodes_advance(s, from);
    if let Ok((body, stop)) = parse_nodes(s, from) {
        if head < stop < s.len() {
            lemma_token_bounds(s, stop);
            let guard = guard_of(token_at(s, head).lexeme);
            let branches = done.push(BranchView { guard, body });
            match token_at(s, stop).lexeme {
                Lexeme::Elif(_) => {
                    if !(guard is Else) {
                        lemma_block_advances(s, open, stop, branches);
                    }
                },
                Lexeme::Else => {
                    if !(guard is Else) {
                        lemma_block_advances(s, open, stop, branches);
                    }
                },
                _ => {},
            }
        }
    }
}

/// Whether `done` can be the branches read so far of a block whose next branch the directive
/// `head` opens: nothing yet in front of the `if`, else an `if` branch and `elif` branches.
pub open spec fn branches_so_far(done: Seq<BranchView>, head: Lexeme) -> bool {
    &&& forall|k: int|
        0 <= k < done.len() ==> guard_named((#[trigger] done[k]).guard) && all_well_formed(
            done[k].body,
        )
    &&& if done.len() == 0 {
        head is If
    } else {
        &&& head is Elif || head is Else
        &&& done[0].guard is If
        &&& forall|k: int| 0 < k < done.len() ==> (#[trigger] done[k]).guard is Elif
    }
}

/// The name that a directive holds is a proper flag name.
pub proof fn lemma_directive_names_flag(s: Seq<char>, i: int)
    requires
        0 <= i < s.len(),
        directive_at(s, i) matches Some(directive) && directive.keyword.takes_name(),
    ensures
        is_flag_name(directive_at(s, i)->0.name),
{
    let keyword = keyword_at(s, i + 1)->0;
    let from = i + 2 + keyword.letters().len();
    lemma_name_end_bounds(s, from);
    lemma_name_end_bounds(s, from + 1);
    let name = s.subrange(from, name_end(s, from));
    assert forall|k: int| 0 <= k < name.len() implies is_name_char(#[trigger] name[k]) by {
        assert(name[k] == s[from + k]);
    }
}

/// Every node that stands in a text is well formed.
pub proof fn lemma_nodes_well_formed(s: Seq<char>, i: int)
    requires
        0 <= i <= s.len(),
    ensures
        parse_nodes(s, i) matches Ok((nodes, _)) ==> all_well_formed(nodes),
    decreases s.len() - i, 1int,
{
    if i < s.len() {
        let token = token_at(s, i);
        lemma_token_bounds(s, i);
        match token.lexeme {
            Lexeme::Elif(_) => {},
            Lexeme::Else => {},
            Lexeme::End => {},
            Lexeme::If(_) => {
                lemma_block_advances(s, i, i, Seq::empty());
                lemma_block_well_formed(s, i, i, Seq::empty());
                if let Ok((block, next)) = parse_branches(s, i, i, Seq::empty()) {
                    lemma_nodes_well_formed(s, next);
                    if let Ok((rest, _)) = parse_nodes(s, next) {
                        let nodes = seq![block] + rest;
                        assert forall|k: int| 0 <= k < nodes.len() implies well_formed(
                            #[trigger] nodes[k],
                        ) by {
                            if k > 0 {
                                assert(nodes[k] == rest[k - 1]);
                            }
                        }
                    }
                }
            },
            leaf => {
                lemma_nodes_well_formed(s, token.end);
                if let Lexeme::FileGuard(_) = leaf {
                    lemma_directive_names_flag(s, i);
                }
                if let Ok((rest, _)) = parse_nodes(s, token.end) {
                    let nodes = seq![leaf_of(leaf)] + rest;
                    assert forall|k: int| 0 <= k < nodes.len() implies well_formed(
                        #[trigger] nodes[k],
                    ) by {
                        if k > 0 {
                            assert(nodes[k] == rest[k - 1]);
                        }
                    }
                }
            },
        }
    }
}

/// Every block that stands in a text is well formed.
pub proof fn lemma_block_well_formed(s: Seq<char>, open: int, head: int, done: Seq<BranchView>)
    requires
        0 <= head < s.len(),
        branches_so_far(done, token_at(s, head).lexeme),
    ensures
        parse_branches(s, open, head, done) matches Ok((block, _)) ==> well_formed(block),
    decreases s.len() - head, 0int,
{
    lemma_token_bounds(s, head);
    let from = token_at(s, head).end;
    lemma_nodes_advance(s, from);
    lemma_nodes_well_formed(s, from);
    if let Ok((body, stop)) = parse_nodes(s, from) {
        if head < stop < s.len() {
            let guard = guard_of(token_at(s, head).lexeme);
            if !(token_at(s, head).lexeme is Else) {
                lemma_directive_names_flag(s, head);
            }
            let branches = done.push(BranchView { guard, body });
            assert forall|k: int| 0 <= k < branches.len() implies guard_named(
                (#[trigger] branches[k]).guard,
            ) && all_well_formed(branches[k].body) by {
                if k < done.len() {
                    assert(branches[k] == done[k]);
                }
            }
            assert forall|k: int| 0 < k < branches.len() implies {
                ||| (#[trigger] branches[k]).guard is Elif
                ||| branches[k].guard is Else && k == branches.len() - 1
            } by {
                if k < done.len() {
                    assert(branches[k] == done[k]);
                }
            }
            assert(branches[0].guard is If) by {
                if done.len() > 0 {
                    assert(branches[0] == done[0]);
                }
            }
            match token_at(s, stop).lexeme {
                Lexeme::Elif(_) => {
                    if !(guard is Else) {
                        lemma_block_well_formed(s, open, stop, branches);
                    }
                },
                Lexeme::Else => {
                    if !(guard is Else) {
                        lemma_block_well_formed(s, open, stop, branches);
                    }
                },
                _ => {},
            }
        }
    }
}

/// Every node of a document that parses is well formed.
pub proof fn lemma_document_well_formed(document: Seq<char>)
    ensures
        parse_document(document) matches Ok(nodes) ==> all_well_formed(nodes),
{
    lemma_nodes_well_formed(document, 0);
}

/// Whether a token stops a sequence of nodes.
pub open spec fn stops_nodes(lexeme: Lexeme) -> bool {
    lexeme is Elif || lexeme is Else || lexeme is End
}

/// Reads the nodes that stand in `chars` from position `i` on. Gives them with the position at
/// which they stop and, unless that is the end of the text, the token that stops them and the
/// position behind it.
fn read_nodes(chars: &Vec<char>, i: usize) -> (read: Result<
    (Vec<Node>, usize, Option<(Token, usize)>),
    ParseError,
>)
    requires
        i <= chars.len(),
    ensures
        parse_nodes(chars@, i as int) == match read {
            Ok((nodes, stop, _)) => Ok((nodes_view(nodes@), stop as int)),
            Err(error) => Err(error@),
        },
        read matches Ok((_, stop, stopper)) ==> {
            &&& i <= stop <= chars.len()
            &&& match stopper {
                Some((token, end)) => {
                    &&& stop < chars.len()
                    &&& token@ == token_at(chars@, stop as int).lexeme
                    &&& end == token_at(chars@, stop as int).end
                    &&& stops_nodes(token@)
                },
                None => stop == chars.len(),
            }
        },
    decreases chars.len() - i, 1int,
{
    let ghost s = chars@;
    let mut nodes: Vec<Node> = Vec::new();
    let mut j: usize = i;
    assert(nodes_view(nodes@) == Seq::<NodeView>::empty());
    loop
        invariant
            s == chars@,
            i <= j <= chars.len(),
            parse_nodes(s, i as int) == match parse_nodes(s, j as int) {
                Ok((rest, stop)) => Ok::<_, Fault>((nodes_view(nodes@) + rest, stop)),
                Err(fault) => Err(fault),
            },
        decreases chars.len() - j,
    {
        if j >= chars.len() {
            assert(nodes_view(nodes@) + Seq::<NodeView>::empty() == nodes_view(nodes@));
            return Ok((nodes, j, None));
        }
        let ghost before = nodes_view(nodes@);
        let (token, end) = next_token(chars, j);
        let (node, next) = match token {
            Token::Elif(name) => {
                assert(before + Seq::<NodeView>::empty() == before);
                return Ok((nodes, j, Some((Token::Elif(name), end))));
            },
            Token::Else => {
                assert(before + Seq::<NodeView>::empty() == before);
                return Ok((nodes, j, Some((Token::Else, end))));
            },
            Token::End => {
                assert(before + Seq::<NodeView>::empty() == before);
                return Ok((nodes, j, Some((Token::End, end))));
            },
            Token::If(name) => match read_block(chars, j, name, end) {
                Ok(block) => block,
                Err(error) => {
                    return Err(error);
                },
            },
            Token::Text(text) => (Node::Text(text), end),
            Token::CodeFence(text) => (Node::CodeFence(text), end),
            Token::CodeSnippet(text) => (Node::CodeSnippet(text), end),
            Token::FileGuard(name) => (Node::FileGuard(name), end),
        };
        proof {
            lemma_nodes_view_push(nodes@, node);
            if let Ok((rest, stop)) = parse_nodes(s, next as int) {
                assert(before + (seq![node@] + rest) == before.push(node@) + rest);
            }
        }
        nodes.push(node);
        j = next;
    }
}

/// Reads the block whose `if`, naming the flag `name`, stands at position `open` of `chars` and
/// ends in front of position `after`. Gives the block and the position behind its `end`.
fn read_block(chars: &Vec<char>, open: usize, name: String, after: usize) -> (read: Result<
    (Node, usize),
    ParseError,
>)
    requires
        open < after <= chars.len(),
        token_at(chars@, open as int).lexeme == Lexeme::If(name@),
        token_at(chars@, open as int).end == after,
    ensures
        parse_branches(chars@, open as int, open as int, Seq::empty()) == match read {
            Ok((block, next)) => Ok((block@, next as int)),
            Err(error) => Err(error@),
        },
        read matches Ok((_, next)) ==> open < next <= chars.len(),
    decreases chars.len() - open, 0int,
{
    let ghost s = chars@;
    let ghost mut head = open as int;
    let mut done: Vec<Branch> = Vec::new();
    let mut guard = Guard::If(name);
    let mut from: usize = after;
    assert(branches_view(done@) == Seq::<BranchView>::empty());
    loop
        invariant
            s == chars@,
            open <= head < from <= chars.len(),
            guard@ == guard_of(token_at(s, head).lexeme),
            from == token_at(s, head).end,
            parse_branches(s, open as int, open as int, Seq::empty()) == parse_branches(
                s,
                open as int,
                head,
                branches_view(done@),
            ),
        decreases chars.len() - head,
    {
        let (body, stop, stopper) = match read_nodes(chars, from) {
            Ok(found) => found,
            Err(error) => {
                return Err(error);
            },
        };
        let (token, end) = match stopper {
            Some(found) => found,
            None => {
                return Err(ParseError { kind: ParseErrorKind::UnterminatedBlock, at: open });
            },
        };
        let after_else = match guard {
            Guard::Else => true,
            _ => false,
        };
        let ghost branches = branches_view(done@).push(
            BranchView { guard: guard@, body: nodes_view(body@) },
        );
        proof {
            lemma_branches_view_push(done@, Branch { guard, body });
            lemma_token_bounds(s, stop as int);
        }
        match token {
            Token::Elif(next_name) => {
                if after_else {
                    return Err(ParseError { kind: ParseErrorKind::UnexpectedElif, at: stop });
                }
                done.push(Branch { guard, body });
                guard = Guard::Elif(next_name);
            },
            Token::Else => {
                if after_else {
                    return Err(ParseError { kind: ParseErrorKind::UnexpectedElse, at: stop });
                }
                done.push(Branch { guard, body });
                guard = Guard::Else;
            },
            _ => {
                done.push(Branch { guard, body });
                return Ok((Node::ConditionalBlock { branches: done }, end));
            },
        }
        from = end;
        proof {
            head = stop as int;
        }
    }
}

/// Parses a document that is given by its characters.
pub fn parse_chars(chars: &Vec<char>) -> (parsed: Result<Vec<Node>, ParseError>)
    ensures
        parse_document(chars@) == match parsed {
            Ok(nodes) => Ok(nodes_view(nodes@)),
            Err(error) => Err(error@),
        },
        parsed matches Ok(nodes) ==> all_well_formed(nodes_view(nodes@)),
{
    proof {
        lemma_document_well_formed(chars@);
    }
    match read_nodes(chars, 0) {
        Ok((nodes, stop, stopper)) => match stopper {
            None => Ok(nodes),
            Some((token, _)) => {
                let kind = match token {
                    Token::Elif(_) => ParseErrorKind::UnexpectedElif,
                    Token::Else => ParseErrorKind::UnexpectedElse,
                    _ => ParseErrorKind::UnexpectedEnd,
                };
                Err(ParseError { kind, at: stop })
            },
        },
        Err(error) => Err(error),
    }
}

/// Parses a document: gives its nodes, or the first fault in it.
pub fn parse(document: &str) -> (parsed: Result<Vec<Node>, ParseError>)
    ensures
        parse_document(document@) == match parsed {
            Ok(nodes) => Ok(nodes_view(nodes@)),
            Err(error) => Err(error@),
        },
        parsed matches Ok(nodes) ==> all_well_formed(nodes_view(nodes@)),
{
    let chars = chars_of(document);
    parse_chars(&chars)
}

} // verus!
