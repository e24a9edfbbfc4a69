use crate::grammer::{
    OutcomeView, eval_node, eval_nodes, guard_holds, is_taken, lemma_eval_concat,
    lemma_eval_single, outcome_of, taken_branch,
};
use crate::parser::{leaf_of, parse_document, parse_nodes};
use crate::syntax::{
    Lexeme, directive_at, has_marker, keyword_at, lemma_token_bounds, marker_at, same_letter,
    token_at, word_at,
};
use crate::tree::{BranchView, GuardView, NodeView};
use vstd::prelude::*;

verus! {

/// At most one branch of a block is the first whose guard holds.
pub proof fn lemma_taken_is_unique(
    branches: Seq<BranchView>,
    flags: Set<Seq<char>>,
    k: int,
)
    requires
        is_taken(branches, flags, k),
    ensures
        taken_branch(branches, flags) == Some(k),
{
    let chosen = choose|j: int| is_taken(branches, flags, j);
    assert(is_taken(branches, flags, chosen));
    if chosen < k {
        assert(!guard_holds(branches[chosen].guard, flags));
    } else if k < chosen {
        assert(!guard_holds(branches[k].guard, flags));
    }
}

/// A conditional block contributes what the body of the first branch whose guard holds
/// contributes, and drops the document where that body does.
pub proof fn lemma_block_takes_first(branches: Seq<BranchView>, flags: Set<Seq<char>>, k: int)
    requires
        is_taken(branches, flags, k),
    ensures
        eval_node(NodeView::ConditionalBlock { branches }, flags) == eval_nodes(
            branches[k].body,
            flags,
        ),
{
    lemma_taken_is_unique(branches, flags, k);
}

/// A conditional block none of whose guards holds contributes nothing, and drops nothing.
pub proof fn lemma_block_without_taken_branch(branches: Seq<BranchView>, flags: Set<Seq<char>>)
    requires
        forall|k: int| 0 <= k < branches.len() ==> !guard_holds(#[trigger] branches[k].guard, flags),
    ensures
        eval_node(NodeView::ConditionalBlock { branches }, flags) == Some(Seq::<char>::empty()),
{
    assert(forall|k: int| !is_taken(branches, flags, k));
}

/// Of a block `if first`, `elif second`, `else`, only the `elif` body counts when `second` is
/// active and `first` is not: the block contributes what that body does, whatever the other
/// two bodies hold.
pub proof fn lemma_elif_branch_selected(
    first: Seq<char>,
    second: Seq<char>,
    if_body: Seq<NodeView>,
    elif_body: Seq<NodeView>,
    else_body: Seq<NodeView>,
    flags: Set<Seq<char>>,
)
    requires
        !flags.contains(first),
        flags.contains(second),
    ensures
        eval_node(
            NodeView::ConditionalBlock {
                branches: seq![
                    BranchView { guard: GuardView::If(first), body: if_body },
                    BranchView { guard: GuardView::Elif(second), body: elif_body },
                    BranchView { guard: GuardView::Else, body: else_body },
                ],
            },
            flags,
        ) == eval_nodes(elif_body, flags),
{
    let branches = seq![
        BranchView { guard: GuardView::If(first), body: if_body },
        BranchView { guard: GuardView::Elif(second), body: elif_body },
        BranchView { guard: GuardView::Else, body: else_body },
    ];
    assert(is_taken(branches, flags, 1));
    lemma_block_takes_first(branches, flags, 1);
}

/// Code contributes its own text, whatever stands in it and whatever flags are active.
pub proof fn lemma_code_is_verbatim(text: Seq<char>, flags: Set<Seq<char>>)
    ensures
        eval_node(NodeView::CodeFence(text), flags) == Some(text),
        eval_node(NodeView::CodeSnippet(text), flags) == Some(text),
{
}

/// A node that drops the document drops it wherever it stands in a sequence, whatever stands
/// in front of it and behind it.
pub proof fn lemma_drop_propagates(nodes: Seq<NodeView>, flags: Set<Seq<char>>, k: int)
    requires
        0 <= k < nodes.len(),
        eval_node(nodes[k], flags) is None,
    ensures
        eval_nodes(nodes, flags) is None,
{
    let front = nodes.take(k);
    let back = nodes.skip(k + 1);
    assert(nodes == front + (seq![nodes[k]] + back));
    lemma_eval_single(nodes[k], flags);
    lemma_eval_concat(seq![nodes[k]], back, flags);
    lemma_eval_concat(front, seq![nodes[k]] + back, flags);
}

/// Whether a file guard on the flag `name` is reached when `node` is evaluated under `flags`:
/// the node is such a guard, or a block whose taken branch reaches one.
pub open spec fn node_reaches_guard(node: NodeView, flags: Set<Seq<char>>, name: Seq<char>) -> bool
    decreases node,
{
    match node {
        NodeView::FileGuard(guarded) => guarded == name,
        NodeView::ConditionalBlock { branches } => match taken_branch(branches, flags) {
            Some(k) => 0 <= k < branches.len() && reaches_guard(branches[k].body, flags, name),
            None => false,
        },
        _ => false,
    }
}

/// Whether a file guard on the flag `name` is reached when `nodes` are evaluated under `flags`:
/// it stands among them, in front of other nodes or behind them, or in the taken branch of a
/// block among them, however deep.
pub open spec fn reaches_guard(nodes: Seq<NodeView>, flags: Set<Seq<char>>, name: Seq<char>) -> bool
    decreases nodes,
{
    exists|k: int| 0 <= k < nodes.len() && node_reaches_guard(#[trigger] nodes[k], flags, name)
}

/// A file guard on a flag that is not active drops the document from wherever it is reached:
/// among the nodes of the document, or inside taken branches, however deep.
pub proof fn lemma_unmet_guard_drops(nodes: Seq<NodeView>, flags: Set<Seq<char>>, name: Seq<char>)
    requires
        reaches_guard(nodes, flags, name),
        !flags.contains(name),
    ensures
        eval_nodes(nodes, flags) is None,
    decreases nodes,
{
    let k = choose|k: int| 0 <= k < nodes.len() && node_reaches_guard(#[trigger] nodes[k], flags, name);
    match nodes[k] {
        NodeView::ConditionalBlock { branches } => {
            let taken = taken_branch(branches, flags)->0;
            lemma_unmet_guard_drops(branches[taken].body, flags, name);
        },
        _ => {},
    }
    lemma_drop_propagates(nodes, flags, k);
}

/// A document that parses and reaches a file guard on a flag that is not active is dropped.
pub proof fn lemma_unmet_guard_drops_document(
    document: Seq<char>,
    flags: Set<Seq<char>>,
    name: Seq<char>,
)
    requires
        parse_document(document) matches Ok(nodes) && reaches_guard(nodes, flags, name),
        !flags.contains(name),
    ensures
        outcome_of(document, flags) == OutcomeView::Dropped,
{
    lemma_unmet_guard_drops(parse_document(document)->Ok_0, flags, name);
}

/// Whether a token is literal: prose in which the sentinel nowhere stands with a keyword right
/// behind it, or code.
pub open spec fn is_literal(lexeme: Lexeme) -> bool {
    match lexeme {
        Lexeme::Text(text) => !has_marker(text),
        Lexeme::CodeFence(_) => true,
        Lexeme::CodeSnippet(_) => true,
        _ => false,
    }
}

/// Whether every token of `s` from position `i` on is literal: outside code, `s` holds no
/// directive and nothing that looks like the beginning of one.
pub open spec fn is_literal_from(s: Seq<char>, i: int) -> bool
    decreases s.len() - i,
{
    if i < 0 || i >= s.len() {
        true
    } else {
        proof {
            lemma_token_bounds(s, i);
        }
        is_literal(token_at(s, i).lexeme) && is_literal_from(s, token_at(s, i).end)
    }
}

/// From a position on from which every token is literal, the nodes run to the end of the text
/// and contribute the text itself, whatever flags are active.
pub proof fn lemma_literal_tail_is_kept(s: Seq<char>, i: int, flags: Set<Seq<char>>)
    requires
        0 <= i <= s.len(),
        is_literal_from(s, i),
    ensures
        parse_nodes(s, i) matches Ok((nodes, stop)) && stop == s.len() && eval_nodes(nodes, flags)
            == Some(s.subrange(i, s.len() as int)),
    decreases s.len() - i,
{
    if i >= s.len() {
        assert(s.subrange(i, s.len() as int) == Seq::<char>::empty());
    } else {
        lemma_token_bounds(s, i);
        let token = token_at(s, i);
        lemma_literal_tail_is_kept(s, token.end, flags);
        let rest = parse_nodes(s, token.end)->Ok_0.0;
        let node = leaf_of(token.lexeme);
        assert(eval_node(node, flags) == Some(s.subrange(i, token.end)));
        lemma_eval_single(node, flags);
        lemma_eval_concat(seq![node], rest, flags);
        assert(s.subrange(i, token.end) + s.subrange(token.end, s.len() as int) == s.subrange(
            i,
            s.len() as int,
        ));
    }
}

/// A document all of whose tokens are literal is kept as it is, whatever flags are active:
/// what stands in code does not count, be it directives.
pub proof fn lemma_literal_document_is_kept(document: Seq<char>, flags: Set<Seq<char>>)
    requires
        is_literal_from(document, 0),
    ensures
        outcome_of(document, flags) == OutcomeView::Success(document),
{
    lemma_literal_tail_is_kept(document, 0, flags);
    assert(document.subrange(0, document.len() as int) == document);
}

/// A word that stands in a part of a text stands in the text, at the same place.
pub proof fn lemma_word_in_part(s: Seq<char>, from: int, to: int, i: int, word: Seq<char>)
    requires
        0 <= from <= to <= s.len(),
        word_at(s.subrange(from, to), i, word),
    ensures
        word_at(s, from + i, word),
{
    let part = s.subrange(from, to);
    assert forall|k: int| 0 <= k < word.len() implies same_letter(
        s[from + i + k],
        #[trigger] word[k],
    ) by {
        assert(part[i + k] == s[from + i + k]);
    }
}

/// Where the sentinel stands in a part of a text with a keyword right behind it, it does so in
/// the text.
pub proof fn lemma_marker_in_part(s: Seq<char>, from: int, to: int)
    requires
        0 <= from <= to <= s.len(),
        has_marker(s.subrange(from, to)),
    ensures
        has_marker(s),
{
    let part = s.subrange(from, to);
    let k = choose|k: int| marker_at(part, k);
    assert(part[k] == s[from + k]);
    let keyword = keyword_at(part, k + 1)->0;
    lemma_word_in_part(s, from, to, k + 1, keyword.letters());
    assert(marker_at(s, from + k));
}

/// In a text in which the sentinel nowhere stands with a keyword right behind it, every token
/// is literal.
pub proof fn lemma_no_marker_is_literal(s: Seq<char>, i: int)
    requires
        !has_marker(s),
        0 <= i <= s.len(),
    ensures
        is_literal_from(s, i),
    decreases s.len() - i,
{
    if i < s.len() {
        lemma_token_bounds(s, i);
        let token = token_at(s, i);
        assert(!marker_at(s, i));
        assert(directive_at(s, i) is None);
        if let Lexeme::Text(text) = token.lexeme {
            if has_marker(text) {
                lemma_marker_in_part(s, i, token.end);
            }
        }
        lemma_no_marker_is_literal(s, token.end);
    }
}

/// A document without directives is kept as it is: where the sentinel nowhere stands with a
/// keyword right behind it, the outcome is the document itself, whatever flags are active.
pub proof fn lemma_plain_document_is_kept(document: Seq<char>, flags: Set<Seq<char>>)
    requires
        !has_marker(document),
    ensures
        outcome_of(document, flags) == OutcomeView::Success(document),
{
    lemma_no_marker_is_literal(document, 0);
    lemma_literal_document_is_kept(document, flags);
}

/// Evaluation does nothing to a text that it has resolved: where the outcome of a document
/// holds no directive syntax any more, evaluating that outcome again gives it back unchanged,
/// whatever flags are active then.
pub proof fn lemma_resolved_output_is_stable(
    document: Seq<char>,
    flags: Set<Seq<char>>,
    output: Seq<char>,
    again: Set<Seq<char>>,
)
    requires
        outcome_of(document, flags) == OutcomeView::Success(output),
        !has_marker(output),
    ensures
        outcome_of(output, again) == OutcomeView::Success(output),
{
    lemma_plain_document_is_kept(output, again);
}

} // verus!
