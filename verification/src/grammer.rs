use crate::flags::FlagsHolder;
use crate::parser::{Fault, ParseError, parse, parse_document};
use crate::syntax::{find_marker, has_marker};
use crate::text::chars_of;
use crate::tree::{Branch, BranchView, Guard, GuardView, Node, NodeView, branches_view, nodes_view};
use vstd::prelude::*;
use vstd::string::StringExecFns;

verus! {

/// Whether a branch under `guard` is open when `flags` are the active flags.
pub open spec fn guard_holds(guard: GuardView, flags: Set<Seq<char>>) -> bool {
    match guard {
        GuardView::If(name) => flags.contains(name),
        GuardView::Elif(name) => flags.contains(name),
        GuardView::Else => true,
    }
}

/// Whether branch `k` is the first of `branches` whose guard holds.
pub open spec fn is_taken(branches: Seq<BranchView>, flags: Set<Seq<char>>, k: int) -> bool {
    &&& 0 <= k < branches.len()
    &&& guard_holds(branches[k].guard, flags)
    &&& forall|j: int| 0 <= j < k ==> !guard_holds(#[trigger] branches[j].guard, flags)
}

/// The branch of a conditional block that is taken: the first whose guard holds, if any.
pub open spec fn taken_branch(branches: Seq<BranchView>, flags: Set<Seq<char>>) -> Option<int> {
    if exists|k: int| is_taken(branches, flags, k) {
        Some(choose|k: int| is_taken(branches, flags, k))
    } else {
        None
    }
}

/// What one node contributes to the output, or `None` where it drops the whole document.
///
/// Plain text stands for itself, unless the sentinel stands in it with a keyword right behind
/// it: that is directive syntax gone astray, and drops the document. Code stands for itself
/// whatever it holds. A file guard contributes nothing, and drops the document when its flag is
/// not active. A conditional block contributes what the body of its taken branch does, and
/// nothing when no branch is taken.
pub open spec fn eval_node(node: NodeView, flags: Set<Seq<char>>) -> Option<Seq<char>>
    decreases node,
{
    match node {
        NodeView::Text(text) => if has_marker(text) {
            None
        } else {
            Some(text)
        },
        NodeView::CodeFence(text) => Some(text),
        NodeView::CodeSnippet(text) => Some(text),
        NodeView::FileGuard(name) => if flags.contains(name) {
            Some(Seq::empty())
        } else {
            None
        },
        NodeView::ConditionalBlock { branches } => match taken_branch(branches, flags) {
            Some(k) => if 0 <= k < branches.len() {
                eval_nodes(branches[k].body, flags)
            } else {
                Some(Seq::empty())
            },
            None => Some(Seq::empty()),
        },
    }
}

/// What a sequence of nodes contributes to the output: the contributions of its nodes, one
/// after the other, or `None` where any of them drops the whole document.
pub open spec fn eval_nodes(nodes: Seq<NodeView>, flags: Set<Seq<char>>) -> Option<Seq<char>>
    decreases nodes,
{
    if nodes.len() == 0 {
        Some(Seq::empty())
    } else {
        match (eval_node(nodes[0], flags), eval_nodes(nodes.drop_first(), flags)) {
            (Some(first), Some(rest)) => Some(first + rest),
            _ => None,
        }
    }
}

/// The contributions of `front` and then `back` are those of `front` followed by those of
/// `back`; either dropping the document drops it.
pub proof fn lemma_eval_concat(front: Seq<NodeView>, back: Seq<NodeView>, flags: Set<Seq<char>>)
    ensures
        eval_nodes(front + back, flags) == match (
            eval_nodes(front, flags),
            eval_nodes(back, flags),
        ) {
            (Some(first), Some(rest)) => Some(first + rest),
            _ => None,
        },
    decreases front.len(),
{
    if front.len() == 0 {
        assert(front + back == back);
        if let Some(rest) = eval_nodes(back, flags) {
            assert(Seq::<char>::empty() + rest == rest);
        }
    } else {
        assert((front + back).drop_first() == front.drop_first() + back);
        assert((front + back)[0] == front[0]);
        lemma_eval_concat(front.drop_first(), back, flags);
        match (
            eval_node(front[0], flags),
            eval_nodes(front.drop_first(), flags),
            eval_nodes(back, flags),
        ) {
            (Some(a), Some(b), Some(c)) => {
                assert(a + (b + c) == (a + b) + c);
            },
            _ => {},
        }
    }
}

/// A single node contributes as a sequence what it contributes as a node.
pub proof fn lemma_eval_single(node: NodeView, flags: Set<Seq<char>>)
    ensures
        eval_nodes(seq![node], flags) == eval_node(node, flags),
{
    let one = seq![node];
    assert(one.drop_first() == Seq::<NodeView>::empty());
    assert(eval_nodes(one.drop_first(), flags) == Some(Seq::<char>::empty()));
    assert(one[0] == node);
    if let Some(text) = eval_node(node, flags) {
        assert(text + Seq::<char>::empty() == text);
    }
}

/// Whether to go on with the document or to drop it.
#[derive(Debug, Clone, Copy, PartialEq, Eq, Structural)]
pub enum Flow {
    Continue,
    Drop,
}

/// Walks a parsed document under a set of active flags and gathers the text that remains.
pub struct FakeMarkdownParser<'a> {
    contents: String,
    ctx: &'a FlagsHolder,
}

impl<'a> FakeMarkdownParser<'a> {
    /// The text gathered so far.
    pub closed spec fn contents(&self) -> Seq<char> {
        self.contents@
    }

    /// The active flags.
    pub closed spec fn flags(&self) -> Set<Seq<char>> {
        self.ctx@
    }

    /// A walker that has gathered nothing yet.
    pub fn new(ctx: &'a FlagsHolder) -> (parser: Self)
        ensures
            parser.contents() == Seq::<char>::empty(),
            parser.flags() == ctx@,
    {
        Self { contents: String::new(), ctx }
    }

    /// Decides a file guard on the flag `name`: the document goes on if the flag is active and
    /// is dropped if not.
    pub fn check_file_flag(&self, name: &str) -> (flow: Flow)
        ensures
            flow == if self.flags().contains(name@) {
                Flow::Continue
            } else {
                Flow::Drop
            },
    {
        if self.ctx.contains(name) {
            Flow::Continue
        } else {
            Flow::Drop
        }
    }

    fn guard_open(&self, guard: &Guard) -> (open: bool)
        ensures
            open == guard_holds(guard@, self.flags()),
    {
        match guard {
            Guard::If(name) => self.ctx.contains(name.as_str()),
            Guard::Elif(name) => self.ctx.contains(name.as_str()),
            Guard::Else => true,
        }
    }

    /// Walks a conditional block: gathers the body of the first branch whose guard holds, and
    /// nothing if there is none.
    pub fn recursive_flag_statement_parser(&mut self, branches: &Vec<Branch>) -> (flow: Flow)
        ensures
            final(self).flags() == old(self).flags(),
            match eval_node(
                NodeView::ConditionalBlock { branches: branches_view(branches@) },
                old(self).flags(),
            ) {
                Some(text) => flow == Flow::Continue && final(self).contents() == old(
                    self,
                ).contents() + text,
                None => flow == Flow::Drop,
            },
        decreases branches,
    {
        let ghost all = branches_view(branches@);
        let ghost flags = self.flags();
        let mut k: usize = 0;
        while k < branches.len()
            invariant
                k <= branches.len(),
                all == branches_view(branches@),
                flags == self.flags(),
                *self == *old(self),
                forall|j: int| 0 <= j < k ==> !guard_holds(#[trigger] all[j].guard, flags),
            decreases branches.len() - k,
        {
            assert(all[k as int] == branches@[k as int]@);
            if self.guard_open(&branches[k].guard) {
                assert(is_taken(all, flags, k as int));
                assert(taken_branch(all, flags) == Some(k as int));
                assert(all[k as int].body == nodes_view(branches@[k as int].body@));
                return self.recursive_markdown_parser(&branches[k].body);
            }
            k += 1;
        }
        assert(taken_branch(all, flags) is None);
        assert(self.contents() + Seq::<char>::empty() == self.contents());
        Flow::Continue
    }

    /// Walks a sequence of nodes in order and gathers what each contributes, up to the first
    /// node that drops the document.
    pub fn recursive_markdown_parser(&mut self, nodes: &Vec<Node>) -> (flow: Flow)
        ensures
            final(self).flags() == old(self).flags(),
            match eval_nodes(nodes_view(nodes@), old(self).flags()) {
                Some(text) => flow == Flow::Continue && final(self).contents() == old(
                    self,
                ).contents() + text,
                None => flow == Flow::Drop,
            },
        decreases nodes,
    {
        let ghost all = nodes_view(nodes@);
        let ghost flags = self.flags();
        let ghost mut gathered = Seq::<char>::empty();
        assert(all.take(0) == Seq::<NodeView>::empty());
        assert(self.contents() + gathered == self.contents());
        let mut i: usize = 0;
        while i < nodes.len()
            invariant
                i <= nodes.len(),
                all == nodes_view(nodes@),
                flags == self.flags(),
                flags == old(self).flags(),
                eval_nodes(all.take(i as int), flags) == Some(gathered),
                self.contents() == old(self).contents() + gathered,
            decreases nodes.len() - i,
        {
            let ghost before = self.contents();
            proof {
                assert(all.take(i + 1) == all.take(i as int) + seq![all[i as int]]);
                assert(all == all.take(i + 1) + all.skip(i + 1));
                lemma_eval_concat(all.take(i as int), seq![all[i as int]], flags);
                lemma_eval_concat(all.take(i + 1), all.skip(i + 1), flags);
                lemma_eval_single(all[i as int], flags);
                assert(all[i as int] == nodes@[i as int]@);
            }
            let flow = match &nodes[i] {
                Node::Text(text) => {
                    let chars = chars_of(text.as_str());
                    if find_marker(&chars) {
                        Flow::Drop
                    } else {
                        self.contents.append(text.as_str());
                        Flow::Continue
                    }
                },
                Node::CodeFence(text) => {
                    self.contents.append(text.as_str());
                    Flow::Continue
                },
                Node::CodeSnippet(text) => {
                    self.contents.append(text.as_str());
                    Flow::Continue
                },
                Node::FileGuard(name) => {
                    assert(before + Seq::<char>::empty() == before);
                    self.check_file_flag(name.as_str())
                },
                Node::ConditionalBlock { branches } => self.recursive_flag_statement_parser(
                    branches,
                ),
            };
            match flow {
                Flow::Drop => {
                    return Flow::Drop;
                },
                Flow::Continue => {},
            }
            proof {
                let text = eval_node(all[i as int], flags)->0;
                assert(self.contents() == before + text);
                assert(old(self).contents() + (gathered + text) == (old(self).contents() + gathered)
                    + text);
                gathered = gathered + text;
            }
            i += 1;
        }
        assert(all.take(nodes.len() as int) == all);
        Flow::Continue
    }
}

/// How the evaluation of one document ends.
#[derive(Debug, PartialEq, Eq)]
pub enum Outcome {
    /// The document stays, with this text.
    Success(String),
    /// The document is to be left out as a whole.
    Dropped,
    /// The document is malformed.
    ParseError(ParseError),
}

/// The mathematical value of an [`Outcome`].
pub enum OutcomeView {
    Success(Seq<char>),
    Dropped,
    ParseError(Fault),
}

impl View for Outcome {
    type V = OutcomeView;

    open spec fn view(&self) -> OutcomeView {
        match self {
            Outcome::Success(text) => OutcomeView::Success(text@),
            Outcome::Dropped => OutcomeView::Dropped,
            Outcome::ParseError(error) => OutcomeView::ParseError(error@),
        }
    }
}

/// How the evaluation of `document` ends when `flags` are the active flags.
///
/// A document that does not parse ends in the first fault in it. One that parses ends in what
/// its nodes contribute, one after the other, or is dropped where one of them drops it.
pub open spec fn outcome_of(document: Seq<char>, flags: Set<Seq<char>>) -> OutcomeView {
    match parse_document(document) {
        Ok(nodes) => match eval_nodes(nodes, flags) {
            Some(text) => OutcomeView::Success(text),
            None => OutcomeView::Dropped,
        },
        Err(fault) => OutcomeView::ParseError(fault),
    }
}

/// Resolves the directives of `document_text` against `active_flags`.
pub fn evaluate(document_text: &str, active_flags: &FlagsHolder) -> (outcome: Outcome)
    ensures
        outcome@ == outcome_of(document_text@, active_flags@),
{
    let nodes = match parse(document_text) {
        Ok(nodes) => nodes,
        Err(error) => {
            return Outcome::ParseError(error);
        },
    };
    let mut walker = FakeMarkdownParser::new(active_flags);
    match walker.recursive_markdown_parser(&nodes) {
        Flow::Continue => {
            assert(Seq::<char>::empty() + walker.contents() == walker.contents());
            Outcome::Success(walker.contents)
        },
        Flow::Drop => Outcome::Dropped,
    }
}

impl<'a> FakeMarkdownParser<'a> {
    /// Resolves the directives of `string` against the flags `ctx`. Gives the text that remains,
    /// or `None` where the document is dropped or malformed.
    pub fn fake_markdown_parse_and_clean(string: &str, ctx: &'a FlagsHolder) -> (clean: Option<
        String,
    >)
        ensures
            match clean {
                Some(text) => outcome_of(string@, ctx@) == OutcomeView::Success(text@),
                None => !(outcome_of(string@, ctx@) is Success),
            },
    {
        match evaluate(string, ctx) {
            Outcome::Success(text) => Some(text),
            _ => None,
        }
    }
}

} // verus!
