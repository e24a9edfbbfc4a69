use crate::syntax::is_name_char;
use vstd::prelude::*;

verus! {

/// The condition under which a branch of a conditional block is taken.
#[derive(Debug, PartialEq, Eq)]
pub enum Guard {
    /// The opening branch: taken when the named flag is active.
    If(String),
    /// A later branch: taken when the named flag is active.
    Elif(String),
    /// The closing fallback: always taken.
    Else,
}

/// One branch of a conditional block: a guard, and the nodes it guards.
#[derive(Debug, PartialEq, Eq)]
pub struct Branch {
    pub guard: Guard,
    pub body: Vec<Node>,
}

/// One node of a parsed document.
#[derive(Debug, PartialEq, Eq)]
pub enum Node {
    /// Plain prose.
    Text(String),
    /// A fenced code block, delimiters included. Never interpreted.
    CodeFence(String),
    /// An inline code span, delimiters included. Never interpreted.
    CodeSnippet(String),
    /// A guard on the whole document, naming one flag.
    FileGuard(String),
    /// An `if` / `elif` / `else` block, closed by its `end`.
    ConditionalBlock { branches: Vec<Branch> },
}

/// The mathematical value of a [`Guard`].
pub enum GuardView {
    If(Seq<char>),
    Elif(Seq<char>),
    Else,
}

/// The mathematical value of a [`Branch`].
pub struct BranchView {
    pub guard: GuardView,
    pub body: Seq<NodeView>,
}

/// The mathematical value of a [`Node`].
pub enum NodeView {
    Text(Seq<char>),
    CodeFence(Seq<char>),
    CodeSnippet(Seq<char>),
    FileGuard(Seq<char>),
    ConditionalBlock { branches: Seq<BranchView> },
}

impl View for Guard {
    type V = GuardView;

    open spec fn view(&self) -> GuardView {
        match self {
            Guard::If(name) => GuardView::If(name@),
            Guard::Elif(name) => GuardView::Elif(name@),
            Guard::Else => GuardView::Else,
        }
    }
}

impl View for Node {
    type V = NodeView;

    open spec fn view(&self) -> NodeView
        decreases self,
    {
        match self {
            Node::Text(text) => NodeView::Text(text@),
            Node::CodeFence(text) => NodeView::CodeFence(text@),
            Node::CodeSnippet(text) => NodeView::CodeSnippet(text@),
            Node::FileGuard(name) => NodeView::FileGuard(name@),
            Node::ConditionalBlock { branches } => NodeView::ConditionalBlock {
                branches: branches_view(branches@),
            },
        }
    }
}

impl View for Branch {
    type V = BranchView;

    open spec fn view(&self) -> BranchView
        decreases self,
    {
        BranchView { guard: self.guard@, body: nodes_view(self.body@) }
    }
}

/// The values of a sequence of nodes, in order.
pub open spec fn nodes_view(nodes: Seq<Node>) -> Seq<NodeView>
    decreases nodes,
{
    Seq::new(
        nodes.len(),
        |i: int|
            if 0 <= i < nodes.len() {
                nodes[i]@
            } else {
                NodeView::Text(Seq::empty())
            },
    )
}

/// The values of a sequence of branches, in order.
pub open spec fn branches_view(branches: Seq<Branch>) -> Seq<BranchView>
    decreases branches,
{
    Seq::new(
        branches.len(),
        |i: int|
            if 0 <= i < branches.len() {
                branches[i]@
            } else {
                BranchView { guard: GuardView::Else, body: Seq::empty() }
            },
    )
}

/// The values of a sequence with one more node are the values of the sequence with the value
/// of that node behind them.
pub proof fn lemma_nodes_view_push(nodes: Seq<Node>, node: Node)
    ensures
        nodes_view(nodes.push(node)) == nodes_view(nodes).push(node@),
{
    assert(nodes_view(nodes.push(node)) =~= nodes_view(nodes).push(node@));
}

/// The values of a sequence with one more branch are the values of the sequence with the value
/// of that branch behind them.
pub proof fn lemma_branches_view_push(branches: Seq<Branch>, branch: Branch)
    ensures
        branches_view(branches.push(branch)) == branches_view(branches).push(branch@),
{
    assert(branches_view(branches.push(branch)) =~= branches_view(branches).push(branch@));
}

/// Whether `name` can name a flag in a directive: it is not empty and made of name characters.
pub open spec fn is_flag_name(name: Seq<char>) -> bool {
    &&& name.len() > 0
    &&& forall|i: int| 0 <= i < name.len() ==> is_name_char(#[trigger] name[i])
}

/// Whether a guard names a flag properly, if it names one.
pub open spec fn guard_named(guard: GuardView) -> bool {
    match guard {
        GuardView::If(name) => is_flag_name(name),
        GuardView::Elif(name) => is_flag_name(name),
        GuardView::Else => true,
    }
}

/// Whether the branches are those of one block: an `if` branch first, then `elif` branches,
/// then at most one `else` branch, which is the last.
pub open spec fn guards_in_order(branches: Seq<BranchView>) -> bool {
    &&& branches.len() > 0
    &&& branches[0].guard is If
    &&& forall|k: int|
        0 < k < branches.len() ==> {
            ||| (#[trigger] branches[k]).guard is Elif
            ||| branches[k].guard is Else && k == branches.len() - 1
        }
}

/// Whether a node is one that a document can hold: its flag names are proper and, in every
/// block in it, the branches are in order.
pub open spec fn well_formed(node: NodeView) -> bool
    decreases node,
{
    match node {
        NodeView::FileGuard(name) => is_flag_name(name),
        NodeView::ConditionalBlock { branches } => {
            &&& guards_in_order(branches)
            &&& forall|k: int|
                0 <= k < branches.len() ==> guard_named((#[trigger] branches[k]).guard)
                    && all_well_formed(branches[k].body)
        },
        _ => true,
    }
}

/// Whether every node of a sequence is well formed.
pub open spec fn all_well_formed(nodes: Seq<NodeView>) -> bool
    decreases nodes,
{
    forall|k: int| 0 <= k < nodes.len() ==> well_formed(#[trigger] nodes[k])
}

} // verus!
