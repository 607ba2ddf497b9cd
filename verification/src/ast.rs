//! The syntax tree: expression nodes stored in a `la_arena` arena and
//! referred to by index.

use vstd::prelude::*;
use la_arena::{Arena, Idx, RawIdx};
use crate::span::Span;

verus! {

/// `la_arena::Arena`, the store of syntax-tree nodes.
#[verifier::external_type_specification]
#[verifier::external_body]
#[verifier::reject_recursive_types(T)]
pub struct ExArena<T>(Arena<T>);

/// A binary arithmetic operator.
#[derive(Debug, PartialEq, Eq, Structural, PartialOrd, Ord, Clone, Copy)]
pub enum Op {
    Add,
    Sub,
    Mul,
    Div,
    Rem,
}

/// A unary operator.
#[derive(Debug, PartialEq, Eq, Structural, PartialOrd, Ord, Clone, Copy)]
pub enum UnaryOp {
    Neg,
}

/// A literal value.
#[derive(Debug, PartialEq, Eq, Structural, PartialOrd, Ord, Clone, Copy)]
pub enum Literal {
    Int(i64),
}

/// The index of a node in its syntax tree: the position at which the arena
/// allocated it.
#[derive(Debug, PartialEq, Eq, Structural, PartialOrd, Ord, Clone, Copy)]
pub struct NodeId(pub u32);

/// An expression; its operands are other nodes of the same tree.
#[derive(Debug, PartialEq, Eq, PartialOrd, Ord, Clone)]
pub enum Expr {
    Literal(Literal),
    BinaryOp { op: Op, left: NodeId, right: NodeId },
    UnaryOp { op: UnaryOp, operand: NodeId },
    Block { statements: Vec<NodeId>, tail: Option<NodeId> },
}

/// An expression with the span of source text it was parsed from.
#[derive(Debug, PartialEq, Eq, PartialOrd, Ord)]
pub struct Node {
    pub expr: Expr,
    pub span: Span,
}

/// The nodes of one parsed module.
pub type SyntaxTree = Arena<Node>;

/// The `module` declaration of a file.
#[derive(Debug, PartialEq, Eq)]
pub struct ModuleDecl {
    pub path_span: Span,
}

/// A parsed module: its tree, the top-level expressions in source order, and
/// its declaration.
#[derive(Debug, PartialEq, Eq)]
pub struct ParsedModule {
    pub tree: SyntaxTree,
    pub expr_roots: Vec<NodeId>,
    pub decl: ModuleDecl,
}

/// The nodes an arena holds, in allocation order.
pub uninterp spec fn tree_nodes(tree: Arena<Node>) -> Seq<Node>;

/// An empty syntax tree.
///
/// Trusted: `la_arena::Arena::new` builds an arena over an empty `Vec`.
#[verifier::external_body]
pub(crate) fn tree_new() -> (t: SyntaxTree)
    ensures
        tree_nodes(t) == Seq::<Node>::empty(),
{
    Arena::new()
}

/// The number of nodes in the tree.
///
/// Trusted: `la_arena::Arena::len` returns the length of the arena's `Vec`.
#[verifier::external_body]
pub(crate) fn tree_len(tree: &SyntaxTree) -> (n: usize)
    ensures
        n == tree_nodes(*tree).len(),
{
    tree.len()
}

/// Appends a node to the tree and returns its index.
///
/// Trusted: `la_arena::Arena::alloc` pushes the value on its `Vec` and
/// returns the `Vec`'s former length as the index (`len as u32`, exact while
/// the length fits in a `u32`, which the `requires` asks).
#[verifier::external_body]
pub(crate) fn tree_alloc(tree: &mut SyntaxTree, node: Node) -> (id: NodeId)
    requires
        tree_nodes(*old(tree)).len() < u32::MAX,
    ensures
        tree_nodes(*final(tree)) == tree_nodes(*old(tree)).push(node),
        id.0 == tree_nodes(*old(tree)).len(),
{
    let idx = tree.alloc(node);
    NodeId(idx.into_raw().into_u32())
}

/// The node at an index.
///
/// Trusted: indexing a `la_arena::Arena` with `Idx::from_raw(RawIdx::from_u32(i))`
/// returns the `Vec` element at `i`, and panics when `i` is out of range,
/// which the `requires` excludes.
#[verifier::external_body]
pub(crate) fn tree_get(tree: &SyntaxTree, id: NodeId) -> (n: &Node)
    requires
        (id.0 as int) < tree_nodes(*tree).len(),
    ensures
        *n == tree_nodes(*tree)[id.0 as int],
{
    &tree[Idx::from_raw(RawIdx::from_u32(id.0))]
}

} // verus!
