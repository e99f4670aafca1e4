//! Depth-first traversal of the tree, pruned by the caller's visitor.

use crate::tree::{NodeRef, NodeView};
use vstd::prelude::*;

verus! {

/// What a traversal consults at every node it reaches. The visitor keeps the
/// results, and decides at each group whether the traversal enters it.
pub trait Visitor: View {
    /// Whether a visitor in `state` lets the traversal enter `node`, which it
    /// sees at `depth`. The answer counts for groups only.
    spec fn enters(state: Self::V, node: NodeView, depth: nat) -> bool;

    /// The state that seeing `node` at `depth` leaves a visitor in `state` in.
    spec fn after(state: Self::V, node: NodeView, depth: nat) -> Self::V;

    /// Sees `node` at `depth`, and says whether to enter it.
    fn decide(&mut self, node: NodeRef<'_>, depth: usize) -> (enter: bool)
        ensures
            enter == Self::enters(old(self)@, node@, depth as nat),
            final(self)@ == Self::after(old(self)@, node@, depth as nat),
    ;
}

/// The visitor's state after a traversal of `children`, which lie at
/// `depth`, that began in `state`: the members are seen in order, and a group
/// that the visitor approves of is traversed, one level down, before its
/// next sibling is seen.
pub open spec fn walked<V: Visitor>(children: Seq<NodeView>, depth: nat, state: V::V) -> V::V
    decreases children,
{
    if children.len() == 0 {
        state
    } else {
        visited::<V>(children.last(), depth, walked::<V>(children.drop_last(), depth, state))
    }
}

/// The visitor's state after it has seen `node` at `depth` and, where `node`
/// is a group that it approves of, the traversal of that group's members.
pub open spec fn visited<V: Visitor>(node: NodeView, depth: nat, state: V::V) -> V::V
    decreases node,
{
    match node {
        NodeView::Group(g) if V::enters(state, node, depth) => walked::<V>(
            g.children,
            depth + 1,
            V::after(state, node, depth),
        ),
        _ => V::after(state, node, depth),
    }
}

/// Whether the depth counter of a traversal of `children` that begins at
/// `depth` in `state` stays within `usize`: the visitor approves of no group
/// at depth `usize::MAX`.
pub open spec fn walk_fits<V: Visitor>(children: Seq<NodeView>, depth: nat, state: V::V) -> bool
    decreases children,
{
    if children.len() == 0 {
        true
    } else {
        &&& walk_fits::<V>(children.drop_last(), depth, state)
        &&& visit_fits::<V>(
            children.last(),
            depth,
            walked::<V>(children.drop_last(), depth, state),
        )
    }
}

/// Whether the depth counter stays within `usize` from the moment the
/// visitor, in `state`, sees `node` at `depth`.
pub open spec fn visit_fits<V: Visitor>(node: NodeView, depth: nat, state: V::V) -> bool
    decreases node,
{
    match node {
        NodeView::Group(g) if V::enters(state, node, depth) => {
            &&& depth < usize::MAX
            &&& walk_fits::<V>(g.children, depth + 1, V::after(state, node, depth))
        },
        _ => true,
    }
}

/// How many levels of groups lie among `children` and below them.
pub open spec fn levels(children: Seq<NodeView>) -> nat
    decreases children,
{
    if children.len() == 0 {
        0
    } else {
        let before = levels(children.drop_last());
        let last = node_levels(children.last());
        if before >= last {
            before
        } else {
            last
        }
    }
}

/// How many levels of groups `node` makes with what lies below it.
pub open spec fn node_levels(node: NodeView) -> nat
    decreases node,
{
    match node {
        NodeView::Group(g) => 1 + levels(g.children),
        NodeView::Entry(_) => 0,
    }
}

/// Whatever the visitor does, the depth counter of a traversal stays within
/// `usize` where the levels of the tree do.
pub proof fn lemma_shallow_walk_fits<V: Visitor>(children: Seq<NodeView>, depth: nat, state: V::V)
    requires
        depth + levels(children) <= usize::MAX,
    ensures
        walk_fits::<V>(children, depth, state),
    decreases children,
{
    if children.len() > 0 {
        lemma_shallow_walk_fits::<V>(children.drop_last(), depth, state);
        lemma_shallow_visit_fits::<V>(
            children.last(),
            depth,
            walked::<V>(children.drop_last(), depth, state),
        );
    }
}

/// The same from one node on.
pub proof fn lemma_shallow_visit_fits<V: Visitor>(node: NodeView, depth: nat, state: V::V)
    requires
        depth + node_levels(node) <= usize::MAX,
    ensures
        visit_fits::<V>(node, depth, state),
    decreases node,
{
    match node {
        NodeView::Group(g) if V::enters(state, node, depth) => {
            lemma_shallow_walk_fits::<V>(g.children, depth + 1, V::after(state, node, depth));
        },
        _ => {},
    }
}

} // verus!
