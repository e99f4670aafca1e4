//! The query engine: the unlocked tree and the two queries it answers.

use crate::listing::{
    labels, lemma_lister_fits, lemma_listing_past_path, lemma_walked_lists, listing, Lister,
};
use crate::tree::{lookup, EntryView, Group, GroupView, Node, NodeRef, NodeView};
use crate::walk::{visit_fits, visited, walk_fits, walked, Visitor};
use vstd::prelude::*;

verus! {

/// The unlocked tree, as the queries see it.
#[derive(Debug)]
pub struct State {
    pub root: Group,
}

/// The attribute of an entry that a query asks for.
#[derive(Clone, Copy, Debug, PartialEq, Eq, Structural)]
pub enum Method {
    GetUsername,
    GetPassword,
}

impl Method {
    /// The text of `entry` that the method names.
    pub open spec fn of(self, entry: EntryView) -> Option<Seq<char>> {
        match self {
            Method::GetUsername => entry.username,
            Method::GetPassword => entry.password,
        }
    }
}

/// The answer to a query for the attribute `method` of the node that `path`
/// addresses below `root`: the attribute where the path leads to an entry
/// that has it, and nothing where the path leads to a group, to no node, or
/// to an entry without it.
pub open spec fn attribute_at(
    root: GroupView,
    path: Seq<Seq<char>>,
    method: Method,
) -> Option<Seq<char>> {
    match lookup(root, path) {
        Some(NodeView::Entry(entry)) => method.of(entry),
        _ => None,
    }
}

impl View for State {
    type V = GroupView;

    open spec fn view(&self) -> GroupView {
        self.root@
    }
}

impl State {
    /// Traverses the members of `group`, which lie at `depth`, depth first:
    /// `visitor` sees every member in order, and each member group that it
    /// approves of is traversed before the next sibling is seen.
    pub fn walk<V: Visitor>(group: &Group, depth: usize, visitor: &mut V)
        requires
            walk_fits::<V>(group@.children, depth as nat, old(visitor)@),
        ensures
            final(visitor)@ == walked::<V>(group@.children, depth as nat, old(visitor)@),
        decreases group,
    {
        let ghost children = group@.children;
        let ghost start = visitor@;
        let mut i: usize = 0;
        while i < group.children.len()
            invariant
                i <= group.children.len(),
                children == group@.children,
                walk_fits::<V>(children, depth as nat, start),
                visitor@ == walked::<V>(children.take(i as int), depth as nat, start),
            decreases group.children.len() - i,
        {
            proof {
                assert(children.take(i + 1).drop_last() == children.take(i as int));
                assert(children.take(i + 1).last() == group.children@[i as int]@);
                lemma_fits_prefix::<V>(children, depth as nat, start, i + 1);
                assert(visit_fits::<V>(children[i as int], depth as nat, visitor@));
            }
            let ghost before = visitor@;
            let child = &group.children[i];
            match child {
                Node::Group(inner) => {
                    assert(children[i as int] == NodeView::Group(inner@));
                    if visitor.decide(child.to_ref(), depth) {
                        Self::walk(inner, depth + 1, visitor);
                    }
                },
                Node::Entry(e) => {
                    assert(children[i as int] == NodeView::Entry(e@));
                    visitor.decide(child.to_ref(), depth);
                },
            }
            assert(visitor@ == visited::<V>(children[i as int], depth as nat, before));
            i += 1;
        }
        assert(children.take(i as int) == children);
    }

    /// Lists the nodes at `path`: below every chain of groups that the
    /// segments name in turn, each group as its name and a slash, each titled
    /// entry as its title, and on the way down each entry whose title is the
    /// segment at its depth. The names come in the order of the traversal.
    pub fn list(&self, path: &[String]) -> (names: Vec<String>)
        ensures
            names.deep_view() == listing(self@.children, path.deep_view(), 0),
            path.len() == 0 ==> names.deep_view() == labels(self@.children),
    {
        let mut lister = Lister { path, found: Vec::new() };
        proof {
            assert(path@.len() == path.len());
            if path.len() == 0 {
                lemma_listing_past_path(self@.children, path.deep_view(), 0);
            }
            lemma_lister_fits(self@.children, 0, lister@);
            lemma_walked_lists(self@.children, 0, lister@);
            assert(lister@.found + listing(self@.children, path.deep_view(), 0) == listing(
                self@.children,
                path.deep_view(),
                0,
            ));
        }
        Self::walk(&self.root, 0, &mut lister);
        lister.found
    }

    /// Fetches the attribute `method` of the entry that `path` addresses, by
    /// first match at every level.
    pub fn get(&self, path: &[String], method: Method) -> (value: Option<String>)
        ensures
            value.deep_view() == attribute_at(self@, path.deep_view(), method),
            !(lookup(self@, path.deep_view()) matches Some(NodeView::Entry(_))) ==> value is None,
    {
        match self.root.get(path) {
            Some(NodeRef::Entry(entry)) => match method {
                Method::GetUsername => entry.username.clone(),
                Method::GetPassword => entry.password.clone(),
            },
            _ => None,
        }
    }
}

/// A query for an attribute has no answer unless its path leads to an entry
/// that holds the attribute: none for the root, none where a segment finds
/// nothing, none where the entry lacks it. Where there is an answer, it is
/// that one attribute of that one entry.
pub proof fn lemma_attribute_needs_entry(root: GroupView, path: Seq<Seq<char>>, method: Method)
    ensures
        !(lookup(root, path) matches Some(NodeView::Entry(_))) ==> attribute_at(root, path, method)
            is None,
        path.len() == 0 ==> attribute_at(root, path, method) is None,
        lookup(root, path) matches Some(NodeView::Entry(entry)) ==> attribute_at(
            root,
            path,
            method,
        ) == method.of(entry),
{
}

/// Queries leave no trace: the tree and the path decide what a listing
/// holds, so that any two runs of [`State::list`] on one tree and one path
/// give the same names.
pub proof fn lemma_list_repeats(
    state: &State,
    path: &[String],
    first: Vec<String>,
    second: Vec<String>,
)
    requires
        call_ensures(State::list, (state, path), first),
        call_ensures(State::list, (state, path), second),
    ensures
        first.deep_view() == second.deep_view(),
{
}

/// The same of [`State::get`]: any two runs on one tree, one path and one
/// method give the same answer.
pub proof fn lemma_get_repeats(
    state: &State,
    path: &[String],
    method: Method,
    first: Option<String>,
    second: Option<String>,
)
    requires
        call_ensures(State::get, (state, path, method), first),
        call_ensures(State::get, (state, path, method), second),
    ensures
        first.deep_view() == second.deep_view(),
{
}

/// A traversal whose depth counter fits does so on every prefix of the
/// members.
proof fn lemma_fits_prefix<V: Visitor>(children: Seq<NodeView>, depth: nat, state: V::V, n: int)
    requires
        walk_fits::<V>(children, depth, state),
        0 <= n <= children.len(),
    ensures
        walk_fits::<V>(children.take(n), depth, state),
    decreases children.len(),
{
    if n < children.len() {
        assert(children.drop_last().take(n) == children.take(n));
        lemma_fits_prefix::<V>(children.drop_last(), depth, state, n);
    } else {
        assert(children.take(n) == children);
    }
}

} // verus!
