//! What a listing holds, and the visitor that collects it.

use crate::tree::{NodeRef, NodeView};
use crate::walk::{visit_fits, visited, walk_fits, walked, Visitor};
use vstd::prelude::*;
use vstd::string::StringExecFns;

verus! {

/// How a listing shows a group: its name, then a slash.
pub open spec fn group_label(name: Seq<char>) -> Seq<char> {
    name.push('/')
}

/// What a listing along `path` records of `node` itself when it meets it at
/// `depth`. Past the end of the path every group and every titled entry is
/// recorded; before it, only an entry whose title is the segment at `depth`.
pub open spec fn shown(node: NodeView, path: Seq<Seq<char>>, depth: nat) -> Seq<Seq<char>> {
    match node {
        NodeView::Group(g) => if depth >= path.len() {
            seq![group_label(g.name)]
        } else {
            Seq::empty()
        },
        NodeView::Entry(e) => match e.title {
            Some(title) => if depth >= path.len() || title == path[depth as int] {
                seq![title]
            } else {
                Seq::empty()
            },
            None => Seq::empty(),
        },
    }
}

/// The listing along `path` of `children`, which lie at `depth`: what each
/// member contributes, in order.
pub open spec fn listing(children: Seq<NodeView>, path: Seq<Seq<char>>, depth: nat) -> Seq<
    Seq<char>,
>
    decreases children,
{
    if children.len() == 0 {
        Seq::empty()
    } else {
        listing(children.drop_last(), path, depth) + node_listing(children.last(), path, depth)
    }
}

/// What `node`, met at `depth`, contributes to the listing along `path`: a
/// group named by the segment at `depth` contributes the listing of its
/// members one level down and is not recorded itself; any other node
/// contributes what is recorded of it.
pub open spec fn node_listing(node: NodeView, path: Seq<Seq<char>>, depth: nat) -> Seq<Seq<char>>
    decreases node,
{
    match node {
        NodeView::Group(g) if depth < path.len() && g.name == path[depth as int] => listing(
            g.children,
            path,
            depth + 1,
        ),
        _ => shown(node, path, depth),
    }
}

/// How a listing shows `node`: a group as its name and a slash, a titled
/// entry as its title, an entry without a title not at all.
pub open spec fn label(node: NodeView) -> Option<Seq<char>> {
    match node {
        NodeView::Group(g) => Some(group_label(g.name)),
        NodeView::Entry(e) => e.title,
    }
}

/// The labels of those among `children` that have one, in their order.
/// Nothing below a member takes part.
pub open spec fn labels(children: Seq<NodeView>) -> Seq<Seq<char>> {
    children.filter(|node: NodeView| label(node) is Some).map_values(
        |node: NodeView| label(node)->Some_0,
    )
}

/// The labels of a sequence with one more member.
pub proof fn lemma_labels_push(children: Seq<NodeView>, node: NodeView)
    ensures
        labels(children.push(node)) == match label(node) {
            Some(text) => labels(children).push(text),
            None => labels(children),
        },
{
    reveal(Seq::filter);
    assert(children.push(node).drop_last() == children);
    let has = |node: NodeView| label(node) is Some;
    let of = |node: NodeView| label(node)->Some_0;
    if label(node) is Some {
        assert(children.filter(has).push(node).map_values(of) == children.filter(has).map_values(
            of,
        ).push(of(node)));
    }
}

/// Once the path is used up, the listing is the labels of the members: each
/// group and each titled entry, in stored order, and nothing from below any
/// of them. This is the listing of the root for the empty path.
pub proof fn lemma_listing_past_path(children: Seq<NodeView>, path: Seq<Seq<char>>, depth: nat)
    requires
        depth >= path.len(),
    ensures
        listing(children, path, depth) == labels(children),
    decreases children.len(),
{
    if children.len() == 0 {
        reveal(Seq::filter);
        assert(labels(children) == Seq::<Seq<char>>::empty());
    } else {
        let rest = children.drop_last();
        let node = children.last();
        lemma_listing_past_path(rest, path, depth);
        lemma_labels_push(rest, node);
        assert(rest.push(node) == children);
        assert(listing(children, path, depth) == listing(rest, path, depth) + node_listing(
            node,
            path,
            depth,
        ));
        assert(node_listing(node, path, depth) == shown(node, path, depth));
        match label(node) {
            Some(text) => {
                assert(shown(node, path, depth) == seq![text]);
                assert(labels(rest) + seq![text] == labels(rest).push(text));
            },
            None => {
                assert(shown(node, path, depth) == Seq::<Seq<char>>::empty());
                assert(labels(rest) + Seq::<Seq<char>>::empty() == labels(rest));
            },
        }
    }
}

/// The visitor that collects a listing.
pub struct Lister<'a> {
    pub path: &'a [String],
    pub found: Vec<String>,
}

/// The mathematical value of a [`Lister`].
pub struct ListerView {
    pub path: Seq<Seq<char>>,
    pub found: Seq<Seq<char>>,
}

impl<'a> View for Lister<'a> {
    type V = ListerView;

    open spec fn view(&self) -> ListerView {
        ListerView { path: self.path.deep_view(), found: self.found.deep_view() }
    }
}

impl<'a> Visitor for Lister<'a> {
    open spec fn enters(state: ListerView, node: NodeView, depth: nat) -> bool {
        depth < state.path.len() && node.is_group_named(state.path[depth as int])
    }

    open spec fn after(state: ListerView, node: NodeView, depth: nat) -> ListerView {
        ListerView { path: state.path, found: state.found + shown(node, state.path, depth) }
    }

    fn decide(&mut self, node: NodeRef<'_>, depth: usize) -> (enter: bool) {
        let ghost found = self.found.deep_view();
        match node {
            NodeRef::Group(group) => {
                if depth >= self.path.len() {
                    let mut label = group.name.clone();
                    label.append("/");
                    proof {
                        reveal_strlit("/");
                        assert(label@ == group_label(group.name@));
                    }
                    self.found.push(label);
                    assert(self.found.deep_view() == found + seq![label@]);
                    false
                } else {
                    assert(found + Seq::<Seq<char>>::empty() == found);
                    group.name == self.path[depth]
                }
            },
            NodeRef::Entry(entry) => {
                assert(found + Seq::<Seq<char>>::empty() == found);
                match &entry.title {
                    Some(title) => {
                        if depth >= self.path.len() || *title == self.path[depth] {
                            self.found.push(title.clone());
                            assert(self.found.deep_view() == found + seq![title@]);
                        }
                    },
                    None => {},
                }
                false
            },
        }
    }
}

/// A traversal by a [`Lister`] adds the listing of the members to what the
/// lister had found, and keeps its path.
pub proof fn lemma_walked_lists(children: Seq<NodeView>, depth: nat, state: ListerView)
    ensures
        walked::<Lister<'static>>(children, depth, state) == (ListerView {
            path: state.path,
            found: state.found + listing(children, state.path, depth),
        }),
    decreases children,
{
    if children.len() == 0 {
        assert(state.found + Seq::<Seq<char>>::empty() == state.found);
    } else {
        let rest = children.drop_last();
        lemma_walked_lists(rest, depth, state);
        let mid = walked::<Lister<'static>>(rest, depth, state);
        lemma_visited_lists(children.last(), depth, mid);
        assert((state.found + listing(rest, state.path, depth)) + node_listing(
            children.last(),
            state.path,
            depth,
        ) == state.found + listing(children, state.path, depth));
    }
}

/// The same of one node: the lister gains what the node contributes.
pub proof fn lemma_visited_lists(node: NodeView, depth: nat, state: ListerView)
    ensures
        visited::<Lister<'static>>(node, depth, state) == (ListerView {
            path: state.path,
            found: state.found + node_listing(node, state.path, depth),
        }),
    decreases node,
{
    match node {
        NodeView::Group(g) if Lister::<'static>::enters(state, node, depth) => {
            let seen = Lister::<'static>::after(state, node, depth);
            assert(state.found + Seq::<Seq<char>>::empty() == state.found);
            assert(seen == state);
            lemma_walked_lists(g.children, depth + 1, seen);
        },
        _ => {},
    }
}

/// The depth counter of a traversal by a [`Lister`] stays within `usize`: it
/// enters no group at or beyond the length of its path.
pub proof fn lemma_lister_fits(children: Seq<NodeView>, depth: nat, state: ListerView)
    requires
        state.path.len() <= usize::MAX,
    ensures
        walk_fits::<Lister<'static>>(children, depth, state),
    decreases children,
{
    if children.len() > 0 {
        let rest = children.drop_last();
        let node = children.last();
        lemma_lister_fits(rest, depth, state);
        lemma_walked_lists(rest, depth, state);
        let mid = walked::<Lister<'static>>(rest, depth, state);
        match node {
            NodeView::Group(g) if Lister::<'static>::enters(mid, node, depth) => {
                let seen = Lister::<'static>::after(mid, node, depth);
                lemma_lister_fits(g.children, depth + 1, seen);
            },
            _ => {},
        }
        assert(visit_fits::<Lister<'static>>(node, depth, mid));
    }
}

} // verus!
