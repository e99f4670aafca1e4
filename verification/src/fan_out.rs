//! How a listing descends and fans out: what it holds where names are
//! unique, what it holds where they collide, and how it relates to the
//! first-match lookup.

use crate::listing::{labels, lemma_listing_past_path, listing, node_listing, shown};
use crate::tree::{
    first_entry, first_group, leads_entries, leads_groups, lemma_first_entry_is_first,
    lemma_first_group_is_first, lookup, GroupView, NodeView,
};
use vstd::prelude::*;

verus! {

/// Whether `node` answers to `name`: a group of that name, or an entry of
/// that title.
pub open spec fn answers_to(node: NodeView, name: Seq<char>) -> bool {
    node.is_group_named(name) || node.is_entry_titled(name)
}

/// How many of `children` are entries with the title `title`.
pub open spec fn entries_titled(children: Seq<NodeView>, title: Seq<char>) -> nat {
    children.filter(|node: NodeView| node.is_entry_titled(title)).len()
}

/// How many of `children` are groups with the name `name`.
pub open spec fn groups_named(children: Seq<NodeView>, name: Seq<char>) -> nat {
    children.filter(|node: NodeView| node.is_group_named(name)).len()
}

/// How many labels the groups among `children` with the name `name` show
/// of their own members, all together.
pub open spec fn members_shown(children: Seq<NodeView>, name: Seq<char>) -> nat
    decreases children.len(),
{
    if children.len() == 0 {
        0
    } else {
        members_shown(children.drop_last(), name) + match children.last() {
            NodeView::Group(g) if g.name == name => labels(g.children).len(),
            _ => 0,
        }
    }
}

/// Whether the member at `at` is a group with the name `name`, and the only
/// member that answers to `name`.
pub open spec fn sole_group(children: Seq<NodeView>, name: Seq<char>, at: int) -> bool {
    &&& 0 <= at < children.len()
    &&& children[at].is_group_named(name)
    &&& forall|i: int| 0 <= i < children.len() && i != at ==> !answers_to(children[i], name)
}

/// Whether the segments of `path` from `depth` on lead from `children` to
/// `members` without a choice: at every level exactly one member answers to
/// the segment, it is a group, and the way goes on among its members; at the
/// end of the path the way has arrived.
pub open spec fn leads_to(
    children: Seq<NodeView>,
    path: Seq<Seq<char>>,
    depth: nat,
    members: Seq<NodeView>,
) -> bool
    decreases path.len() - depth,
{
    if depth >= path.len() {
        members == children
    } else {
        exists|at: int|
            sole_group(children, path[depth as int], at) && leads_to(
                children[at]->Group_0.children,
                path,
                depth + 1,
                members,
            )
    }
}

/// How many entries `path` addresses among `children`, which lie at `depth`,
/// and below them, when every group that answers to its segment is entered
/// and every entry that answers to the last segment counts.
pub open spec fn addressed(children: Seq<NodeView>, path: Seq<Seq<char>>, depth: nat) -> nat
    decreases children,
{
    if children.len() == 0 {
        0
    } else {
        addressed(children.drop_last(), path, depth) + node_addressed(
            children.last(),
            path,
            depth,
        )
    }
}

/// How many entries `path` addresses at `node`, met at `depth`, and below.
pub open spec fn node_addressed(node: NodeView, path: Seq<Seq<char>>, depth: nat) -> nat
    decreases node,
{
    match node {
        NodeView::Group(g) if depth + 1 < path.len() && g.name == path[depth as int] => addressed(
            g.children,
            path,
            depth + 1,
        ),
        NodeView::Entry(e) if depth + 1 == path.len() && e.title == Some(path[depth as int]) => 1,
        _ => 0,
    }
}

/// What a member contributes to a listing does not depend on its siblings:
/// the listing of two runs of members, one after the other, is the listing
/// of the first and then that of the second.
pub proof fn lemma_listing_concat(
    first: Seq<NodeView>,
    second: Seq<NodeView>,
    path: Seq<Seq<char>>,
    depth: nat,
)
    ensures
        listing(first + second, path, depth) == listing(first, path, depth) + listing(
            second,
            path,
            depth,
        ),
    decreases second.len(),
{
    if second.len() == 0 {
        assert(first + second == first);
        assert(listing(first, path, depth) + Seq::<Seq<char>>::empty() == listing(
            first,
            path,
            depth,
        ));
    } else {
        lemma_listing_concat(first, second.drop_last(), path, depth);
        assert((first + second).drop_last() == first + second.drop_last());
        assert((first + second).last() == second.last());
        let tail = node_listing(second.last(), path, depth);
        assert((listing(first, path, depth) + listing(second.drop_last(), path, depth)) + tail
            == listing(first, path, depth) + (listing(second.drop_last(), path, depth) + tail));
    }
}

/// Before the end of the path, members none of which answers to the segment
/// at their depth list nothing.
pub proof fn lemma_listing_without_match(
    children: Seq<NodeView>,
    path: Seq<Seq<char>>,
    depth: nat,
)
    requires
        depth < path.len(),
        forall|i: int| 0 <= i < children.len() ==> !answers_to(children[i], path[depth as int]),
    ensures
        listing(children, path, depth) == Seq::<Seq<char>>::empty(),
    decreases children.len(),
{
    if children.len() > 0 {
        let node = children.last();
        lemma_listing_without_match(children.drop_last(), path, depth);
        assert(!answers_to(children[children.len() - 1], path[depth as int]));
        assert(node_listing(node, path, depth) == Seq::<Seq<char>>::empty());
        assert(Seq::<Seq<char>>::empty() + Seq::<Seq<char>>::empty() == Seq::<Seq<char>>::empty());
    }
}

/// Before the end of the path, where exactly one member answers to the
/// segment at its depth and that member is a group, the listing is that of
/// the group's members one level down.
pub proof fn lemma_listing_descends(
    children: Seq<NodeView>,
    path: Seq<Seq<char>>,
    depth: nat,
    at: int,
)
    requires
        depth < path.len(),
        sole_group(children, path[depth as int], at),
    ensures
        listing(children, path, depth) == listing(
            children[at]->Group_0.children,
            path,
            depth + 1,
        ),
{
    let before = children.take(at);
    let after = children.skip(at + 1);
    let inner = listing(children[at]->Group_0.children, path, depth + 1);
    assert(children == before.push(children[at]) + after);
    lemma_listing_concat(before.push(children[at]), after, path, depth);
    lemma_listing_without_match(before, path, depth);
    lemma_listing_without_match(after, path, depth);
    assert(before.push(children[at]).drop_last() == before);
    assert(node_listing(children[at], path, depth) == inner);
    assert(listing(before.push(children[at]), path, depth) == listing(before, path, depth)
        + inner);
    assert(Seq::<Seq<char>>::empty() + inner == inner);
    assert(inner + Seq::<Seq<char>>::empty() == inner);
}

/// Where a path leads to one group without a choice, its listing is the
/// labels of that group's members: each member group and each titled member
/// entry, in stored order.
pub proof fn lemma_listing_of_a_group(
    children: Seq<NodeView>,
    path: Seq<Seq<char>>,
    depth: nat,
    members: Seq<NodeView>,
)
    requires
        leads_to(children, path, depth, members),
    ensures
        listing(children, path, depth) == labels(members),
    decreases path.len() - depth,
{
    if depth >= path.len() {
        lemma_listing_past_path(children, path, depth);
    } else {
        let at = choose|at: int|
            sole_group(children, path[depth as int], at) && leads_to(
                children[at]->Group_0.children,
                path,
                depth + 1,
                members,
            );
        lemma_listing_descends(children, path, depth, at);
        lemma_listing_of_a_group(children[at]->Group_0.children, path, depth + 1, members);
    }
}

/// At the last segment of the path every member that answers to it is
/// reflected, however many there are: the listing holds one name for each
/// entry of that title, and the labels of the members of each group of that
/// name.
pub proof fn lemma_listing_counts(children: Seq<NodeView>, path: Seq<Seq<char>>, depth: nat)
    requires
        depth + 1 == path.len(),
    ensures
        listing(children, path, depth).len() == entries_titled(children, path[depth as int])
            + members_shown(children, path[depth as int]),
    decreases children.len(),
{
    reveal(Seq::filter);
    if children.len() > 0 {
        let rest = children.drop_last();
        let node = children.last();
        lemma_listing_counts(rest, path, depth);
        assert(listing(children, path, depth).len() == listing(rest, path, depth).len()
            + node_listing(node, path, depth).len());
        match node {
            NodeView::Group(g) if g.name == path[depth as int] => {
                lemma_listing_past_path(g.children, path, depth + 1);
                assert(node_listing(node, path, depth) == labels(g.children));
            },
            _ => {
                assert(node_listing(node, path, depth) == shown(node, path, depth));
            },
        }
    }
}

/// At the last segment of the path the listing has at least as many names
/// as members answer to the segment, provided that the groups among them
/// show, all together, at least as many members as there are such groups.
pub proof fn lemma_listing_fans_out(children: Seq<NodeView>, path: Seq<Seq<char>>, depth: nat)
    requires
        depth + 1 == path.len(),
        members_shown(children, path[depth as int]) >= groups_named(
            children,
            path[depth as int],
        ),
    ensures
        listing(children, path, depth).len() >= entries_titled(children, path[depth as int])
            + groups_named(children, path[depth as int]),
{
    lemma_listing_counts(children, path, depth);
}

/// A listing has a name for every entry that its path addresses, however
/// many groups and entries share a name on the way.
pub proof fn lemma_listing_shows_addressed(
    children: Seq<NodeView>,
    path: Seq<Seq<char>>,
    depth: nat,
)
    ensures
        listing(children, path, depth).len() >= addressed(children, path, depth),
    decreases children,
{
    if children.len() > 0 {
        let node = children.last();
        lemma_listing_shows_addressed(children.drop_last(), path, depth);
        lemma_node_listing_shows_addressed(node, path, depth);
    }
}

/// The same of one node.
pub proof fn lemma_node_listing_shows_addressed(node: NodeView, path: Seq<Seq<char>>, depth: nat)
    ensures
        node_listing(node, path, depth).len() >= node_addressed(node, path, depth),
    decreases node,
{
    match node {
        NodeView::Group(g) if depth + 1 < path.len() && g.name == path[depth as int] => {
            lemma_listing_shows_addressed(g.children, path, depth + 1);
        },
        _ => {},
    }
}

/// Each member's share is part of the count.
proof fn lemma_addressed_holds_member(
    children: Seq<NodeView>,
    path: Seq<Seq<char>>,
    depth: nat,
    at: int,
)
    requires
        0 <= at < children.len(),
    ensures
        addressed(children, path, depth) >= node_addressed(children[at], path, depth),
    decreases children.len(),
{
    if at < children.len() - 1 {
        lemma_addressed_holds_member(children.drop_last(), path, depth, at);
    }
}

/// The entry that a first-match lookup finds is one of those that the path
/// addresses: where a lookup along the rest of `path` from `depth` finds a
/// node below `group`, the listing along `path` is not empty.
pub proof fn lemma_lookup_is_addressed(group: GroupView, path: Seq<Seq<char>>, depth: nat)
    requires
        depth < path.len(),
        lookup(group, path.skip(depth as int)) is Some,
    ensures
        addressed(group.children, path, depth) >= 1,
        listing(group.children, path, depth).len() >= 1,
    decreases path.len() - depth,
{
    let rest = path.skip(depth as int);
    let name = path[depth as int];
    assert(rest[0] == name);
    if rest.len() == 1 {
        lemma_first_entry_is_first(group.children, name);
        let e = first_entry(group.children, name)->Some_0;
        let at = choose|at: int|
            leads_entries(group.children, name, at) && group.children[at]
                == NodeView::Entry(e);
        assert(node_addressed(group.children[at], path, depth) == 1);
        lemma_addressed_holds_member(group.children, path, depth, at);
    } else {
        lemma_first_group_is_first(group.children, name);
        let g = first_group(group.children, name)->Some_0;
        let at = choose|at: int|
            leads_groups(group.children, name, at) && group.children[at]
                == NodeView::Group(g);
        assert(rest.drop_first() == path.skip(depth as int + 1));
        lemma_lookup_is_addressed(g, path, depth + 1);
        assert(node_addressed(group.children[at], path, depth) == addressed(
            g.children,
            path,
            depth + 1,
        ));
        lemma_addressed_holds_member(group.children, path, depth, at);
    }
    lemma_listing_shows_addressed(group.children, path, depth);
}

/// Wherever a first-match lookup along a path finds an entry, the listing
/// along the same path names at least one node.
pub proof fn lemma_found_is_listed(root: GroupView, path: Seq<Seq<char>>)
    requires
        path.len() > 0,
        lookup(root, path) is Some,
    ensures
        listing(root.children, path, 0).len() >= 1,
{
    assert(path.skip(0) == path);
    lemma_lookup_is_addressed(root, path, 0);
}

} // verus!
