//! The credential tree: groups that hold further groups and entries, and the
//! first-match lookup of one node by its path.

use vstd::prelude::*;

verus! {

/// The mathematical value of an [`Entry`].
pub struct EntryView {
    pub title: Option<Seq<char>>,
    pub username: Option<Seq<char>>,
    pub password: Option<Seq<char>>,
}

/// The mathematical value of a [`Group`]: its name and its members in stored
/// order.
pub struct GroupView {
    pub name: Seq<char>,
    pub children: Seq<NodeView>,
}

/// The mathematical value of a [`Node`] or of a [`NodeRef`].
pub enum NodeView {
    Group(GroupView),
    Entry(EntryView),
}

/// One credential record. Each of its texts may be absent.
#[derive(Clone, Debug)]
pub struct Entry {
    pub title: Option<String>,
    pub username: Option<String>,
    pub password: Option<String>,
}

/// A named container of nodes. Names need not differ between siblings.
#[derive(Debug)]
pub struct Group {
    pub name: String,
    pub children: Vec<Node>,
}

/// A member of a group.
#[derive(Debug)]
pub enum Node {
    Group(Group),
    Entry(Entry),
}

/// A borrowed node: a member of a group, or the root group itself.
#[derive(Clone, Copy, Debug)]
pub enum NodeRef<'a> {
    Group(&'a Group),
    Entry(&'a Entry),
}

impl View for Entry {
    type V = EntryView;

    open spec fn view(&self) -> EntryView {
        EntryView {
            title: self.title.deep_view(),
            username: self.username.deep_view(),
            password: self.password.deep_view(),
        }
    }
}

impl View for Group {
    type V = GroupView;

    open spec fn view(&self) -> GroupView
        decreases self,
    {
        GroupView {
            name: self.name@,
            children: Seq::new(
                self.children@.len(),
                |i: int|
                    if 0 <= i < self.children@.len() {
                        self.children@[i]@
                    } else {
                        arbitrary()
                    },
            ),
        }
    }
}

impl View for Node {
    type V = NodeView;

    open spec fn view(&self) -> NodeView
        decreases self,
    {
        match self {
            Node::Group(g) => NodeView::Group(g@),
            Node::Entry(e) => NodeView::Entry(e@),
        }
    }
}

impl<'a> View for NodeRef<'a> {
    type V = NodeView;

    open spec fn view(&self) -> NodeView {
        match self {
            NodeRef::Group(g) => NodeView::Group(g@),
            NodeRef::Entry(e) => NodeView::Entry(e@),
        }
    }
}

impl NodeView {
    /// Whether the node is an entry with the title `title`.
    pub open spec fn is_entry_titled(self, title: Seq<char>) -> bool {
        match self {
            NodeView::Entry(e) => e.title == Some(title),
            NodeView::Group(_) => false,
        }
    }

    /// Whether the node is a group with the name `name`.
    pub open spec fn is_group_named(self, name: Seq<char>) -> bool {
        match self {
            NodeView::Group(g) => g.name == name,
            NodeView::Entry(_) => false,
        }
    }
}

/// The first entry among `children` whose title is `title`.
pub open spec fn first_entry(children: Seq<NodeView>, title: Seq<char>) -> Option<EntryView>
    decreases children.len(),
{
    if children.len() == 0 {
        None
    } else {
        match children.first() {
            NodeView::Entry(e) if e.title == Some(title) => Some(e),
            _ => first_entry(children.drop_first(), title),
        }
    }
}

/// The first group among `children` whose name is `name`.
pub open spec fn first_group(children: Seq<NodeView>, name: Seq<char>) -> Option<GroupView>
    decreases children.len(),
{
    if children.len() == 0 {
        None
    } else {
        match children.first() {
            NodeView::Group(g) if g.name == name => Some(g),
            _ => first_group(children.drop_first(), name),
        }
    }
}

/// The node that `path` addresses below `group`, one segment per level and
/// the first match at each level: every segment but the last selects the
/// first member group of that name, the last selects the first member entry
/// of that title. The empty path addresses `group` itself.
pub open spec fn lookup(group: GroupView, path: Seq<Seq<char>>) -> Option<NodeView>
    decreases path.len(),
{
    if path.len() == 0 {
        Some(NodeView::Group(group))
    } else if path.len() == 1 {
        match first_entry(group.children, path[0]) {
            Some(e) => Some(NodeView::Entry(e)),
            None => None,
        }
    } else {
        match first_group(group.children, path[0]) {
            Some(g) => lookup(g, path.drop_first()),
            None => None,
        }
    }
}

/// Whether the member at `at` is an entry with the title `title`, and the
/// first such member.
pub open spec fn leads_entries(children: Seq<NodeView>, title: Seq<char>, at: int) -> bool {
    &&& 0 <= at < children.len()
    &&& children[at].is_entry_titled(title)
    &&& forall|i: int| 0 <= i < at ==> !children[i].is_entry_titled(title)
}

/// Whether the member at `at` is a group with the name `name`, and the first
/// such member.
pub open spec fn leads_groups(children: Seq<NodeView>, name: Seq<char>, at: int) -> bool {
    &&& 0 <= at < children.len()
    &&& children[at].is_group_named(name)
    &&& forall|i: int| 0 <= i < at ==> !children[i].is_group_named(name)
}

/// Where several members are entries of one title, the first wins: the
/// lookup gives that one whatever follows it, and whatever groups stand
/// before it.
pub proof fn lemma_first_entry_wins(children: Seq<NodeView>, title: Seq<char>, at: int)
    requires
        leads_entries(children, title, at),
    ensures
        first_entry(children, title) == Some(children[at]->Entry_0),
    decreases children.len(),
{
    if at > 0 {
        assert(!children[0].is_entry_titled(title));
        let rest = children.drop_first();
        assert(leads_entries(rest, title, at - 1)) by {
            assert(rest[at - 1] == children[at]);
            assert forall|i: int| 0 <= i < at - 1 implies !rest[i].is_entry_titled(title) by {
                assert(rest[i] == children[i + 1]);
            }
        }
        lemma_first_entry_wins(rest, title, at - 1);
    }
}

/// The lookup of an entry finds one exactly where some member is an entry
/// of that title, and then the first.
pub proof fn lemma_first_entry_is_first(children: Seq<NodeView>, title: Seq<char>)
    ensures
        match first_entry(children, title) {
            Some(e) => exists|at: int|
                leads_entries(children, title, at) && children[at] == NodeView::Entry(e),
            None => forall|i: int| 0 <= i < children.len() ==> !children[i].is_entry_titled(title),
        },
    decreases children.len(),
{
    if children.len() > 0 {
        let rest = children.drop_first();
        if children[0].is_entry_titled(title) {
            assert(leads_entries(children, title, 0));
        } else {
            lemma_first_entry_is_first(rest, title);
            match first_entry(rest, title) {
                Some(e) => {
                    let at = choose|at: int|
                        leads_entries(rest, title, at) && rest[at] == NodeView::Entry(e);
                    assert(leads_entries(children, title, at + 1)) by {
                        assert(children[at + 1] == rest[at]);
                        assert forall|i: int| 0 <= i < at + 1 implies !children[i].is_entry_titled(
                            title,
                        ) by {
                            if i > 0 {
                                assert(children[i] == rest[i - 1]);
                            }
                        }
                    }
                    assert(children[at + 1] == NodeView::Entry(e));
                },
                None => {
                    assert forall|i: int| 0 <= i < children.len() implies !children[i]
                        .is_entry_titled(title) by {
                        if i > 0 {
                            assert(children[i] == rest[i - 1]);
                        }
                    }
                },
            }
        }
    }
}

/// Where several members are groups of one name, the first wins: the lookup
/// gives that one whatever follows it, and whatever entries stand before it.
pub proof fn lemma_first_group_wins(children: Seq<NodeView>, name: Seq<char>, at: int)
    requires
        leads_groups(children, name, at),
    ensures
        first_group(children, name) == Some(children[at]->Group_0),
    decreases children.len(),
{
    if at > 0 {
        assert(!children[0].is_group_named(name));
        let rest = children.drop_first();
        assert(leads_groups(rest, name, at - 1)) by {
            assert(rest[at - 1] == children[at]);
            assert forall|i: int| 0 <= i < at - 1 implies !rest[i].is_group_named(name) by {
                assert(rest[i] == children[i + 1]);
            }
        }
        lemma_first_group_wins(rest, name, at - 1);
    }
}

/// The lookup of a group finds one exactly where some member is a group of
/// that name, and then the first.
pub proof fn lemma_first_group_is_first(children: Seq<NodeView>, name: Seq<char>)
    ensures
        match first_group(children, name) {
            Some(g) => exists|at: int|
                leads_groups(children, name, at) && children[at] == NodeView::Group(g),
            None => forall|i: int| 0 <= i < children.len() ==> !children[i].is_group_named(name),
        },
    decreases children.len(),
{
    if children.len() > 0 {
        let rest = children.drop_first();
        if children[0].is_group_named(name) {
            assert(leads_groups(children, name, 0));
        } else {
            lemma_first_group_is_first(rest, name);
            match first_group(rest, name) {
                Some(g) => {
                    let at = choose|at: int|
                        leads_groups(rest, name, at) && rest[at] == NodeView::Group(g);
                    assert(leads_groups(children, name, at + 1)) by {
                        assert(children[at + 1] == rest[at]);
                        assert forall|i: int| 0 <= i < at + 1 implies !children[i].is_group_named(
                            name,
                        ) by {
                            if i > 0 {
                                assert(children[i] == rest[i - 1]);
                            }
                        }
                    }
                    assert(children[at + 1] == NodeView::Group(g));
                },
                None => {
                    assert forall|i: int| 0 <= i < children.len() implies !children[i]
                        .is_group_named(name) by {
                        if i > 0 {
                            assert(children[i] == rest[i - 1]);
                        }
                    }
                },
            }
        }
    }
}

/// A path of one segment addresses an entry or nothing, never a group; a
/// longer path passes through groups only.
pub proof fn lemma_lookup_finds_entries(group: GroupView, path: Seq<Seq<char>>)
    requires
        path.len() > 0,
    ensures
        lookup(group, path) is None || lookup(group, path)->Some_0 is Entry,
    decreases path.len(),
{
    if path.len() > 1 {
        match first_group(group.children, path[0]) {
            Some(g) => lemma_lookup_finds_entries(g, path.drop_first()),
            None => {},
        }
    }
}

impl Node {
    /// Borrows the node.
    pub fn to_ref<'a>(&'a self) -> (node: NodeRef<'a>)
        ensures
            node@ == self@,
    {
        match self {
            Node::Group(g) => NodeRef::Group(g),
            Node::Entry(e) => NodeRef::Entry(e),
        }
    }
}

impl Group {
    /// The first member entry whose title is `title`.
    pub fn find_entry<'a>(&'a self, title: &String) -> (found: Option<&'a Entry>)
        ensures
            match found {
                Some(e) => first_entry(self@.children, title@) == Some(e@),
                None => first_entry(self@.children, title@) is None,
            },
    {
        let mut i: usize = 0;
        assert(self@.children.skip(0) == self@.children);
        while i < self.children.len()
            invariant
                i <= self.children.len(),
                first_entry(self@.children, title@) == first_entry(
                    self@.children.skip(i as int),
                    title@,
                ),
            decreases self.children.len() - i,
        {
            proof {
                assert(self@.children.skip(i as int).drop_first() == self@.children.skip(i + 1));
                assert(self@.children.skip(i as int).first() == self.children@[i as int]@);
            }
            match &self.children[i] {
                Node::Entry(e) => {
                    match &e.title {
                        Some(t) => {
                            if *t == *title {
                                return Some(e);
                            }
                        },
                        None => {},
                    }
                },
                Node::Group(_) => {},
            }
            i += 1;
        }
        None
    }

    /// The first member group whose name is `name`.
    pub fn find_group<'a>(&'a self, name: &String) -> (found: Option<&'a Group>)
        ensures
            match found {
                Some(g) => first_group(self@.children, name@) == Some(g@),
                None => first_group(self@.children, name@) is None,
            },
    {
        let mut i: usize = 0;
        assert(self@.children.skip(0) == self@.children);
        while i < self.children.len()
            invariant
                i <= self.children.len(),
                first_group(self@.children, name@) == first_group(
                    self@.children.skip(i as int),
                    name@,
                ),
            decreases self.children.len() - i,
        {
            proof {
                assert(self@.children.skip(i as int).drop_first() == self@.children.skip(i + 1));
                assert(self@.children.skip(i as int).first() == self.children@[i as int]@);
            }
            match &self.children[i] {
                Node::Group(g) => {
                    if g.name == *name {
                        return Some(g);
                    }
                },
                Node::Entry(_) => {},
            }
            i += 1;
        }
        None
    }

    /// The node that `path` addresses below this group, by first match at
    /// every level.
    pub fn get<'a>(&'a self, path: &[String]) -> (found: Option<NodeRef<'a>>)
        ensures
            match found {
                Some(node) => lookup(self@, path.deep_view()) == Some(node@),
                None => lookup(self@, path.deep_view()) is None,
            },
    {
        let ghost segments = path.deep_view();
        if path.len() == 0 {
            return Some(NodeRef::Group(self));
        }
        let mut group: &'a Group = self;
        let mut i: usize = 0;
        assert(segments.skip(0) == segments);
        while i + 1 < path.len()
            invariant
                i < path.len(),
                segments == path.deep_view(),
                lookup(self@, segments) == lookup(group@, segments.skip(i as int)),
            decreases path.len() - i,
        {
            proof {
                assert(segments.skip(i as int).drop_first() == segments.skip(i + 1));
            }
            match group.find_group(&path[i]) {
                Some(inner) => {
                    group = inner;
                },
                None => {
                    return None;
                },
            }
            i += 1;
        }
        match group.find_entry(&path[i]) {
            Some(e) => Some(NodeRef::Entry(e)),
            None => None,
        }
    }
}

} // verus!
