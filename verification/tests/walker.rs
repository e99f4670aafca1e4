use quepasa::state::State;
use quepasa::tree::{Entry, Group, Node, NodeRef, NodeView};
use quepasa::walk::Visitor;

fn entry(title: &str) -> Node {
    Node::Entry(Entry { title: Some(title.to_string()), username: None, password: None })
}

fn group(name: &str, children: Vec<Node>) -> Node {
    Node::Group(Group { name: name.to_string(), children })
}

struct Trace {
    seen: Vec<(String, usize)>,
    skip: &'static str,
}

// A visitor without a model: the three model functions are never run.
impl vstd::view::View for Trace {
    type V = ();

    fn view(&self) {}
}

impl Visitor for Trace {
    fn enters(_state: (), _node: NodeView, _depth: vstd::prelude::nat) -> bool {
        false
    }

    fn after(_state: (), _node: NodeView, _depth: vstd::prelude::nat) {}

    fn decide(&mut self, node: NodeRef<'_>, depth: usize) -> bool {
        match node {
            NodeRef::Group(g) => {
                self.seen.push((format!("{}/", g.name), depth));
                g.name != self.skip
            }
            NodeRef::Entry(e) => {
                self.seen.push((e.title.clone().unwrap_or_default(), depth));
                true
            }
        }
    }
}

fn names(seen: &[(String, usize)]) -> Vec<(&str, usize)> {
    seen.iter().map(|(n, d)| (n.as_str(), *d)).collect()
}

fn tree() -> Group {
    Group {
        name: "root".to_string(),
        children: vec![
            entry("a"),
            group("g", vec![entry("g1"), group("h", vec![entry("h1")]), entry("g2")]),
            group("skip", vec![entry("never")]),
            group("k", vec![]),
            entry("z"),
        ],
    }
}

#[test]
fn walk_enters_approved_groups_and_then_goes_on_with_the_siblings() {
    let mut trace = Trace { seen: Vec::new(), skip: "skip" };
    State::walk(&tree(), 0, &mut trace);
    assert_eq!(
        names(&trace.seen),
        vec![
            ("a", 0),
            ("g/", 0),
            ("g1", 1),
            ("h/", 1),
            ("h1", 2),
            ("g2", 1),
            ("skip/", 0),
            ("k/", 0),
            ("z", 0),
        ]
    );
}

#[test]
fn walk_does_not_enter_an_entry_whatever_the_visitor_says() {
    let mut trace = Trace { seen: Vec::new(), skip: "" };
    let only = Group { name: "root".to_string(), children: vec![entry("a"), entry("b")] };
    State::walk(&only, 7, &mut trace);
    assert_eq!(names(&trace.seen), vec![("a", 7), ("b", 7)]);
}

#[test]
fn walk_of_a_refused_group_sees_the_group_only() {
    let mut trace = Trace { seen: Vec::new(), skip: "g" };
    State::walk(&tree(), 0, &mut trace);
    assert_eq!(
        names(&trace.seen),
        vec![("a", 0), ("g/", 0), ("skip/", 0), ("never", 1), ("k/", 0), ("z", 0)]
    );
}
