use quepasa::state::{Method, State};
use quepasa::tree::{Entry, Group, Node};

fn entry(title: Option<&str>, username: Option<&str>, password: Option<&str>) -> Node {
    Node::Entry(Entry {
        title: title.map(|s| s.to_string()),
        username: username.map(|s| s.to_string()),
        password: password.map(|s| s.to_string()),
    })
}

fn group(name: &str, children: Vec<Node>) -> Node {
    Node::Group(Group { name: name.to_string(), children })
}

fn put(
    fields: &mut std::collections::HashMap<String, keepass::Value>,
    key: &str,
    value: &Option<String>,
) {
    if let Some(v) = value {
        fields.insert(key.to_string(), keepass::Value::Unprotected(v.clone()));
    }
}

fn as_keepass(group: &Group) -> keepass::Group {
    let mut out = keepass::Group::default();
    out.name = group.name.clone();
    for child in &group.children {
        out.children.push(match child {
            Node::Group(g) => keepass::Node::Group(as_keepass(g)),
            Node::Entry(e) => {
                let mut k = keepass::Entry::default();
                put(&mut k.fields, "Title", &e.title);
                put(&mut k.fields, "UserName", &e.username);
                put(&mut k.fields, "Password", &e.password);
                keepass::Node::Entry(k)
            }
        });
    }
    out
}

fn by_keepass(root: &keepass::Group, path: &[&str], method: Method) -> Option<String> {
    match root.get(path)? {
        keepass::NodeRef::Group(_) => None,
        keepass::NodeRef::Entry(e) => match method {
            Method::GetUsername => e.get_username().map(|s| s.to_owned()),
            Method::GetPassword => e.get_password().map(|s| s.to_owned()),
        },
    }
}

fn agree(state: &State, paths: &[&[&str]]) {
    let theirs = as_keepass(&state.root);
    for path in paths {
        let owned: Vec<String> = path.iter().map(|s| s.to_string()).collect();
        for method in [Method::GetUsername, Method::GetPassword] {
            assert_eq!(
                state.get(&owned, method),
                by_keepass(&theirs, path, method),
                "for {:?}",
                path
            );
        }
    }
}

const PATHS: &[&[&str]] = &[
    &[],
    &["a"],
    &["b"],
    &["x"],
    &[""],
    &["a", "a"],
    &["a", "b"],
    &["a", "x"],
    &["b", "a"],
    &["x", "a"],
    &["a", "a", "a"],
    &["a", "b", "x"],
    &["a", "b", "a"],
    &["nope"],
    &["a", "nope"],
    &["a", "a", "a", "a"],
];

#[test]
fn get_agrees_with_keepass_on_plain_trees() {
    let s = State {
        root: Group {
            name: "Root".to_string(),
            children: vec![
                group(
                    "a",
                    vec![
                        entry(Some("a"), Some("u-aa"), Some("p-aa")),
                        group("b", vec![entry(Some("x"), Some("u-abx"), None)]),
                        entry(Some("x"), None, Some("p-ax")),
                    ],
                ),
                entry(Some("b"), Some("u-b"), Some("p-b")),
                group("x", vec![entry(Some("a"), None, None)]),
            ],
        },
    };
    agree(&s, PATHS);
}

#[test]
fn get_agrees_with_keepass_on_colliding_names() {
    let s = State {
        root: Group {
            name: "".to_string(),
            children: vec![
                entry(Some("a"), Some("first-entry"), None),
                group("a", vec![entry(Some("b"), Some("in-first-group"), Some("pw-one"))]),
                group(
                    "a",
                    vec![
                        entry(Some("b"), Some("in-second-group"), Some("pw-two")),
                        entry(Some("x"), Some("only-in-second"), None),
                        group("a", vec![entry(Some("a"), Some("deep"), None)]),
                    ],
                ),
                entry(Some("a"), Some("second-entry"), Some("p")),
                group("b", vec![]),
                entry(Some("b"), None, Some("entry-after-group")),
                entry(None, Some("untitled"), Some("untitled")),
                entry(Some(""), Some("empty-title"), None),
                group("", vec![entry(Some("a"), Some("in-unnamed"), None)]),
            ],
        },
    };
    agree(&s, PATHS);
    agree(&s, &[&["", "a"], &["", ""], &["a", "a", "a"]]);
}

#[test]
fn get_agrees_with_keepass_on_an_empty_tree() {
    let s = State { root: Group { name: "Root".to_string(), children: vec![] } };
    agree(&s, PATHS);
}
