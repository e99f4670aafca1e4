use quepasa::path::resolve;

fn expected(path: &str) -> Vec<String> {
    path.split('/').filter(|s| !s.is_empty()).map(|s| s.to_string()).collect()
}

#[test]
fn resolve_of_nothing_is_the_root() {
    assert_eq!(resolve(""), Vec::<String>::new());
    assert_eq!(resolve("/"), Vec::<String>::new());
    assert_eq!(resolve("//"), Vec::<String>::new());
    assert_eq!(resolve("////"), Vec::<String>::new());
}

#[test]
fn resolve_splits_at_slashes() {
    assert_eq!(resolve("/a/b"), vec!["a", "b"]);
    assert_eq!(resolve("/Email/gmail"), vec!["Email", "gmail"]);
    assert_eq!(resolve("/one"), vec!["one"]);
}

#[test]
fn resolve_does_not_need_a_leading_slash() {
    assert_eq!(resolve("a"), vec!["a"]);
    assert_eq!(resolve("a/b"), vec!["a", "b"]);
    assert_eq!(resolve("Email"), vec!["Email"]);
}

#[test]
fn resolve_drops_empty_segments() {
    assert_eq!(resolve("a//b"), vec!["a", "b"]);
    assert_eq!(resolve("//a///b//"), vec!["a", "b"]);
    assert_eq!(resolve("a/"), vec!["a"]);
    assert_eq!(resolve("/a/"), vec!["a"]);
}

#[test]
fn resolve_keeps_order_and_repeats() {
    assert_eq!(resolve("/b/a/b/a"), vec!["b", "a", "b", "a"]);
}

#[test]
fn resolve_keeps_blanks_and_other_characters() {
    assert_eq!(resolve("/my group/a.b\\c"), vec!["my group", "a.b\\c"]);
    assert_eq!(resolve(" / "), vec![" ", " "]);
}

#[test]
fn resolve_counts_characters_not_bytes() {
    assert_eq!(resolve("/Ünïcödé/日本語/x"), vec!["Ünïcödé", "日本語", "x"]);
    assert_eq!(resolve("é/"), vec!["é"]);
    assert_eq!(resolve("/🔑🔑//🔒"), vec!["🔑🔑", "🔒"]);
}

#[test]
fn resolve_gives_the_non_empty_tokens_of_the_split() {
    let inputs = [
        "", "/", "a", "/a", "a/", "//", "/a//b/c///", "abc/def", "/x/y/z", "///x", "é/ü//",
        " /\t/\n", "Email/gmail", "/Email/gmail/",
    ];
    for input in inputs {
        let parts = resolve(input);
        assert_eq!(parts, expected(input), "for {:?}", input);
        assert!(parts.iter().all(|p| !p.is_empty() && !p.contains('/')));
    }
}
