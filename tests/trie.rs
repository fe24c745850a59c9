use autocomplete::Node;

fn sorted(mut v: Vec<String>) -> Vec<String> {
    v.sort();
    v
}

#[test]
fn empty_tree_completes_nothing() {
    let t = Node::new();
    assert!(t.find("").is_empty());
    assert!(t.find("a").is_empty());
}

#[test]
fn branching_prefix_lists_both_words() {
    let mut t = Node::new();
    t.insert("cat");
    t.insert("car");
    t.insert("dog");
    assert_eq!(sorted(t.find("ca")), vec!["car".to_string(), "cat".to_string()]);
}

#[test]
fn located_word_is_not_listed() {
    let mut t = Node::new();
    t.insert("cat");
    t.insert("cats");
    assert_eq!(t.find("cat"), vec!["cats".to_string()]);
}

#[test]
fn exact_leaf_word_completes_nothing() {
    let mut t = Node::new();
    t.insert("a");
    assert!(t.find("a").is_empty());
}

#[test]
fn empty_word_is_not_stored() {
    let mut t = Node::new();
    t.insert("");
    assert!(t.find("").is_empty());
}

#[test]
fn foreign_prefix_completes_nothing() {
    let mut t = Node::new();
    t.insert("cat");
    t.insert("dog");
    assert!(t.find("x").is_empty());
    assert!(t.find("cab").is_empty());
    assert!(t.find("cats").is_empty());
}

#[test]
fn inserting_twice_changes_nothing() {
    let mut once = Node::new();
    once.insert("car");
    once.insert("cart");
    let mut twice = Node::new();
    twice.insert("car");
    twice.insert("cart");
    twice.insert("car");
    twice.insert("cart");
    for p in ["", "c", "ca", "car", "cart"] {
        assert_eq!(sorted(once.find(p)), sorted(twice.find(p)));
    }
}

#[test]
fn shorter_prefix_reaches_inserted_word() {
    let mut t = Node::new();
    t.insert("tea");
    assert_eq!(t.find("t"), vec!["tea".to_string()]);
    assert_eq!(t.find(""), vec!["tea".to_string()]);
    assert!(t.find("tea").is_empty());
}

#[test]
fn terminal_inner_word_is_listed_with_its_extensions() {
    let mut t = Node::new();
    t.insert("to");
    t.insert("top");
    t.insert("tops");
    t.insert("ten");
    assert_eq!(
        sorted(t.find("t")),
        vec!["ten".to_string(), "to".to_string(), "top".to_string(), "tops".to_string()]
    );
    assert_eq!(sorted(t.find("to")), vec!["top".to_string(), "tops".to_string()]);
}

#[test]
fn empty_prefix_lists_every_word() {
    let mut t = Node::new();
    t.insert("b");
    t.insert("ab");
    t.insert("a");
    assert_eq!(
        sorted(t.find("")),
        vec!["a".to_string(), "ab".to_string(), "b".to_string()]
    );
}

#[test]
fn non_ascii_characters_are_edges() {
    let mut t = Node::new();
    t.insert("née");
    t.insert("nü");
    assert_eq!(sorted(t.find("n")), vec!["née".to_string(), "nü".to_string()]);
    assert_eq!(t.find("né"), vec!["née".to_string()]);
}

#[test]
fn insert_returns_the_tree() {
    let mut t = Node::new();
    t.insert("ab").insert("ac");
    assert_eq!(sorted(t.find("a")), vec!["ab".to_string(), "ac".to_string()]);
}
