use prison_architect_savefile::Node;

fn node_with(pairs: &[(&str, &str)]) -> Node {
    let mut n = Node::new();
    for (k, v) in pairs {
        n.add_property(k, v);
    }
    n
}

#[test]
fn set_property_keeps_the_key_position() {
    let mut n = Node::new();
    n.add_property("a", "1");
    n.add_property("b", "2");
    n.add_property("a", "3");
    // "a" holds two values; setting it clears them but keeps it first
    n.set_property("a", "9");
    assert_eq!(
        n.properties(),
        vec![("a".to_owned(), "9".to_owned()), ("b".to_owned(), "2".to_owned())]
    );
    assert_eq!(n.to_text(), "a 9\nb 2");
}

#[test]
fn set_property_appends_a_new_key() {
    let mut n = node_with(&[("a", "1")]);
    n.set_property("b", "2");
    assert_eq!(n.to_text(), "a 1\nb 2");
}

#[test]
fn property_returns_the_first_value() {
    let mut n = Node::new();
    assert_eq!(n.property("k"), None);
    assert!(!n.has_property("k"));
    n.add_property("k", "first");
    n.add_property("k", "second");
    assert_eq!(n.property("k").unwrap(), "first");
    assert!(n.has_property("k"));
}

#[test]
fn clear_property_drains_in_order() {
    let mut n = Node::new();
    n.add_property("k", "a");
    n.add_property("m", "x");
    n.add_property("k", "b");
    let removed = n.clear_property("k");
    assert_eq!(removed, vec!["a".to_owned(), "b".to_owned()]);
    assert!(!n.has_property("k"));
    assert!(n.has_property("m"));
    assert_eq!(n.clear_property("absent"), Vec::<String>::new());
}

#[test]
fn clear_properties_drains_everything_flattened() {
    let mut n = Node::new();
    n.add_property("k", "a");
    n.add_property("m", "x");
    n.add_property("k", "b");
    let all = n.clear_properties();
    assert_eq!(
        all,
        vec![
            ("k".to_owned(), "a".to_owned()),
            ("k".to_owned(), "b".to_owned()),
            ("m".to_owned(), "x".to_owned()),
        ]
    );
    assert_eq!(n, Node::new());
}

#[test]
fn extend_properties_adds_in_order() {
    let mut n = node_with(&[("k", "a")]);
    n.extend_properties(vec![
        ("k".to_owned(), "b".to_owned()),
        ("m".to_owned(), "x".to_owned()),
    ]);
    assert_eq!(
        n.properties(),
        vec![
            ("k".to_owned(), "a".to_owned()),
            ("k".to_owned(), "b".to_owned()),
            ("m".to_owned(), "x".to_owned()),
        ]
    );
}

#[test]
fn mutation_contract_on_children() {
    // a node with two children under "x"
    let mut n = Node::new();
    n.add_child("x", node_with(&[("tag", "first")]));
    n.add_child("x", node_with(&[("tag", "second")]));

    // child_mut returns the first
    assert_eq!(n.child_mut("x").property("tag").unwrap(), "first");
    n.child_mut("x").set_property("tag", "changed");
    assert_eq!(n.child("x").unwrap().property("tag").unwrap(), "changed");

    // clear_child empties the slot and returns both in original order
    let removed = n.clear_child("x");
    assert_eq!(removed.len(), 2);
    assert_eq!(removed[0].property("tag").unwrap(), "changed");
    assert_eq!(removed[1].property("tag").unwrap(), "second");

    // afterwards the key is gone
    assert!(!n.has_child("x"));
    assert_eq!(n.child("x"), None);
}

#[test]
fn set_child_replaces_all_children_of_the_key() {
    let mut n = Node::new();
    n.add_child("x", node_with(&[("a", "1")]));
    n.add_child("x", node_with(&[("a", "2")]));
    n.add_child("y", node_with(&[("b", "3")]));
    n.set_child("x", node_with(&[("a", "9")]));
    let removed = n.clear_child("x");
    assert_eq!(removed.len(), 1);
    assert_eq!(removed[0].property("a").unwrap(), "9");
    assert!(n.has_child("y"));
}

#[test]
fn children_flattens_in_order() {
    let mut n = Node::new();
    n.add_child("c", node_with(&[("i", "1")]));
    n.add_child("d", node_with(&[("i", "2")]));
    n.add_child("c", node_with(&[("i", "3")]));
    let kids = n.children();
    let tags: Vec<(String, String)> = kids
        .iter()
        .map(|(k, v)| ((*k).clone(), v.property("i").unwrap().clone()))
        .collect();
    assert_eq!(
        tags,
        vec![
            ("c".to_owned(), "1".to_owned()),
            ("c".to_owned(), "3".to_owned()),
            ("d".to_owned(), "2".to_owned()),
        ]
    );
}

#[test]
fn clear_children_and_extend_children_round_trip_the_contents() {
    let mut n = Node::new();
    n.add_child("c", node_with(&[("i", "1")]));
    n.add_child("d", node_with(&[("i", "2")]));
    n.add_child("c", node_with(&[("i", "3")]));
    let before = n.to_text();
    let all = n.clear_children();
    assert_eq!(n, Node::new());
    let mut m = Node::new();
    m.extend_children(all);
    assert_eq!(m.to_text(), before);
}

#[test]
fn default_is_the_empty_node() {
    assert_eq!(Node::default(), Node::new());
}
