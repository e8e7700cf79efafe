use prison_architect_savefile::Node;

fn leaf_node(pairs: &[(&str, &str)]) -> Node {
    let mut n = Node::new();
    for (k, v) in pairs {
        n.add_property(k, v);
    }
    n
}

fn round_trips(n: &Node) {
    let text = n.to_text();
    let back = Node::parse(&text).unwrap();
    assert_eq!(&back, n);
    // formatting is idempotent
    assert_eq!(back.to_text(), text);
}

#[test]
fn end_to_end_is_byte_identical() {
    let input = "foo \"hello, world!\"\nBEGIN bar baz \"one\\n\\\"two\\\"\"  END";
    let node = Node::parse(input).unwrap();
    assert_eq!(node.to_text(), input);
}

#[test]
fn empty_node_round_trips() {
    round_trips(&Node::new());
}

#[test]
fn special_characters_round_trip() {
    round_trips(&leaf_node(&[
        ("spaces", "a b c"),
        ("quotes", "say \"hi\" now"),
        ("newlines", "line one\nline two"),
        ("mixed", " \"\n\"\" "),
    ]));
}

#[test]
fn repeated_property_keys_round_trip() {
    let mut n = Node::new();
    n.add_property("k", "a");
    n.add_property("k", "b");
    n.add_property("other", "x");
    n.add_property("k", "c");
    round_trips(&n);
}

#[test]
fn repeated_child_keys_round_trip() {
    let mut n = Node::new();
    n.add_child("c", leaf_node(&[("a", "1")]));
    n.add_child("c", leaf_node(&[("a", "2")]));
    n.add_child("d", leaf_node(&[("b", "3")]));
    round_trips(&n);
}

#[test]
fn deeply_nested_children_round_trip() {
    let mut level3 = leaf_node(&[("deep", "value")]);
    level3.add_child("leaf", leaf_node(&[("p", "q r")]));
    let mut level2 = leaf_node(&[("mid", "level")]);
    level2.add_child("three", level3);
    let mut level1 = Node::new();
    level1.add_child("two", level2);
    let mut root = leaf_node(&[("top", "most")]);
    root.add_child("one", level1);
    round_trips(&root);
}

#[test]
fn inline_leaf_with_many_properties_round_trips() {
    let mut n = Node::new();
    n.add_child(
        "item",
        leaf_node(&[("a", "1"), ("b", "two words"), ("a", "again")]),
    );
    round_trips(&n);
}

#[test]
fn mutated_tree_round_trips() {
    let mut n = Node::parse("a 1\nBEGIN b c 2  END").unwrap();
    n.set_property("a", "changed");
    n.add_property("new", "prop");
    {
        let b = n.child_mut("b");
        b.set_property("c", "3");
        b.add_child("grand", leaf_node(&[("x", "y")]));
    }
    round_trips(&n);
}
