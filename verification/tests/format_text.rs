use prison_architect_savefile::Node;

fn leaf(pairs: &[(&str, &str)]) -> Node {
    let mut n = Node::new();
    for (k, v) in pairs {
        n.add_property(k, v);
    }
    n
}

#[test]
fn test() {
    let mut node = Node::new();
    node.set_property("foo", "hello, world!");
    node.add_child("bar", leaf(&[("baz", "one\n\"two\"")]));

    assert_eq!(
        node.to_text(),
        "foo \"hello, world!\"\nBEGIN bar baz \"one\\n\\\"two\\\"\"  END"
    )
}

#[test]
fn empty_node_formats_to_nothing() {
    assert_eq!(Node::new().to_text(), "");
}

#[test]
fn plain_tokens_stay_bare() {
    let n = leaf(&[("key", "value"), ("other", "x_y-z")]);
    assert_eq!(n.to_text(), "key value\nother x_y-z");
}

#[test]
fn space_quote_and_newline_force_quoting() {
    assert_eq!(leaf(&[("k", "a b")]).to_text(), "k \"a b\"");
    assert_eq!(leaf(&[("k", "a\"b")]).to_text(), "k \"a\\\"b\"");
    assert_eq!(leaf(&[("k", "a\nb")]).to_text(), "k \"a\\nb\"");
    assert_eq!(leaf(&[("a b", "v")]).to_text(), "\"a b\" v");
}

#[test]
fn escaping_quotes_and_newlines_round_trips() {
    // the value one<newline>"two" is written as "one\n\"two\"" and read back
    let n = leaf(&[("p", "one\n\"two\"")]);
    let text = n.to_text();
    assert_eq!(text, "p \"one\\n\\\"two\\\"\"");
    let back = Node::parse(&text).unwrap();
    assert_eq!(back.property("p").unwrap(), "one\n\"two\"");
    assert_eq!(back, n);
}

#[test]
fn inline_layout_for_leaf_children() {
    let mut n = Node::new();
    n.add_child("item", leaf(&[("a", "1"), ("b", "2")]));
    assert_eq!(n.to_text(), "BEGIN item a 1 b 2  END");
}

#[test]
fn inline_layout_for_empty_child() {
    let mut n = Node::new();
    n.add_child("empty", Node::new());
    assert_eq!(n.to_text(), "BEGIN empty  END");
}

#[test]
fn block_layout_for_nested_children() {
    let mut inner = Node::new();
    inner.add_child("leaf", leaf(&[("p", "q")]));
    let mut n = Node::new();
    n.add_child("outer", inner);
    assert_eq!(
        n.to_text(),
        "BEGIN outer\n    BEGIN leaf p q  END\nEND"
    );
}

#[test]
fn indentation_grows_with_depth() {
    let mut level2 = Node::new();
    level2.add_child("c", leaf(&[("p", "q")]));
    let mut level1 = Node::new();
    level1.add_child("b", level2);
    let mut root = Node::new();
    root.add_child("a", level1);
    assert_eq!(
        root.to_text(),
        "BEGIN a\n    BEGIN b\n        BEGIN c p q  END\n    END\nEND"
    );
}

#[test]
fn writer_quotes_and_indents() {
    let mut w = prison_architect_savefile::format::Writer::new();
    w.write_str("plain");
    assert_eq!(w.out, "plain");
    let mut w2 = prison_architect_savefile::format::Writer::new();
    w2.write_str("a b");
    assert_eq!(w2.out, "\"a b\"");
    let mut w3 = prison_architect_savefile::format::Writer::new();
    w3.depth = 2;
    w3.write_newline();
    assert_eq!(w3.out, "\n        ");
    let mut w4 = prison_architect_savefile::format::Writer::new();
    w4.write_property("key", "v w");
    assert_eq!(w4.out, "key \"v w\"");
}
