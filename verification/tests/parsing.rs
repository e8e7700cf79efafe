use prison_architect_savefile::parse::Parser;
use prison_architect_savefile::Node;

#[test]
fn multiplicity_is_preserved() {
    let n = Node::parse("k a\nk b\nk c").unwrap();
    let pairs: Vec<(String, String)> = n.properties();
    assert_eq!(
        pairs,
        vec![
            ("k".to_owned(), "a".to_owned()),
            ("k".to_owned(), "b".to_owned()),
            ("k".to_owned(), "c".to_owned()),
        ]
    );
    assert_eq!(n.property("k").unwrap(), "a");
}

#[test]
fn empty_input_is_an_empty_node() {
    let n = Node::parse("").unwrap();
    assert_eq!(n, Node::new());
}

#[test]
fn whitespace_only_input_is_an_empty_node() {
    let n = Node::parse(" \t\r\n  ").unwrap();
    assert_eq!(n, Node::new());
}

#[test]
fn plain_token_may_end_at_end_of_input() {
    let n = Node::parse("k v").unwrap();
    assert_eq!(n.property("k").unwrap(), "v");
}

#[test]
fn quoted_tokens_decode_escapes() {
    let n = Node::parse("k \"a\\nb\"\nm \"say \\\"hi\\\"\"").unwrap();
    assert_eq!(n.property("k").unwrap(), "a\nb");
    assert_eq!(n.property("m").unwrap(), "say \"hi\"");
}

#[test]
fn unknown_escapes_drop_the_backslash() {
    let n = Node::parse("k \"a\\xb\"").unwrap();
    assert_eq!(n.property("k").unwrap(), "axb");
}

#[test]
fn nested_children_parse() {
    let n = Node::parse("BEGIN a x 1 BEGIN b y 2 END END").unwrap();
    let a = n.child("a").unwrap();
    assert_eq!(a.property("x").unwrap(), "1");
    let b = a.child("b").unwrap();
    assert_eq!(b.property("y").unwrap(), "2");
}

#[test]
fn repeated_child_keys_accumulate() {
    let n = Node::parse("BEGIN c a 1 END\nBEGIN c a 2 END").unwrap();
    let both: Vec<Node> = {
        let mut m = Node::parse("BEGIN c a 1 END\nBEGIN c a 2 END").unwrap();
        m.clear_child("c")
    };
    assert_eq!(both.len(), 2);
    assert_eq!(both[0].property("a").unwrap(), "1");
    assert_eq!(both[1].property("a").unwrap(), "2");
    assert_eq!(n.child("c").unwrap().property("a").unwrap(), "1");
}

#[test]
fn error_names_the_unterminated_object() {
    let err = Node::parse("BEGIN foo bar baz").unwrap_err();
    assert_eq!(err.message, "unterminated object 'foo'");
    assert!(err.message.contains("foo"));
}

#[test]
fn error_on_missing_value() {
    let err = Node::parse("key").unwrap_err();
    assert_eq!(err.message, "unexpected eof");
}

#[test]
fn error_on_unterminated_string() {
    let err = Node::parse("k \"abc").unwrap_err();
    assert_eq!(err.message, "unterminated string");
    // the error points right after the opening quote: line 1, column 4
    assert_eq!(err.line, 0);
    assert_eq!(err.col, 3);
    assert_eq!(err.describe(), "1:4: unterminated string");
}

#[test]
fn error_on_incomplete_escape() {
    let err = Node::parse("k \"ab\\").unwrap_err();
    assert_eq!(err.message, "incomplete escape");
}

#[test]
fn error_position_counts_lines() {
    let err = Node::parse("a 1\nb 2\nc \"oops").unwrap_err();
    assert_eq!(err.line, 2);
    assert_eq!(err.col, 3);
    assert_eq!(err.describe(), "3:4: unterminated string");
}

#[test]
fn parser_primitives_step_through_input() {
    let mut p = Parser::new("ab cd");
    assert_eq!(p.peek(), Some('a'));
    assert!(!p.eof());
    assert!(p.eat("ab"));
    assert!(!p.eat("ab"));
    assert_eq!(p.remainder().to_vec(), vec![' ', 'c', 'd']);
    p.skip_whitespace();
    assert_eq!(p.peek(), Some('c'));
    p.bump();
    p.bump();
    assert!(p.eof());
    assert_eq!(p.peek(), None);
    assert_eq!(p.remainder().to_vec(), Vec::<char>::new());
}

#[test]
fn from_str_parses() {
    let n: Node = "k v\n".parse().unwrap();
    assert_eq!(n.property("k").unwrap(), "v");
}

#[test]
fn all_ascii_whitespace_separates_tokens() {
    let n = Node::parse("a\t1\u{c}b\r2\nc 3").unwrap();
    assert_eq!(n.property("a").unwrap(), "1");
    assert_eq!(n.property("b").unwrap(), "2");
    assert_eq!(n.property("c").unwrap(), "3");
}

#[test]
fn describe_is_one_indexed() {
    let err = Node::parse("BEGIN foo bar baz").unwrap_err();
    assert_eq!(err.describe(), "1:18: unterminated object 'foo'");
}

#[test]
fn nested_unterminated_object_names_the_inner_key() {
    let err = Node::parse("BEGIN outer BEGIN inner a 1\nEND").unwrap_err();
    assert_eq!(err.message, "unterminated object 'outer'");
}

#[test]
fn quoted_tokens_may_hold_whitespace_forms() {
    let n = Node::parse("k \"a\tb\"").unwrap();
    assert_eq!(n.property("k").unwrap(), "a\tb");
}
