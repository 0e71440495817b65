use lust::ast::token::{self, Token};
use lust::ast::{parse, tokenize, Node, NodeValue, Position, Value};
use lust::exp::as_argument_list;
use lust::text::{str_eq, strip_shebang};

fn leaf(quoted: bool, value: Value) -> Node {
    Node::new(Position::new(1, 1), quoted, NodeValue::leaf(value))
}

fn tree(quoted: bool, nodes: Vec<Node>) -> Node {
    Node::new(Position::new(1, 1), quoted, NodeValue::tree(nodes))
}

#[test]
fn position_to_string() {
    assert_eq!(Position::new(1, 1).to_string(), "1:1");
    assert_eq!(Position::new(12, 305).to_string(), "12:305");
    assert_eq!(Position::new(0, 65535).to_string(), "0:65535");
    assert_eq!(Position::new(10, 100).to_string(), "10:100");
}

#[test]
fn value_to_string() {
    assert_eq!(Value::atom("foo-bar").to_string(), "foo-bar");
    assert_eq!(Value::number("-1.50").to_string(), "-1.50");
    assert_eq!(Value::string("plain").to_string(), "\"plain\"");
    assert_eq!(Value::string("a \"b\" \\ c").to_string(), "\"a \\\"b\\\" \\\\ c\"");
    assert_eq!(Value::string("").to_string(), "\"\"");
}

#[test]
fn node_to_string() {
    let node = tree(
        false,
        vec![
            leaf(false, Value::atom("+")),
            leaf(false, Value::number("1")),
            tree(true, vec![leaf(false, Value::string("x")), tree(false, vec![])]),
            leaf(true, Value::atom("a")),
        ],
    );
    assert_eq!(node.to_string(), "(+ 1 '(\"x\" ()) 'a)");
    assert_eq!(node.value().to_string(), "(+ 1 '(\"x\" ()) 'a)");
    assert_eq!(tree(true, vec![]).to_string(), "'()");
    assert_eq!(NodeValue::leaf(Value::atom("z")).to_string(), "z");
}

#[test]
fn parsed_tree_to_string() {
    let node = parse(&mut tokenize("(let ((a 5)\n  (b '(1 2)))\n  (+ a b))")).unwrap();
    assert_eq!(node.to_string(), "(let ((a 5) (b '(1 2))) (+ a b))");
}

#[test]
fn token_to_string() {
    let token = Token::new(token::Value::Atom { value: "abc".to_string() }, Position::new(3, 7));
    assert_eq!(token.to_string(), "at 3:7: abc");
    let token = Token::new(token::Value::LeftParenthesis, Position::new(1, 1));
    assert_eq!(token.to_string(), "at 1:1: (");
    assert_eq!(token::Value::RightParenthesis.to_string(), ")");
    assert_eq!(token::Value::Quote.to_string(), "'");
    assert_eq!(token::Value::String { value: "\"s\"".to_string() }.to_string(), "\"s\"");
}

#[test]
fn node_copies_are_equal() {
    let node = parse(&mut tokenize("('(a \"b\") 1.5 (c))")).unwrap();
    assert_eq!(node.copied(), node);
    assert_eq!(node.clone(), node);
    assert_eq!(node.value().clone(), *node.value());
    assert_eq!(Value::atom("q").copied(), Value::atom("q"));
}

#[test]
fn argument_list_of_atoms() {
    let node = parse(&mut tokenize("(a b 'c)")).unwrap();
    assert_eq!(
        as_argument_list(&node),
        Some(vec!["a".to_string(), "b".to_string(), "c".to_string()]),
    );
}

#[test]
fn argument_list_empty() {
    let node = parse(&mut tokenize("()")).unwrap();
    assert_eq!(as_argument_list(&node), Some(vec![]));
}

#[test]
fn argument_list_rejects_other_children() {
    let node = parse(&mut tokenize("(a 1)")).unwrap();
    assert_eq!(as_argument_list(&node), None);
    let node = parse(&mut tokenize("(a (b))")).unwrap();
    assert_eq!(as_argument_list(&node), None);
    let node = parse(&mut tokenize("(a \"b\")")).unwrap();
    assert_eq!(as_argument_list(&node), None);
}

#[test]
fn argument_list_rejects_leaf() {
    let node = parse(&mut tokenize("a")).unwrap();
    assert_eq!(as_argument_list(&node), None);
}

#[test]
fn text_reads_back() {
    let scripts = [
        "(let ((a 5)\n  (b '(1 2.5 -.5)))\n  (+ a b \"text\"))",
        "'(- -a x-1 (q 'r) ())",
        "atom",
        "-",
    ];
    for script in scripts {
        let node = parse(&mut tokenize(script)).unwrap();
        let text = node.to_string();
        let again = parse(&mut tokenize(&text)).unwrap();
        assert_eq!(again.to_string(), text);
        assert_eq!(again.quoted(), node.quoted());
        assert_eq!(again.len(), node.len());
    }
}

#[test]
fn strings_read_back_as_displayed() {
    for s in ["a\"b", "", "\\", "\"", "héllo wörld", "line\nbreak", "a\\\"b"] {
        let text = Value::string(s).to_string();
        let node = parse(&mut tokenize(&text)).unwrap();
        assert_eq!(node, leaf(false, Value::string(s)));
    }
}

#[test]
fn shebang_lines_are_stripped() {
    assert_eq!(strip_shebang("#!/usr/bin/lust\n(+ 1 2)"), "\n(+ 1 2)");
    assert_eq!(strip_shebang("#!/usr/bin/lust"), "#!/usr/bin/lust");
    assert_eq!(strip_shebang("(+ 1 2)\n#!x\n"), "(+ 1 2)\n#!x\n");
    assert_eq!(strip_shebang(""), "");
}

#[test]
fn string_equality() {
    assert!(str_eq("abc", "abc"));
    assert!(!str_eq("abc", "abd"));
    assert!(!str_eq("ab", "abc"));
    assert!(str_eq("", ""));
}
