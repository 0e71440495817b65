use lust::ast::parser::Error;
use lust::ast::token::{self, Token};
use lust::ast::{parse, tokenize, Node, NodeValue, Position, PositionValue, PositionedErrorCause, Value};

fn pos(row: PositionValue, column: PositionValue) -> Position {
    Position::new(row, column)
}

fn atom(value: &str) -> Value {
    Value::atom(value)
}

fn number(value: &str) -> Value {
    Value::number(value)
}

fn string(value: &str) -> Value {
    Value::string(value)
}

fn leaf(position: Position, value: Value) -> Node {
    Node::new(position, false, NodeValue::leaf(value))
}

fn leaf_quoted(position: Position, value: Value) -> Node {
    Node::new(position, true, NodeValue::leaf(value))
}

fn tree(position: Position, nodes: Vec<Node>) -> Node {
    Node::new(position, false, NodeValue::tree(nodes))
}

fn tree_quoted(position: Position, nodes: Vec<Node>) -> Node {
    Node::new(position, true, NodeValue::tree(nodes))
}

#[test]
fn parse_empty() {
    let script = "()";
    let expected = tree(pos(1, 1), vec![]);
    let actual = parse(&mut tokenize(script)).unwrap();
    assert_eq!(expected, actual);
}

#[test]
fn single_token() {
    let script = "(single-atom)";
    let expected = tree(pos(1, 1), vec![leaf(pos(1, 2), atom("single-atom"))]);
    let actual = parse(&mut tokenize(script)).unwrap();
    assert_eq!(expected, actual);
}

#[test]
fn single_quoted_token() {
    let script = "('single-atom)";
    let expected = tree(pos(1, 1), vec![leaf_quoted(pos(1, 3), atom("single-atom"))]);
    let actual = parse(&mut tokenize(script)).unwrap();
    assert_eq!(expected, actual);
}

#[test]
fn multiple_tokens() {
    let script = "(atom 123.4 \"string\")";
    let expected = tree(
        pos(1, 1),
        vec![
            leaf(pos(1, 2), atom("atom")),
            leaf(pos(1, 7), number("123.4")),
            leaf(pos(1, 13), string("string")),
        ],
    );
    let actual = parse(&mut tokenize(script)).unwrap();
    assert_eq!(expected, actual);
}

#[test]
fn multiple_trees() {
    let script = "(atom (123.4 \"string\" (a b (c))))";
    let expected = tree(
        pos(1, 1),
        vec![
            leaf(pos(1, 2), atom("atom")),
            tree(
                pos(1, 7),
                vec![
                    leaf(pos(1, 8), number("123.4")),
                    leaf(pos(1, 14), string("string")),
                    tree(
                        pos(1, 23),
                        vec![
                            leaf(pos(1, 24), atom("a")),
                            leaf(pos(1, 26), atom("b")),
                            tree(pos(1, 28), vec![leaf(pos(1, 29), atom("c"))]),
                        ],
                    ),
                ],
            ),
        ],
    );
    let actual = parse(&mut tokenize(script)).unwrap();
    assert_eq!(expected, actual);
}

#[test]
fn quoted_multiple_trees() {
    let script = "(atom (123.4 \"string\" '(a b (c))))";
    let expected = tree(
        pos(1, 1),
        vec![
            leaf(pos(1, 2), atom("atom")),
            tree(
                pos(1, 7),
                vec![
                    leaf(pos(1, 8), number("123.4")),
                    leaf(pos(1, 14), string("string")),
                    tree_quoted(
                        pos(1, 24),
                        vec![
                            leaf(pos(1, 25), atom("a")),
                            leaf(pos(1, 27), atom("b")),
                            tree(pos(1, 29), vec![leaf(pos(1, 30), atom("c"))]),
                        ],
                    ),
                ],
            ),
        ],
    );
    let actual = parse(&mut tokenize(script)).unwrap();
    assert_eq!(expected, actual);
}

#[test]
fn unterminated_tree() {
    let script = "(atom (123.4 \"string\")";
    let expected = Err(Error::UnexpectedEnd);
    let actual = parse(&mut tokenize(script));
    assert_eq!(expected, actual);
}

#[test]
fn additional_parentheses() {
    let script = "(atom (123.4 \"string\")))";
    let expected = Err(Error::UnexpectedToken {
        token: Token::new(token::Value::RightParenthesis, pos(1, 24)),
    });
    let actual = parse(&mut tokenize(script));
    assert_eq!(expected, actual);
}

// The parser's own edge cases.

#[test]
fn string_escapes_keep_the_escaped_character() {
    let actual = parse(&mut tokenize("\"a\\\"b\\\\c\"")).unwrap();
    assert_eq!(actual, leaf(pos(1, 1), string("a\"b\\c")));
}

#[test]
fn escaped_quote_first_in_a_string() {
    let actual = parse(&mut tokenize("\"\\\"a\"")).unwrap();
    assert_eq!(actual, leaf(pos(1, 1), string("\"a")));
}

#[test]
fn empty_string() {
    let actual = parse(&mut tokenize("\"\"")).unwrap();
    assert_eq!(actual, leaf(pos(1, 1), string("")));
}

#[test]
fn non_ascii_string() {
    let actual = parse(&mut tokenize("(\"héllo\" x)")).unwrap();
    assert_eq!(
        actual,
        tree(pos(1, 1), vec![leaf(pos(1, 2), string("héllo")), leaf(pos(1, 10), atom("x"))])
    );
}

#[test]
fn dangling_quote_in_a_tree_is_an_unexpected_token() {
    let actual = parse(&mut tokenize("(')"));
    assert_eq!(
        actual,
        Err(Error::UnexpectedToken { token: Token::new(token::Value::RightParenthesis, pos(1, 3)) })
    );
}

#[test]
fn dangling_quote_at_top_level_is_an_unexpected_token() {
    let actual = parse(&mut tokenize("')"));
    assert_eq!(
        actual,
        Err(Error::UnexpectedToken { token: Token::new(token::Value::RightParenthesis, pos(1, 2)) })
    );
}

#[test]
fn quoted_string_is_an_unexpected_token() {
    let actual = parse(&mut tokenize("'\"a\""));
    assert_eq!(
        actual,
        Err(Error::UnexpectedToken {
            token: Token::new(token::Value::String { value: "\"a\"".to_string() }, pos(1, 2)),
        })
    );
}

#[test]
fn tokenizer_error_is_reported() {
    let actual = parse(&mut tokenize("(a |)"));
    assert_eq!(
        actual,
        Err(Error::TokenizerError {
            cause: token::Error::UnexpectedCharacter { character: '|' }.for_position(pos(1, 4)),
        })
    );
}

#[test]
fn empty_input_is_unexpected_end() {
    assert_eq!(parse(&mut tokenize("")), Err(Error::UnexpectedEnd));
}

#[test]
fn node_accessors() {
    let node = parse(&mut tokenize("'(a b)")).unwrap();
    assert!(node.quoted());
    assert_eq!(node.len(), 2);
    assert!(!node.is_empty());
    assert_eq!(*node.position(), pos(1, 2));
    let node = node.unquoted();
    assert!(!node.quoted());
    let leaf_node = parse(&mut tokenize("x")).unwrap();
    assert_eq!(leaf_node.len(), 1);
    assert_eq!(*leaf_node.value(), NodeValue::leaf(atom("x")));
}

#[test]
fn quoted_number_is_an_unexpected_token() {
    let actual = parse(&mut tokenize("'12"));
    assert_eq!(
        actual,
        Err(Error::UnexpectedToken {
            token: Token::new(token::Value::Number { value: "12".to_string() }, pos(1, 2)),
        })
    );
}

#[test]
fn quoting_a_tree_leaves_its_literals_unquoted() {
    let actual = parse(&mut tokenize("'(\"s\" 1 'a)")).unwrap();
    let expected = tree_quoted(
        pos(1, 2),
        vec![
            leaf(pos(1, 3), string("s")),
            leaf(pos(1, 7), number("1")),
            leaf_quoted(pos(1, 10), atom("a")),
        ],
    );
    assert_eq!(actual, expected);
}

#[test]
fn a_second_expression_is_an_unexpected_token() {
    let actual = parse(&mut tokenize("a b"));
    assert_eq!(
        actual,
        Err(Error::UnexpectedToken {
            token: Token::new(token::Value::Atom { value: "b".to_string() }, pos(1, 3)),
        })
    );
}

#[test]
fn a_lone_dot_is_not_a_number() {
    let actual = parse(&mut tokenize("."));
    assert_eq!(
        actual,
        Err(Error::UnexpectedToken {
            token: Token::new(token::Value::Number { value: ".".to_string() }, pos(1, 1)),
        })
    );
}

#[test]
fn a_sign_and_a_dot_are_not_a_number() {
    let actual = parse(&mut tokenize("-."));
    assert_eq!(
        actual,
        Err(Error::UnexpectedToken {
            token: Token::new(token::Value::Number { value: "-.".to_string() }, pos(1, 1)),
        })
    );
}

#[test]
fn numbers_with_a_digit_on_either_side_of_the_dot() {
    let actual = parse(&mut tokenize("(1. .5 -.5)")).unwrap();
    let expected = tree(
        pos(1, 1),
        vec![leaf(pos(1, 2), number("1.")), leaf(pos(1, 5), number(".5")), leaf(pos(1, 8), number("-.5"))],
    );
    assert_eq!(actual, expected);
}
