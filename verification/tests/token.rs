use lust::ast::token::{tokenize, Error, Token, Value};
use lust::ast::{Position, PositionValue, PositionedErrorCause};

fn pos(row: PositionValue, column: PositionValue) -> Position {
    Position::new(row, column)
}

fn lparen(position: Position) -> Token {
    Token::new(Value::LeftParenthesis, position)
}

fn rparen(position: Position) -> Token {
    Token::new(Value::RightParenthesis, position)
}

fn number(position: Position, value: &str) -> Token {
    Token::new(Value::Number { value: value.to_string() }, position)
}

fn string(position: Position, value: &str) -> Token {
    Token::new(Value::String { value: value.to_string() }, position)
}

fn atom(position: Position, value: &str) -> Token {
    Token::new(Value::Atom { value: value.to_string() }, position)
}

#[test]
fn mod_empty() {
    // Arrange
    let input = "";
    let expected = Vec::<Token>::new();

    // Act
    let actual = tokenize(input).collect_tokens().expect("successful tokenisation");

    // Assert
    assert_eq!(expected, actual);
}

#[test]
fn single_parenthesis() {
    let input = "(";
    let expected = vec![lparen(pos(1, 1))];
    let actual = tokenize(input).collect_tokens().expect("successful tokenisation");
    assert_eq!(expected, actual);
}

#[test]
fn single_parenthesis_newline() {
    let input = "(
)
)";
    let expected = vec![lparen(pos(1, 1)), rparen(pos(2, 1)), rparen(pos(3, 1))];
    let actual = tokenize(input).collect_tokens().expect("successful tokenisation");
    assert_eq!(expected, actual);
}

#[test]
fn single_parenthesis_with_whitespace() {
    let input = " ( ";
    let expected = vec![lparen(pos(1, 2))];
    let actual = tokenize(input).collect_tokens().expect("successful tokenisation");
    assert_eq!(expected, actual);
}

#[test]
fn multiple_parentheses() {
    let input = "(
            ( )";
    let expected = vec![lparen(pos(1, 1)), lparen(pos(2, 13)), rparen(pos(2, 15))];
    let actual = tokenize(input).collect_tokens().expect("successful tokenisation");
    assert_eq!(expected, actual);
}

#[test]
fn single_number() {
    let input = "123.4";
    let expected = vec![number(pos(1, 1), "123.4")];
    let actual = tokenize(input).collect_tokens().expect("successful tokenisation");
    assert_eq!(expected, actual);
}

#[test]
fn multiple_numbers() {
    let input = "123.4
            567.8 -92";
    let expected = vec![
        number(pos(1, 1), "123.4"),
        number(pos(2, 13), "567.8"),
        number(pos(2, 19), "-92"),
    ];
    let actual = tokenize(input).collect_tokens().expect("successful tokenisation");
    assert_eq!(expected, actual);
}

#[test]
fn single_string() {
    let input = "\"hello world\"";
    let expected = vec![string(pos(1, 1), "\"hello world\"")];
    let actual = tokenize(input).collect_tokens().expect("successful tokenisation");
    assert_eq!(expected, actual);
}

#[test]
fn multiple_strings() {
    let input = "\"hello\"
            \"world again\"";
    let expected = vec![
        string(pos(1, 1), "\"hello\""),
        string(pos(2, 13), "\"world again\""),
    ];
    let actual = tokenize(input).collect_tokens().expect("successful tokenisation");
    assert_eq!(expected, actual);
}

#[test]
fn single_atom() {
    let input = "hello-world";
    let expected = vec![atom(pos(1, 1), "hello-world")];
    let actual = tokenize(input).collect_tokens().expect("successful tokenisation");
    assert_eq!(expected, actual);
}

#[test]
fn multiple_atoms() {
    let input = "hello
            world -again != hello? world!";
    let expected = vec![
        atom(pos(1, 1), "hello"),
        atom(pos(2, 13), "world"),
        atom(pos(2, 19), "-again"),
        atom(pos(2, 26), "!="),
        atom(pos(2, 29), "hello?"),
        atom(pos(2, 36), "world!"),
    ];
    let actual = tokenize(input).collect_tokens().expect("successful tokenisation");
    assert_eq!(expected, actual);
}

#[test]
fn trailing_short_atom() {
    let input = "hello a b";
    let expected = vec![
        atom(pos(1, 1), "hello"),
        atom(pos(1, 7), "a"),
        atom(pos(1, 9), "b"),
    ];
    let actual = tokenize(input).collect_tokens().expect("successful tokenisation");
    assert_eq!(expected, actual);
}

#[test]
fn complex_expressions() {
    let input = "(+ a b .123 (
            c d))";
    let expected = vec![
        lparen(pos(1, 1)),
        atom(pos(1, 2), "+"),
        atom(pos(1, 4), "a"),
        atom(pos(1, 6), "b"),
        number(pos(1, 8), ".123"),
        lparen(pos(1, 13)),
        atom(pos(2, 13), "c"),
        atom(pos(2, 15), "d"),
        rparen(pos(2, 16)),
        rparen(pos(2, 17)),
    ];
    let actual = tokenize(input).collect_tokens().expect("successful tokenisation");
    assert_eq!(expected, actual);
}

#[test]
fn complex_expressions_with_comment() {
    let input = "(+ a b ( ; ignore this
            ; also ignore this
            ; and this
            c d))";
    let expected = vec![
        lparen(pos(1, 1)),
        atom(pos(1, 2), "+"),
        atom(pos(1, 4), "a"),
        atom(pos(1, 6), "b"),
        lparen(pos(1, 8)),
        atom(pos(4, 13), "c"),
        atom(pos(4, 15), "d"),
        rparen(pos(4, 16)),
        rparen(pos(4, 17)),
    ];
    let actual = tokenize(input).collect_tokens().expect("successful tokenisation");
    assert_eq!(expected, actual);
}

#[test]
fn trailing_comment() {
    let input = "(+ 4 5) ; 9";
    let expected = vec![
        lparen(pos(1, 1)),
        atom(pos(1, 2), "+"),
        number(pos(1, 4), "4"),
        number(pos(1, 6), "5"),
        rparen(pos(1, 7)),
    ];
    let actual = tokenize(input).collect_tokens().expect("successful tokenisation");
    assert_eq!(expected, actual);
}

#[test]
fn invalid_number() {
    let input = "123.a";
    let expected = vec![Err(Error::UnexpectedCharacter { character: 'a' }.for_position(pos(1, 5)))];
    let actual = tokenize(input).into_results();
    assert_eq!(expected, actual);
}

#[test]
fn multiple_invalid_numbers() {
    let input = "123.4
            567.8 92a 5";
    let expected = vec![
        Ok(number(pos(1, 1), "123.4")),
        Ok(number(pos(2, 13), "567.8")),
        Err(Error::UnexpectedCharacter { character: 'a' }.for_position(pos(2, 21))),
    ];
    let actual = tokenize(input).into_results();
    assert_eq!(expected, actual);
}

#[test]
fn invalid_negative_number() {
    let input = "-123.a";
    let expected = vec![Err(Error::UnexpectedCharacter { character: 'a' }.for_position(pos(1, 6)))];
    let actual = tokenize(input).into_results();
    assert_eq!(expected, actual);
}

#[test]
fn unterminated_string() {
    let input = "a \"hello world";
    let expected = vec![
        Ok(atom(pos(1, 1), "a")),
        Err(Error::UnexpectedEnd.for_position(pos(1, 14))),
    ];
    let actual = tokenize(input).into_results();
    assert_eq!(expected, actual);
}

#[test]
fn unexpected_character() {
    let input = "a \"hello world\" |";
    let expected = vec![
        Ok(atom(pos(1, 1), "a")),
        Ok(string(pos(1, 3), "\"hello world\"")),
        Err(Error::UnexpectedCharacter { character: '|' }.for_position(pos(1, 17))),
    ];
    let actual = tokenize(input).into_results();
    assert_eq!(expected, actual);
}

// The tokeniser's own edge cases.

#[test]
fn lone_minus_is_an_atom() {
    let actual = tokenize("- -").collect_tokens().expect("successful tokenisation");
    assert_eq!(actual, vec![atom(pos(1, 1), "-"), atom(pos(1, 3), "-")]);
}

#[test]
fn negative_digits_followed_by_letters_are_an_atom() {
    let actual = tokenize("-12a").collect_tokens().expect("successful tokenisation");
    assert_eq!(actual, vec![atom(pos(1, 1), "-12a")]);
}

#[test]
fn quote_token() {
    let actual = tokenize("'(a)").collect_tokens().expect("successful tokenisation");
    assert_eq!(
        actual,
        vec![
            Token::new(Value::Quote, pos(1, 1)),
            lparen(pos(1, 2)),
            atom(pos(1, 3), "a"),
            rparen(pos(1, 4)),
        ]
    );
}

#[test]
fn escaped_string() {
    let actual = tokenize("\"a\\\"b\"").collect_tokens().expect("successful tokenisation");
    assert_eq!(actual, vec![string(pos(1, 1), "\"a\\\"b\"")]);
}

#[test]
fn invalid_escape() {
    let actual = tokenize("\"ab\\x\"").into_results();
    assert_eq!(
        actual,
        vec![Err(Error::UnexpectedCharacter { character: 'x' }.for_position(pos(1, 5)))]
    );
}

#[test]
fn end_after_newline_is_reported_at_column_one() {
    let actual = tokenize("\"ab\n").into_results();
    assert_eq!(actual, vec![Err(Error::UnexpectedEnd.for_position(pos(2, 1)))]);
}

#[test]
fn invalid_second_atom_character() {
    let actual = tokenize("a|").into_results();
    assert_eq!(
        actual,
        vec![Err(Error::UnexpectedCharacter { character: '|' }.for_position(pos(1, 2)))]
    );
}

#[test]
fn empty_string_token() {
    let actual = tokenize("\"\"").into_results();
    assert_eq!(actual, vec![Ok(Token::new(Value::String { value: "\"\"".to_string() }, pos(1, 1)))]);
}

#[test]
fn next_yields_results_in_order() {
    let mut tokens = tokenize("a )");
    assert_eq!(tokens.next(), Some(Ok(atom(pos(1, 1), "a"))));
    assert_eq!(tokens.next(), Some(Ok(rparen(pos(1, 3)))));
    assert_eq!(tokens.next(), None);
}

#[test]
fn first_error_is_collected() {
    let actual = tokenize("a |").collect_tokens();
    assert_eq!(actual, Err(Error::UnexpectedCharacter { character: '|' }.for_position(pos(1, 3))));
}

#[test]
fn position_accessors() {
    let p = Position::start();
    assert_eq!((p.row(), p.column()), (1, 1));
    let p = p.next_column();
    assert_eq!((p.row(), p.column()), (1, 2));
    let p = p.next_row();
    assert_eq!((p.row(), p.column()), (2, 1));
}

#[test]
fn input_fits_ordinary_scripts() {
    assert!(lust::ast::token::input_fits(""));
    assert!(lust::ast::token::input_fits("(+ 1 2)\n(- 3 4)\n"));
}

#[test]
fn input_fits_rejects_long_lines() {
    let long_line = "a".repeat(70000);
    assert!(!lust::ast::token::input_fits(&long_line));
    let just_fitting = "a".repeat(65534);
    assert!(lust::ast::token::input_fits(&just_fitting));
    let too_many_rows = "\n".repeat(65535);
    assert!(!lust::ast::token::input_fits(&too_many_rows));
    let fitting_rows = "\n".repeat(65534);
    assert!(lust::ast::token::input_fits(&fitting_rows));
}

#[test]
fn error_is_last_result() {
    let results = tokenize("(a 1.2.3 b)").into_results();
    assert!(results.len() >= 2);
    assert!(results[..results.len() - 1].iter().all(|r| r.is_ok()));
    assert!(results[results.len() - 1].is_err());
    assert_eq!(results.len(), 3);
}

#[test]
fn lexeme_shapes() {
    let script = "(f \"a \\\"b\\\" c\" -1.5 .5 5. 007 - -x x-1 'q)";
    let tokens = tokenize(script).collect_tokens().unwrap();
    let mut strings = 0;
    let mut numbers = 0;
    let mut atoms = 0;
    for token in &tokens {
        match token.value() {
            Value::String { value } => {
                strings += 1;
                assert!(value.len() >= 2 && value.starts_with('"') && value.ends_with('"'));
            }
            Value::Number { value } => {
                numbers += 1;
                let first = value.chars().next().unwrap();
                assert!(first.is_ascii_digit() || first == '-' || first == '.');
                assert!(value.chars().skip(1).all(|c| c.is_ascii_digit() || c == '.'));
                assert!(value.matches('.').count() <= 1);
            }
            Value::Atom { value } => {
                atoms += 1;
                assert!(!value.chars().next().unwrap().is_ascii_digit());
            }
            _ => {}
        }
    }
    assert_eq!(strings, 1);
    assert_eq!(numbers, 4);
    assert_eq!(atoms, 5);
}

#[test]
fn tokens_are_read_from_their_positions() {
    let script = "(f \"x\\\\y\" -1.5 'q .5 (- -a))";
    let chars = script.chars().collect::<Vec<_>>();
    for token in tokenize(script).collect_tokens().unwrap() {
        let text = token.value().to_string().chars().collect::<Vec<_>>();
        assert_eq!(token.position().row(), 1);
        let start = token.position().column() as usize - 1;
        assert_eq!(&chars[start..start + text.len()], &text[..]);
    }
}
