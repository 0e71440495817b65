use lust::ast::{parse, tokenize, Node, NodeValue, Value};
use lust::exp::{Command, Error, Expression, ParseContext};
use lust::lambda::{Lambda, Ref, Store};

/// A small command set: `fixed` takes two arguments, `optional` one or more, and `lambda` an
/// argument list and a body.
#[derive(Clone, Copy, Debug, PartialEq)]
enum Cmd {
    Fixed,
    Optional,
}

impl Command for Cmd {
    fn parse<'a>(
        context: &mut ParseContext,
        head: &'a Node,
        tail: &'a [Node],
    ) -> Result<Expression<Self>, Error<'a>> {
        let name = match head.value() {
            NodeValue::Leaf(Value::Atom { value }) => value.as_str(),
            _ => {
                return Err(Error::Eval {
                    node: head,
                    message: "unexpected node",
                })
            }
        };
        let command = match name {
            "fixed" if tail.len() == 2 => Cmd::Fixed,
            "fixed" => {
                return Err(Error::InvalidInvocation {
                    expected: 2,
                    actual: tail.len(),
                })
            }
            "optional" if !tail.is_empty() => Cmd::Optional,
            "optional" => {
                return Err(Error::InvalidInvocation {
                    expected: 1,
                    actual: 0,
                })
            }
            "lambda" => {
                let names = lust::exp::as_argument_list(&tail[0]).ok_or(Error::Syntax {
                    message: "expected argument list",
                })?;
                let count = names.len();
                context.scope.extend(names);
                let body = Expression::parse(context, &tail[1]);
                context.scope.truncate(context.scope.len() - count);
                return Ok(Expression::LambdaDef(vec![Lambda::new(count, body?)]));
            }
            other => {
                return Err(Error::UnknownReference {
                    value: other.to_string(),
                })
            }
        };
        let mut arguments = Vec::new();
        for n in tail {
            arguments.push(Expression::parse(context, n)?);
        }
        Ok(Expression::Command(command, arguments))
    }
}

fn compile(script: &str) -> Result<Expression<Cmd>, String> {
    let ast = parse(&mut tokenize(script)).unwrap();
    Expression::<Cmd>::parse(&mut ParseContext::default(), &ast).map_err(|e| format!("{e:?}"))
}

fn text(e: &Expression<Cmd>) -> String {
    match e {
        Expression::Command(Cmd::Fixed, _) => "fixed".to_string(),
        Expression::Command(Cmd::Optional, _) => "optional".to_string(),
        Expression::Number(v) => v.clone(),
        other => format!("{other:?}"),
    }
}

fn number(v: &str) -> Expression<Cmd> {
    Expression::Number(v.to_string())
}

#[test]
fn expression_for_each() {
    let script = r"(
            fixed
            (optional 3 1 5)
            (optional 1 3 7))";
    let expected = vec![
        "fixed".to_string(),
        "optional".to_string(),
        "3".to_string(),
        "1".to_string(),
        "5".to_string(),
        "optional".to_string(),
        "1".to_string(),
        "3".to_string(),
        "7".to_string(),
    ];

    let expression = compile(script).expect("compiles");
    let actual: Vec<String> = expression.sub_expressions().into_iter().map(text).collect();

    assert_eq!(expected, actual);
}

#[test]
fn expression_for_each_list() {
    let inner = Expression::<Cmd>::List(vec![number("3.0"), number("4.0")]);
    let expression = Expression::<Cmd>::List(vec![
        number("1.0"),
        number("2.0"),
        Expression::List(vec![number("3.0"), number("4.0")]),
    ]);
    let (one, two, three, four) = (number("1.0"), number("2.0"), number("3.0"), number("4.0"));
    let expected = vec![&expression, &one, &two, &inner, &three, &four];

    let actual = expression.sub_expressions();

    assert_eq!(expected, actual);
}

#[test]
fn expression_for_each_map() {
    let inner = Expression::<Cmd>::Mapping(
        vec!["d".into(), "e".into()],
        vec![number("3.0"), number("4.0")],
    );
    let expression = Expression::<Cmd>::Mapping(
        vec!["a".into(), "b".into(), "c".into()],
        vec![
            number("1.0"),
            number("2.0"),
            Expression::Mapping(vec!["d".into(), "e".into()], vec![number("3.0"), number("4.0")]),
        ],
    );
    let (one, two, three, four) = (number("1.0"), number("2.0"), number("3.0"), number("4.0"));
    let expected = vec![&expression, &one, &two, &inner, &three, &four];

    let actual = expression.sub_expressions();

    assert_eq!(expected, actual);
}

#[test]
fn expression_link() {
    let mut expression = compile("(lambda (a b) (fixed a b))").expect("compiles");
    let mut store = Store::default();

    expression.link_lambdas(&mut store);
    let actual = expression.sub_expressions();

    assert_eq!(actual.len(), 1);
    assert!(matches!(actual[0], Expression::LambdaRef(_)));
}

#[test]
fn link_numbers_lambdas_in_traversal_order() {
    let mut expression =
        compile("(optional (lambda (a) a) (optional (lambda (b c) c)) 1)").expect("compiles");
    let mut store = Store::default();

    expression.link_lambdas(&mut store);

    let expected = Expression::Command(
        Cmd::Optional,
        vec![
            Expression::LambdaRef(Ref::from_index(0)),
            Expression::Command(Cmd::Optional, vec![Expression::LambdaRef(Ref::from_index(1))]),
            number("1"),
        ],
    );
    assert_eq!(expected, expression);
    assert_eq!(
        store.resolve(Ref::from_index(0)),
        Some(&Lambda::new(1, Expression::Reference(0)))
    );
    assert_eq!(
        store.resolve(Ref::from_index(1)),
        Some(&Lambda::new(2, Expression::Reference(0)))
    );
    assert_eq!(store.resolve(Ref::from_index(2)), None);
}

#[test]
fn parse_literals() {
    assert_eq!(compile("true"), Ok(Expression::Boolean(true)));
    assert_eq!(compile("false"), Ok(Expression::Boolean(false)));
    assert_eq!(compile("1.50"), Ok(number("1.50")));
    assert_eq!(compile("\"a\\\"b\""), Ok(Expression::String("a\"b".to_string())));
}

#[test]
fn parse_quoted_node_is_kept() {
    let ast = parse(&mut tokenize("'(a 1)")).unwrap();
    let actual = Expression::<Cmd>::parse(&mut ParseContext::default(), &ast);
    assert_eq!(actual, Ok(Expression::AST(ast.clone())));
}

#[test]
fn parse_reference_counts_from_the_innermost_variable() {
    let ast = parse(&mut tokenize("a")).unwrap();
    let mut context = ParseContext {
        scope: vec!["a".to_string(), "b".to_string(), "a".to_string(), "c".to_string()],
    };
    let actual = Expression::<Cmd>::parse(&mut context, &ast);
    assert_eq!(actual, Ok(Expression::Reference(1)));
    assert_eq!(context.scope.len(), 4);
}

#[test]
fn parse_unknown_reference() {
    assert_eq!(compile("x"), Err(format!("{:?}", Error::UnknownReference { value: "x".to_string() })));
}

#[test]
fn parse_empty_tree_is_an_error() {
    let ast = parse(&mut tokenize("()")).unwrap();
    let actual = Expression::<Cmd>::parse(&mut ParseContext::default(), &ast);
    assert_eq!(
        actual,
        Err(Error::Eval {
            node: &ast,
            message: "unexpected node",
        })
    );
}

#[test]
fn parse_tree_without_command_is_a_list() {
    assert_eq!(
        compile("(1 \"s\" true)"),
        Ok(Expression::List(vec![
            number("1"),
            Expression::String("s".to_string()),
            Expression::Boolean(true),
        ]))
    );
}

#[test]
fn parse_command_error_other_than_a_reference_is_kept() {
    assert_eq!(
        compile("(fixed 1)"),
        Err(format!("{:?}", Error::InvalidInvocation { expected: 2, actual: 1 }))
    );
}

#[test]
fn parse_list_stops_at_the_first_failing_child() {
    assert_eq!(
        compile("(1 y z)"),
        Err(format!("{:?}", Error::UnknownReference { value: "y".to_string() }))
    );
}

#[test]
fn as_map_of_bindings() {
    let ast = parse(&mut tokenize("((a 1) (b \"x\"))")).unwrap();
    let actual = Expression::<Cmd>::as_map(&mut ParseContext::default(), &ast);
    assert_eq!(
        actual,
        Some(Expression::Mapping(
            vec!["a".to_string(), "b".to_string()],
            vec![number("1"), Expression::String("x".to_string())],
        ))
    );
}

#[test]
fn as_map_rejects_what_is_no_binding() {
    let mut context = ParseContext::default();
    for script in ["a", "((a 1 2))", "((1 2))", "(a)", "((a y))"] {
        let ast = parse(&mut tokenize(script)).unwrap();
        assert_eq!(Expression::<Cmd>::as_map(&mut context, &ast), None, "{script}");
    }
}
