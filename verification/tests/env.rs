use lust::exp::cmd::{Context, ResourceConstrainer};
use lust::exp::{Error, ParseContext};
use lust::Environment;

#[test]
fn env_empty() {
    let tested = Environment::<f32>::empty();
    assert!(matches!(tested, Environment::Empty));
}

#[test]
fn borrowed() {
    let values = [1.0f32, 2.0];
    let tested = Environment::borrowed(&values);
    assert!(matches!(tested, Environment::Borrowed { .. }));
}

#[test]
fn with_scope() {
    let values = [1.0f32, 2.0];
    let t = Environment::empty();
    let tested = t.with_scope(&values);
    assert!(matches!(tested, Environment::Scoped { .. }));
}

#[test]
fn env_resolve_empty() {
    let tested = Environment::<f32>::empty();
    let expected = None;
    let actual = tested.resolve(2);
    assert_eq!(actual, expected);
}

#[test]
fn resolve_borrowed() {
    let values = [1.0f32, 2.0];
    let tested = Environment::borrowed(&values);
    let expected = Some(values[0]);
    let actual = tested.resolve(1);
    assert_eq!(actual, expected);
}

#[test]
fn resolve_single() {
    let values = [1.0f32, 2.0];
    let t = Environment::empty();
    let tested = t.with_scope(&values);
    let expected = Some(values[0]);
    let actual = tested.resolve(1);
    assert_eq!(actual, expected);
}

#[test]
fn resolve_multi() {
    let values1 = [1.0f32];
    let values2 = [2.0f32];
    let t = Environment::empty();
    let t = t.with_scope(&values1);
    let tested = t.with_scope(&values2);
    let expected1 = Some(values1[0]);
    let expected2 = Some(values2[0]);
    let actual1 = tested.resolve(1);
    let actual2 = tested.resolve(0);
    assert_eq!(actual1, expected1);
    assert_eq!(actual2, expected2);
}

#[test]
fn resolve_beyond_scopes() {
    let values1 = [1, 2];
    let values2 = [3];
    let t = Environment::borrowed(&values1);
    let tested = t.with_scope(&values2);
    assert_eq!(tested.resolve(0), Some(3));
    assert_eq!(tested.resolve(1), Some(2));
    assert_eq!(tested.resolve(2), Some(1));
    assert_eq!(tested.resolve(3), None);
}

#[test]
fn parse_context_resolves_innermost_name() {
    let context = ParseContext { scope: vec!["a".to_string(), "b".to_string(), "a".to_string()] };
    assert_eq!(context.resolve("a"), Some(0));
    assert_eq!(context.resolve("b"), Some(1));
    assert_eq!(context.resolve("c"), None);
    assert_eq!(ParseContext::default().resolve("a"), None);
}

#[test]
fn resource_constrainer_limits_evaluations() {
    let mut constrainer = ResourceConstrainer::from(2);
    assert_eq!(constrainer.on_evaluate(), Ok(()));
    assert_eq!(constrainer.on_evaluate(), Ok(()));
    assert_eq!(constrainer.on_evaluate(), Err(Error::ExecutionLimited));
    assert_eq!(constrainer.remaining(), -1);
    let mut unlimited = ();
    assert_eq!(unlimited.on_evaluate(), Ok(()));
}

#[test]
fn resource_constrainer_wraps_at_minimum() {
    let mut constrainer = ResourceConstrainer::new(isize::MIN);
    assert_eq!(constrainer.on_evaluate(), Err(Error::ExecutionLimited));
    assert_eq!(constrainer.remaining(), isize::MAX);
}
