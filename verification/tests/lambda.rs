use lust::exp::Error;
use lust::lambda::{Lambda, Ref, Store};

fn lambda() -> Lambda<f32> {
    Lambda::new(1, 42.0)
}

#[test]
fn lambda_invoke_too_few_arguments() {
    let tested = Lambda::new(2, 42.0f32);
    let expected = Err(Error::InvalidInvocation { expected: 2, actual: 1 });
    let actual = tested.invoke(&[()], |e, _env| Ok(*e));
    assert_eq!(expected, actual);
}

#[test]
fn lambda_invoke_too_many_arguments() {
    let tested = Lambda::new(1, 42.0f32);
    let expected = Err(Error::InvalidInvocation { expected: 1, actual: 2 });
    let actual = tested.invoke(&[(), ()], |e, _env| Ok(*e));
    assert_eq!(expected, actual);
}

#[test]
fn lambda_invoke() {
    let tested = Lambda::new(1, 42.0f32);
    let expected: Result<f32, Error> = Ok(42.0);
    let actual = tested.invoke(&[()], |e, _env| Ok(*e));
    assert_eq!(expected, actual);
}

#[test]
fn lambda_register_single() {
    let lambda = lambda();
    let mut tested = Store::<Lambda<f32>>::default();
    let expected = Ref::from_index(0);
    let actual = tested.register(lambda.clone());
    assert_eq!(expected, actual);
    assert!(tested.resolve(actual).is_some())
}

#[test]
fn lambda_register_multiple() {
    let lambda = lambda();
    let mut tested = Store::<Lambda<f32>>::default();
    let actual = (0..10).map(|_| tested.register(lambda.clone())).collect::<Vec<_>>();
    for (index, &actual) in actual.iter().enumerate() {
        let expected = Ref::from_index(index);
        assert_eq!(expected, actual);
        assert!(tested.resolve(actual).is_some())
    }
}

#[test]
fn lambda_resolve_empty() {
    let tested = Store::<Lambda<f32>>::default();
    let expected = None;
    let actual = tested.resolve(Ref::from_index(0));
    assert_eq!(expected, actual);
}

#[test]
fn lambda_resolve_invalid_index() {
    let tested = Store::<Lambda<f32>>::default();
    let expected = None;
    let actual = tested.resolve(Ref::from_index(0));
    assert_eq!(expected, actual);
}

#[test]
fn lambda_resolve() {
    let lambda = lambda();
    let mut tested = Store::<Lambda<f32>>::default();
    let expected = Some(&lambda);
    let lambda_ref = tested.register(lambda.clone());
    let actual = tested.resolve(lambda_ref);
    assert_eq!(expected, actual);
}

#[test]
fn invoke_sees_arguments_innermost_last() {
    let tested = Lambda::new(2, ());
    let actual = tested.invoke(&[1, 2], |_e, env| Ok((env.resolve(0), env.resolve(1), env.resolve(2))));
    assert_eq!(actual, Ok((Some(2), Some(1), None)));
}

#[test]
fn earlier_registrations_still_resolve() {
    let mut store = Store::default();
    let a = store.register(Lambda::new(0, 1));
    let b = store.register(Lambda::new(0, 2));
    assert_eq!(store.resolve(a).map(|l| *l.expression()), Some(1));
    assert_eq!(store.resolve(b).map(|l| *l.expression()), Some(2));
    assert_eq!(a.index(), 0);
    assert_eq!(b.index(), 1);
    assert_eq!(store.resolve(Ref::from_index(2)), None);
}
