use lust::common::write_list;
use lust::val::cons::{Cdr, Cons};

#[test]
fn cdr_cons_empty() {
    // Arrange
    let expected = None;
    let tested = Cdr::<()>::Empty;

    // Act
    let actual = tested.next();

    // Assert
    assert_eq!(actual, expected);
}

#[test]
fn cdr_cons_some() {
    // Arrange
    let expected = Cons::single(42);
    let tested = Cdr::Cons(&expected);

    // Act
    let actual = tested.next();

    // Assert
    assert_eq!(actual, Some(&expected));
}

#[test]
fn cdr_iter_empty() {
    // Arrange
    let expected = Vec::<()>::new();
    let tested = Cdr::<()>::Empty;

    // Act
    let actual = tested.iter();

    // Assert
    assert_eq!(actual, expected);
}

#[test]
fn cdr_iter_some() {
    // Arrange
    let expected = vec![1, 5, 14];
    let c14 = Cons::single(14);
    let c5 = c14.prepend(5);
    let c1 = c5.prepend(1);
    let tested = Cdr::Cons(&c1);

    // Act
    let actual = tested.iter();

    // Assert
    assert_eq!(actual, expected);
}

#[test]
fn cdr_fmt_empty() {
    // Arrange
    let expected = "()".to_string();
    let tested = Cdr::<i32>::Empty;

    // Act
    let actual = tested.to_string_with(|v: &i32| v.to_string());

    // Assert
    assert_eq!(actual, expected);
}

#[test]
fn cdr_fmt_some() {
    // Arrange
    let expected = "(1 5 14)".to_string();
    let c14 = Cons::single(14);
    let c5 = c14.prepend(5);
    let c1 = c5.prepend(1);
    let tested = Cdr::Cons(&c1);

    // Act
    let actual = tested.to_string_with(|v: &i32| v.to_string());

    // Assert
    assert_eq!(actual, expected);
}

#[test]
fn cons_single() {
    // Arrange
    let expected = vec![42];

    // Act
    let actual = Cons::single(42);

    // Assert
    assert_eq!(actual.iter(), expected);
    assert_eq!(*actual.car(), 42);
    assert_eq!(*actual.cdr(), Cdr::Empty);
}

#[test]
fn cons_prepend() {
    // Arrange
    let e14 = Cons::single(14);
    let e5 = e14.prepend(5);
    let expected = e5.prepend(1);

    // Act
    let t = Cons::single(14);
    let t = t.prepend(5);
    let actual = t.prepend(1);

    // Assert
    assert_eq!(actual, expected);
    assert_eq!(actual.iter(), vec![1, 5, 14]);
}

#[test]
fn cons_tail() {
    // Arrange
    let expected = Cons::single(14);

    // Act
    let c14 = Cons::single(14);
    let c5 = c14.prepend(5);
    let t = c5.prepend(1);
    let actual = t.tail();

    // Assert
    assert_eq!(actual, &expected);
}

#[test]
fn cons_iter() {
    // Arrange
    let expected = vec![1, 5, 14];

    // Act
    let c14 = Cons::single(14);
    let c5 = c14.prepend(5);
    let actual = c5.prepend(1).iter();

    // Assert
    assert_eq!(actual, expected);
}

#[test]
fn cons_prepend_then_car_and_cdr() {
    let c14 = Cons::single(14);
    let c5 = c14.prepend(5);
    assert_eq!(*c5.car(), 5);
    assert_eq!(c5.cdr().next(), Some(&c14));
    assert_eq!(c5.cdr().iter(), vec![14]);
}

#[test]
fn cons_single_is_own_tail() {
    let c = Cons::single(7);
    assert_eq!(c.tail(), &c);
}

#[test]
fn write_list_items() {
    assert_eq!(write_list(&vec!["a".to_string()]), "(a)");
    assert_eq!(write_list(&vec!["a".to_string(), "bc".to_string(), "\"d\"".to_string()]), "(a bc \"d\")");
}

#[test]
fn cons_fmt_writes_each_value() {
    let c3 = Cons::single(3);
    let c2 = c3.prepend(-2);
    let actual = c2.to_string_with(|v: &i32| format!("<{v}>"));
    assert_eq!(actual, "(<-2> <3>)");
}
