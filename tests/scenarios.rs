use henk::term::Henk;
use henk::typing::TypeError;

fn var(x: &str) -> Henk {
    Henk::Variable(x.to_string())
}

fn uni(n: i64) -> Henk {
    Henk::Universe(n)
}

fn app(a: Henk, b: Henk) -> Henk {
    Henk::App(Box::new(a), Box::new(b))
}

fn lam(x: &str, d: Henk, e: Henk) -> Henk {
    Henk::Lambda(x.to_string(), Box::new(d), Box::new(e))
}

fn pi(x: &str, d: Henk, c: Henk) -> Henk {
    Henk::Forall(x.to_string(), Box::new(d), Box::new(c))
}

#[test]
fn identity_on_universe() {
    let t = lam("x", uni(0), var("x"));
    assert_eq!(t.type_check(), Ok(pi("x", uni(0), uni(0))));
}

#[test]
fn higher_universe() {
    let t = lam("x", uni(11), var("x"));
    assert_eq!(t.type_check(), Ok(pi("x", uni(11), uni(11))));
}

#[test]
fn unknown_variable() {
    let err = var("y").type_check().unwrap_err();
    assert_eq!(err, TypeError::UnknownVariable("y".to_string()));
    assert!(err.message().contains("Cannot find variable y"));
}

#[test]
fn non_function_application() {
    let err = app(uni(0), uni(0)).type_check().unwrap_err();
    assert_eq!(err, TypeError::NotAFunction(uni(1)));
    assert!(err.message().contains("Expected lambda, found value of type Universe 1"));
}

#[test]
fn argument_mismatch() {
    let err = app(lam("x", uni(0), var("x")), uni(0)).type_check().unwrap_err();
    assert_eq!(err, TypeError::ArgTypeMismatch(uni(0), uni(1)));
    assert!(err
        .message()
        .contains("Expected something of type Universe 0, found that of type Universe 1"));
}

#[test]
fn church_zero() {
    let nat_to_nat = pi("_", var("Nat"), var("Nat"));
    let t = lam(
        "Nat",
        uni(0),
        lam("Succ", nat_to_nat.clone(), lam("Zero", var("Nat"), var("Zero"))),
    );
    let expected = pi(
        "Nat",
        uni(0),
        pi("Succ", nat_to_nat, pi("Zero", var("Nat"), var("Nat"))),
    );
    assert_eq!(t.type_check(), Ok(expected));
}

#[test]
fn capture_avoidance_witness() {
    let t = lam("y", uni(0), var("x"));
    let r = t.subst(&"x".to_string(), &var("y"));
    assert_eq!(r, lam("y'", uni(0), var("y")));
    assert!(r.alpha_eq(&lam("z", uni(0), var("y"))));
}
