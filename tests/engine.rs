use henk::names::fresh;
use henk::term::Henk;
use henk::typing::TypeError;

fn var(x: &str) -> Henk {
    Henk::Variable(x.to_string())
}

fn uni(n: i64) -> Henk {
    Henk::Universe(n)
}

fn app(a: Henk, b: Henk) -> Henk {
    Henk::App(Box::new(a), Box::new(b))
}

fn lam(x: &str, d: Henk, e: Henk) -> Henk {
    Henk::Lambda(x.to_string(), Box::new(d), Box::new(e))
}

fn pi(x: &str, d: Henk, c: Henk) -> Henk {
    Henk::Forall(x.to_string(), Box::new(d), Box::new(c))
}

fn name(x: &str) -> String {
    x.to_string()
}

fn sorted(mut v: Vec<String>) -> Vec<String> {
    v.sort();
    v.dedup();
    v
}

fn omega() -> Henk {
    let w = lam("x", uni(0), app(var("x"), var("x")));
    app(w.clone(), w)
}

fn church_zero() -> Henk {
    lam(
        "Nat",
        uni(0),
        lam("Succ", pi("_", var("Nat"), var("Nat")), lam("Zero", var("Nat"), var("Zero"))),
    )
}

#[test]
fn universe_has_next_universe_as_type() {
    for n in [0i64, 1, 7, 1000] {
        assert_eq!(uni(n).type_check(), Ok(uni(n + 1)));
    }
}

#[test]
fn alpha_and_beta_are_reflexive() {
    let t = church_zero();
    assert!(t.alpha_eq(&t));
    assert_eq!(t.beta_eq(&t, 10), Some(true));
    let u = app(lam("x", uni(1), var("x")), uni(0));
    assert!(u.alpha_eq(&u));
    assert_eq!(u.beta_eq(&u, 10), Some(true));
}

#[test]
fn substituting_a_name_by_itself() {
    let t = lam("y", var("x"), app(var("x"), var("y")));
    let r = t.clone().subst(&name("x"), &var("x"));
    assert!(r.alpha_eq(&t));
    assert_eq!(r, t);
}

#[test]
fn substituting_an_absent_name() {
    let t = lam("y", uni(0), app(var("y"), var("z")));
    let r = t.clone().subst(&name("x"), &var("y"));
    assert!(r.alpha_eq(&t));
}

#[test]
fn substitution_when_fresh_name_is_the_target() {
    // The binder `y` is renamed to `y'`, which is the name being replaced.
    let t = lam("y", uni(0), var("y"));
    let r = t.clone().subst(&name("y'"), &var("y"));
    assert_eq!(r, lam("y'", uni(0), var("y'")));
    assert!(r.alpha_eq(&t));
}

#[test]
fn free_names_after_substitution() {
    let t = lam("y", var("w"), app(var("x"), var("y")));
    let r = t.subst(&name("x"), &app(var("y"), var("v")));
    assert_eq!(sorted(r.free_vars()), vec![name("v"), name("w"), name("y")]);
    let t2 = lam("y", var("w"), var("y"));
    let r2 = t2.subst(&name("x"), &var("v"));
    assert_eq!(sorted(r2.free_vars()), vec![name("w")]);
}

#[test]
fn substituted_names_stay_free() {
    let t = lam("y", uni(0), lam("z", var("y"), app(var("x"), var("z"))));
    let u = app(var("y"), var("z"));
    let r = t.subst(&name("x"), &u);
    let free = sorted(r.free_vars());
    assert!(free.contains(&name("y")));
    assert!(free.contains(&name("z")));
}

#[test]
fn capture_renames_past_used_primes() {
    let t = lam("y", uni(0), app(var("x"), var("y'")));
    let r = t.subst(&name("x"), &var("y"));
    assert_eq!(r, lam("y''", uni(0), app(var("y"), var("y'"))));
}

#[test]
fn free_vars_of_binders() {
    let t = lam("x", var("y"), app(var("x"), var("z")));
    assert_eq!(sorted(t.free_vars()), vec![name("y"), name("z")]);
    let p = pi("x", var("x"), var("x"));
    assert_eq!(sorted(p.free_vars()), vec![name("x")]);
    assert!(uni(3).free_vars().is_empty());
}

#[test]
fn fresh_name_skips_used_candidates() {
    assert_eq!(fresh(&name("a"), &vec![name("a"), name("b")]), name("a'"));
    assert_eq!(fresh(&name("a"), &vec![name("a'"), name("a''")]), name("a'''"));
}

#[test]
fn normal_form_is_beta_equivalent() {
    let t = app(lam("x", uni(1), lam("y", var("x"), var("y"))), uni(0));
    let n = t.clone().nf(10).unwrap();
    assert_eq!(n, lam("y", uni(0), var("y")));
    assert_eq!(n.beta_eq(&t, 10), Some(true));
}

#[test]
fn weak_head_form_is_beta_equivalent() {
    let t = app(lam("x", uni(1), lam("y", var("x"), app(lam("z", uni(0), var("z")), var("y")))), uni(0));
    let w = t.clone().whnf(10).unwrap();
    assert_eq!(w, lam("y", uni(0), app(lam("z", uni(0), var("z")), var("y"))));
    assert_eq!(w.beta_eq(&t, 10), Some(true));
}

#[test]
fn normal_form_is_idempotent() {
    let t = app(app(var("f"), app(lam("x", uni(0), var("x")), var("a"))), var("b"));
    let n = t.nf(10).unwrap();
    let n2 = n.clone().nf(10).unwrap();
    assert_eq!(n2, n);
    assert!(n2.alpha_eq(&n));
}

#[test]
fn normalization_keeps_argument_order() {
    let t = app(app(var("f"), var("a")), var("b"));
    assert_eq!(t.clone().nf(5), Some(t.clone()));
    assert_eq!(t.clone().whnf(5), Some(t));
}

#[test]
fn normalization_under_product_head() {
    let t = app(pi("x", uni(0), app(lam("y", uni(0), var("y")), var("x"))), var("a"));
    assert_eq!(t.nf(5), Some(app(pi("x", uni(0), var("x")), var("a"))));
}

#[test]
fn weak_head_leaves_arguments() {
    let t = app(var("f"), app(lam("x", uni(0), var("x")), var("a")));
    assert_eq!(t.clone().whnf(5), Some(t));
}

#[test]
fn diverging_term_runs_out_of_steps() {
    assert_eq!(omega().nf(50), None);
    assert_eq!(omega().whnf(50), None);
    assert_eq!(omega().beta_eq(&uni(0), 50), None);
}

#[test]
fn reduction_preserves_type() {
    let t = app(lam("A", uni(1), lam("x", var("A"), var("x"))), uni(0));
    let ty = t.clone().type_check().unwrap();
    assert_eq!(ty, pi("x", uni(0), uni(0)));
    let n = t.nf(10).unwrap();
    let ty2 = n.type_check().unwrap();
    assert_eq!(ty2.beta_eq(&ty, 10), Some(true));
}

#[test]
fn later_declaration_wins() {
    let ctx = vec![(name("x"), uni(0)), (name("x"), uni(1))];
    assert_eq!(var("x").type_check_with_context(ctx, 10), Ok(uni(1)));
}

#[test]
fn product_lives_in_larger_universe() {
    assert_eq!(pi("x", uni(0), var("x")).type_check(), Ok(uni(1)));
    assert_eq!(pi("x", uni(3), uni(0)).type_check(), Ok(uni(4)));
}

#[test]
fn domain_must_be_a_type() {
    let t = lam("x", lam("y", uni(0), var("y")), var("x"));
    let err = t.type_check().unwrap_err();
    assert_eq!(err, TypeError::NotAType(pi("y", uni(0), uni(0))));
    assert_eq!(err.message(), "Expected a type, found value of type (y: Universe 0) -> Universe 0");
}

#[test]
fn type_check_runs_out_of_steps() {
    let fty = app(lam("x", uni(1), pi("y", var("x"), var("x"))), uni(0));
    let ctx = vec![(name("f"), fty), (name("a"), uni(0))];
    let t = app(var("f"), var("a"));
    assert_eq!(t.clone().type_check_with_context(ctx.clone(), 0), Err(TypeError::OutOfFuel));
    assert_eq!(TypeError::OutOfFuel.message(), "Normalization ran out of steps");
    assert_eq!(t.type_check_with_context(ctx, 5), Ok(uni(0)));
}

#[test]
fn dependent_application_substitutes_argument() {
    let ctx = vec![(name("P"), pi("n", uni(0), uni(0))), (name("f"), pi("A", uni(0), app(var("P"), var("A"))))];
    let t = app(var("f"), var("B"));
    let ctx2 = {
        let mut c = ctx.clone();
        c.push((name("B"), uni(0)));
        c
    };
    assert_eq!(t.clone().type_check_with_context(ctx, 5), Err(TypeError::UnknownVariable(name("B"))));
    assert_eq!(t.type_check_with_context(ctx2, 5), Ok(app(var("P"), var("B"))));
}

#[test]
fn rendering() {
    assert_eq!(uni(0).render(), "Universe 0");
    assert_eq!(uni(-3).render(), "Universe -3");
    assert_eq!(uni(1234567).render(), "Universe 1234567");
    assert_eq!(uni(i64::MIN).render(), "Universe -9223372036854775808");
    assert_eq!(app(var("f"), var("a")).render(), "(f a)");
    assert_eq!(lam("x", uni(0), var("x")).render(), "(\\x: Universe 0. x)");
    assert_eq!(pi("x", uni(0), uni(1)).render(), "(x: Universe 0) -> Universe 1");
}

#[test]
fn level_limits() {
    assert!(uni(5).levels_fit());
    assert!(!lam("x", uni(i64::MAX), var("x")).levels_fit());
}

#[test]
fn product_reports_codomain_error_before_universe_test() {
    let t = pi("x", lam("y", uni(0), var("y")), var("z"));
    assert_eq!(t.type_check(), Err(TypeError::UnknownVariable(name("z"))));
    let t2 = pi("x", lam("y", uni(0), var("y")), uni(0));
    assert_eq!(t2.type_check(), Err(TypeError::NotAType(pi("y", uni(0), uni(0)))));
}

#[test]
fn free_vars_lists_each_name_once() {
    let t = app(app(var("x"), var("x")), lam("y", var("x"), app(var("y"), var("x"))));
    assert_eq!(t.free_vars(), vec![name("x")]);
}
