use ulc::error::UlcError;
use ulc::names::NameSupply;
use ulc::term::Expr;

fn omega() -> Expr {
    let half = Expr::lambda("x", Expr::var("x").apply(&Expr::var("x")));
    half.apply(&half)
}

#[test]
fn a_variable_is_left_alone() {
    let mut names = NameSupply::new();
    assert_eq!(Expr::var("x").reduction(&mut names), Expr::var("x"));
}

#[test]
fn a_redex_is_contracted() {
    let mut names = NameSupply::new();
    let term = Expr::lambda("x", Expr::var("x")).apply(&Expr::var("y"));
    assert_eq!(term.reduction(&mut names), Expr::var("y"));
}

#[test]
fn a_redex_under_a_binder_is_contracted() {
    let mut names = NameSupply::new();
    let term = Expr::lambda("z", Expr::lambda("x", Expr::var("x")).apply(&Expr::var("z")));
    assert_eq!(term.reduction(&mut names), Expr::lambda("z", Expr::var("z")));
}

#[test]
fn an_application_of_a_variable_reduces_its_sides() {
    let mut names = NameSupply::new();
    let redex = Expr::lambda("x", Expr::var("x")).apply(&Expr::var("y"));
    let term = Expr::var("f").apply(&redex);
    assert_eq!(term.reduction(&mut names), Expr::var("f").apply(&Expr::var("y")));
}

#[test]
fn one_step_may_leave_a_redex() {
    let mut names = NameSupply::new();
    let id = Expr::lambda("x", Expr::var("x"));
    let term = Expr::lambda("f", Expr::var("f").apply(&Expr::var("y"))).apply(&id);
    let once = term.reduction(&mut names);
    assert_eq!(once, id.apply(&Expr::var("y")));
    assert_eq!(once.reduction(&mut names), Expr::var("y"));
}

#[test]
fn inner_steps_come_before_the_contraction() {
    let mut names = NameSupply::new();
    let id = Expr::lambda("x", Expr::var("x"));
    let term = id.apply(&id.apply(&Expr::var("y")));
    assert_eq!(term.reduction(&mut names), Expr::var("y"));
}

#[test]
fn a_step_renames_a_capturing_binder() {
    let mut names = NameSupply::new();
    let konst = Expr::lambda("x", Expr::lambda("y", Expr::var("x")));
    let term = Expr::lambda("y", konst.apply(&Expr::var("y")));
    assert_eq!(
        term.reduction(&mut names),
        Expr::lambda("y", Expr::lambda("v1", Expr::var("y")))
    );
}

#[test]
fn full_reduction_reaches_the_normal_form() {
    let mut names = NameSupply::new();
    let id = Expr::lambda("x", Expr::var("x"));
    let term = Expr::lambda("f", Expr::var("f").apply(&Expr::var("y"))).apply(&id);
    assert_eq!(term.full_reduction(&mut names, 10), Ok(Expr::var("y")));
}

#[test]
fn full_reduction_of_a_normal_form_takes_one_step() {
    let mut names = NameSupply::new();
    let term = Expr::lambda("x", Expr::var("x").apply(&Expr::var("y")));
    assert_eq!(term.full_reduction(&mut names, 1), Ok(term.clone()));
    assert_eq!(term.full_reduction(&mut names, 0), Err(UlcError::StepLimit));
}

#[test]
fn full_reduction_gives_up_at_the_limit() {
    let mut names = NameSupply::new();
    let id = Expr::lambda("x", Expr::var("x"));
    let term = Expr::lambda("f", Expr::var("f").apply(&Expr::var("y"))).apply(&id);
    assert_eq!(term.full_reduction(&mut names, 2), Err(UlcError::StepLimit));
    assert_eq!(term.full_reduction(&mut names, 3), Ok(Expr::var("y")));
}

#[test]
fn a_growing_term_never_settles() {
    let mut names = NameSupply::new();
    let half = Expr::lambda("x", Expr::var("x").apply(&Expr::var("x")).apply(&Expr::var("x")));
    let term = half.apply(&half);
    assert_eq!(term.full_reduction(&mut names, 12), Err(UlcError::StepLimit));
}

#[test]
fn a_term_that_reduces_to_itself_is_its_own_fixed_point() {
    let mut names = NameSupply::new();
    assert_eq!(omega().reduction(&mut names), omega());
    assert_eq!(omega().full_reduction(&mut names, 5), Ok(omega()));
}

#[test]
fn full_reduction_is_idempotent() {
    let mut names = NameSupply::new();
    let konst = Expr::lambda("x", Expr::lambda("y", Expr::var("x")));
    let terms = vec![
        Expr::lambda("y", konst.apply(&Expr::var("y"))),
        konst.apply(&konst).apply(&konst),
        Expr::lambda("f", Expr::var("f").apply(&Expr::var("y"))).apply(&konst),
        omega(),
        Expr::var("x"),
    ];
    for term in terms {
        let once = term.full_reduction(&mut names, 100).unwrap();
        let twice = once.full_reduction(&mut names, 100).unwrap();
        assert_eq!(twice, once);
    }
}

#[test]
fn a_step_frees_no_variable() {
    let mut names = NameSupply::new();
    let konst = Expr::lambda("x", Expr::lambda("y", Expr::var("x")));
    let term = Expr::lambda("y", konst.apply(&Expr::var("y")).apply(&Expr::var("z")));
    let before = term.fv();
    let after = term.reduction(&mut names).fv();
    assert!(after.iter().all(|name| before.contains(name)));
    let dropped = konst.apply(&Expr::var("a")).apply(&Expr::var("b"));
    let once = dropped.reduction(&mut names);
    assert_eq!(once.fv(), vec!["a".to_string()]);
}

#[test]
fn a_normal_form_takes_nothing_from_the_supply() {
    let mut names = NameSupply::new();
    let term = Expr::lambda("x", Expr::var("x").apply(&Expr::lambda("y", Expr::var("y"))));
    assert_eq!(term.reduction(&mut names), term);
    assert_eq!(term.full_reduction(&mut names, 1), Ok(term.clone()));
    assert_eq!(names.fresh(), "v1");
}

#[test]
fn full_reduction_is_idempotent_from_where_the_supply_stands() {
    let mut names = NameSupply::new();
    let konst = Expr::lambda("x", Expr::lambda("y", Expr::var("x")));
    let term = Expr::lambda("y", Expr::lambda("z", konst.apply(&Expr::var("y")).apply(&konst)))
        .apply(&Expr::lambda("y", konst.apply(&Expr::var("y"))));
    let once = term.full_reduction(&mut names, 50).unwrap();
    assert_ne!(names.fresh(), "v1");
    assert_eq!(once.full_reduction(&mut names, 1), Ok(once.clone()));
}
