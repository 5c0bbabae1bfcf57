use ulc::names::NameSupply;
use ulc::term::Expr;

fn id(name: &str) -> String {
    name.to_string()
}

#[test]
fn a_variable_of_that_name_is_replaced() {
    let mut names = NameSupply::new();
    let out = Expr::var("x").substitution(&id("x"), &Expr::var("y"), &mut names);
    assert_eq!(out, Expr::var("y"));
}

#[test]
fn another_variable_is_left_alone() {
    let mut names = NameSupply::new();
    let out = Expr::var("z").substitution(&id("x"), &Expr::var("y"), &mut names);
    assert_eq!(out, Expr::var("z"));
}

#[test]
fn substitution_goes_into_both_sides_of_an_application() {
    let mut names = NameSupply::new();
    let term = Expr::var("x").apply(&Expr::var("a")).apply(&Expr::var("x"));
    let out = term.substitution(&id("x"), &Expr::var("b"), &mut names);
    assert_eq!(out, Expr::var("b").apply(&Expr::var("a")).apply(&Expr::var("b")));
}

#[test]
fn a_binder_of_that_name_shadows_it() {
    let mut names = NameSupply::new();
    let term = Expr::lambda("x", Expr::var("x"));
    let out = term.substitution(&id("x"), &Expr::var("y"), &mut names);
    assert_eq!(out, term);
    assert_eq!(names.fresh(), "v1");
}

#[test]
fn a_harmless_binder_keeps_its_name() {
    let mut names = NameSupply::new();
    let term = Expr::lambda("z", Expr::var("x").apply(&Expr::var("z")));
    let out = term.substitution(&id("x"), &Expr::var("y"), &mut names);
    assert_eq!(out, Expr::lambda("z", Expr::var("y").apply(&Expr::var("z"))));
    assert_eq!(names.fresh(), "v1");
}

#[test]
fn a_capturing_binder_is_renamed() {
    let mut names = NameSupply::new();
    let term = Expr::lambda("y", Expr::var("x"));
    let out = term.substitution(&id("x"), &Expr::var("y"), &mut names);
    assert_ne!(out, Expr::lambda("y", Expr::var("y")));
    assert_eq!(out, Expr::lambda("v1", Expr::var("y")));
    let under_y = vec![id("y")];
    assert_eq!(
        out.debrujin_with(&under_y),
        Expr::lambda("z", Expr::var("y")).debrujin_with(&under_y)
    );
    assert_ne!(
        out.debrujin_with(&under_y),
        Expr::lambda("y", Expr::var("y")).debrujin_with(&under_y)
    );
}

#[test]
fn renaming_reaches_the_bound_occurrences() {
    let mut names = NameSupply::new();
    let term = Expr::lambda("y", Expr::var("x").apply(&Expr::var("y")));
    let out = term.substitution(&id("x"), &Expr::var("y"), &mut names);
    assert_eq!(out, Expr::lambda("v1", Expr::var("y").apply(&Expr::var("v1"))));
}

#[test]
fn each_renamed_binder_gets_a_name_of_its_own() {
    let mut names = NameSupply::new();
    let inner = Expr::lambda("y", Expr::var("x").apply(&Expr::var("y")));
    let term = inner.apply(&inner);
    let out = term.substitution(&id("x"), &Expr::var("y"), &mut names);
    assert_eq!(
        out,
        Expr::lambda("v1", Expr::var("y").apply(&Expr::var("v1")))
            .apply(&Expr::lambda("v2", Expr::var("y").apply(&Expr::var("v2"))))
    );
    assert_eq!(names.fresh(), "v3");
}

#[test]
fn a_closed_replacement_renames_nothing() {
    let mut names = NameSupply::new();
    let closed = Expr::lambda("y", Expr::var("y"));
    let term = Expr::lambda("y", Expr::var("x").apply(&Expr::var("y")));
    let out = term.substitution(&id("x"), &closed, &mut names);
    assert_eq!(out, Expr::lambda("y", closed.apply(&Expr::var("y"))));
    assert!(out.fv().is_empty());
    assert_eq!(names.fresh(), "v1");
}

#[test]
fn renaming_is_needed_even_where_the_name_does_not_occur() {
    let mut names = NameSupply::new();
    let term = Expr::lambda("y", Expr::var("y"));
    let out = term.substitution(&id("x"), &Expr::var("y"), &mut names);
    assert_eq!(out, Expr::lambda("v1", Expr::var("v1")));
}

#[test]
fn nested_binders_are_renamed_from_the_outside_in() {
    let mut names = NameSupply::new();
    let term = Expr::lambda(
        "a",
        Expr::lambda("b", Expr::var("x").apply(&Expr::var("a")).apply(&Expr::var("b"))),
    );
    let replacement = Expr::var("a").apply(&Expr::var("b"));
    let out = term.substitution(&id("x"), &replacement, &mut names);
    assert_eq!(
        out,
        Expr::lambda(
            "v1",
            Expr::lambda("v2", replacement.apply(&Expr::var("v1")).apply(&Expr::var("v2"))),
        )
    );
    let mut free = out.fv();
    free.sort();
    free.dedup();
    assert_eq!(free, vec![id("a"), id("b")]);
}

#[test]
fn the_supply_goes_on_where_it_stood() {
    let mut names = NameSupply::new();
    names.fresh();
    names.fresh();
    let term = Expr::lambda("y", Expr::var("x"));
    let out = term.substitution(&id("x"), &Expr::var("y"), &mut names);
    assert_eq!(out, Expr::lambda("v3", Expr::var("y")));
}

#[test]
fn the_supply_does_not_look_at_the_names_of_the_term() {
    let mut names = NameSupply::new();
    let term = Expr::lambda("y", Expr::var("x").apply(&Expr::var("v1")));
    let out = term.substitution(&id("x"), &Expr::var("y"), &mut names);
    assert_eq!(out, Expr::lambda("v1", Expr::var("y").apply(&Expr::var("v1"))));
}

#[test]
fn substitution_of_a_closed_term_commutes_with_the_nameless_form() {
    let mut names = NameSupply::new();
    let closed = Expr::lambda("y", Expr::lambda("z", Expr::var("y")));
    let body = Expr::lambda("y", Expr::var("x").apply(&Expr::var("y")).apply(&Expr::var("x")));
    let out = body.substitution(&id("x"), &closed, &mut names);
    let expected = Expr::lambda("a", closed.apply(&Expr::var("a")).apply(&closed));
    assert_eq!(out.exact_equivalence(&expected), Ok(true));
}
