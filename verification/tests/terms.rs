use ulc::term::{DeBrujin, Expr};

fn names(ids: &[&str]) -> Vec<String> {
    ids.iter().map(|id| id.to_string()).collect()
}

fn sorted(mut ids: Vec<String>) -> Vec<String> {
    ids.sort();
    ids.dedup();
    ids
}

#[test]
fn constructors_build_the_three_variants() {
    assert_eq!(Expr::var("x"), Expr::Var("x".to_string()));
    assert_eq!(
        Expr::lambda("x", Expr::var("y")),
        Expr::Lam("x".to_string(), Box::new(Expr::Var("y".to_string())))
    );
    assert_eq!(
        Expr::var("f").apply(&Expr::var("a")),
        Expr::App(
            Box::new(Expr::Var("f".to_string())),
            Box::new(Expr::Var("a".to_string()))
        )
    );
}

#[test]
fn apply_chains_to_the_left() {
    let chain = Expr::var("a").apply(&Expr::var("b")).apply(&Expr::var("c"));
    assert_eq!(chain.to_string(), "((a b) c)");
}

#[test]
fn equality_is_structural() {
    let id_x = Expr::lambda("x", Expr::var("x"));
    let id_y = Expr::lambda("y", Expr::var("y"));
    assert_eq!(id_x, id_x.clone());
    assert_ne!(id_x, id_y);
    assert_ne!(Expr::var("x"), id_x);
    assert_ne!(Expr::var("x").apply(&Expr::var("y")), Expr::var("x").apply(&Expr::var("z")));
}

#[test]
fn identity_renders_with_parentheses() {
    let id = Expr::lambda("x", Expr::var("x"));
    assert_eq!(id.to_string(), "(λx. x)");
}

#[test]
fn application_renders_with_parentheses() {
    let id = Expr::lambda("x", Expr::var("x"));
    assert_eq!(id.apply(&Expr::var("y")).to_string(), "((λx. x) y)");
    assert_eq!(id.apply(&id).to_string(), "((λx. x) (λx. x))");
}

#[test]
fn variable_renders_as_its_name() {
    assert_eq!(Expr::var("counter").to_string(), "counter");
}

#[test]
fn nameless_terms_render_indices_in_decimal() {
    let k = DeBrujin::Lam(Box::new(DeBrujin::Lam(Box::new(DeBrujin::Var(1)))));
    assert_eq!(k.to_string(), "(λ. (λ. 1))");
    let app = DeBrujin::App(Box::new(DeBrujin::Var(0)), Box::new(DeBrujin::Var(12)));
    assert_eq!(app.to_string(), "(0 12)");
    assert_eq!(DeBrujin::Var(4096).to_string(), "4096");
}

#[test]
fn free_variables_of_a_variable() {
    assert_eq!(Expr::var("x").fv(), names(&["x"]));
}

#[test]
fn a_binder_removes_its_name() {
    let term = Expr::lambda("x", Expr::var("x").apply(&Expr::var("y")));
    assert_eq!(sorted(term.fv()), names(&["y"]));
    assert!(Expr::lambda("x", Expr::var("x")).fv().is_empty());
}

#[test]
fn an_application_joins_both_sides() {
    let term = Expr::lambda("x", Expr::var("x")).apply(&Expr::var("y")).apply(&Expr::var("z"));
    assert_eq!(sorted(term.fv()), names(&["y", "z"]));
}

#[test]
fn a_name_free_on_one_side_stays_free() {
    let term = Expr::lambda("x", Expr::var("x")).apply(&Expr::var("x"));
    assert_eq!(sorted(term.fv()), names(&["x"]));
}

#[test]
fn application_leaves_from_left_to_right() {
    let term = Expr::var("a")
        .apply(&Expr::var("b"))
        .apply(&Expr::var("c").apply(&Expr::lambda("x", Expr::var("x"))));
    assert_eq!(
        term.to_app_vec(),
        vec![
            Expr::var("a"),
            Expr::var("b"),
            Expr::var("c"),
            Expr::lambda("x", Expr::var("x")),
        ]
    );
    assert_eq!(Expr::var("a").to_app_vec(), vec![Expr::var("a")]);
}
