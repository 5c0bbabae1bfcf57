use ulc::error::UlcError;
use ulc::names::NameSupply;
use ulc::term::{DeBrujin, Expr};

fn id(name: &str) -> String {
    name.to_string()
}

fn lam(body: DeBrujin) -> DeBrujin {
    DeBrujin::Lam(Box::new(body))
}

fn app(fun: DeBrujin, arg: DeBrujin) -> DeBrujin {
    DeBrujin::App(Box::new(fun), Box::new(arg))
}

#[test]
fn a_variable_counts_the_binders_in_between() {
    let k = Expr::lambda("x", Expr::lambda("y", Expr::var("x")));
    assert_eq!(k.debrujin(), Ok(lam(lam(DeBrujin::Var(1)))));
    let k_star = Expr::lambda("x", Expr::lambda("y", Expr::var("y")));
    assert_eq!(k_star.debrujin(), Ok(lam(lam(DeBrujin::Var(0)))));
}

#[test]
fn the_nearest_binder_wins() {
    let term = Expr::lambda("x", Expr::lambda("x", Expr::var("x")));
    assert_eq!(term.debrujin(), Ok(lam(lam(DeBrujin::Var(0)))));
}

#[test]
fn both_sides_of_an_application_share_the_context() {
    let term = Expr::lambda(
        "f",
        Expr::lambda("x", Expr::var("f").apply(&Expr::lambda("y", Expr::var("x")))),
    );
    assert_eq!(
        term.debrujin(),
        Ok(lam(lam(app(DeBrujin::Var(1), lam(DeBrujin::Var(1))))))
    );
}

#[test]
fn an_unbound_variable_fails_the_conversion() {
    assert_eq!(Expr::var("x").debrujin(), Err(UlcError::UnboundVariable(id("x"))));
    let term = Expr::lambda("x", Expr::var("x").apply(&Expr::var("free")));
    assert_eq!(term.debrujin(), Err(UlcError::UnboundVariable(id("free"))));
}

#[test]
fn the_leftmost_unbound_variable_is_reported() {
    let term = Expr::lambda("x", Expr::var("a").apply(&Expr::var("x")).apply(&Expr::var("b")));
    assert_eq!(term.debrujin(), Err(UlcError::UnboundVariable(id("a"))));
}

#[test]
fn a_context_binds_free_variables() {
    let ctx = vec![id("a"), id("b")];
    assert_eq!(Expr::var("a").debrujin_with(&ctx), Ok(DeBrujin::Var(1)));
    assert_eq!(Expr::var("b").debrujin_with(&ctx), Ok(DeBrujin::Var(0)));
    assert_eq!(
        Expr::lambda("x", Expr::var("a")).debrujin_with(&ctx),
        Ok(lam(DeBrujin::Var(2)))
    );
    assert_eq!(
        Expr::var("c").debrujin_with(&ctx),
        Err(UlcError::UnboundVariable(id("c")))
    );
    assert_eq!(ctx, vec![id("a"), id("b")]);
}

#[test]
fn a_context_is_searched_from_its_end() {
    let ctx = vec![id("a"), id("b"), id("a")];
    assert_eq!(Expr::var("a").debrujin_with(&ctx), Ok(DeBrujin::Var(0)));
    assert_eq!(Expr::var("b").debrujin_with(&ctx), Ok(DeBrujin::Var(1)));
}

#[test]
fn bound_names_do_not_matter() {
    let id_x = Expr::lambda("x", Expr::var("x"));
    let id_y = Expr::lambda("y", Expr::var("y"));
    assert_eq!(id_x.exact_equivalence(&id_y), Ok(true));
    let k = Expr::lambda("x", Expr::lambda("y", Expr::var("x")));
    let k_renamed = Expr::lambda("a", Expr::lambda("b", Expr::var("a")));
    let k_star = Expr::lambda("a", Expr::lambda("b", Expr::var("b")));
    assert_eq!(k.exact_equivalence(&k_renamed), Ok(true));
    assert_eq!(k.exact_equivalence(&k_star), Ok(false));
}

#[test]
fn shadowing_is_told_apart_from_reference_to_the_outer_binder() {
    let shadowed = Expr::lambda("x", Expr::lambda("x", Expr::var("x")));
    let outer = Expr::lambda("x", Expr::lambda("y", Expr::var("x")));
    let inner = Expr::lambda("x", Expr::lambda("y", Expr::var("y")));
    assert_eq!(shadowed.exact_equivalence(&outer), Ok(false));
    assert_eq!(shadowed.exact_equivalence(&inner), Ok(true));
}

#[test]
fn exact_equivalence_is_an_equivalence() {
    let a = Expr::lambda("x", Expr::lambda("y", Expr::var("x").apply(&Expr::var("y"))));
    let b = Expr::lambda("p", Expr::lambda("q", Expr::var("p").apply(&Expr::var("q"))));
    let c = Expr::lambda("y", Expr::lambda("x", Expr::var("y").apply(&Expr::var("x"))));
    let d = Expr::lambda("x", Expr::lambda("y", Expr::var("y").apply(&Expr::var("x"))));
    for term in [&a, &b, &c, &d] {
        assert_eq!(term.exact_equivalence(term), Ok(true));
    }
    assert_eq!(a.exact_equivalence(&b), Ok(true));
    assert_eq!(b.exact_equivalence(&a), Ok(true));
    assert_eq!(b.exact_equivalence(&c), Ok(true));
    assert_eq!(a.exact_equivalence(&c), Ok(true));
    assert_eq!(a.exact_equivalence(&d), Ok(false));
    assert_eq!(d.exact_equivalence(&a), Ok(false));
}

#[test]
fn exact_equivalence_does_not_reduce() {
    let id_x = Expr::lambda("x", Expr::var("x"));
    assert_eq!(id_x.apply(&id_x).exact_equivalence(&id_x), Ok(false));
}

#[test]
fn exact_equivalence_fails_on_an_open_term() {
    let id_x = Expr::lambda("x", Expr::var("x"));
    assert_eq!(
        id_x.exact_equivalence(&Expr::var("y")),
        Err(UlcError::UnboundVariable(id("y")))
    );
    assert_eq!(
        Expr::var("a").exact_equivalence(&Expr::var("b")),
        Err(UlcError::UnboundVariable(id("a")))
    );
}

#[test]
fn equivalence_reduces_both_sides() {
    let mut names = NameSupply::new();
    let id_x = Expr::lambda("x", Expr::var("x"));
    let id_y = Expr::lambda("y", Expr::var("y"));
    assert_eq!(id_x.apply(&id_x).equivalence(&id_y, &mut names, 10), Ok(true));
    assert_eq!(id_y.equivalence(&id_x.apply(&id_x), &mut names, 10), Ok(true));
    let k = Expr::lambda("x", Expr::lambda("y", Expr::var("x")));
    assert_eq!(k.apply(&id_x).equivalence(&id_x, &mut names, 10), Ok(false));
}

#[test]
fn equivalence_sees_through_renamed_binders() {
    let mut names = NameSupply::new();
    let konst = Expr::lambda("x", Expr::lambda("y", Expr::var("x")));
    let left = Expr::lambda("y", konst.apply(&Expr::var("y")));
    let right = Expr::lambda("a", Expr::lambda("b", Expr::var("a")));
    assert_eq!(left.equivalence(&right, &mut names, 10), Ok(true));
}

#[test]
fn equivalence_gives_up_at_the_limit() {
    let mut names = NameSupply::new();
    let half = Expr::lambda("x", Expr::var("x").apply(&Expr::var("x")).apply(&Expr::var("x")));
    let grows = half.apply(&half);
    let id_x = Expr::lambda("x", Expr::var("x"));
    assert_eq!(grows.equivalence(&id_x, &mut names, 8), Err(UlcError::StepLimit));
    assert_eq!(id_x.equivalence(&grows, &mut names, 8), Err(UlcError::StepLimit));
}

#[test]
fn equivalence_fails_on_an_open_normal_form() {
    let mut names = NameSupply::new();
    let id_x = Expr::lambda("x", Expr::var("x"));
    assert_eq!(
        id_x.apply(&Expr::var("y")).equivalence(&id_x, &mut names, 10),
        Err(UlcError::UnboundVariable(id("y")))
    );
}

#[test]
fn renaming_a_binder_keeps_the_nameless_form() {
    let mut names = NameSupply::new();
    let body = Expr::lambda("y", Expr::var("x").apply(&Expr::var("y")).apply(&Expr::var("x")));
    let renamed = body.substitution(&id("x"), &Expr::var("z"), &mut names);
    let before = Expr::lambda("x", body);
    let after = Expr::lambda("z", renamed);
    assert_ne!(before, after);
    assert_eq!(before.exact_equivalence(&after), Ok(true));
    assert_eq!(names.fresh(), "v1");
}

#[test]
fn reduction_respects_the_names_of_binders() {
    let konst = |x: &str, y: &str| Expr::lambda(x, Expr::lambda(y, Expr::var(x)));
    let apply_twice = |f: &str, x: &str| {
        Expr::lambda(
            f,
            Expr::lambda(x, Expr::var(f).apply(&Expr::var(f).apply(&Expr::var(x)))),
        )
    };
    let left = Expr::lambda("y", konst("x", "y").apply(&Expr::var("y")))
        .apply(&apply_twice("f", "x"));
    let right = Expr::lambda("b", konst("a", "b").apply(&Expr::var("b")))
        .apply(&apply_twice("g", "b"));
    assert_eq!(left.exact_equivalence(&right), Ok(true));
    let mut names = NameSupply::new();
    let mut other = NameSupply::new();
    for _ in 0..5 {
        other.fresh();
    }
    let left_step = left.reduction(&mut names);
    let right_step = right.reduction(&mut other);
    assert_eq!(left_step.exact_equivalence(&right_step), Ok(true));
    let left_end = left.full_reduction(&mut names, 50).unwrap();
    let right_end = right.full_reduction(&mut other, 50).unwrap();
    assert_ne!(left_end, right_end);
    assert_eq!(left_end.exact_equivalence(&right_end), Ok(true));
}

#[test]
fn equivalence_is_an_equivalence() {
    let mut names = NameSupply::new();
    let id_x = Expr::lambda("x", Expr::var("x"));
    let a = id_x.apply(&Expr::lambda("p", Expr::lambda("q", Expr::var("p"))));
    let b = Expr::lambda("s", Expr::lambda("t", Expr::var("s")));
    let c = Expr::lambda("u", id_x.apply(&Expr::lambda("w", Expr::var("u"))));
    for term in [&a, &b, &c] {
        assert_eq!(term.equivalence(term, &mut names, 20), Ok(true));
    }
    assert_eq!(a.equivalence(&b, &mut names, 20), Ok(true));
    assert_eq!(b.equivalence(&a, &mut names, 20), Ok(true));
    assert_eq!(b.equivalence(&c, &mut names, 20), Ok(true));
    assert_eq!(a.equivalence(&c, &mut names, 20), Ok(true));
}
