use ulc::error::UlcError;
use ulc::lcterms::{and, f, first, ite, not, or, second, succ, t, tuple, ChurchNumeral};
use ulc::names::NameSupply;
use ulc::term::Expr;

const LIMIT: u64 = 10_000;

fn reduced(term: &Expr, names: &mut NameSupply) -> Expr {
    term.full_reduction(names, LIMIT).unwrap()
}

#[test]
fn truth_values_are_the_two_projections() {
    assert_eq!(t().to_string(), "(λx. (λy. x))");
    assert_eq!(f().to_string(), "(λx. (λy. y))");
    assert_eq!(t().exact_equivalence(&f()), Ok(false));
}

#[test]
fn connectives_are_spelled_out() {
    assert_eq!(and().to_string(), "(λx. (λy. ((x y) (λx. (λy. y)))))");
    assert_eq!(or().to_string(), "(λx. (λy. ((x (λx. (λy. x))) y)))");
    assert_eq!(not().to_string(), "(λx. ((x (λx. (λy. y))) (λx. (λy. x))))");
    assert_eq!(ite().to_string(), "(λc. (λl. (λr. ((c l) r))))");
}

#[test]
fn arithmetic_terms_are_spelled_out() {
    assert_eq!(succ().to_string(), "(λn. (λf. (λx. (f ((n f) x)))))");
    assert_eq!(
        ulc::lcterms::add().to_string(),
        "(λn. (λm. (λf. (λx. ((n f) ((m f) x))))))"
    );
    assert_eq!(ulc::lcterms::mul().to_string(), "(λn. (λm. (λf. (n (m f)))))");
}

#[test]
fn pair_terms_are_spelled_out() {
    assert_eq!(
        tuple(&Expr::var("a"), &Expr::var("b")).to_string(),
        "(λf. ((f a) b))"
    );
    assert_eq!(first().to_string(), "(λp. (p (λx. (λy. x))))");
    assert_eq!(second().to_string(), "(λp. (p (λx. (λy. y))))");
}

#[test]
fn numerals_are_spelled_out() {
    assert_eq!(0u32.to_church().to_string(), "(λf. (λx. x))");
    assert_eq!(1u32.to_church().to_string(), "(λf. (λx. (f x)))");
    assert_eq!(3u32.to_church().to_string(), "(λf. (λx. (f (f (f x)))))");
}

#[test]
fn conjunction_table() {
    let mut names = NameSupply::new();
    let cases = [
        (t(), t(), t()),
        (t(), f(), f()),
        (f(), t(), f()),
        (f(), f(), f()),
    ];
    for (a, b, expected) in cases {
        let term = reduced(&and().apply(&a).apply(&b), &mut names);
        assert_eq!(term.equivalence(&expected, &mut names, LIMIT), Ok(true));
        assert_eq!(term.equivalence(&not().apply(&expected), &mut names, LIMIT), Ok(false));
    }
}

#[test]
fn disjunction_table() {
    let mut names = NameSupply::new();
    let cases = [
        (t(), t(), t()),
        (t(), f(), t()),
        (f(), t(), t()),
        (f(), f(), f()),
    ];
    for (a, b, expected) in cases {
        let term = reduced(&or().apply(&a).apply(&b), &mut names);
        assert_eq!(term.equivalence(&expected, &mut names, LIMIT), Ok(true));
        assert_eq!(term.equivalence(&not().apply(&expected), &mut names, LIMIT), Ok(false));
    }
}

#[test]
fn negation_table() {
    let mut names = NameSupply::new();
    assert_eq!(not().apply(&t()).equivalence(&f(), &mut names, LIMIT), Ok(true));
    assert_eq!(not().apply(&f()).equivalence(&t(), &mut names, LIMIT), Ok(true));
    assert_eq!(not().apply(&t()).equivalence(&t(), &mut names, LIMIT), Ok(false));
}

#[test]
fn conditional_picks_a_branch() {
    let mut names = NameSupply::new();
    let two = 2u32.to_church();
    let five = 5u32.to_church();
    let then = ite().apply(&t()).apply(&two).apply(&five);
    let otherwise = ite().apply(&f()).apply(&two).apply(&five);
    assert_eq!(reduced(&then, &mut names).to_numeral(), Ok(2));
    assert_eq!(reduced(&otherwise, &mut names).to_numeral(), Ok(5));
}

#[test]
fn numerals_survive_the_round_trip() {
    let mut names = NameSupply::new();
    for n in 0..20u32 {
        let numeral = n.to_church();
        assert_eq!(numeral.to_numeral(), Ok(n));
        assert_eq!(reduced(&numeral, &mut names).to_numeral(), Ok(n));
    }
    assert_eq!(names.fresh(), "v1");
}

#[test]
fn successor_adds_one() {
    let mut names = NameSupply::new();
    let zero = 0u32.to_church();
    let one = reduced(&succ().apply(&zero), &mut names);
    assert_eq!(one.to_string(), "(λf. (λx. (f x)))");
    assert_eq!(one.equivalence(&1u32.to_church(), &mut names, LIMIT), Ok(true));
    let six = reduced(&succ().apply(&5u32.to_church()), &mut names);
    assert_eq!(six.to_numeral(), Ok(6));
}

#[test]
fn five_plus_seven() {
    let mut names = NameSupply::new();
    let sum = ulc::lcterms::add().apply(&5u32.to_church()).apply(&7u32.to_church());
    assert_eq!(reduced(&sum, &mut names).to_numeral(), Ok(12));
}

#[test]
fn two_times_two_times_three() {
    let mut names = NameSupply::new();
    let two = 2u32.to_church();
    let three = 3u32.to_church();
    let product = ulc::lcterms::mul()
        .apply(&ulc::lcterms::mul().apply(&two).apply(&two))
        .apply(&three);
    assert_eq!(reduced(&product, &mut names).to_numeral(), Ok(12));
}

#[test]
fn products_of_successors() {
    let mut names = NameSupply::new();
    let zero = 0u32.to_church();
    let two = succ().apply(&succ().apply(&zero));
    let three = succ().apply(&two);
    let product = ulc::lcterms::mul()
        .apply(&ulc::lcterms::mul().apply(&two).apply(&two))
        .apply(&three);
    let twelve = reduced(&product, &mut names);
    assert_eq!(twelve.equivalence(&12u32.to_church(), &mut names, LIMIT), Ok(true));
}

#[test]
fn pairs_give_back_their_components() {
    let mut names = NameSupply::new();
    for (a, b) in [(0u32, 0u32), (3, 4), (12, 7), (1, 19)] {
        let left = a.to_church();
        let right = b.to_church();
        let pair = tuple(&left, &right);
        let got_left = reduced(&first().apply(&pair), &mut names);
        let got_right = reduced(&second().apply(&pair), &mut names);
        assert_eq!(got_left.equivalence(&left, &mut names, LIMIT), Ok(true));
        assert_eq!(got_right.equivalence(&right, &mut names, LIMIT), Ok(true));
        assert_eq!(got_left.to_numeral(), Ok(a));
        assert_eq!(got_right.to_numeral(), Ok(b));
    }
}

#[test]
fn a_pair_of_a_numeral_and_a_product() {
    let mut names = NameSupply::new();
    let twelve = 12u32.to_church();
    let two = 2u32.to_church();
    let pair = tuple(&twelve, &ulc::lcterms::mul().apply(&twelve).apply(&two));
    assert_eq!(reduced(&first().apply(&pair), &mut names).to_numeral(), Ok(12));
    assert_eq!(reduced(&second().apply(&pair), &mut names).to_numeral(), Ok(24));
}

#[test]
fn a_numeral_may_spell_its_parameters_otherwise() {
    let two = Expr::lambda(
        "s",
        Expr::lambda("z", Expr::var("s").apply(&Expr::var("s").apply(&Expr::var("z")))),
    );
    assert_eq!(two.to_numeral(), Ok(2));
    assert_eq!(Expr::lambda("x", Expr::lambda("x", Expr::var("x"))).to_numeral(), Ok(0));
}

#[test]
fn a_term_of_another_outer_shape_is_no_numeral() {
    assert_eq!(Expr::var("x").to_numeral(), Err(UlcError::NotANumeral));
    assert_eq!(Expr::lambda("f", Expr::var("f")).to_numeral(), Err(UlcError::NotANumeral));
    assert_eq!(
        Expr::var("f").apply(&Expr::var("x")).to_numeral(),
        Err(UlcError::NotANumeral)
    );
    assert_eq!(
        Expr::lambda("f", Expr::lambda("x", Expr::lambda("y", Expr::var("y")))).to_numeral(),
        Err(UlcError::NotANumeral)
    );
}

#[test]
fn a_body_of_another_shape_is_no_numeral() {
    let with_body = |body: Expr| Expr::lambda("f", Expr::lambda("x", body));
    let f = Expr::var("f");
    let x = Expr::var("x");
    assert_eq!(with_body(f.clone()).to_numeral(), Err(UlcError::NotANumeral));
    assert_eq!(with_body(Expr::var("y")).to_numeral(), Err(UlcError::NotANumeral));
    assert_eq!(with_body(x.apply(&x)).to_numeral(), Err(UlcError::NotANumeral));
    assert_eq!(with_body(f.apply(&f)).to_numeral(), Err(UlcError::NotANumeral));
    assert_eq!(with_body(f.apply(&f).apply(&x)).to_numeral(), Err(UlcError::NotANumeral));
    assert_eq!(
        with_body(f.apply(&Expr::var("g").apply(&x))).to_numeral(),
        Err(UlcError::NotANumeral)
    );
    assert_eq!(
        with_body(f.apply(&Expr::lambda("y", x.clone()))).to_numeral(),
        Err(UlcError::NotANumeral)
    );
}

#[test]
fn a_shadowed_first_parameter_is_no_numeral() {
    let term = Expr::lambda("x", Expr::lambda("x", Expr::var("x").apply(&Expr::var("x"))));
    assert_eq!(term.to_numeral(), Err(UlcError::NotANumeral));
}

#[test]
fn an_unreduced_sum_is_no_numeral() {
    let sum = ulc::lcterms::add().apply(&1u32.to_church()).apply(&1u32.to_church());
    assert_eq!(sum.to_numeral(), Err(UlcError::NotANumeral));
}

#[test]
fn a_successor_settles_in_three_steps() {
    let mut names = NameSupply::new();
    let term = succ().apply(&5u32.to_church());
    assert_eq!(term.full_reduction(&mut names, 2), Err(UlcError::StepLimit));
    assert_eq!(term.full_reduction(&mut names, 3), Ok(6u32.to_church()));
    assert_eq!(names.fresh(), "v1");
}

#[test]
fn a_sum_settles_in_three_steps() {
    let mut names = NameSupply::new();
    for (a, b) in [(0u32, 0u32), (0, 3), (4, 0), (5, 7)] {
        let term = ulc::lcterms::add().apply(&a.to_church()).apply(&b.to_church());
        assert_eq!(term.full_reduction(&mut names, 2), Err(UlcError::StepLimit));
        assert_eq!(term.full_reduction(&mut names, 3), Ok((a + b).to_church()));
    }
    assert_eq!(names.fresh(), "v1");
}

#[test]
fn a_product_settles_in_four_steps() {
    let mut names = NameSupply::new();
    for (a, b) in [(0u32, 0u32), (0, 3), (4, 0), (1, 1), (3, 4), (6, 7)] {
        let term = ulc::lcterms::mul().apply(&a.to_church()).apply(&b.to_church());
        assert_eq!(term.full_reduction(&mut names, 2), Err(UlcError::StepLimit));
        assert_eq!(term.full_reduction(&mut names, 4), Ok((a * b).to_church()));
    }
    assert_eq!(names.fresh(), "v1");
}

#[test]
fn a_component_of_a_pair_settles_in_four_steps() {
    let mut names = NameSupply::new();
    let left = Expr::lambda("a", Expr::var("a"));
    let right = Expr::lambda("a", Expr::lambda("b", Expr::var("b").apply(&Expr::var("a"))));
    let pair = tuple(&left, &right);
    assert_eq!(first().apply(&pair).full_reduction(&mut names, 3), Err(UlcError::StepLimit));
    assert_eq!(first().apply(&pair).full_reduction(&mut names, 4), Ok(left));
    assert_eq!(second().apply(&pair).full_reduction(&mut names, 4), Ok(right));
    assert_eq!(names.fresh(), "v1");
}

#[test]
fn connectives_settle_in_three_steps() {
    let mut names = NameSupply::new();
    let truth = |value: bool| if value { t() } else { f() };
    for a in [false, true] {
        assert_eq!(not().apply(&truth(a)).full_reduction(&mut names, 2), Err(UlcError::StepLimit));
        assert_eq!(not().apply(&truth(a)).full_reduction(&mut names, 3), Ok(truth(!a)));
        for b in [false, true] {
            let both = and().apply(&truth(a)).apply(&truth(b));
            let either = or().apply(&truth(a)).apply(&truth(b));
            assert_eq!(both.full_reduction(&mut names, 2), Err(UlcError::StepLimit));
            assert_eq!(both.full_reduction(&mut names, 3), Ok(truth(a && b)));
            assert_eq!(either.full_reduction(&mut names, 3), Ok(truth(a || b)));
        }
    }
    assert_eq!(names.fresh(), "v1");
}
