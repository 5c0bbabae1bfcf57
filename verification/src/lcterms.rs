//! Booleans, pairs and natural numbers as terms of the calculus.

use crate::names::NameSupply;
use crate::numeral::{church_numeral, spine};
use crate::reduce::lemma_normal_is_fixed;
use crate::term::{app, lam, var, Expr, Term};
use crate::unfold::{lemma_app_facts, lemma_lam_facts, lemma_var_facts};
use vstd::prelude::*;

verus! {

/// Truth: of two arguments, the first.
pub open spec fn true_term() -> Term {
    lam("x"@, lam("y"@, var("x"@)))
}

/// Falsehood: of two arguments, the second.
pub open spec fn false_term() -> Term {
    lam("x"@, lam("y"@, var("y"@)))
}

/// The term of a truth value.
pub open spec fn truth_term(value: bool) -> Term {
    if value {
        true_term()
    } else {
        false_term()
    }
}

/// Conjunction: `x y false`.
pub open spec fn and_term() -> Term {
    lam("x"@, lam("y"@, app(app(var("x"@), var("y"@)), false_term())))
}

/// Disjunction: `x true y`.
pub open spec fn or_term() -> Term {
    lam("x"@, lam("y"@, app(app(var("x"@), true_term()), var("y"@))))
}

/// Negation: `x false true`.
pub open spec fn not_term() -> Term {
    lam("x"@, app(app(var("x"@), false_term()), true_term()))
}

/// The conditional: `c l r`.
pub open spec fn ite_term() -> Term {
    lam("c"@, lam("l"@, lam("r"@, app(app(var("c"@), var("l"@)), var("r"@)))))
}

/// The successor of a numeral: `f (n f x)`.
pub open spec fn succ_term() -> Term {
    lam(
        "n"@,
        lam("f"@, lam("x"@, app(var("f"@), app(app(var("n"@), var("f"@)), var("x"@))))),
    )
}

/// The sum of two numerals: `n f (m f x)`.
pub open spec fn add_term() -> Term {
    lam(
        "n"@,
        lam(
            "m"@,
            lam(
                "f"@,
                lam(
                    "x"@,
                    app(
                        app(var("n"@), var("f"@)),
                        app(app(var("m"@), var("f"@)), var("x"@)),
                    ),
                ),
            ),
        ),
    )
}

/// The product of two numerals: `n (m f)`.
pub open spec fn mul_term() -> Term {
    lam("n"@, lam("m"@, lam("f"@, app(var("n"@), app(var("m"@), var("f"@))))))
}

/// The pair of two terms: `f first second`.
pub open spec fn tuple_term(first: Term, second: Term) -> Term {
    lam("f"@, app(app(var("f"@), first), second))
}

/// The first component of a pair: `p true`.
pub open spec fn first_term() -> Term {
    lam("p"@, app(var("p"@), true_term()))
}

/// The second component of a pair: `p false`.
pub open spec fn second_term() -> Term {
    lam("p"@, app(var("p"@), false_term()))
}

/// Truth.
pub fn t() -> (e: Expr)
    ensures
        e@ == true_term(),
{
    Expr::lambda("x", Expr::lambda("y", Expr::var("x")))
}

/// Falsehood.
pub fn f() -> (e: Expr)
    ensures
        e@ == false_term(),
{
    Expr::lambda("x", Expr::lambda("y", Expr::var("y")))
}

/// Conjunction.
pub fn and() -> (e: Expr)
    ensures
        e@ == and_term(),
{
    Expr::lambda("x", Expr::lambda("y", Expr::var("x").apply(&Expr::var("y")).apply(&f())))
}

/// Disjunction.
pub fn or() -> (e: Expr)
    ensures
        e@ == or_term(),
{
    Expr::lambda("x", Expr::lambda("y", Expr::var("x").apply(&t()).apply(&Expr::var("y"))))
}

/// Negation. Its body is reduced by one step, which leaves it as it is.
pub fn not() -> (e: Expr)
    ensures
        e@ == not_term(),
{
    let mut names = NameSupply::new();
    let body = Expr::var("x").apply(&f()).apply(&t());
    proof {
        lemma_var_facts("x"@);
        lemma_var_facts("y"@);
        lemma_lam_facts("y"@, var("x"@));
        lemma_lam_facts("y"@, var("y"@));
        lemma_lam_facts("x"@, lam("y"@, var("x"@)));
        lemma_lam_facts("x"@, lam("y"@, var("y"@)));
        lemma_app_facts(var("x"@), false_term());
        lemma_app_facts(app(var("x"@), false_term()), true_term());
        lemma_normal_is_fixed(body@, names.issued());
    }
    Expr::lambda("x", body.reduction(&mut names))
}

/// The conditional.
pub fn ite() -> (e: Expr)
    ensures
        e@ == ite_term(),
{
    Expr::lambda(
        "c",
        Expr::lambda(
            "l",
            Expr::lambda("r", Expr::var("c").apply(&Expr::var("l")).apply(&Expr::var("r"))),
        ),
    )
}

/// A number that has a Church numeral.
pub trait ChurchNumeral {
    /// The number, as contracts see it.
    spec fn number(&self) -> nat;

    /// The Church numeral of the number.
    fn to_church(&self) -> (e: Expr)
        ensures
            e@ == church_numeral(self.number()),
    ;
}

impl ChurchNumeral for u32 {
    open spec fn number(&self) -> nat {
        *self as nat
    }

    fn to_church(&self) -> (e: Expr) {
        let mut inside = Expr::var("x");
        let mut i: u32 = 0;
        while i < *self
            invariant
                i <= *self,
                inside@ == spine("f"@, "x"@, i as nat),
            decreases *self - i,
        {
            inside = Expr::var("f").apply(&inside);
            i += 1;
        }
        Expr::lambda("f", Expr::lambda("x", inside))
    }
}

/// The successor of a numeral.
pub fn succ() -> (e: Expr)
    ensures
        e@ == succ_term(),
{
    Expr::lambda(
        "n",
        Expr::lambda(
            "f",
            Expr::lambda(
                "x",
                Expr::var("f").apply(
                    &Expr::var("n").apply(&Expr::var("f")).apply(&Expr::var("x")),
                ),
            ),
        ),
    )
}

/// The sum of two numerals.
pub fn add() -> (e: Expr)
    ensures
        e@ == add_term(),
{
    Expr::lambda(
        "n",
        Expr::lambda(
            "m",
            Expr::lambda(
                "f",
                Expr::lambda(
                    "x",
                    Expr::var("n").apply(&Expr::var("f")).apply(
                        &Expr::var("m").apply(&Expr::var("f")).apply(&Expr::var("x")),
                    ),
                ),
            ),
        ),
    )
}

/// The product of two numerals.
pub fn mul() -> (e: Expr)
    ensures
        e@ == mul_term(),
{
    Expr::lambda(
        "n",
        Expr::lambda(
            "m",
            Expr::lambda(
                "f",
                Expr::var("n").apply(&Expr::var("m").apply(&Expr::var("f"))),
            ),
        ),
    )
}

/// The pair of two terms.
pub fn tuple(first: &Expr, second: &Expr) -> (e: Expr)
    ensures
        e@ == tuple_term(first@, second@),
{
    Expr::lambda("f", Expr::var("f").apply(first).apply(second))
}

/// The first component of a pair.
pub fn first() -> (e: Expr)
    ensures
        e@ == first_term(),
{
    Expr::lambda("p", Expr::var("p").apply(&t()))
}

/// The second component of a pair.
pub fn second() -> (e: Expr)
    ensures
        e@ == second_term(),
{
    Expr::lambda("p", Expr::var("p").apply(&f()))
}

} // verus!
