//! Church numerals: the terms that stand for the natural numbers, and how
//! to read a number back from such a term.

use crate::error::{Fault, UlcError};
use crate::reduce::{lemma_normal_form_is_its_own_reduction, normal, normalize};
use crate::term::{app, lam, var, Expr, Name, Term};
use vstd::prelude::*;

verus! {

/// `fun` applied `n` times to `arg`, the innermost application first:
/// `fun (fun (... (fun arg)))`.
pub open spec fn spine(fun: Name, arg: Name, n: nat) -> Term
    decreases n,
{
    if n == 0 {
        var(arg)
    } else {
        app(var(fun), spine(fun, arg, (n - 1) as nat))
    }
}

/// The Church numeral of `n`: the term that takes `f` and `x` and applies
/// `f` to `x` `n` times.
pub open spec fn church_numeral(n: nat) -> Term {
    lam("f"@, lam("x"@, spine("f"@, "x"@, n)))
}

/// How many times `body` applies the variable `fun` to the variable `arg`,
/// where its shape is `fun (fun (... (fun arg)))` and `fun` is not hidden
/// by `arg`; `None` for any other shape.
pub open spec fn spine_count(body: Term, fun: Name, arg: Name) -> Option<nat>
    decreases body,
{
    match body {
        Term::Var(name) => if name == arg {
            Some(0)
        } else {
            None
        },
        Term::App(head, rest) => match *head {
            Term::Var(name) => if name == fun && fun != arg {
                match spine_count(*rest, fun, arg) {
                    Some(n) => Some(n + 1),
                    None => None,
                }
            } else {
                None
            },
            _ => None,
        },
        Term::Lam(_, _) => None,
    }
}

/// The number that a term stands for, where it is an abstraction of two
/// parameters over applications of the first to the second; `None` for
/// any other term.
pub open spec fn numeral_value(term: Term) -> Option<nat> {
    match term {
        Term::Lam(fun, inner) => match *inner {
            Term::Lam(arg, body) => spine_count(*body, fun, arg),
            _ => None,
        },
        _ => None,
    }
}

/// The terms at the leaves of a tree of applications, from left to right.
/// A term that is no application is its own single leaf.
pub open spec fn app_leaves(term: Term) -> Seq<Term>
    decreases term,
{
    match term {
        Term::App(fun, arg) => app_leaves(*fun) + app_leaves(*arg),
        _ => seq![term],
    }
}

/// The terms of a vector, as contracts see them.
pub open spec fn terms_of(exprs: Seq<Expr>) -> Seq<Term> {
    Seq::new(exprs.len(), |i: int| exprs[i]@)
}

/// A spine of `n` applications stands for `n`.
pub proof fn lemma_spine_count(fun: Name, arg: Name, n: nat)
    requires
        fun != arg,
    ensures
        spine_count(spine(fun, arg, n), fun, arg) == Some(n),
    decreases n,
{
    if n > 0 {
        lemma_spine_count(fun, arg, (n - 1) as nat);
    }
}

/// Reading a Church numeral gives back its number.
pub proof fn lemma_numeral_round_trip(n: nat)
    ensures
        numeral_value(church_numeral(n)) == Some(n),
{
    reveal_strlit("f");
    reveal_strlit("x");
    assert("f"@ != "x"@) by {
        assert("f"@[0] == 'f');
        assert("x"@[0] == 'x');
    }
    lemma_spine_count("f"@, "x"@, n);
}

/// A Church numeral is in normal form and closed.
pub proof fn lemma_numeral_is_normal(n: nat)
    ensures
        normal(church_numeral(n)),
        church_numeral(n).closed(),
{
    lemma_spine_is_normal("f"@, "x"@, n);
    let body = spine("f"@, "x"@, n);
    assert(normal(lam("x"@, body)));
    assert(lam("x"@, body).free_vars() =~= body.free_vars().remove("x"@));
    assert(church_numeral(n).free_vars() =~= Set::<Name>::empty());
}

proof fn lemma_spine_is_normal(fun: Name, arg: Name, n: nat)
    ensures
        normal(spine(fun, arg, n)),
        spine(fun, arg, n).free_vars().subset_of(set![fun, arg]),
    decreases n,
{
    if n > 0 {
        let rest = spine(fun, arg, (n - 1) as nat);
        lemma_spine_is_normal(fun, arg, (n - 1) as nat);
        assert(spine(fun, arg, n) == app(var(fun), rest));
        assert(normal(var(fun)));
        assert(var(fun).free_vars() == set![fun]);
        assert(app(var(fun), rest).free_vars() == set![fun].union(rest.free_vars()));
    } else {
        assert(spine(fun, arg, n) == var(arg));
        assert(var(arg).free_vars() == set![arg]);
    }
}

/// A full reduction of a Church numeral gives the numeral back, and
/// reading that gives back its number.
pub proof fn lemma_numeral_survives_reduction(n: nat, count: nat, limit: nat)
    requires
        limit >= 1,
    ensures
        normalize(church_numeral(n), count, limit) == (Some(church_numeral(n)), count),
        numeral_value(normalize(church_numeral(n), count, limit).0->0) == Some(n),
{
    lemma_numeral_is_normal(n);
    lemma_normal_form_is_its_own_reduction(church_numeral(n), count, limit);
    lemma_numeral_round_trip(n);
}

impl Expr {
    /// The leaves of the tree of applications at the top of the term, from
    /// left to right.
    pub fn to_app_vec(&self) -> (leaves: Vec<Expr>)
        ensures
            terms_of(leaves@) == app_leaves(self@),
        decreases self,
    {
        match self {
            Expr::App(fun, arg) => {
                let mut left = fun.to_app_vec();
                let mut right = arg.to_app_vec();
                left.append(&mut right);
                assert(terms_of(left@) =~= app_leaves(self@));
                left
            },
            _ => {
                let mut leaves: Vec<Expr> = Vec::new();
                leaves.push(self.clone());
                assert(terms_of(leaves@) =~= app_leaves(self@));
                leaves
            },
        }
    }

    /// Reads the number of a Church numeral. The term has to be an
    /// abstraction of two parameters whose body applies the first to the
    /// second, any number of times, and holds nothing else.
    pub fn to_numeral(&self) -> (out: Result<u32, UlcError>)
        ensures
            match out {
                Ok(n) => numeral_value(self@) == Some(n as nat),
                Err(failure) => match numeral_value(self@) {
                    Some(n) => n > u32::MAX && failure@ == Fault::NumeralTooLarge,
                    None => failure@ == Fault::NotANumeral,
                },
            },
    {
        match self {
            Expr::Lam(fun, inner) => match &**inner {
                Expr::Lam(arg, body) => {
                    assert((**inner)@ == lam(arg@, (**body)@));
                    count_spine(&**body, fun, arg)
                },
                _ => {
                    assert((**inner)@ !is Lam);
                    Err(UlcError::NotANumeral)
                },
            },
            _ => Err(UlcError::NotANumeral),
        }
    }
}

fn count_spine(body: &Expr, fun: &String, arg: &String) -> (out: Result<u32, UlcError>)
    ensures
        match out {
            Ok(n) => spine_count(body@, fun@, arg@) == Some(n as nat),
            Err(failure) => match spine_count(body@, fun@, arg@) {
                Some(n) => n > u32::MAX && failure@ == Fault::NumeralTooLarge,
                None => failure@ == Fault::NotANumeral,
            },
        },
{
    let distinct = *fun != *arg;
    let mut rest: &Expr = body;
    let mut count: u32 = 0;
    let mut beyond = false;
    let ghost uncounted: nat = 0;
    loop
        invariant
            distinct == (fun@ != arg@),
            spine_count(body@, fun@, arg@) == match spine_count(rest@, fun@, arg@) {
                Some(n) => Some((n + count + uncounted) as nat),
                None => None,
            },
            beyond == (uncounted > 0),
            beyond ==> count == u32::MAX,
        decreases rest,
    {
        match rest {
            Expr::Var(name) => {
                if *name != *arg {
                    return Err(UlcError::NotANumeral);
                } else if beyond {
                    return Err(UlcError::NumeralTooLarge);
                } else {
                    return Ok(count);
                }
            },
            Expr::App(head, tail) => {
                assert(rest@ == app((**head)@, (**tail)@));
                match &**head {
                    Expr::Var(name) => {
                        assert((**head)@ == var(name@));
                        if *name == *fun && distinct {
                            if count < u32::MAX {
                                count += 1;
                            } else {
                                beyond = true;
                                proof {
                                    uncounted = uncounted + 1;
                                }
                            }
                            rest = &**tail;
                        } else {
                            return Err(UlcError::NotANumeral);
                        }
                    },
                    _ => {
                        assert((**head)@ !is Var);
                        return Err(UlcError::NotANumeral);
                    },
                }
            },
            Expr::Lam(_, _) => {
                return Err(UlcError::NotANumeral);
            },
        }
    }
}

} // verus!
