//! Normal-order reduction: one step, and steps up to a fixed point.

use crate::error::{Fault, UlcError};
use crate::names::{fresh_name, NameSupply};
use crate::subst::{
    ahead_of, handed_out, lemma_handed_out_widens, lemma_substitute_count_grows,
    lemma_substitute_free_vars, lemma_substitute_without_names, substitute,
};
use crate::term::{Expr, Name, Term};
use vstd::prelude::*;

verus! {

/// One step of reduction, and the number of identifiers handed out once it
/// is done, when `count` were handed out before.
///
/// Both sides of an application take a step first, the function before
/// the argument. If the function is then an abstraction, the argument is
/// put in place of its parameter, and the step ends there.
pub open spec fn reduce(term: Term, count: nat) -> (Term, nat)
    decreases term,
{
    match term {
        Term::Lam(param, body) => {
            let inner = reduce(*body, count);
            (Term::Lam(param, Box::new(inner.0)), inner.1)
        },
        Term::App(fun, arg) => {
            let left = reduce(*fun, count);
            let right = reduce(*arg, left.1);
            match left.0 {
                Term::Lam(param, body) => substitute(*body, param, right.0, right.1),
                _ => (Term::App(Box::new(left.0), Box::new(right.0)), right.1),
            }
        },
        Term::Var(_) => (term, count),
    }
}

/// Steps of reduction until one of them gives back the term it was given,
/// `limit` steps at most: that term, or `None` where every one of the
/// `limit` steps changed the term; and the number of identifiers handed
/// out once that is done.
pub open spec fn normalize(term: Term, count: nat, limit: nat) -> (Option<Term>, nat)
    decreases limit,
{
    if limit == 0 {
        (None, count)
    } else {
        let next = reduce(term, count);
        if next.0 == term {
            (Some(term), next.1)
        } else {
            normalize(next.0, next.1, (limit - 1) as nat)
        }
    }
}

/// A term in normal form: no application in it has an abstraction as its
/// function.
pub open spec fn normal(term: Term) -> bool
    decreases term,
{
    match term {
        Term::Lam(_, body) => normal(*body),
        Term::App(fun, arg) => !(*fun is Lam) && normal(*fun) && normal(*arg),
        Term::Var(_) => true,
    }
}

/// A step of reduction gives back a term in normal form as it is, and
/// takes no identifier from the supply.
pub proof fn lemma_normal_is_fixed(term: Term, count: nat)
    requires
        normal(term),
    ensures
        reduce(term, count) == (term, count),
    decreases term,
{
    match term {
        Term::Lam(_, body) => {
            lemma_normal_is_fixed(*body, count);
        },
        Term::App(fun, arg) => {
            lemma_normal_is_fixed(*fun, count);
            lemma_normal_is_fixed(*arg, count);
        },
        Term::Var(_) => {},
    }
}

/// A step of reduction never gives an identifier back to the supply.
pub proof fn lemma_reduce_count_grows(term: Term, count: nat)
    ensures
        reduce(term, count).1 >= count,
    decreases term,
{
    match term {
        Term::Lam(_, body) => {
            lemma_reduce_count_grows(*body, count);
        },
        Term::App(fun, arg) => {
            let left = reduce(*fun, count);
            let right = reduce(*arg, left.1);
            lemma_reduce_count_grows(*fun, count);
            lemma_reduce_count_grows(*arg, left.1);
            match left.0 {
                Term::Lam(param, body) => {
                    lemma_substitute_count_grows(*body, param, right.0, right.1);
                },
                _ => {},
            }
        },
        Term::Var(_) => {},
    }
}

/// A step of reduction that takes no identifier from the supply gives the
/// same term whatever the supply has handed out.
pub proof fn lemma_reduce_without_names(term: Term, count: nat, other: nat)
    requires
        reduce(term, count).1 == count,
    ensures
        reduce(term, other) == (reduce(term, count).0, other),
    decreases term,
{
    match term {
        Term::Lam(_, body) => {
            lemma_reduce_without_names(*body, count, other);
        },
        Term::App(fun, arg) => {
            let left = reduce(*fun, count);
            let right = reduce(*arg, left.1);
            lemma_reduce_count_grows(*fun, count);
            lemma_reduce_count_grows(*arg, left.1);
            match left.0 {
                Term::Lam(param, body) => {
                    lemma_substitute_count_grows(*body, param, right.0, right.1);
                    lemma_reduce_without_names(*fun, count, other);
                    lemma_reduce_without_names(*arg, count, other);
                    lemma_substitute_without_names(*body, param, right.0, count, other);
                },
                _ => {
                    lemma_reduce_without_names(*fun, count, other);
                    lemma_reduce_without_names(*arg, count, other);
                },
            }
        },
        Term::Var(_) => {},
    }
}

/// A step of reduction frees no variable: where the supply will hand out
/// none of the names of the term, every free variable of the result is
/// one of the term. The result holds no name but those of the term and
/// those handed out meanwhile, so the supply stays ahead of it.
pub proof fn lemma_reduce_free_vars(term: Term, count: nat)
    requires
        ahead_of(count, term.names()),
    ensures
        reduce(term, count).0.free_vars().subset_of(term.free_vars()),
        reduce(term, count).0.names().subset_of(
            term.names().union(handed_out(count, reduce(term, count).1)),
        ),
        ahead_of(reduce(term, count).1, reduce(term, count).0.names()),
    decreases term,
{
    let out = reduce(term, count);
    let allowed = term.names().union(handed_out(count, out.1));
    lemma_reduce_count_grows(term, count);
    match term {
        Term::Lam(param, body) => {
            let inner = reduce(*body, count);
            assert(ahead_of(count, body.names()));
            lemma_reduce_free_vars(*body, count);
            assert(out.0.names() =~= inner.0.names().insert(param));
            assert(out.0.names().subset_of(allowed));
        },
        Term::App(fun, arg) => {
            let left = reduce(*fun, count);
            let right = reduce(*arg, left.1);
            lemma_reduce_count_grows(*fun, count);
            lemma_reduce_count_grows(*arg, left.1);
            assert(ahead_of(count, fun.names()));
            lemma_reduce_free_vars(*fun, count);
            assert(ahead_of(left.1, arg.names()));
            lemma_reduce_free_vars(*arg, left.1);
            match left.0 {
                Term::Lam(param, body) => {
                    lemma_substitute_count_grows(*body, param, right.0, right.1);
                    lemma_handed_out_widens(count, left.1, count, out.1);
                    lemma_handed_out_widens(left.1, right.1, count, out.1);
                    lemma_handed_out_widens(right.1, out.1, count, out.1);
                    assert forall|k: nat| k > right.1 implies !body.names().union(
                        right.0.names(),
                    ).insert(param).contains(#[trigger] fresh_name(k)) by {
                        assert(left.0.names().contains(param));
                        if body.names().contains(fresh_name(k)) {
                            assert(left.0.names().contains(fresh_name(k)));
                        }
                    }
                    lemma_substitute_free_vars(*body, param, right.0, right.1);
                    assert(left.0.names() =~= body.names().insert(param));
                    assert(left.0.free_vars() =~= body.free_vars().remove(param));
                    assert forall|n: Name| out.0.names().contains(n) implies allowed.contains(
                        n,
                    ) by {
                        if body.names().contains(n) {
                            assert(left.0.names().contains(n));
                        } else if right.0.names().contains(n) {
                        } else {
                            assert(handed_out(right.1, out.1).contains(n));
                        }
                    }
                },
                _ => {
                    lemma_handed_out_widens(count, left.1, count, out.1);
                    lemma_handed_out_widens(left.1, right.1, count, out.1);
                    assert(out.0.names() =~= left.0.names().union(right.0.names()));
                    assert(out.0.names().subset_of(allowed));
                },
            }
        },
        Term::Var(_) => {},
    }
}

/// The term that [`normalize`] ends on is one that a step of reduction
/// gives back, from some state of the supply.
pub proof fn lemma_normalize_ends_on_fixed_point(term: Term, count: nat, limit: nat) -> (at: nat)
    requires
        normalize(term, count, limit).0 is Some,
    ensures
        reduce(normalize(term, count, limit).0->0, at).0 == normalize(term, count, limit).0->0,
    decreases limit,
{
    let next = reduce(term, count);
    if next.0 == term {
        count
    } else {
        lemma_normalize_ends_on_fixed_point(next.0, next.1, (limit - 1) as nat)
    }
}

/// Reducing the result of a full reduction again gives that result, where
/// a step on it takes no identifier from the supply, whatever names the
/// term holds. Then one more step is enough, and the supply is left as it
/// stands.
pub proof fn lemma_full_reduction_idempotent_without_renaming(
    term: Term,
    count: nat,
    limit: nat,
    again: nat,
)
    requires
        normalize(term, count, limit).0 is Some,
        again >= 1,
        reduce(normalize(term, count, limit).0->0, normalize(term, count, limit).1).1
            == normalize(term, count, limit).1,
    ensures
        normalize(normalize(term, count, limit).0->0, normalize(term, count, limit).1, again)
            == normalize(term, count, limit),
{
    let fixed = normalize(term, count, limit).0->0;
    let end = normalize(term, count, limit).1;
    let at = lemma_normalize_ends_on_fixed_point(term, count, limit);
    lemma_reduce_without_names(fixed, end, at);
}

/// Reducing a term in normal form gives it back after one step, and
/// leaves the supply as it stands.
pub proof fn lemma_normal_form_is_its_own_reduction(term: Term, count: nat, limit: nat)
    requires
        normal(term),
        limit >= 1,
    ensures
        normalize(term, count, limit) == (Some(term), count),
{
    lemma_normal_is_fixed(term, count);
}

impl Expr {
    /// One step of normal-order reduction.
    pub fn reduction(&self, names: &mut NameSupply) -> (out: Expr)
        ensures
            (out@, final(names).issued()) == reduce(self@, old(names).issued()),
        decreases self,
    {
        match self {
            Expr::Lam(id, body) => Expr::Lam(id.clone(), Box::new(body.reduction(names))),
            Expr::App(fun, arg) => {
                let left = fun.reduction(names);
                let right = arg.reduction(names);
                match left {
                    Expr::Lam(id, body) => body.substitution(&id, &right, names),
                    other => Expr::App(Box::new(other), Box::new(right)),
                }
            },
            Expr::Var(_) => self.clone(),
        }
    }

    /// Reduces step by step until a step gives back the term it was given,
    /// and returns that term. After `limit` steps that each changed the
    /// term it gives up.
    pub fn full_reduction(&self, names: &mut NameSupply, limit: u64) -> (out: Result<
        Expr,
        UlcError,
    >)
        ensures
            final(names).issued() == normalize(self@, old(names).issued(), limit as nat).1,
            match out {
                Ok(fixed) => normalize(self@, old(names).issued(), limit as nat).0 == Some(
                    fixed@,
                ),
                Err(failure) => {
                    &&& normalize(self@, old(names).issued(), limit as nat).0 is None
                    &&& failure@ == Fault::StepLimit
                },
            },
    {
        let mut expr = self.clone();
        let mut left = limit;
        while left > 0
            invariant
                normalize(expr@, names.issued(), left as nat) == normalize(
                    self@,
                    old(names).issued(),
                    limit as nat,
                ),
            decreases left,
        {
            let next = expr.reduction(names);
            if next == expr {
                return Ok(expr);
            }
            expr = next;
            left -= 1;
        }
        Err(UlcError::StepLimit)
    }
}

} // verus!
