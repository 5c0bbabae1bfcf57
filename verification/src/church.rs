//! What the terms of the library reduce to: the connectives on truth
//! values, the components of a pair, and the successor, the sum and the
//! product of Church numerals.

use crate::lcterms::{
    add_term, and_term, false_term, first_term, mul_term, not_term, or_term, second_term,
    succ_term, true_term, truth_term, tuple_term,
};
use crate::numeral::{church_numeral, lemma_numeral_is_normal, spine};
use crate::reduce::{lemma_normal_is_fixed, normal, normalize, reduce};
use crate::subst::{lemma_substitute_absent, substitute};
use crate::term::{app, lam, var, Name, Term};
use crate::unfold::{
    lemma_app_facts, lemma_lam_facts, lemma_letters, lemma_reduce_lam, lemma_reduce_redex,
    lemma_reduce_stuck, lemma_substitute_app, lemma_substitute_lam, lemma_substitute_var,
    lemma_var_facts,
};
use vstd::prelude::*;

verus! {

/// `fun` applied `n` times to `base`, the innermost application first.
pub open spec fn applied(fun: Term, n: nat, base: Term) -> Term
    decreases n,
{
    if n == 0 {
        base
    } else {
        app(fun, applied(fun, (n - 1) as nat, base))
    }
}

/// Truth and falsehood are closed and in normal form.
pub proof fn lemma_truth_values_are_closed()
    ensures
        true_term().closed(),
        false_term().closed(),
        normal(true_term()),
        normal(false_term()),
{
    lemma_letters();
    lemma_var_facts("x"@);
    lemma_var_facts("y"@);
    lemma_lam_facts("y"@, var("x"@));
    lemma_lam_facts("y"@, var("y"@));
    lemma_lam_facts("x"@, lam("y"@, var("x"@)));
    lemma_lam_facts("x"@, lam("y"@, var("y"@)));
    assert(lam("y"@, var("x"@)).free_vars() =~= set!["x"@]);
    assert(true_term().free_vars() =~= Set::<Name>::empty());
    assert(lam("y"@, var("y"@)).free_vars() =~= Set::<Name>::empty());
    assert(false_term().free_vars() =~= Set::<Name>::empty());
}

/// A pair of closed terms in normal form is closed and in normal form.
pub proof fn lemma_pair_is_closed(a: Term, b: Term)
    requires
        a.closed(),
        b.closed(),
        normal(a),
        normal(b),
    ensures
        tuple_term(a, b).closed(),
        normal(tuple_term(a, b)),
{
    let inside = app(app(var("f"@), a), b);
    lemma_var_facts("f"@);
    lemma_app_facts(var("f"@), a);
    lemma_app_facts(app(var("f"@), a), b);
    lemma_lam_facts("f"@, inside);
    assert(app(var("f"@), a).free_vars() =~= set!["f"@]);
    assert(inside.free_vars() =~= set!["f"@]);
    assert(tuple_term(a, b).free_vars() =~= Set::<Name>::empty());
    assert(normal(app(var("f"@), a)));
    assert(normal(inside));
}

proof fn lemma_pair_meets_selector(a: Term, b: Term, selector: Term, count: nat)
    requires
        a.closed(),
        b.closed(),
        normal(a),
        normal(b),
        selector.closed(),
        normal(selector),
    ensures
        reduce(app(lam("p"@, app(var("p"@), selector)), tuple_term(a, b)), count) == (
            app(tuple_term(a, b), selector),
            count,
        ),
        reduce(app(tuple_term(a, b), selector), count) == (app(app(selector, a), b), count),
{
    lemma_letters();
    let pair = tuple_term(a, b);
    let take = lam("p"@, app(var("p"@), selector));
    lemma_pair_is_closed(a, b);
    assert(normal(take)) by {
        lemma_var_facts("p"@);
        lemma_app_facts(var("p"@), selector);
        lemma_lam_facts("p"@, app(var("p"@), selector));
    }
    lemma_normal_is_fixed(take, count);
    lemma_normal_is_fixed(pair, count);
    lemma_normal_is_fixed(selector, count);
    lemma_substitute_absent(selector, "p"@, pair, count);
    assert(substitute(var("p"@), "p"@, pair, count) == (pair, count));
    assert(substitute(app(var("p"@), selector), "p"@, pair, count) == (
        app(pair, selector),
        count,
    ));
    lemma_substitute_absent(a, "f"@, selector, count);
    lemma_substitute_absent(b, "f"@, selector, count);
    assert(substitute(var("f"@), "f"@, selector, count) == (selector, count));
    assert(substitute(app(var("f"@), a), "f"@, selector, count) == (app(selector, a), count));
    assert(substitute(app(app(var("f"@), a), b), "f"@, selector, count) == (
        app(app(selector, a), b),
        count,
    ));
}

/// A truth value applied to two closed terms in normal form reduces, in
/// one step, to the first of them where it is truth and to the second
/// where it is falsehood.
pub proof fn lemma_truth_picks(value: bool, first: Term, second: Term, count: nat)
    requires
        first.closed(),
        second.closed(),
        normal(first),
        normal(second),
    ensures
        reduce(app(app(truth_term(value), first), second), count) == (
            if value {
                first
            } else {
                second
            },
            count,
        ),
{
    lemma_letters();
    lemma_truth_values_are_closed();
    let x = "x"@;
    let y = "y"@;
    lemma_normal_is_fixed(truth_term(value), count);
    lemma_normal_is_fixed(first, count);
    lemma_normal_is_fixed(second, count);
    if value {
        lemma_substitute_var(x, x, first, count);
        lemma_substitute_lam(y, var(x), x, first, count);
        lemma_reduce_redex(true_term(), first, x, lam(y, var(x)), first, count);
        lemma_substitute_absent(first, y, second, count);
        lemma_reduce_redex(app(true_term(), first), second, y, first, second, count);
    } else {
        lemma_substitute_var(y, x, first, count);
        lemma_substitute_lam(y, var(y), x, first, count);
        lemma_reduce_redex(false_term(), first, x, lam(y, var(y)), first, count);
        lemma_substitute_var(y, y, second, count);
        lemma_reduce_redex(app(false_term(), first), second, y, var(y), second, count);
    }
}

proof fn lemma_picked_is_smaller(value: bool, first: Term, second: Term)
    ensures
        app(app(truth_term(value), first), second) != first,
        app(app(truth_term(value), first), second) != second,
{
    lemma_app_facts(truth_term(value), first);
    lemma_app_facts(app(truth_term(value), first), second);
}

/// The first component of a pair of closed terms in normal form reduces
/// to the first of the two, in three steps and one more that leaves it as
/// it is, and takes nothing from the supply.
pub proof fn lemma_first_of_pair(a: Term, b: Term, count: nat, limit: nat)
    requires
        a.closed(),
        b.closed(),
        normal(a),
        normal(b),
        limit >= 4,
    ensures
        normalize(app(first_term(), tuple_term(a, b)), count, limit) == (Some(a), count),
{
    lemma_truth_values_are_closed();
    let met = app(tuple_term(a, b), true_term());
    let chosen = app(app(true_term(), a), b);
    lemma_pair_meets_selector(a, b, true_term(), count);
    lemma_truth_picks(true, a, b, count);
    lemma_picked_is_smaller(true, a, b);
    lemma_normal_is_fixed(a, count);
    assert(normalize(a, count, (limit - 3) as nat) == (Some(a), count));
    assert(normalize(chosen, count, (limit - 2) as nat) == (Some(a), count));
    assert(normalize(met, count, (limit - 1) as nat) == (Some(a), count));
}

/// The second component of a pair of closed terms in normal form reduces
/// to the second of the two, in three steps and one more that leaves it
/// as it is, and takes nothing from the supply.
pub proof fn lemma_second_of_pair(a: Term, b: Term, count: nat, limit: nat)
    requires
        a.closed(),
        b.closed(),
        normal(a),
        normal(b),
        limit >= 4,
    ensures
        normalize(app(second_term(), tuple_term(a, b)), count, limit) == (Some(b), count),
{
    lemma_truth_values_are_closed();
    let met = app(tuple_term(a, b), false_term());
    let chosen = app(app(false_term(), a), b);
    lemma_pair_meets_selector(a, b, false_term(), count);
    lemma_truth_picks(false, a, b, count);
    lemma_picked_is_smaller(false, a, b);
    lemma_normal_is_fixed(b, count);
    assert(normalize(b, count, (limit - 3) as nat) == (Some(b), count));
    assert(normalize(chosen, count, (limit - 2) as nat) == (Some(b), count));
    assert(normalize(met, count, (limit - 1) as nat) == (Some(b), count));
}

/// The conjunction of two truth values reduces to the truth value that is
/// truth where both are, in two steps and one more that leaves it as it
/// is, and takes nothing from the supply.
pub proof fn lemma_conjunction(a: bool, b: bool, count: nat, limit: nat)
    requires
        limit >= 3,
    ensures
        normalize(app(app(and_term(), truth_term(a)), truth_term(b)), count, limit) == (
            Some(truth_term(a && b)),
            count,
        ),
{
    lemma_letters();
    lemma_truth_values_are_closed();
    let x = "x"@;
    let y = "y"@;
    let left = truth_term(a);
    let right = truth_term(b);
    let open_body = app(app(var(x), var(y)), false_term());
    let half_body = app(app(left, var(y)), false_term());
    let met = app(app(left, right), false_term());
    lemma_var_facts(x);
    lemma_var_facts(y);
    assert(normal(and_term())) by {
        lemma_app_facts(var(x), var(y));
        lemma_app_facts(app(var(x), var(y)), false_term());
        lemma_lam_facts(y, open_body);
        lemma_lam_facts(x, lam(y, open_body));
    }
    lemma_normal_is_fixed(and_term(), count);
    lemma_normal_is_fixed(left, count);
    lemma_normal_is_fixed(right, count);
    assert(substitute(open_body, x, left, count) == (half_body, count)) by {
        lemma_substitute_var(x, x, left, count);
        lemma_substitute_var(y, x, left, count);
        lemma_substitute_absent(false_term(), x, left, count);
        lemma_substitute_app(var(x), var(y), x, left, count);
        lemma_substitute_app(app(var(x), var(y)), false_term(), x, left, count);
    }
    lemma_substitute_lam(y, open_body, x, left, count);
    lemma_reduce_redex(and_term(), left, x, lam(y, open_body), left, count);
    assert(substitute(half_body, y, right, count) == (met, count)) by {
        lemma_substitute_absent(left, y, right, count);
        lemma_substitute_var(y, y, right, count);
        lemma_substitute_absent(false_term(), y, right, count);
        lemma_substitute_app(left, var(y), y, right, count);
        lemma_substitute_app(app(left, var(y)), false_term(), y, right, count);
    }
    lemma_reduce_redex(app(and_term(), left), right, y, half_body, right, count);
    lemma_truth_picks(a, right, false_term(), count);
    lemma_picked_is_smaller(a, right, false_term());
    let result = truth_term(a && b);
    lemma_normal_is_fixed(result, count);
    assert(normalize(result, count, (limit - 2) as nat) == (Some(result), count));
    assert(normalize(met, count, (limit - 1) as nat) == (Some(result), count));
}

/// The disjunction of two truth values reduces to the truth value that is
/// truth where one of them is, in two steps and one more that leaves it as
/// it is, and takes nothing from the supply.
pub proof fn lemma_disjunction(a: bool, b: bool, count: nat, limit: nat)
    requires
        limit >= 3,
    ensures
        normalize(app(app(or_term(), truth_term(a)), truth_term(b)), count, limit) == (
            Some(truth_term(a || b)),
            count,
        ),
{
    lemma_letters();
    lemma_truth_values_are_closed();
    let x = "x"@;
    let y = "y"@;
    let left = truth_term(a);
    let right = truth_term(b);
    let open_body = app(app(var(x), true_term()), var(y));
    let half_body = app(app(left, true_term()), var(y));
    let met = app(app(left, true_term()), right);
    lemma_var_facts(x);
    lemma_var_facts(y);
    assert(normal(or_term())) by {
        lemma_app_facts(var(x), true_term());
        lemma_app_facts(app(var(x), true_term()), var(y));
        lemma_lam_facts(y, open_body);
        lemma_lam_facts(x, lam(y, open_body));
    }
    lemma_normal_is_fixed(or_term(), count);
    lemma_normal_is_fixed(left, count);
    lemma_normal_is_fixed(right, count);
    assert(substitute(open_body, x, left, count) == (half_body, count)) by {
        lemma_substitute_var(x, x, left, count);
        lemma_substitute_var(y, x, left, count);
        lemma_substitute_absent(true_term(), x, left, count);
        lemma_substitute_app(var(x), true_term(), x, left, count);
        lemma_substitute_app(app(var(x), true_term()), var(y), x, left, count);
    }
    lemma_substitute_lam(y, open_body, x, left, count);
    lemma_reduce_redex(or_term(), left, x, lam(y, open_body), left, count);
    assert(substitute(half_body, y, right, count) == (met, count)) by {
        lemma_substitute_absent(left, y, right, count);
        lemma_substitute_var(y, y, right, count);
        lemma_substitute_absent(true_term(), y, right, count);
        lemma_substitute_app(left, true_term(), y, right, count);
        lemma_substitute_app(app(left, true_term()), var(y), y, right, count);
    }
    lemma_reduce_redex(app(or_term(), left), right, y, half_body, right, count);
    lemma_truth_picks(a, true_term(), right, count);
    lemma_picked_is_smaller(a, true_term(), right);
    let result = truth_term(a || b);
    lemma_normal_is_fixed(result, count);
    assert(normalize(result, count, (limit - 2) as nat) == (Some(result), count));
    assert(normalize(met, count, (limit - 1) as nat) == (Some(result), count));
}

/// The negation of a truth value reduces to the other truth value, in two
/// steps and one more that leaves it as it is, and takes nothing from the
/// supply.
pub proof fn lemma_negation(a: bool, count: nat, limit: nat)
    requires
        limit >= 3,
    ensures
        normalize(app(not_term(), truth_term(a)), count, limit) == (Some(truth_term(!a)), count),
{
    lemma_letters();
    lemma_truth_values_are_closed();
    let x = "x"@;
    let value = truth_term(a);
    let open_body = app(app(var(x), false_term()), true_term());
    let met = app(app(value, false_term()), true_term());
    lemma_var_facts(x);
    assert(normal(not_term())) by {
        lemma_app_facts(var(x), false_term());
        lemma_app_facts(app(var(x), false_term()), true_term());
        lemma_lam_facts(x, open_body);
    }
    lemma_normal_is_fixed(not_term(), count);
    lemma_normal_is_fixed(value, count);
    assert(substitute(open_body, x, value, count) == (met, count)) by {
        lemma_substitute_var(x, x, value, count);
        lemma_substitute_absent(false_term(), x, value, count);
        lemma_substitute_absent(true_term(), x, value, count);
        lemma_substitute_app(var(x), false_term(), x, value, count);
        lemma_substitute_app(app(var(x), false_term()), true_term(), x, value, count);
    }
    lemma_reduce_redex(not_term(), value, x, open_body, value, count);
    lemma_truth_picks(a, false_term(), true_term(), count);
    lemma_picked_is_smaller(a, false_term(), true_term());
    let result = truth_term(!a);
    lemma_normal_is_fixed(result, count);
    assert(normalize(result, count, (limit - 2) as nat) == (Some(result), count));
    assert(normalize(met, count, (limit - 1) as nat) == (Some(result), count));
}

/// The components of a pair of Church numerals reduce to the numerals.
pub proof fn lemma_pair_of_numerals(m: nat, n: nat, count: nat, limit: nat)
    requires
        limit >= 4,
    ensures
        normalize(
            app(first_term(), tuple_term(church_numeral(m), church_numeral(n))),
            count,
            limit,
        ) == (Some(church_numeral(m)), count),
        normalize(
            app(second_term(), tuple_term(church_numeral(m), church_numeral(n))),
            count,
            limit,
        ) == (Some(church_numeral(n)), count),
{
    lemma_numeral_is_normal(m);
    lemma_numeral_is_normal(n);
    lemma_first_of_pair(church_numeral(m), church_numeral(n), count, limit);
    lemma_second_of_pair(church_numeral(m), church_numeral(n), count, limit);
}

/// A variable applied `n` times to a spine of that variable is a longer
/// spine.
pub proof fn lemma_applied_to_spine(fun: Name, arg: Name, n: nat, more: nat)
    ensures
        applied(var(fun), n, spine(fun, arg, more)) == spine(fun, arg, n + more),
    decreases n,
{
    if n > 0 {
        lemma_applied_to_spine(fun, arg, (n - 1) as nat, more);
        assert(spine(fun, arg, n + more) == app(
            var(fun),
            spine(fun, arg, (n + more - 1) as nat),
        ));
    }
}

proof fn lemma_spine_keeps_function(fun: Name, arg: Name, n: nat, count: nat)
    requires
        fun != arg,
    ensures
        substitute(spine(fun, arg, n), fun, var(fun), count) == (spine(fun, arg, n), count),
    decreases n,
{
    if n > 0 {
        let rest = spine(fun, arg, (n - 1) as nat);
        lemma_spine_keeps_function(fun, arg, (n - 1) as nat, count);
        lemma_substitute_var(fun, fun, var(fun), count);
        lemma_substitute_app(var(fun), rest, fun, var(fun), count);
    } else {
        lemma_substitute_var(arg, fun, var(fun), count);
    }
}

proof fn lemma_spine_takes_base(fun: Name, arg: Name, n: nat, base: Term, count: nat)
    requires
        fun != arg,
    ensures
        substitute(spine(fun, arg, n), arg, base, count) == (applied(var(fun), n, base), count),
    decreases n,
{
    if n > 0 {
        let rest = spine(fun, arg, (n - 1) as nat);
        lemma_spine_takes_base(fun, arg, (n - 1) as nat, base, count);
        lemma_substitute_var(fun, arg, base, count);
        lemma_substitute_app(var(fun), rest, arg, base, count);
    } else {
        lemma_substitute_var(arg, arg, base, count);
    }
}

proof fn lemma_spine_takes_function(fun: Name, arg: Name, n: nat, with: Term, count: nat)
    requires
        fun != arg,
    ensures
        substitute(spine(fun, arg, n), fun, with, count) == (applied(with, n, var(arg)), count),
    decreases n,
{
    if n > 0 {
        let rest = spine(fun, arg, (n - 1) as nat);
        lemma_spine_takes_function(fun, arg, (n - 1) as nat, with, count);
        lemma_substitute_var(fun, fun, with, count);
        lemma_substitute_app(var(fun), rest, fun, with, count);
    } else {
        lemma_substitute_var(arg, fun, with, count);
    }
}

/// A numeral applied to the variables `f` and `x` reduces, in one step, to
/// its spine.
proof fn lemma_numeral_on_its_variables(n: nat, count: nat)
    ensures
        reduce(app(church_numeral(n), var("f"@)), count) == (
            lam("x"@, spine("f"@, "x"@, n)),
            count,
        ),
        reduce(app(app(church_numeral(n), var("f"@)), var("x"@)), count) == (
            spine("f"@, "x"@, n),
            count,
        ),
{
    lemma_letters();
    let f = "f"@;
    let x = "x"@;
    let body = spine(f, x, n);
    lemma_numeral_is_normal(n);
    lemma_normal_is_fixed(church_numeral(n), count);
    lemma_var_facts(f);
    lemma_var_facts(x);
    lemma_normal_is_fixed(var(f), count);
    lemma_normal_is_fixed(var(x), count);
    lemma_spine_keeps_function(f, x, n, count);
    lemma_substitute_lam(x, body, f, var(f), count);
    lemma_reduce_redex(church_numeral(n), var(f), f, lam(x, body), var(f), count);
    lemma_spine_takes_base(f, x, n, var(x), count);
    lemma_applied_to_spine(f, x, n, 0);
    lemma_reduce_redex(app(church_numeral(n), var(f)), var(x), x, body, var(x), count);
}

/// The successor of a Church numeral reduces to the numeral of the next
/// number, in two steps and one more that leaves it as it is, and takes
/// nothing from the supply.
pub proof fn lemma_successor(n: nat, count: nat, limit: nat)
    requires
        limit >= 3,
    ensures
        normalize(app(succ_term(), church_numeral(n)), count, limit) == (
            Some(church_numeral(n + 1)),
            count,
        ),
{
    lemma_letters();
    let f = "f"@;
    let x = "x"@;
    let numeral = church_numeral(n);
    let start = app(succ_term(), numeral);
    let open_inner = app(app(var("n"@), var(f)), var(x));
    let open_body = app(var(f), open_inner);
    let inner = app(app(numeral, var(f)), var(x));
    let body = app(var(f), inner);
    let met = lam(f, lam(x, body));
    lemma_numeral_is_normal(n);
    lemma_numeral_is_normal(n + 1);
    lemma_var_facts(f);
    lemma_var_facts(x);
    lemma_var_facts("n"@);
    assert(normal(succ_term())) by {
        lemma_app_facts(var("n"@), var(f));
        lemma_app_facts(app(var("n"@), var(f)), var(x));
        lemma_app_facts(var(f), open_inner);
        lemma_lam_facts(x, open_body);
        lemma_lam_facts(f, lam(x, open_body));
        lemma_lam_facts("n"@, lam(f, lam(x, open_body)));
    }
    lemma_normal_is_fixed(succ_term(), count);
    lemma_normal_is_fixed(numeral, count);
    assert(substitute(open_body, "n"@, numeral, count) == (body, count)) by {
        lemma_substitute_var("n"@, "n"@, numeral, count);
        lemma_substitute_var(f, "n"@, numeral, count);
        lemma_substitute_var(x, "n"@, numeral, count);
        lemma_substitute_app(var("n"@), var(f), "n"@, numeral, count);
        lemma_substitute_app(app(var("n"@), var(f)), var(x), "n"@, numeral, count);
        lemma_substitute_app(var(f), open_inner, "n"@, numeral, count);
    }
    lemma_substitute_lam(x, open_body, "n"@, numeral, count);
    lemma_substitute_lam(f, lam(x, open_body), "n"@, numeral, count);
    lemma_reduce_redex(succ_term(), numeral, "n"@, lam(f, lam(x, open_body)), numeral, count);
    assert(reduce(start, count) == (met, count));
    lemma_numeral_on_its_variables(n, count);
    lemma_normal_is_fixed(var(f), count);
    lemma_reduce_stuck(var(f), inner, var(f), spine(f, x, n), count);
    lemma_reduce_lam(x, body, count);
    lemma_reduce_lam(f, lam(x, body), count);
    assert(spine(f, x, n + 1) == app(var(f), spine(f, x, n)));
    assert(reduce(met, count) == (church_numeral(n + 1), count));
    lemma_normal_is_fixed(church_numeral(n + 1), count);
    assert(spine(f, x, n) != inner) by {
        if n > 0 {
            assert(spine(f, x, n) == app(var(f), spine(f, x, (n - 1) as nat)));
        }
    }
    assert(normalize(church_numeral(n + 1), count, (limit - 2) as nat) == (
        Some(church_numeral(n + 1)),
        count,
    ));
    assert(normalize(met, count, (limit - 1) as nat) == (Some(church_numeral(n + 1)), count));
}

/// The sum of two Church numerals reduces to the numeral of the sum of
/// their numbers, in two steps and one more that leaves it as it is, and
/// takes nothing from the supply.
pub proof fn lemma_sum(a: nat, b: nat, count: nat, limit: nat)
    requires
        limit >= 3,
    ensures
        normalize(app(app(add_term(), church_numeral(a)), church_numeral(b)), count, limit) == (
            Some(church_numeral(a + b)),
            count,
        ),
{
    lemma_letters();
    let f = "f"@;
    let x = "x"@;
    let n = "n"@;
    let m = "m"@;
    let first = church_numeral(a);
    let second = church_numeral(b);
    let start = app(app(add_term(), first), second);
    // The body of the sum, as it stands, with the first numeral in it, and
    // with both.
    let open_right = app(app(var(m), var(f)), var(x));
    let open_body = app(app(var(n), var(f)), open_right);
    let half_body = app(app(first, var(f)), open_right);
    let right = app(app(second, var(f)), var(x));
    let body = app(app(first, var(f)), right);
    let met = lam(f, lam(x, body));
    lemma_numeral_is_normal(a);
    lemma_numeral_is_normal(b);
    lemma_numeral_is_normal(a + b);
    lemma_var_facts(f);
    lemma_var_facts(x);
    lemma_var_facts(n);
    lemma_var_facts(m);
    assert(normal(add_term())) by {
        lemma_app_facts(var(m), var(f));
        lemma_app_facts(app(var(m), var(f)), var(x));
        lemma_app_facts(var(n), var(f));
        lemma_app_facts(app(var(n), var(f)), open_right);
        lemma_lam_facts(x, open_body);
        lemma_lam_facts(f, lam(x, open_body));
        lemma_lam_facts(m, lam(f, lam(x, open_body)));
        lemma_lam_facts(n, lam(m, lam(f, lam(x, open_body))));
    }
    lemma_normal_is_fixed(add_term(), count);
    lemma_normal_is_fixed(first, count);
    lemma_normal_is_fixed(second, count);
    assert(substitute(open_body, n, first, count) == (half_body, count)) by {
        lemma_substitute_var(n, n, first, count);
        lemma_substitute_var(m, n, first, count);
        lemma_substitute_var(f, n, first, count);
        lemma_substitute_var(x, n, first, count);
        lemma_substitute_app(var(n), var(f), n, first, count);
        lemma_substitute_app(var(m), var(f), n, first, count);
        lemma_substitute_app(app(var(m), var(f)), var(x), n, first, count);
        lemma_substitute_app(app(var(n), var(f)), open_right, n, first, count);
    }
    lemma_substitute_lam(x, open_body, n, first, count);
    lemma_substitute_lam(f, lam(x, open_body), n, first, count);
    lemma_substitute_lam(m, lam(f, lam(x, open_body)), n, first, count);
    lemma_reduce_redex(
        add_term(),
        first,
        n,
        lam(m, lam(f, lam(x, open_body))),
        first,
        count,
    );
    assert(reduce(app(add_term(), first), count) == (
        lam(m, lam(f, lam(x, half_body))),
        count,
    ));
    assert(substitute(half_body, m, second, count) == (body, count)) by {
        lemma_substitute_absent(first, m, second, count);
        lemma_substitute_var(m, m, second, count);
        lemma_substitute_var(f, m, second, count);
        lemma_substitute_var(x, m, second, count);
        lemma_substitute_app(first, var(f), m, second, count);
        lemma_substitute_app(var(m), var(f), m, second, count);
        lemma_substitute_app(app(var(m), var(f)), var(x), m, second, count);
        lemma_substitute_app(app(first, var(f)), open_right, m, second, count);
    }
    lemma_substitute_lam(x, half_body, m, second, count);
    lemma_substitute_lam(f, lam(x, half_body), m, second, count);
    lemma_reduce_redex(
        app(add_term(), first),
        second,
        m,
        lam(f, lam(x, half_body)),
        second,
        count,
    );
    assert(reduce(start, count) == (met, count));
    lemma_numeral_on_its_variables(a, count);
    lemma_numeral_on_its_variables(b, count);
    lemma_spine_takes_base(f, x, a, spine(f, x, b), count);
    lemma_applied_to_spine(f, x, a, b);
    lemma_reduce_redex(app(first, var(f)), right, x, spine(f, x, a), spine(f, x, b), count);
    lemma_reduce_lam(x, body, count);
    lemma_reduce_lam(f, lam(x, body), count);
    assert(reduce(met, count) == (church_numeral(a + b), count));
    lemma_normal_is_fixed(church_numeral(a + b), count);
    assert(spine(f, x, a + b) != body) by {
        if a + b > 0 {
            assert(spine(f, x, a + b) == app(var(f), spine(f, x, (a + b - 1) as nat)));
        }
    }
    assert(normalize(church_numeral(a + b), count, (limit - 2) as nat) == (
        Some(church_numeral(a + b)),
        count,
    ));
    assert(normalize(met, count, (limit - 1) as nat) == (Some(church_numeral(a + b)), count));
}

proof fn lemma_tower_collapses(b: nat, k: nat, count: nat)
    ensures
        reduce(applied(lam("x"@, spine("f"@, "x"@, b)), k, var("x"@)), count) == (
            spine("f"@, "x"@, b * k),
            count,
        ),
    decreases k,
{
    lemma_letters();
    let f = "f"@;
    let x = "x"@;
    let step = lam(x, spine(f, x, b));
    if k == 0 {
        assert(b * k == 0) by (nonlinear_arith)
            requires
                k == 0,
        ;
    } else {
        let below = applied(step, (k - 1) as nat, var(x));
        lemma_tower_collapses(b, (k - 1) as nat, count);
        lemma_numeral_is_normal(b);
        lemma_lam_facts(x, spine(f, x, b));
        lemma_lam_facts(f, step);
        lemma_normal_is_fixed(step, count);
        lemma_spine_takes_base(f, x, b, spine(f, x, b * (k - 1) as nat), count);
        lemma_applied_to_spine(f, x, b, b * (k - 1) as nat);
        assert(b + b * (k - 1) as nat == b * k) by (nonlinear_arith)
            requires
                k >= 1,
        ;
        lemma_reduce_redex(step, below, x, spine(f, x, b), spine(f, x, b * (k - 1) as nat), count);
    }
}

/// The product of two Church numerals reduces to the numeral of the
/// product of their numbers, in three steps at most and one more that
/// leaves it as it is, and takes nothing from the supply.
pub proof fn lemma_product(a: nat, b: nat, count: nat, limit: nat)
    requires
        limit >= 4,
    ensures
        normalize(app(app(mul_term(), church_numeral(a)), church_numeral(b)), count, limit) == (
            Some(church_numeral(a * b)),
            count,
        ),
{
    lemma_letters();
    let f = "f"@;
    let x = "x"@;
    let n = "n"@;
    let m = "m"@;
    let first = church_numeral(a);
    let second = church_numeral(b);
    let start = app(app(mul_term(), first), second);
    let open_body = app(var(n), app(var(m), var(f)));
    let half_body = app(first, app(var(m), var(f)));
    let body = app(first, app(second, var(f)));
    let met = lam(f, body);
    let step = lam(x, spine(f, x, b));
    let tower = lam(f, lam(x, applied(step, a, var(x))));
    let product = church_numeral(a * b);
    lemma_numeral_is_normal(a);
    lemma_numeral_is_normal(b);
    lemma_numeral_is_normal(a * b);
    lemma_var_facts(f);
    lemma_var_facts(x);
    lemma_var_facts(n);
    lemma_var_facts(m);
    assert(normal(mul_term())) by {
        lemma_app_facts(var(m), var(f));
        lemma_app_facts(var(n), app(var(m), var(f)));
        lemma_lam_facts(f, open_body);
        lemma_lam_facts(m, lam(f, open_body));
        lemma_lam_facts(n, lam(m, lam(f, open_body)));
    }
    lemma_normal_is_fixed(mul_term(), count);
    lemma_normal_is_fixed(first, count);
    lemma_normal_is_fixed(second, count);
    assert(substitute(open_body, n, first, count) == (half_body, count)) by {
        lemma_substitute_var(n, n, first, count);
        lemma_substitute_var(m, n, first, count);
        lemma_substitute_var(f, n, first, count);
        lemma_substitute_app(var(m), var(f), n, first, count);
        lemma_substitute_app(var(n), app(var(m), var(f)), n, first, count);
    }
    lemma_substitute_lam(f, open_body, n, first, count);
    lemma_substitute_lam(m, lam(f, open_body), n, first, count);
    lemma_reduce_redex(mul_term(), first, n, lam(m, lam(f, open_body)), first, count);
    assert(reduce(app(mul_term(), first), count) == (lam(m, lam(f, half_body)), count));
    assert(substitute(half_body, m, second, count) == (body, count)) by {
        lemma_substitute_absent(first, m, second, count);
        lemma_substitute_var(m, m, second, count);
        lemma_substitute_var(f, m, second, count);
        lemma_substitute_app(var(m), var(f), m, second, count);
        lemma_substitute_app(first, app(var(m), var(f)), m, second, count);
    }
    lemma_substitute_lam(f, half_body, m, second, count);
    lemma_reduce_redex(app(mul_term(), first), second, m, lam(f, half_body), second, count);
    assert(reduce(start, count) == (met, count));
    // The second step puts the second numeral, applied to `f`, in place of
    // the `f` of the first.
    lemma_numeral_on_its_variables(b, count);
    lemma_spine_takes_function(f, x, a, step, count);
    assert(!step.free_vars().contains(x)) by {
        lemma_lam_facts(x, spine(f, x, b));
    }
    lemma_substitute_lam(x, spine(f, x, a), f, step, count);
    lemma_reduce_redex(first, app(second, var(f)), f, lam(x, spine(f, x, a)), step, count);
    lemma_reduce_lam(f, body, count);
    assert(reduce(met, count) == (tower, count));
    // The third step collapses the tower.
    lemma_tower_collapses(b, a, count);
    assert(a * b == b * a) by (nonlinear_arith);
    lemma_reduce_lam(x, applied(step, a, var(x)), count);
    lemma_reduce_lam(f, lam(x, applied(step, a, var(x))), count);
    assert(reduce(tower, count) == (product, count));
    lemma_normal_is_fixed(product, count);
    assert(normalize(product, count, (limit - 3) as nat) == (Some(product), count));
    assert(normalize(tower, count, (limit - 2) as nat) == (Some(product), count));
    assert(normalize(met, count, (limit - 1) as nat) == (Some(product), count));
}

} // verus!
