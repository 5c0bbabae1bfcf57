//! Substitution and reduction look at names only to tell them apart. So a
//! one-to-one change of names that follows the supply from one state to
//! another carries a run from the first state to the run from the second.

use crate::names::{fresh_name, lemma_fresh_name_injective};
use crate::reduce::{lemma_reduce_count_grows, lemma_reduce_free_vars, normalize, reduce};
use crate::subst::{ahead_of, lemma_rename_keeps_size, lemma_substitute_count_grows, substitute};
use crate::term::{Name, Term};
use vstd::prelude::*;

verus! {

/// `term` with every name, of a binder or of a variable, changed by `map`.
pub open spec fn rename_all(term: Term, map: spec_fn(Name) -> Name) -> Term
    decreases term,
{
    match term {
        Term::Lam(param, body) => Term::Lam(map(param), Box::new(rename_all(*body, map))),
        Term::App(fun, arg) => Term::App(
            Box::new(rename_all(*fun, map)),
            Box::new(rename_all(*arg, map)),
        ),
        Term::Var(name) => Term::Var(map(name)),
    }
}

/// A change of names that sends no two names to the same name.
pub open spec fn one_to_one(map: spec_fn(Name) -> Name) -> bool {
    forall|a: Name, b: Name| #[trigger] map(a) == #[trigger] map(b) ==> a == b
}

/// A change of names that sends what the supply hands out after `count`
/// identifiers to what it hands out `ahead` calls later.
pub open spec fn follows_supply(map: spec_fn(Name) -> Name, count: nat, ahead: nat) -> bool {
    forall|k: nat| k > count ==> map(#[trigger] fresh_name(k)) == fresh_name(k + ahead)
}

/// The change of names that moves what the supply hands out after `count`
/// identifiers `ahead` calls on, and leaves every other name alone.
pub open spec fn supply_shift(count: nat, ahead: nat) -> spec_fn(Name) -> Name {
    |name: Name|
        if exists|k: nat| k > count && name == fresh_name(k) {
            fresh_name((choose|k: nat| k > count && name == fresh_name(k)) + ahead)
        } else {
            name
        }
}

/// The shift of the supply is one-to-one and follows the supply.
pub proof fn lemma_supply_shift(count: nat, ahead: nat)
    ensures
        one_to_one(supply_shift(count, ahead)),
        follows_supply(supply_shift(count, ahead), count, ahead),
{
    let map = supply_shift(count, ahead);
    assert forall|k: nat| k > count implies map(#[trigger] fresh_name(k)) == fresh_name(
        k + ahead,
    ) by {
        let name = fresh_name(k);
        let found = choose|j: nat| j > count && name == fresh_name(j);
        lemma_fresh_name_injective(found, k);
    }
    assert forall|a: Name, b: Name| #[trigger] map(a) == #[trigger] map(b) implies a == b by {
        let a_moves = exists|k: nat| k > count && a == fresh_name(k);
        let b_moves = exists|k: nat| k > count && b == fresh_name(k);
        if a_moves && b_moves {
            let i = choose|k: nat| k > count && a == fresh_name(k);
            let j = choose|k: nat| k > count && b == fresh_name(k);
            lemma_fresh_name_injective(i + ahead, j + ahead);
        } else if a_moves {
            let i = choose|k: nat| k > count && a == fresh_name(k);
            assert(i + ahead > count && b == fresh_name(i + ahead));
        } else if b_moves {
            let j = choose|k: nat| k > count && b == fresh_name(k);
            assert(j + ahead > count && a == fresh_name(j + ahead));
        }
    }
}

/// A change of names that leaves the names of a term alone leaves the
/// term alone.
pub proof fn lemma_rename_all_is_identity(term: Term, map: spec_fn(Name) -> Name)
    requires
        forall|name: Name| #[trigger] term.names().contains(name) ==> map(name) == name,
    ensures
        rename_all(term, map) == term,
    decreases term,
{
    match term {
        Term::Lam(param, body) => {
            assert(term.names().contains(param));
            assert forall|name: Name| #[trigger] body.names().contains(name) implies map(name)
                == name by {
                assert(term.names().contains(name));
            }
            lemma_rename_all_is_identity(*body, map);
        },
        Term::App(fun, arg) => {
            assert forall|name: Name| #[trigger] fun.names().contains(name) implies map(name)
                == name by {
                assert(term.names().contains(name));
            }
            assert forall|name: Name| #[trigger] arg.names().contains(name) implies map(name)
                == name by {
                assert(term.names().contains(name));
            }
            lemma_rename_all_is_identity(*fun, map);
            lemma_rename_all_is_identity(*arg, map);
        },
        Term::Var(name) => {
            assert(term.names().contains(name));
        },
    }
}

/// The shift of the supply leaves alone a term that the supply is ahead of.
pub proof fn lemma_supply_shift_is_identity(term: Term, count: nat, ahead: nat)
    requires
        ahead_of(count, term.names()),
    ensures
        rename_all(term, supply_shift(count, ahead)) == term,
{
    let map = supply_shift(count, ahead);
    assert forall|name: Name| #[trigger] term.names().contains(name) implies map(name)
        == name by {
        if exists|k: nat| k > count && name == fresh_name(k) {
            let k = choose|k: nat| k > count && name == fresh_name(k);
            assert(!term.names().contains(fresh_name(k)));
        }
    }
    lemma_rename_all_is_identity(term, map);
}

/// A change of names keeps the size of a term.
pub proof fn lemma_rename_all_size(term: Term, map: spec_fn(Name) -> Name)
    ensures
        rename_all(term, map).size() == term.size(),
    decreases term,
{
    match term {
        Term::Lam(_, body) => {
            lemma_rename_all_size(*body, map);
        },
        Term::App(fun, arg) => {
            lemma_rename_all_size(*fun, map);
            lemma_rename_all_size(*arg, map);
        },
        Term::Var(_) => {},
    }
}

/// Under a one-to-one change of names, a name is free in a term exactly
/// where its image is free in the image of the term.
pub proof fn lemma_rename_all_free_vars(term: Term, map: spec_fn(Name) -> Name, name: Name)
    requires
        one_to_one(map),
    ensures
        rename_all(term, map).free_vars().contains(map(name)) == term.free_vars().contains(name),
    decreases term,
{
    match term {
        Term::Lam(param, body) => {
            lemma_rename_all_free_vars(*body, map, name);
            if map(param) == map(name) {
                assert(param == name);
            }
        },
        Term::App(fun, arg) => {
            lemma_rename_all_free_vars(*fun, map, name);
            lemma_rename_all_free_vars(*arg, map, name);
        },
        Term::Var(other) => {
            if map(other) == map(name) {
                assert(other == name);
            }
        },
    }
}

/// A one-to-one change of names that follows the supply carries a
/// substitution from one state of the supply to a later one: the same
/// binders are renamed, and the result is the image of the result.
pub proof fn lemma_substitute_renamed(
    term: Term,
    name: Name,
    replacement: Term,
    count: nat,
    map: spec_fn(Name) -> Name,
    ahead: nat,
)
    requires
        one_to_one(map),
        follows_supply(map, count, ahead),
    ensures
        substitute(rename_all(term, map), map(name), rename_all(replacement, map), count + ahead)
            == (
            rename_all(substitute(term, name, replacement, count).0, map),
            substitute(term, name, replacement, count).1 + ahead,
        ),
    decreases term.size(),
{
    match term {
        Term::Var(other) => {
            if map(other) == map(name) {
                assert(other == name);
            }
        },
        Term::App(fun, arg) => {
            let left = substitute(*fun, name, replacement, count);
            lemma_substitute_count_grows(*fun, name, replacement, count);
            lemma_substitute_renamed(*fun, name, replacement, count, map, ahead);
            assert(follows_supply(map, left.1, ahead));
            lemma_substitute_renamed(*arg, name, replacement, left.1, map, ahead);
        },
        Term::Lam(param, body) => {
            if map(param) == map(name) {
                assert(param == name);
            }
            lemma_rename_all_free_vars(replacement, map, param);
            if param == name {
            } else if !replacement.free_vars().contains(param) {
                lemma_substitute_renamed(*body, name, replacement, count, map, ahead);
            } else {
                let fresh = fresh_name(count + 1);
                let to_fresh = Term::Var(fresh);
                assert(map(fresh) == fresh_name(count + 1 + ahead));
                assert(rename_all(to_fresh, map) == Term::Var(map(fresh)));
                assert(follows_supply(map, count + 1, ahead));
                lemma_substitute_renamed(*body, param, to_fresh, count + 1, map, ahead);
                let renamed = substitute(*body, param, to_fresh, count + 1);
                lemma_rename_keeps_size(*body, param, fresh, count + 1);
                lemma_substitute_count_grows(*body, param, to_fresh, count + 1);
                lemma_rename_all_size(*body, map);
                lemma_rename_all_size(renamed.0, map);
                assert(follows_supply(map, renamed.1, ahead));
                lemma_substitute_renamed(renamed.0, name, replacement, renamed.1, map, ahead);
            }
        },
    }
}

/// A one-to-one change of names that follows the supply carries a step of
/// reduction from one state of the supply to a later one.
pub proof fn lemma_reduce_renamed(term: Term, count: nat, map: spec_fn(Name) -> Name, ahead: nat)
    requires
        one_to_one(map),
        follows_supply(map, count, ahead),
    ensures
        reduce(rename_all(term, map), count + ahead) == (
            rename_all(reduce(term, count).0, map),
            reduce(term, count).1 + ahead,
        ),
    decreases term,
{
    match term {
        Term::Lam(_, body) => {
            lemma_reduce_renamed(*body, count, map, ahead);
        },
        Term::App(fun, arg) => {
            let left = reduce(*fun, count);
            let right = reduce(*arg, left.1);
            lemma_reduce_count_grows(*fun, count);
            lemma_reduce_count_grows(*arg, left.1);
            lemma_reduce_renamed(*fun, count, map, ahead);
            assert(follows_supply(map, left.1, ahead));
            lemma_reduce_renamed(*arg, left.1, map, ahead);
            match left.0 {
                Term::Lam(param, body) => {
                    assert(follows_supply(map, right.1, ahead));
                    lemma_substitute_renamed(*body, param, right.0, right.1, map, ahead);
                },
                _ => {},
            }
        },
        Term::Var(_) => {},
    }
}

/// A term that a step of reduction gives back from one state of the
/// supply, and that the supply is ahead of in that state, is given back
/// from any later state too.
pub proof fn lemma_fixed_point_from_later(term: Term, count: nat, later: nat)
    requires
        reduce(term, count).0 == term,
        ahead_of(count, term.names()),
        later >= count,
    ensures
        reduce(term, later).0 == term,
{
    let ahead = (later - count) as nat;
    let map = supply_shift(count, ahead);
    lemma_supply_shift(count, ahead);
    lemma_supply_shift_is_identity(term, count, ahead);
    lemma_reduce_renamed(term, count, map, ahead);
}

/// The term that a full reduction ends on is one that a step of reduction
/// gives back from a state of the supply that is ahead of it and not
/// later than the state in which the full reduction leaves the supply.
pub proof fn lemma_normalize_ends_ahead(term: Term, count: nat, limit: nat) -> (at: nat)
    requires
        ahead_of(count, term.names()),
        normalize(term, count, limit).0 is Some,
    ensures
        reduce(normalize(term, count, limit).0->0, at).0 == normalize(term, count, limit).0->0,
        ahead_of(at, normalize(term, count, limit).0->0.names()),
        at <= normalize(term, count, limit).1,
    decreases limit,
{
    let next = reduce(term, count);
    lemma_reduce_count_grows(term, count);
    if next.0 == term {
        count
    } else {
        lemma_reduce_free_vars(term, count);
        lemma_normalize_ends_ahead(next.0, next.1, (limit - 1) as nat)
    }
}

/// Full reduction is idempotent: where the supply will hand out none of
/// the names of a term, the full reduction of the result of its full
/// reduction is that result again, after one step.
pub proof fn lemma_full_reduction_is_idempotent(term: Term, count: nat, limit: nat, again: nat)
    requires
        ahead_of(count, term.names()),
        normalize(term, count, limit).0 is Some,
        again >= 1,
    ensures
        normalize(normalize(term, count, limit).0->0, normalize(term, count, limit).1, again).0
            == normalize(term, count, limit).0,
{
    let at = lemma_normalize_ends_ahead(term, count, limit);
    lemma_fixed_point_from_later(
        normalize(term, count, limit).0->0,
        at,
        normalize(term, count, limit).1,
    );
}

} // verus!
