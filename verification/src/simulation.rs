//! Substitution and reduction on named terms do to the nameless form of a
//! term what substitution and reduction on nameless terms do: the names of
//! binders, and what the supply hands out for them, do not matter.

use crate::alpha::{
    alpha_equivalent, beta_equivalent, binder_distance, lemma_alpha_reflexive,
    lemma_closed_has_nameless,
    lemma_distance_defined, lemma_distance_in_parts, lemma_nameless_defined, nameless,
};
use crate::error::Fault;
use crate::names::{fresh_name, lemma_fresh_name_injective};
use crate::reduce::{lemma_reduce_count_grows, lemma_reduce_free_vars, normalize, reduce};
use crate::subst::{
    ahead_of, lemma_free_vars_are_names, lemma_rename_keeps_size, lemma_substitute_count_grows,
    lemma_substitute_free_vars, substitute,
};
use crate::term::{Name, Nameless, Term};
use vstd::prelude::*;

verus! {

/// `term` with `by` added to every index that points beyond `depth`
/// binders.
pub open spec fn lift(term: Nameless, by: nat, depth: nat) -> Nameless
    decreases term,
{
    match term {
        Nameless::Lam(body) => Nameless::Lam(Box::new(lift(*body, by, depth + 1))),
        Nameless::App(fun, arg) => Nameless::App(
            Box::new(lift(*fun, by, depth)),
            Box::new(lift(*arg, by, depth)),
        ),
        Nameless::Var(index) => if index >= depth {
            Nameless::Var(index + by)
        } else {
            term
        },
    }
}

/// `term` with `replacement` in place of the index that points `depth`
/// binders out. The indices that point further out lose one, for the
/// binder that is gone, and the indices of `replacement` that point out of
/// it gain `depth`, for the binders it now stands under.
pub open spec fn fill(term: Nameless, depth: nat, replacement: Nameless) -> Nameless
    decreases term,
{
    match term {
        Nameless::Lam(body) => Nameless::Lam(Box::new(fill(*body, depth + 1, replacement))),
        Nameless::App(fun, arg) => Nameless::App(
            Box::new(fill(*fun, depth, replacement)),
            Box::new(fill(*arg, depth, replacement)),
        ),
        Nameless::Var(index) => if index == depth {
            lift(replacement, depth, 0)
        } else if index > depth {
            Nameless::Var((index - 1) as nat)
        } else {
            term
        },
    }
}

/// One step of reduction on a nameless term, in the order of [`reduce`].
pub open spec fn reduce_nameless(term: Nameless) -> Nameless
    decreases term,
{
    match term {
        Nameless::Lam(body) => Nameless::Lam(Box::new(reduce_nameless(*body))),
        Nameless::App(fun, arg) => {
            let left = reduce_nameless(*fun);
            let right = reduce_nameless(*arg);
            match left {
                Nameless::Lam(body) => fill(*body, 0, right),
                _ => Nameless::App(Box::new(left), Box::new(right)),
            }
        },
        Nameless::Var(_) => term,
    }
}

/// The distance of a name under one more binder.
pub proof fn lemma_distance_under_binder(ctx: Seq<Name>, param: Name, name: Name)
    ensures
        binder_distance(ctx.push(param), name) == if name == param {
            Some(0nat)
        } else {
            match binder_distance(ctx, name) {
                Some(distance) => Some(distance + 1),
                None => None,
            }
        },
{
    assert(ctx.push(param).drop_last() =~= ctx);
    assert(ctx.push(param).last() == param);
}

/// Two contexts in which every name of a term has the same distance give
/// the term the same nameless form.
pub proof fn lemma_nameless_agrees(term: Term, one: Seq<Name>, other: Seq<Name>)
    requires
        forall|name: Name| #[trigger]
            term.names().contains(name) ==> binder_distance(one, name) == binder_distance(
                other,
                name,
            ),
    ensures
        nameless(term, one) == nameless(term, other),
    decreases term,
{
    match term {
        Term::Lam(param, body) => {
            assert forall|name: Name| #[trigger]
                body.names().contains(name) implies binder_distance(one.push(param), name)
                == binder_distance(other.push(param), name) by {
                lemma_distance_under_binder(one, param, name);
                lemma_distance_under_binder(other, param, name);
                assert(term.names().contains(name));
            }
            lemma_nameless_agrees(*body, one.push(param), other.push(param));
        },
        Term::App(fun, arg) => {
            assert forall|name: Name| #[trigger]
                fun.names().contains(name) implies binder_distance(one, name)
                == binder_distance(other, name) by {
                assert(term.names().contains(name));
            }
            assert forall|name: Name| #[trigger]
                arg.names().contains(name) implies binder_distance(one, name)
                == binder_distance(other, name) by {
                assert(term.names().contains(name));
            }
            lemma_nameless_agrees(*fun, one, other);
            lemma_nameless_agrees(*arg, one, other);
        },
        Term::Var(name) => {
            assert(term.names().contains(name));
        },
    }
}

/// The context `after` is the context `before` with a binder called `to`
/// where `before` has the binder that `from` refers to.
pub open spec fn renamed_context(
    before: Seq<Name>,
    after: Seq<Name>,
    from: Name,
    to: Name,
) -> bool {
    &&& binder_distance(before, from) is Some
    &&& binder_distance(after, to) == binder_distance(before, from)
    &&& forall|name: Name|
        name != from && name != to ==> #[trigger] binder_distance(before, name)
            == binder_distance(after, name)
}

/// Renaming a binder to a name that its body does not hold, and the
/// variables that refer to it with it, takes nothing from the supply and
/// does not change the nameless form.
pub proof fn lemma_rename_nameless(
    term: Term,
    from: Name,
    to: Name,
    count: nat,
    before: Seq<Name>,
    after: Seq<Name>,
)
    requires
        !term.names().contains(to),
        renamed_context(before, after, from, to),
    ensures
        substitute(term, from, Term::Var(to), count).1 == count,
        nameless(substitute(term, from, Term::Var(to), count).0, after) == nameless(
            term,
            before,
        ),
    decreases term,
{
    let replacement = Term::Var(to);
    match term {
        Term::Lam(param, body) => {
            assert(term.names().contains(param));
            if param == from {
                assert forall|name: Name| #[trigger]
                    body.names().contains(name) implies binder_distance(
                    before.push(param),
                    name,
                ) == binder_distance(after.push(param), name) by {
                    lemma_distance_under_binder(before, param, name);
                    lemma_distance_under_binder(after, param, name);
                    assert(term.names().contains(name));
                }
                lemma_nameless_agrees(*body, before.push(param), after.push(param));
            } else {
                assert(!replacement.free_vars().contains(param));
                assert(!body.names().contains(to));
                assert(renamed_context(before.push(param), after.push(param), from, to)) by {
                    lemma_distance_under_binder(before, param, from);
                    lemma_distance_under_binder(after, param, to);
                    assert forall|name: Name|
                        name != from && name != to implies #[trigger] binder_distance(
                        before.push(param),
                        name,
                    ) == binder_distance(after.push(param), name) by {
                        lemma_distance_under_binder(before, param, name);
                        lemma_distance_under_binder(after, param, name);
                    }
                }
                lemma_rename_nameless(
                    *body,
                    from,
                    to,
                    count,
                    before.push(param),
                    after.push(param),
                );
            }
        },
        Term::App(fun, arg) => {
            assert(!fun.names().contains(to));
            assert(!arg.names().contains(to));
            lemma_rename_nameless(*fun, from, to, count, before, after);
            lemma_rename_nameless(*arg, from, to, count, before, after);
        },
        Term::Var(name) => {
            assert(term.names().contains(name));
        },
    }
}

/// The spelling of a bound name does not matter: an abstraction whose
/// binder, with the variables that refer to it, is renamed to a name that
/// its body does not hold has the nameless form it had before, under any
/// context.
pub proof fn lemma_binder_name_is_immaterial(
    param: Name,
    body: Term,
    to: Name,
    count: nat,
    ctx: Seq<Name>,
)
    requires
        !body.names().contains(to),
    ensures
        nameless(
            Term::Lam(to, Box::new(substitute(body, param, Term::Var(to), count).0)),
            ctx,
        ) == nameless(Term::Lam(param, Box::new(body)), ctx),
{
    let before = ctx.push(param);
    let after = ctx.push(to);
    assert(renamed_context(before, after, param, to)) by {
        lemma_distance_under_binder(ctx, param, param);
        lemma_distance_under_binder(ctx, to, to);
        assert forall|name: Name| name != param && name != to implies #[trigger] binder_distance(
            before,
            name,
        ) == binder_distance(after, name) by {
            lemma_distance_under_binder(ctx, param, name);
            lemma_distance_under_binder(ctx, to, name);
        }
    }
    lemma_rename_nameless(body, param, to, count, before, after);
}

/// A term keeps its nameless form where binders that capture none of its
/// free variables come between it and its context, but for the indices
/// that point out of it: they gain the number of those binders.
///
/// `local` holds the binders of the term itself that lie around the part
/// in hand.
pub proof fn lemma_nameless_weakens(
    term: Term,
    outer: Seq<Name>,
    between: Seq<Name>,
    local: Seq<Name>,
)
    requires
        nameless(term, outer + local) is Ok,
        forall|name: Name|
            #[trigger] term.free_vars().contains(name) && !local.contains(name)
                ==> !between.contains(name),
    ensures
        nameless(term, outer + between + local) == Ok::<Nameless, Name>(
            lift(nameless(term, outer + local)->Ok_0, between.len(), local.len()),
        ),
    decreases term,
{
    match term {
        Term::Lam(param, body) => {
            let deeper = local.push(param);
            assert((outer + local).push(param) =~= outer + deeper);
            assert((outer + between + local).push(param) =~= outer + between + deeper);
            assert forall|name: Name| #[trigger]
                body.free_vars().contains(name) && !deeper.contains(name) implies !between.contains(
                name,
            ) by {
                assert(deeper[local.len() as int] == param);
                assert(name != param);
                assert(term.free_vars().contains(name));
                if local.contains(name) {
                    let i = choose|i: int| 0 <= i < local.len() && local[i] == name;
                    assert(deeper[i] == name);
                }
            }
            lemma_nameless_weakens(*body, outer, between, deeper);
        },
        Term::App(fun, arg) => {
            assert forall|name: Name| #[trigger]
                fun.free_vars().contains(name) && !local.contains(name) implies !between.contains(
                name,
            ) by {
                assert(term.free_vars().contains(name));
            }
            assert forall|name: Name| #[trigger]
                arg.free_vars().contains(name) && !local.contains(name) implies !between.contains(
                name,
            ) by {
                assert(term.free_vars().contains(name));
            }
            lemma_nameless_weakens(*fun, outer, between, local);
            lemma_nameless_weakens(*arg, outer, between, local);
        },
        Term::Var(name) => {
            assert(term.free_vars().contains(name));
            lemma_distance_in_parts(outer, local, name);
            lemma_distance_in_parts(outer + between, local, name);
            lemma_distance_in_parts(outer, between, name);
            lemma_distance_defined(local, name);
            lemma_distance_defined(between, name);
        },
    }
}

/// A term keeps its nameless form where a binder that none of its
/// variables refers to leaves its context, but for the indices that point
/// beyond that binder: they lose one. That is what [`fill`] does to a term
/// without the index it fills.
pub proof fn lemma_nameless_strengthens(
    term: Term,
    outer: Seq<Name>,
    gone: Name,
    inner: Seq<Name>,
    replacement: Nameless,
)
    requires
        nameless(term, outer.push(gone) + inner) is Ok,
        inner.contains(gone) || !term.free_vars().contains(gone),
    ensures
        nameless(term, outer + inner) == Ok::<Nameless, Name>(
            fill(nameless(term, outer.push(gone) + inner)->Ok_0, inner.len(), replacement),
        ),
    decreases term,
{
    match term {
        Term::Lam(param, body) => {
            let deeper = inner.push(param);
            assert((outer.push(gone) + inner).push(param) =~= outer.push(gone) + deeper);
            assert((outer + inner).push(param) =~= outer + deeper);
            assert(deeper[inner.len() as int] == param);
            if inner.contains(gone) {
                let i = choose|i: int| 0 <= i < inner.len() && inner[i] == gone;
                assert(deeper[i] == gone);
            }
            lemma_nameless_strengthens(*body, outer, gone, deeper, replacement);
        },
        Term::App(fun, arg) => {
            lemma_nameless_strengthens(*fun, outer, gone, inner, replacement);
            lemma_nameless_strengthens(*arg, outer, gone, inner, replacement);
        },
        Term::Var(name) => {
            assert(term.free_vars().contains(name));
            lemma_distance_in_parts(outer.push(gone), inner, name);
            lemma_distance_in_parts(outer, inner, name);
            lemma_distance_under_binder(outer, gone, name);
            lemma_distance_defined(inner, name);
        },
    }
}

/// Substitution is right up to the names of binders: where no binder
/// around the term captures a free variable of the replacement, and the
/// replacement is closed or the supply will hand out none of the names in
/// play, the nameless form of the result is the nameless form of the term
/// with the nameless form of the replacement filled in.
///
/// `outer` holds the binders around the replacement, `name` is the binder
/// that the substitution removes, and `inner` holds the binders between
/// that binder and the term.
pub proof fn lemma_substitute_nameless(
    term: Term,
    name: Name,
    replacement: Term,
    count: nat,
    outer: Seq<Name>,
    inner: Seq<Name>,
)
    requires
        nameless(term, outer.push(name) + inner) is Ok,
        nameless(replacement, outer) is Ok,
        !inner.contains(name),
        forall|n: Name| #[trigger] inner.contains(n) ==> !replacement.free_vars().contains(n),
        replacement.closed() || ahead_of(
            count,
            term.names().union(replacement.names()).insert(name),
        ),
    ensures
        nameless(substitute(term, name, replacement, count).0, outer + inner) == Ok::<
            Nameless,
            Name,
        >(
            fill(
                nameless(term, outer.push(name) + inner)->Ok_0,
                inner.len(),
                nameless(replacement, outer)->Ok_0,
            ),
        ),
    decreases term.size(),
{
    let with_hole = outer.push(name) + inner;
    let filled = nameless(replacement, outer)->Ok_0;
    let in_play = term.names().union(replacement.names()).insert(name);
    if !replacement.closed() {
        assert forall|k: nat| k > count implies !term.names().contains(#[trigger] fresh_name(k))
            && !replacement.names().contains(fresh_name(k)) && fresh_name(k) != name by {
            assert(!in_play.contains(fresh_name(k)));
        }
    }
    match term {
        Term::Var(n) => {
            if n == name {
                assert(outer + Seq::<Name>::empty() =~= outer);
                assert forall|m: Name| #[trigger]
                    replacement.free_vars().contains(m) && !Seq::<Name>::empty().contains(
                        m,
                    ) implies !inner.contains(m) by {}
                lemma_nameless_weakens(replacement, outer, inner, Seq::empty());
                assert(outer + inner + Seq::<Name>::empty() =~= outer + inner);
                lemma_distance_in_parts(outer.push(name), inner, name);
                lemma_distance_under_binder(outer, name, name);
                lemma_distance_defined(inner, name);
            } else {
                lemma_nameless_strengthens(term, outer, name, inner, filled);
            }
        },
        Term::App(fun, arg) => {
            let left = substitute(*fun, name, replacement, count);
            lemma_substitute_count_grows(*fun, name, replacement, count);
            if !replacement.closed() {
                assert(ahead_of(count, fun.names().union(replacement.names()).insert(name)));
                assert(ahead_of(left.1, arg.names().union(replacement.names()).insert(name)));
            }
            lemma_substitute_nameless(*fun, name, replacement, count, outer, inner);
            lemma_substitute_nameless(*arg, name, replacement, left.1, outer, inner);
        },
        Term::Lam(param, body) => {
            assert(with_hole.push(param) =~= outer.push(name) + inner.push(param));
            assert((outer + inner).push(param) =~= outer + inner.push(param));
            if param == name {
                lemma_nameless_strengthens(term, outer, name, inner, filled);
            } else if !replacement.free_vars().contains(param) {
                let deeper = inner.push(param);
                assert forall|n: Name| #[trigger] deeper.contains(n) implies n == param
                    || inner.contains(n) by {
                    let i = choose|i: int| 0 <= i < deeper.len() && deeper[i] == n;
                    if i < inner.len() {
                        assert(inner[i] == n);
                    }
                }
                if !replacement.closed() {
                    assert(ahead_of(
                        count,
                        body.names().union(replacement.names()).insert(name),
                    ));
                }
                lemma_substitute_nameless(*body, name, replacement, count, outer, deeper);
            } else {
                let fresh = fresh_name(count + 1);
                let to_fresh = Term::Var(fresh);
                let deeper = inner.push(fresh);
                lemma_free_vars_are_names(replacement);
                assert forall|k: nat| k > count + 1 implies #[trigger] fresh_name(k) != fresh by {
                    if fresh_name(k) == fresh {
                        lemma_fresh_name_injective(k, count + 1);
                    }
                }
                assert(!body.names().contains(fresh));
                lemma_binder_name_is_immaterial(param, *body, fresh, count + 1, with_hole);
                let renamed = substitute(*body, param, to_fresh, count + 1);
                lemma_rename_keeps_size(*body, param, fresh, count + 1);
                assert(with_hole.push(fresh) =~= outer.push(name) + deeper);
                assert((outer + inner).push(fresh) =~= outer + deeper);
                assert(nameless(renamed.0, outer.push(name) + deeper) == nameless(
                    *body,
                    with_hole.push(param),
                ));
                assert forall|n: Name| #[trigger] deeper.contains(n) implies n == fresh
                    || inner.contains(n) by {
                    let i = choose|i: int| 0 <= i < deeper.len() && deeper[i] == n;
                    if i < inner.len() {
                        assert(inner[i] == n);
                    }
                }
                assert(ahead_of(count + 1, body.names().union(to_fresh.names()).insert(param)));
                lemma_substitute_free_vars(*body, param, to_fresh, count + 1);
                lemma_substitute_count_grows(*body, param, to_fresh, count + 1);
                assert(ahead_of(
                    renamed.1,
                    renamed.0.names().union(replacement.names()).insert(name),
                ));
                lemma_substitute_nameless(renamed.0, name, replacement, renamed.1, outer, deeper);
            }
        },
    }
}

/// Putting a closed term in place of a variable captures nothing, whatever
/// names the term holds and whatever the supply has handed out: the
/// nameless form of the result is the nameless form of the term with the
/// nameless form of the replacement filled in.
pub proof fn lemma_substitute_closed_nameless(
    term: Term,
    name: Name,
    replacement: Term,
    count: nat,
    ctx: Seq<Name>,
)
    requires
        replacement.closed(),
        nameless(term, ctx.push(name)) is Ok,
    ensures
        nameless(replacement, ctx) is Ok,
        nameless(substitute(term, name, replacement, count).0, ctx) == Ok::<Nameless, Name>(
            fill(nameless(term, ctx.push(name))->Ok_0, 0, nameless(replacement, ctx)->Ok_0),
        ),
{
    let none = Seq::<Name>::empty();
    lemma_nameless_defined(replacement, ctx);
    assert(ctx.push(name) + none =~= ctx.push(name));
    assert(ctx + none =~= ctx);
    lemma_substitute_nameless(term, name, replacement, count, ctx, none);
}

/// Contracting a redex is right up to the names of binders: putting the
/// argument in place of the parameter of an abstraction fills the
/// outermost index of the body's nameless form with the argument's.
pub proof fn lemma_contraction_nameless(
    param: Name,
    body: Term,
    arg: Term,
    count: nat,
    ctx: Seq<Name>,
)
    requires
        nameless(Term::Lam(param, Box::new(body)), ctx) is Ok,
        nameless(arg, ctx) is Ok,
        ahead_of(count, body.names().union(arg.names()).insert(param)),
    ensures
        nameless(substitute(body, param, arg, count).0, ctx) == Ok::<Nameless, Name>(
            fill(nameless(body, ctx.push(param))->Ok_0, 0, nameless(arg, ctx)->Ok_0),
        ),
{
    let none = Seq::<Name>::empty();
    assert(ctx.push(param) + none =~= ctx.push(param));
    assert(ctx + none =~= ctx);
    lemma_substitute_nameless(body, param, arg, count, ctx, none);
}

/// A step of reduction is right up to the names of binders: where the
/// supply will hand out none of the names of the term, the nameless form
/// of the result is a step of reduction on the nameless form of the term.
pub proof fn lemma_reduce_nameless(term: Term, count: nat, ctx: Seq<Name>)
    requires
        nameless(term, ctx) is Ok,
        ahead_of(count, term.names()),
    ensures
        nameless(reduce(term, count).0, ctx) == Ok::<Nameless, Name>(
            reduce_nameless(nameless(term, ctx)->Ok_0),
        ),
    decreases term,
{
    match term {
        Term::Lam(param, body) => {
            assert(ahead_of(count, body.names()));
            lemma_reduce_nameless(*body, count, ctx.push(param));
        },
        Term::App(fun, arg) => {
            let left = reduce(*fun, count);
            let right = reduce(*arg, left.1);
            lemma_reduce_count_grows(*fun, count);
            lemma_reduce_count_grows(*arg, left.1);
            assert(ahead_of(count, fun.names()));
            assert(ahead_of(left.1, arg.names()));
            lemma_reduce_nameless(*fun, count, ctx);
            lemma_reduce_nameless(*arg, left.1, ctx);
            lemma_reduce_free_vars(*fun, count);
            lemma_reduce_free_vars(*arg, left.1);
            match left.0 {
                Term::Lam(param, body) => {
                    assert forall|k: nat| k > right.1 implies !body.names().union(
                        right.0.names(),
                    ).insert(param).contains(#[trigger] fresh_name(k)) by {
                        assert(left.0.names().contains(param));
                        if body.names().contains(fresh_name(k)) {
                            assert(left.0.names().contains(fresh_name(k)));
                        }
                    }
                    lemma_contraction_nameless(param, *body, right.0, right.1, ctx);
                },
                _ => {},
            }
        },
        Term::Var(_) => {},
    }
}

/// `steps` steps of reduction on a nameless term.
pub open spec fn reduce_nameless_times(term: Nameless, steps: nat) -> Nameless
    decreases steps,
{
    if steps == 0 {
        term
    } else {
        reduce_nameless_times(reduce_nameless(term), (steps - 1) as nat)
    }
}

/// A nameless term that a step of reduction gives back stays as it is
/// under any number of steps.
pub proof fn lemma_fixed_point_stays(term: Nameless, steps: nat, more: nat)
    requires
        reduce_nameless(reduce_nameless_times(term, steps)) == reduce_nameless_times(term, steps),
    ensures
        reduce_nameless_times(term, steps + more) == reduce_nameless_times(term, steps),
    decreases steps, more,
{
    if steps > 0 {
        lemma_fixed_point_stays(reduce_nameless(term), (steps - 1) as nat, more);
    } else if more > 0 {
        lemma_fixed_point_stays(term, 0, (more - 1) as nat);
    }
}

/// A full reduction never gives an identifier back to the supply.
pub proof fn lemma_normalize_count_grows(term: Term, count: nat, limit: nat)
    ensures
        normalize(term, count, limit).1 >= count,
    decreases limit,
{
    if limit > 0 {
        let next = reduce(term, count);
        lemma_reduce_count_grows(term, count);
        if next.0 != term {
            lemma_normalize_count_grows(next.0, next.1, (limit - 1) as nat);
        }
    }
}

/// A full reduction is right up to the names of binders: where the supply
/// will hand out none of the names of the term, the nameless form of the
/// result is what some number of steps of reduction make of the nameless
/// form of the term, and a further step gives it back.
pub proof fn lemma_normalize_nameless(term: Term, count: nat, limit: nat, ctx: Seq<Name>) -> (steps:
    nat)
    requires
        nameless(term, ctx) is Ok,
        ahead_of(count, term.names()),
        normalize(term, count, limit).0 is Some,
    ensures
        nameless(normalize(term, count, limit).0->0, ctx) == Ok::<Nameless, Name>(
            reduce_nameless_times(nameless(term, ctx)->Ok_0, steps),
        ),
        reduce_nameless(reduce_nameless_times(nameless(term, ctx)->Ok_0, steps))
            == reduce_nameless_times(nameless(term, ctx)->Ok_0, steps),
    decreases limit,
{
    let next = reduce(term, count);
    lemma_reduce_nameless(term, count, ctx);
    if next.0 == term {
        0
    } else {
        lemma_reduce_free_vars(term, count);
        let later = lemma_normalize_nameless(next.0, next.1, (limit - 1) as nat, ctx);
        later + 1
    }
}

/// A full reduction frees no variable and leaves the supply ahead of its
/// result, where the supply was ahead of the term.
pub proof fn lemma_normalize_free_vars(term: Term, count: nat, limit: nat)
    requires
        ahead_of(count, term.names()),
        normalize(term, count, limit).0 is Some,
    ensures
        normalize(term, count, limit).0->0.free_vars().subset_of(term.free_vars()),
        ahead_of(normalize(term, count, limit).1, normalize(term, count, limit).0->0.names()),
    decreases limit,
{
    let next = reduce(term, count);
    lemma_reduce_free_vars(term, count);
    if next.0 != term {
        lemma_normalize_free_vars(next.0, next.1, (limit - 1) as nat);
    }
}

/// Reducing the result of a full reduction again changes the names of
/// binders at most: where a closed term has a full reduction that comes
/// to an end, and so has the result of it, the second result is the same
/// as the first up to those names.
pub proof fn lemma_full_reduction_idempotent_up_to_names(
    term: Term,
    count: nat,
    limit: nat,
    again: nat,
)
    requires
        term.closed(),
        ahead_of(count, term.names()),
        normalize(term, count, limit).0 is Some,
        normalize(normalize(term, count, limit).0->0, normalize(term, count, limit).1, again).0
            is Some,
    ensures
        alpha_equivalent(
            normalize(
                normalize(term, count, limit).0->0,
                normalize(term, count, limit).1,
                again,
            ).0->0,
            normalize(term, count, limit).0->0,
        ) == Ok::<bool, Name>(true),
{
    let none = Seq::<Name>::empty();
    let once = normalize(term, count, limit);
    lemma_closed_has_nameless(term);
    let steps = lemma_normalize_nameless(term, count, limit, none);
    lemma_normalize_free_vars(term, count, limit);
    let more = lemma_normalize_nameless(once.0->0, once.1, again, none);
    lemma_fixed_point_stays(nameless(once.0->0, none)->Ok_0, 0, more);
}

/// Full reduction respects sameness up to the names of binders: where two
/// closed terms are the same up to those names, the supply will hand out
/// none of their names, and the full reduction of each comes to an end,
/// the two results are the same up to those names. The two reductions may
/// start from different states of the supply.
pub proof fn lemma_full_reduction_respects_alpha(
    a: Term,
    b: Term,
    count_a: nat,
    count_b: nat,
    limit_a: nat,
    limit_b: nat,
)
    requires
        alpha_equivalent(a, b) == Ok::<bool, Name>(true),
        ahead_of(count_a, a.names()),
        ahead_of(count_b, b.names()),
        normalize(a, count_a, limit_a).0 is Some,
        normalize(b, count_b, limit_b).0 is Some,
    ensures
        alpha_equivalent(normalize(a, count_a, limit_a).0->0, normalize(b, count_b, limit_b).0->0)
            == Ok::<bool, Name>(true),
{
    let none = Seq::<Name>::empty();
    let form = nameless(a, none)->Ok_0;
    let steps_a = lemma_normalize_nameless(a, count_a, limit_a, none);
    let steps_b = lemma_normalize_nameless(b, count_b, limit_b, none);
    if steps_a <= steps_b {
        lemma_fixed_point_stays(form, steps_a, (steps_b - steps_a) as nat);
    } else {
        lemma_fixed_point_stays(form, steps_b, (steps_a - steps_b) as nat);
    }
}

/// A step of reduction respects sameness up to the names of binders, from
/// whatever states of the supply the two steps start.
pub proof fn lemma_reduce_respects_alpha(a: Term, b: Term, count_a: nat, count_b: nat)
    requires
        alpha_equivalent(a, b) == Ok::<bool, Name>(true),
        ahead_of(count_a, a.names()),
        ahead_of(count_b, b.names()),
    ensures
        alpha_equivalent(reduce(a, count_a).0, reduce(b, count_b).0) == Ok::<bool, Name>(true),
{
    lemma_reduce_nameless(a, count_a, Seq::empty());
    lemma_reduce_nameless(b, count_b, Seq::empty());
}

/// Sameness after reduction is reflexive: a closed term whose full
/// reduction comes to an end is the same as itself.
pub proof fn lemma_beta_reflexive(a: Term, count: nat, limit: nat)
    requires
        a.closed(),
        ahead_of(count, a.names()),
        beta_equivalent(a, a, count, limit).0 is Ok,
    ensures
        beta_equivalent(a, a, count, limit).0 == Ok::<bool, Fault>(true),
{
    let first = normalize(a, count, limit);
    lemma_normalize_count_grows(a, count, limit);
    lemma_alpha_reflexive(a);
    lemma_full_reduction_respects_alpha(a, a, count, first.1, limit, limit);
}

/// Sameness after reduction is symmetric, from whatever states of the
/// supply the two comparisons start.
pub proof fn lemma_beta_symmetric(a: Term, b: Term, count: nat, other: nat, limit: nat)
    requires
        a.closed(),
        b.closed(),
        ahead_of(count, a.names().union(b.names())),
        ahead_of(other, a.names().union(b.names())),
        beta_equivalent(a, b, count, limit).0 is Ok,
        beta_equivalent(b, a, other, limit).0 is Ok,
    ensures
        beta_equivalent(b, a, other, limit).0 == beta_equivalent(a, b, count, limit).0,
{
    let a_first = normalize(a, count, limit);
    let b_second = normalize(b, a_first.1, limit);
    let b_first = normalize(b, other, limit);
    let a_second = normalize(a, b_first.1, limit);
    lemma_normalize_count_grows(a, count, limit);
    lemma_normalize_count_grows(b, other, limit);
    lemma_alpha_reflexive(a);
    lemma_alpha_reflexive(b);
    lemma_full_reduction_respects_alpha(a, a, count, b_first.1, limit, limit);
    lemma_full_reduction_respects_alpha(b, b, a_first.1, other, limit, limit);
}

/// Sameness after reduction is transitive, from whatever states of the
/// supply the three comparisons start.
pub proof fn lemma_beta_transitive(
    a: Term,
    b: Term,
    c: Term,
    count_ab: nat,
    count_bc: nat,
    count_ac: nat,
    limit: nat,
)
    requires
        a.closed(),
        b.closed(),
        c.closed(),
        ahead_of(count_ab, a.names().union(b.names())),
        ahead_of(count_bc, b.names().union(c.names())),
        ahead_of(count_ac, a.names().union(c.names())),
        beta_equivalent(a, b, count_ab, limit).0 == Ok::<bool, Fault>(true),
        beta_equivalent(b, c, count_bc, limit).0 == Ok::<bool, Fault>(true),
        beta_equivalent(a, c, count_ac, limit).0 is Ok,
    ensures
        beta_equivalent(a, c, count_ac, limit).0 == Ok::<bool, Fault>(true),
{
    let a_in_ab = normalize(a, count_ab, limit);
    let b_in_ab = normalize(b, a_in_ab.1, limit);
    let b_in_bc = normalize(b, count_bc, limit);
    let c_in_bc = normalize(c, b_in_bc.1, limit);
    let a_in_ac = normalize(a, count_ac, limit);
    let c_in_ac = normalize(c, a_in_ac.1, limit);
    lemma_normalize_count_grows(a, count_ab, limit);
    lemma_normalize_count_grows(b, count_bc, limit);
    lemma_normalize_count_grows(a, count_ac, limit);
    lemma_alpha_reflexive(a);
    lemma_alpha_reflexive(b);
    lemma_alpha_reflexive(c);
    lemma_full_reduction_respects_alpha(a, a, count_ab, count_ac, limit, limit);
    lemma_full_reduction_respects_alpha(b, b, a_in_ab.1, count_bc, limit, limit);
    lemma_full_reduction_respects_alpha(c, c, b_in_bc.1, a_in_ac.1, limit, limit);
}

} // verus!
