//! Nameless form, and equality of terms up to the names of their binders.

use crate::error::{Fault, UlcError};
use crate::names::NameSupply;
use crate::reduce::normalize;
use crate::term::{DeBrujin, Expr, Id, Name, Nameless, Term};
use vstd::prelude::*;

verus! {

/// The identifiers of a vector, as contracts see them.
pub open spec fn names_of(ids: Seq<Id>) -> Seq<Name> {
    Seq::new(ids.len(), |i: int| ids[i]@)
}

/// How many binders of `ctx`, which lists them from the outermost to the
/// innermost, lie inside the innermost one called `name`; `None` where no
/// binder has that name.
pub open spec fn binder_distance(ctx: Seq<Name>, name: Name) -> Option<nat>
    decreases ctx.len(),
{
    if ctx.len() == 0 {
        None
    } else if ctx.last() == name {
        Some(0)
    } else {
        match binder_distance(ctx.drop_last(), name) {
            Some(distance) => Some(distance + 1),
            None => None,
        }
    }
}

/// The nameless form of `term` under the binders `ctx`, listed from the
/// outermost to the innermost; or the first variable, from the left, that
/// neither `ctx` nor the term binds.
pub open spec fn nameless(term: Term, ctx: Seq<Name>) -> Result<Nameless, Name>
    decreases term,
{
    match term {
        Term::Lam(param, body) => match nameless(*body, ctx.push(param)) {
            Ok(inner) => Ok(Nameless::Lam(Box::new(inner))),
            Err(name) => Err(name),
        },
        Term::App(fun, arg) => match nameless(*fun, ctx) {
            Ok(left) => match nameless(*arg, ctx) {
                Ok(right) => Ok(Nameless::App(Box::new(left), Box::new(right))),
                Err(name) => Err(name),
            },
            Err(name) => Err(name),
        },
        Term::Var(name) => match binder_distance(ctx, name) {
            Some(distance) => Ok(Nameless::Var(distance)),
            None => Err(name),
        },
    }
}

/// Whether two closed terms are the same up to the names of their
/// binders; or the first variable that has no binder, those of `a` before
/// those of `b`.
pub open spec fn alpha_equivalent(a: Term, b: Term) -> Result<bool, Name> {
    match nameless(a, Seq::empty()) {
        Ok(left) => match nameless(b, Seq::empty()) {
            Ok(right) => Ok(left == right),
            Err(name) => Err(name),
        },
        Err(name) => Err(name),
    }
}

/// Whether `a` and `b` reduce, `a` first and within `limit` steps each, to
/// terms that are the same up to the names of their binders; and the
/// number of identifiers handed out once that is known, when `count` were
/// handed out before.
pub open spec fn beta_equivalent(a: Term, b: Term, count: nat, limit: nat) -> (
    Result<bool, Fault>,
    nat,
) {
    let left = normalize(a, count, limit);
    match left.0 {
        None => (Err(Fault::StepLimit), left.1),
        Some(left_term) => {
            let right = normalize(b, left.1, limit);
            match right.0 {
                None => (Err(Fault::StepLimit), right.1),
                Some(right_term) => match alpha_equivalent(left_term, right_term) {
                    Ok(same) => (Ok(same), right.1),
                    Err(name) => (Err(Fault::UnboundVariable(name)), right.1),
                },
            }
        },
    }
}

/// A name has a distance in a context exactly where the context holds it.
pub proof fn lemma_distance_defined(ctx: Seq<Name>, name: Name)
    ensures
        binder_distance(ctx, name) is Some <==> ctx.contains(name),
        binder_distance(ctx, name) matches Some(d) ==> d < ctx.len() && ctx[ctx.len() - 1 - d]
            == name,
    decreases ctx.len(),
{
    if ctx.len() == 0 {
    } else if ctx.last() == name {
        assert(ctx[ctx.len() - 1] == name);
    } else {
        let front = ctx.drop_last();
        lemma_distance_defined(front, name);
        if ctx.contains(name) {
            let i = choose|i: int| 0 <= i < ctx.len() && ctx[i] == name;
            assert(front[i] == name);
        }
        if front.contains(name) {
            let i = choose|i: int| 0 <= i < front.len() && front[i] == name;
            assert(ctx[i] == name);
        }
    }
}

/// The distance of a name in a context made of two parts: the one it has
/// in the inner part, or the one it has in the outer part and the length
/// of the inner part.
pub open spec fn distance_in_parts(outer: Seq<Name>, inner: Seq<Name>, name: Name) -> Option<nat> {
    match binder_distance(inner, name) {
        Some(distance) => Some(distance),
        None => match binder_distance(outer, name) {
            Some(distance) => Some(distance + inner.len()),
            None => None,
        },
    }
}

/// The distance of a name in a context made of two parts is found in the
/// inner part first.
pub proof fn lemma_distance_in_parts(outer: Seq<Name>, inner: Seq<Name>, name: Name)
    ensures
        binder_distance(outer + inner, name) == distance_in_parts(outer, inner, name),
    decreases inner.len(),
{
    if inner.len() == 0 {
        assert(outer + inner =~= outer);
    } else {
        let whole = outer + inner;
        assert(whole.last() == inner.last());
        assert(whole.drop_last() =~= outer + inner.drop_last());
        lemma_distance_in_parts(outer, inner.drop_last(), name);
    }
}

/// A term has a nameless form under a context exactly where the context
/// holds each of its free variables.
pub proof fn lemma_nameless_defined(term: Term, ctx: Seq<Name>)
    ensures
        nameless(term, ctx) is Ok <==> forall|name: Name|
            term.free_vars().contains(name) ==> ctx.contains(name),
        nameless(term, ctx) matches Err(name) ==> term.free_vars().contains(name)
            && !ctx.contains(name),
    decreases term,
{
    match term {
        Term::Lam(param, body) => {
            let inner = ctx.push(param);
            lemma_nameless_defined(*body, inner);
            assert forall|name: Name| inner.contains(name) <==> (ctx.contains(name) || name
                == param) by {
                if ctx.contains(name) {
                    let i = choose|i: int| 0 <= i < ctx.len() && ctx[i] == name;
                    assert(inner[i] == name);
                }
                if name == param {
                    assert(inner[ctx.len() as int] == name);
                }
            }
            if nameless(*body, inner) is Ok {
                assert forall|name: Name| term.free_vars().contains(name) implies ctx.contains(
                    name,
                ) by {
                    assert(body.free_vars().contains(name));
                }
            } else {
                let culprit = nameless(*body, inner)->Err_0;
                assert(term.free_vars().contains(culprit));
            }
        },
        Term::App(fun, arg) => {
            lemma_nameless_defined(*fun, ctx);
            lemma_nameless_defined(*arg, ctx);
        },
        Term::Var(name) => {
            lemma_distance_defined(ctx, name);
            assert(term.free_vars().contains(name));
        },
    }
}

/// A closed term has a nameless form.
pub proof fn lemma_closed_has_nameless(term: Term)
    requires
        term.closed(),
    ensures
        nameless(term, Seq::empty()) is Ok,
{
    lemma_nameless_defined(term, Seq::empty());
}

/// Sameness up to the names of binders is reflexive: a closed term is the
/// same as itself.
pub proof fn lemma_alpha_reflexive(a: Term)
    requires
        a.closed(),
    ensures
        alpha_equivalent(a, a) == Ok::<bool, Name>(true),
{
    lemma_closed_has_nameless(a);
}

/// Sameness up to the names of binders is symmetric.
pub proof fn lemma_alpha_symmetric(a: Term, b: Term)
    requires
        alpha_equivalent(a, b) is Ok,
    ensures
        alpha_equivalent(b, a) == alpha_equivalent(a, b),
{
}

/// Sameness up to the names of binders is transitive.
pub proof fn lemma_alpha_transitive(a: Term, b: Term, c: Term)
    requires
        alpha_equivalent(a, b) == Ok::<bool, Name>(true),
        alpha_equivalent(b, c) == Ok::<bool, Name>(true),
    ensures
        alpha_equivalent(a, c) == Ok::<bool, Name>(true),
{
}

/// Two terms are compared without failure exactly where both are closed.
pub proof fn lemma_alpha_defined(a: Term, b: Term)
    ensures
        alpha_equivalent(a, b) is Ok <==> a.closed() && b.closed(),
{
    lemma_nameless_defined(a, Seq::empty());
    lemma_nameless_defined(b, Seq::empty());
    let none = Seq::<Name>::empty();
    if nameless(a, none) is Ok {
        assert forall|name: Name| !a.free_vars().contains(name) by {
            assert(!none.contains(name));
        }
    }
    if nameless(b, none) is Ok {
        assert forall|name: Name| !b.free_vars().contains(name) by {
            assert(!none.contains(name));
        }
    }
}

proof fn lemma_distance_behind(ctx: Seq<Name>, name: Name, from: int)
    requires
        0 <= from <= ctx.len(),
        forall|k: int| from <= k < ctx.len() ==> ctx[k] != name,
    ensures
        binder_distance(ctx, name) == match binder_distance(ctx.subrange(0, from), name) {
            Some(distance) => Some((distance + ctx.len() - from) as nat),
            None => None,
        },
    decreases ctx.len() - from,
{
    if from == ctx.len() {
        assert(ctx.subrange(0, from) =~= ctx);
    } else {
        let front = ctx.drop_last();
        lemma_distance_behind(front, name, from);
        assert(front.subrange(0, from) =~= ctx.subrange(0, from));
    }
}

impl PartialEq for DeBrujin {
    fn eq(&self, other: &DeBrujin) -> (same: bool)
        decreases self,
    {
        match self {
            DeBrujin::Lam(body1) => match other {
                DeBrujin::Lam(body2) => (&**body1).eq(&**body2),
                _ => false,
            },
            DeBrujin::App(fun1, arg1) => match other {
                DeBrujin::App(fun2, arg2) => {
                    let same_fun = (&**fun1).eq(&**fun2);
                    let same_arg = (&**arg1).eq(&**arg2);
                    same_fun && same_arg
                },
                _ => false,
            },
            DeBrujin::Var(index1) => match other {
                DeBrujin::Var(index2) => *index1 == *index2,
                _ => false,
            },
        }
    }
}

impl Eq for DeBrujin {

}

impl vstd::std_specs::cmp::PartialEqSpecImpl for DeBrujin {
    open spec fn obeys_eq_spec() -> bool {
        true
    }

    open spec fn eq_spec(&self, other: &DeBrujin) -> bool {
        self@ == other@
    }
}

fn distance(ctx: &Vec<Id>, id: &Id) -> (found: Option<usize>)
    ensures
        match found {
            Some(d) => binder_distance(names_of(ctx@), id@) == Some(d as nat),
            None => binder_distance(names_of(ctx@), id@) is None,
        },
{
    let ghost all = names_of(ctx@);
    let mut i: usize = ctx.len();
    while i > 0
        invariant
            i <= ctx.len(),
            all == names_of(ctx@),
            forall|k: int| i <= k < ctx.len() ==> all[k] != id@,
        decreases i,
    {
        i -= 1;
        if ctx[i] == *id {
            proof {
                lemma_distance_behind(all, id@, i + 1);
                assert(all.subrange(0, i + 1).last() == id@);
            }
            return Some(ctx.len() - 1 - i);
        }
    }
    proof {
        lemma_distance_behind(all, id@, 0);
        assert(all.subrange(0, 0).len() == 0);
    }
    None
}

impl Expr {
    fn nameless_under(&self, ctx: &mut Vec<Id>) -> (out: Result<DeBrujin, UlcError>)
        ensures
            final(ctx)@ == old(ctx)@,
            match out {
                Ok(form) => nameless(self@, names_of(old(ctx)@)) == Ok::<Nameless, Name>(form@),
                Err(failure) => {
                    &&& nameless(self@, names_of(old(ctx)@)) is Err
                    &&& failure@ == Fault::UnboundVariable(
                        nameless(self@, names_of(old(ctx)@))->Err_0,
                    )
                },
            },
        decreases self,
    {
        match self {
            Expr::Lam(id, body) => {
                ctx.push(id.clone());
                assert(names_of(ctx@) =~= names_of(old(ctx)@).push(id@));
                let inner = body.nameless_under(ctx);
                ctx.pop();
                assert(ctx@ =~= old(ctx)@);
                match inner {
                    Ok(form) => Ok(DeBrujin::Lam(Box::new(form))),
                    Err(failure) => Err(failure),
                }
            },
            Expr::App(fun, arg) => {
                let left = match fun.nameless_under(ctx) {
                    Ok(form) => form,
                    Err(failure) => {
                        return Err(failure);
                    },
                };
                let right = match arg.nameless_under(ctx) {
                    Ok(form) => form,
                    Err(failure) => {
                        return Err(failure);
                    },
                };
                Ok(DeBrujin::App(Box::new(left), Box::new(right)))
            },
            Expr::Var(id) => match distance(ctx, id) {
                Some(d) => Ok(DeBrujin::Var(d)),
                None => Err(UlcError::UnboundVariable(id.clone())),
            },
        }
    }

    /// The nameless form of the term under the binders `ctx`, listed from
    /// the outermost to the innermost. It fails on the first variable, from
    /// the left, that nothing binds.
    pub fn debrujin_with(&self, ctx: &Vec<Id>) -> (out: Result<DeBrujin, UlcError>)
        ensures
            out is Ok <==> forall|name: Name|
                self@.free_vars().contains(name) ==> names_of(ctx@).contains(name),
            match out {
                Ok(form) => nameless(self@, names_of(ctx@)) == Ok::<Nameless, Name>(form@),
                Err(failure) => {
                    &&& nameless(self@, names_of(ctx@)) is Err
                    &&& failure@ == Fault::UnboundVariable(
                        nameless(self@, names_of(ctx@))->Err_0,
                    )
                },
            },
    {
        let mut binders: Vec<Id> = Vec::new();
        let mut i: usize = 0;
        while i < ctx.len()
            invariant
                i <= ctx.len(),
                binders.len() == i,
                forall|k: int| 0 <= k < i ==> binders[k]@ == ctx[k]@,
            decreases ctx.len() - i,
        {
            binders.push(ctx[i].clone());
            i += 1;
        }
        assert(names_of(binders@) =~= names_of(ctx@));
        proof {
            lemma_nameless_defined(self@, names_of(ctx@));
        }
        self.nameless_under(&mut binders)
    }

    /// The nameless form of a closed term. It fails on the first variable,
    /// from the left, that nothing binds.
    pub fn debrujin(&self) -> (out: Result<DeBrujin, UlcError>)
        ensures
            out is Ok <==> self@.closed(),
            match out {
                Ok(form) => nameless(self@, Seq::empty()) == Ok::<Nameless, Name>(form@),
                Err(failure) => {
                    &&& nameless(self@, Seq::empty()) is Err
                    &&& failure@ == Fault::UnboundVariable(nameless(self@, Seq::empty())->Err_0)
                },
            },
    {
        let mut binders: Vec<Id> = Vec::new();
        assert(names_of(binders@) =~= Seq::empty());
        proof {
            lemma_alpha_defined(self@, self@);
        }
        self.nameless_under(&mut binders)
    }

    /// Whether two closed terms are the same up to the names of their
    /// binders. Nothing is reduced.
    pub fn exact_equivalence(&self, other: &Expr) -> (out: Result<bool, UlcError>)
        ensures
            out is Ok <==> self@.closed() && other@.closed(),
            match out {
                Ok(same) => alpha_equivalent(self@, other@) == Ok::<bool, Name>(same),
                Err(failure) => {
                    &&& alpha_equivalent(self@, other@) is Err
                    &&& failure@ == Fault::UnboundVariable(alpha_equivalent(self@, other@)->Err_0)
                },
            },
    {
        proof {
            lemma_alpha_defined(self@, other@);
        }
        let left = match self.debrujin() {
            Ok(form) => form,
            Err(failure) => {
                return Err(failure);
            },
        };
        let right = match other.debrujin() {
            Ok(form) => form,
            Err(failure) => {
                return Err(failure);
            },
        };
        Ok(left == right)
    }

    /// Whether two terms reduce to terms that are the same up to the names
    /// of their binders. Each is reduced within `limit` steps, this term
    /// first.
    pub fn equivalence(&self, other: &Expr, names: &mut NameSupply, limit: u64) -> (out: Result<
        bool,
        UlcError,
    >)
        ensures
            final(names).issued() == beta_equivalent(
                self@,
                other@,
                old(names).issued(),
                limit as nat,
            ).1,
            match out {
                Ok(same) => beta_equivalent(self@, other@, old(names).issued(), limit as nat).0
                    == Ok::<bool, Fault>(same),
                Err(failure) => beta_equivalent(
                    self@,
                    other@,
                    old(names).issued(),
                    limit as nat,
                ).0 == Err::<bool, Fault>(failure@),
            },
    {
        let left = match self.full_reduction(names, limit) {
            Ok(fixed) => fixed,
            Err(failure) => {
                return Err(failure);
            },
        };
        let right = match other.full_reduction(names, limit) {
            Ok(fixed) => fixed,
            Err(failure) => {
                return Err(failure);
            },
        };
        left.exact_equivalence(&right)
    }
}

} // verus!
