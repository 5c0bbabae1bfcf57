//! What the definitions say of a term whose outermost shape is known, one
//! level at a time: the steps of proofs about given terms.

use crate::reduce::{normal, reduce};
use crate::subst::substitute;
use crate::term::{app, lam, var, Name, Term};
use vstd::prelude::*;

verus! {

/// The letters that the terms of the library use as names are different
/// names.
pub(crate) proof fn lemma_letters()
    ensures
        "f"@ != "x"@,
        "f"@ != "n"@,
        "f"@ != "m"@,
        "f"@ != "p"@,
        "f"@ != "y"@,
        "x"@ != "n"@,
        "x"@ != "m"@,
        "x"@ != "p"@,
        "x"@ != "y"@,
        "n"@ != "m"@,
{
    reveal_strlit("f");
    reveal_strlit("x");
    reveal_strlit("y");
    reveal_strlit("n");
    reveal_strlit("m");
    reveal_strlit("p");
    assert("f"@[0] == 'f');
    assert("x"@[0] == 'x');
    assert("y"@[0] == 'y');
    assert("n"@[0] == 'n');
    assert("m"@[0] == 'm');
    assert("p"@[0] == 'p');
}

pub(crate) proof fn lemma_var_facts(name: Name)
    ensures
        var(name).free_vars() == set![name],
        normal(var(name)),
        !(var(name) is Lam),
        var(name).size() == 1,
{
}

pub(crate) proof fn lemma_app_facts(fun: Term, arg: Term)
    ensures
        app(fun, arg).free_vars() == fun.free_vars().union(arg.free_vars()),
        normal(app(fun, arg)) == (!(fun is Lam) && normal(fun) && normal(arg)),
        !(app(fun, arg) is Lam),
        app(fun, arg).size() == 1 + fun.size() + arg.size(),
{
}

pub(crate) proof fn lemma_lam_facts(param: Name, body: Term)
    ensures
        lam(param, body).free_vars() == body.free_vars().remove(param),
        normal(lam(param, body)) == normal(body),
        lam(param, body) is Lam,
        lam(param, body).size() == 1 + body.size(),
{
}

pub(crate) proof fn lemma_substitute_var(other: Name, name: Name, replacement: Term, count: nat)
    ensures
        substitute(var(other), name, replacement, count) == if other == name {
            (replacement, count)
        } else {
            (var(other), count)
        },
{
}

pub(crate) proof fn lemma_substitute_app(
    fun: Term,
    arg: Term,
    name: Name,
    replacement: Term,
    count: nat,
)
    ensures
        substitute(app(fun, arg), name, replacement, count) == ({
            let left = substitute(fun, name, replacement, count);
            let right = substitute(arg, name, replacement, left.1);
            (app(left.0, right.0), right.1)
        }),
{
}

pub(crate) proof fn lemma_substitute_lam(
    param: Name,
    body: Term,
    name: Name,
    replacement: Term,
    count: nat,
)
    requires
        param != name,
        !replacement.free_vars().contains(param),
    ensures
        substitute(lam(param, body), name, replacement, count) == ({
            let inner = substitute(body, name, replacement, count);
            (lam(param, inner.0), inner.1)
        }),
{
}

pub(crate) proof fn lemma_reduce_lam(param: Name, body: Term, count: nat)
    ensures
        reduce(lam(param, body), count) == (
            lam(param, reduce(body, count).0),
            reduce(body, count).1,
        ),
{
}

/// An application whose function has become an abstraction is contracted.
pub(crate) proof fn lemma_reduce_redex(
    fun: Term,
    arg: Term,
    param: Name,
    body: Term,
    arg_after: Term,
    count: nat,
)
    requires
        reduce(fun, count) == (lam(param, body), count),
        reduce(arg, count) == (arg_after, count),
    ensures
        reduce(app(fun, arg), count) == substitute(body, param, arg_after, count),
{
}

/// An application whose function has become no abstraction stays one.
pub(crate) proof fn lemma_reduce_stuck(
    fun: Term,
    arg: Term,
    fun_after: Term,
    arg_after: Term,
    count: nat,
)
    requires
        reduce(fun, count) == (fun_after, count),
        reduce(arg, count) == (arg_after, count),
        !(fun_after is Lam),
    ensures
        reduce(app(fun, arg), count) == (app(fun_after, arg_after), count),
{
}

} // verus!
