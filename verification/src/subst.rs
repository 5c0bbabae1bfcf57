//! Free variables and capture-avoiding substitution.

use crate::names::{fresh_name, NameSupply};
use crate::term::{Expr, Id, Name, Term};
use vstd::prelude::*;

verus! {

/// The set of the identifiers that a vector holds.
pub open spec fn name_set(ids: Seq<Id>) -> Set<Name> {
    Set::new(|name: Name| exists|i: int| 0 <= i < ids.len() && #[trigger] ids[i]@ == name)
}

/// `term` with `replacement` in place of every free occurrence of `name`,
/// and the number of identifiers handed out once that is done, when
/// `count` were handed out before.
///
/// A binder that would capture a free variable of `replacement` gets the
/// next identifier of the supply first. Renaming a binder keeps the size
/// of its body, so the test on the size is always met: it is there for the
/// definition to be well-founded.
pub open spec fn substitute(term: Term, name: Name, replacement: Term, count: nat) -> (Term, nat)
    decreases term.size(),
{
    match term {
        Term::Var(n) => if n == name {
            (replacement, count)
        } else {
            (term, count)
        },
        Term::App(fun, arg) => {
            let left = substitute(*fun, name, replacement, count);
            let right = substitute(*arg, name, replacement, left.1);
            (Term::App(Box::new(left.0), Box::new(right.0)), right.1)
        },
        Term::Lam(param, body) => if param == name {
            (term, count)
        } else if !replacement.free_vars().contains(param) {
            let inner = substitute(*body, name, replacement, count);
            (Term::Lam(param, Box::new(inner.0)), inner.1)
        } else {
            let fresh = fresh_name(count + 1);
            let renamed = substitute(*body, param, Term::Var(fresh), count + 1);
            if renamed.0.size() == body.size() {
                let inner = substitute(renamed.0, name, replacement, renamed.1);
                (Term::Lam(fresh, Box::new(inner.0)), inner.1)
            } else {
                (term, count)
            }
        },
    }
}

/// Putting a variable in place of a variable keeps the size of the term.
pub proof fn lemma_rename_keeps_size(term: Term, name: Name, to: Name, count: nat)
    ensures
        substitute(term, name, Term::Var(to), count).0.size() == term.size(),
    decreases term.size(),
{
    let replacement = Term::Var(to);
    match term {
        Term::Var(n) => {},
        Term::App(fun, arg) => {
            lemma_rename_keeps_size(*fun, name, to, count);
            let left = substitute(*fun, name, replacement, count);
            lemma_rename_keeps_size(*arg, name, to, left.1);
        },
        Term::Lam(param, body) => {
            if param == name {
            } else if !replacement.free_vars().contains(param) {
                lemma_rename_keeps_size(*body, name, to, count);
            } else {
                let fresh = fresh_name(count + 1);
                lemma_rename_keeps_size(*body, param, fresh, count + 1);
                let renamed = substitute(*body, param, Term::Var(fresh), count + 1);
                lemma_rename_keeps_size(renamed.0, name, to, renamed.1);
            }
        },
    }
}

/// A substitution never gives an identifier back to the supply.
pub proof fn lemma_substitute_count_grows(term: Term, name: Name, replacement: Term, count: nat)
    ensures
        substitute(term, name, replacement, count).1 >= count,
    decreases term.size(),
{
    match term {
        Term::Var(_) => {},
        Term::App(fun, arg) => {
            lemma_substitute_count_grows(*fun, name, replacement, count);
            let left = substitute(*fun, name, replacement, count);
            lemma_substitute_count_grows(*arg, name, replacement, left.1);
        },
        Term::Lam(param, body) => {
            if param == name {
            } else if !replacement.free_vars().contains(param) {
                lemma_substitute_count_grows(*body, name, replacement, count);
            } else {
                let fresh = fresh_name(count + 1);
                lemma_rename_keeps_size(*body, param, fresh, count + 1);
                lemma_substitute_count_grows(*body, param, Term::Var(fresh), count + 1);
                let renamed = substitute(*body, param, Term::Var(fresh), count + 1);
                lemma_substitute_count_grows(renamed.0, name, replacement, renamed.1);
            }
        },
    }
}

/// What the definition says where a binder would capture: the binder and
/// the variables that refer to it get the next identifier of the supply,
/// and the substitution goes on in the renamed body. The test on the size
/// is met.
pub proof fn lemma_substitute_under_renamed_binder(
    param: Name,
    body: Term,
    name: Name,
    replacement: Term,
    count: nat,
)
    requires
        param != name,
        replacement.free_vars().contains(param),
    ensures
        substitute(Term::Lam(param, Box::new(body)), name, replacement, count) == ({
            let fresh = fresh_name(count + 1);
            let renamed = substitute(body, param, Term::Var(fresh), count + 1);
            let inner = substitute(renamed.0, name, replacement, renamed.1);
            (Term::Lam(fresh, Box::new(inner.0)), inner.1)
        }),
{
    lemma_rename_keeps_size(body, param, fresh_name(count + 1), count + 1);
}

/// A substitution that leaves the supply as it stands has renamed no
/// binder, and gives the same term whatever the supply has handed out.
pub proof fn lemma_substitute_without_names(
    term: Term,
    name: Name,
    replacement: Term,
    count: nat,
    other: nat,
)
    requires
        substitute(term, name, replacement, count).1 == count,
    ensures
        substitute(term, name, replacement, other) == (
            substitute(term, name, replacement, count).0,
            other,
        ),
    decreases term.size(),
{
    match term {
        Term::Var(_) => {},
        Term::App(fun, arg) => {
            let left = substitute(*fun, name, replacement, count);
            lemma_substitute_count_grows(*fun, name, replacement, count);
            lemma_substitute_count_grows(*arg, name, replacement, left.1);
            lemma_substitute_without_names(*fun, name, replacement, count, other);
            lemma_substitute_without_names(*arg, name, replacement, count, other);
        },
        Term::Lam(param, body) => {
            if param == name {
            } else if !replacement.free_vars().contains(param) {
                lemma_substitute_without_names(*body, name, replacement, count, other);
            } else {
                let fresh = fresh_name(count + 1);
                lemma_rename_keeps_size(*body, param, fresh, count + 1);
                lemma_substitute_count_grows(*body, param, Term::Var(fresh), count + 1);
                let renamed = substitute(*body, param, Term::Var(fresh), count + 1);
                lemma_substitute_count_grows(renamed.0, name, replacement, renamed.1);
            }
        },
    }
}

/// Putting a closed term in place of a variable renames no binder: the
/// supply is left as it stands, and the free variables of the result are
/// those of the term but for the variable that was replaced.
pub proof fn lemma_substitute_closed(term: Term, name: Name, replacement: Term, count: nat)
    requires
        replacement.closed(),
    ensures
        substitute(term, name, replacement, count).1 == count,
        substitute(term, name, replacement, count).0.free_vars() == term.free_vars().remove(
            name,
        ),
    decreases term.size(),
{
    let out = substitute(term, name, replacement, count).0;
    match term {
        Term::Var(n) => {
            assert(out.free_vars() =~= term.free_vars().remove(name));
        },
        Term::App(fun, arg) => {
            lemma_substitute_closed(*fun, name, replacement, count);
            lemma_substitute_closed(*arg, name, replacement, count);
            assert(out.free_vars() =~= term.free_vars().remove(name));
        },
        Term::Lam(param, body) => {
            if param == name {
                assert(out.free_vars() =~= term.free_vars().remove(name));
            } else {
                lemma_substitute_closed(*body, name, replacement, count);
                assert(out.free_vars() =~= term.free_vars().remove(name));
            }
        },
    }
}

/// Putting a closed term in place of a variable that is not free in the
/// term leaves the term, and the supply, as they are.
pub proof fn lemma_substitute_absent(term: Term, name: Name, replacement: Term, count: nat)
    requires
        replacement.closed(),
        !term.free_vars().contains(name),
    ensures
        substitute(term, name, replacement, count) == (term, count),
    decreases term.size(),
{
    match term {
        Term::Var(_) => {},
        Term::App(fun, arg) => {
            lemma_substitute_absent(*fun, name, replacement, count);
            lemma_substitute_absent(*arg, name, replacement, count);
        },
        Term::Lam(param, body) => {
            if param != name {
                lemma_substitute_absent(*body, name, replacement, count);
            }
        },
    }
}

/// The supply has handed out `count` identifiers and will hand out none of
/// `names`.
pub open spec fn ahead_of(count: nat, names: Set<Name>) -> bool {
    forall|k: nat| k > count ==> !names.contains(#[trigger] fresh_name(k))
}

/// The identifiers that the supply hands out after the first `from` and up
/// to the `to`-th.
pub open spec fn handed_out(from: nat, to: nat) -> Set<Name> {
    Set::new(|name: Name| exists|k: nat| from < k <= to && name == #[trigger] fresh_name(k))
}

/// A longer stretch of the supply holds every identifier of a shorter one
/// inside it.
pub proof fn lemma_handed_out_widens(from: nat, to: nat, wider_from: nat, wider_to: nat)
    requires
        wider_from <= from,
        to <= wider_to,
    ensures
        handed_out(from, to).subset_of(handed_out(wider_from, wider_to)),
{
    assert forall|n: Name| handed_out(from, to).contains(n) implies handed_out(
        wider_from,
        wider_to,
    ).contains(n) by {
        let k = choose|k: nat| from < k <= to && n == fresh_name(k);
        assert(wider_from < k <= wider_to && n == fresh_name(k));
    }
}

/// Substitution does not capture: where the supply will hand out none of
/// the names in play, the free variables of the result are those of the
/// term but for the variable that was replaced, and where that variable
/// was free in the term, those of the replacement. The result holds no
/// name but those in play and those handed out meanwhile, so the supply
/// stays ahead of it.
pub proof fn lemma_substitute_free_vars(term: Term, name: Name, replacement: Term, count: nat)
    requires
        ahead_of(count, term.names().union(replacement.names()).insert(name)),
    ensures
        substitute(term, name, replacement, count).0.free_vars() == if term.free_vars().contains(
            name,
        ) {
            term.free_vars().remove(name).union(replacement.free_vars())
        } else {
            term.free_vars()
        },
        substitute(term, name, replacement, count).0.names().subset_of(
            term.names().union(replacement.names()).union(
                handed_out(count, substitute(term, name, replacement, count).1),
            ),
        ),
        ahead_of(
            substitute(term, name, replacement, count).1,
            substitute(term, name, replacement, count).0.names(),
        ),
    decreases term.size(),
{
    let out = substitute(term, name, replacement, count);
    let expected = if term.free_vars().contains(name) {
        term.free_vars().remove(name).union(replacement.free_vars())
    } else {
        term.free_vars()
    };
    let in_play = term.names().union(replacement.names()).insert(name);
    let allowed = term.names().union(replacement.names()).union(handed_out(count, out.1));
    lemma_substitute_count_grows(term, name, replacement, count);
    lemma_free_vars_are_names(replacement);
    assert forall|k: nat| k > count implies !term.names().contains(#[trigger] fresh_name(k))
        && !replacement.names().contains(fresh_name(k)) && fresh_name(k) != name by {
        assert(!in_play.contains(fresh_name(k)));
    }
    match term {
        Term::Var(n) => {
            assert(out.0.free_vars() =~= expected);
            assert(out.0.names().subset_of(allowed));
        },
        Term::App(fun, arg) => {
            let left = substitute(*fun, name, replacement, count);
            let right = substitute(*arg, name, replacement, left.1);
            lemma_substitute_count_grows(*fun, name, replacement, count);
            lemma_substitute_count_grows(*arg, name, replacement, left.1);
            assert(ahead_of(count, fun.names().union(replacement.names()).insert(name)));
            lemma_substitute_free_vars(*fun, name, replacement, count);
            assert(ahead_of(left.1, arg.names().union(replacement.names()).insert(name)));
            lemma_substitute_free_vars(*arg, name, replacement, left.1);
            assert(out.0.free_vars() =~= expected);
            lemma_handed_out_widens(count, left.1, count, out.1);
            lemma_handed_out_widens(left.1, right.1, count, out.1);
            assert(out.0.names() =~= left.0.names().union(right.0.names()));
            assert(out.0.names().subset_of(allowed));
        },
        Term::Lam(param, body) => {
            lemma_free_vars_are_names(*body);
            if param == name {
                assert(out.0.free_vars() =~= expected);
                assert(out.0.names().subset_of(allowed));
            } else if !replacement.free_vars().contains(param) {
                let inner = substitute(*body, name, replacement, count);
                assert(ahead_of(count, body.names().union(replacement.names()).insert(name)));
                lemma_substitute_free_vars(*body, name, replacement, count);
                assert(out.0.free_vars() =~= expected);
                assert(out.0.names() =~= inner.0.names().insert(param));
                assert(out.0.names().subset_of(allowed));
            } else {
                let fresh = fresh_name(count + 1);
                let to_fresh = Term::Var(fresh);
                assert forall|k: nat| k > count + 1 implies #[trigger] fresh_name(k) != fresh by {
                    if fresh_name(k) == fresh {
                        crate::names::lemma_fresh_name_injective(k, count + 1);
                    }
                }
                lemma_rename_keeps_size(*body, param, fresh, count + 1);
                assert(ahead_of(count + 1, body.names().union(to_fresh.names()).insert(param)));
                lemma_substitute_free_vars(*body, param, to_fresh, count + 1);
                let renamed = substitute(*body, param, to_fresh, count + 1);
                lemma_substitute_count_grows(*body, param, to_fresh, count + 1);
                assert(ahead_of(
                    renamed.1,
                    renamed.0.names().union(replacement.names()).insert(name),
                ));
                lemma_substitute_free_vars(renamed.0, name, replacement, renamed.1);
                let inner = substitute(renamed.0, name, replacement, renamed.1);
                lemma_substitute_count_grows(renamed.0, name, replacement, renamed.1);
                assert(out == (Term::Lam(fresh, Box::new(inner.0)), inner.1));
                assert(!body.free_vars().contains(fresh));
                assert(!replacement.free_vars().contains(fresh));
                assert(renamed.0.free_vars().contains(name) == body.free_vars().contains(name));
                assert(out.0.free_vars() =~= expected);
                lemma_handed_out_widens(count + 1, renamed.1, count, out.1);
                lemma_handed_out_widens(renamed.1, inner.1, count, out.1);
                assert(handed_out(count, out.1).contains(fresh_name(count + 1)));
                assert(out.0.names() =~= inner.0.names().insert(fresh));
                assert(to_fresh.names() =~= set![fresh]);
                assert(out.0.names().subset_of(allowed));
            }
        },
    }
}

/// A free variable of a term is one of its names.
pub proof fn lemma_free_vars_are_names(term: Term)
    ensures
        term.free_vars().subset_of(term.names()),
    decreases term,
{
    match term {
        Term::Var(_) => {},
        Term::App(fun, arg) => {
            lemma_free_vars_are_names(*fun);
            lemma_free_vars_are_names(*arg);
        },
        Term::Lam(_, body) => {
            lemma_free_vars_are_names(*body);
        },
    }
}

fn holds(ids: &Vec<Id>, id: &Id) -> (found: bool)
    ensures
        found == name_set(ids@).contains(id@),
{
    let mut i: usize = 0;
    while i < ids.len()
        invariant
            i <= ids.len(),
            forall|k: int| 0 <= k < i ==> ids[k]@ != id@,
        decreases ids.len() - i,
    {
        if ids[i] == *id {
            return true;
        }
        i += 1;
    }
    false
}

fn without(ids: &Vec<Id>, id: &Id) -> (kept: Vec<Id>)
    ensures
        name_set(kept@) == name_set(ids@).remove(id@),
{
    let mut kept: Vec<Id> = Vec::new();
    let mut i: usize = 0;
    while i < ids.len()
        invariant
            i <= ids.len(),
            name_set(kept@) == name_set(ids@.subrange(0, i as int)).remove(id@),
        decreases ids.len() - i,
    {
        let ghost before = kept@;
        if ids[i] != *id {
            kept.push(ids[i].clone());
        }
        i += 1;
        proof {
            let seen = ids@.subrange(0, i as int);
            let earlier = ids@.subrange(0, i - 1);
            assert forall|n: Name| name_set(kept@).contains(n) == name_set(seen).remove(
                id@,
            ).contains(n) by {
                if name_set(kept@).contains(n) {
                    let k = choose|k: int| 0 <= k < kept@.len() && kept@[k]@ == n;
                    if k < before.len() {
                        assert(before[k]@ == n);
                        assert(name_set(before).contains(n));
                        let j = choose|j: int| 0 <= j < earlier.len() && earlier[j]@ == n;
                        assert(seen[j]@ == n);
                    } else {
                        assert(seen[i - 1]@ == n);
                    }
                }
                if name_set(seen).remove(id@).contains(n) {
                    let j = choose|j: int| 0 <= j < seen.len() && seen[j]@ == n;
                    if j < i - 1 {
                        assert(earlier[j]@ == n);
                        assert(name_set(earlier).remove(id@).contains(n));
                        let k = choose|k: int| 0 <= k < before.len() && before[k]@ == n;
                        assert(kept@[k]@ == n);
                    } else {
                        assert(kept@[kept@.len() - 1]@ == n);
                    }
                }
            }
            assert(name_set(kept@) =~= name_set(seen).remove(id@));
        }
    }
    assert(ids@.subrange(0, i as int) =~= ids@);
    kept
}

impl Expr {
    /// The free variables of the term. A name may stand in the result more
    /// than once.
    pub fn fv(&self) -> (ids: Vec<Id>)
        ensures
            name_set(ids@) == self@.free_vars(),
        decreases self,
    {
        match self {
            Expr::Lam(id, body) => {
                let inner = body.fv();
                without(&inner, id)
            },
            Expr::App(fun, arg) => {
                let mut left = fun.fv();
                let mut right = arg.fv();
                let ghost l = left@;
                let ghost r = right@;
                left.append(&mut right);
                proof {
                    assert forall|n: Name| name_set(left@).contains(n) == name_set(l).union(
                        name_set(r),
                    ).contains(n) by {
                        if name_set(left@).contains(n) {
                            let k = choose|k: int| 0 <= k < left@.len() && left@[k]@ == n;
                            if k < l.len() {
                                assert(l[k]@ == n);
                            } else {
                                assert(r[k - l.len()]@ == n);
                            }
                        }
                        if name_set(l).contains(n) {
                            let k = choose|k: int| 0 <= k < l.len() && l[k]@ == n;
                            assert(left@[k]@ == n);
                        }
                        if name_set(r).contains(n) {
                            let k = choose|k: int| 0 <= k < r.len() && r[k]@ == n;
                            assert(left@[l.len() + k]@ == n);
                        }
                    }
                    assert(name_set(left@) =~= name_set(l).union(name_set(r)));
                }
                left
            },
            Expr::Var(id) => {
                let mut ids: Vec<Id> = Vec::new();
                ids.push(id.clone());
                proof {
                    assert(ids@[0]@ == id@);
                    assert(name_set(ids@) =~= set![id@]);
                }
                ids
            },
        }
    }

    /// Puts `e` in place of every free occurrence of `name`. A binder that
    /// would capture a free variable of `e` is renamed first, to the next
    /// identifier of `names`.
    pub fn substitution(&self, name: &Id, e: &Expr, names: &mut NameSupply) -> (out: Expr)
        ensures
            (out@, final(names).issued()) == substitute(
                self@,
                name@,
                e@,
                old(names).issued(),
            ),
        decreases self@.size(),
    {
        match self {
            Expr::Lam(id, body) => {
                if *id == *name {
                    self.clone()
                } else {
                    let free = e.fv();
                    if !holds(&free, id) {
                        Expr::Lam(id.clone(), Box::new(body.substitution(name, e, names)))
                    } else {
                        let fresh = names.fresh();
                        let renamed = body.substitution(id, &Expr::Var(fresh.clone()), names);
                        proof {
                            lemma_rename_keeps_size(
                                body@,
                                id@,
                                fresh@,
                                old(names).issued() + 1,
                            );
                        }
                        Expr::Lam(fresh, Box::new(renamed.substitution(name, e, names)))
                    }
                }
            },
            Expr::App(fun, arg) => {
                let left = fun.substitution(name, e, names);
                let right = arg.substitution(name, e, names);
                Expr::App(Box::new(left), Box::new(right))
            },
            Expr::Var(id) => {
                if *name == *id {
                    e.clone()
                } else {
                    self.clone()
                }
            },
        }
    }
}

} // verus!
