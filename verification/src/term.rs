//! Terms of the calculus, in named and in nameless form, and their
//! mathematical models.

use vstd::prelude::*;

verus! {

/// An identifier, as contracts see it.
pub type Name = Seq<char>;

/// The mathematical model of a named term.
pub enum Term {
    Lam(Name, Box<Term>),
    App(Box<Term>, Box<Term>),
    Var(Name),
}

/// The mathematical model of a nameless term: a variable is the number of
/// binders between its occurrence and the binder it refers to.
pub enum Nameless {
    Lam(Box<Nameless>),
    App(Box<Nameless>, Box<Nameless>),
    Var(nat),
}

impl Term {
    /// The number of nodes of the term.
    pub open spec fn size(self) -> nat
        decreases self,
    {
        match self {
            Term::Lam(_, body) => 1 + body.size(),
            Term::App(fun, arg) => 1 + fun.size() + arg.size(),
            Term::Var(_) => 1,
        }
    }

    /// The names that occur as a variable outside every binder of that name.
    pub open spec fn free_vars(self) -> Set<Name>
        decreases self,
    {
        match self {
            Term::Lam(param, body) => body.free_vars().remove(param),
            Term::App(fun, arg) => fun.free_vars().union(arg.free_vars()),
            Term::Var(name) => set![name],
        }
    }

    /// Every name that the term holds, as a binder or as a variable.
    pub open spec fn names(self) -> Set<Name>
        decreases self,
    {
        match self {
            Term::Lam(param, body) => body.names().insert(param),
            Term::App(fun, arg) => fun.names().union(arg.names()),
            Term::Var(name) => set![name],
        }
    }

    /// A term without free variables.
    pub open spec fn closed(self) -> bool {
        forall|name: Name| !self.free_vars().contains(name)
    }
}

/// The abstraction that binds `param` in `body`.
pub open spec fn lam(param: Name, body: Term) -> Term {
    Term::Lam(param, Box::new(body))
}

/// The application of `fun` to `arg`.
pub open spec fn app(fun: Term, arg: Term) -> Term {
    Term::App(Box::new(fun), Box::new(arg))
}

/// The variable called `name`.
pub open spec fn var(name: Name) -> Term {
    Term::Var(name)
}

/// An identifier: any string, none reserved.
pub type Id = String;

/// A named term.
#[derive(Debug)]
pub enum Expr {
    Lam(Id, Box<Expr>),
    App(Box<Expr>, Box<Expr>),
    Var(Id),
}

/// A nameless term.
#[derive(Debug)]
pub enum DeBrujin {
    Lam(Box<DeBrujin>),
    App(Box<DeBrujin>, Box<DeBrujin>),
    Var(usize),
}

impl View for Expr {
    type V = Term;

    open spec fn view(&self) -> Term
        decreases self,
    {
        match self {
            Expr::Lam(id, body) => Term::Lam(id@, Box::new((**body).view())),
            Expr::App(fun, arg) => Term::App(Box::new((**fun).view()), Box::new((**arg).view())),
            Expr::Var(id) => Term::Var(id@),
        }
    }
}

impl View for DeBrujin {
    type V = Nameless;

    open spec fn view(&self) -> Nameless
        decreases self,
    {
        match self {
            DeBrujin::Lam(body) => Nameless::Lam(Box::new((**body).view())),
            DeBrujin::App(fun, arg) => Nameless::App(
                Box::new((**fun).view()),
                Box::new((**arg).view()),
            ),
            DeBrujin::Var(index) => Nameless::Var(*index as nat),
        }
    }
}

impl Clone for Expr {
    fn clone(&self) -> (copy: Self)
        ensures
            copy == *self,
        decreases self,
    {
        match self {
            Expr::Lam(id, body) => Expr::Lam(id.clone(), Box::new((&**body).clone())),
            Expr::App(fun, arg) => Expr::App(
                Box::new((&**fun).clone()),
                Box::new((&**arg).clone()),
            ),
            Expr::Var(id) => Expr::Var(id.clone()),
        }
    }
}

impl PartialEq for Expr {
    fn eq(&self, other: &Expr) -> (same: bool)
        decreases self,
    {
        match self {
            Expr::Lam(id1, body1) => match other {
                Expr::Lam(id2, body2) => {
                    let same_id = *id1 == *id2;
                    let same_body = (&**body1).eq(&**body2);
                    same_id && same_body
                },
                _ => false,
            },
            Expr::App(fun1, arg1) => match other {
                Expr::App(fun2, arg2) => {
                    let same_fun = (&**fun1).eq(&**fun2);
                    let same_arg = (&**arg1).eq(&**arg2);
                    same_fun && same_arg
                },
                _ => false,
            },
            Expr::Var(id1) => match other {
                Expr::Var(id2) => *id1 == *id2,
                _ => false,
            },
        }
    }
}

impl Eq for Expr {

}

impl vstd::std_specs::cmp::PartialEqSpecImpl for Expr {
    open spec fn obeys_eq_spec() -> bool {
        true
    }

    open spec fn eq_spec(&self, other: &Expr) -> bool {
        self@ == other@
    }
}

impl Expr {
    /// The application of this term to `other`.
    pub fn apply(&self, other: &Expr) -> (e: Expr)
        ensures
            e@ == app(self@, other@),
    {
        Expr::App(Box::new(self.clone()), Box::new(other.clone()))
    }

    /// The abstraction that binds `id` in `expr`.
    pub fn lambda(id: &str, expr: Expr) -> (e: Expr)
        ensures
            e@ == lam(id@, expr@),
    {
        Expr::Lam(id.to_owned(), Box::new(expr))
    }

    /// The variable called `id`.
    pub fn var(id: &str) -> (e: Expr)
        ensures
            e@ == var(id@),
    {
        Expr::Var(id.to_owned())
    }
}

} // verus!
