//! Terms written out as text, with every pair of parentheses.

use crate::names::{decimal, decimal_string};
use crate::term::{DeBrujin, Expr, Nameless, Term};
use vstd::prelude::*;
use vstd::string::StringExecFns;

verus! {

/// The text of a named term: `(λp. body)` for an abstraction, `(fun arg)`
/// for an application, and the bare name for a variable.
pub open spec fn render(term: Term) -> Seq<char>
    decreases term,
{
    match term {
        Term::Lam(param, body) => seq!['(', 'λ'] + param + seq!['.', ' '] + render(*body) + seq![
            ')',
        ],
        Term::App(fun, arg) => seq!['('] + render(*fun) + seq![' '] + render(*arg) + seq![')'],
        Term::Var(name) => name,
    }
}

/// The text of a nameless term: `(λ. body)` for an abstraction,
/// `(fun arg)` for an application, and the index in decimal for a
/// variable.
pub open spec fn render_nameless(term: Nameless) -> Seq<char>
    decreases term,
{
    match term {
        Nameless::Lam(body) => seq!['(', 'λ', '.', ' '] + render_nameless(*body) + seq![')'],
        Nameless::App(fun, arg) => seq!['('] + render_nameless(*fun) + seq![' ']
            + render_nameless(*arg) + seq![')'],
        Nameless::Var(index) => decimal(index),
    }
}

impl Expr {
    /// The term as text.
    pub fn to_string(&self) -> (text: String)
        ensures
            text@ == render(self@),
        decreases self,
    {
        proof {
            reveal_strlit("(λ");
            reveal_strlit(". ");
            reveal_strlit("(");
            reveal_strlit(" ");
            reveal_strlit(")");
        }
        match self {
            Expr::Lam(id, body) => {
                let inner = body.to_string();
                let mut text = String::from_str("(λ");
                text.append(id.as_str());
                text.append(". ");
                text.append(inner.as_str());
                text.append(")");
                assert(text@ =~= render(self@));
                text
            },
            Expr::App(fun, arg) => {
                let left = fun.to_string();
                let right = arg.to_string();
                let mut text = String::from_str("(");
                text.append(left.as_str());
                text.append(" ");
                text.append(right.as_str());
                text.append(")");
                assert(text@ =~= render(self@));
                text
            },
            Expr::Var(id) => id.clone(),
        }
    }
}

impl DeBrujin {
    /// The term as text.
    pub fn to_string(&self) -> (text: String)
        ensures
            text@ == render_nameless(self@),
        decreases self,
    {
        proof {
            reveal_strlit("(λ. ");
            reveal_strlit("(");
            reveal_strlit(" ");
            reveal_strlit(")");
        }
        match self {
            DeBrujin::Lam(body) => {
                let inner = body.to_string();
                let mut text = String::from_str("(λ. ");
                text.append(inner.as_str());
                text.append(")");
                assert(text@ =~= render_nameless(self@));
                text
            },
            DeBrujin::App(fun, arg) => {
                let left = fun.to_string();
                let right = arg.to_string();
                let mut text = String::from_str("(");
                text.append(left.as_str());
                text.append(" ");
                text.append(right.as_str());
                text.append(")");
                assert(text@ =~= render_nameless(self@));
                text
            },
            DeBrujin::Var(index) => decimal_string(*index),
        }
    }
}

} // verus!
