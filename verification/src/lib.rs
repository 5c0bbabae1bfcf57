//! The untyped lambda calculus: named terms, capture-avoiding substitution,
//! normal-order reduction and equality up to the spelling of bound names.
//!
//! The executable part works on [`term::Expr`]. Every function of it has a
//! contract over the mathematical model [`term::Term`]:
//!
//! - [`subst`]: free variables and substitution, which renames a binder
//!   that would capture to an identifier of the [`names::NameSupply`];
//! - [`reduce`]: one step of reduction, and steps up to a fixed point;
//! - [`alpha`]: the nameless form of a term, and the two equivalences;
//! - [`numeral`] and [`lcterms`]: Church numerals, booleans and pairs;
//! - [`render`]: terms as text.
//!
//! The rest is proved of the model alone:
//!
//! - [`simulation`]: substitution and reduction are right up to the names
//!   of binders, whatever the supply hands out;
//! - [`renaming`]: the state of the supply matters to a run only through
//!   the names it hands out, so full reduction is idempotent;
//! - [`church`]: what pairs, successor, sum and product reduce to.

pub mod alpha;
pub mod church;
pub mod error;
pub mod lcterms;
pub mod names;
pub mod numeral;
pub mod reduce;
pub mod renaming;
pub mod render;
pub mod simulation;
pub mod subst;
pub mod term;
mod unfold;
