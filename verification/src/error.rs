//! The ways in which an operation on terms can fail.

use crate::term::{Id, Name};
use vstd::prelude::*;

verus! {

/// The mathematical model of an [`UlcError`].
pub enum Fault {
    UnboundVariable(Name),
    NotANumeral,
    NumeralTooLarge,
    StepLimit,
}

/// Why an operation gave no result.
#[derive(Debug, PartialEq, Eq)]
pub enum UlcError {
    /// The variable of this name stands under no binder of that name.
    UnboundVariable(Id),
    /// The term is not of the shape of a Church numeral.
    NotANumeral,
    /// The term is a Church numeral, of a number beyond `u32::MAX`.
    NumeralTooLarge,
    /// The term reached no fixed point within the steps allowed.
    StepLimit,
}

impl View for UlcError {
    type V = Fault;

    open spec fn view(&self) -> Fault {
        match self {
            UlcError::UnboundVariable(id) => Fault::UnboundVariable(id@),
            UlcError::NotANumeral => Fault::NotANumeral,
            UlcError::NumeralTooLarge => Fault::NumeralTooLarge,
            UlcError::StepLimit => Fault::StepLimit,
        }
    }
}

} // verus!
