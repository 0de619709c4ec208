//! The errors of this library.

use vstd::prelude::*;

verus! {

/// Why an operation was not carried out.
#[derive(Debug)]
pub enum ModelError {
    /// The tensor library refused.
    Tensor(candle_core::Error),
    /// An array has another number of axes than the operation is for.
    Rank,
    /// The rows of an array have another length than the operation is for.
    Width,
    /// The number of elements of an array does not fit in a `usize`.
    TooLarge,
    /// The operation is for another kind of numbers.
    Kind,
    /// The operands do not lie in the memory of the same device.
    Place,
    /// The elements do not lie side by side.
    Scattered,
    /// There is nothing to make an array of.
    EmptyArray,
    /// The candidates have no probability at all.
    NoMass,
    /// The weights of the candidates are no probabilities.
    Weights,
    /// The answer does not belong to what was asked.
    Protocol,
}

} // verus!
