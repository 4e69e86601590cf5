//! What a decoding step comes to: a result, a refusal (`None`), or a read
//! past the end of its input, which the functions that promise not to panic
//! leave out by their `requires`.
use vstd::prelude::*;

verus! {

pub enum Outcome<T> {
    Success(T),
    Failure,
    Overrun,
}

/// Decoding would read past the end of its input.
#[derive(Debug, PartialEq, Eq)]
pub struct Overrun;

} // verus!
