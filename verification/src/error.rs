use vstd::prelude::*;

verus! {

/// Why an operation of the dictionary was refused.
#[derive(Clone, Copy, Debug, PartialEq, Eq, Structural)]
pub enum TrieError {
    /// The text holds a character outside the alphabet.
    InvalidCharacter,
    /// A structural parameter given at construction was zero.
    InvalidConfiguration,
}

} // verus!
