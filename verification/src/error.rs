//! The ways in which coding a block can fail.

use vstd::prelude::*;

verus! {

/// Why an operation of the library gave no result.
#[derive(Clone, Copy, Debug, PartialEq, Eq, Structural)]
pub enum Error {
    /// The coded stream ended, or held what no encoder writes.
    Io,
    /// A size, a model name or a decoded value lies outside its bounds.
    InvalidInput,
}

} // verus!
