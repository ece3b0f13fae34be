use vstd::prelude::*;

verus! {

/// Why decoding failed.
#[derive(Debug, Clone, Copy, PartialEq, Eq, Structural)]
pub enum Error {
    /// The input ends before the declared number of items.
    Eof,
    /// The input holds bytes that no encoder writes.
    Invalid,
}

} // verus!
