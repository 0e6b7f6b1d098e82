use vstd::prelude::*;

verus! {

/// The one way a decode can fail.
#[derive(Debug, Clone, Copy, PartialEq, Eq, Structural)]
pub enum Error {
    /// Fewer bytes remain than the value needs, or an absolute offset lies
    /// at or past the end of the buffer.
    Overflow,
}

} // verus!
