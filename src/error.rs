//! The ways in which a request to the arena can be refused.
use vstd::prelude::*;

verus! {

/// Why a request was refused. A refused request leaves the arena unchanged.
#[derive(Debug, Clone, Copy, PartialEq, Eq, Structural)]
pub enum ArenaError {
    /// The element type has size zero.
    UnsupportedType,
    /// The alignment is zero or not a power of two.
    InvalidAlignment,
    /// A size, a layout or the arena's byte counts would not fit in `usize`.
    Overflow,
}

} // verus!
