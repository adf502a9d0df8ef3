use vstd::prelude::*;

verus! {

/// A non-negative monetary amount with six decimal places of precision,
/// stored as an integer count of millionths of the currency unit.
#[derive(Clone, Copy, Debug, PartialEq, Eq, Structural)]
pub struct Money {
    pub micros: u64,
}

/// Number of millionths in one whole currency unit.
pub const MONEY_SCALE: u64 = 1000000;

} // verus!
