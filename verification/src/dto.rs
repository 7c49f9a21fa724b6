//! Domain value types carried between the acquisition pipelines, the bus and
//! the display formatter.
//!
//! Monetary amounts and measured quantities are held as fixed-point integers
//! (hundredths of the unit), so that the codec and the formatting rules are
//! exact.
use vstd::prelude::*;

verus! {

/// Coarse classification of the current energy price relative to a trailing
/// average, as carried on the bus. `NoneLevel` stands for absent or
/// unrecognized upstream data; its wire tag is `"None"`.
#[derive(Clone, Copy, PartialEq, Eq, Structural, Debug)]
pub enum PriceLevel {
    Cheap,
    Expensive,
    Normal,
    VeryCheap,
    VeryExpensive,
    NoneLevel,
}

/// Instantaneous power draw in watts; negative values mean export. No value
/// range is enforced beyond integer representability.
#[derive(Clone, Copy, PartialEq, Eq, Structural, Debug)]
pub struct Consumption {
    pub consumption: i32,
}

/// Largest magnitude (exclusive) a `Decimal` may hold: fifteen integer
/// digits plus two fraction digits.
pub const DECIMAL_BOUND: i64 = 100_000_000_000_000_000;

/// A measured quantity held as a count of hundredths: `hundredths ==
/// 1234` stands for `12.34`. Encoding spells it with exactly two decimal
/// places; decoding accepts any JSON number text, rounded to hundredths.
#[derive(Clone, Copy, PartialEq, Eq, Structural, Debug)]
pub struct Decimal {
    pub hundredths: i64,
}

impl Decimal {
    /// A `Decimal` is representable when its magnitude stays under
    /// [`DECIMAL_BOUND`], which keeps every arithmetic step of the pipelines
    /// inside `i64`.
    pub open spec fn wf(self) -> bool {
        -DECIMAL_BOUND < self.hundredths < DECIMAL_BOUND
    }

    /// Runtime check of representability, for callers that receive a
    /// value from outside.
    pub fn is_representable(&self) -> (r: bool)
        ensures
            r == self.wf(),
    {
        -DECIMAL_BOUND < self.hundredths && self.hundredths < DECIMAL_BOUND
    }
}

/// Current spot electricity price: total currency amount and its level
/// classification.
#[derive(Clone, Copy, PartialEq, Eq, Structural, Debug)]
pub struct PriceInformation {
    pub total: Decimal,
    pub level: PriceLevel,
}

} // verus!
