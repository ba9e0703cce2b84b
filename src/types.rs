//! Fixed-point scalars for prices and volumes.
//!
//! Both are counted in millionths of a whole unit, so `Price::new(2_500_000)`
//! is a price of 2.5. Every stored value stays within `[-BOUND, BOUND]`,
//! which keeps the sum or difference of two stored values inside an `i64`.
use vstd::prelude::*;

verus! {

/// Largest magnitude of a stored price or volume.
pub const BOUND: i64 = 4_000_000_000_000_000_000;

/// Number of fixed-point units in one whole unit.
pub const UNITS_PER_WHOLE: i64 = 1_000_000;

/// Whether a value may be stored as a price or a volume.
pub open spec fn in_bound(x: int) -> bool {
    -BOUND <= x <= BOUND
}

/// A price, in millionths of a currency unit.
#[derive(Clone, Copy, Debug, PartialEq, Eq, Structural)]
pub struct Price {
    pub units: i64,
}

/// A traded quantity, in millionths of a goods unit.
#[derive(Clone, Copy, Debug, PartialEq, Eq, Structural)]
pub struct Volume {
    pub units: i64,
}

impl Price {
    /// The sentinel that stands for a price of minus infinity.
    pub fn min() -> (r: Price)
        ensures
            r.units == -BOUND,
    {
        Price { units: -BOUND }
    }

    /// The sentinel that stands for a price of plus infinity.
    pub fn max() -> (r: Price)
        ensures
            r.units == BOUND,
    {
        Price { units: BOUND }
    }

    pub fn zero() -> (r: Price)
        ensures
            r.units == 0,
    {
        Price { units: 0 }
    }

    pub fn new(units: i64) -> (r: Price)
        ensures
            r.units == units,
    {
        Price { units }
    }

    pub fn units(&self) -> (r: i64)
        ensures
            r == self.units,
    {
        self.units
    }

    pub fn abs(&self) -> (r: Price)
        requires
            self.units > i64::MIN,
        ensures
            r.units == if self.units > 0 { self.units as int } else { -self.units },
    {
        if self.units > 0 {
            *self
        } else {
            Price { units: -self.units }
        }
    }
}

impl Volume {
    /// The sentinel that stands for a volume of minus infinity.
    pub fn min() -> (r: Volume)
        ensures
            r.units == -BOUND,
    {
        Volume { units: -BOUND }
    }

    /// The sentinel that stands for a volume of plus infinity.
    pub fn max() -> (r: Volume)
        ensures
            r.units == BOUND,
    {
        Volume { units: BOUND }
    }

    pub fn zero() -> (r: Volume)
        ensures
            r.units == 0,
    {
        Volume { units: 0 }
    }

    pub fn new(units: i64) -> (r: Volume)
        ensures
            r.units == units,
    {
        Volume { units }
    }

    pub fn units(&self) -> (r: i64)
        ensures
            r == self.units,
    {
        self.units
    }

    pub fn abs(&self) -> (r: Volume)
        requires
            self.units > i64::MIN,
        ensures
            r.units == if self.units > 0 { self.units as int } else { -self.units },
    {
        if self.units > 0 {
            *self
        } else {
            Volume { units: -self.units }
        }
    }
}

} // verus!
