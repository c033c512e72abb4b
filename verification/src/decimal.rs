//! Exact signed fixed-point amounts.
//!
//! Every ledger balance and custody total is a `Decimal`: a signed count of
//! atto-units, where one whole token is `ATTO_PER_UNIT` atto-units. All
//! arithmetic is checked; nothing wraps or saturates silently.

use vstd::prelude::*;

verus! {

/// Number of atto-units in one whole token.
pub const ATTO_PER_UNIT: i128 = 1_000_000_000_000_000_000;

/// Exact signed fixed-point amount with 18 fractional decimal digits.
#[derive(Clone, Copy, PartialEq, Eq, Structural, Debug)]
pub struct Decimal {
    atto: i128,
}

impl View for Decimal {
    type V = int;

    closed spec fn view(&self) -> int {
        self.atto as int
    }
}

/// Every `Decimal` holds an `i128` count of atto-units, so its value is in
/// `i128`'s range.
pub broadcast proof fn lemma_decimal_range(d: Decimal)
    ensures
        i128::MIN <= #[trigger] d@ <= i128::MAX,
{
}

impl Decimal {
    /// The zero amount: the identity of addition and the floor of every
    /// ledger balance.
    pub fn zero() -> (r: Decimal)
        ensures
            r@ == 0,
    {
        Decimal { atto: 0 }
    }

    /// The amount of `atto` atto-units.
    pub fn from_atto(atto: i128) -> (r: Decimal)
        ensures
            r@ == atto as int,
    {
        Decimal { atto }
    }

    /// The raw atto-unit count.
    pub fn atto(&self) -> (r: i128)
        ensures
            r as int == self@,
    {
        self.atto
    }

    /// Checked addition: `None` exactly when the exact sum does not fit.
    pub fn checked_add(self, other: Decimal) -> (r: Option<Decimal>)
        ensures
            self@ + other@ < i128::MIN || self@ + other@ > i128::MAX ==> r is None,
            i128::MIN <= self@ + other@ <= i128::MAX ==> (r matches Some(s) && s@ == self@ + other@),
    {
        match self.atto.checked_add(other.atto) {
            Some(a) => Some(Decimal { atto: a }),
            None => None,
        }
    }

    /// Checked subtraction: `None` exactly when the exact difference does
    /// not fit.
    pub fn checked_sub(self, other: Decimal) -> (r: Option<Decimal>)
        ensures
            self@ - other@ < i128::MIN || self@ - other@ > i128::MAX ==> r is None,
            i128::MIN <= self@ - other@ <= i128::MAX ==> (r matches Some(s) && s@ == self@ - other@),
    {
        match self.atto.checked_sub(other.atto) {
            Some(a) => Some(Decimal { atto: a }),
            None => None,
        }
    }

    /// The smaller of the two amounts.
    pub fn min(self, other: Decimal) -> (r: Decimal)
        ensures
            r@ == if self@ <= other@ { self@ } else { other@ },
    {
        if self.atto <= other.atto {
            self
        } else {
            other
        }
    }

    /// Whether this amount is strictly greater than zero.
    pub fn is_positive(&self) -> (r: bool)
        ensures
            r == (self@ > 0),
    {
        self.atto > 0
    }

    /// Whether this amount is exactly zero.
    pub fn is_zero(&self) -> (r: bool)
        ensures
            r == (self@ == 0),
    {
        self.atto == 0
    }

    /// Whether this amount is negative.
    pub fn is_negative(&self) -> (r: bool)
        ensures
            r == (self@ < 0),
    {
        self.atto < 0
    }

    /// Whether `self <= other`.
    pub fn le(&self, other: &Decimal) -> (r: bool)
        ensures
            r == (self@ <= other@),
    {
        self.atto <= other.atto
    }

    /// Whether `self < other`.
    pub fn lt(&self, other: &Decimal) -> (r: bool)
        ensures
            r == (self@ < other@),
    {
        self.atto < other.atto
    }
}

} // verus!
