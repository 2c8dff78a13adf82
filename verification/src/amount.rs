//! Atomic MINI units, wide enough for century-scale supply accounting.
use crate::economy_error::EconomyError;
use vstd::prelude::*;

verus! {

/// An amount of micro-MINI.
#[derive(Debug, Clone, Copy, Default, PartialEq, Eq, PartialOrd, Ord, Hash, Structural)]
pub struct Amount(u128);

impl Amount {
    /// Micro-MINI per MINI.
    pub const MICRO_PER_MINI: u128 = 1_000_000;

    /// The number of micro-MINI.
    pub closed spec fn micro(self) -> u128 {
        self.0
    }

    /// Two amounts with the same number of micro-MINI are the same amount.
    pub proof fn lemma_ext(a: Amount, b: Amount)
        requires
            a.micro() == b.micro(),
        ensures
            a == b,
    {
    }

    /// The amount zero.
    pub fn zero() -> (a: Amount)
        ensures
            a.micro() == 0,
    {
        Amount(0)
    }

    pub fn from_micro(value: u128) -> (a: Amount)
        ensures
            a.micro() == value,
    {
        Amount(value)
    }

    pub fn as_micro(self) -> (v: u128)
        ensures
            v == self.micro(),
    {
        self.0
    }

    pub fn checked_add(self, other: Amount) -> (r: Result<Amount, EconomyError>)
        ensures
            self.micro() + other.micro() <= u128::MAX ==> (r matches Ok(s) && s.micro()
                == self.micro() + other.micro()),
            self.micro() + other.micro() > u128::MAX ==> r == Err::<Amount, EconomyError>(
                EconomyError::Overflow,
            ),
    {
        match self.0.checked_add(other.0) {
            Some(v) => Ok(Amount(v)),
            None => Err(EconomyError::Overflow),
        }
    }

    pub fn checked_sub(self, other: Amount) -> (r: Result<Amount, EconomyError>)
        ensures
            other.micro() <= self.micro() ==> (r matches Ok(s) && s.micro() == self.micro()
                - other.micro()),
            other.micro() > self.micro() ==> r == Err::<Amount, EconomyError>(
                EconomyError::Underflow,
            ),
    {
        match self.0.checked_sub(other.0) {
            Some(v) => Ok(Amount(v)),
            None => Err(EconomyError::Underflow),
        }
    }

    /// Widen a `u64` micro-MINI amount losslessly.
    pub fn from_u64(value: u64) -> (a: Amount)
        ensures
            a.micro() == value,
    {
        Amount(value as u128)
    }
}

impl From<u64> for Amount {
    fn from(value: u64) -> (a: Amount)
        ensures
            a.micro() == value,
    {
        Amount::from_u64(value)
    }
}

impl vstd::std_specs::convert::FromSpecImpl<u64> for Amount {
    open spec fn obeys_from_spec() -> bool {
        true
    }

    open spec fn from_spec(v: u64) -> Amount {
        Amount::spec_widen(v)
    }
}

impl Amount {
    /// The amount holding `v` micro-MINI.
    pub closed spec fn spec_widen(v: u64) -> Amount {
        Amount(v as u128)
    }

    /// Widening keeps the micro-MINI value.
    pub broadcast proof fn lemma_widen(v: u64)
        ensures
            #[trigger] Amount::spec_widen(v).micro() == v,
    {
    }
}

} // verus!
