//! Two-valued logic: the plainest value type a circuit can be evaluated over.

use vstd::prelude::*;
use core::ops::Not;
use crate::traits::LogicOps;

verus! {

/// One bit.
#[derive(Clone, Copy, Debug, PartialEq, Eq, Structural)]
pub enum Binary {
    Zero,
    One,
}

impl Binary {
    /// The bit as a truth value.
    pub open spec fn on(self) -> bool {
        self == Binary::One
    }

    /// The bit that stands for a truth value.
    pub open spec fn of(on: bool) -> Binary {
        if on {
            Binary::One
        } else {
            Binary::Zero
        }
    }

    /// The bit as a number: 0 or 1.
    pub fn as_u32(&self) -> (u: u32)
        ensures
            u == if self.on() {
                1u32
            } else {
                0u32
            },
    {
        match self {
            Binary::Zero => 0,
            Binary::One => 1,
        }
    }

    /// The bit for a number: `Zero` for 0, `One` for any other.
    pub fn from_u32(u: u32) -> (b: Binary)
        ensures
            b == Binary::of(u != 0),
    {
        if u == 0 {
            Binary::Zero
        } else {
            Binary::One
        }
    }
}

impl Not for Binary {
    type Output = Self;

    /// The other bit.
    fn not(self) -> (b: Self::Output) {
        Binary::from_u32(1 - self.as_u32())
    }
}

impl vstd::std_specs::ops::NotSpecImpl for Binary {
    open spec fn obeys_not_spec() -> bool {
        true
    }

    open spec fn not_req(self) -> bool {
        true
    }

    open spec fn not_spec(self) -> Self::Output {
        Binary::of(!self.on())
    }
}

impl LogicOps for Binary {
    open spec fn nand_spec(&self, rhs: &Self) -> Self {
        Binary::of(!(self.on() && rhs.on()))
    }

    open spec fn and_spec(&self, rhs: &Self) -> Self {
        Binary::of(self.on() && rhs.on())
    }

    open spec fn nor_spec(&self, rhs: &Self) -> Self {
        Binary::of(!(self.on() || rhs.on()))
    }

    open spec fn or_spec(&self, rhs: &Self) -> Self {
        Binary::of(self.on() || rhs.on())
    }

    open spec fn nxor_spec(&self, rhs: &Self) -> Self {
        Binary::of(self.on() == rhs.on())
    }

    open spec fn xor_spec(&self, rhs: &Self) -> Self {
        Binary::of(self.on() != rhs.on())
    }

    open spec fn not_spec(&self) -> Self {
        Binary::of(!self.on())
    }

    fn lgc_nand(&self, rhs: &Self) -> Self {
        Self::lgc_not(&Self::lgc_and(self, rhs))
    }

    fn lgc_and(&self, rhs: &Self) -> Self {
        let (a, b) = (self.as_u32(), rhs.as_u32());
        assert(a & b == if a == 1 && b == 1 {
            1u32
        } else {
            0u32
        }) by (bit_vector)
            requires
                a <= 1,
                b <= 1,
        ;
        Binary::from_u32(a & b)
    }

    fn lgc_nor(&self, rhs: &Self) -> Self {
        Self::lgc_not(&Self::lgc_or(self, rhs))
    }

    fn lgc_or(&self, rhs: &Self) -> Self {
        let (a, b) = (self.as_u32(), rhs.as_u32());
        assert(a | b == if a == 1 || b == 1 {
            1u32
        } else {
            0u32
        }) by (bit_vector)
            requires
                a <= 1,
                b <= 1,
        ;
        Binary::from_u32(a | b)
    }

    fn lgc_nxor(&self, rhs: &Self) -> Self {
        Self::lgc_not(&Self::lgc_xor(self, rhs))
    }

    fn lgc_xor(&self, rhs: &Self) -> Self {
        let (a, b) = (self.as_u32(), rhs.as_u32());
        assert(a ^ b == if a != b {
            1u32
        } else {
            0u32
        }) by (bit_vector)
            requires
                a <= 1,
                b <= 1,
        ;
        Binary::from_u32(a ^ b)
    }

    fn lgc_not(&self) -> Self {
        (*self).not()
    }
}

} // verus!
