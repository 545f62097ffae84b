//! The value algebra that a gate network is evaluated over.

use vstd::prelude::*;

verus! {

/// The seven primitive operations a logic value has to supply.
///
/// Every operation is a pure function: the executable method returns exactly
/// what its specification counterpart names. An implementation outside this
/// crate is taken at its word on that.
pub trait LogicOps: Sized {
    spec fn nand_spec(&self, rhs: &Self) -> Self;

    spec fn and_spec(&self, rhs: &Self) -> Self;

    spec fn nor_spec(&self, rhs: &Self) -> Self;

    spec fn or_spec(&self, rhs: &Self) -> Self;

    spec fn nxor_spec(&self, rhs: &Self) -> Self;

    spec fn xor_spec(&self, rhs: &Self) -> Self;

    spec fn not_spec(&self) -> Self;

    fn lgc_nand(&self, rhs: &Self) -> (r: Self)
        ensures
            r == self.nand_spec(rhs),
    ;

    fn lgc_and(&self, rhs: &Self) -> (r: Self)
        ensures
            r == self.and_spec(rhs),
    ;

    fn lgc_nor(&self, rhs: &Self) -> (r: Self)
        ensures
            r == self.nor_spec(rhs),
    ;

    fn lgc_or(&self, rhs: &Self) -> (r: Self)
        ensures
            r == self.or_spec(rhs),
    ;

    fn lgc_nxor(&self, rhs: &Self) -> (r: Self)
        ensures
            r == self.nxor_spec(rhs),
    ;

    fn lgc_xor(&self, rhs: &Self) -> (r: Self)
        ensures
            r == self.xor_spec(rhs),
    ;

    fn lgc_not(&self) -> (r: Self)
        ensures
            r == self.not_spec(),
    ;
}

} // verus!
