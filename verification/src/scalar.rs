//! The numeric capability that the kernels are generic over: a copyable
//! scalar with addition and multiplication. The mathematical meaning of the
//! two operations is given per implementation by `add_spec` / `mul_spec`,
//! so a kernel's contract pins the exact sequence of operations performed
//! without committing to one concrete scalar type.

use vstd::prelude::*;

verus! {

/// A scalar that the kernels can accumulate with: `+` and `*` as total
/// operations, each pinned to its own specification function.
pub trait Numeric: Sized + Copy {
    /// The mathematical meaning of `ring_add`.
    spec fn add_spec(self, rhs: Self) -> Self;

    /// The mathematical meaning of `ring_mul`.
    spec fn mul_spec(self, rhs: Self) -> Self;

    /// Addition; total (never panics, whatever the operands).
    fn ring_add(self, rhs: Self) -> (r: Self)
        ensures
            r == self.add_spec(rhs),
    ;

    /// Multiplication; total (never panics, whatever the operands).
    fn ring_mul(self, rhs: Self) -> (r: Self)
        ensures
            r == self.mul_spec(rhs),
    ;
}

impl Numeric for i64 {
    open spec fn add_spec(self, rhs: i64) -> i64 {
        vstd::wrapping::i64_specs::wrapping_add(self, rhs)
    }

    open spec fn mul_spec(self, rhs: i64) -> i64 {
        vstd::wrapping::i64_specs::wrapping_mul(self, rhs)
    }

    fn ring_add(self, rhs: i64) -> (r: i64) {
        self.wrapping_add(rhs)
    }

    fn ring_mul(self, rhs: i64) -> (r: i64) {
        self.wrapping_mul(rhs)
    }
}

} // verus!
