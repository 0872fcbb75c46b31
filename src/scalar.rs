use vstd::prelude::*;

verus! {

/// A number type that a calculator computes with. Each exec method is tied to a
/// spec function of the same meaning, so that what a calculator returns can be
/// stated over those functions for every implementation.
pub trait Scalar: Sized + Copy {
    /// The identity of addition.
    spec fn spec_zero() -> Self;

    /// The identity of multiplication.
    spec fn spec_one() -> Self;

    spec fn spec_add(a: Self, b: Self) -> Self;

    spec fn spec_mul(a: Self, b: Self) -> Self;

    spec fn spec_neg(a: Self) -> Self;

    /// The position among a mux rule's inputs that a selector value picks: the
    /// selector counts from zero over the inputs that follow it, so the position
    /// is the selector plus one, truncated to an integer. A selector below zero
    /// gives position zero, the selector itself, which a mux treats as out of
    /// range.
    spec fn spec_mux_position(a: Self) -> usize;

    fn zero() -> (r: Self)
        ensures
            r == Self::spec_zero(),
    ;

    fn one() -> (r: Self)
        ensures
            r == Self::spec_one(),
    ;

    fn add(a: Self, b: Self) -> (r: Self)
        ensures
            r == Self::spec_add(a, b),
    ;

    fn mul(a: Self, b: Self) -> (r: Self)
        ensures
            r == Self::spec_mul(a, b),
    ;

    fn neg(a: Self) -> (r: Self)
        ensures
            r == Self::spec_neg(a),
    ;

    fn mux_position(a: Self) -> (r: usize)
        ensures
            r == Self::spec_mux_position(a),
    ;
}

/// Integers compute with two's-complement wrapping arithmetic.
impl Scalar for i64 {
    open spec fn spec_zero() -> Self {
        0
    }

    open spec fn spec_one() -> Self {
        1
    }

    open spec fn spec_add(a: Self, b: Self) -> Self {
        a.wrapping_add(b)
    }

    open spec fn spec_mul(a: Self, b: Self) -> Self {
        a.wrapping_mul(b)
    }

    open spec fn spec_neg(a: Self) -> Self {
        0i64.wrapping_sub(a)
    }

    open spec fn spec_mux_position(a: Self) -> usize {
        if a < 0 {
            0
        } else if a + 1 > usize::MAX {
            usize::MAX
        } else {
            (a + 1) as usize
        }
    }

    fn zero() -> (r: Self) {
        0
    }

    fn one() -> (r: Self) {
        1
    }

    fn add(a: Self, b: Self) -> (r: Self) {
        a.wrapping_add(b)
    }

    fn mul(a: Self, b: Self) -> (r: Self) {
        a.wrapping_mul(b)
    }

    fn neg(a: Self) -> (r: Self) {
        0i64.wrapping_sub(a)
    }

    fn mux_position(a: Self) -> (r: usize) {
        if a < 0 {
            0
        } else if (a as u128) + 1 > usize::MAX as u128 {
            usize::MAX
        } else {
            ((a as u128) + 1) as usize
        }
    }
}

} // verus!
