//! Wrapping 32-bit positions.

use vstd::prelude::*;

verus! {

/// u32 quarter bounds.
pub const Q0: u32 = 0x0000_0000;

pub const Q1: u32 = 0x4000_0000;

pub const Q2: u32 = 0x8000_0000;

pub const Q3: u32 = 0xC000_0000;

/// The value of `x` taken modulo 2^32.
pub open spec fn wrap32(x: int) -> u32 {
    (x % 0x1_0000_0000) as u32
}

/// A position that wraps modulo 2^32.
#[derive(Clone, Copy, Debug, Default, PartialEq, Eq, Structural)]
pub struct Idx {
    pub val: u32,
}

impl Idx {
    pub fn new(val: u32) -> (r: Idx)
        ensures
            r.val == val,
    {
        Idx { val }
    }

    /// `self + n`, wrapping.
    pub fn wrapping_add(self, n: u32) -> (r: Idx)
        ensures
            r.val == wrap32(self.val + n),
    {
        Idx { val: self.val.wrapping_add(n) }
    }

    /// `self - n`, wrapping.
    pub fn wrapping_sub(self, n: u32) -> (r: Idx)
        ensures
            r.val == wrap32(self.val - n),
    {
        Idx { val: self.val.wrapping_sub(n) }
    }

    /// The unsigned distance `self - other`, wrapping.
    pub fn distance(self, other: Idx) -> (r: u32)
        ensures
            r == wrap32(self.val - other.val),
    {
        self.val.wrapping_sub(other.val)
    }
}

impl Idx {
    /// `self <= other` in the wrapping order: `other - self` as a signed delta is not negative.
    pub open spec fn le_spec(self, other: Idx) -> bool {
        wrap32(other.val - self.val) < Q2
    }

    pub fn le(self, other: Idx) -> (r: bool)
        ensures
            r == self.le_spec(other),
    {
        other.distance(self) < Q2
    }
}

/// `a - b >= Q3`: `a` lies behind `b` by at most a quarter of the index space.
pub open spec fn is_wrapping_spec(a: Idx, b: Idx) -> bool {
    wrap32(a.val - b.val) >= Q3
}

pub fn is_wrapping(a: Idx, b: Idx) -> (r: bool)
    ensures
        r == is_wrapping_spec(a, b),
{
    a.distance(b) >= Q3
}

} // verus!
