//! What the match finder needs to know of a backend: its minimum match length, its maximum
//! match distance and the hash that it files history under.

use vstd::prelude::*;

use crate::idx::wrap32;

verus! {

/// Multiplicative hash constant (2^32 divided by the golden ratio).
pub const HASH_MUL: u32 = 0x9E37_79B1;

/// The largest match distance of the FSE backend.
pub const FSE_MAX_MATCH_DISTANCE: u32 = 262139;

/// The largest match distance of the VN backend.
pub const VN_MAX_MATCH_DISTANCE: u32 = 0xFFFF;

pub trait MatchUnit {
    /// The hash of a four byte word.
    spec fn spec_hash(u: u32) -> u32;

    /// The minimum match length.
    spec fn spec_match_unit() -> u32;

    /// The maximum match distance.
    spec fn spec_max_match_distance() -> u32;

    /// The bounds that every backend keeps.
    proof fn lemma_bounds()
        ensures
            3 <= Self::spec_match_unit() <= 4,
            0 < Self::spec_max_match_distance() <= FSE_MAX_MATCH_DISTANCE,
    ;

    fn hash_u(u: u32) -> (r: u32)
        ensures
            r == Self::spec_hash(u),
    ;

    fn match_unit() -> (r: u32)
        ensures
            r == Self::spec_match_unit(),
            3 <= r <= 4,
    ;

    fn max_match_distance() -> (r: u32)
        ensures
            r == Self::spec_max_match_distance(),
            0 < r <= FSE_MAX_MATCH_DISTANCE,
    ;
}

/// The FSE backend: matches of four bytes or more, hashed on four bytes.
pub struct FseUnit;

/// The VN backend: matches of three bytes or more, hashed on three bytes.
pub struct VnUnit;

impl MatchUnit for FseUnit {
    open spec fn spec_hash(u: u32) -> u32 {
        wrap32(u * HASH_MUL)
    }

    open spec fn spec_match_unit() -> u32 {
        4
    }

    open spec fn spec_max_match_distance() -> u32 {
        FSE_MAX_MATCH_DISTANCE
    }

    proof fn lemma_bounds() {
    }

    fn hash_u(u: u32) -> (r: u32) {
        u.wrapping_mul(HASH_MUL)
    }

    fn match_unit() -> (r: u32) {
        4
    }

    fn max_match_distance() -> (r: u32) {
        FSE_MAX_MATCH_DISTANCE
    }
}

impl MatchUnit for VnUnit {
    open spec fn spec_hash(u: u32) -> u32 {
        wrap32((u & 0x00FF_FFFF) * HASH_MUL)
    }

    open spec fn spec_match_unit() -> u32 {
        3
    }

    open spec fn spec_max_match_distance() -> u32 {
        VN_MAX_MATCH_DISTANCE
    }

    proof fn lemma_bounds() {
    }

    fn hash_u(u: u32) -> (r: u32) {
        (u & 0x00FF_FFFF).wrapping_mul(HASH_MUL)
    }

    fn match_unit() -> (r: u32) {
        3
    }

    fn max_match_distance() -> (r: u32) {
        VN_MAX_MATCH_DISTANCE
    }
}

} // verus!
