//! The sizes of the encoder's rings.

use vstd::prelude::*;

use crate::ring::RingType;

verus! {

/// The encoder's input ring.
pub struct Input;

impl RingType for Input {
    open spec fn spec_ring_size() -> u32 {
        0x0008_0000
    }

    open spec fn spec_ring_limit() -> u32 {
        0x0140
    }

    open spec fn spec_ring_blk_size() -> u32 {
        0x0000_4000
    }

    fn ring_size() -> (r: u32) {
        0x0008_0000
    }

    fn ring_limit() -> (r: u32) {
        0x0140
    }

    fn ring_blk_size() -> (r: u32) {
        0x0000_4000
    }
}

/// The encoder's output ring.
pub struct Output;

impl RingType for Output {
    open spec fn spec_ring_size() -> u32 {
        0x0002_0000
    }

    open spec fn spec_ring_limit() -> u32 {
        0x0400
    }

    open spec fn spec_ring_blk_size() -> u32 {
        0x2000
    }

    fn ring_size() -> (r: u32) {
        0x0002_0000
    }

    fn ring_limit() -> (r: u32) {
        0x0400
    }

    fn ring_blk_size() -> (r: u32) {
        0x2000
    }
}

} // verus!
