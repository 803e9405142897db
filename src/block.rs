//! The block stream: magic-tagged blocks, RAW and VN, ended by an end of stream magic.

use vstd::prelude::*;

use crate::frontend_bytes::cmds_bounded;
use crate::lmd::{cmds_valid, expand, Lmd};
use crate::match_unit::VnUnit;
use crate::vn::{eos_ops, vn_ops};

verus! {

/// `bvx-`: a raw block.
pub const RAW_MAGIC: u32 = 0x2D78_7662;

/// `bvxn`: a VN block.
pub const VN_MAGIC: u32 = 0x6E78_7662;

/// `bvx1`: an FSE block with a plain header.
pub const FSE1_MAGIC: u32 = 0x3178_7662;

/// `bvx2`: an FSE block with a compact header.
pub const FSE2_MAGIC: u32 = 0x3278_7662;

/// `bvx$`: the end of the stream.
pub const EOS_MAGIC: u32 = 0x2478_7662;

/// Inputs of this length or less go into a RAW block.
pub const RAW_CUTOFF: u32 = 0x0014;

/// Inputs of this length or less go into a VN block, or a RAW block where that is no longer.
pub const VN_CUTOFF: u32 = 0x1000;

pub const RAW_HEADER_SIZE: usize = 8;

pub const VN_HEADER_SIZE: usize = 12;

/// `v` as four bytes, little-endian.
pub open spec fn le32(v: u32) -> Seq<u8> {
    seq![(v % 256) as u8, ((v / 256) % 256) as u8, ((v / 65536) % 256) as u8, (v / 16777216) as u8]
}

/// A raw block holding `src`.
pub open spec fn raw_block(src: Seq<u8>) -> Seq<u8> {
    le32(RAW_MAGIC) + le32(src.len() as u32) + src
}

/// A VN block for `n_raw` bytes with opcode payload `payload`.
pub open spec fn vn_block(n_raw: nat, payload: Seq<u8>) -> Seq<u8> {
    le32(VN_MAGIC) + le32(n_raw as u32) + le32(payload.len() as u32) + payload
}

/// The number that four bytes make, little-endian.
pub open spec fn le32_value(s: Seq<u8>) -> int {
    s[0] + 256 * s[1] + 65536 * s[2] + 16777216 * s[3]
}

/// Four bytes, little-endian, read back give the number written.
pub proof fn lemma_le32_value(v: u32)
    ensures
        le32_value(le32(v)) == v,
{
    let b0 = v % 256;
    let b1 = (v / 256) % 256;
    let b2 = (v / 65536) % 256;
    let b3 = v / 16777216;
    assert(b0 + 256 * b1 + 65536 * b2 + 16777216 * b3 == v) by (bit_vector)
        requires
            b0 == v % 256,
            b1 == (v / 256) % 256,
            b2 == (v / 65536) % 256,
            b3 == v / 16777216,
    ;
}

/// Appends `v`, little-endian.
pub fn push_u32(dst: &mut Vec<u8>, v: u32)
    ensures
        final(dst)@ == old(dst)@ + le32(v),
{
    dst.push((v % 256) as u8);
    dst.push(((v / 256) % 256) as u8);
    dst.push(((v / 65536) % 256) as u8);
    dst.push((v / 16777216) as u8);
    assert(final(dst)@ =~= old(dst)@ + le32(v)) by {
        assert(dst@ =~= old(dst)@ + le32(v));
    }
}

/// Appends a raw block holding `src`.
pub fn raw_compress(dst: &mut Vec<u8>, src: &[u8])
    requires
        src@.len() <= u32::MAX,
    ensures
        final(dst)@ == old(dst)@ + raw_block(src@),
{
    push_u32(dst, RAW_MAGIC);
    push_u32(dst, src.len() as u32);
    crate::frontend_bytes::push_bytes(dst, src, 0, src.len());
    assert(src@.subrange(0, src@.len() as int) =~= src@);
    assert(dst@ =~= old(dst)@ + raw_block(src@));
}

/// The blocks that `src` may be encoded as for a VN sized input: a VN block whose opcodes
/// decode to `src`, where that is shorter than the raw block, else the raw block.
pub open spec fn vn_or_raw(src: Seq<u8>, out: Seq<u8>) -> bool {
    ||| out == raw_block(src)
    ||| exists|lits: Seq<u8>, cmds: Seq<Lmd>|
        {
            &&& expand(lits, cmds) == src
            &&& lits.len() == crate::lmd::lit_count(cmds)
            &&& cmds_valid(lits, cmds)
            &&& cmds_bounded::<VnUnit>(cmds)
            &&& #[trigger] vn_block(src.len(), vn_ops(lits, cmds) + eos_ops()) == out
            &&& VN_HEADER_SIZE + (vn_ops(lits, cmds) + eos_ops()).len() < src.len() + RAW_HEADER_SIZE
        }
}

} // verus!
