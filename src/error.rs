//! The codec's error kinds.

use vstd::prelude::*;

verus! {

/// Why a payload was refused.
#[derive(Clone, Copy, Debug, PartialEq, Eq, Structural)]
pub enum Error {
    /// Bits above the declared end of a bit stream are set.
    BadBitStream,
    /// A bit stream, or a payload, was not consumed exactly.
    PayloadUnderflow,
    /// A payload ran past its end.
    PayloadOverflow,
    /// An unknown magic or a truncated block header.
    BadBlock,
    /// A raw block is shorter than its header declares.
    BadRawByteCount,
    /// A block whose payload size disagrees with its parts.
    BadPayloadCount,
    /// A malformed VN opcode.
    BadOpcode,
    /// A VN payload that does not decode to its declared length.
    BadPayload,
    /// The input is too large for this engine.
    BufferOverflow,
    /// An FSE weight table that does not decode, or totals more than its states.
    BadWeightPayload,
    /// An FSE literal count out of range, or literals that run out.
    BadLiteralCount,
    /// An FSE literal state out of range, or not back at zero at the end.
    BadLiteralState,
    /// An FSE LMD count out of range.
    BadLmdCount,
    /// An FSE LMD payload that decodes to triples that do not fit the block.
    BadLmdPayload,
    /// An FSE LMD state out of range, or not back at zero at the end.
    BadLmdState,
}

} // verus!
