//! A verified core of an LZFSE codec.
//!
//! - `bits`: bit streams, written low bits first and read back last field first.
//! - `idx`, `history`, `match_unit`, `match_object`: the match finder's wrapping positions,
//!   its hashed history and the rule that weighs two candidate matches.
//! - `lmd`: literal length / match length / match distance triples and what they decode to.
//! - `frontend_bytes`, `frontend_ring`: the match finder over a whole input and over a stream.
//! - `block`, `vn`, `fse_weights`, `fse_encode`, `fse_block`: the block stream and its RAW, VN
//!   and FSE encoders.
//! - `fse_decode`, `decode`: the FSE decoding tables and the frame decoder.
//! - `ring`, `ring_config`: the shadowed ring buffer and its sizes.
//! - `encode`: the encoder over byte slices; `rng`: a deterministic generator of test data.

pub mod bits;
pub mod block;
pub mod decode;
pub mod encode;
pub mod error;
pub mod frontend_bytes;
pub mod frontend_ring;
pub mod fse_block;
pub mod fse_decode;
pub mod fse_encode;
pub mod fse_weights;
pub mod history;
pub mod idx;
pub mod lmd;
pub mod match_object;
pub mod match_unit;
pub mod ring;
pub mod ring_config;
pub mod rng;
pub mod vn;
pub mod vn_law;
pub mod fse_law;
