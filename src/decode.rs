//! The decoder over byte slices: RAW, VN and compact FSE blocks up to the end of stream magic.

use vstd::prelude::*;

use crate::block::{le32, le32_value, raw_block, EOS_MAGIC, FSE1_MAGIC, FSE2_MAGIC, RAW_MAGIC, VN_MAGIC};
use crate::error::Error;
use crate::fse_block::{Literals, Lmds, LITERALS_PER_BLOCK, LMDS_PER_BLOCK};
use crate::fse_decode::{Decoder, Weights};
use crate::fse_weights::{wsum, D_SYMBOLS, L_SYMBOLS, M_SYMBOLS, U_SYMBOLS};
use crate::lmd::{copy_match, LmdPack};
use vstd::slice::slice_subrange;

verus! {

/// The largest output that the decoder produces: the longest a `Vec<u8>` can be.
pub const DECODE_LIMIT: usize = isize::MAX as usize;

/// Reads four bytes at `pos`, little-endian, where there are four.
fn read_u32(src: &[u8], pos: usize) -> (r: Option<u32>)
    ensures
        r.is_some() <==> pos + 4 <= src@.len(),
        r matches Some(v) ==> v == le32_value(src@.subrange(pos as int, pos + 4)),
{
    if pos > src.len() || src.len() - pos < 4 {
        None
    } else {
        let b0 = src[pos] as u32;
        let b1 = src[pos + 1] as u32;
        let b2 = src[pos + 2] as u32;
        let b3 = src[pos + 3] as u32;
        let v = b0 | (b1 << 8) | (b2 << 16) | (b3 << 24);
        assert(v == b0 + 256 * b1 + 65536 * b2 + 16777216 * b3) by (bit_vector)
            requires
                v == b0 | (b1 << 8) | (b2 << 16) | (b3 << 24),
                b0 < 256,
                b1 < 256,
                b2 < 256,
                b3 < 256,
        ;
        Some(v)
    }
}

/// Appends a match of `m` bytes from `d` bytes back, the copy reading what it writes.
pub fn copy_back(dst: &mut Vec<u8>, d: usize, m: usize)
    requires
        1 <= d <= old(dst)@.len(),
    ensures
        final(dst)@ == copy_match(old(dst)@, d as nat, m as nat),
{
    let start = dst.len() - d;
    let mut k: usize = 0;
    while k < m
        invariant
            k <= m,
            start + d == old(dst)@.len(),
            1 <= d,
            dst@.len() == old(dst)@.len() + k,
            dst@ == copy_match(old(dst)@, d as nat, k as nat),
        decreases m - k,
    {
        let cur = dst.len();
        let b = dst[cur - d];
        proof {
            let o = old(dst)@;
            let p = o.len() as int;
            if k < d {
                assert(b == o[start + k]);
                assert((k as int) % (d as int) == k as int) by (nonlinear_arith)
                    requires
                        0 <= k < d,
                ;
            } else {
                let j = k - d;
                assert(b == copy_match(o, d as nat, k as nat)[p + j]);
                assert(((k - d) as int) % (d as int) == (k as int) % (d as int)) by {
                    vstd::arithmetic::div_mod::lemma_mod_sub_multiples_vanish(k as int, d as int);
                }
            }
        }
        dst.push(b);
        k += 1;
        proof {
            assert(dst@ =~= copy_match(old(dst)@, d as nat, k as nat));
        }
    }
}

/// Appends `n` literal bytes from `src[pos..]`; fails where there are fewer.
fn copy_literals(dst: &mut Vec<u8>, src: &[u8], pos: usize, n: usize) -> (r: Result<(), Error>)
    ensures
        r.is_ok() <==> pos + n <= src@.len(),
        r.is_ok() ==> final(dst)@ == old(dst)@ + src@.subrange(pos as int, pos + n),
        r.is_err() ==> final(dst)@ == old(dst)@ && r == Err::<(), Error>(Error::PayloadUnderflow),
{
    if pos > src.len() || src.len() - pos < n {
        return Err(Error::PayloadUnderflow);
    }
    crate::frontend_bytes::push_bytes(dst, src, pos, pos + n);
    Ok(())
}

/// The VN opcode at `pos`: its literal count, match length and distance (zero: the previous
/// one) and the bytes it takes before its literals; `None` for the end of stream opcode;
/// `BadOpcode` for an undefined opcode, `BadPayload` for a distance of zero,
/// `PayloadUnderflow` where its extra bytes run past the payload.
pub open spec fn vn_op_spec(p: Seq<u8>, pos: int) -> Result<Option<(int, int, int, int)>, Error> {
    let op = p[pos] as int;
    let left = p.len() - pos;
    if op == 0x06 {
        Ok(None)
    } else if op == 0x0E || op == 0x16 {
        Ok(Some((0, 0, 0, 1)))
    } else if op >= 0xF0 {
        if op == 0xF0 {
            if left < 2 {
                Err(Error::PayloadUnderflow)
            } else {
                Ok(Some((0, p[pos + 1] + 16, 0, 2)))
            }
        } else {
            Ok(Some((0, op - 0xF0, 0, 1)))
        }
    } else if op >= 0xE0 {
        if op == 0xE0 {
            if left < 2 {
                Err(Error::PayloadUnderflow)
            } else {
                Ok(Some((p[pos + 1] + 16, 0, 0, 2)))
            }
        } else {
            Ok(Some((op - 0xE0, 0, 0, 1)))
        }
    } else if (0x70 <= op && op < 0x80) || (0xD0 <= op && op < 0xE0) {
        Err(Error::BadOpcode)
    } else if 0xA0 <= op && op < 0xC0 {
        if left < 3 {
            Err(Error::PayloadUnderflow)
        } else {
            let d = p[pos + 1] / 4 + p[pos + 2] * 64;
            if d == 0 {
                Err(Error::BadPayload)
            } else {
                Ok(Some(((op / 8) % 4, (op % 8) * 4 + p[pos + 1] % 4 + 3, d, 3)))
            }
        }
    } else if op % 8 == 6 {
        if op < 0x40 {
            Err(Error::BadOpcode)
        } else {
            Ok(Some((op / 64, (op / 8) % 8 + 3, 0, 1)))
        }
    } else if op % 8 == 7 {
        if left < 3 {
            Err(Error::PayloadUnderflow)
        } else {
            let d = p[pos + 1] + p[pos + 2] * 256;
            if d == 0 {
                Err(Error::BadPayload)
            } else {
                Ok(Some((op / 64, (op / 8) % 8 + 3, d, 3)))
            }
        }
    } else {
        if left < 2 {
            Err(Error::PayloadUnderflow)
        } else {
            let d = (op % 8) * 256 + p[pos + 1];
            if d == 0 {
                Err(Error::BadPayload)
            } else {
                Ok(Some((op / 64, (op / 8) % 8 + 3, d, 2)))
            }
        }
    }
}

/// Decoding a VN payload from `pos` onto `out`, with `d` the last distance, for an output
/// that must end at `end` bytes: each opcode copies its literals, then its match; the end of
/// stream opcode ends the payload. `BadPayload` where the output would pass `end`, a match
/// reaches before the output or the output ends short; `PayloadUnderflow` where the payload
/// runs out.
pub open spec fn vn_run(p: Seq<u8>, pos: int, out: Seq<u8>, d: int, end: int) -> Result<Seq<u8>, Error>
    decreases p.len() - pos,
{
    if pos < 0 || pos >= p.len() {
        Err(Error::PayloadUnderflow)
    } else {
        match vn_op_spec(p, pos) {
            Err(e) => Err(e),
            Ok(None) => if out.len() == end {
                Ok(out)
            } else {
                Err(Error::BadPayload)
            },
            Ok(Some((l, m, dist, n))) => if out.len() + l + m > end {
                Err(Error::BadPayload)
            } else if pos + n + l > p.len() {
                Err(Error::PayloadUnderflow)
            } else if n < 1 {
                Err(Error::PayloadUnderflow)
            } else {
                let o1 = out + p.subrange(pos + n, pos + n + l);
                if m > 0 {
                    let dd = if dist == 0 {
                        d
                    } else {
                        dist
                    };
                    if dd <= 0 || dd > o1.len() {
                        Err(Error::BadPayload)
                    } else {
                        vn_run(p, pos + n + l, copy_match(o1, dd as nat, m as nat), dd, end)
                    }
                } else {
                    vn_run(p, pos + n + l, o1, d, end)
                }
            },
        }
    }
}

/// The opcode at `pos`: exactly `vn_op_spec`.
fn vn_op(payload: &[u8], pos: usize) -> (r: Result<Option<(usize, usize, usize, usize)>, Error>)
    requires
        pos < payload@.len(),
    ensures
        match vn_op_spec(payload@, pos as int) {
            Ok(Some((l, m, d, n))) => r == Ok::<Option<(usize, usize, usize, usize)>, Error>(Some((l as usize, m as usize, d as usize, n as usize)))
                && 1 <= n <= 3 && 0 <= l <= 271 && 0 <= m <= 271 && 0 <= d < 0x1_0000,
            Ok(None) => r == Ok::<Option<(usize, usize, usize, usize)>, Error>(None),
            Err(e) => r == Err::<Option<(usize, usize, usize, usize)>, Error>(e),
        },
{
    let op = payload[pos] as usize;
    let left = payload.len() - pos;
    if op == 0x06 {
        Ok(None)
    } else if op == 0x0E || op == 0x16 {
        Ok(Some((0, 0, 0, 1)))
    } else if op >= 0xF0 {
        if op == 0xF0 {
            if left < 2 {
                return Err(Error::PayloadUnderflow);
            }
            Ok(Some((0, payload[pos + 1] as usize + 16, 0, 2)))
        } else {
            Ok(Some((0, op - 0xF0, 0, 1)))
        }
    } else if op >= 0xE0 {
        if op == 0xE0 {
            if left < 2 {
                return Err(Error::PayloadUnderflow);
            }
            Ok(Some((payload[pos + 1] as usize + 16, 0, 0, 2)))
        } else {
            Ok(Some((op - 0xE0, 0, 0, 1)))
        }
    } else if (0x70 <= op && op < 0x80) || (0xD0 <= op && op < 0xE0) {
        Err(Error::BadOpcode)
    } else if 0xA0 <= op && op < 0xC0 {
        if left < 3 {
            return Err(Error::PayloadUnderflow);
        }
        let b1 = payload[pos + 1] as usize;
        let b2 = payload[pos + 2] as usize;
        let l = (op / 8) % 4;
        let m = (op % 8) * 4 + b1 % 4 + 3;
        let d = b1 / 4 + b2 * 64;
        if d == 0 {
            return Err(Error::BadPayload);
        }
        Ok(Some((l, m, d, 3)))
    } else if op % 8 == 6 {
        if op < 0x40 {
            Err(Error::BadOpcode)
        } else {
            Ok(Some((op / 64, (op / 8) % 8 + 3, 0, 1)))
        }
    } else if op % 8 == 7 {
        if left < 3 {
            return Err(Error::PayloadUnderflow);
        }
        let d = payload[pos + 1] as usize + payload[pos + 2] as usize * 256;
        if d == 0 {
            return Err(Error::BadPayload);
        }
        Ok(Some((op / 64, (op / 8) % 8 + 3, d, 3)))
    } else {
        if left < 2 {
            return Err(Error::PayloadUnderflow);
        }
        let d = (op % 8) * 256 + payload[pos + 1] as usize;
        if d == 0 {
            return Err(Error::BadPayload);
        }
        Ok(Some((op / 64, (op / 8) % 8 + 3, d, 2)))
    }
}

/// Decodes a VN payload of `n_raw` bytes onto `dst`: exactly `vn_run`.
pub fn vn_decode(payload: &[u8], n_raw: usize, dst: &mut Vec<u8>) -> (r: Result<(), Error>)
    requires
        old(dst)@.len() + n_raw <= DECODE_LIMIT,
    ensures
        match vn_run(payload@, 0, old(dst)@, 0, old(dst)@.len() + n_raw) {
            Ok(out) => r == Ok::<(), Error>(()) && final(dst)@ == out,
            Err(e) => r == Err::<(), Error>(e),
        },
        r.is_ok() ==> final(dst)@.len() == old(dst)@.len() + n_raw,
        final(dst)@.len() <= old(dst)@.len() + n_raw,
{
    let base = dst.len();
    let end = base + n_raw;
    let mut pos: usize = 0;
    let mut d_prev: usize = 0;
    while pos < payload.len()
        invariant
            base == old(dst)@.len(),
            end == base + n_raw,
            base <= dst@.len() <= end,
            end <= DECODE_LIMIT,
            vn_run(payload@, 0, old(dst)@, 0, end as int) == vn_run(payload@, pos as int, dst@, d_prev as int, end as int),
        decreases payload@.len() - pos,
    {
        let op = vn_op(payload, pos)?;
        match op {
            None => {
                if dst.len() != end {
                    return Err(Error::BadPayload);
                }
                return Ok(());
            },
            Some((l, m, d, n)) => {
                if l + m > end - dst.len() {
                    return Err(Error::BadPayload);
                }
                copy_literals(dst, payload, pos + n, l)?;
                pos = pos + n + l;
                if m > 0 {
                    let dd = if d == 0 { d_prev } else { d };
                    if dd == 0 || dd > dst.len() {
                        return Err(Error::BadPayload);
                    }
                    copy_back(dst, dd, m);
                    d_prev = dd;
                }
            },
        }
    }
    Err(Error::PayloadUnderflow)
}

/// Reads eight bytes at `pos`, little-endian, where there are eight.
fn read_u64(src: &[u8], pos: usize) -> (r: Option<u64>)
    ensures
        r.is_some() <==> pos + 8 <= src@.len(),
        r matches Some(v) ==> v == f32_at(src@, pos as int) + f32_at(src@, pos + 4) * 0x1_0000_0000,
{
    let lo = read_u32(src, pos);
    if pos > src.len() || src.len() - pos < 8 {
        return None;
    }
    let hi = read_u32(src, pos + 4);
    match (lo, hi) {
        (Some(a), Some(b)) => {
            let a64 = a as u64;
            let b64 = b as u64;
            let v = a64 | (b64 << 32u64);
            assert(v == a64 + b64 * 0x1_0000_0000) by (bit_vector)
                requires
                    v == a64 | (b64 << 32u64),
                    a64 < 0x1_0000_0000,
                    b64 < 0x1_0000_0000,
            ;
            Some(v)
        },
        _ => None,
    }
}

/// Decodes `n` weights of the compact header's prefix code from `src[*pos..end]`, whose bits
/// are read low first with `acc` holding `*n_acc` of them ahead.
fn read_weights(src: &[u8], pos: &mut usize, end: usize, acc: &mut u64, n_acc: &mut u32, n: usize, max: u32) -> (r: Result<Vec<u16>, Error>)
    requires
        end <= src@.len(),
        *old(n_acc) <= 32,
    ensures
        *final(n_acc) <= 32,
        r matches Ok(w) ==> w@.len() == n && wsum(w@) <= max,
{
    let mut w: Vec<u16> = Vec::new();
    let mut sum: u32 = 0;
    let mut i: usize = 0;
    while i < n
        invariant
            end <= src@.len(),
            *n_acc <= 32,
            w@.len() == i,
            i <= n,
            sum == wsum(w@),
            sum <= max,
        decreases n - i,
    {
        while *n_acc <= 24 && *pos < end
            invariant
                end <= src@.len(),
                *n_acc <= 32,
            decreases end - *pos,
        {
            *acc = *acc | ((src[*pos] as u64) << (*n_acc as u64));
            *n_acc = *n_acc + 8;
            *pos = *pos + 1;
        }
        let t = (*acc % 32) as u32;
        let (nb, v): (u32, u32) = if t % 4 == 0 {
            (2, 0)
        } else if t % 4 == 2 {
            (2, 1)
        } else if t % 8 == 1 {
            (3, 2)
        } else if t % 8 == 5 {
            (3, 3)
        } else if t % 8 == 3 {
            (5, 4 + t / 8)
        } else if t % 16 == 7 {
            (8, 8 + ((*acc / 16) % 16) as u32)
        } else {
            (14, 24 + ((*acc / 16) % 1024) as u32)
        };
        if nb > *n_acc {
            return Err(Error::BadWeightPayload);
        }
        *acc = *acc >> (nb as u64);
        *n_acc = *n_acc - nb;
        if v > max - sum {
            return Err(Error::BadWeightPayload);
        }
        let ghost w0 = w@;
        w.push(v as u16);
        proof {
            assert(w@.drop_last() =~= w0);
        }
        sum = sum + v;
        i += 1;
    }
    Ok(w)
}

/// Decodes one compact FSE block whose header starts at `start`, the magic read; returns
/// where the next block starts.
#[verifier::rlimit(100)]
pub fn fse_decode_v2(src: &[u8], start: usize, dst: &mut Vec<u8>) -> (r: Result<usize, Error>)
    requires
        old(dst)@.len() <= DECODE_LIMIT,
        start + 4 <= src@.len(),
    ensures
        r matches Ok(next) ==> start < next <= src@.len(),
        r is Ok ==> final(dst)@.len() <= DECODE_LIMIT,
{
    if src.len() - start < 32 {
        return Err(Error::BadBlock);
    }
    let n_raw = match read_u32(src, start + 4) {
        Some(v) => v as usize,
        None => return Err(Error::BadBlock),
    };
    let (f0, f1, f2) = match (read_u64(src, start + 8), read_u64(src, start + 16), read_u64(src, start + 24)) {
        (Some(a), Some(b), Some(c)) => (a, b, c),
        _ => return Err(Error::BadBlock),
    };
    let n_literals = (f0 % 0x10_0000) as usize;
    let n_lit_payload = ((f0 / 0x10_0000) % 0x10_0000) as usize;
    let n_matches = ((f0 / 0x100_0000_0000) % 0x10_0000) as usize;
    let lit_off = 7 - ((f0 / 0x1000_0000_0000_0000) % 8) as u32;
    let ls0 = (f1 % 1024) as usize;
    let ls1 = ((f1 / 1024) % 1024) as usize;
    let ls2 = ((f1 / 0x10_0000) % 1024) as usize;
    let ls3 = ((f1 / 0x4000_0000) % 1024) as usize;
    let n_lmd_payload = ((f1 / 0x100_0000_0000) % 0x10_0000) as usize;
    let lmd_off = 7 - ((f1 / 0x1000_0000_0000_0000) % 8) as u32;
    let header_size = (f2 % 0x1_0000_0000) as usize;
    let l_state = ((f2 / 0x1_0000_0000) % 1024) as usize;
    let m_state = ((f2 / 0x400_0000_0000) % 1024) as usize;
    let d_state = ((f2 / 0x10_0000_0000_0000) % 1024) as usize;
    if n_literals > LITERALS_PER_BLOCK + 4 || n_literals % 4 != 0 {
        return Err(Error::BadLiteralCount);
    }
    if n_matches > LMDS_PER_BLOCK {
        return Err(Error::BadLmdCount);
    }
    if l_state >= 64 || m_state >= 64 || d_state >= 256 {
        return Err(Error::BadLmdState);
    }
    if header_size < 32 || header_size > src.len() - start {
        return Err(Error::BadBlock);
    }
    let lit_start = start + header_size;
    if n_lit_payload > src.len() - lit_start {
        return Err(Error::PayloadUnderflow);
    }
    let lmd_start = lit_start + n_lit_payload;
    if n_lmd_payload > src.len() - lmd_start || n_lmd_payload < 8 {
        return Err(Error::PayloadUnderflow);
    }
    let next = lmd_start + n_lmd_payload;
    if n_raw > DECODE_LIMIT - dst.len() {
        return Err(Error::BufferOverflow);
    }
    // Weights.
    let mut pos = start + 32;
    let mut acc: u64 = 0;
    let mut n_acc: u32 = 0;
    let fend = start + header_size;
    let l = read_weights(src, &mut pos, fend, &mut acc, &mut n_acc, L_SYMBOLS, 64)?;
    let m = read_weights(src, &mut pos, fend, &mut acc, &mut n_acc, M_SYMBOLS, 64)?;
    let d = read_weights(src, &mut pos, fend, &mut acc, &mut n_acc, D_SYMBOLS, 256)?;
    let u = read_weights(src, &mut pos, fend, &mut acc, &mut n_acc, U_SYMBOLS, 1024)?;
    let weights = Weights { l, m, d, u };
    decode_streams(src, lit_start, lmd_start, next, (lit_off, lmd_off), (ls0, ls1, ls2, ls3), (l_state, m_state, d_state), (n_literals, n_matches), &weights, n_raw, dst)?;
    Ok(next)
}

/// The field of four bytes at `pos`.
pub open spec fn f32_at(src: Seq<u8>, pos: int) -> int {
    le32_value(src.subrange(pos, pos + 4))
}

/// Decodes the literal stream `src[lit_start..lmd_start]` and the LMD stream
/// `src[lmd_start..next]` of a block under `weights`, and applies the triples onto `dst`.
#[verifier::rlimit(100)]
fn decode_streams(
    src: &[u8],
    lit_start: usize,
    lmd_start: usize,
    next: usize,
    offs: (u32, u32),
    lit_states: (usize, usize, usize, usize),
    lmd_states: (usize, usize, usize),
    counts: (usize, usize),
    weights: &Weights,
    n_raw: usize,
    dst: &mut Vec<u8>,
) -> (r: Result<(), Error>)
    requires
        weights.wf(),
        crate::bits::PAD_BYTES <= lit_start <= lmd_start,
        lmd_start + crate::bits::PAD_BYTES <= next <= src@.len(),
        offs.0 <= 7 && offs.1 <= 7,
        lit_states.0 < 1024 && lit_states.1 < 1024 && lit_states.2 < 1024 && lit_states.3 < 1024,
        lmd_states.0 < 64 && lmd_states.1 < 64 && lmd_states.2 < 256,
        counts.0 <= LITERALS_PER_BLOCK + 4,
        counts.1 <= LMDS_PER_BLOCK,
        old(dst)@.len() + n_raw <= DECODE_LIMIT,
    ensures
        final(dst)@.len() <= old(dst)@.len() + n_raw,
        r is Ok ==> streams_ok(src@, lit_start as int, lmd_start as int, next as int, offs.0 as int, offs.1 as int,
            seq![lit_states.0, lit_states.1, lit_states.2, lit_states.3],
            seq![lmd_states.0, (64 + lmd_states.1) as usize, (128 + lmd_states.2) as usize],
            counts.0 as int, counts.1 as int, weights.l@, weights.m@, weights.d@, weights.u@, n_raw as int, old(dst)@, final(dst)@),
{
    let mut decoder = Decoder::new();
    decoder.init(weights);
    let lit_src = slice_subrange(src, lit_start - crate::bits::PAD_BYTES, lmd_start);
    let mut literals = Literals::new();
    literals.load(lit_src, offs.0, &decoder, lit_states, counts.0)?;
    let lits = literals.as_vec();
    let lmd_src = slice_subrange(src, lmd_start, next);
    let mut lmds = Lmds::new();
    lmds.load(lmd_src, offs.1, &decoder, lmd_states, counts.1)?;
    let packs = lmds.as_vec();
    let r = apply_lmds(dst, lits, packs, n_raw);
    proof {
        if r is Ok {
            let dt = decoder.u_table();
            let dv = decoder.v_table();
            assert(crate::fse_law::u_table_of(dt, weights.u@));
            assert(crate::fse_decode::v_block_ok(dv, crate::fse_weights::Alphabet::D, weights.d@, 128, 256));
            reveal(streams_ok);
        }
    }
    r
}

/// Under decoder tables for the weights `l`, `m`, `d` and `u`, the literal stream
/// `src[lit_start - 8..lmd_start]` and the LMD stream `src[lmd_start..next]` decode, and their
/// triples applied after `out`, for `n_raw` bytes, give `out2`.
#[verifier::opaque]
pub open spec fn streams_ok(
    src: Seq<u8>,
    lit_start: int,
    lmd_start: int,
    next: int,
    lit_off: int,
    lmd_off: int,
    lit_states: Seq<usize>,
    lmd_states: Seq<usize>,
    n_literals: int,
    n_matches: int,
    l: Seq<u16>,
    m: Seq<u16>,
    d: Seq<u16>,
    u: Seq<u16>,
    n_raw: int,
    out: Seq<u8>,
    out2: Seq<u8>,
) -> bool {
    exists|dt: Seq<crate::fse_decode::UEntry>, dv: Seq<crate::fse_decode::VEntry>|
        {
            &&& #[trigger] crate::fse_law::u_table_of(dt, u)
            &&& crate::fse_decode::v_block_ok(dv, crate::fse_weights::Alphabet::L, l, 0, 64)
            &&& crate::fse_decode::v_block_ok(dv, crate::fse_weights::Alphabet::M, m, 64, 64)
            &&& #[trigger] crate::fse_decode::v_block_ok(dv, crate::fse_weights::Alphabet::D, d, 128, 256)
            &&& apply_checked(
                out,
                crate::fse_block::lit_decode(dt, src.subrange(lit_start - 8, lmd_start), 8 * (lmd_start - lit_start + 8) - lit_off, lit_states, n_literals)->Ok_0.0,
                crate::fse_block::lmd_decode(dv, src.subrange(lmd_start, next), 8 * (next - lmd_start) - lmd_off, lmd_states, n_matches)->Ok_0.0,
                0,
                out.len() + n_raw,
            ) == Ok::<Seq<u8>, Error>(out2)
        }
}

/// Reads two bytes at `pos`, little-endian.
fn read_u16(src: &[u8], pos: usize) -> (r: u16)
    requires
        pos + 2 <= src@.len(),
    ensures
        r == src@[pos as int] + 256 * src@[pos + 1],
{
    src[pos] as u16 + 256 * (src[pos + 1] as u16)
}

/// Reads `n` weights of two bytes each from `src[pos..]`; fails with `BadWeightPayload` where
/// they total more than `max`.
fn read_plain_weights(src: &[u8], pos: usize, n: usize, max: u32) -> (r: Result<Vec<u16>, Error>)
    requires
        pos + 2 * n <= src@.len(),
    ensures
        r matches Ok(w) ==> w@.len() == n && wsum(w@) <= max && w@ == plain_weights(src@, pos as int, n as int),
{
    let mut w: Vec<u16> = Vec::new();
    let mut sum: u32 = 0;
    let mut i: usize = 0;
    let mut q: usize = pos;
    let len = src.len();
    while i < n
        invariant
            len == src@.len(),
            pos + 2 * n <= src@.len(),
            q == pos + 2 * i,
            i <= n,
            w@.len() == i,
            w@ == plain_weights(src@, pos as int, i as int),
            sum == wsum(w@),
            sum <= max,
        decreases n - i,
    {
        let v = read_u16(src, q);
        if v as u32 > max - sum {
            return Err(Error::BadWeightPayload);
        }
        let ghost w0 = w@;
        w.push(v);
        proof {
            assert(w@.drop_last() =~= w0);
            assert(w@ =~= plain_weights(src@, pos as int, i + 1));
        }
        sum = sum + v as u32;
        i += 1;
        q = q + 2;
    }
    Ok(w)
}

/// `n` weights of two bytes each at `pos`, little-endian.
pub open spec fn plain_weights(src: Seq<u8>, pos: int, n: int) -> Seq<u16> {
    Seq::new(n as nat, |i: int| (src[pos + 2 * i] + 256 * src[pos + 2 * i + 1]) as u16)
}

/// The field of two bytes at `pos`.
pub open spec fn f16_at(src: Seq<u8>, pos: int) -> int {
    src[pos] + 256 * src[pos + 1]
}

/// A plain block at `start` decodes `out` to `out2`: the streams that its header locates
/// decode under tables for the weights of its header, and their triples give `out2`.
pub open spec fn v1_block_ok(src: Seq<u8>, start: int, out: Seq<u8>, out2: Seq<u8>) -> bool {
    let lit_start = start + V1_HEADER_SIZE;
    let lmd_start = lit_start + f32_at(src, start + 20);
    streams_ok(
        src,
        lit_start,
        lmd_start,
        lmd_start + f32_at(src, start + 24),
        (0 - f32_at(src, start + 28)) % 0x1_0000_0000,
        (0 - f32_at(src, start + 40)) % 0x1_0000_0000,
        seq![f16_at(src, start + 32) as usize, f16_at(src, start + 34) as usize, f16_at(src, start + 36) as usize, f16_at(src, start + 38) as usize],
        seq![f16_at(src, start + 44) as usize, (64 + f16_at(src, start + 46)) as usize, (128 + f16_at(src, start + 48)) as usize],
        f32_at(src, start + 12),
        f32_at(src, start + 16),
        plain_weights(src, start + 50, 20),
        plain_weights(src, start + 90, 20),
        plain_weights(src, start + 130, 64),
        plain_weights(src, start + 258, 256),
        f32_at(src, start + 4),
        out,
        out2,
    )
}

/// The size of the plain (`bvx1`) block header: the magic, six counts, the literal bits and
/// four states, the LMD bits and three states, and 360 two byte weights, padded to four bytes.
pub const V1_HEADER_SIZE: usize = 772;

/// Decodes one FSE block with a plain header starting at `start`, the magic read; returns
/// where the next block starts. The header holds, little-endian: `n_raw_bytes`,
/// `n_payload_bytes`, `n_literals`, `n_matches`, `n_literal_payload_bytes`,
/// `n_lmd_payload_bytes` (four bytes each), `literal_bits` (four bytes, signed), four literal
/// states (two bytes each), `lmd_bits` (four bytes, signed), the L, M and D states (two bytes
/// each), then the L, M, D and literal weights (two bytes each).
#[verifier::rlimit(100)]
pub fn fse_decode_v1(src: &[u8], start: usize, dst: &mut Vec<u8>) -> (r: Result<usize, Error>)
    requires
        old(dst)@.len() <= DECODE_LIMIT,
        start + 4 <= src@.len(),
    ensures
        r matches Ok(next) ==> start < next <= src@.len(),
        r is Ok ==> final(dst)@.len() <= DECODE_LIMIT,
        r is Ok ==> v1_block_ok(src@, start as int, old(dst)@, final(dst)@),
{
    if src.len() - start < V1_HEADER_SIZE {
        return Err(Error::BadBlock);
    }
    let n_raw = read_u32_at(src, start + 4) as usize;
    let n_payload = read_u32_at(src, start + 8) as usize;
    let n_literals = read_u32_at(src, start + 12) as usize;
    let n_matches = read_u32_at(src, start + 16) as usize;
    let n_lit_payload = read_u32_at(src, start + 20) as usize;
    let n_lmd_payload = read_u32_at(src, start + 24) as usize;
    let lit_bits = read_u32_at(src, start + 28);
    let ls0 = read_u16(src, start + 32) as usize;
    let ls1 = read_u16(src, start + 34) as usize;
    let ls2 = read_u16(src, start + 36) as usize;
    let ls3 = read_u16(src, start + 38) as usize;
    let lmd_bits = read_u32_at(src, start + 40);
    let l_state = read_u16(src, start + 44) as usize;
    let m_state = read_u16(src, start + 46) as usize;
    let d_state = read_u16(src, start + 48) as usize;
    // The bit counts are in [-7, 0]: the unused high bits of the last byte, negated.
    let lit_off = 0u32.wrapping_sub(lit_bits);
    let lmd_off = 0u32.wrapping_sub(lmd_bits);
    if lit_off > 7 || lmd_off > 7 {
        return Err(Error::BadBitStream);
    }
    if n_literals > LITERALS_PER_BLOCK + 4 || n_literals % 4 != 0 {
        return Err(Error::BadLiteralCount);
    }
    if n_matches > LMDS_PER_BLOCK {
        return Err(Error::BadLmdCount);
    }
    if ls0 >= 1024 || ls1 >= 1024 || ls2 >= 1024 || ls3 >= 1024 {
        return Err(Error::BadLiteralState);
    }
    if l_state >= 64 || m_state >= 64 || d_state >= 256 {
        return Err(Error::BadLmdState);
    }
    let lit_start = start + V1_HEADER_SIZE;
    if n_lit_payload > src.len() - lit_start {
        return Err(Error::PayloadUnderflow);
    }
    let lmd_start = lit_start + n_lit_payload;
    if n_lmd_payload > src.len() - lmd_start || n_lmd_payload < 8 {
        return Err(Error::PayloadUnderflow);
    }
    if n_payload != n_lit_payload + n_lmd_payload {
        return Err(Error::BadPayloadCount);
    }
    let next = lmd_start + n_lmd_payload;
    if n_raw > DECODE_LIMIT - dst.len() {
        return Err(Error::BufferOverflow);
    }
    let l = read_plain_weights(src, start + 50, L_SYMBOLS, 64)?;
    let m = read_plain_weights(src, start + 90, M_SYMBOLS, 64)?;
    let d = read_plain_weights(src, start + 130, D_SYMBOLS, 256)?;
    let u = read_plain_weights(src, start + 258, U_SYMBOLS, 1024)?;
    let weights = Weights { l, m, d, u };
    decode_streams(src, lit_start, lmd_start, next, (lit_off, lmd_off), (ls0, ls1, ls2, ls3), (l_state, m_state, d_state), (n_literals, n_matches), &weights, n_raw, dst)?;
    proof {
        assert(lit_off as int == (0 - f32_at(src@, start + 28)) % 0x1_0000_0000);
        assert(lmd_off as int == (0 - f32_at(src@, start + 40)) % 0x1_0000_0000);
        assert(seq![ls0, ls1, ls2, ls3] =~= seq![f16_at(src@, start + 32) as usize, f16_at(src@, start + 34) as usize, f16_at(src@, start + 36) as usize, f16_at(src@, start + 38) as usize]);
        assert(seq![l_state, (64 + m_state) as usize, (128 + d_state) as usize] =~= seq![f16_at(src@, start + 44) as usize, (64 + f16_at(src@, start + 46)) as usize, (128 + f16_at(src@, start + 48)) as usize]);
    }
    Ok(next)
}

/// Reads four bytes at `pos`, little-endian.
fn read_u32_at(src: &[u8], pos: usize) -> (r: u32)
    requires
        pos + 4 <= src@.len(),
    ensures
        r == le32_value(src@.subrange(pos as int, pos + 4)),
{
    match read_u32(src, pos) {
        Some(v) => v,
        None => 0,
    }
}

/// Applying `packs` after `out`, taking their literals in turn from `ls`, with `d` the last
/// distance, for an output that must end at `end` bytes: `BadLmdPayload` where the literals
/// run out, the output would pass `end` or a match reaches before the output;
/// `BadRawByteCount` where the output ends short.
pub open spec fn apply_checked(out: Seq<u8>, ls: Seq<u8>, packs: Seq<LmdPack>, d: nat, end: int) -> Result<Seq<u8>, Error>
    decreases packs.len(),
{
    if packs.len() == 0 {
        if out.len() == end {
            Ok(out)
        } else {
            Err(Error::BadRawByteCount)
        }
    } else {
        let p = packs[0];
        let l = p.literal_len as int;
        let m = p.match_len as int;
        if l > ls.len() || out.len() + l > end {
            Err(Error::BadLmdPayload)
        } else {
            let o1 = out + ls.take(l);
            if m > 0 {
                let de = if p.match_distance == 0 {
                    d
                } else {
                    p.match_distance as nat
                };
                if de == 0 || de > o1.len() || o1.len() + m > end {
                    Err(Error::BadLmdPayload)
                } else {
                    apply_checked(copy_match(o1, de, m as nat), ls.skip(l), packs.drop_first(), de, end)
                }
            } else {
                apply_checked(o1, ls.skip(l), packs.drop_first(), d, end)
            }
        }
    }
}

/// Where the checks pass, the packs decode as `apply_packs` says.
pub proof fn lemma_apply_checked(out: Seq<u8>, ls: Seq<u8>, packs: Seq<LmdPack>, d: nat, end: int)
    requires
        apply_checked(out, ls, packs, d, end) is Ok,
    ensures
        apply_checked(out, ls, packs, d, end) == Ok::<Seq<u8>, Error>(crate::fse_block::apply_packs(out, ls, packs, d)),
    decreases packs.len(),
{
    if packs.len() > 0 {
        let p = packs[0];
        let l = p.literal_len as int;
        let o1 = out + ls.take(l);
        if p.match_len > 0 {
            let de = if p.match_distance == 0 { d } else { p.match_distance as nat };
            lemma_apply_checked(copy_match(o1, de, p.match_len as nat), ls.skip(l), packs.drop_first(), de, end);
        } else {
            lemma_apply_checked(o1, ls.skip(l), packs.drop_first(), d, end);
        }
    }
}

/// Decodes the LMD packs of a block with their literals onto `dst`: exactly `apply_checked`,
/// for an output of `n_raw` bytes.
pub fn apply_lmds(dst: &mut Vec<u8>, lits: &Vec<u8>, packs: &Vec<LmdPack>, n_raw: usize) -> (r: Result<(), Error>)
    requires
        old(dst)@.len() + n_raw <= DECODE_LIMIT,
    ensures
        match apply_checked(old(dst)@, lits@, packs@, 0, old(dst)@.len() + n_raw) {
            Ok(o) => r == Ok::<(), Error>(()) && final(dst)@ == o,
            Err(e) => r == Err::<(), Error>(e),
        },
        final(dst)@.len() <= old(dst)@.len() + n_raw,
{
    let base = dst.len();
    let end = base + n_raw;
    let mut lit_pos: usize = 0;
    let mut d_prev: usize = 0;
    let mut j: usize = 0;
    let ghost e = end as int;
    proof {
        assert(lits@.skip(0) =~= lits@);
        assert(packs@.skip(0) =~= packs@);
    }
    while j < packs.len()
        invariant
            lit_pos <= lits@.len(),
            j <= packs@.len(),
            end == base + n_raw,
            base == old(dst)@.len(),
            e == end,
            dst@.len() <= end,
            end <= DECODE_LIMIT,
            apply_checked(old(dst)@, lits@, packs@, 0, e) == apply_checked(dst@, lits@.skip(lit_pos as int), packs@.skip(j as int), d_prev as nat, e),
        decreases packs@.len() - j,
    {
        let p = packs[j];
        let ghost ls = lits@.skip(lit_pos as int);
        let ghost ps = packs@.skip(j as int);
        proof {
            assert(ps[0] == p);
            assert(ps.drop_first() =~= packs@.skip(j + 1));
        }
        let (ll, mm, dd) = (p.literal_len as usize, p.match_len as usize, p.match_distance as usize);
        if ll > lits.len() - lit_pos || ll > end - dst.len() {
            return Err(Error::BadLmdPayload);
        }
        let ghost d0 = dst@;
        crate::frontend_bytes::push_bytes(dst, lits.as_slice(), lit_pos, lit_pos + ll);
        proof {
            assert(lits@.subrange(lit_pos as int, lit_pos + ll) =~= ls.take(ll as int));
            assert(ls.skip(ll as int) =~= lits@.skip(lit_pos + ll));
        }
        lit_pos = lit_pos + ll;
        if mm > 0 {
            let dist = if dd == 0 { d_prev } else { dd };
            if dist == 0 || dist > dst.len() || mm > end - dst.len() {
                return Err(Error::BadLmdPayload);
            }
            copy_back(dst, dist, mm);
            d_prev = dist;
        }
        j += 1;
    }
    proof {
        assert(packs@.skip(j as int) =~= Seq::<LmdPack>::empty());
    }
    if dst.len() != end {
        return Err(Error::BadRawByteCount);
    }
    Ok(())
}

/// `src` is a frame of one RAW block whose bytes fit after `out_len` bytes of output.
pub open spec fn raw_frame(src: Seq<u8>, out_len: int) -> bool {
    let n = src.len() as int;
    &&& n >= 12
    &&& src.take(4) == le32(RAW_MAGIC)
    &&& le32_value(src.subrange(4, 8)) == n - 12
    &&& src.skip(n - 4) == le32(EOS_MAGIC)
    &&& out_len + n - 12 <= DECODE_LIMIT
}

/// A frame that the encoder makes of up to `RAW_CUTOFF` bytes is a RAW frame of those bytes, so
/// the decoder gives them back.
pub proof fn law_round_trip_raw(src: Seq<u8>, body: Seq<u8>, out_len: int)
    requires
        src.len() <= crate::block::RAW_CUTOFF,
        crate::frontend_bytes::frame_body(src, body),
        0 <= out_len <= DECODE_LIMIT - crate::block::RAW_CUTOFF,
    ensures
        raw_frame(body + le32(EOS_MAGIC), out_len),
        (body + le32(EOS_MAGIC)).subrange(8, (body + le32(EOS_MAGIC)).len() - 4) == src,
{
    let f = body + le32(EOS_MAGIC);
    assert(body == raw_block(src));
    crate::block::lemma_le32_value(src.len() as u32);
    assert(f.take(4) =~= le32(RAW_MAGIC));
    assert(f.subrange(4, 8) =~= le32(src.len() as u32));
    assert(f.skip(f.len() - 4) =~= le32(EOS_MAGIC));
    assert(f.subrange(8, f.len() - 4) =~= src);
}

/// `src` is a frame of one VN block whose bytes fit after `out_len` bytes of output.
pub open spec fn vn_frame(src: Seq<u8>, out_len: int) -> bool {
    let n = src.len() as int;
    &&& n >= 16
    &&& src.take(4) == le32(VN_MAGIC)
    &&& le32_value(src.subrange(8, 12)) == n - 16
    &&& src.skip(n - 4) == le32(EOS_MAGIC)
    &&& out_len + le32_value(src.subrange(4, 8)) <= DECODE_LIMIT
}

/// What the VN block of a one block frame decodes to after `out`.
pub open spec fn vn_frame_run(src: Seq<u8>, out: Seq<u8>) -> Result<Seq<u8>, Error> {
    vn_run(src.subrange(12, src.len() - 4), 0, out, 0, out.len() + le32_value(src.subrange(4, 8)))
}

/// The frame that the encoder makes of up to `VN_CUTOFF` bytes decodes to those bytes: it is
/// a RAW frame of them, or a VN frame whose opcodes decode to them.
pub proof fn law_round_trip_small(src: Seq<u8>, body: Seq<u8>, out: Seq<u8>)
    requires
        src.len() <= crate::block::VN_CUTOFF,
        crate::frontend_bytes::frame_body(src, body),
        out.len() + crate::block::VN_CUTOFF <= DECODE_LIMIT,
    ensures
        ({
            let f = body + le32(EOS_MAGIC);
            ||| raw_frame(f, out.len() as int) && f.subrange(8, f.len() - 4) == src
            ||| vn_frame(f, out.len() as int) && vn_frame_run(f, out) == Ok::<Seq<u8>, Error>(out + src)
        }),
{
    let f = body + le32(EOS_MAGIC);
    if body == raw_block(src) {
        lemma_raw_frame_of(src, out);
    } else {
        let (lits, cmds) = choose|lits: Seq<u8>, cmds: Seq<crate::lmd::Lmd>| {
            &&& crate::lmd::expand(lits, cmds) == src
            &&& lits.len() == crate::lmd::lit_count(cmds)
            &&& crate::lmd::cmds_valid(lits, cmds)
            &&& crate::frontend_bytes::cmds_bounded::<crate::match_unit::VnUnit>(cmds)
            &&& #[trigger] crate::block::vn_block(src.len(), crate::vn::vn_ops(lits, cmds) + crate::vn::eos_ops()) == body
            &&& crate::block::VN_HEADER_SIZE + (crate::vn::vn_ops(lits, cmds) + crate::vn::eos_ops()).len() < src.len() + crate::block::RAW_HEADER_SIZE
        };
        lemma_vn_frame_of(src, lits, cmds, out);
    }
}

proof fn lemma_raw_frame_of(src: Seq<u8>, out: Seq<u8>)
    requires
        src.len() <= crate::block::VN_CUTOFF,
        out.len() + crate::block::VN_CUTOFF <= DECODE_LIMIT,
    ensures
        ({
            let f = raw_block(src) + le32(EOS_MAGIC);
            raw_frame(f, out.len() as int) && f.subrange(8, f.len() - 4) == src
        }),
{
    let f = raw_block(src) + le32(EOS_MAGIC);
    crate::block::lemma_le32_value(src.len() as u32);
    assert(f.take(4) =~= le32(RAW_MAGIC));
    assert(f.subrange(4, 8) =~= le32(src.len() as u32));
    assert(f.skip(f.len() - 4) =~= le32(EOS_MAGIC));
    assert(f.subrange(8, f.len() - 4) =~= src);
}

proof fn lemma_vn_frame_of(src: Seq<u8>, lits: Seq<u8>, cmds: Seq<crate::lmd::Lmd>, out: Seq<u8>)
    requires
        src.len() <= crate::block::VN_CUTOFF,
        out.len() + crate::block::VN_CUTOFF <= DECODE_LIMIT,
        crate::lmd::expand(lits, cmds) == src,
        lits.len() == crate::lmd::lit_count(cmds),
        crate::lmd::cmds_valid(lits, cmds),
        crate::frontend_bytes::cmds_bounded::<crate::match_unit::VnUnit>(cmds),
        crate::block::VN_HEADER_SIZE + (crate::vn::vn_ops(lits, cmds) + crate::vn::eos_ops()).len() < src.len() + crate::block::RAW_HEADER_SIZE,
    ensures
        ({
            let f = crate::block::vn_block(src.len(), crate::vn::vn_ops(lits, cmds) + crate::vn::eos_ops()) + le32(EOS_MAGIC);
            vn_frame(f, out.len() as int) && vn_frame_run(f, out) == Ok::<Seq<u8>, Error>(out + src)
        }),
{
    let p = crate::vn::vn_ops(lits, cmds) + crate::vn::eos_ops();
    let f = crate::block::vn_block(src.len(), p) + le32(EOS_MAGIC);
    crate::block::lemma_le32_value(src.len() as u32);
    crate::block::lemma_le32_value(p.len() as u32);
    assert(f.take(4) =~= le32(VN_MAGIC));
    assert(f.subrange(4, 8) =~= le32(src.len() as u32));
    assert(f.subrange(8, 12) =~= le32(p.len() as u32));
    assert(f.skip(f.len() - 4) =~= le32(EOS_MAGIC));
    assert(f.subrange(12, f.len() - 4) =~= p);
    crate::vn_law::lemma_expand_after(out, lits, cmds);
    crate::vn_law::law_vn_round_trip(lits, cmds, out);
}

/// Decodes a whole frame of `src` onto `dst`.
pub fn decode_bytes(src: &[u8], dst: &mut Vec<u8>) -> (r: Result<(), Error>)
    requires
        old(dst)@.len() <= DECODE_LIMIT,
    ensures
        r is Ok ==> final(dst)@.len() <= DECODE_LIMIT,
        raw_frame(src@, old(dst)@.len() as int) ==> r == Ok::<(), Error>(()) && final(dst)@ == old(dst)@ + src@.subrange(8, src@.len() - 4),
        vn_frame(src@, old(dst)@.len() as int) ==> match vn_frame_run(src@, old(dst)@) {
            Ok(o) => r == Ok::<(), Error>(()) && final(dst)@ == o,
            Err(e) => r == Err::<(), Error>(e),
        },
{
    let mut pos: usize = 0;
    let ghost raw = raw_frame(src@, dst@.len() as int);
    let ghost vn = vn_frame(src@, dst@.len() as int);
    while pos < src.len()
        invariant
            dst@.len() <= DECODE_LIMIT,
            raw == raw_frame(src@, old(dst)@.len() as int),
            raw ==> (pos == 0 && dst@ == old(dst)@) || (pos == src@.len() - 4 && dst@ == old(dst)@ + src@.subrange(8, src@.len() - 4)),
            vn == vn_frame(src@, old(dst)@.len() as int),
            vn ==> (pos == 0 && dst@ == old(dst)@) || (pos == src@.len() - 4 && vn_frame_run(src@, old(dst)@) == Ok::<Seq<u8>, Error>(dst@)),
        decreases src@.len() - pos,
    {
        let magic = match read_u32(src, pos) {
            Some(v) => v,
            None => return Err(Error::PayloadUnderflow),
        };
        proof {
            if raw || vn {
                if pos == 0 {
                    assert(src@.subrange(0, 4) == src@.take(4));
                } else {
                    assert(src@.subrange(pos as int, pos + 4) == src@.skip(src@.len() - 4));
                }
            }
        }
        if magic == EOS_MAGIC {
            return Ok(());
        } else if magic == RAW_MAGIC {
            let n = match read_u32(src, pos + 4) {
                Some(v) => v as usize,
                None => return Err(Error::BadBlock),
            };
            if n > DECODE_LIMIT - dst.len() {
                return Err(Error::BufferOverflow);
            }
            if copy_literals(dst, src, pos + 8, n).is_err() {
                return Err(Error::BadRawByteCount);
            }
            pos = pos + 8 + n;
            proof {
                if raw {
                    assert(magic != EOS_MAGIC);
                }
                if vn {
                    assert(magic != RAW_MAGIC);
                }
            }
        } else if magic == VN_MAGIC {
            if src.len() - pos < 12 {
                return Err(Error::BadBlock);
            }
            let (n_raw, n_payload) = match (read_u32(src, pos + 4), read_u32(src, pos + 8)) {
                (Some(a), Some(b)) => (a as usize, b as usize),
                _ => return Err(Error::BadBlock),
            };
            if n_raw > DECODE_LIMIT - dst.len() {
                return Err(Error::BufferOverflow);
            }
            if n_payload > src.len() - (pos + 12) {
                return Err(Error::PayloadUnderflow);
            }
            let payload = slice_subrange(src, pos + 12, pos + 12 + n_payload);
            proof {
                if vn {
                    assert(pos == 0);
                    assert(payload@ == src@.subrange(12, src@.len() - 4));
                }
            }
            vn_decode(payload, n_raw, dst)?;
            pos = pos + 12 + n_payload;
        } else if magic == FSE2_MAGIC {
            pos = fse_decode_v2(src, pos, dst)?;
        } else if magic == FSE1_MAGIC {
            pos = fse_decode_v1(src, pos, dst)?;
        } else {
            return Err(Error::BadBlock);
        }
    }
    Err(Error::PayloadUnderflow)
}

} // verus!
