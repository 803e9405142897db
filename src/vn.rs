//! The VN (variable nibble) opcode encoder.
//!
//! Opcodes, one byte each with up to two extra bytes, followed by the literals they carry:
//! - `1110LLLL`: `L` literals, `1..=15`; `11100000 LLLLLLLL`: `L + 16` literals.
//! - `1111MMMM`: a match of `M` bytes, `1..=15`, at the previous distance;
//!   `11110000 MMMMMMMM`: `M + 16` bytes.
//! - `LLMMMDDD DDDDDDDD`: `L` literals (`0..=3`), then a match of `M + 3` bytes at distance `D`
//!   (eleven bits; `DDD` is neither `110` nor `111`).
//! - `LLMMM110`: the same at the previous distance.
//! - `LLMMM111 DDDDDDDD DDDDDDDD`: the same with a sixteen bit distance, little-endian.
//! - `101LLMMM DDDDDDMM DDDDDDDD`: `L` literals, a match of `MMMMM + 3` bytes at a fourteen bit
//!   distance.
//! - `00000110` and seven zero bytes end the stream.

use vstd::prelude::*;

use crate::frontend_bytes::cmds_bounded;
use crate::lmd::{lit_count, Lmd};
use crate::match_unit::VnUnit;

verus! {

/// The end of stream opcode and its padding.
pub open spec fn eos_ops() -> Seq<u8> {
    seq![0x06u8, 0, 0, 0, 0, 0, 0, 0]
}

pub open spec fn min_int(a: int, b: int) -> int {
    if a < b {
        a
    } else {
        b
    }
}

/// Literal opcodes of 16 literals or more each, for as long as more than 15 remain.
pub open spec fn lrg_lits(lits: Seq<u8>) -> Seq<u8>
    decreases lits.len(),
{
    if lits.len() > 15 {
        let x = min_int(lits.len() as int, 271);
        seq![0xE0u8, (x - 16) as u8] + lits.take(x) + lrg_lits(lits.skip(x))
    } else {
        Seq::empty()
    }
}

/// How many literals `lrg_lits` leaves.
pub open spec fn lrg_rest(n: int) -> int
    decreases n,
{
    if n > 15 {
        lrg_rest(n - min_int(n, 271))
    } else {
        n
    }
}

/// Opcodes for `lits` without a match.
pub open spec fn lit_ops(lits: Seq<u8>) -> Seq<u8> {
    let r = lrg_rest(lits.len() as int);
    lrg_lits(lits) + if r > 0 {
        seq![(0xE0 + r) as u8] + lits.skip(lits.len() - r)
    } else {
        Seq::empty()
    }
}

/// Opcodes for a match of `m` bytes or more at the previous distance, 271 at most each.
pub open spec fn m_ops(m: int) -> Seq<u8>
    decreases m,
{
    if m > 15 {
        let y = min_int(m, 271);
        seq![0xF0u8, (y - 16) as u8] + m_ops(m - y)
    } else if m > 0 {
        seq![(0xF0 + m) as u8]
    } else {
        Seq::empty()
    }
}

/// The opcode that carries `l` literals (`0..=3`), the first `x + 3` bytes of a match at
/// distance `d` and, for a medium distance, the `m` bytes that follow; with what is left of
/// the match.
pub open spec fn head_op(l: int, x: int, m: int, d: int, d_prev: int) -> (Seq<u8>, int) {
    if d == d_prev {
        if l == 0 {
            (seq![(0xF0 + x + 3) as u8], m)
        } else {
            (seq![(l * 64 + x * 8 + 6) as u8], m)
        }
    } else if d < 1536 {
        (seq![(d / 256 + l * 64 + x * 8) as u8, (d % 256) as u8], m)
    } else if d >= 16384 || m == 0 || x + 3 + m > 34 {
        (seq![(l * 64 + x * 8 + 7) as u8, (d % 256) as u8, (d / 256) as u8], m)
    } else {
        let xx = x + m;
        let w = d * 4 + xx % 4;
        (seq![(0xA0 + xx / 4 + l * 8) as u8, (w % 256) as u8, (w / 256) as u8], 0)
    }
}

/// Opcodes for the literals `lits` followed by a match of `m` bytes at distance `d`.
pub open spec fn match_ops(lits: Seq<u8>, m: int, d: int, d_prev: int) -> Seq<u8> {
    let n = lits.len() as int;
    let l = lead_rest(n);
    let x = min_int(m, 10 - 2 * l);
    let (op, rest) = head_op(l, x - 3, m - x, d, d_prev);
    lead_ops(lits) + op + lits.skip(n - l) + m_ops(rest)
}

/// How many of `n` literals ride with the match opcode.
pub open spec fn lead_rest(n: int) -> int {
    let r = lrg_rest(n);
    if r > 3 {
        0
    } else {
        r
    }
}

/// Literal opcodes for the literals that do not ride with the match opcode.
pub open spec fn lead_ops(lits: Seq<u8>) -> Seq<u8> {
    let n = lits.len() as int;
    let r = lrg_rest(n);
    lrg_lits(lits) + if r > 3 {
        seq![(0xE0 + r) as u8] + lits.skip(n - r)
    } else {
        Seq::empty()
    }
}

/// The distance of the last match of `cmds`, zero where there is none.
pub open spec fn last_distance(cmds: Seq<Lmd>) -> int
    decreases cmds.len(),
{
    if cmds.len() == 0 {
        0
    } else if cmds.last().match_len > 0 {
        cmds.last().match_distance as int
    } else {
        last_distance(cmds.drop_last())
    }
}

/// Opcodes for `cmds`, taking their literals in order from `lits`.
pub open spec fn vn_ops(lits: Seq<u8>, cmds: Seq<Lmd>) -> Seq<u8>
    decreases cmds.len(),
{
    if cmds.len() == 0 {
        Seq::empty()
    } else {
        let pre = cmds.drop_last();
        let c = cmds.last();
        let k = lit_count(pre) as int;
        let ls = lits.subrange(k, k + c.literal_len);
        vn_ops(lits, pre) + if c.match_len == 0 {
            lit_ops(ls)
        } else {
            match_ops(ls, c.match_len as int, c.match_distance as int, last_distance(pre))
        }
    }
}

/// Appends literal opcodes for `lits[from..from + n]` while more than 15 remain; returns how
/// many are left.
fn push_lrg_lits(dst: &mut Vec<u8>, lits: &[u8], from: usize, n: usize) -> (r: usize)
    requires
        from + n <= lits@.len(),
    ensures
        final(dst)@ == old(dst)@ + lrg_lits(lits@.subrange(from as int, from + n)),
        r == lrg_rest(n as int),
{
    let mut a = from;
    let mut left = n;
    let len = lits.len();
    while left > 15
        invariant
            len == lits@.len(),
            from <= a,
            a + left == from + n <= lits@.len(),
            old(dst)@ + lrg_lits(lits@.subrange(from as int, from + n)) == dst@ + lrg_lits(
                lits@.subrange(a as int, from + n),
            ),
            lrg_rest(n as int) == lrg_rest(left as int),
        decreases left,
    {
        let x: usize = if left < 271 { left } else { 271 };
        let ghost s = lits@.subrange(a as int, from + n);
        dst.push(0xE0);
        dst.push((x - 16) as u8);
        crate::frontend_bytes::push_bytes(dst, lits, a, a + x);
        proof {
            assert(s.take(x as int) =~= lits@.subrange(a as int, a + x));
            assert(s.skip(x as int) =~= lits@.subrange(a + x, from + n));
            assert(lrg_lits(s) == seq![0xE0u8, (x - 16) as u8] + s.take(x as int) + lrg_lits(s.skip(x as int)));
        }
        a = a + x;
        left = left - x;
    }
    left
}

/// Appends opcodes for a match of `m` bytes at the previous distance.
fn push_m_ops(dst: &mut Vec<u8>, m: u32)
    ensures
        final(dst)@ == old(dst)@ + m_ops(m as int),
{
    let mut left = m;
    while left > 15
        invariant
            old(dst)@ + m_ops(m as int) == dst@ + m_ops(left as int),
        decreases left,
    {
        let y: u32 = if left < 271 { left } else { 271 };
        dst.push(0xF0);
        dst.push((y - 16) as u8);
        let ghost before = left;
        left = left - y;
        proof {
            assert(m_ops(before as int) == seq![0xF0u8, (y - 16) as u8] + m_ops(left as int));
            assert(dst@ + m_ops(left as int) =~= dst@.drop_last().drop_last() + m_ops(before as int));
        }
    }
    if left > 0 {
        dst.push((0xF0 + left) as u8);
        proof {
            assert(dst@ =~= old(dst)@ + m_ops(m as int));
        }
    } else {
        proof {
            assert(dst@ =~= old(dst)@ + m_ops(m as int));
        }
    }
}

/// Appends opcodes for the literals `lits[from..from + n]`, with no match.
fn push_lit_ops(dst: &mut Vec<u8>, lits: &[u8], from: usize, n: usize)
    requires
        from + n <= lits@.len(),
    ensures
        final(dst)@ == old(dst)@ + lit_ops(lits@.subrange(from as int, from + n)),
{
    let ghost s = lits@.subrange(from as int, from + n);
    let len = lits.len();
    let end: usize = from + n;
    let r = push_lrg_lits(dst, lits, from, n);
    proof {
        lemma_lrg_rest_le(n as int);
    }
    if r > 0 {
        let ghost d1 = dst@;
        dst.push((0xE0 + r) as u8);
        crate::frontend_bytes::push_bytes(dst, lits, end - r, end);
        proof {
            assert(s.skip(s.len() - r) =~= lits@.subrange(from + n - r, from + n));
            assert(dst@ =~= old(dst)@ + lit_ops(s));
        }
    } else {
        proof {
            assert(dst@ =~= old(dst)@ + lit_ops(s));
        }
    }
}

pub proof fn lemma_lrg_rest_le(n: int)
    requires
        n >= 0,
    ensures
        0 <= lrg_rest(n) <= n,
        lrg_rest(n) <= 15,
    decreases n,
{
    if n > 15 {
        lemma_lrg_rest_le(n - min_int(n, 271));
    }
}

/// Appends the literal opcodes for those of `lits[from..from + n]` that do not ride with the
/// match opcode; returns how many do.
fn push_lead_ops(dst: &mut Vec<u8>, lits: &[u8], from: usize, n: usize) -> (r: usize)
    requires
        from + n <= lits@.len(),
    ensures
        final(dst)@ == old(dst)@ + lead_ops(lits@.subrange(from as int, from + n)),
        r == lead_rest(n as int),
        r <= 3,
        r <= n,
{
    let ghost s = lits@.subrange(from as int, from + n);
    let len = lits.len();
    let end: usize = from + n;
    let r = push_lrg_lits(dst, lits, from, n);
    proof {
        lemma_lrg_rest_le(n as int);
    }
    let ghost d1 = dst@;
    if r > 3 {
        dst.push((0xE0 + r) as u8);
        crate::frontend_bytes::push_bytes(dst, lits, end - r, end);
        proof {
            assert(s.skip(s.len() - r) =~= lits@.subrange(from + n - r, from + n));
            assert(dst@ =~= old(dst)@ + lead_ops(s));
        }
        0
    } else {
        proof {
            assert(dst@ =~= old(dst)@ + lead_ops(s));
        }
        r
    }
}

/// Appends the opcode that `head_op` gives; returns what is left of the match.
fn push_head_op(dst: &mut Vec<u8>, l: u32, x: u32, m: u32, d: u32, d_prev: u32) -> (r: u32)
    requires
        l <= 3,
        x <= 7 - 2 * l,
        1 <= d <= 0xFFFF,
    ensures
        final(dst)@ == old(dst)@ + head_op(l as int, x as int, m as int, d as int, d_prev as int).0,
        r == head_op(l as int, x as int, m as int, d as int, d_prev as int).1,
{
    let mut rest = m;
    if d == d_prev {
        if l == 0 {
            dst.push((0xF0 + x + 3) as u8);
        } else {
            dst.push((l * 64 + x * 8 + 6) as u8);
        }
    } else if d < 1536 {
        dst.push((d / 256 + l * 64 + x * 8) as u8);
        dst.push((d % 256) as u8);
    } else if d >= 16384 || rest == 0 || rest > 31 - x {
        dst.push((l * 64 + x * 8 + 7) as u8);
        dst.push((d % 256) as u8);
        dst.push((d / 256) as u8);
    } else {
        let xx = x + rest;
        rest = 0;
        let w = d * 4 + xx % 4;
        dst.push((0xA0 + xx / 4 + l * 8) as u8);
        dst.push((w % 256) as u8);
        dst.push((w / 256) as u8);
    }
    proof {
        assert(dst@ =~= old(dst)@ + head_op(l as int, x as int, m as int, d as int, d_prev as int).0);
    }
    rest
}

/// Appends opcodes for the literals `lits[from..from + n]` followed by a match of `m` bytes
/// at distance `d`.
#[verifier::rlimit(40)]
fn push_match_ops(dst: &mut Vec<u8>, lits: &[u8], from: usize, n: usize, m: u32, d: u32, d_prev: u32)
    requires
        from + n <= lits@.len(),
        3 <= m,
        1 <= d <= 0xFFFF,
    ensures
        final(dst)@ == old(dst)@ + match_ops(lits@.subrange(from as int, from + n), m as int, d as int, d_prev as int),
{
    let ghost s = lits@.subrange(from as int, from + n);
    let len = lits.len();
    let end: usize = from + n;
    let l = push_lead_ops(dst, lits, from, n);
    let ghost d2 = dst@;
    let lu = l as u32;
    let cap: u32 = 10 - 2 * lu;
    let x: u32 = if m < cap { m } else { cap };
    let x = x - 3;
    let ghost hop = head_op(l as int, x as int, (m - (x + 3)) as int, d as int, d_prev as int);
    proof {
        assert(x + 3 == min_int(m as int, 10 - 2 * l));
        assert(match_ops(s, m as int, d as int, d_prev as int) == lead_ops(s) + hop.0 + s.skip(n - l) + m_ops(hop.1));
    }
    let rest = push_head_op(dst, lu, x, m - (x + 3), d, d_prev);
    let ghost d3 = dst@;
    crate::frontend_bytes::push_bytes(dst, lits, end - l, end);
    proof {
        assert(s.skip(n - l) =~= lits@.subrange(from + n - l, from + n));
    }
    let ghost d4 = dst@;
    push_m_ops(dst, rest);
    proof {
        assert(d3 == old(dst)@ + lead_ops(s) + hop.0);
        assert(d4 == d3 + s.skip(n - l));
        assert(dst@ =~= old(dst)@ + (lead_ops(s) + hop.0 + s.skip(n - l) + m_ops(hop.1)));
    }
}

/// The VN payload for `cmds`, with its end of stream opcode.
pub fn vn_payload(lits: &Vec<u8>, cmds: &Vec<Lmd>) -> (r: Vec<u8>)
    requires
        lits@.len() == lit_count(cmds@),
        cmds_bounded::<VnUnit>(cmds@),
    ensures
        r@ == vn_ops(lits@, cmds@) + eos_ops(),
{
    let mut dst: Vec<u8> = Vec::new();
    let mut i: usize = 0;
    let mut off: usize = 0;
    let mut d_prev: u32 = 0;
    let total = lits.len();
    while i < cmds.len()
        invariant
            total == lits@.len(),
            i <= cmds@.len(),
            lits@.len() == lit_count(cmds@),
            cmds_bounded::<VnUnit>(cmds@),
            off == lit_count(cmds@.take(i as int)),
            d_prev == last_distance(cmds@.take(i as int)),
            dst@ == vn_ops(lits@, cmds@.take(i as int)),
        decreases cmds@.len() - i,
    {
        let c = cmds[i];
        proof {
            crate::lmd::lemma_lit_count_prefix(cmds@, i + 1);
            assert(cmds@.take(i + 1).drop_last() =~= cmds@.take(i as int));
            assert(cmds@.take(i + 1).last() == c);
            assert(lit_count(cmds@.take(i + 1)) == off + c.literal_len);
        }
        let n = c.literal_len as usize;
        if c.match_len == 0 {
            push_lit_ops(&mut dst, lits.as_slice(), off, n);
        } else {
            push_match_ops(&mut dst, lits.as_slice(), off, n, c.match_len, c.match_distance, d_prev);
            d_prev = c.match_distance;
        }
        off = off + n;
        i = i + 1;
    }
    proof {
        assert(cmds@.take(cmds@.len() as int) =~= cmds@);
    }
    dst.push(0x06);
    let mut k: usize = 0;
    while k < 7
        invariant
            k <= 7,
            dst@ == vn_ops(lits@, cmds@) + seq![0x06u8] + Seq::new(k as nat, |j: int| 0u8),
        decreases 7 - k,
    {
        dst.push(0);
        k += 1;
        proof {
            assert(dst@ =~= vn_ops(lits@, cmds@) + seq![0x06u8] + Seq::new(k as nat, |j: int| 0u8));
        }
    }
    proof {
        assert(dst@ =~= vn_ops(lits@, cmds@) + eos_ops());
    }
    dst
}

} // verus!
