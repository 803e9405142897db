//! FSE decoder tables.
//!
//! A symbol of weight `w` in a table of `n` states owns `w` consecutive states. With
//! `p = 2^k` and `n <= w * p < 2 * n`, the first `x = 2n / p - w` of them read `k` bits and
//! move to `((w + j) << k) - n` plus those bits; the others read `k - 1` bits and move to
//! `(j - x) << (k - 1)` plus those bits. States past the weights' total latch: they read no
//! bits and stay where they are.

use vstd::prelude::*;

use crate::fse_encode::offset_of;
use crate::fse_weights::{
    alphabet_base, alphabet_bits, alphabet_symbols, pow2, symbol_params, wsum, Alphabet, D_STATES,
    D_SYMBOLS, L_STATES, L_SYMBOLS, M_STATES, M_SYMBOLS, U_STATES, U_SYMBOLS,
};

verus! {

/// A state of an L, M or D table: read `k` bits for the next state (plus `delta`), then
/// `v_bits` bits over `v_base` for the value.
#[derive(Clone, Copy, Debug, Default, PartialEq, Eq, Structural)]
pub struct VEntry {
    pub k: u8,
    pub v_bits: u8,
    pub delta: i16,
    pub v_base: u32,
}

/// A state of the literal table: read `k` bits for the next state (plus `delta`), emit `symbol`.
#[derive(Clone, Copy, Debug, Default, PartialEq, Eq, Structural)]
pub struct UEntry {
    pub k: u8,
    pub symbol: u8,
    pub delta: i16,
}

/// The smallest `k` from `k0` up to 10 with `w * 2^k >= n`.
pub open spec fn scale_from(w: int, n: int, k: int) -> int
    decreases 10 - k,
{
    if k >= 10 || w * pow2(k as nat) >= n {
        k
    } else {
        scale_from(w, n, k + 1)
    }
}

/// The bits read and the next state's base for state `j` of a symbol of weight `w` in a table
/// of `n` states.
pub open spec fn state_step(w: int, j: int, n: int) -> (int, int) {
    let k = scale_from(w, n, 0);
    let p = pow2(k as nat) as int;
    let q = n / p;
    let x = 2 * q - w;
    if j < x {
        (k, (w + j) * p - n)
    } else {
        (k - 1, (j - x) * (p / 2))
    }
}

/// State `j` of symbol `i` of alphabet `a`, whose weight is `w`, in the block at `offset`.
pub open spec fn v_entry_spec(a: Alphabet, i: int, w: int, j: int, n: int, offset: int) -> VEntry {
    VEntry {
        k: state_step(w, j, n).0 as u8,
        v_bits: alphabet_bits(a, i) as u8,
        delta: (offset + state_step(w, j, n).1) as i16,
        v_base: alphabet_base(a, i) as u32,
    }
}

/// State `j` of literal `i`, whose weight is `w`.
pub open spec fn u_entry_spec(i: int, w: int, j: int) -> UEntry {
    UEntry {
        k: state_step(w, j, U_STATES as int).0 as u8,
        symbol: i as u8,
        delta: state_step(w, j, U_STATES as int).1 as i16,
    }
}

/// A literal state past the weights' total.
pub open spec fn u_latch(t: int) -> UEntry {
    UEntry { k: 0, symbol: 0, delta: t as i16 }
}

/// A state past the weights' total: it reads nothing and stays.
pub open spec fn v_latch(t: int) -> VEntry {
    VEntry { k: 0, v_bits: 0, delta: t as i16, v_base: 0 }
}

/// The scale of a symbol of weight `w` in a table of `n = 2^log` states: `(k, p = 2^k, n / p)`.
pub fn fse_scale(w: u32, n: u32, log: u32) -> (r: (u32, u32, u32))
    requires
        1 <= w <= n,
        n == pow2(log as nat),
        log <= 10,
    ensures
        r.0 == scale_from(w as int, n as int, 0),
        r.1 == pow2(r.0 as nat),
        r.2 == n / r.1,
        r.1 * r.2 == n,
        n <= w * r.1 < 2 * n,
        r.0 <= log,
{
    let mut k: u32 = 0;
    let mut p: u32 = 1;
    let mut q: u32 = n;
    proof {
        reveal_with_fuel(pow2, 1);
        crate::fse_weights::lemma_pow2_mono(log as nat, 10);
        reveal_with_fuel(pow2, 11);
    }
    while w * p < n
        invariant
            1 <= w <= n <= 1024,
            k <= log <= 10,
            p == pow2(k as nat),
            q == pow2((log - k) as nat),
            p * q == n,
            w * p < 2 * n,
            n == pow2(log as nat),
            scale_from(w as int, n as int, 0) == scale_from(w as int, n as int, k as int),
        decreases log - k,
    {
        proof {
            if k == log {
                assert(w * p >= n) by (nonlinear_arith)
                    requires
                        w >= 1,
                        p == n,
                ;
            }
            assert(pow2((log - k) as nat) == 2 * pow2((log - k - 1) as nat));
            crate::fse_weights::lemma_pow2_pos((log - k - 1) as nat);
            assert(p * 2 <= 1024) by (nonlinear_arith)
                requires
                    p * q == n,
                    n <= 1024,
                    q >= 2,
            ;
            assert(pow2((k + 1) as nat) == 2 * pow2(k as nat));
            assert((2 * p) * (q / 2) == p * q) by (nonlinear_arith)
                requires
                    q % 2 == 0,
            ;
            assert(w * (2 * p) < 2 * n) by (nonlinear_arith)
                requires
                    w * p < n,
            ;
        }
        p = p * 2;
        q = q / 2;
        k = k + 1;
    }
    proof {
        assert(n / p == q) by (nonlinear_arith)
            requires
                p * q == n,
                p >= 1,
        ;
    }
    (k, p, q)
}

/// Writes the states of `weights` into `table[offset..offset + n]`: each symbol's states in
/// turn, then latches up to `n`.
pub fn build_v_table_block(weights: &Vec<u16>, a: Alphabet, table: &mut Vec<VEntry>, offset: usize, n: u32, log: u32)
    requires
        weights@.len() == alphabet_symbols(a),
        wsum(weights@) <= n,
        n == pow2(log as nat),
        6 <= log <= 8,
        offset + n <= old(table)@.len(),
        offset + n <= 384,
    ensures
        final(table)@.len() == old(table)@.len(),
        forall|t: int| 0 <= t < final(table)@.len() && !(offset <= t < offset + n) ==> #[trigger] final(table)@[t] == old(table)@[t],
        forall|i: int, j: int|
            0 <= i < weights@.len() && 0 <= j < weights@[i] ==> final(table)@[offset + offset_of(weights@, i) + j]
                == #[trigger] v_entry_spec(a, i, weights@[i] as int, j, n as int, offset as int),
        forall|t: int| wsum(weights@) <= t < n ==> #[trigger] final(table)@[offset + t] == v_latch(offset + t),
{
    let ghost t0 = table@;
    let len = weights.len();
    let mut total: u32 = 0;
    let mut i: usize = 0;
    proof {
        reveal_with_fuel(pow2, 9);
    }
    while i < len
        invariant
            len == weights@.len() == alphabet_symbols(a),
            i <= len,
            wsum(weights@) <= n,
            n == pow2(log as nat),
            6 <= log <= 8,
            offset + n <= table@.len(),
            table@.len() == t0.len(),
            offset + n <= 384,
            total == offset_of(weights@, i as int),
            total <= n,
            forall|t: int| 0 <= t < table@.len() && !(offset <= t < offset + total) ==> #[trigger] table@[t] == t0[t],
            forall|i2: int, j: int|
                0 <= i2 < i && 0 <= j < weights@[i2] ==> table@[offset + offset_of(weights@, i2) + j]
                    == #[trigger] v_entry_spec(a, i2, weights@[i2] as int, j, n as int, offset as int),
            forall|i2: int| 0 <= i2 <= i ==> #[trigger] offset_of(weights@, i2) <= total,
        decreases len - i,
    {
        proof {
            lemma_offset_step(weights@, i as int);
        }
        let w = weights[i] as u32;
        if w > 0 {
            let (k, p, q) = fse_scale(w, n, log);
            let (v_base, v_bits) = symbol_params(a, i);
            proof {
                lemma_scale_facts(w as int, p as int, q as int, n as int);
            }
            let x = 2 * q - w;
            let ghost ts = table@;
            proof {
                assert(forall|i2: int, j: int|
                    0 <= i2 < i && 0 <= j < weights@[i2] ==> ts[offset + offset_of(weights@, i2) + j]
                        == #[trigger] v_entry_spec(a, i2, weights@[i2] as int, j, n as int, offset as int));
            }
            let mut j: u32 = 0;
            while j < w
                invariant
                    offset + n <= table@.len(),
                    table@.len() == t0.len(),
                    offset + n <= 384,
                    total + w <= n,
                    n <= 1024,
                    j <= w,
                    i < len == weights@.len(),
                    total == offset_of(weights@, i as int),
                    w == weights@[i as int],
                    k == scale_from(w as int, n as int, 0),
                    p == pow2(k as nat),
                    q == n / p,
                    p * q == n,
                    n <= w * p < 2 * n,
                    k <= 8,
                    x == 2 * q - w,
                    1 <= x <= w,
                    v_base == alphabet_base(a, i as int),
                    v_bits == alphabet_bits(a, i as int),
                    forall|t: int| 0 <= t < table@.len() && !(offset + total <= t < offset + total + j) ==> #[trigger] table@[t] == ts[t],
                    forall|j2: int| 0 <= j2 < j ==> table@[offset + total + j2] == #[trigger] v_entry_spec(a, i as int, w as int, j2, n as int, offset as int),
                decreases w - j,
            {
                let e = if j < x {
                    proof {
                        lemma_mul_lt((w + j) as int, 2 * q as int, p as int);
                        lemma_mul_le(w as int, (w + j) as int, p as int);
                        assert((2 * q as int) * p == 2 * n) by (nonlinear_arith)
                            requires
                                p * q == n,
                        ;
                    }
                    VEntry { k: k as u8, v_bits: v_bits as u8, delta: (offset as u32 + (w + j) * p - n) as i16, v_base }
                } else {
                    proof {
                        if k == 0 {
                            reveal_with_fuel(pow2, 1);
                            assert(false) by (nonlinear_arith)
                                requires
                                    p == 1,
                                    p * q == n,
                                    n <= w * p,
                                    w <= n,
                                    x == 2 * q - w,
                                    j >= x,
                                    j < w,
                            ;
                        }
                        assert(pow2(k as nat) == 2 * pow2((k - 1) as nat));
                        let h = p / 2;
                        lemma_mul_lt((j - x) as int, (w - x) as int, h as int);
                        assert((w - x) * h == w * p - n) by (nonlinear_arith)
                            requires
                                x == 2 * q - w,
                                h * 2 == p,
                                p * q == n,
                        ;
                    }
                    VEntry { k: (k - 1) as u8, v_bits: v_bits as u8, delta: (offset as u32 + (j - x) * (p / 2)) as i16, v_base }
                };
                proof {
                    assert(e == v_entry_spec(a, i as int, w as int, j as int, n as int, offset as int));
                }
                table.set(offset + total as usize + j as usize, e);
                j += 1;
            }
            proof {
                assert forall|i2: int, j2: int|
                    0 <= i2 < i && 0 <= j2 < weights@[i2] implies table@[offset + offset_of(weights@, i2) + j2]
                        == #[trigger] v_entry_spec(a, i2, weights@[i2] as int, j2, n as int, offset as int) by {
                    lemma_offset_step(weights@, i2);
                    lemma_offset_mono(weights@, i2 + 1, i as int);
                    lemma_offset_mono(weights@, 0, i2);
                    assert(weights@.take(0) =~= Seq::<u16>::empty());
                    let pos = offset + offset_of(weights@, i2) + j2;
                    assert(ts[pos] == v_entry_spec(a, i2, weights@[i2] as int, j2, n as int, offset as int));
                    assert(table@[pos] == ts[pos]);
                }
                assert forall|j2: int| 0 <= j2 < weights@[i as int] implies table@[offset + offset_of(weights@, i as int) + j2]
                        == #[trigger] v_entry_spec(a, i as int, weights@[i as int] as int, j2, n as int, offset as int) by {
                    assert(table@[offset + total + j2] == v_entry_spec(a, i as int, w as int, j2, n as int, offset as int));
                }
            }
            total = total + w;
        }
        proof {
            assert forall|i2: int| 0 <= i2 <= i + 1 implies #[trigger] offset_of(weights@, i2) <= total by {
                lemma_offset_mono(weights@, i2, i + 1);
            }
        }
        i += 1;
    }
    proof {
        assert(weights@.take(len as int) =~= weights@);
    }
    let mut t: usize = total as usize;
    while t < n as usize
        invariant
            total == wsum(weights@),
            total <= t <= n,
            offset + n <= table@.len() == t0.len(),
            offset + n <= 384,
            forall|u: int| 0 <= u < table@.len() && !(offset <= u < offset + t) ==> #[trigger] table@[u] == t0[u],
            forall|i2: int, j: int|
                0 <= i2 < len && 0 <= j < weights@[i2] ==> table@[offset + offset_of(weights@, i2) + j]
                    == #[trigger] v_entry_spec(a, i2, weights@[i2] as int, j, n as int, offset as int),
            forall|u: int| total <= u < t ==> #[trigger] table@[offset + u] == v_latch(offset + u),
            len == weights@.len(),
        decreases n - t,
    {
        let ghost tb = table@;
        proof {
            assert(forall|i2: int, j: int|
                0 <= i2 < len && 0 <= j < weights@[i2] ==> tb[offset + offset_of(weights@, i2) + j]
                    == #[trigger] v_entry_spec(a, i2, weights@[i2] as int, j, n as int, offset as int));
        }
        table.set(offset + t, VEntry { k: 0, v_bits: 0, delta: (offset + t) as i16, v_base: 0 });
        proof {
            assert forall|i2: int, j: int|
                0 <= i2 < len && 0 <= j < weights@[i2] implies table@[offset + offset_of(weights@, i2) + j]
                    == #[trigger] v_entry_spec(a, i2, weights@[i2] as int, j, n as int, offset as int) by {
                lemma_offset_step(weights@, i2);
                lemma_offset_mono(weights@, i2 + 1, len as int);
                assert(weights@.take(len as int) =~= weights@);
                lemma_offset_mono(weights@, 0, i2);
                assert(weights@.take(0) =~= Seq::<u16>::empty());
                let pos = offset + offset_of(weights@, i2) + j;
                assert(tb[pos] == v_entry_spec(a, i2, weights@[i2] as int, j, n as int, offset as int));
                assert(pos < offset + t);
            }
        }
        t += 1;
    }
}

/// Writes the states of the literal `weights` into `table`: each symbol's states in turn,
/// then latches.
pub fn build_u_table(weights: &Vec<u16>, table: &mut Vec<UEntry>)
    requires
        weights@.len() == U_SYMBOLS,
        wsum(weights@) <= U_STATES,
        old(table)@.len() == U_STATES,
    ensures
        final(table)@.len() == old(table)@.len(),
        forall|i: int, j: int|
            0 <= i < weights@.len() && 0 <= j < weights@[i] ==> final(table)@[offset_of(weights@, i) + j]
                == #[trigger] u_entry_spec(i, weights@[i] as int, j),
        forall|t: int| wsum(weights@) <= t < U_STATES ==> #[trigger] final(table)@[t] == u_latch(t),
{
    let n: u32 = U_STATES;
    let log: u32 = 10;
    let offset: usize = 0;
    let ghost t0 = table@;
    let len = weights.len();
    let mut total: u32 = 0;
    let mut i: usize = 0;
    proof {
        reveal_with_fuel(pow2, 11);
    }
    while i < len
        invariant
            len == weights@.len() == U_SYMBOLS,
            i <= len,
            wsum(weights@) <= n,
            n == pow2(log as nat),
            n == U_STATES,
            log == 10,
            offset == 0,
            table@.len() == t0.len() == U_STATES,
            total == offset_of(weights@, i as int),
            total <= n,
            forall|t: int| 0 <= t < table@.len() && !(offset <= t < offset + total) ==> #[trigger] table@[t] == t0[t],
            forall|i2: int, j: int|
                0 <= i2 < i && 0 <= j < weights@[i2] ==> table@[offset + offset_of(weights@, i2) + j]
                    == #[trigger] u_entry_spec(i2, weights@[i2] as int, j),
            forall|i2: int| 0 <= i2 <= i ==> #[trigger] offset_of(weights@, i2) <= total,
        decreases len - i,
    {
        proof {
            lemma_offset_step(weights@, i as int);
        }
        let w = weights[i] as u32;
        if w > 0 {
            let (k, p, q) = fse_scale(w, n, log);
            proof {
                lemma_scale_facts(w as int, p as int, q as int, n as int);
            }
            let x = 2 * q - w;
            let ghost ts = table@;
            proof {
                assert(forall|i2: int, j: int|
                    0 <= i2 < i && 0 <= j < weights@[i2] ==> ts[offset + offset_of(weights@, i2) + j]
                        == #[trigger] u_entry_spec(i2, weights@[i2] as int, j));
            }
            let mut j: u32 = 0;
            while j < w
                invariant
                    table@.len() == t0.len() == U_STATES,
                    offset == 0,
                    n == U_STATES,
                    total + w <= n,
                    i < U_SYMBOLS,
                    j <= w,
                    i < len == weights@.len(),
                    total == offset_of(weights@, i as int),
                    w == weights@[i as int],
                    k == scale_from(w as int, n as int, 0),
                    p == pow2(k as nat),
                    q == n / p,
                    p * q == n,
                    n <= w * p < 2 * n,
                    k <= 10,
                    x == 2 * q - w,
                    1 <= x <= w,
                    forall|t: int| 0 <= t < table@.len() && !(offset + total <= t < offset + total + j) ==> #[trigger] table@[t] == ts[t],
                    forall|j2: int| 0 <= j2 < j ==> table@[offset + total + j2] == #[trigger] u_entry_spec(i as int, w as int, j2),
                decreases w - j,
            {
                let e = if j < x {
                    proof {
                        lemma_mul_lt((w + j) as int, 2 * q as int, p as int);
                        lemma_mul_le(w as int, (w + j) as int, p as int);
                        assert((2 * q as int) * p == 2 * n) by (nonlinear_arith)
                            requires
                                p * q == n,
                        ;
                    }
                    UEntry { k: k as u8, symbol: i as u8, delta: ((w + j) * p - n) as i16 }
                } else {
                    proof {
                        if k == 0 {
                            reveal_with_fuel(pow2, 1);
                            assert(false) by (nonlinear_arith)
                                requires
                                    p == 1,
                                    p * q == n,
                                    n <= w * p,
                                    w <= n,
                                    x == 2 * q - w,
                                    j >= x,
                                    j < w,
                            ;
                        }
                        assert(pow2(k as nat) == 2 * pow2((k - 1) as nat));
                        let h = p / 2;
                        lemma_mul_lt((j - x) as int, (w - x) as int, h as int);
                        assert((w - x) * h == w * p - n) by (nonlinear_arith)
                            requires
                                x == 2 * q - w,
                                h * 2 == p,
                                p * q == n,
                        ;
                    }
                    UEntry { k: (k - 1) as u8, symbol: i as u8, delta: ((j - x) * (p / 2)) as i16 }
                };
                proof {
                    assert(e == u_entry_spec(i as int, w as int, j as int));
                }
                table.set(offset + total as usize + j as usize, e);
                j += 1;
            }
            proof {
                assert forall|i2: int, j2: int|
                    0 <= i2 < i && 0 <= j2 < weights@[i2] implies table@[offset + offset_of(weights@, i2) + j2]
                        == #[trigger] u_entry_spec(i2, weights@[i2] as int, j2) by {
                    lemma_offset_step(weights@, i2);
                    lemma_offset_mono(weights@, i2 + 1, i as int);
                    lemma_offset_mono(weights@, 0, i2);
                    assert(weights@.take(0) =~= Seq::<u16>::empty());
                    let pos = offset + offset_of(weights@, i2) + j2;
                    assert(ts[pos] == u_entry_spec(i2, weights@[i2] as int, j2));
                    assert(table@[pos] == ts[pos]);
                }
                assert forall|j2: int| 0 <= j2 < weights@[i as int] implies table@[offset + offset_of(weights@, i as int) + j2]
                        == #[trigger] u_entry_spec(i as int, weights@[i as int] as int, j2) by {
                    assert(table@[offset + total + j2] == u_entry_spec(i as int, w as int, j2));
                }
            }
            total = total + w;
        }
        proof {
            assert forall|i2: int| 0 <= i2 <= i + 1 implies #[trigger] offset_of(weights@, i2) <= total by {
                lemma_offset_mono(weights@, i2, i + 1);
            }
        }
        i += 1;
    }
    proof {
        assert(weights@.take(len as int) =~= weights@);
    }
    let mut t: usize = total as usize;
    while t < n as usize
        invariant
            total == wsum(weights@),
            total <= t <= n,
            table@.len() == t0.len() == U_STATES,
            offset == 0,
            n == U_STATES,
            forall|u: int| 0 <= u < table@.len() && !(offset <= u < offset + t) ==> #[trigger] table@[u] == t0[u],
            forall|i2: int, j: int|
                0 <= i2 < len && 0 <= j < weights@[i2] ==> table@[offset + offset_of(weights@, i2) + j]
                    == #[trigger] u_entry_spec(i2, weights@[i2] as int, j),
            forall|u: int| total <= u < t ==> #[trigger] table@[u] == u_latch(u),
            len == weights@.len(),
        decreases n - t,
    {
        let ghost tb = table@;
        proof {
            assert(forall|i2: int, j: int|
                0 <= i2 < len && 0 <= j < weights@[i2] ==> tb[offset + offset_of(weights@, i2) + j]
                    == #[trigger] u_entry_spec(i2, weights@[i2] as int, j));
        }
        table.set(offset + t, UEntry { k: 0, symbol: 0, delta: (offset + t) as i16 });
        proof {
            assert forall|i2: int, j: int|
                0 <= i2 < len && 0 <= j < weights@[i2] implies table@[offset + offset_of(weights@, i2) + j]
                    == #[trigger] u_entry_spec(i2, weights@[i2] as int, j) by {
                lemma_offset_step(weights@, i2);
                lemma_offset_mono(weights@, i2 + 1, len as int);
                assert(weights@.take(len as int) =~= weights@);
                lemma_offset_mono(weights@, 0, i2);
                assert(weights@.take(0) =~= Seq::<u16>::empty());
                let pos = offset + offset_of(weights@, i2) + j;
                assert(tb[pos] == u_entry_spec(i2, weights@[i2] as int, j));
                assert(pos < offset + t);
            }
        }
        t += 1;
    }
}

/// The weights of the four tables of a block.
pub struct Weights {
    pub l: Vec<u16>,
    pub m: Vec<u16>,
    pub d: Vec<u16>,
    pub u: Vec<u16>,
}

impl Weights {
    /// Each table's weights total at most its state count.
    pub open spec fn wf(&self) -> bool {
        &&& self.l@.len() == L_SYMBOLS && wsum(self.l@) <= L_STATES
        &&& self.m@.len() == M_SYMBOLS && wsum(self.m@) <= M_STATES
        &&& self.d@.len() == D_SYMBOLS && wsum(self.d@) <= D_STATES
        &&& self.u@.len() == U_SYMBOLS && wsum(self.u@) <= U_STATES
    }
}

/// The states of the alphabet `a` with weights `w` in the block at `offset` of `n` states.
pub open spec fn v_block_ok(t: Seq<VEntry>, a: Alphabet, w: Seq<u16>, offset: int, n: int) -> bool {
    &&& forall|i: int, j: int|
        0 <= i < w.len() && 0 <= j < w[i] ==> t[offset + offset_of(w, i) + j] == #[trigger] v_entry_spec(a, i, w[i] as int, j, n, offset)
    &&& forall|s: int| wsum(w) <= s < n ==> #[trigger] t[offset + s] == v_latch(offset + s)
}

/// The FSE decoding tables: the L, M and D states in one table, one after the other, and the
/// literal states.
pub struct Decoder {
    v: Vec<VEntry>,
    u: Vec<UEntry>,
}

impl Decoder {
    pub closed spec fn v_table(&self) -> Seq<VEntry> {
        self.v@
    }

    pub closed spec fn u_table(&self) -> Seq<UEntry> {
        self.u@
    }

    pub closed spec fn wf(&self) -> bool {
        self.v@.len() == L_STATES + M_STATES + D_STATES && self.u@.len() == U_STATES
    }

    pub fn new() -> (r: Decoder)
        ensures
            r.wf(),
    {
        let mut v: Vec<VEntry> = Vec::new();
        let mut i: usize = 0;
        while i < 384
            invariant
                i <= 384,
                v@.len() == i,
            decreases 384 - i,
        {
            v.push(VEntry { k: 0, v_bits: 0, delta: 0, v_base: 0 });
            i += 1;
        }
        let mut u: Vec<UEntry> = Vec::new();
        let mut i: usize = 0;
        while i < 1024
            invariant
                i <= 1024,
                u@.len() == i,
            decreases 1024 - i,
        {
            u.push(UEntry { k: 0, symbol: 0, delta: 0 });
            i += 1;
        }
        Decoder { v, u }
    }

    pub fn v_entry(&self, i: usize) -> (r: VEntry)
        requires
            self.wf(),
            i < L_STATES + M_STATES + D_STATES,
        ensures
            r == self.v_table()[i as int],
    {
        self.v[i]
    }

    pub fn u_entry(&self, i: usize) -> (r: UEntry)
        requires
            self.wf(),
            i < U_STATES,
        ensures
            r == self.u_table()[i as int],
    {
        self.u[i]
    }

    /// Builds the tables for `weights`: L states from 0, M states from `L_STATES`, D states
    /// from `L_STATES + M_STATES`, each block's deltas relative to the whole table.
    pub fn init(&mut self, weights: &Weights)
        requires
            old(self).wf(),
            weights.wf(),
        ensures
            final(self).wf(),
            v_block_ok(final(self).v_table(), Alphabet::L, weights.l@, 0, L_STATES as int),
            v_block_ok(final(self).v_table(), Alphabet::M, weights.m@, L_STATES as int, M_STATES as int),
            v_block_ok(final(self).v_table(), Alphabet::D, weights.d@, (L_STATES + M_STATES) as int, D_STATES as int),
            forall|i: int, j: int|
                0 <= i < weights.u@.len() && 0 <= j < weights.u@[i] ==> final(self).u_table()[offset_of(weights.u@, i) + j]
                    == #[trigger] u_entry_spec(i, weights.u@[i] as int, j),
            forall|t: int| wsum(weights.u@) <= t < U_STATES ==> #[trigger] final(self).u_table()[t] == u_latch(t),
    {
        self.init_v_table(weights);
        build_u_table(&weights.u, &mut self.u);
    }

    fn init_v_table(&mut self, weights: &Weights)
        requires
            old(self).wf(),
            weights.wf(),
        ensures
            final(self).wf(),
            final(self).u == old(self).u,
            v_block_ok(final(self).v@, Alphabet::L, weights.l@, 0, L_STATES as int),
            v_block_ok(final(self).v@, Alphabet::M, weights.m@, L_STATES as int, M_STATES as int),
            v_block_ok(final(self).v@, Alphabet::D, weights.d@, (L_STATES + M_STATES) as int, D_STATES as int),
    {
        proof {
            reveal_with_fuel(pow2, 9);
        }
        build_v_table_block(&weights.l, Alphabet::L, &mut self.v, 0, L_STATES, 6);
        let ghost t1 = self.v@;
        build_v_table_block(&weights.m, Alphabet::M, &mut self.v, L_STATES as usize, M_STATES, 6);
        let ghost t2 = self.v@;
        proof {
            lemma_block_kept(t1, t2, Alphabet::L, weights.l@, 0, 64, 64, 128);
        }
        build_v_table_block(&weights.d, Alphabet::D, &mut self.v, (L_STATES + M_STATES) as usize, D_STATES, 8);
        proof {
            lemma_block_kept(t2, self.v@, Alphabet::L, weights.l@, 0, 64, 128, 384);
            lemma_block_kept(t2, self.v@, Alphabet::M, weights.m@, 64, 64, 128, 384);
        }
    }
}

/// A block's states stay put while another block, elsewhere, is written.
proof fn lemma_block_kept(t1: Seq<VEntry>, t2: Seq<VEntry>, a: Alphabet, w: Seq<u16>, offset: int, n: int, lo: int, hi: int)
    requires
        v_block_ok(t1, a, w, offset, n),
        t1.len() == t2.len(),
        0 <= offset,
        offset + n <= lo <= hi,
        hi <= t1.len(),
        wsum(w) <= n,
        forall|t: int| 0 <= t < t2.len() && !(lo <= t < hi) ==> #[trigger] t2[t] == t1[t],
    ensures
        v_block_ok(t2, a, w, offset, n),
{
    lemma_offset_mono(w, 0, w.len() as int);
    assert(w.take(0) =~= Seq::<u16>::empty());
    assert(w.take(w.len() as int) =~= w);
    assert forall|i: int, j: int| 0 <= i < w.len() && 0 <= j < w[i] implies t2[offset + offset_of(w, i) + j] == #[trigger] v_entry_spec(a, i, w[i] as int, j, n, offset) by {
        lemma_offset_step(w, i);
        lemma_offset_mono(w, 0, i);
        assert(w.take(0) =~= Seq::<u16>::empty());
        let pos = offset + offset_of(w, i) + j;
        assert(t2[pos] == t1[pos]);
    }
    assert forall|s: int| wsum(w) <= s < n implies #[trigger] t2[offset + s] == v_latch(offset + s) by {
        assert(t2[offset + s] == t1[offset + s]);
    }
}

proof fn lemma_scale_facts(w: int, p: int, q: int, n: int)
    requires
        p >= 1,
        p * q == n,
        n <= w * p < 2 * n,
    ensures
        q <= w < 2 * q,
{
    if w >= 2 * q {
        lemma_mul_le(2 * q, w, p);
        assert((2 * q) * p == 2 * n) by (nonlinear_arith)
            requires
                p * q == n,
        ;
    }
    if w < q {
        lemma_mul_lt(w, q, p);
        assert(q * p == n) by (nonlinear_arith)
            requires
                p * q == n,
        ;
    }
}

proof fn lemma_mul_lt(a: int, b: int, p: int)
    requires
        a < b,
        p >= 1,
    ensures
        a * p < b * p,
{
    assert(a * p < b * p) by (nonlinear_arith)
        requires
            a < b,
            p >= 1,
    ;
}

proof fn lemma_mul_le(a: int, b: int, p: int)
    requires
        a <= b,
        p >= 0,
    ensures
        a * p <= b * p,
{
    assert(a * p <= b * p) by (nonlinear_arith)
        requires
            a <= b,
            p >= 0,
    ;
}

proof fn lemma_offset_step(w: Seq<u16>, i: int)
    requires
        0 <= i < w.len(),
    ensures
        offset_of(w, i + 1) == offset_of(w, i) + w[i],
        offset_of(w, i + 1) <= wsum(w),
{
    assert(w.take(i + 1).drop_last() =~= w.take(i));
    lemma_wsum_prefix_le(w, i + 1);
}

proof fn lemma_offset_mono(w: Seq<u16>, a: int, b: int)
    requires
        0 <= a <= b <= w.len(),
    ensures
        offset_of(w, a) <= offset_of(w, b),
    decreases b - a,
{
    if a < b {
        lemma_offset_mono(w, a, b - 1);
        lemma_offset_step(w, b - 1);
    }
}

proof fn lemma_wsum_prefix_le(w: Seq<u16>, i: int)
    requires
        0 <= i <= w.len(),
    ensures
        wsum(w.take(i)) <= wsum(w),
    decreases w.len(),
{
    if i < w.len() {
        lemma_wsum_prefix_le(w.drop_last(), i);
        assert(w.drop_last().take(i) =~= w.take(i));
    } else {
        assert(w.take(i) =~= w);
    }
}

} // verus!
