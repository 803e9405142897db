//! The FSE encoder: per symbol state transition entries, and the encoding of one symbol.

use vstd::prelude::*;

use crate::bits::{bits_of, fits, BitWriter};
use crate::fse_weights::{pow2, wsum};

verus! {

/// How a symbol of weight `f` moves the state of a table of `n` states: states at or above
/// `s0` emit `k` bits, the others `k - 1`, and the state that follows is `delta + (s >> bits)`.
#[derive(Clone, Copy, Debug, PartialEq, Eq, Structural)]
pub struct EncoderEntry {
    pub f: u32,
    pub k: u32,
    pub p: u32,
    pub s0: u32,
    pub delta0: i32,
    pub delta1: i32,
}

/// `e` is the entry of a symbol of weight `f` whose states start at `offset` in a table of `n`
/// states: `p = 2^k` with `n <= f * p < 2 * n`.
pub open spec fn entry_spec(e: EncoderEntry, f: int, offset: int, n: int) -> bool {
    &&& e.f == f
    &&& e.k <= 10
    &&& e.p == pow2(e.k as nat)
    &&& 1 <= f
    &&& n <= f * e.p < 2 * n
    &&& n % (e.p as int) == 0
    &&& e.s0 == f * e.p - n
    &&& e.delta0 == offset - f + n / (e.p as int)
    &&& e.delta1 == offset - f + 2 * n / (e.p as int)
}

/// The weights before symbol `i`, summed.
pub open spec fn offset_of(w: Seq<u16>, i: int) -> int {
    wsum(w.take(i))
}

/// The entry of a symbol of weight `f` starting at `offset`, in a table of `n = 2^log` states.
pub fn build_entry(f: u32, offset: u32, n: u32, log: u32) -> (e: EncoderEntry)
    requires
        1 <= f <= n,
        n == pow2(log as nat),
        log <= 10,
        offset + f <= n,
    ensures
        entry_spec(e, f as int, offset as int, n as int),
        e.k <= log,
{
    let mut k: u32 = 0;
    let mut p: u32 = 1;
    let mut q: u32 = n;
    proof {
        reveal_with_fuel(pow2, 1);
        crate::fse_weights::lemma_pow2_mono(log as nat, 10);
        reveal_with_fuel(pow2, 11);
    }
    while f * p < n
        invariant
            1 <= f <= n <= 1024,
            k <= log <= 10,
            p == pow2(k as nat),
            q == pow2((log - k) as nat),
            p * q == n,
            f * p < 2 * n,
            n == pow2(log as nat),
        decreases log - k,
    {
        proof {
            if k == log {
                assert(p == n);
                assert(f * p >= n) by (nonlinear_arith)
                    requires
                        f >= 1,
                        p == n,
                ;
            }
            assert(pow2((log - k) as nat) == 2 * pow2((log - k - 1) as nat));
            crate::fse_weights::lemma_pow2_pos((log - k - 1) as nat);
            assert(p * 2 <= 1024) by (nonlinear_arith)
                requires
                    p * q == n,
                    n <= 1024,
                    q >= 2,
            ;
            assert(pow2((k + 1) as nat) == 2 * pow2(k as nat));
            assert((2 * p) * (q / 2) == p * q) by (nonlinear_arith)
                requires
                    q % 2 == 0,
            ;
            assert(f * (2 * p) < 2 * n) by (nonlinear_arith)
                requires
                    f * p < n,
            ;
        }
        p = p * 2;
        q = q / 2;
        k = k + 1;
    }
    proof {
        assert((n as int) % (p as int) == 0) by (nonlinear_arith)
            requires
                p * q == n,
                p >= 1,
        ;
        assert((n as int) / (p as int) == q) by (nonlinear_arith)
            requires
                p * q == n,
                p >= 1,
        ;
        assert(2 * (n as int) / (p as int) == 2 * q) by (nonlinear_arith)
            requires
                p * q == n,
                p >= 1,
        ;
    }
    let s0 = f * p - n;
    EncoderEntry {
        f,
        k,
        p,
        s0,
        delta0: offset as i32 - f as i32 + q as i32,
        delta1: offset as i32 - f as i32 + 2 * q as i32,
    }
}

/// `2^n` is one shifted left `n` times.
pub proof fn lemma_pow2_shift(n: nat)
    requires
        n < 64,
    ensures
        pow2(n) == (1u64 << (n as u64)),
    decreases n,
{
    if n == 0 {
        assert((1u64 << 0u64) == 1) by (bit_vector);
        reveal_with_fuel(pow2, 1);
    } else {
        lemma_pow2_shift((n - 1) as nat);
        let m = (n - 1) as u64;
        assert((1u64 << (m + 1)) == 2 * (1u64 << m)) by (bit_vector)
            requires
                m < 63,
        ;
    }
}

pub proof fn lemma_fits_pow2_pub(v: u64, n: u32)
    requires
        n <= 32,
        v < pow2(n as nat),
    ensures
        fits(v, n),
{
    lemma_fits_pow2(v, n);
}

proof fn lemma_fits_pow2(v: u64, n: u32)
    requires
        n <= 32,
        v < pow2(n as nat),
    ensures
        fits(v, n),
{
    lemma_pow2_shift(n as nat);
    let nn = n as u64;
    assert(v >> nn == 0) by (bit_vector)
        requires
            v < (1u64 << nn),
            nn <= 32,
    ;
}

/// The state after a symbol at state `s` with entry `e`, and the bits it emits.
pub open spec fn next_state(e: EncoderEntry, s: int) -> (int, u64, u32) {
    if s >= e.s0 {
        (e.delta0 + s / (e.p as int), (s % (e.p as int)) as u64, e.k)
    } else {
        (e.delta1 + s / (e.p / 2) as int, (s % (e.p / 2) as int) as u64, (e.k - 1) as u32)
    }
}

proof fn lemma_state_bounds(s: int, f: int, off: int, n: int, p: int, q: int)
    requires
        0 <= s < n,
        1 <= f,
        0 <= off,
        off + f <= n,
        p >= 1,
        p * q == n,
        n <= f * p < 2 * n,
    ensures
        s >= f * p - n ==> off <= off - f + q + s / p < off + f,
        s < f * p - n ==> p >= 2 && p % 2 == 0 ==> off <= off - f + 2 * q + s / (p / 2) < off + f,
{
    if s >= f * p - n {
        assert(f - q <= s / p) by (nonlinear_arith)
            requires
                s >= f * p - n,
                p * q == n,
                p >= 1,
        ;
        assert(s / p <= q - 1) by (nonlinear_arith)
            requires
                s < n,
                p * q == n,
                p >= 1,
        ;
        assert(q <= f) by (nonlinear_arith)
            requires
                n <= f * p,
                p * q == n,
                p >= 1,
        ;
    } else if p >= 2 && p % 2 == 0 {
        let h = p / 2;
        assert(f < 2 * q) by (nonlinear_arith)
            requires
                f * p < 2 * n,
                p * q == n,
                p >= 1,
        ;
        assert(s / h <= 2 * f - 2 * q - 1) by (nonlinear_arith)
            requires
                0 <= s < f * p - n,
                p * q == n,
                h * 2 == p,
                h >= 1,
        ;
    }
}

/// Encodes one symbol: emits the low bits of the state and moves to the next state.
pub fn encode_symbol(writer: &mut BitWriter, state: u32, e: EncoderEntry, Ghost(offset): Ghost<int>, n: u32) -> (r: u32)
    requires
        old(writer).wf(),
        old(writer)@.len() < usize::MAX - 128,
        state < n <= 1024,
        0 <= offset,
        offset + e.f <= n,
        entry_spec(e, e.f as int, offset, n as int),
    ensures
        final(writer).wf(),
        ({
            let (ns, v, nb) = next_state(e, state as int);
            &&& r == ns
            &&& final(writer)@ == old(writer)@ + bits_of(v, nb)
        }),
        final(writer)@.len() <= old(writer)@.len() + 10,
        r < n,
{
    let q: u32 = n / e.p;
    proof {
        assert(e.p * q == n) by (nonlinear_arith)
            requires
                (n as int) % (e.p as int) == 0,
                q == n / e.p,
                e.p >= 1,
        ;
        lemma_state_bounds(state as int, e.f as int, offset, n as int, e.p as int, q as int);
        crate::fse_weights::lemma_pow2_mono(e.k as nat, 10);
    }
    if state >= e.s0 {
        let v = state % e.p;
        proof {
            lemma_fits_pow2(v as u64, e.k);
        }
        writer.push(v as u64, e.k);
        (e.delta0 + (state / e.p) as i32) as u32
    } else {
        proof {
            if e.k == 0 {
                reveal_with_fuel(pow2, 1);
                assert(e.s0 == 0) by (nonlinear_arith)
                    requires
                        e.s0 == e.f * e.p - n,
                        e.p == 1,
                        e.f <= n,
                        n <= e.f * e.p,
                ;
            }
            assert(pow2(e.k as nat) == 2 * pow2((e.k - 1) as nat));
            crate::fse_weights::lemma_pow2_pos((e.k - 1) as nat);
            assert(e.p >= 2 && e.p % 2 == 0);
            assert(2 * (n as int) / (e.p as int) == 2 * q) by (nonlinear_arith)
                requires
                    e.p * q == n,
                    e.p >= 1,
            ;
            lemma_state_bounds(state as int, e.f as int, offset, n as int, e.p as int, q as int);
        }
        let h = e.p / 2;
        let v = state % h;
        proof {
            lemma_fits_pow2(v as u64, (e.k - 1) as u32);
        }
        writer.push(v as u64, e.k - 1);
        (e.delta1 + (state / h) as i32) as u32
    }
}

proof fn lemma_wsum_prefix(w: Seq<u16>, i: int)
    requires
        0 <= i <= w.len(),
    ensures
        0 <= wsum(w.take(i)) <= wsum(w),
    decreases w.len(),
{
    if i < w.len() {
        lemma_wsum_prefix(w.drop_last(), i);
        assert(w.drop_last().take(i) =~= w.take(i));
    } else {
        assert(w.take(i) =~= w);
        lemma_wsum_nonneg(w);
    }
}

proof fn lemma_wsum_nonneg(s: Seq<u16>)
    ensures
        wsum(s) >= 0,
    decreases s.len(),
{
    if s.len() > 0 {
        lemma_wsum_nonneg(s.drop_last());
    }
}

/// The encoder entries for the weights `w` of a table of `2^log` states; symbols of weight
/// zero get a placeholder that nothing encodes.
pub fn build_encoder_table(w: &Vec<u16>, log: u32) -> (r: Vec<EncoderEntry>)
    requires
        6 <= log <= 10,
        wsum(w@) == pow2(log as nat),
    ensures
        r@.len() == w@.len(),
        forall|i: int|
            0 <= i < w@.len() && w@[i] > 0 ==> entry_spec(#[trigger] r@[i], w@[i] as int, offset_of(w@, i), pow2(log as nat) as int),
        forall|i: int| 0 <= i < w@.len() && w@[i] > 0 ==> offset_of(w@, i) + w@[i] <= pow2(log as nat),
        forall|i: int| 0 <= i < w@.len() ==> offset_of(w@, i) >= 0,
{
    let n = crate::fse_weights::pow2_u32(log);
    let mut r: Vec<EncoderEntry> = Vec::new();
    let mut offset: u32 = 0;
    let mut i: usize = 0;
    let len = w.len();
    while i < len
        invariant
            len == w@.len(),
            i <= len,
            n == pow2(log as nat),
            6 <= log <= 10,
            wsum(w@) == n,
            offset == offset_of(w@, i as int),
            r@.len() == i,
            forall|j: int|
                0 <= j < i && w@[j] > 0 ==> entry_spec(#[trigger] r@[j], w@[j] as int, offset_of(w@, j), n as int),
        decreases len - i,
    {
        proof {
            lemma_wsum_prefix(w@, i + 1);
            assert(w@.take(i + 1).drop_last() =~= w@.take(i as int));
        }
        let f = w[i] as u32;
        if f > 0 {
            let e = build_entry(f, offset, n, log);
            r.push(e);
        } else {
            r.push(EncoderEntry { f: 0, k: 0, p: 1, s0: 0, delta0: 0, delta1: 0 });
        }
        offset = offset + f;
        i += 1;
    }
    proof {
        assert forall|i: int| 0 <= i < w@.len() implies offset_of(w@, i) >= 0 by {
            lemma_wsum_prefix(w@, i);
        }
        assert forall|i: int| 0 <= i < w@.len() && w@[i] > 0 implies offset_of(w@, i) + w@[i] <= pow2(log as nat) by {
            lemma_wsum_prefix(w@, i + 1);
            assert(w@.take(i + 1).drop_last() =~= w@.take(i));
        }
    }
    r
}

} // verus!
