//! FSE alphabets and weights: the L, M and D value tables, and the normalization of symbol
//! frequencies into weights that total a table's state count.

use vstd::prelude::*;

verus! {

pub const L_SYMBOLS: usize = 20;

pub const M_SYMBOLS: usize = 20;

pub const D_SYMBOLS: usize = 64;

pub const U_SYMBOLS: usize = 256;

pub const L_STATES: u32 = 64;

pub const M_STATES: u32 = 64;

pub const D_STATES: u32 = 256;

pub const U_STATES: u32 = 1024;

/// The extra bits of L symbol `s`.
pub open spec fn l_bits(s: int) -> u32 {
    if s < 16 {
        0
    } else if s == 16 {
        2
    } else if s == 17 {
        3
    } else if s == 18 {
        5
    } else {
        8
    }
}

/// The smallest L value of symbol `s`: each symbol's values follow those of the one before.
pub open spec fn l_base(s: int) -> nat
    decreases s,
{
    if s <= 0 {
        0
    } else {
        l_base(s - 1) + pow2(l_bits(s - 1) as nat)
    }
}

/// The extra bits of M symbol `s`.
pub open spec fn m_bits(s: int) -> u32 {
    if s < 16 {
        0
    } else if s == 16 {
        3
    } else if s == 17 {
        5
    } else if s == 18 {
        8
    } else {
        11
    }
}

/// The smallest M value of symbol `s`.
pub open spec fn m_base(s: int) -> nat
    decreases s,
{
    if s <= 0 {
        0
    } else {
        m_base(s - 1) + pow2(m_bits(s - 1) as nat)
    }
}

pub open spec fn pow2(e: nat) -> nat
    decreases e,
{
    if e == 0 {
        1
    } else {
        2 * pow2((e - 1) as nat)
    }
}

/// The extra bits of D symbol `s`.
pub open spec fn d_bits(s: int) -> u32 {
    if s < 4 {
        0
    } else {
        ((s - 4) / 4 + 1) as u32
    }
}

/// The smallest D value of symbol `s`.
pub open spec fn d_base(s: int) -> nat
    decreases s,
{
    if s <= 0 {
        0
    } else {
        d_base(s - 1) + pow2(d_bits(s - 1) as nat)
    }
}

/// An alphabet: the symbol count, the extra bits and base value of each symbol.
#[derive(Clone, Copy, Debug, PartialEq, Eq, Structural)]
pub enum Alphabet {
    L,
    M,
    D,
}

pub open spec fn alphabet_symbols(a: Alphabet) -> int {
    match a {
        Alphabet::L => L_SYMBOLS as int,
        Alphabet::M => M_SYMBOLS as int,
        Alphabet::D => D_SYMBOLS as int,
    }
}

pub open spec fn alphabet_bits(a: Alphabet, s: int) -> u32 {
    match a {
        Alphabet::L => l_bits(s),
        Alphabet::M => m_bits(s),
        Alphabet::D => d_bits(s),
    }
}

pub open spec fn alphabet_base(a: Alphabet, s: int) -> nat {
    match a {
        Alphabet::L => l_base(s),
        Alphabet::M => m_base(s),
        Alphabet::D => d_base(s),
    }
}

/// The largest value of an alphabet.
pub open spec fn alphabet_max(a: Alphabet) -> u32 {
    match a {
        Alphabet::L => 315,
        Alphabet::M => 2359,
        Alphabet::D => 262139,
    }
}

proof fn lemma_pow2_values()
    ensures
        pow2(1) == 2,
        pow2(2) == 4,
        pow2(15) == 32768,
        forall|e: nat| #[trigger] pow2(e + 1) == 2 * pow2(e),
{
    reveal_with_fuel(pow2, 16);
    assert forall|e: nat| #[trigger] pow2(e + 1) == 2 * pow2(e) by {
        assert((e + 1) as nat - 1 == e);
    }
}

pub proof fn lemma_pow2_pos(e: nat)
    ensures
        pow2(e) >= 1,
    decreases e,
{
    if e > 0 {
        lemma_pow2_pos((e - 1) as nat);
    }
}

pub proof fn lemma_pow2_mono(a: nat, b: nat)
    requires
        a <= b,
    ensures
        pow2(a) <= pow2(b),
    decreases b,
{
    if a < b {
        lemma_pow2_mono(a, (b - 1) as nat);
        lemma_pow2_pos((b - 1) as nat);
    }
}

/// The extra bits of symbol `s`.
pub fn symbol_bits(a: Alphabet, s: usize) -> (r: u32)
    requires
        s < alphabet_symbols(a),
    ensures
        r == alphabet_bits(a, s as int),
        r <= 15,
{
    match a {
        Alphabet::L => {
            if s < 16 {
                0
            } else if s == 16 {
                2
            } else if s == 17 {
                3
            } else if s == 18 {
                5
            } else {
                8
            }
        },
        Alphabet::M => {
            if s < 16 {
                0
            } else if s == 16 {
                3
            } else if s == 17 {
                5
            } else if s == 18 {
                8
            } else {
                11
            }
        },
        Alphabet::D => {
            if s < 4 {
                0
            } else {
                ((s - 4) / 4 + 1) as u32
            }
        },
    }
}

/// `2^e`.
pub fn pow2_u32(e: u32) -> (r: u32)
    requires
        e <= 15,
    ensures
        r == pow2(e as nat),
        r <= 32768,
{
    let mut p: u32 = 1;
    let mut i: u32 = 0;
    proof {
        lemma_pow2_values();
        reveal_with_fuel(pow2, 1);
    }
    while i < e
        invariant
            i <= e <= 15,
            p == pow2(i as nat),
            pow2(15) == 32768,
            forall|x: nat| #[trigger] pow2(x + 1) == 2 * pow2(x),
        decreases e - i,
    {
        proof {
            lemma_pow2_mono((i + 1) as nat, 15);
        }
        p = p * 2;
        i += 1;
    }
    proof {
        lemma_pow2_mono(e as nat, 15);
    }
    p
}

/// The base value and extra bits of symbol `s`.
pub fn symbol_params(a: Alphabet, s: usize) -> (r: (u32, u32))
    requires
        s < alphabet_symbols(a),
    ensures
        r.0 == alphabet_base(a, s as int),
        r.1 == alphabet_bits(a, s as int),
        r.1 <= 15,
        r.0 <= alphabet_max(a),
{
    let mut base: u32 = 0;
    let mut t: usize = 0;
    proof {
        lemma_alphabet_bounds(a);
    }
    while t < s
        invariant
            t <= s < alphabet_symbols(a),
            base == alphabet_base(a, t as int),
            forall|u: int| 0 <= u < alphabet_symbols(a) ==> #[trigger] alphabet_base(a, u) <= alphabet_max(a),
            forall|u: int| 0 < u <= alphabet_symbols(a) ==> #[trigger] alphabet_base(a, u) == alphabet_base(a, u - 1) + pow2(alphabet_bits(a, u - 1) as nat),
        decreases s - t,
    {
        let b = symbol_bits(a, t);
        let p = pow2_u32(b);
        base = base + p;
        t += 1;
    }
    (base, symbol_bits(a, s))
}

proof fn lemma_base_step(a: Alphabet, u: int)
    requires
        0 < u,
    ensures
        alphabet_base(a, u) == alphabet_base(a, u - 1) + pow2(alphabet_bits(a, u - 1) as nat),
{
}

proof fn lemma_base_mono(a: Alphabet, u: int, v: int)
    requires
        0 <= u <= v,
    ensures
        alphabet_base(a, u) + (v - u) <= alphabet_base(a, v),
    decreases v - u,
{
    if u < v {
        lemma_base_mono(a, u, v - 1);
        lemma_base_step(a, v);
        lemma_pow2_pos(alphabet_bits(a, v - 1) as nat);
    }
}

proof fn lemma_d_blocks(k: int)
    requires
        0 <= k <= 15,
    ensures
        d_base(4 * k + 4) == 4 * (pow2((k + 1) as nat) - 1),
    decreases k,
{
    lemma_pow2_values();
    if k == 0 {
        reveal_with_fuel(d_base, 5);
        reveal_with_fuel(pow2, 2);
    } else {
        lemma_d_blocks(k - 1);
        let b = 4 * k;
        assert(d_bits(b) == k && d_bits(b + 1) == k && d_bits(b + 2) == k && d_bits(b + 3) == k);
        assert(d_base(b + 1) == d_base(b) + pow2(k as nat));
        assert(d_base(b + 2) == d_base(b + 1) + pow2(k as nat));
        assert(d_base(b + 3) == d_base(b + 2) + pow2(k as nat));
        assert(d_base(b + 4) == d_base(b + 3) + pow2(k as nat));
        assert(d_base(b + 4) == d_base(b) + 4 * pow2(k as nat));
        assert(pow2((k + 1) as nat) == 2 * pow2(k as nat));
    }
}

/// Base values grow by each symbol's range, up to one past the alphabet's largest value.
pub proof fn lemma_alphabet_bounds(a: Alphabet)
    ensures
        alphabet_base(a, alphabet_symbols(a)) == alphabet_max(a) + 1,
        forall|u: int| 0 <= u < alphabet_symbols(a) ==> #[trigger] alphabet_base(a, u) <= alphabet_max(a),
        forall|u: int| 0 < u <= alphabet_symbols(a) ==> #[trigger] alphabet_base(a, u) == alphabet_base(a, u - 1) + pow2(alphabet_bits(a, u - 1) as nat),
{
    match a {
        Alphabet::L => {
            reveal_with_fuel(l_base, 21);
            reveal_with_fuel(pow2, 9);
        },
        Alphabet::M => {
            reveal_with_fuel(m_base, 21);
            reveal_with_fuel(pow2, 12);
        },
        Alphabet::D => {
            lemma_d_blocks(15);
            lemma_pow2_values();
            reveal_with_fuel(pow2, 17);
        },
    }
    assert forall|u: int| 0 <= u < alphabet_symbols(a) implies #[trigger] alphabet_base(a, u) <= alphabet_max(a) by {
        lemma_base_mono(a, u, alphabet_symbols(a));
    }
    assert forall|u: int| 0 < u <= alphabet_symbols(a) implies #[trigger] alphabet_base(a, u) == alphabet_base(a, u - 1) + pow2(alphabet_bits(a, u - 1) as nat) by {
        lemma_base_step(a, u);
    }
}

/// The symbol of value `v`, and the extra value over its base.
pub fn value_symbol(a: Alphabet, v: u32) -> (r: (usize, u32, u32))
    requires
        v <= alphabet_max(a),
    ensures
        r.0 < alphabet_symbols(a),
        alphabet_base(a, r.0 as int) <= v < alphabet_base(a, r.0 + 1),
        r.1 == v - alphabet_base(a, r.0 as int),
        r.2 == alphabet_bits(a, r.0 as int),
        r.2 <= 15,
        r.1 < pow2(r.2 as nat),
{
    proof {
        lemma_alphabet_bounds(a);
    }
    let n: usize = match a {
        Alphabet::L => L_SYMBOLS,
        Alphabet::M => M_SYMBOLS,
        Alphabet::D => D_SYMBOLS,
    };
    let mut t: usize = 0;
    let mut base: u32 = 0;
    let mut bits = symbol_bits(a, 0);
    let mut p = pow2_u32(bits);
    while t + 1 < n && base + p <= v
        invariant
            n == alphabet_symbols(a),
            t < n,
            base == alphabet_base(a, t as int),
            base <= v,
            bits == alphabet_bits(a, t as int),
            p == pow2(bits as nat),
            p <= 32768,
            v <= alphabet_max(a),
        decreases n - t,
    {
        proof {
            lemma_base_step(a, t + 1);
        }
        base = base + p;
        t = t + 1;
        bits = symbol_bits(a, t);
        p = pow2_u32(bits);
    }
    proof {
        lemma_base_step(a, t + 1);
        if t + 1 == n {
            lemma_alphabet_bounds(a);
        }
    }
    (t, v - base, bits)
}

/// The sum of `s`.
pub open spec fn wsum(s: Seq<u16>) -> int
    decreases s.len(),
{
    if s.len() == 0 {
        0
    } else {
        wsum(s.drop_last()) + s.last()
    }
}

proof fn lemma_wsum_update(s: Seq<u16>, i: int, v: u16)
    requires
        0 <= i < s.len(),
    ensures
        wsum(s.update(i, v)) == wsum(s) - s[i] + v,
    decreases s.len(),
{
    if i < s.len() - 1 {
        lemma_wsum_update(s.drop_last(), i, v);
        assert(s.update(i, v).drop_last() =~= s.drop_last().update(i, v));
    } else {
        assert(s.update(i, v).drop_last() =~= s.drop_last());
    }
}

proof fn lemma_wsum_small(s: Seq<u16>)
    requires
        forall|i: int| 0 <= i < s.len() ==> #[trigger] s[i] <= 1,
    ensures
        wsum(s) <= s.len(),
    decreases s.len(),
{
    if s.len() > 0 {
        lemma_wsum_small(s.drop_last());
    }
}

proof fn lemma_wsum_zeros(n: nat)
    ensures
        wsum(Seq::new(n, |i: int| 0u16)) == 0,
    decreases n,
{
    if n > 0 {
        assert(Seq::new(n, |i: int| 0u16).drop_last() =~= Seq::new((n - 1) as nat, |i: int| 0u16));
        lemma_wsum_zeros((n - 1) as nat);
    }
}

/// The sum of the first `i` frequencies.
pub open spec fn fsum(s: Seq<u32>) -> int
    decreases s.len(),
{
    if s.len() == 0 {
        0
    } else {
        fsum(s.drop_last()) + s.last()
    }
}

pub proof fn lemma_fsum_take(s: Seq<u32>, i: int)
    requires
        0 <= i < s.len(),
    ensures
        fsum(s.take(i + 1)) == fsum(s.take(i)) + s[i],
        fsum(s.take(i)) >= 0,
{
    assert(s.take(i + 1).drop_last() =~= s.take(i));
    lemma_fsum_nonneg(s.take(i));
}

pub proof fn lemma_fsum_nonneg(s: Seq<u32>)
    ensures
        fsum(s) >= 0,
    decreases s.len(),
{
    if s.len() > 0 {
        lemma_fsum_nonneg(s.drop_last());
    }
}

pub proof fn lemma_fsum_elem(s: Seq<u32>, i: int)
    requires
        0 <= i < s.len(),
    ensures
        s[i] <= fsum(s),
    decreases s.len(),
{
    lemma_fsum_nonneg(s.drop_last());
    if i < s.len() - 1 {
        lemma_fsum_elem(s.drop_last(), i);
    }
}

proof fn lemma_wsum_take(s: Seq<u16>, i: int)
    requires
        0 <= i < s.len(),
    ensures
        wsum(s.take(i + 1)) == wsum(s.take(i)) + s[i],
{
    assert(s.take(i + 1).drop_last() =~= s.take(i));
}

/// Normalized weights for the frequencies `freq` over `1 << log_states` states: they total
/// the state count, and a symbol that occurs gets a weight of one or more. Each weight is the
/// frequency scaled and rounded to the nearest; the difference to the state count goes to the
/// most frequent symbol, or, where that would take too much from it, is taken from every
/// symbol in proportion.
pub fn normalize(freq: &Vec<u32>, log_states: u32) -> (r: Vec<u16>)
    requires
        6 <= log_states <= 10,
        1 <= freq@.len() <= pow2(log_states as nat),
        fsum(freq@) < 0x8000_0000,
    ensures
        r@.len() == freq@.len(),
        wsum(r@) == pow2(log_states as nat),
        forall|i: int| 0 <= i < freq@.len() ==> (freq@[i] > 0 ==> #[trigger] r@[i] > 0),
        fsum(freq@) > 0 ==> forall|i: int| 0 <= i < freq@.len() ==> (freq@[i] == 0 ==> #[trigger] r@[i] == 0),
{
    let n_states = pow2_u32(log_states);
    proof {
        lemma_pow2_mono(log_states as nat, 10);
        reveal_with_fuel(pow2, 11);
    }
    let len = freq.len();
    let mut total: u32 = 0;
    let mut i: usize = 0;
    while i < len
        invariant
            len == freq@.len(),
            i <= len,
            total == fsum(freq@.take(i as int)),
            fsum(freq@) < 0x8000_0000,
        decreases len - i,
    {
        proof {
            lemma_fsum_take(freq@, i as int);
            lemma_fsum_prefix(freq@, i + 1);
        }
        total = total + freq[i];
        i += 1;
    }
    proof {
        assert(freq@.take(len as int) =~= freq@);
    }
    let mut w: Vec<u16> = Vec::new();
    let mut k: usize = 0;
    while k < len
        invariant
            k <= len,
            w@ == Seq::new(k as nat, |j: int| 0u16),
        decreases len - k,
    {
        w.push(0);
        k += 1;
        proof {
            assert(w@ =~= Seq::new(k as nat, |j: int| 0u16));
        }
    }
    proof {
        lemma_wsum_zeros(len as nat);
    }
    if total == 0 {
        proof {
            lemma_wsum_update(w@, 0, n_states as u16);
        }
        w.set(0, n_states as u16);
        proof {
            assert forall|i: int| 0 <= i < freq@.len() && freq@[i] > 0 implies #[trigger] w@[i] > 0 by {
                lemma_fsum_elem(freq@, i);
            }
        }
        return w;
    }
    let step: u32 = 0x8000_0000u32 / total;
    let shift: u32 = 30 - log_states;
    let mut sum: u32 = 0;
    let mut max_w: u16 = 0;
    let mut max_sym: usize = 0;
    i = 0;
    while i < len
        invariant
            len == freq@.len() == w@.len(),
            6 <= log_states <= 10,
            n_states == pow2(log_states as nat),
            shift == 30 - log_states,
            total == fsum(freq@),
            total > 0,
            step == 0x8000_0000u32 / total,
            i <= len,
            max_sym < len,
            max_w == w@[max_sym as int],
            forall|j: int| 0 <= j < len ==> #[trigger] w@[j] <= max_w,
            max_w > 0 ==> freq@[max_sym as int] > 0,
            len <= n_states,
            n_states <= 1024,
            sum == wsum(w@.take(i as int)),
            sum <= i * 1024,
            len <= 1024,
            forall|j: int| 0 <= j < i ==> (freq@[j] > 0 <==> #[trigger] w@[j] > 0),
            forall|j: int| i <= j < len ==> #[trigger] w@[j] == 0,
        decreases len - i,
    {
        let t = freq[i];
        proof {
            lemma_fsum_elem(freq@, i as int);
            assert(t * step <= 0x8000_0000) by (nonlinear_arith)
                requires
                    t <= total,
                    total > 0,
                    step == 0x8000_0000u32 / total,
            ;
        }
        let prod: u32 = t * step;
        let scaled: u32 = prod >> shift;
        assert(scaled <= 2048) by (bit_vector)
            requires
                scaled == prod >> shift,
                prod <= 0x8000_0000u32,
                20 <= shift <= 24,
        ;
        let sp1: u32 = scaled + 1;
        let mut f: u32 = sp1 >> 1u32;
        assert(f <= 1024 && (f == 0 ==> scaled == 0) && (scaled == 0 ==> f == 0)) by (bit_vector)
            requires
                f == sp1 >> 1u32,
                sp1 == scaled + 1,
                scaled <= 2048,
        ;
        if f == 0 && t != 0 {
            f = 1;
        }
        proof {
            if t == 0 {
                assert(prod == 0) by (nonlinear_arith)
                    requires
                        t == 0,
                        prod == t * step,
                ;
                assert(scaled == 0) by (bit_vector)
                    requires
                        scaled == prod >> shift,
                        prod == 0,
                ;
            }
            lemma_wsum_update(w@, i as int, f as u16);
            lemma_wsum_take(w@.update(i as int, f as u16), i as int);
            assert(w@.update(i as int, f as u16).take(i as int) =~= w@.take(i as int));
        }
        w.set(i, f as u16);
        sum = sum + f;
        if f as u16 > max_w {
            max_w = f as u16;
            max_sym = i;
        }
        i += 1;
    }
    proof {
        assert(w@.take(len as int) =~= w@);
    }
    proof {
        lemma_wsum_elem(w@, max_sym as int);
        if !(max_w > 0) {
            lemma_fsum_pos(freq@);
            let j = choose|j: int| 0 <= j < freq@.len() && freq@[j] > 0;
            assert(w@[j] > 0);
        }
    }
    if sum <= n_states {
        let add = (n_states - sum) as u16;
        proof {
            lemma_wsum_update(w@, max_sym as int, (max_w + add) as u16);
        }
        w.set(max_sym, max_w + add);
        return w;
    }
    let overrun = sum - n_states;
    let quarter: u16 = max_w >> 2u16;
    assert(quarter <= max_w) by (bit_vector)
        requires
            quarter == max_w >> 2u16,
    ;
    if overrun < quarter as u32 {
        proof {
            lemma_wsum_update(w@, max_sym as int, (max_w - overrun) as u16);
        }
        w.set(max_sym, max_w - overrun as u16);
        return w;
    }
    adjust_weights(&mut w, overrun, Ghost(freq@), n_states);
    w
}

proof fn lemma_wsum_elem(s: Seq<u16>, i: int)
    requires
        0 <= i < s.len(),
    ensures
        s[i] <= wsum(s),
    decreases s.len(),
{
    lemma_wsum_nonneg(s.drop_last());
    if i < s.len() - 1 {
        lemma_wsum_elem(s.drop_last(), i);
    }
}

proof fn lemma_wsum_nonneg(s: Seq<u16>)
    ensures
        wsum(s) >= 0,
    decreases s.len(),
{
    if s.len() > 0 {
        lemma_wsum_nonneg(s.drop_last());
    }
}

proof fn lemma_fsum_pos(s: Seq<u32>)
    requires
        fsum(s) > 0,
    ensures
        exists|j: int| 0 <= j < s.len() && s[j] > 0,
    decreases s.len(),
{
    if s.last() == 0 {
        lemma_fsum_pos(s.drop_last());
        let j = choose|j: int| 0 <= j < s.drop_last().len() && s.drop_last()[j] > 0;
        assert(s[j] > 0);
    } else {
        assert(s[s.len() - 1] > 0);
    }
}

proof fn lemma_fsum_prefix(s: Seq<u32>, i: int)
    requires
        0 <= i <= s.len(),
    ensures
        fsum(s.take(i)) <= fsum(s),
    decreases s.len(),
{
    if i < s.len() {
        lemma_fsum_prefix(s.drop_last(), i);
        assert(s.drop_last().take(i) =~= s.take(i));
    } else {
        assert(s.take(i) =~= s);
    }
}

/// Takes `overrun` off the weights, in passes that take up to an eighth, a quarter, a half and
/// then all of each weight above one.
fn adjust_weights(w: &mut Vec<u16>, overrun: u32, freq: Ghost<Seq<u32>>, n_states: u32)
    requires
        wsum(old(w)@) == n_states + overrun,
        old(w)@.len() <= n_states,
        old(w)@.len() == freq@.len(),
        forall|j: int| 0 <= j < old(w)@.len() ==> (freq@[j] > 0 <==> #[trigger] old(w)@[j] > 0),
    ensures
        final(w)@.len() == old(w)@.len(),
        wsum(final(w)@) == n_states,
        forall|j: int| 0 <= j < final(w)@.len() ==> (freq@[j] > 0 <==> #[trigger] final(w)@[j] > 0),
{
    let mut overrun = overrun;
    let mut shift: u32 = 4;
    let len = w.len();
    while overrun != 0
        invariant
            len == w@.len() == freq@.len(),
            len <= n_states,
            wsum(w@) == n_states + overrun,
            shift <= 4,
            shift == 0 ==> overrun == 0,
            forall|j: int| 0 <= j < len ==> (freq@[j] > 0 <==> #[trigger] w@[j] > 0),
        decreases shift,
    {
        shift -= 1;
        let mut sym: usize = 0;
        while sym < len && overrun != 0
            invariant
                len == w@.len() == freq@.len(),
                len <= n_states,
                sym <= len,
                shift < 4,
                wsum(w@) == n_states + overrun,
                shift == 0 ==> (overrun == 0 || forall|j: int| 0 <= j < sym ==> #[trigger] w@[j] <= 1),
                forall|j: int| 0 <= j < len ==> (freq@[j] > 0 <==> #[trigger] w@[j] > 0),
            decreases len - sym,
        {
            let x = w[sym];
            if x > 1 {
                let xm1: u32 = (x - 1) as u32;
                let mut d: u32 = xm1 >> shift;
                assert(d <= xm1) by (bit_vector)
                    requires
                        d == xm1 >> shift,
                ;
                assert(shift == 0 ==> d == xm1) by (bit_vector)
                    requires
                        d == xm1 >> shift,
                ;
                if d > overrun {
                    d = overrun;
                }
                proof {
                    lemma_wsum_update(w@, sym as int, (x - d) as u16);
                }
                w.set(sym, x - d as u16);
                overrun = overrun - d;
            }
            sym += 1;
        }
        proof {
            if shift == 0 && overrun != 0 {
                lemma_wsum_small(w@);
            }
        }
    }
}

pub proof fn lemma_fsum_update(s: Seq<u32>, i: int, v: u32)
    requires
        0 <= i < s.len(),
    ensures
        fsum(s.update(i, v)) == fsum(s) - s[i] + v,
    decreases s.len(),
{
    if i < s.len() - 1 {
        lemma_fsum_update(s.drop_last(), i, v);
        assert(s.update(i, v).drop_last() =~= s.drop_last().update(i, v));
    } else {
        assert(s.update(i, v).drop_last() =~= s.drop_last());
    }
}

pub proof fn lemma_fsum_zeros(n: nat)
    ensures
        fsum(Seq::new(n, |i: int| 0u32)) == 0,
    decreases n,
{
    if n > 0 {
        assert(Seq::new(n, |i: int| 0u32).drop_last() =~= Seq::new((n - 1) as nat, |i: int| 0u32));
        lemma_fsum_zeros((n - 1) as nat);
    }
}

} // verus!
