//! The FSE decoder tables undo the encoder's steps.

use vstd::prelude::*;

use crate::fse_decode::{scale_from, state_step};
use crate::fse_encode::{entry_spec, next_state, EncoderEntry};
use crate::bits::{bits_of, seq_val, stream_bit, stream_view, window, PAD_BYTES};
use crate::error::Error;
use crate::fse_block::{
    codes_value, coded_ok, comp_range, lit_bits, lit_decode, lit_decode_from, lit_join, lit_load_spec,
    lmd_bits, lmd_decode, lmd_join, lmd_load_spec, table_ok, v_comp, value_bits, Coded,
};
use crate::fse_decode::{v_block_ok, VEntry};
use crate::fse_weights::{alphabet_base, alphabet_bits, alphabet_max, alphabet_symbols, Alphabet};
use crate::lmd::{LmdPack, MAX_D_VALUE, MAX_L_VALUE, MAX_M_VALUE};
use crate::fse_decode::{u_entry_spec, UEntry};
use crate::fse_encode::offset_of;
use crate::fse_weights::{pow2, U_STATES, U_SYMBOLS};

verus! {

proof fn lemma_scale_unique(f: int, n: int, k: int, kk: int)
    requires
        1 <= f,
        0 <= kk <= k <= 10,
        n <= f * pow2(k as nat) < 2 * n,
    ensures
        scale_from(f, n, kk) == k,
    decreases k - kk,
{
    if kk < k {
        crate::fse_weights::lemma_pow2_mono(kk as nat, (k - 1) as nat);
        assert(pow2(k as nat) == 2 * pow2((k - 1) as nat)) by {
            reveal_with_fuel(pow2, 2);
            assert((k - 1) as nat + 1 == k as nat);
        }
        assert(f * pow2(kk as nat) <= f * pow2((k - 1) as nat)) by (nonlinear_arith)
            requires
                pow2(kk as nat) <= pow2((k - 1) as nat),
                f >= 1,
        ;
        assert(f * pow2(kk as nat) < n) by (nonlinear_arith)
            requires
                f * pow2(kk as nat) <= f * pow2((k - 1) as nat),
                f * (2 * pow2((k - 1) as nat)) < 2 * n,
        ;
        lemma_scale_unique(f, n, k, kk + 1);
    }
}

/// The decoder's state for the state that encoding a symbol reaches reads back the bits the
/// encoder wrote and returns to the state it started from.
pub proof fn lemma_tans_inverse(e: EncoderEntry, f: int, o: int, n: int, s: int)
    requires
        entry_spec(e, f, o, n),
        0 <= s < n,
        0 <= o,
        o + f <= n,
    ensures
        ({
            let (ns, v, nb) = next_state(e, s);
            &&& o <= ns < o + f
            &&& nb == state_step(f, ns - o, n).0
            &&& nb <= 10
            &&& state_step(f, ns - o, n).1 + v == s
            &&& (v as int) < pow2(nb as nat)
        }),
{
    let k = e.k as int;
    let p = e.p as int;
    lemma_scale_unique(f, n, k, 0);
    crate::fse_weights::lemma_pow2_pos(k as nat);
    let q = n / p;
    assert(p * q == n) by (nonlinear_arith)
        requires
            n % p == 0,
            q == n / p,
            p >= 1,
    ;
    assert(q <= f < 2 * q) by (nonlinear_arith)
        requires
            p >= 1,
            p * q == n,
            n <= f * p < 2 * n,
    ;
    let (ns, v, nb) = next_state(e, s);
    if s >= e.s0 {
        let a = s / p;
        let b = s % p;
        assert(s == a * p + b && 0 <= b < p) by (nonlinear_arith)
            requires
                a == s / p,
                b == s % p,
                p >= 1,
                s >= 0,
        ;
        assert(f - q <= a < q) by (nonlinear_arith)
            requires
                s == a * p + b,
                0 <= b < p,
                s >= f * p - n,
                s < n,
                p * q == n,
                p >= 1,
        ;
        assert(e.delta0 == o - f + q);
        assert(ns == o - f + q + a);
        assert((f + (ns - o)) * p - n == a * p) by (nonlinear_arith)
            requires
                ns - o == q - f + a,
                p * q == n,
        ;
        assert(v as int == b);
    } else {
        if k == 0 {
            reveal_with_fuel(pow2, 1);
            assert(false) by (nonlinear_arith)
                requires
                    p == 1,
                    e.s0 == f * p - n,
                    s < e.s0,
                    s >= 0,
                    o + f <= n,
                    o >= 0,
            ;
        }
        assert(pow2(k as nat) == 2 * pow2((k - 1) as nat)) by {
            reveal_with_fuel(pow2, 2);
            assert((k - 1) as nat + 1 == k as nat);
        }
        crate::fse_weights::lemma_pow2_pos((k - 1) as nat);
        let h = p / 2;
        assert(h * 2 == p);
        let a = s / h;
        let b = s % h;
        assert(s == a * h + b && 0 <= b < h) by (nonlinear_arith)
            requires
                a == s / h,
                b == s % h,
                h >= 1,
                s >= 0,
        ;
        assert(0 <= a < 2 * f - 2 * q) by (nonlinear_arith)
            requires
                s == a * h + b,
                0 <= b < h,
                0 <= s < f * p - n,
                p * q == n,
                h * 2 == p,
                h >= 1,
        ;
        assert(2 * n / p == 2 * q) by (nonlinear_arith)
            requires
                p * q == n,
                p >= 1,
        ;
        assert(ns == o - f + 2 * q + a);
        assert(v as int == b);
        assert(nb == k - 1);
    }
}

/// The states as decoder indices.
pub open spec fn as_index(st: Seq<u32>) -> Seq<usize> {
    st.map_values(|x: u32| x as usize)
}

proof fn lemma_lit_join_empty(r: Result<(Seq<u8>, int, Seq<usize>), Error>)
    ensures
        lit_join(Seq::empty(), r) == r,
{
    match r {
        Ok((l, p, s)) => {
            assert(Seq::<u8>::empty() + l =~= l);
        },
        Err(e) => {},
    }
}

proof fn lemma_lit_join_assoc(a: Seq<u8>, b: Seq<u8>, r: Result<(Seq<u8>, int, Seq<usize>), Error>)
    ensures
        lit_join(a, lit_join(b, r)) == lit_join(a + b, r),
{
    match r {
        Ok((l, p, s)) => {
            assert(a + (b + l) =~= (a + b) + l);
        },
        Err(e) => {},
    }
}

/// Decoding `m + 1` literals is decoding `m`, then one more.
proof fn lemma_lit_decode_snoc(t: Seq<UEntry>, src: Seq<u8>, pos: int, st: Seq<usize>, i0: int, m: int)
    requires
        m >= 0,
    ensures
        lit_decode_from(t, src, pos, st, i0, m + 1) == match lit_decode_from(t, src, pos, st, i0, m) {
            Ok((l, p, s)) => lit_join(l, lit_decode_from(t, src, p, s, i0 + m, 1)),
            Err(e) => Err(e),
        },
    decreases m,
{
    if m == 0 {
        lemma_lit_join_empty(lit_decode_from(t, src, pos, st, i0, 1));
    } else {
        let q = i0 % 4;
        let e = t[st[q] as int];
        if e.k <= 10 {
            let ns = seq_val(window(src, pos, e.k as int)) + e.delta;
            if 0 <= ns < 1024 {
                let st1 = st.update(q, ns as usize);
                let p1 = pos - e.k;
                lemma_lit_decode_snoc(t, src, p1, st1, i0 + 1, m - 1);
                match lit_decode_from(t, src, p1, st1, i0 + 1, m - 1) {
                    Ok((l, p, s)) => {
                        lemma_lit_join_assoc(seq![e.symbol], l, lit_decode_from(t, src, p, s, i0 + m, 1));
                    },
                    Err(er) => {},
                }
            }
        }
    }
}

/// The decoder's literal table holds the entries that `build_u_table` writes for `w`.
pub open spec fn u_table_of(dt: Seq<UEntry>, w: Seq<u16>) -> bool {
    forall|i: int, j: int|
        0 <= i < w.len() && 0 <= j < w[i] ==> dt[offset_of(w, i) + j] == #[trigger] u_entry_spec(i, w[i] as int, j)
}

proof fn lemma_lit_round_trip(
    t: Seq<EncoderEntry>,
    w: Seq<u16>,
    dt: Seq<UEntry>,
    lits: Seq<u8>,
    st: Seq<u32>,
    k: int,
    src: Seq<u8>,
    base: int,
)
    requires
        w.len() == U_SYMBOLS,
        table_ok(t, w, 1024),
        u_table_of(dt, w),
        0 <= k <= lits.len(),
        forall|i: int| 0 <= i < lits.len() ==> #[trigger] w[lits[i] as int] > 0,
        st.len() == 4,
        forall|q: int| 0 <= q < 4 ==> #[trigger] st[q] < 1024,
        forall|i: int| 0 <= i < lit_bits(t, lits, st, k).0.len() ==> stream_bit(src, base + i) == #[trigger] lit_bits(t, lits, st, k).0[i],
    ensures
        lit_decode_from(dt, src, base + lit_bits(t, lits, st, k).0.len(), as_index(lit_bits(t, lits, st, k).1), 0, k)
            == Ok::<(Seq<u8>, int, Seq<usize>), Error>((lits.take(k), base, as_index(st))),
    decreases k,
{
    if k == 0 {
        assert(lits.take(0) =~= Seq::<u8>::empty());
    } else {
        let q = (k - 1) % 4;
        let sym = lits[k - 1] as int;
        let e = t[sym];
        let f = w[sym] as int;
        let o = offset_of(w, sym);
        assert(w[lits[k - 1] as int] > 0);
        let (ns, v, nb) = next_state(e, st[q] as int);
        lemma_tans_inverse(e, f, o, 1024, st[q] as int);
        let st1 = st.update(q, ns as u32);
        let (r, sf) = lit_bits(t, lits, st1, k - 1);
        let b = lit_bits(t, lits, st, k).0;
        assert(b == bits_of(v, nb) + r);
        assert forall|i: int| 0 <= i < r.len() implies stream_bit(src, base + nb + i) == #[trigger] r[i] by {
            assert(stream_bit(src, base + (nb + i)) == b[nb + i]);
        }
        assert forall|qq: int| 0 <= qq < 4 implies #[trigger] st1[qq] < 1024 by {}
        lemma_lit_round_trip(t, w, dt, lits, st1, k - 1, src, base + nb);
        lemma_lit_decode_snoc(dt, src, base + b.len(), as_index(sf), 0, k - 1);
        // The last step decodes literal k - 1.
        let sti = as_index(st1);
        assert(sti[q] == ns as usize);
        let j = ns - o;
        assert(dt[o + j] == u_entry_spec(sym, f, j));
        let de = dt[ns];
        assert(de.k as int == nb);
        assert(de.symbol == lits[k - 1]);
        crate::fse_encode::lemma_fits_pow2_pub(v, nb);
        crate::bits::lemma_bits_of_val(v, nb);
        assert(window(src, base + nb, nb as int) =~= bits_of(v, nb)) by {
            assert forall|i: int| 0 <= i < nb implies window(src, base + nb, nb as int)[i] == #[trigger] bits_of(v, nb)[i] by {
                assert(stream_bit(src, base + i) == b[i]);
            }
        }
        assert(de.delta as int + v == st[q] as int);
        assert(sti.update(q, st[q] as usize) =~= as_index(st));
        assert(lit_decode_from(dt, src, base, as_index(st), k, 0) == Ok::<(Seq<u8>, int, Seq<usize>), Error>((Seq::<u8>::empty(), base, as_index(st))));
        assert(lit_decode_from(dt, src, base + nb, sti, k - 1, 1) == Ok::<(Seq<u8>, int, Seq<usize>), Error>((seq![lits[k - 1]], base, as_index(st)))) by {
            assert(seq![de.symbol] + Seq::<u8>::empty() =~= seq![lits[k - 1]]);
        }
        assert(lits.take(k - 1) + seq![lits[k - 1]] =~= lits.take(k));
    }
}

/// Loading literals that `store_literals` wrote, behind a pad, with the decoder tables for the
/// same weights and the final states it returned, gives the literals back.
pub proof fn law_literals_round_trip(
    t: Seq<EncoderEntry>,
    w: Seq<u16>,
    dt: Seq<UEntry>,
    lits: Seq<u8>,
    bytes: Seq<u8>,
    off: u32,
    pad: Seq<u8>,
)
    requires
        w.len() == U_SYMBOLS,
        table_ok(t, w, 1024),
        u_table_of(dt, w),
        forall|i: int| 0 <= i < lits.len() ==> #[trigger] w[lits[i] as int] > 0,
        pad.len() == PAD_BYTES,
        off <= 7,
        off == 0 || bytes.last() >> ((8 - off) as u8) == 0,
        ({
            let (bits, sf) = lit_bits(t, lits, seq![0u32, 0, 0, 0], lits.len() as int);
            &&& 8 * bytes.len() == bits.len() + off
            &&& stream_view(bytes, bits.len() as int) == bits
        }),
    ensures
        ({
            let sf = as_index(lit_bits(t, lits, seq![0u32, 0, 0, 0], lits.len() as int).1);
            &&& lit_load_spec(dt, pad + bytes, off, sf, lits.len() as int) == Ok::<(), Error>(())
            &&& lit_decode(dt, pad + bytes, 8 * (pad + bytes).len() - off, sf, lits.len() as int)->Ok_0.0 == lits
        }),
{
    let (bits, sf) = lit_bits(t, lits, seq![0u32, 0, 0, 0], lits.len() as int);
    let src = pad + bytes;
    crate::bits::lemma_padded_view(pad, bytes, bits.len() as int);
    assert forall|i: int| 0 <= i < bits.len() implies stream_bit(src, 64 + i) == #[trigger] bits[i] by {
        assert(stream_view(bytes, bits.len() as int)[i] == bits[i]);
    }
    lemma_lit_round_trip(t, w, dt, lits, seq![0u32, 0, 0, 0], lits.len() as int, src, 64);
    assert(lits.take(lits.len() as int) =~= lits);
    assert(as_index(seq![0u32, 0, 0, 0]) =~= seq![0usize, 0, 0, 0]);
    if off != 0 {
        assert(src.last() == bytes.last());
    }
}

/// The alphabet, state count and table offset of LMD component `c`.
pub open spec fn comp_alphabet(c: int) -> (Alphabet, int, int) {
    if c == 0 {
        (Alphabet::L, 64, 0)
    } else if c == 1 {
        (Alphabet::M, 64, 64)
    } else {
        (Alphabet::D, 256, 128)
    }
}

proof fn lemma_bits_bound(a: Alphabet, s: int)
    requires
        0 <= s < alphabet_symbols(a),
    ensures
        a == Alphabet::L ==> alphabet_bits(a, s) <= 10,
        a == Alphabet::M ==> alphabet_bits(a, s) <= 13,
        a == Alphabet::D ==> alphabet_bits(a, s) <= 16,
{
}

/// Reading one value that the encoder wrote from state `s` gives the value back and returns
/// to `s`.
proof fn lemma_value_windows(src: Seq<u8>, base: int, x: u64, eb: u32, v: u64, nb: u32)
    requires
        eb <= 16,
        nb <= 10,
        (x as int) < pow2(eb as nat),
        (v as int) < pow2(nb as nat),
        forall|i: int| 0 <= i < (bits_of(x, eb) + bits_of(v, nb)).len() ==> stream_bit(src, base + i) == #[trigger] (bits_of(x, eb) + bits_of(v, nb))[i],
    ensures
        seq_val(window(src, base + eb + nb, nb as int)) == v,
        seq_val(window(src, base + eb, eb as int)) == x,
{
    let b = bits_of(x, eb) + bits_of(v, nb);
    crate::fse_encode::lemma_fits_pow2_pub(v, nb);
    crate::bits::lemma_bits_of_val(v, nb);
    crate::fse_encode::lemma_fits_pow2_pub(x, eb);
    crate::bits::lemma_bits_of_val(x, eb);
    assert(window(src, base + eb + nb, nb as int) =~= bits_of(v, nb)) by {
        assert forall|i: int| 0 <= i < nb implies window(src, base + eb + nb, nb as int)[i] == #[trigger] bits_of(v, nb)[i] by {
            assert(stream_bit(src, base + (eb + i)) == b[eb + i]);
        }
    }
    assert(window(src, base + eb, eb as int) =~= bits_of(x, eb)) by {
        assert forall|i: int| 0 <= i < eb implies window(src, base + eb, eb as int)[i] == #[trigger] bits_of(x, eb)[i] by {
            assert(stream_bit(src, base + i) == b[i]);
        }
    }
}

#[verifier::rlimit(100)]
proof fn lemma_value_round_trip(
    t: Seq<EncoderEntry>,
    w: Seq<u16>,
    dv: Seq<VEntry>,
    c: int,
    cd: Coded,
    val: int,
    s: int,
    src: Seq<u8>,
    base: int,
)
    requires
        0 <= c < 3,
        w.len() == alphabet_symbols(comp_alphabet(c).0),
        table_ok(t, w, comp_alphabet(c).1),
        v_block_ok(dv, comp_alphabet(c).0, w, comp_alphabet(c).2, comp_alphabet(c).1),
        codes_value(cd, comp_alphabet(c).0, val),
        0 <= val <= alphabet_max(comp_alphabet(c).0),
        coded_ok(cd, w.len() as int),
        w[cd.sym as int] > 0,
        0 <= s < comp_alphabet(c).1,
        forall|i: int| 0 <= i < value_bits(t, cd, s).0.len() ==> stream_bit(src, base + i) == #[trigger] value_bits(t, cd, s).0[i],
    ensures
        0 <= value_bits(t, cd, s).1 < comp_alphabet(c).1,
        v_comp(dv, src, base + value_bits(t, cd, s).0.len(), comp_alphabet(c).2 + value_bits(t, cd, s).1, c)
            == Ok::<(int, int, int), Error>((val, comp_alphabet(c).2 + s, base)),
{
    let (a, n, off) = comp_alphabet(c);
    let sym = cd.sym as int;
    let e = t[sym];
    let f = w[sym] as int;
    let o = offset_of(w, sym);
    lemma_tans_inverse(e, f, o, n, s);
    let (ns, v, nb) = next_state(e, s);
    let b = value_bits(t, cd, s).0;
    assert(b == bits_of(cd.extra as u64, cd.bits) + bits_of(v, nb));
    let j = ns - o;
    let de = dv[off + ns];
    assert(dv[off + o + j] == crate::fse_decode::v_entry_spec(a, sym, f, j, n, off));
    lemma_bits_bound(a, sym);
    assert(de.k as int == nb);
    assert(de.v_bits as int == cd.bits);
    assert(de.v_base as int == alphabet_base(a, sym));
    let pos = base + b.len();
    lemma_value_windows(src, base, cd.extra as u64, cd.bits, v, nb);
    assert(de.delta as int == off + s - v);
}

/// The packs the encoder wrote, as absolute decoder states.
pub open spec fn lmd_index(st: (int, int, int)) -> Seq<usize> {
    seq![st.0 as usize, (64 + st.1) as usize, (128 + st.2) as usize]
}

proof fn lemma_lmd_join_empty(r: Result<(Seq<LmdPack>, int, Seq<usize>), Error>)
    ensures
        lmd_join(Seq::empty(), r) == r,
{
    match r {
        Ok((l, p, s)) => {
            assert(Seq::<LmdPack>::empty() + l =~= l);
        },
        Err(e) => {},
    }
}

proof fn lemma_lmd_join_assoc(a: Seq<LmdPack>, b: Seq<LmdPack>, r: Result<(Seq<LmdPack>, int, Seq<usize>), Error>)
    ensures
        lmd_join(a, lmd_join(b, r)) == lmd_join(a + b, r),
{
    match r {
        Ok((l, p, s)) => {
            assert(a + (b + l) =~= (a + b) + l);
        },
        Err(e) => {},
    }
}

/// Decoding `m + 1` packs is decoding `m`, then one more.
proof fn lemma_lmd_decode_snoc(t: Seq<VEntry>, src: Seq<u8>, pos: int, st: Seq<usize>, m: int)
    requires
        m >= 0,
    ensures
        lmd_decode(t, src, pos, st, m + 1) == match lmd_decode(t, src, pos, st, m) {
            Ok((l, p, s)) => lmd_join(l, lmd_decode(t, src, p, s, 1)),
            Err(e) => Err(e),
        },
    decreases m,
{
    if m == 0 {
        lemma_lmd_join_empty(lmd_decode(t, src, pos, st, 1));
    } else {
        match v_comp(t, src, pos, st[0] as int, 0) {
            Err(e) => {},
            Ok((l, sl, p1)) => match v_comp(t, src, p1, st[1] as int, 1) {
                Err(e) => {},
                Ok((mm, sm, p2)) => match v_comp(t, src, p2, st[2] as int, 2) {
                    Err(e) => {},
                    Ok((d, sd, p3)) => {
                        if !(l > MAX_L_VALUE || mm > MAX_M_VALUE || d > MAX_D_VALUE) {
                            let st1 = seq![sl as usize, sm as usize, sd as usize];
                            let pk = seq![LmdPack { literal_len: l as u16, match_len: mm as u16, match_distance: d as u32 }];
                            lemma_lmd_decode_snoc(t, src, p3, st1, m - 1);
                            match lmd_decode(t, src, p3, st1, m - 1) {
                                Ok((ls, p, s)) => {
                                    lemma_lmd_join_assoc(pk, ls, lmd_decode(t, src, p, s, 1));
                                },
                                Err(er) => {},
                            }
                        }
                    },
                },
            },
        }
    }
}

/// The encoder's tables, the decoder's table and the coded packs fit together.
#[verifier::opaque]
pub open spec fn lmd_setup(
    tt: (Seq<EncoderEntry>, Seq<EncoderEntry>, Seq<EncoderEntry>),
    ws: (Seq<u16>, Seq<u16>, Seq<u16>),
    dv: Seq<VEntry>,
    lc: Seq<Coded>,
    mc: Seq<Coded>,
    dc: Seq<Coded>,
    packs: Seq<LmdPack>,
) -> bool {
    &&& ws.0.len() == 20 && ws.1.len() == 20 && ws.2.len() == 64
    &&& table_ok(tt.0, ws.0, 64) && table_ok(tt.1, ws.1, 64) && table_ok(tt.2, ws.2, 256)
    &&& v_block_ok(dv, Alphabet::L, ws.0, 0, 64)
    &&& v_block_ok(dv, Alphabet::M, ws.1, 64, 64)
    &&& v_block_ok(dv, Alphabet::D, ws.2, 128, 256)
    &&& lc.len() == packs.len() && mc.len() == packs.len() && dc.len() == packs.len()
    &&& forall|i: int| 0 <= i < packs.len() ==> {
        &&& codes_value(#[trigger] lc[i], Alphabet::L, packs[i].literal_len as int)
        &&& codes_value(mc[i], Alphabet::M, packs[i].match_len as int)
        &&& codes_value(dc[i], Alphabet::D, packs[i].match_distance as int)
        &&& coded_ok(lc[i], 20) && ws.0[lc[i].sym as int] > 0
        &&& coded_ok(mc[i], 20) && ws.1[mc[i].sym as int] > 0
        &&& coded_ok(dc[i], 64) && ws.2[dc[i].sym as int] > 0
        &&& packs[i].literal_len <= MAX_L_VALUE && packs[i].match_len <= MAX_M_VALUE && packs[i].match_distance <= MAX_D_VALUE
    }
}

/// The bits that pack `i` takes, from the states `st`: D, M then L, each value then state.
pub open spec fn pack_bits(
    tt: (Seq<EncoderEntry>, Seq<EncoderEntry>, Seq<EncoderEntry>),
    lc: Seq<Coded>,
    mc: Seq<Coded>,
    dc: Seq<Coded>,
    st: (int, int, int),
    i: int,
) -> (Seq<bool>, (int, int, int)) {
    let (bd, sd1) = value_bits(tt.2, dc[i], st.2);
    let (bm, sm1) = value_bits(tt.1, mc[i], st.1);
    let (bl, sl1) = value_bits(tt.0, lc[i], st.0);
    (bd + bm + bl, (sl1, sm1, sd1))
}

proof fn lemma_pack_step(
    tt: (Seq<EncoderEntry>, Seq<EncoderEntry>, Seq<EncoderEntry>),
    ws: (Seq<u16>, Seq<u16>, Seq<u16>),
    dv: Seq<VEntry>,
    lc: Seq<Coded>,
    mc: Seq<Coded>,
    dc: Seq<Coded>,
    packs: Seq<LmdPack>,
    st: (int, int, int),
    i: int,
    src: Seq<u8>,
    base: int,
)
    requires
        lmd_setup(tt, ws, dv, lc, mc, dc, packs),
        0 <= i < packs.len(),
        0 <= st.0 < 64 && 0 <= st.1 < 64 && 0 <= st.2 < 256,
        forall|j: int| 0 <= j < pack_bits(tt, lc, mc, dc, st, i).0.len() ==> stream_bit(src, base + j) == #[trigger] pack_bits(tt, lc, mc, dc, st, i).0[j],
    ensures
        ({
            let (b, st1) = pack_bits(tt, lc, mc, dc, st, i);
            &&& 0 <= st1.0 < 64 && 0 <= st1.1 < 64 && 0 <= st1.2 < 256
            &&& lmd_decode(dv, src, base + b.len(), lmd_index(st1), 1) == Ok::<(Seq<LmdPack>, int, Seq<usize>), Error>((seq![packs[i]], base, lmd_index(st)))
        }),
{
    reveal(lmd_setup);
    let p = packs[i];
    assert(codes_value(lc[i], Alphabet::L, p.literal_len as int));
    let (bd, sd1) = value_bits(tt.2, dc[i], st.2);
    let (bm, sm1) = value_bits(tt.1, mc[i], st.1);
    let (bl, sl1) = value_bits(tt.0, lc[i], st.0);
    let b = bd + bm + bl;
    let b1 = base + bd.len();
    let b2 = b1 + bm.len();
    assert forall|j: int| 0 <= j < bd.len() implies stream_bit(src, base + j) == #[trigger] bd[j] by {
        assert(b[j] == bd[j]);
    }
    assert forall|j: int| 0 <= j < bm.len() implies stream_bit(src, b1 + j) == #[trigger] bm[j] by {
        assert(stream_bit(src, base + (bd.len() + j)) == b[bd.len() + j]);
    }
    assert forall|j: int| 0 <= j < bl.len() implies stream_bit(src, b2 + j) == #[trigger] bl[j] by {
        assert(stream_bit(src, base + (bd.len() + bm.len() + j)) == b[bd.len() + bm.len() + j]);
    }
    lemma_value_round_trip(tt.2, ws.2, dv, 2, dc[i], p.match_distance as int, st.2, src, base);
    lemma_value_round_trip(tt.1, ws.1, dv, 1, mc[i], p.match_len as int, st.1, src, b1);
    lemma_value_round_trip(tt.0, ws.0, dv, 0, lc[i], p.literal_len as int, st.0, src, b2);
    let pk = LmdPack { literal_len: p.literal_len as u16, match_len: p.match_len as u16, match_distance: p.match_distance as u32 };
    assert(pk == p);
    let st1 = (sl1, sm1, sd1);
    assert(lmd_decode(dv, src, base, lmd_index(st), 0) == Ok::<(Seq<LmdPack>, int, Seq<usize>), Error>((Seq::<LmdPack>::empty(), base, lmd_index(st))));
    assert(seq![pk] + Seq::<LmdPack>::empty() =~= seq![p]);
}

proof fn lemma_lmd_round_trip(
    tt: (Seq<EncoderEntry>, Seq<EncoderEntry>, Seq<EncoderEntry>),
    ws: (Seq<u16>, Seq<u16>, Seq<u16>),
    dv: Seq<VEntry>,
    lc: Seq<Coded>,
    mc: Seq<Coded>,
    dc: Seq<Coded>,
    packs: Seq<LmdPack>,
    st: (int, int, int),
    k: int,
    src: Seq<u8>,
    base: int,
)
    requires
        lmd_setup(tt, ws, dv, lc, mc, dc, packs),
        0 <= k <= packs.len(),
        0 <= st.0 < 64 && 0 <= st.1 < 64 && 0 <= st.2 < 256,
        forall|i: int| 0 <= i < lmd_bits(tt, lc, mc, dc, st, k).0.len() ==> stream_bit(src, base + i) == #[trigger] lmd_bits(tt, lc, mc, dc, st, k).0[i],
    ensures
        lmd_decode(dv, src, base + lmd_bits(tt, lc, mc, dc, st, k).0.len(), lmd_index(lmd_bits(tt, lc, mc, dc, st, k).1), k)
            == Ok::<(Seq<LmdPack>, int, Seq<usize>), Error>((packs.take(k), base, lmd_index(st))),
    decreases k,
{
    if k == 0 {
        assert(packs.take(0) =~= Seq::<LmdPack>::empty());
    } else {
        let (pb, st1) = pack_bits(tt, lc, mc, dc, st, k - 1);
        let (rest, sf) = lmd_bits(tt, lc, mc, dc, st1, k - 1);
        let b = lmd_bits(tt, lc, mc, dc, st, k).0;
        assert(b =~= pb + rest);
        let b3 = base + pb.len();
        assert forall|j: int| 0 <= j < pb.len() implies stream_bit(src, base + j) == #[trigger] pb[j] by {
            assert(b[j] == pb[j]);
        }
        lemma_pack_step(tt, ws, dv, lc, mc, dc, packs, st, k - 1, src, base);
        assert forall|j: int| 0 <= j < rest.len() implies stream_bit(src, b3 + j) == #[trigger] rest[j] by {
            assert(stream_bit(src, base + (pb.len() + j)) == b[pb.len() + j]);
        }
        lemma_lmd_round_trip(tt, ws, dv, lc, mc, dc, packs, st1, k - 1, src, b3);
        lemma_lmd_decode_snoc(dv, src, base + b.len(), lmd_index(sf), k - 1);
        assert(packs.take(k - 1) + seq![packs[k - 1]] =~= packs.take(k));
    }
}

/// Loading the packs that `store_lmds` wrote, with the decoder tables for the same weights and
/// the final states it returned, gives the packs back.
#[verifier::rlimit(100)]
pub proof fn law_lmds_round_trip(
    tt: (Seq<EncoderEntry>, Seq<EncoderEntry>, Seq<EncoderEntry>),
    ws: (Seq<u16>, Seq<u16>, Seq<u16>),
    dv: Seq<VEntry>,
    lc: Seq<Coded>,
    mc: Seq<Coded>,
    dc: Seq<Coded>,
    packs: Seq<LmdPack>,
    out: Seq<u8>,
    off: u32,
)
    requires
        lmd_setup(tt, ws, dv, lc, mc, dc, packs),
        off <= 7,
        off == 0 || out.last() >> ((8 - off) as u8) == 0,
        ({
            let (bits, sf) = lmd_bits(tt, lc, mc, dc, (0, 0, 0), packs.len() as int);
            &&& out.len() >= PAD_BYTES
            &&& 8 * (out.len() - 8) == bits.len() + off
            &&& stream_view(out.skip(8), bits.len() as int) == bits
        }),
    ensures
        ({
            let sf = lmd_index(lmd_bits(tt, lc, mc, dc, (0, 0, 0), packs.len() as int).1);
            &&& lmd_load_spec(dv, out, off, sf, packs.len() as int) == Ok::<(), Error>(())
            &&& lmd_decode(dv, out, 8 * out.len() - off, sf, packs.len() as int)->Ok_0.0 == packs
        }),
{
    let (bits, sf) = lmd_bits(tt, lc, mc, dc, (0, 0, 0), packs.len() as int);
    let pad = out.take(8);
    let bytes = out.skip(8);
    assert(pad + bytes =~= out);
    crate::bits::lemma_padded_view(pad, bytes, bits.len() as int);
    assert forall|i: int| 0 <= i < bits.len() implies stream_bit(out, 64 + i) == #[trigger] bits[i] by {
        assert(stream_view(bytes, bits.len() as int)[i] == bits[i]);
    }
    lemma_lmd_round_trip(tt, ws, dv, lc, mc, dc, packs, (0, 0, 0), packs.len() as int, out, 64);
    assert(packs.take(packs.len() as int) =~= packs);
    assert(lmd_index((0, 0, 0)) =~= seq![0usize, 64, 128]);
    let sfi = lmd_index(sf);
    assert(8 * out.len() - off == 64 + bits.len());
    let r = lmd_decode(dv, out, 8 * out.len() - off, sfi, packs.len() as int);
    assert(r == Ok::<(Seq<LmdPack>, int, Seq<usize>), Error>((packs, 64, seq![0usize, 64, 128])));
}

} // verus!
