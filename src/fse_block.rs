//! FSE blocks: the LMD packs, the literal and LMD bit streams and the compact (`bvx2`) header.

use vstd::prelude::*;

use crate::bits::{seq_val, window, BitReader, BitWriter};
use crate::fse_decode::{UEntry, VEntry};
use crate::error::Error;
use crate::fse_decode::Decoder;
use crate::block::{le32, push_u32, FSE2_MAGIC};
use crate::fse_encode::{build_encoder_table, encode_symbol, entry_spec, offset_of, EncoderEntry};
use crate::fse_weights::{
    fsum, normalize, pow2, value_symbol, wsum, Alphabet, D_SYMBOLS, L_SYMBOLS, M_SYMBOLS, U_SYMBOLS,
    alphabet_symbols, alphabet_max,
};
use crate::lmd::{copy_match, lit_count, Lmd, LmdPack, MAX_D_VALUE, MAX_L_VALUE, MAX_M_VALUE};

verus! {

/// The most LMD packs in one block.
pub const LMDS_PER_BLOCK: usize = 10000;

/// The most literals in one block.
pub const LITERALS_PER_BLOCK: usize = 40000;

/// A pack within the bounds of the FSE alphabets; a distance of zero repeats the last one.
pub open spec fn pack_ok(p: LmdPack) -> bool {
    &&& p.literal_len <= MAX_L_VALUE
    &&& p.match_len <= MAX_M_VALUE
    &&& p.match_distance <= MAX_D_VALUE
}

/// The number of literals that `packs` consume.
pub open spec fn pack_lit_count(packs: Seq<LmdPack>) -> nat
    decreases packs.len(),
{
    if packs.len() == 0 {
        0
    } else {
        pack_lit_count(packs.drop_last()) + packs.last().literal_len as nat
    }
}

/// Literal-only packs of `MAX_L_VALUE` literals, for as long as more than that remain.
pub open spec fn lit_runs(l: nat) -> Seq<LmdPack>
    decreases l,
{
    if l > MAX_L_VALUE {
        seq![LmdPack { literal_len: MAX_L_VALUE as u16, match_len: 0, match_distance: 0 }] + lit_runs(
            (l - MAX_L_VALUE) as nat,
        )
    } else {
        Seq::empty()
    }
}

/// The literals that `lit_runs` leaves.
pub open spec fn lit_rest(l: nat) -> nat
    decreases l,
{
    if l > MAX_L_VALUE {
        lit_rest((l - MAX_L_VALUE) as nat)
    } else {
        l
    }
}

/// A match of `m` bytes with `l` literals before it: a pack of `MAX_M_VALUE` bytes for as
/// long as more than that remain, then the rest; only the first carries literals and the
/// distance code `d`.
pub open spec fn match_runs(l: nat, m: nat, d: u32) -> Seq<LmdPack>
    decreases m,
{
    if m > MAX_M_VALUE {
        seq![LmdPack { literal_len: l as u16, match_len: MAX_M_VALUE as u16, match_distance: d }] + match_runs(
            0,
            (m - MAX_M_VALUE) as nat,
            0,
        )
    } else {
        seq![LmdPack { literal_len: l as u16, match_len: m as u16, match_distance: d }]
    }
}

/// The packs of one triple when the last distance was `d_prev`.
pub open spec fn split_one(c: Lmd, d_prev: u32) -> Seq<LmdPack> {
    let l = lit_rest(c.literal_len as nat);
    lit_runs(c.literal_len as nat) + if c.match_len == 0 {
        seq![LmdPack { literal_len: l as u16, match_len: 0, match_distance: 0 }]
    } else {
        match_runs(l, c.match_len as nat, if c.match_distance == d_prev { 0 } else { c.match_distance })
    }
}

/// The packs of `cmds`, each split with the distance of the last match before it.
pub open spec fn split_all(cmds: Seq<Lmd>) -> Seq<LmdPack>
    decreases cmds.len(),
{
    if cmds.len() == 0 {
        Seq::empty()
    } else {
        split_all(cmds.drop_last()) + split_one(cmds.last(), crate::vn::last_distance(cmds.drop_last()) as u32)
    }
}

/// What `packs` decode to after `out`, taking their literals in turn from `ls`, where `d` is
/// the last distance: a distance of zero repeats it.
pub open spec fn apply_packs(out: Seq<u8>, ls: Seq<u8>, packs: Seq<LmdPack>, d: nat) -> Seq<u8>
    decreases packs.len(),
{
    if packs.len() == 0 {
        out
    } else {
        let p = packs[0];
        let o1 = out + ls.take(p.literal_len as int);
        let de = if p.match_distance == 0 {
            d
        } else {
            p.match_distance as nat
        };
        if p.match_len > 0 {
            apply_packs(copy_match(o1, de, p.match_len as nat), ls.skip(p.literal_len as int), packs.drop_first(), de)
        } else {
            apply_packs(o1, ls.skip(p.literal_len as int), packs.drop_first(), d)
        }
    }
}

proof fn lemma_lit_rest(l: nat)
    ensures
        lit_rest(l) <= l,
        lit_rest(l) <= MAX_L_VALUE,
    decreases l,
{
    if l > MAX_L_VALUE {
        lemma_lit_rest((l - MAX_L_VALUE) as nat);
    }
}

proof fn lemma_apply_lit_runs(out: Seq<u8>, ls: Seq<u8>, l: nat, tail: Seq<LmdPack>, d: nat)
    requires
        ls.len() >= l,
    ensures
        apply_packs(out, ls, lit_runs(l) + tail, d) == apply_packs(
            out + ls.take(l - lit_rest(l)),
            ls.skip(l - lit_rest(l)),
            tail,
            d,
        ),
    decreases l,
{
    lemma_lit_rest(l);
    if l > MAX_L_VALUE {
        let r = (l - MAX_L_VALUE) as nat;
        let p = LmdPack { literal_len: MAX_L_VALUE as u16, match_len: 0, match_distance: 0 };
        let all = lit_runs(l) + tail;
        assert(all[0] == p);
        assert(all.drop_first() =~= lit_runs(r) + tail);
        let out1 = out + ls.take(MAX_L_VALUE as int);
        let ls1 = ls.skip(MAX_L_VALUE as int);
        lemma_apply_lit_runs(out1, ls1, r, tail, d);
        lemma_lit_rest(r);
        assert(out1 + ls1.take(r - lit_rest(r)) =~= out + ls.take(l - lit_rest(l)));
        assert(ls1.skip(r - lit_rest(r)) =~= ls.skip(l - lit_rest(l)));
    } else {
        assert(lit_runs(l) + tail =~= tail);
        assert(out + ls.take(0) =~= out);
        assert(ls.skip(0) =~= ls);
    }
}

/// A match copied in two parts at one distance is the match copied at once.
pub proof fn lemma_copy_match_concat(out: Seq<u8>, d: nat, a: nat, b: nat)
    requires
        1 <= d <= out.len(),
    ensures
        copy_match(copy_match(out, d, a), d, b) == copy_match(out, d, a + b),
{
    let p = out.len() as int;
    let o1 = copy_match(out, d, a);
    let lhs = copy_match(o1, d, b);
    let rhs = copy_match(out, d, a + b);
    let di = d as int;
    assert forall|k: int| 0 <= k < p + a + b implies #[trigger] lhs[k] == rhs[k] by {
        if k >= p + a {
            let i = k - p - a;
            let t = a - di + i % di;
            assert(0 <= i % di < di) by (nonlinear_arith)
                requires
                    di >= 1,
                    i >= 0,
            ;
            assert(lhs[k] == o1[p + t]);
            if t < 0 {
                assert((a + i) % di == a + i % di) by {
                    vstd::arithmetic::div_mod::lemma_add_mod_noop(a as int, i, di);
                    vstd::arithmetic::div_mod::lemma_small_mod(a, d);
                    vstd::arithmetic::div_mod::lemma_mod_twice(i, di);
                    vstd::arithmetic::div_mod::lemma_small_mod((a + i % di) as nat, d);
                }
            } else {
                assert(o1[p + t] == out[p - di + t % di]);
                assert(t % di == (a + i) % di) by {
                    vstd::arithmetic::div_mod::lemma_mod_sub_multiples_vanish(a + i % di, di);
                    vstd::arithmetic::div_mod::lemma_add_mod_noop(a as int, i, di);
                    vstd::arithmetic::div_mod::lemma_add_mod_noop(a as int, i % di, di);
                    vstd::arithmetic::div_mod::lemma_mod_twice(i, di);
                }
            }
        }
    }
    assert(lhs =~= rhs);
}

proof fn lemma_apply_match_runs(out: Seq<u8>, ls: Seq<u8>, l: nat, m: nat, code: u32, d: nat, dd: nat)
    requires
        ls.len() == l,
        l <= MAX_L_VALUE,
        m > 0,
        1 <= dd <= out.len() + l,
        code == 0 ==> d == dd,
        code != 0 ==> code == dd,
    ensures
        apply_packs(out, ls, match_runs(l, m, code), d) == copy_match(out + ls, dd, m),
    decreases m,
{
    let o1 = out + ls.take(l as int);
    assert(ls.take(l as int) =~= ls);
    let packs = match_runs(l, m, code);
    if m > MAX_M_VALUE {
        let r = (m - MAX_M_VALUE) as nat;
        assert(packs[0] == LmdPack { literal_len: l as u16, match_len: MAX_M_VALUE as u16, match_distance: code });
        assert(packs.drop_first() =~= match_runs(0, r, 0));
        let o2 = copy_match(o1, dd, MAX_M_VALUE as nat);
        assert(ls.skip(l as int) =~= Seq::<u8>::empty());
        lemma_apply_match_runs(o2, Seq::<u8>::empty(), 0, r, 0, dd, dd);
        assert(o2 + Seq::<u8>::empty() =~= o2);
        lemma_copy_match_concat(o1, dd, MAX_M_VALUE as nat, r);
        assert(apply_packs(out, ls, packs, d) == apply_packs(o2, ls.skip(l as int), packs.drop_first(), dd));
    } else {
        assert(packs[0] == LmdPack { literal_len: l as u16, match_len: m as u16, match_distance: code });
        assert(packs.drop_first() =~= Seq::<LmdPack>::empty());
        let o2 = copy_match(o1, dd, m);
        assert(apply_packs(o2, ls.skip(l as int), Seq::<LmdPack>::empty(), dd) == o2);
        assert(apply_packs(out, ls, packs, d) == apply_packs(o2, ls.skip(l as int), packs.drop_first(), dd));
    }
}

/// Splitting one triple into packs, and decoding the packs with the distance that came
/// before, gives what the triple decodes to.
pub proof fn law_split_recombine(out: Seq<u8>, ls: Seq<u8>, c: Lmd, d_prev: u32)
    requires
        ls.len() == c.literal_len,
        c.match_len > 0 ==> 1 <= c.match_distance <= out.len() + c.literal_len,
    ensures
        apply_packs(out, ls, split_one(c, d_prev), d_prev as nat) == if c.match_len == 0 {
            out + ls
        } else {
            copy_match(out + ls, c.match_distance as nat, c.match_len as nat)
        },
{
    let l = c.literal_len as nat;
    let r = lit_rest(l);
    lemma_lit_rest(l);
    let tail = if c.match_len == 0 {
        seq![LmdPack { literal_len: r as u16, match_len: 0, match_distance: 0 }]
    } else {
        match_runs(r, c.match_len as nat, if c.match_distance == d_prev { 0 } else { c.match_distance })
    };
    lemma_apply_lit_runs(out, ls, l, tail, d_prev as nat);
    let out1 = out + ls.take(l - r);
    let ls1 = ls.skip(l - r);
    assert(out1 + ls1 =~= out + ls);
    if c.match_len == 0 {
        assert(tail[0] == LmdPack { literal_len: r as u16, match_len: 0, match_distance: 0 });
        assert(tail.drop_first() =~= Seq::<LmdPack>::empty());
        assert(ls1.take(r as int) =~= ls1);
        let o1 = out1 + ls1.take(r as int);
        assert(apply_packs(o1, ls1.skip(r as int), Seq::<LmdPack>::empty(), d_prev as nat) == o1);
        assert(apply_packs(out1, ls1, tail, d_prev as nat) == apply_packs(o1, ls1.skip(r as int), tail.drop_first(), d_prev as nat));
    } else {
        lemma_apply_match_runs(out1, ls1, r, c.match_len as nat, if c.match_distance == d_prev { 0 } else { c.match_distance }, d_prev as nat, c.match_distance as nat);
    }
}

/// Splits triples into packs that the FSE alphabets can hold: long literal runs into runs of
/// `MAX_L_VALUE`, long matches into matches of `MAX_M_VALUE` at the same distance; a distance
/// equal to the last one is written as zero.
pub fn split_lmds(cmds: &Vec<Lmd>) -> (r: Vec<LmdPack>)
    requires
        forall|i: int| 0 <= i < cmds@.len() ==> (#[trigger] cmds@[i]).match_distance <= MAX_D_VALUE,
    ensures
        r@ == split_all(cmds@),
        forall|i: int| 0 <= i < r@.len() ==> pack_ok(#[trigger] r@[i]),
        pack_lit_count(r@) == lit_count(cmds@),
        r@.len() >= cmds@.len(),
{
    let mut r: Vec<LmdPack> = Vec::new();
    let mut prev_d: u32 = 0;
    let mut i: usize = 0;
    while i < cmds.len()
        invariant
            i <= cmds@.len(),
            forall|j: int| 0 <= j < cmds@.len() ==> (#[trigger] cmds@[j]).match_distance <= MAX_D_VALUE,
            forall|j: int| 0 <= j < r@.len() ==> pack_ok(#[trigger] r@[j]),
            pack_lit_count(r@) == lit_count(cmds@.take(i as int)),
            r@.len() >= i,
            r@ == split_all(cmds@.take(i as int)),
            prev_d == crate::vn::last_distance(cmds@.take(i as int)),
        decreases cmds@.len() - i,
    {
        let c = cmds[i];
        proof {
            assert(cmds@.take(i + 1).drop_last() =~= cmds@.take(i as int));
            assert(cmds@.take(i + 1).last() == c);
        }
        let ghost base = pack_lit_count(r@);
        let ghost r0 = r@;
        let mut l = c.literal_len;
        while l > MAX_L_VALUE
            invariant
                forall|j: int| 0 <= j < r@.len() ==> pack_ok(#[trigger] r@[j]),
                pack_lit_count(r@) + l == base + c.literal_len,
                r@.len() >= i,
                r0 + lit_runs(c.literal_len as nat) == r@ + lit_runs(l as nat),
                lit_rest(c.literal_len as nat) == lit_rest(l as nat),
            decreases l,
        {
            let ghost r1 = r@;
            let p = LmdPack { literal_len: MAX_L_VALUE as u16, match_len: 0, match_distance: 0 };
            r.push(p);
            proof {
                assert(r@.drop_last() =~= r1);
                assert(lit_runs(l as nat) == seq![p] + lit_runs((l - MAX_L_VALUE) as nat));
                assert(r1 + lit_runs(l as nat) =~= r@ + lit_runs((l - MAX_L_VALUE) as nat));
            }
            l = l - MAX_L_VALUE;
        }
        proof {
            assert(lit_runs(l as nat) =~= Seq::<LmdPack>::empty());
            assert(r@ =~= r0 + lit_runs(c.literal_len as nat));
            assert(lit_rest(l as nat) == l);
        }
        let ghost r2 = r@;
        if c.match_len == 0 {
            let p = LmdPack { literal_len: l as u16, match_len: 0, match_distance: 0 };
            r.push(p);
            proof {
                assert(r@.drop_last() =~= r2);
                assert(r@ =~= r0 + split_one(c, prev_d));
            }
        } else {
            let code = if c.match_distance == prev_d { 0 } else { c.match_distance };
            let mut d = code;
            prev_d = c.match_distance;
            let mut m = c.match_len;
            let ghost l0 = l;
            while m > MAX_M_VALUE
                invariant
                    forall|j: int| 0 <= j < r@.len() ==> pack_ok(#[trigger] r@[j]),
                    pack_lit_count(r@) + l == base + c.literal_len,
                    l <= MAX_L_VALUE,
                    d <= MAX_D_VALUE,
                    r@.len() >= i,
                    r2 + match_runs(l0 as nat, c.match_len as nat, code) == r@ + match_runs(l as nat, m as nat, d),
                    m > 0,
                decreases m,
            {
                let ghost r1 = r@;
                let p = LmdPack { literal_len: l as u16, match_len: MAX_M_VALUE as u16, match_distance: d };
                r.push(p);
                proof {
                    assert(r@.drop_last() =~= r1);
                    assert(match_runs(l as nat, m as nat, d) == seq![p] + match_runs(0, (m - MAX_M_VALUE) as nat, 0));
                    assert(r1 + match_runs(l as nat, m as nat, d) =~= r@ + match_runs(0, (m - MAX_M_VALUE) as nat, 0));
                }
                l = 0;
                d = 0;
                m = m - MAX_M_VALUE;
            }
            let ghost r1 = r@;
            let p = LmdPack { literal_len: l as u16, match_len: m as u16, match_distance: d };
            r.push(p);
            proof {
                assert(r@.drop_last() =~= r1);
                assert(match_runs(l as nat, m as nat, d) == seq![p]);
                assert(r@ =~= r2 + match_runs(l0 as nat, c.match_len as nat, code));
                assert(r@ =~= r0 + split_one(c, crate::vn::last_distance(cmds@.take(i as int)) as u32));
            }
        }
        i += 1;
    }
    proof {
        assert(cmds@.take(cmds@.len() as int) =~= cmds@);
    }
    r
}

/// A value coded as a symbol and the extra bits over the symbol's base.
#[derive(Clone, Copy, Debug, PartialEq, Eq, Structural)]
pub struct Coded {
    pub sym: usize,
    pub extra: u32,
    pub bits: u32,
}

pub open spec fn coded_ok(c: Coded, n_sym: int) -> bool {
    &&& c.sym < n_sym
    &&& c.bits <= 15
    &&& c.extra < pow2(c.bits as nat)
}

/// `c` codes the value `v` of alphabet `a`.
pub open spec fn codes_value(c: Coded, a: Alphabet, v: int) -> bool {
    &&& c.sym < alphabet_symbols(a)
    &&& crate::fse_weights::alphabet_base(a, c.sym as int) + c.extra == v
    &&& c.bits == crate::fse_weights::alphabet_bits(a, c.sym as int)
}

/// Codes the L, M and D values of `packs[from..to]`.
pub fn code_packs(packs: &Vec<LmdPack>, from: usize, to: usize) -> (r: (Vec<Coded>, Vec<Coded>, Vec<Coded>))
    requires
        from <= to <= packs@.len(),
        forall|i: int| 0 <= i < packs@.len() ==> pack_ok(#[trigger] packs@[i]),
    ensures
        r.0@.len() == to - from,
        r.1@.len() == to - from,
        r.2@.len() == to - from,
        forall|i: int| 0 <= i < r.0@.len() ==> coded_ok(#[trigger] r.0@[i], L_SYMBOLS as int),
        forall|i: int| 0 <= i < r.1@.len() ==> coded_ok(#[trigger] r.1@[i], M_SYMBOLS as int),
        forall|i: int| 0 <= i < r.2@.len() ==> coded_ok(#[trigger] r.2@[i], D_SYMBOLS as int),
        forall|i: int| 0 <= i < r.0@.len() ==> codes_value(#[trigger] r.0@[i], Alphabet::L, packs@[from + i].literal_len as int),
        forall|i: int| 0 <= i < r.1@.len() ==> codes_value(#[trigger] r.1@[i], Alphabet::M, packs@[from + i].match_len as int),
        forall|i: int| 0 <= i < r.2@.len() ==> codes_value(#[trigger] r.2@[i], Alphabet::D, packs@[from + i].match_distance as int),
{
    let mut l: Vec<Coded> = Vec::new();
    let mut m: Vec<Coded> = Vec::new();
    let mut d: Vec<Coded> = Vec::new();
    let mut i = from;
    while i < to
        invariant
            from <= i <= to <= packs@.len(),
            forall|j: int| 0 <= j < packs@.len() ==> pack_ok(#[trigger] packs@[j]),
            l@.len() == i - from,
            m@.len() == i - from,
            d@.len() == i - from,
            forall|j: int| 0 <= j < l@.len() ==> coded_ok(#[trigger] l@[j], L_SYMBOLS as int),
            forall|j: int| 0 <= j < m@.len() ==> coded_ok(#[trigger] m@[j], M_SYMBOLS as int),
            forall|j: int| 0 <= j < d@.len() ==> coded_ok(#[trigger] d@[j], D_SYMBOLS as int),
            forall|j: int| 0 <= j < l@.len() ==> codes_value(#[trigger] l@[j], Alphabet::L, packs@[from + j].literal_len as int),
            forall|j: int| 0 <= j < m@.len() ==> codes_value(#[trigger] m@[j], Alphabet::M, packs@[from + j].match_len as int),
            forall|j: int| 0 <= j < d@.len() ==> codes_value(#[trigger] d@[j], Alphabet::D, packs@[from + j].match_distance as int),
        decreases to - i,
    {
        let p = packs[i];
        let (s, x, b) = value_symbol(Alphabet::L, p.literal_len as u32);
        l.push(Coded { sym: s, extra: x, bits: b });
        let (s, x, b) = value_symbol(Alphabet::M, p.match_len as u32);
        m.push(Coded { sym: s, extra: x, bits: b });
        let (s, x, b) = value_symbol(Alphabet::D, p.match_distance);
        d.push(Coded { sym: s, extra: x, bits: b });
        i += 1;
    }
    (l, m, d)
}

/// `n` zero counts.
fn zero_counts(n: usize) -> (r: Vec<u32>)
    ensures
        r@ == Seq::new(n as nat, |i: int| 0u32),
        fsum(r@) == 0,
{
    let mut r: Vec<u32> = Vec::new();
    let mut k: usize = 0;
    while k < n
        invariant
            k <= n,
            r@ == Seq::new(k as nat, |j: int| 0u32),
        decreases n - k,
    {
        r.push(0);
        k += 1;
        proof {
            assert(r@ =~= Seq::new(k as nat, |j: int| 0u32));
        }
    }
    proof {
        crate::fse_weights::lemma_fsum_zeros(n as nat);
    }
    r
}

/// How often `v` occurs in `s`.
pub open spec fn byte_count(s: Seq<u8>, v: int) -> nat
    decreases s.len(),
{
    if s.len() == 0 {
        0
    } else {
        byte_count(s.drop_last(), v) + if s.last() == v {
            1nat
        } else {
            0nat
        }
    }
}

/// How often symbol `v` occurs in `codes`.
pub open spec fn sym_count(codes: Seq<Coded>, v: int) -> nat
    decreases codes.len(),
{
    if codes.len() == 0 {
        0
    } else {
        sym_count(codes.drop_last(), v) + if codes.last().sym == v {
            1nat
        } else {
            0nat
        }
    }
}

/// How often each symbol occurs in `codes`.
pub fn count_codes(codes: &Vec<Coded>, n_sym: usize) -> (r: Vec<u32>)
    requires
        codes@.len() < 0x8000_0000,
        forall|i: int| 0 <= i < codes@.len() ==> coded_ok(#[trigger] codes@[i], n_sym as int),
    ensures
        r@.len() == n_sym,
        fsum(r@) == codes@.len(),
        forall|i: int| 0 <= i < codes@.len() ==> #[trigger] r@[codes@[i].sym as int] > 0,
        forall|v: int| 0 <= v < n_sym ==> #[trigger] r@[v] == sym_count(codes@, v),
{
    let mut r = zero_counts(n_sym);
    let mut i: usize = 0;
    while i < codes.len()
        invariant
            i <= codes@.len() < 0x8000_0000,
            r@.len() == n_sym,
            fsum(r@) == i,
            forall|j: int| 0 <= j < codes@.len() ==> coded_ok(#[trigger] codes@[j], n_sym as int),
            forall|j: int| 0 <= j < i ==> #[trigger] r@[codes@[j].sym as int] > 0,
            forall|v: int| 0 <= v < n_sym ==> #[trigger] r@[v] == sym_count(codes@.take(i as int), v),
        decreases codes@.len() - i,
    {
        let s = codes[i].sym;
        proof {
            crate::fse_weights::lemma_fsum_elem(r@, s as int);
            crate::fse_weights::lemma_fsum_update(r@, s as int, (r@[s as int] + 1) as u32);
        }
        let c = r[s];
        let ghost r0 = r@;
        r.set(s, c + 1);
        proof {
            assert forall|j: int| 0 <= j < i + 1 implies #[trigger] r@[codes@[j].sym as int] > 0 by {
                if j < i {
                    assert(r0[codes@[j].sym as int] > 0);
                }
            }
            assert(codes@.take(i + 1).drop_last() =~= codes@.take(i as int));
            assert forall|v: int| 0 <= v < n_sym implies #[trigger] r@[v] == sym_count(codes@.take(i + 1), v) by {
                assert(r0[v] == sym_count(codes@.take(i as int), v));
            }
        }
        i += 1;
    }
    proof {
        assert(codes@.take(codes@.len() as int) =~= codes@);
    }
    r
}

/// How often each byte occurs in `lits`.
pub fn count_literals(lits: &Vec<u8>) -> (r: Vec<u32>)
    requires
        lits@.len() < 0x8000_0000,
    ensures
        r@.len() == U_SYMBOLS,
        fsum(r@) == lits@.len(),
        forall|i: int| 0 <= i < lits@.len() ==> #[trigger] r@[lits@[i] as int] > 0,
        forall|v: int| 0 <= v < U_SYMBOLS ==> #[trigger] r@[v] == byte_count(lits@, v),
{
    let mut r = zero_counts(U_SYMBOLS);
    let mut i: usize = 0;
    while i < lits.len()
        invariant
            i <= lits@.len() < 0x8000_0000,
            r@.len() == U_SYMBOLS,
            fsum(r@) == i,
            forall|j: int| 0 <= j < i ==> #[trigger] r@[lits@[j] as int] > 0,
            forall|v: int| 0 <= v < U_SYMBOLS ==> #[trigger] r@[v] == byte_count(lits@.take(i as int), v),
        decreases lits@.len() - i,
    {
        let s = lits[i] as usize;
        proof {
            crate::fse_weights::lemma_fsum_elem(r@, s as int);
            crate::fse_weights::lemma_fsum_update(r@, s as int, (r@[s as int] + 1) as u32);
        }
        let c = r[s];
        let ghost r0 = r@;
        r.set(s, c + 1);
        proof {
            assert forall|j: int| 0 <= j < i + 1 implies #[trigger] r@[lits@[j] as int] > 0 by {
                if j < i {
                    assert(r0[lits@[j] as int] > 0);
                }
            }
            assert(lits@.take(i + 1).drop_last() =~= lits@.take(i as int));
            assert forall|v: int| 0 <= v < U_SYMBOLS implies #[trigger] r@[v] == byte_count(lits@.take(i + 1), v) by {
                assert(r0[v] == byte_count(lits@.take(i as int), v));
            }
        }
        i += 1;
    }
    proof {
        assert(lits@.take(lits@.len() as int) =~= lits@);
    }
    r
}

/// Entries for every symbol of positive weight of a table of `n` states.
pub open spec fn table_ok(t: Seq<EncoderEntry>, w: Seq<u16>, n: int) -> bool {
    &&& t.len() == w.len()
    &&& forall|s: int| 0 <= s < w.len() && w[s] > 0 ==> entry_spec(#[trigger] t[s], w[s] as int, offset_of(w, s), n)
    &&& forall|s: int| 0 <= s < w.len() && w[s] > 0 ==> offset_of(w, s) + w[s] <= n
    &&& forall|s: int| 0 <= s < w.len() ==> #[trigger] offset_of(w, s) >= 0
}

/// The bits that encoding the first `k` literals emits, last literal first, literal `j` with
/// state `st[j % 4]`; with the states that the encoding ends in.
pub open spec fn lit_bits(t: Seq<EncoderEntry>, lits: Seq<u8>, st: Seq<u32>, k: int) -> (Seq<bool>, Seq<u32>)
    decreases k,
{
    if k <= 0 {
        (Seq::empty(), st)
    } else {
        let q = (k - 1) % 4;
        let (ns, v, nb) = crate::fse_encode::next_state(t[lits[k - 1] as int], st[q] as int);
        let (rest, sf) = lit_bits(t, lits, st.update(q, ns as u32), k - 1);
        (crate::bits::bits_of(v, nb) + rest, sf)
    }
}

/// Encodes the literals, four interleaved states, last literal first; returns the stream's
/// bytes, its unused high bits and the four final states: exactly `lit_bits` from states zero.
#[verifier::rlimit(100)]
pub fn store_literals(lits: &Vec<u8>, table: &Vec<EncoderEntry>, w: &Vec<u16>) -> (r: (Vec<u8>, u32, (u32, u32, u32, u32)))
    requires
        lits@.len() % 4 == 0,
        lits@.len() <= LITERALS_PER_BLOCK + 4,
        w@.len() == U_SYMBOLS,
        table_ok(table@, w@, 1024),
        forall|i: int| 0 <= i < lits@.len() ==> #[trigger] w@[lits@[i] as int] > 0,
    ensures
        r.1 <= 7,
        r.1 == 0 || r.0@.last() >> ((8 - r.1) as u8) == 0,
        8 * r.0@.len() <= 10 * lits@.len() + 7,
        ({
            let (bits, sf) = lit_bits(table@, lits@, seq![0u32, 0, 0, 0], lits@.len() as int);
            &&& 8 * r.0@.len() == bits.len() + r.1
            &&& crate::bits::stream_view(r.0@, bits.len() as int) == bits
            &&& seq![r.2.0, r.2.1, r.2.2, r.2.3] == sf
        }),
        r.2.0 < 1024 && r.2.1 < 1024 && r.2.2 < 1024 && r.2.3 < 1024,
{
    let mut writer = BitWriter::new();
    let mut st: [u32; 4] = [0, 0, 0, 0];
    let ghost full = lit_bits(table@, lits@, seq![0u32, 0, 0, 0], lits@.len() as int);
    proof {
        assert(st@ =~= seq![0u32, 0, 0, 0]);
    }
    let mut i = lits.len();
    while i > 0
        invariant
            i <= lits@.len() <= LITERALS_PER_BLOCK + 4,
            writer.wf(),
            writer@.len() <= 10 * (lits@.len() - i),
            st@.len() == 4,
            forall|j: int| 0 <= j < 4 ==> #[trigger] st@[j] < 1024,
            w@.len() == U_SYMBOLS,
            table_ok(table@, w@, 1024),
            forall|j: int| 0 <= j < lits@.len() ==> #[trigger] w@[lits@[j] as int] > 0,
            full == lit_bits(table@, lits@, seq![0u32, 0, 0, 0], lits@.len() as int),
            full.0 == writer@ + lit_bits(table@, lits@, st@, i as int).0,
            full.1 == lit_bits(table@, lits@, st@, i as int).1,
        decreases i,
    {
        let j = i - 1;
        let q = j % 4;
        let a = lits[j] as usize;
        proof {
            assert(w@[lits@[j as int] as int] > 0);
            assert(offset_of(w@, a as int) >= 0);
        }
        let ghost w0 = writer@;
        let ghost st0 = st@;
        let ns = encode_symbol(&mut writer, st[q], table[a], Ghost(offset_of(w@, a as int)), 1024);
        st[q] = ns;
        proof {
            let (ns2, v, nb) = crate::fse_encode::next_state(table@[a as int], st0[q as int] as int);
            assert(ns2 == ns);
            assert(st@ == st0.update(q as int, ns as u32));
            assert(lit_bits(table@, lits@, st0, i as int).0 == crate::bits::bits_of(v, nb) + lit_bits(table@, lits@, st@, j as int).0);
            assert(writer@ == w0 + crate::bits::bits_of(v, nb));
            assert(full.0 =~= writer@ + lit_bits(table@, lits@, st@, j as int).0);
        }
        i = j;
    }
    proof {
        assert(full.0 =~= writer@);
    }
    let (bytes, off) = writer.finalize();
    proof {
        assert(st@ =~= seq![st[0], st[1], st[2], st[3]]);
    }
    (bytes, off, (st[0], st[1], st[2], st[3]))
}

/// Encodes one value of an alphabet: its extra bits, then its symbol.
fn store_value(writer: &mut BitWriter, state: u32, c: Coded, table: &Vec<EncoderEntry>, w: &Vec<u16>, n: u32) -> (r: u32)
    requires
        old(writer).wf(),
        old(writer)@.len() < 0x1000_0000,
        state < n <= 1024,
        c.sym < w@.len(),
        c.bits <= 15,
        c.extra < pow2(c.bits as nat),
        w@[c.sym as int] > 0,
        table_ok(table@, w@, n as int),
    ensures
        final(writer).wf(),
        final(writer)@.len() <= old(writer)@.len() + 25,
        final(writer)@ == old(writer)@ + value_bits(table@, c, state as int).0,
        r == value_bits(table@, c, state as int).1,
        r < n,
{
    proof {
        crate::fse_encode::lemma_fits_pow2_pub(c.extra as u64, c.bits);
        assert(offset_of(w@, c.sym as int) >= 0);
    }
    writer.push(c.extra as u64, c.bits);
    let ghost w1 = writer@;
    let r = encode_symbol(writer, state, table[c.sym], Ghost(offset_of(w@, c.sym as int)), n);
    proof {
        assert(writer@ =~= old(writer)@ + value_bits(table@, c, state as int).0);
    }
    r
}

/// The bits that one coded value emits from state `s`: its extra bits, then the state bits of
/// its symbol; with the next state.
pub open spec fn value_bits(t: Seq<EncoderEntry>, c: Coded, s: int) -> (Seq<bool>, int) {
    let (ns, v, nb) = crate::fse_encode::next_state(t[c.sym as int], s);
    (crate::bits::bits_of(c.extra as u64, c.bits) + crate::bits::bits_of(v, nb), ns)
}

/// The bits that encoding the first `k` packs emits, last pack first, each as D, M then L,
/// from the states `st`; with the states that the encoding ends in.
pub open spec fn lmd_bits(
    t: (Seq<EncoderEntry>, Seq<EncoderEntry>, Seq<EncoderEntry>),
    l: Seq<Coded>,
    m: Seq<Coded>,
    d: Seq<Coded>,
    st: (int, int, int),
    k: int,
) -> (Seq<bool>, (int, int, int))
    decreases k,
{
    if k <= 0 {
        (Seq::empty(), st)
    } else {
        let (bd, sd) = value_bits(t.2, d[k - 1], st.2);
        let (bm, sm) = value_bits(t.1, m[k - 1], st.1);
        let (bl, sl) = value_bits(t.0, l[k - 1], st.0);
        let (rest, sf) = lmd_bits(t, l, m, d, (sl, sm, sd), k - 1);
        (bd + bm + bl + rest, sf)
    }
}

/// Encodes the LMD packs, last first, each as D, M then L; returns eight zero bytes and the
/// stream's bytes, its unused high bits and the final L, M and D states.
#[verifier::rlimit(100)]
pub fn store_lmds(
    l: &Vec<Coded>,
    m: &Vec<Coded>,
    d: &Vec<Coded>,
    tables: (&Vec<EncoderEntry>, &Vec<EncoderEntry>, &Vec<EncoderEntry>),
    weights: (&Vec<u16>, &Vec<u16>, &Vec<u16>),
) -> (r: (Vec<u8>, u32, (u32, u32, u32)))
    requires
        l@.len() == m@.len() == d@.len() <= LMDS_PER_BLOCK,
        table_ok(tables.0@, weights.0@, 64),
        table_ok(tables.1@, weights.1@, 64),
        table_ok(tables.2@, weights.2@, 256),
        forall|i: int| 0 <= i < l@.len() ==> coded_ok(#[trigger] l@[i], weights.0@.len() as int) && weights.0@[l@[i].sym as int] > 0,
        forall|i: int| 0 <= i < m@.len() ==> coded_ok(#[trigger] m@[i], weights.1@.len() as int) && weights.1@[m@[i].sym as int] > 0,
        forall|i: int| 0 <= i < d@.len() ==> coded_ok(#[trigger] d@[i], weights.2@.len() as int) && weights.2@[d@[i].sym as int] > 0,
    ensures
        r.1 <= 7,
        r.1 == 0 || r.0@.last() >> ((8 - r.1) as u8) == 0,
        r.0@.len() <= 8 + 10 * l@.len() + 1,
        r.2.0 < 64 && r.2.1 < 64 && r.2.2 < 256,
        ({
            let (bits, sf) = lmd_bits((tables.0@, tables.1@, tables.2@), l@, m@, d@, (0, 0, 0), l@.len() as int);
            &&& r.0@.take(8) == Seq::new(8, |i: int| 0u8)
            &&& 8 * (r.0@.len() - 8) == bits.len() + r.1
            &&& crate::bits::stream_view(r.0@.skip(8), bits.len() as int) == bits
            &&& (r.2.0 as int, r.2.1 as int, r.2.2 as int) == sf
        }),
{
    let mut writer = BitWriter::new();
    let mut sl: u32 = 0;
    let mut sm: u32 = 0;
    let mut sd: u32 = 0;
    let ghost tt = (tables.0@, tables.1@, tables.2@);
    let ghost full = lmd_bits(tt, l@, m@, d@, (0, 0, 0), l@.len() as int);
    let mut i = l.len();
    while i > 0
        invariant
            tt == (tables.0@, tables.1@, tables.2@),
            full == lmd_bits(tt, l@, m@, d@, (0, 0, 0), l@.len() as int),
            full.0 == writer@ + lmd_bits(tt, l@, m@, d@, (sl as int, sm as int, sd as int), i as int).0,
            full.1 == lmd_bits(tt, l@, m@, d@, (sl as int, sm as int, sd as int), i as int).1,
            i <= l@.len() == m@.len() == d@.len() <= LMDS_PER_BLOCK,
            writer.wf(),
            writer@.len() <= 75 * (l@.len() - i),
            sl < 64 && sm < 64 && sd < 256,
            table_ok(tables.0@, weights.0@, 64),
            table_ok(tables.1@, weights.1@, 64),
            table_ok(tables.2@, weights.2@, 256),
            forall|j: int| 0 <= j < l@.len() ==> coded_ok(#[trigger] l@[j], weights.0@.len() as int) && weights.0@[l@[j].sym as int] > 0,
            forall|j: int| 0 <= j < m@.len() ==> coded_ok(#[trigger] m@[j], weights.1@.len() as int) && weights.1@[m@[j].sym as int] > 0,
            forall|j: int| 0 <= j < d@.len() ==> coded_ok(#[trigger] d@[j], weights.2@.len() as int) && weights.2@[d@[j].sym as int] > 0,
        decreases i,
    {
        let j = i - 1;
        proof {
            assert(coded_ok(d@[j as int], weights.2@.len() as int));
            assert(coded_ok(m@[j as int], weights.1@.len() as int));
            assert(coded_ok(l@[j as int], weights.0@.len() as int));
        }
        let ghost w0 = writer@;
        let ghost s0 = (sl as int, sm as int, sd as int);
        sd = store_value(&mut writer, sd, d[j], tables.2, weights.2, 256);
        sm = store_value(&mut writer, sm, m[j], tables.1, weights.1, 64);
        sl = store_value(&mut writer, sl, l[j], tables.0, weights.0, 64);
        proof {
            let (bd, _) = value_bits(tt.2, d@[j as int], s0.2);
            let (bm, _) = value_bits(tt.1, m@[j as int], s0.1);
            let (bl, _) = value_bits(tt.0, l@[j as int], s0.0);
            assert(writer@ == w0 + bd + bm + bl);
            assert(lmd_bits(tt, l@, m@, d@, s0, i as int).0 == bd + bm + bl + lmd_bits(tt, l@, m@, d@, (sl as int, sm as int, sd as int), j as int).0);
            assert(full.0 =~= writer@ + lmd_bits(tt, l@, m@, d@, (sl as int, sm as int, sd as int), j as int).0);
        }
        i = j;
    }
    proof {
        assert(full.0 =~= writer@);
    }
    let (bits, off) = writer.finalize();
    let mut out: Vec<u8> = Vec::new();
    let mut k: usize = 0;
    while k < 8
        invariant
            k <= 8,
            out@.len() == k,
            forall|i: int| 0 <= i < k ==> out@[i] == 0u8,
        decreases 8 - k,
    {
        out.push(0);
        k += 1;
    }
    let ghost zeros = out@;
    crate::frontend_bytes::push_bytes(&mut out, bits.as_slice(), 0, bits.len());
    proof {
        assert(zeros =~= Seq::new(8, |i: int| 0u8)) by {
            assert forall|i: int| 0 <= i < 8 implies zeros[i] == 0u8 by {}
        }
        assert(bits@.subrange(0, bits@.len() as int) =~= bits@);
        assert(out@.take(8) =~= zeros);
        assert(out@.skip(8) =~= bits@);
        if off != 0 {
            assert(out@.last() == bits@.last());
        }
    }
    (out, off, (sl, sm, sd))
}

/// The prefix code of a weight in the compact header: `(code, length)`, read low bits first.
pub open spec fn freq_code(v: int) -> (u64, u32) {
    if v == 0 {
        (0, 2)
    } else if v == 1 {
        (2, 2)
    } else if v == 2 {
        (1, 3)
    } else if v == 3 {
        (5, 3)
    } else if v < 8 {
        ((3 + (v - 4) * 8) as u64, 5)
    } else if v < 24 {
        ((7 + (v - 8) * 16) as u64, 8)
    } else {
        ((15 + (v - 24) * 16) as u64, 14)
    }
}

fn push_freq(writer: &mut BitWriter, v: u16)
    requires
        old(writer).wf(),
        old(writer)@.len() < 0x1000_0000,
        v <= 1024,
    ensures
        final(writer).wf(),
        final(writer)@ == old(writer)@ + crate::bits::bits_of(freq_code(v as int).0, freq_code(v as int).1),
        final(writer)@.len() <= old(writer)@.len() + 14,
{
    let v = v as u64;
    let (code, n): (u64, u32) = if v == 0 {
        (0, 2)
    } else if v == 1 {
        (2, 2)
    } else if v == 2 {
        (1, 3)
    } else if v == 3 {
        (5, 3)
    } else if v < 8 {
        (3 + (v - 4) * 8, 5)
    } else if v < 24 {
        (7 + (v - 8) * 16, 8)
    } else {
        (15 + (v - 24) * 16, 14)
    };
    proof {
        reveal_with_fuel(pow2, 15);
        crate::fse_encode::lemma_fits_pow2_pub(code, n);
    }
    writer.push(code, n);
}

fn push_freqs(writer: &mut BitWriter, w: &Vec<u16>)
    requires
        old(writer).wf(),
        old(writer)@.len() < 0x0100_0000,
        w@.len() <= U_SYMBOLS,
        forall|i: int| 0 <= i < w@.len() ==> #[trigger] w@[i] <= 1024,
    ensures
        final(writer).wf(),
        final(writer)@.len() <= old(writer)@.len() + 14 * w@.len(),
{
    let mut i: usize = 0;
    while i < w.len()
        invariant
            i <= w@.len() <= U_SYMBOLS,
            writer.wf(),
            writer@.len() <= old(writer)@.len() + 14 * i,
            old(writer)@.len() < 0x0100_0000,
            forall|j: int| 0 <= j < w@.len() ==> #[trigger] w@[j] <= 1024,
        decreases w@.len() - i,
    {
        push_freq(writer, w[i]);
        i += 1;
    }
}

/// `v` as eight bytes, little-endian.
pub open spec fn le64(v: u64) -> Seq<u8> {
    le32((v % 0x1_0000_0000) as u32) + le32((v / 0x1_0000_0000) as u32)
}

pub fn push_u64(dst: &mut Vec<u8>, v: u64)
    ensures
        final(dst)@ == old(dst)@ + le64(v),
{
    push_u32(dst, (v % 0x1_0000_0000) as u32);
    push_u32(dst, (v / 0x1_0000_0000) as u32);
    assert(dst@ =~= old(dst)@ + le64(v));
}

/// Weights of a table: each at most the state count.
pub open spec fn weights_ok(w: Seq<u16>, n: int) -> bool {
    &&& wsum(w) == n
    &&& forall|i: int| 0 <= i < w.len() ==> #[trigger] w[i] <= n
}

proof fn lemma_weights_bounded(w: Seq<u16>, n: int)
    requires
        wsum(w) == n,
    ensures
        forall|i: int| 0 <= i < w.len() ==> #[trigger] w[i] <= n,
{
    assert forall|i: int| 0 <= i < w.len() implies #[trigger] w[i] <= n by {
        lemma_wsum_elem_pub(w, i);
    }
}

proof fn lemma_wsum_elem_pub(s: Seq<u16>, i: int)
    requires
        0 <= i < s.len(),
    ensures
        s[i] <= wsum(s),
    decreases s.len(),
{
    lemma_wsum_nonneg_pub(s.drop_last());
    if i < s.len() - 1 {
        lemma_wsum_elem_pub(s.drop_last(), i);
    }
}

proof fn lemma_wsum_nonneg_pub(s: Seq<u16>)
    ensures
        wsum(s) >= 0,
    decreases s.len(),
{
    if s.len() > 0 {
        lemma_wsum_nonneg_pub(s.drop_last());
    }
}

/// The compact header's three packed words.
pub open spec fn packed_fields(
    n_literals: int,
    n_lit_payload: int,
    n_matches: int,
    lit_off: int,
    lit_states: (int, int, int, int),
    n_lmd_payload: int,
    lmd_off: int,
    header_size: int,
    lmd_states: (int, int, int),
) -> (int, int, int) {
    (
        n_literals + n_lit_payload * 0x10_0000 + n_matches * 0x100_0000_0000 + (7 - lit_off) * 0x1000_0000_0000_0000,
        lit_states.0 + lit_states.1 * 0x400 + lit_states.2 * 0x10_0000 + lit_states.3 * 0x4000_0000
            + n_lmd_payload * 0x100_0000_0000 + (7 - lmd_off) * 0x1000_0000_0000_0000,
        header_size + lmd_states.0 * 0x1_0000_0000 + lmd_states.1 * 0x400_0000_0000 + lmd_states.2 * 0x10_0000_0000_0000,
    )
}

proof fn lemma_pack3(a: u64, b: u64, c: u64, d: u64)
    requires
        a < 0x10_0000,
        b < 0x10_0000,
        c < 0x10_0000,
        d < 8,
    ensures
        a | (b << 20u64) | (c << 40u64) | (d << 60u64) == a + b * 0x10_0000 + c * 0x100_0000_0000 + d * 0x1000_0000_0000_0000,
{
    assert(a | (b << 20u64) | (c << 40u64) | (d << 60u64) == a + b * 0x10_0000 + c * 0x100_0000_0000 + d * 0x1000_0000_0000_0000) by (bit_vector)
        requires
            a < 0x10_0000,
            b < 0x10_0000,
            c < 0x10_0000,
            d < 8,
    ;
}

proof fn lemma_pack6(a: u64, b: u64, c: u64, d: u64, e: u64, f: u64)
    requires
        a < 0x400,
        b < 0x400,
        c < 0x400,
        d < 0x400,
        e < 0x10_0000,
        f < 8,
    ensures
        a | (b << 10u64) | (c << 20u64) | (d << 30u64) | (e << 40u64) | (f << 60u64) == a + b * 0x400 + c * 0x10_0000 + d
            * 0x4000_0000 + e * 0x100_0000_0000 + f * 0x1000_0000_0000_0000,
{
    assert(a | (b << 10u64) | (c << 20u64) | (d << 30u64) | (e << 40u64) | (f << 60u64) == a + b * 0x400 + c * 0x10_0000 + d
        * 0x4000_0000 + e * 0x100_0000_0000 + f * 0x1000_0000_0000_0000) by (bit_vector)
        requires
            a < 0x400,
            b < 0x400,
            c < 0x400,
            d < 0x400,
            e < 0x10_0000,
            f < 8,
    ;
}

proof fn lemma_pack4(a: u64, b: u64, c: u64, d: u64)
    requires
        a < 0x1_0000_0000,
        b < 0x400,
        c < 0x400,
        d < 0x400,
    ensures
        a | (b << 32u64) | (c << 42u64) | (d << 52u64) == a + b * 0x1_0000_0000 + c * 0x400_0000_0000 + d * 0x10_0000_0000_0000,
{
    assert(a | (b << 32u64) | (c << 42u64) | (d << 52u64) == a + b * 0x1_0000_0000 + c * 0x400_0000_0000 + d * 0x10_0000_0000_0000) by (bit_vector)
        requires
            a < 0x1_0000_0000,
            b < 0x400,
            c < 0x400,
            d < 0x400,
    ;
}

/// Packs the compact header's three words.
fn pack_fields(
    n_literals: u64,
    n_lit_payload: u64,
    n_matches: u64,
    lit_off: u32,
    us: (u32, u32, u32, u32),
    n_lmd_payload: u64,
    lmd_off: u32,
    header_size: u64,
    lmd: (u32, u32, u32),
) -> (r: (u64, u64, u64))
    requires
        n_literals < 0x10_0000,
        n_lit_payload < 0x10_0000,
        n_matches < 0x10_0000,
        lit_off <= 7,
        lmd_off <= 7,
        us.0 < 1024 && us.1 < 1024 && us.2 < 1024 && us.3 < 1024,
        n_lmd_payload < 0x10_0000,
        header_size < 0x1_0000_0000,
        lmd.0 < 1024 && lmd.1 < 1024 && lmd.2 < 1024,
    ensures
        (r.0 as int, r.1 as int, r.2 as int) == packed_fields(
            n_literals as int,
            n_lit_payload as int,
            n_matches as int,
            lit_off as int,
            (us.0 as int, us.1 as int, us.2 as int, us.3 as int),
            n_lmd_payload as int,
            lmd_off as int,
            header_size as int,
            (lmd.0 as int, lmd.1 as int, lmd.2 as int),
        ),
{
    proof {
        lemma_pack3(n_literals, n_lit_payload, n_matches, (7 - lit_off) as u64);
        lemma_pack6(us.0 as u64, us.1 as u64, us.2 as u64, us.3 as u64, n_lmd_payload, (7 - lmd_off) as u64);
        lemma_pack4(header_size, lmd.0 as u64, lmd.1 as u64, lmd.2 as u64);
    }
    let p0: u64 = n_literals | (n_lit_payload << 20u64) | (n_matches << 40u64) | (((7 - lit_off) as u64) << 60u64);
    let p1: u64 = (us.0 as u64) | ((us.1 as u64) << 10u64) | ((us.2 as u64) << 20u64) | ((us.3 as u64) << 30u64)
        | (n_lmd_payload << 40u64) | (((7 - lmd_off) as u64) << 60u64);
    let p2: u64 = header_size | ((lmd.0 as u64) << 32u64) | ((lmd.1 as u64) << 42u64) | ((lmd.2 as u64) << 52u64);
    (p0, p1, p2)
}

/// The parts of one FSE block: the padded literal count, the weights' prefix code, the two bit
/// streams with their unused high bits, and the final states.
pub struct BlockParts {
    pub n_literals: usize,
    pub freq_bytes: Vec<u8>,
    pub lit_bytes: Vec<u8>,
    pub lit_off: u32,
    pub lit_states: (u32, u32, u32, u32),
    pub lmd_bytes: Vec<u8>,
    pub lmd_off: u32,
    pub lmd_states: (u32, u32, u32),
}

/// Normalizes the weights of the block, builds the encoder tables and encodes the streams.
#[verifier::rlimit(100)]
pub fn encode_block_parts(lits: &Vec<u8>, packs: &Vec<LmdPack>) -> (r: BlockParts)
    requires
        lits@.len() <= LITERALS_PER_BLOCK,
        packs@.len() <= LMDS_PER_BLOCK,
        forall|i: int| 0 <= i < packs@.len() ==> pack_ok(#[trigger] packs@[i]),
    ensures
        r.n_literals == (lits@.len() + 3) / 4 * 4,
        r.freq_bytes@.len() < 0x1000,
        r.lit_bytes@.len() < 0x10_0000,
        r.lmd_bytes@.len() < 0x10_0000,
        r.lit_off <= 7,
        r.lmd_off <= 7,
        r.lit_states.0 < 1024 && r.lit_states.1 < 1024 && r.lit_states.2 < 1024 && r.lit_states.3 < 1024,
        r.lmd_states.0 < 64 && r.lmd_states.1 < 64 && r.lmd_states.2 < 256,
{
    // Literals, padded to a multiple of four with the first.
    let mut ulits: Vec<u8> = Vec::new();
    crate::frontend_bytes::push_bytes(&mut ulits, lits.as_slice(), 0, lits.len());
    if lits.len() > 0 {
        let pad = lits[0];
        let n_pad = (4 - lits.len() % 4) % 4;
        let mut k: usize = 0;
        while k < n_pad
            invariant
                k <= n_pad < 4,
                ulits@.len() == lits@.len() + k,
            decreases n_pad - k,
        {
            ulits.push(pad);
            k += 1;
        }
    }
    let n_literals = ulits.len();
    proof {
        let len = lits@.len() as int;
        if len > 0 {
            assert(n_literals == len + (4 - len % 4) % 4);
        }
        assert(n_literals as int == (len + 3) / 4 * 4) by (nonlinear_arith)
            requires
                len > 0 ==> n_literals == len + (4 - len % 4) % 4,
                len == 0 ==> n_literals == 0,
                len >= 0,
        ;
    }
    let (lc, mc, dc) = code_packs(packs, 0, packs.len());
    let uf = count_literals(&ulits);
    let lf = count_codes(&lc, L_SYMBOLS);
    let mf = count_codes(&mc, M_SYMBOLS);
    let df = count_codes(&dc, D_SYMBOLS);
    proof {
        reveal_with_fuel(pow2, 11);
    }
    let uw = normalize(&uf, 10);
    let lw = normalize(&lf, 6);
    let mw = normalize(&mf, 6);
    let dw = normalize(&df, 8);
    proof {
        reveal_with_fuel(pow2, 11);
        lemma_weights_bounded(uw@, 1024);
        lemma_weights_bounded(lw@, 64);
        lemma_weights_bounded(mw@, 64);
        lemma_weights_bounded(dw@, 256);
    }
    let ut = build_encoder_table(&uw, 10);
    let lt = build_encoder_table(&lw, 6);
    let mt = build_encoder_table(&mw, 6);
    let dt = build_encoder_table(&dw, 8);
    let (lit_bytes, lit_off, us) = store_literals(&ulits, &ut, &uw);
    let (lmd_bytes, lmd_off, (ls, ms, ds)) = store_lmds(&lc, &mc, &dc, (&lt, &mt, &dt), (&lw, &mw, &dw));
    // Weights, prefix coded.
    let mut fw = BitWriter::new();
    push_freqs(&mut fw, &lw);
    push_freqs(&mut fw, &mw);
    push_freqs(&mut fw, &dw);
    push_freqs(&mut fw, &uw);
    let (freq_bytes, _) = fw.finalize();
    BlockParts {
        n_literals,
        freq_bytes,
        lit_bytes,
        lit_off,
        lit_states: us,
        lmd_bytes,
        lmd_off,
        lmd_states: (ls, ms, ds),
    }
}

/// Appends one FSE block with a compact header, for `n_raw` bytes whose literals are `lits`
/// and whose triples are `packs`.
#[verifier::rlimit(100)]
pub fn fse_block(dst: &mut Vec<u8>, n_raw: u32, lits: &Vec<u8>, packs: &Vec<LmdPack>)
    requires
        lits@.len() <= LITERALS_PER_BLOCK,
        packs@.len() <= LMDS_PER_BLOCK,
        forall|i: int| 0 <= i < packs@.len() ==> pack_ok(#[trigger] packs@[i]),
    ensures
        final(dst)@.len() >= old(dst)@.len() + 8,
        final(dst)@.take(old(dst)@.len() as int) == old(dst)@,
        final(dst)@.subrange(old(dst)@.len() as int, old(dst)@.len() + 8int) == le32(FSE2_MAGIC) + le32(n_raw),
        exists|p: (u64, u64, u64), payload: Seq<u8>, lit_states: (int, int, int, int), lmd_states: (int, int, int), sizes: (int, int, int), offs: (int, int)|
            {
                &&& #[trigger] (old(dst)@ + le32(FSE2_MAGIC) + le32(n_raw) + le64(p.0) + le64(p.1) + le64(p.2) + payload) == final(dst)@
                &&& (p.0 as int, p.1 as int, p.2 as int) == #[trigger] packed_fields(
                    (lits@.len() as int + 3) / 4 * 4,
                    sizes.1,
                    packs@.len() as int,
                    offs.0,
                    lit_states,
                    sizes.2,
                    offs.1,
                    32 + sizes.0,
                    lmd_states,
                )
                &&& payload.len() == sizes.0 + sizes.1 + sizes.2
                &&& 0 <= offs.0 <= 7 && 0 <= offs.1 <= 7
            },
{
    let parts = encode_block_parts(lits, packs);
    let n_literals = parts.n_literals;
    let freq_bytes = parts.freq_bytes;
    let lit_bytes = parts.lit_bytes;
    let lit_off = parts.lit_off;
    let us = parts.lit_states;
    let lmd_bytes = parts.lmd_bytes;
    let lmd_off = parts.lmd_off;
    let (ls, ms, ds) = parts.lmd_states;
    let header_size = 32 + freq_bytes.len() as u64;
    let n_lit_payload = lit_bytes.len() as u64;
    let n_lmd_payload = lmd_bytes.len() as u64;
    let (packed0, packed1, packed2) = pack_fields(
        n_literals as u64,
        n_lit_payload,
        packs.len() as u64,
        lit_off,
        us,
        n_lmd_payload,
        lmd_off,
        header_size,
        (ls, ms, ds),
    );
    let ghost d0 = dst@;
    push_u32(dst, FSE2_MAGIC);
    push_u32(dst, n_raw);
    let ghost d1 = dst@;
    push_u64(dst, packed0);
    push_u64(dst, packed1);
    push_u64(dst, packed2);
    let ghost d2 = dst@;
    proof {
        assert(d2 == d1 + le64(packed0) + le64(packed1) + le64(packed2));
    }
    let mut payload_bytes: Vec<u8> = Vec::new();
    crate::frontend_bytes::push_bytes(&mut payload_bytes, freq_bytes.as_slice(), 0, freq_bytes.len());
    crate::frontend_bytes::push_bytes(&mut payload_bytes, lit_bytes.as_slice(), 0, lit_bytes.len());
    crate::frontend_bytes::push_bytes(&mut payload_bytes, lmd_bytes.as_slice(), 0, lmd_bytes.len());
    proof {
        assert(freq_bytes@.subrange(0, freq_bytes@.len() as int) =~= freq_bytes@);
        assert(lit_bytes@.subrange(0, lit_bytes@.len() as int) =~= lit_bytes@);
        assert(lmd_bytes@.subrange(0, lmd_bytes@.len() as int) =~= lmd_bytes@);
        assert(payload_bytes@ =~= freq_bytes@ + lit_bytes@ + lmd_bytes@);
    }
    crate::frontend_bytes::push_bytes(dst, payload_bytes.as_slice(), 0, payload_bytes.len());
    proof {
        assert(payload_bytes@.subrange(0, payload_bytes@.len() as int) =~= payload_bytes@);
    }
    proof {
        assert(d1 == d0 + le32(FSE2_MAGIC) + le32(n_raw));
        assert(dst@.subrange(d0.len() as int, d0.len() + 8int) =~= d1.subrange(d0.len() as int, d0.len() + 8int));
        assert(d1.subrange(d0.len() as int, d0.len() + 8int) =~= le32(FSE2_MAGIC) + le32(n_raw));
        assert(dst@.take(d0.len() as int) =~= d0);
        let payload = payload_bytes@;
        assert(dst@ == d2 + payload);
        assert(d0 + le32(FSE2_MAGIC) + le32(n_raw) + le64(packed0) + le64(packed1) + le64(packed2) + payload =~= dst@);
        let sizes = (freq_bytes@.len() as int, lit_bytes@.len() as int, lmd_bytes@.len() as int);
        let offs = (lit_off as int, lmd_off as int);
        let lit_states = (us.0 as int, us.1 as int, us.2 as int, us.3 as int);
        let lmd_states = (ls as int, ms as int, ds as int);
        assert((packed0 as int, packed1 as int, packed2 as int) == packed_fields(
            (lits@.len() as int + 3) / 4 * 4, sizes.1, packs@.len() as int, offs.0, lit_states, sizes.2, offs.1, 32 + sizes.0, lmd_states));
    }
}

proof fn lemma_pack_lit_count_prefix(packs: Seq<LmdPack>, i: int)
    requires
        0 <= i < packs.len(),
    ensures
        pack_lit_count(packs.take(i + 1)) == pack_lit_count(packs.take(i)) + packs[i].literal_len,
        pack_lit_count(packs.take(i + 1)) <= pack_lit_count(packs),
    decreases packs.len(),
{
    assert(packs.take(i + 1).drop_last() =~= packs.take(i));
    if i + 1 < packs.len() {
        lemma_pack_lit_count_prefix(packs.drop_last(), i);
        assert(packs.drop_last().take(i + 1) =~= packs.take(i + 1));
        assert(packs.drop_last().take(i) =~= packs.take(i));
    } else {
        assert(packs.take(i + 1) =~= packs);
    }
}

/// Appends FSE blocks for the triples `cmds` whose literals are `lits`: the packs go into
/// blocks of at most `LMDS_PER_BLOCK` packs and `LITERALS_PER_BLOCK` literals.
pub fn fse_compress(dst: &mut Vec<u8>, lits: &Vec<u8>, cmds: &Vec<Lmd>)
    requires
        lits@.len() == lit_count(cmds@),
        forall|i: int| 0 <= i < cmds@.len() ==> (#[trigger] cmds@[i]).match_distance <= MAX_D_VALUE,
    ensures
        final(dst)@.take(old(dst)@.len() as int) == old(dst)@,
        cmds@.len() > 0 ==> final(dst)@.len() >= old(dst)@.len() + 8
            && final(dst)@.subrange(old(dst)@.len() as int, old(dst)@.len() + 4int) == le32(FSE2_MAGIC),
{
    let packs = split_lmds(cmds);
    let n = packs.len();
    let total = lits.len();
    let mut a: usize = 0;
    let mut lo: usize = 0;
    let ghost d0 = dst@;
    while a < n
        invariant
            n == packs@.len(),
            total == lits@.len(),
            a <= n,
            lo == pack_lit_count(packs@.take(a as int)),
            pack_lit_count(packs@) == lits@.len(),
            forall|i: int| 0 <= i < packs@.len() ==> pack_ok(#[trigger] packs@[i]),
            d0 == old(dst)@,
            a > 0 ==> dst@.len() >= d0.len() + 8 && dst@.subrange(d0.len() as int, d0.len() + 4int) == le32(FSE2_MAGIC),
            a == 0 ==> dst@ == d0,
            dst@.take(d0.len() as int) == d0,
        decreases n - a,
    {
        let mut j = a;
        let mut c: usize = 0;
        let mut n_raw: u32 = 0;
        while j < n && j - a < LMDS_PER_BLOCK && c + packs[j].literal_len as usize <= LITERALS_PER_BLOCK
            invariant
                n == packs@.len(),
                a <= j <= n,
                j - a <= LMDS_PER_BLOCK,
                c <= LITERALS_PER_BLOCK,
                n_raw <= (j - a) * 2674,
                lo + c == pack_lit_count(packs@.take(j as int)),
                pack_lit_count(packs@) == lits@.len(),
                forall|i: int| 0 <= i < packs@.len() ==> pack_ok(#[trigger] packs@[i]),
            decreases n - j,
        {
            proof {
                lemma_pack_lit_count_prefix(packs@, j as int);
                assert(pack_ok(packs@[j as int]));
            }
            c = c + packs[j].literal_len as usize;
            n_raw = n_raw + packs[j].literal_len as u32 + packs[j].match_len as u32;
            j += 1;
        }
        if j == a {
            // A single pack always fits.
            proof {
                lemma_pack_lit_count_prefix(packs@, j as int);
                assert(pack_ok(packs@[j as int]));
            }
            c = packs[j].literal_len as usize;
            n_raw = packs[j].literal_len as u32 + packs[j].match_len as u32;
            j += 1;
        }
        proof {
            if j > 0 {
                lemma_pack_lit_count_prefix(packs@, j - 1);
            }
        }
        let mut chunk_lits = Literals::new();
        chunk_lits.push(lits.as_slice(), lo, lo + c);
        let mut chunk = Lmds::new();
        let mut k = a;
        while k < j
            invariant
                a <= k <= j <= n,
                n == packs@.len(),
                chunk@.len() == k - a,
                forall|i: int| 0 <= i < chunk@.len() ==> pack_ok(#[trigger] chunk@[i]),
                forall|i: int| 0 <= i < packs@.len() ==> pack_ok(#[trigger] packs@[i]),
            decreases j - k,
        {
            chunk.push(packs[k]);
            k += 1;
        }
        let ghost before = dst@;
        fse_block(dst, n_raw, chunk_lits.as_vec(), chunk.as_vec());
        proof {
            assert(dst@.take(d0.len() as int) =~= dst@.take(before.len() as int).take(d0.len() as int));
            if a > 0 {
                assert(dst@.take(before.len() as int) == before);
                assert(dst@.subrange(d0.len() as int, d0.len() + 4int) =~= before.subrange(d0.len() as int, d0.len() + 4int));
            } else {
                assert(dst@.subrange(d0.len() as int, d0.len() + 4int) =~= dst@.subrange(d0.len() as int, d0.len() + 8int).subrange(0, 4));
                assert((le32(FSE2_MAGIC) + le32(n_raw)).subrange(0, 4) =~= le32(FSE2_MAGIC));
            }
        }
        lo = lo + c;
        a = j;
    }
}

/// The literals of a stream read with four interleaved states: `n` steps, each from the
/// state `st[k % 4]` where `k` counts the steps taken, reading the entry's bits below `pos`;
/// the literals with the final position and states, or `BadLiteralState` where an entry reads
/// more than ten bits or a state leaves the table.
pub open spec fn lit_decode(t: Seq<UEntry>, src: Seq<u8>, pos: int, st: Seq<usize>, n: int) -> Result<(Seq<u8>, int, Seq<usize>), Error> {
    lit_decode_from(t, src, pos, st, 0, n)
}

pub open spec fn lit_decode_from(t: Seq<UEntry>, src: Seq<u8>, pos: int, st: Seq<usize>, k: int, n: int) -> Result<(Seq<u8>, int, Seq<usize>), Error>
    decreases n,
{
    if n <= 0 {
        Ok((Seq::empty(), pos, st))
    } else {
        let q = k % 4;
        let e = t[st[q] as int];
        if e.k > 10 {
            Err(Error::BadLiteralState)
        } else {
            let ns = seq_val(window(src, pos, e.k as int)) + e.delta;
            if ns < 0 || ns >= 1024 {
                Err(Error::BadLiteralState)
            } else {
                lit_join(seq![e.symbol], lit_decode_from(t, src, pos - e.k, st.update(q, ns as usize), k + 1, n - 1))
            }
        }
    }
}

/// `r` with `pre` before its literals.
pub open spec fn lit_join(pre: Seq<u8>, r: Result<(Seq<u8>, int, Seq<usize>), Error>) -> Result<(Seq<u8>, int, Seq<usize>), Error> {
    match r {
        Ok((l, p, s)) => Ok((pre + l, p, s)),
        Err(e) => Err(e),
    }
}

proof fn lemma_lit_join(a: Seq<u8>, b: Seq<u8>, r: Result<(Seq<u8>, int, Seq<usize>), Error>)
    ensures
        lit_join(a, lit_join(b, r)) == lit_join(a + b, r),
{
    match r {
        Ok((l, p, s)) => {
            assert(a + (b + l) =~= (a + b) + l);
        },
        Err(e) => {},
    }
}

/// What loading literals returns: the reader's error, the decoding's error, `PayloadUnderflow`
/// where the data bits are not consumed exactly, `BadLiteralState` where the states do not end
/// at zero.
pub open spec fn lit_load_spec(t: Seq<UEntry>, src: Seq<u8>, off: u32, st: Seq<usize>, n: int) -> Result<(), Error> {
    if off != 0 && src.last() >> ((8 - off) as u8) != 0 {
        Err(Error::BadBitStream)
    } else {
        match lit_decode(t, src, 8 * src.len() - off, st, n) {
            Err(e) => Err(e),
            Ok((_, p, s)) => if p != 8 * crate::bits::PAD_BYTES {
                Err(Error::PayloadUnderflow)
            } else if s != seq![0usize, 0, 0, 0] {
                Err(Error::BadLiteralState)
            } else {
                Ok(())
            },
        }
    }
}

/// The literals staged for one FSE block.
pub struct Literals {
    buf: Vec<u8>,
}

impl Literals {
    pub closed spec fn view(&self) -> Seq<u8> {
        self.buf@
    }

    pub fn new() -> (r: Literals)
        ensures
            r@ == Seq::<u8>::empty(),
    {
        Literals { buf: Vec::new() }
    }

    /// Stages `src[from..to]`.
    pub fn push(&mut self, src: &[u8], from: usize, to: usize)
        requires
            from <= to <= src@.len(),
        ensures
            final(self)@ == old(self)@ + src@.subrange(from as int, to as int),
    {
        crate::frontend_bytes::push_bytes(&mut self.buf, src, from, to);
    }

    pub fn len(&self) -> (r: usize)
        ensures
            r == self@.len(),
    {
        self.buf.len()
    }

    pub fn reset(&mut self)
        ensures
            final(self)@ == Seq::<u8>::empty(),
    {
        self.buf.clear();
    }

    pub fn as_vec(&self) -> (r: &Vec<u8>)
        ensures
            r@ == self@,
    {
        &self.buf
    }

    /// Decodes `n_literals` literals from the padded bit stream `src`, whose last byte has
    /// `off` unused high bits, with four interleaved states starting at `states`, first
    /// literal first: exactly `lit_decode`. Fails with `BadBitStream` where the unused bits are
    /// set, `BadLiteralState` where a state leaves the table or the states do not end at zero,
    /// `PayloadUnderflow` where the data bits are not consumed exactly.
    pub fn load(&mut self, src: &[u8], off: u32, decoder: &Decoder, states: (usize, usize, usize, usize), n_literals: usize) -> (r: Result<(), Error>)
        requires
            decoder.wf(),
            crate::bits::PAD_BYTES <= src@.len(),
            off <= 7,
            n_literals <= LITERALS_PER_BLOCK + 4,
            states.0 < 1024 && states.1 < 1024 && states.2 < 1024 && states.3 < 1024,
        ensures
            r == lit_load_spec(decoder.u_table(), src@, off, seq![states.0, states.1, states.2, states.3], n_literals as int),
            r is Err ==> final(self)@ == old(self)@,
            r is Ok ==> final(self)@ == lit_decode(decoder.u_table(), src@, 8 * src@.len() - off, seq![states.0, states.1, states.2, states.3], n_literals as int)->Ok_0.0,
    {
        let mut reader = match BitReader::new(src, off) {
            Ok(rd) => rd,
            Err(e) => return Err(e),
        };
        let mut buf: Vec<u8> = Vec::new();
        let ghost t = decoder.u_table();
        let ghost s0 = seq![states.0, states.1, states.2, states.3];
        let ghost p0 = 8 * src@.len() - off;
        let mut st = [states.0, states.1, states.2, states.3];
        proof {
            assert(st@ =~= s0);
        }
        let mut i: usize = 0;
        while i < n_literals
            invariant
                decoder.wf(),
                t == decoder.u_table(),
                off == 0 || src@.last() >> ((8 - off) as u8) == 0,
                p0 == 8 * src@.len() - off,
                s0 == seq![states.0, states.1, states.2, states.3],
                i <= n_literals <= LITERALS_PER_BLOCK + 4,
                crate::bits::PAD_BYTES <= src@.len(),
                off <= 7,
                reader.source() == src@,
                reader.position() >= 8 * src@.len() - off - 10 * i,
                st@.len() == 4,
                forall|j: int| 0 <= j < 4 ==> #[trigger] st@[j] < 1024,
                lit_decode(t, src@, p0, s0, n_literals as int) == lit_join(buf@, lit_decode_from(t, src@, reader.position(), st@, i as int, n_literals - i)),
            decreases n_literals - i,
        {
            let q = i % 4;
            let e = decoder.u_entry(st[q]);
            let ghost pos = reader.position();
            if e.k > 10 {
                proof {
                    assert(lit_decode_from(t, src@, pos, st@, i as int, n_literals - i) == Err::<(Seq<u8>, int, Seq<usize>), Error>(Error::BadLiteralState));
                }
                return Err(Error::BadLiteralState);
            }
            let bits = reader.pull(e.k as u32);
            proof {
                crate::bits::lemma_fits_small(bits, e.k as u32);
            }
            let ns = bits as i64 + e.delta as i64;
            if ns < 0 || ns >= 1024 {
                proof {
                    assert(lit_decode_from(t, src@, pos, st@, i as int, n_literals - i) == Err::<(Seq<u8>, int, Seq<usize>), Error>(Error::BadLiteralState));
                }
                return Err(Error::BadLiteralState);
            }
            let ghost st0 = st@;
            st[q] = ns as usize;
            let ghost b0 = buf@;
            buf.push(e.symbol);
            proof {
                assert(lit_decode_from(t, src@, pos, st0, i as int, n_literals - i) == lit_join(seq![e.symbol], lit_decode_from(t, src@, pos - e.k, st@, i + 1, n_literals - i - 1)));
                lemma_lit_join(b0, seq![e.symbol], lit_decode_from(t, src@, pos - e.k, st@, i + 1, n_literals - i - 1));
                assert(b0 + seq![e.symbol] =~= buf@);
            }
            i += 1;
        }
        let ghost pf = reader.position();
        if reader.finalize().is_err() {
            return Err(Error::PayloadUnderflow);
        }
        if st[0] != 0 || st[1] != 0 || st[2] != 0 || st[3] != 0 {
            return Err(Error::BadLiteralState);
        }
        proof {
            assert(st@ =~= seq![0usize, 0, 0, 0]);
        }
        self.buf = buf;
        Ok(())
    }
}

/// The state range of component `c` (L, M or D) in the decoder's combined table.
pub open spec fn comp_range(c: int) -> (int, int) {
    if c == 0 {
        (0, 64)
    } else if c == 1 {
        (64, 128)
    } else {
        (128, 384)
    }
}

/// One L, M or D value read from state `s` below `pos`: the entry's state bits, then its
/// value bits; the value, the next state and the new position, or `BadLmdState` where the entry
/// is out of bounds or the next state leaves the component's range.
pub open spec fn v_comp(t: Seq<VEntry>, src: Seq<u8>, pos: int, s: int, c: int) -> Result<(int, int, int), Error> {
    let e = t[s];
    if e.k > 10 || e.v_bits > 10 + c * 3 || e.v_base > 0x10_0000 {
        Err(Error::BadLmdState)
    } else {
        let ns = seq_val(window(src, pos, e.k as int)) + e.delta;
        if ns < comp_range(c).0 || ns >= comp_range(c).1 {
            Err(Error::BadLmdState)
        } else {
            let v = e.v_base + seq_val(window(src, pos - e.k, e.v_bits as int));
            Ok((v, ns, pos - e.k - e.v_bits))
        }
    }
}

/// `n` packs read with the L, M and D states `st`, each its L, M and D values in turn; the
/// packs with the final position and states, or the first error.
pub open spec fn lmd_decode(t: Seq<VEntry>, src: Seq<u8>, pos: int, st: Seq<usize>, n: int) -> Result<(Seq<LmdPack>, int, Seq<usize>), Error>
    decreases n,
{
    if n <= 0 {
        Ok((Seq::empty(), pos, st))
    } else {
        match v_comp(t, src, pos, st[0] as int, 0) {
            Err(e) => Err(e),
            Ok((l, sl, p1)) => match v_comp(t, src, p1, st[1] as int, 1) {
                Err(e) => Err(e),
                Ok((m, sm, p2)) => match v_comp(t, src, p2, st[2] as int, 2) {
                    Err(e) => Err(e),
                    Ok((d, sd, p3)) => if l > MAX_L_VALUE || m > MAX_M_VALUE || d > MAX_D_VALUE {
                        Err(Error::BadLmdPayload)
                    } else {
                        lmd_join(
                            seq![LmdPack { literal_len: l as u16, match_len: m as u16, match_distance: d as u32 }],
                            lmd_decode(t, src, p3, seq![sl as usize, sm as usize, sd as usize], n - 1),
                        )
                    },
                },
            },
        }
    }
}

/// `r` with `pre` before its packs.
pub open spec fn lmd_join(pre: Seq<LmdPack>, r: Result<(Seq<LmdPack>, int, Seq<usize>), Error>) -> Result<(Seq<LmdPack>, int, Seq<usize>), Error> {
    match r {
        Ok((l, p, s)) => Ok((pre + l, p, s)),
        Err(e) => Err(e),
    }
}

proof fn lemma_lmd_join(a: Seq<LmdPack>, b: Seq<LmdPack>, r: Result<(Seq<LmdPack>, int, Seq<usize>), Error>)
    ensures
        lmd_join(a, lmd_join(b, r)) == lmd_join(a + b, r),
{
    match r {
        Ok((l, p, s)) => {
            assert(a + (b + l) =~= (a + b) + l);
        },
        Err(e) => {},
    }
}

/// What loading packs returns: the reader's error, the decoding's error, `PayloadUnderflow`
/// where the data bits are not consumed exactly, `BadLmdPayload` where the states do not end
/// at zero.
pub open spec fn lmd_load_spec(t: Seq<VEntry>, src: Seq<u8>, off: u32, st: Seq<usize>, n: int) -> Result<(), Error> {
    if off != 0 && src.last() >> ((8 - off) as u8) != 0 {
        Err(Error::BadBitStream)
    } else {
        match lmd_decode(t, src, 8 * src.len() - off, st, n) {
            Err(e) => Err(e),
            Ok((_, p, s)) => if p != 8 * crate::bits::PAD_BYTES {
                Err(Error::PayloadUnderflow)
            } else if s != seq![0usize, 64, 128] {
                Err(Error::BadLmdPayload)
            } else {
                Ok(())
            },
        }
    }
}

/// Reads one L, M or D value: exactly `v_comp`.
fn load_value(reader: &mut BitReader, decoder: &Decoder, s: usize, c: usize) -> (r: Result<(u32, usize), Error>)
    requires
        decoder.wf(),
        c < 3,
        comp_range(c as int).0 <= s < comp_range(c as int).1,
        old(reader).position() >= -0x1_0000_0000,
    ensures
        final(reader).source() == old(reader).source(),
        match v_comp(decoder.v_table(), old(reader).source(), old(reader).position(), s as int, c as int) {
            Ok((v, ns, p)) => r == Ok::<(u32, usize), Error>((v as u32, ns as usize)) && final(reader).position() == p
                && v < 0x20_0000 && comp_range(c as int).0 <= ns < comp_range(c as int).1,
            Err(e) => r == Err::<(u32, usize), Error>(e),
        },
        final(reader).position() >= old(reader).position() - 30,
{
    let (lo, hi): (usize, usize) = if c == 0 { (0, 64) } else if c == 1 { (64, 128) } else { (128, 384) };
    let e = decoder.v_entry(s);
    if e.k > 10 || e.v_bits > 10 + (c as u8) * 3 || e.v_base > 0x10_0000 {
        return Err(Error::BadLmdState);
    }
    let bits = reader.pull(e.k as u32);
    proof {
        crate::bits::lemma_fits_small(bits, e.k as u32);
    }
    let ns = bits as i64 + e.delta as i64;
    if ns < lo as i64 || ns >= hi as i64 {
        return Err(Error::BadLmdState);
    }
    let extra = reader.pull(e.v_bits as u32);
    proof {
        crate::bits::lemma_fits_small(extra, e.v_bits as u32);
    }
    Ok((e.v_base + extra as u32, ns as usize))
}

/// The LMD packs staged for one FSE block.
pub struct Lmds {
    buf: Vec<LmdPack>,
}

impl Lmds {
    pub closed spec fn view(&self) -> Seq<LmdPack> {
        self.buf@
    }

    pub fn new() -> (r: Lmds)
        ensures
            r@ == Seq::<LmdPack>::empty(),
    {
        Lmds { buf: Vec::new() }
    }

    pub fn push(&mut self, p: LmdPack)
        ensures
            final(self)@ == old(self)@.push(p),
    {
        self.buf.push(p);
    }

    pub fn len(&self) -> (r: usize)
        ensures
            r == self@.len(),
    {
        self.buf.len()
    }

    pub fn reset(&mut self)
        ensures
            final(self)@ == Seq::<LmdPack>::empty(),
    {
        self.buf.clear();
    }

    pub fn as_vec(&self) -> (r: &Vec<LmdPack>)
        ensures
            r@ == self@,
    {
        &self.buf
    }

    /// Decodes `n_matches` packs from the padded bit stream `src`, whose last byte has `off`
    /// unused high bits, with the L, M and D states starting at `states`: exactly
    /// `lmd_decode`. Fails with `BadBitStream` where the unused bits are set, `BadLmdState`
    /// where a state leaves its table, `BadLmdPayload` where a value exceeds its bound or the
    /// states do not end at zero, `PayloadUnderflow` where the data bits are not consumed
    /// exactly.
    pub fn load(&mut self, src: &[u8], off: u32, decoder: &Decoder, states: (usize, usize, usize), n_matches: usize) -> (r: Result<(), Error>)
        requires
            decoder.wf(),
            crate::bits::PAD_BYTES <= src@.len(),
            off <= 7,
            n_matches <= LMDS_PER_BLOCK,
            states.0 < 64 && states.1 < 64 && states.2 < 256,
        ensures
            r == lmd_load_spec(decoder.v_table(), src@, off, seq![states.0, (64 + states.1) as usize, (128 + states.2) as usize], n_matches as int),
            r is Err ==> final(self)@ == old(self)@,
            r is Ok ==> final(self)@ == lmd_decode(decoder.v_table(), src@, 8 * src@.len() - off, seq![states.0, (64 + states.1) as usize, (128 + states.2) as usize], n_matches as int)->Ok_0.0,
    {
        let mut reader = match BitReader::new(src, off) {
            Ok(rd) => rd,
            Err(e) => return Err(e),
        };
        let mut buf: Vec<LmdPack> = Vec::new();
        let ghost t = decoder.v_table();
        let ghost s0 = seq![states.0, (64 + states.1) as usize, (128 + states.2) as usize];
        let ghost p0 = 8 * src@.len() - off;
        let mut sl: usize = states.0;
        let mut sm: usize = 64 + states.1;
        let mut sd: usize = 128 + states.2;
        let mut j: usize = 0;
        while j < n_matches
            invariant
                decoder.wf(),
                t == decoder.v_table(),
                off == 0 || src@.last() >> ((8 - off) as u8) == 0,
                p0 == 8 * src@.len() - off,
                s0 == seq![states.0, (64 + states.1) as usize, (128 + states.2) as usize],
                j <= n_matches <= LMDS_PER_BLOCK,
                crate::bits::PAD_BYTES <= src@.len(),
                off <= 7,
                reader.source() == src@,
                reader.position() >= 8 * src@.len() - off - 90 * j,
                sl < 64,
                64 <= sm < 128,
                128 <= sd < 384,
                lmd_decode(t, src@, p0, s0, n_matches as int) == lmd_join(buf@, lmd_decode(t, src@, reader.position(), seq![sl, sm, sd], n_matches - j)),
            decreases n_matches - j,
        {
            let ghost p_0 = reader.position();
            let ghost rest = lmd_decode(t, src@, p_0, seq![sl, sm, sd], n_matches - j);
            let (l, nl) = match load_value(&mut reader, decoder, sl, 0) {
                Ok(v) => v,
                Err(e) => return Err(e),
            };
            let ghost p_1 = reader.position();
            let (m, nm) = match load_value(&mut reader, decoder, sm, 1) {
                Ok(v) => v,
                Err(e) => return Err(e),
            };
            let ghost p_2 = reader.position();
            let (d, nd) = match load_value(&mut reader, decoder, sd, 2) {
                Ok(v) => v,
                Err(e) => return Err(e),
            };
            if l > MAX_L_VALUE || m > MAX_M_VALUE || d > MAX_D_VALUE {
                return Err(Error::BadLmdPayload);
            }
            sl = nl;
            sm = nm;
            sd = nd;
            let p = LmdPack { literal_len: l as u16, match_len: m as u16, match_distance: d };
            let ghost b0 = buf@;
            buf.push(p);
            proof {
                assert(rest == lmd_join(seq![p], lmd_decode(t, src@, reader.position(), seq![sl, sm, sd], n_matches - j - 1)));
                lemma_lmd_join(b0, seq![p], lmd_decode(t, src@, reader.position(), seq![sl, sm, sd], n_matches - j - 1));
                assert(b0 + seq![p] =~= buf@);
            }
            j += 1;
        }
        if reader.finalize().is_err() {
            return Err(Error::PayloadUnderflow);
        }
        if sl != 0 || sm != 64 || sd != 128 {
            return Err(Error::BadLmdPayload);
        }
        proof {
            assert(seq![sl, sm, sd] =~= seq![0usize, 64, 128]);
        }
        self.buf = buf;
        Ok(())
    }
}

} // verus!
