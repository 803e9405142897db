//! The literal length / match length / match distance model, and what a sequence of such
//! triples decodes to.

use vstd::prelude::*;

verus! {

pub const MAX_L_VALUE: u32 = 315;

pub const MAX_M_VALUE: u32 = 2359;

pub const MAX_D_VALUE: u32 = 262139;

/// Copy `literal_len` literals, then `match_len` bytes from `match_distance` bytes back.
#[derive(Clone, Copy, Debug, PartialEq, Eq, Structural)]
pub struct Lmd {
    pub literal_len: u32,
    pub match_len: u32,
    pub match_distance: u32,
}

/// A triple within the bounds of one FSE symbol each.
#[derive(Clone, Copy, Debug, PartialEq, Eq, Structural)]
pub struct LmdPack {
    pub literal_len: u16,
    pub match_len: u16,
    pub match_distance: u32,
}

impl Lmd {
    /// A triple; a match needs a distance of one or more.
    pub fn new(literal_len: u32, match_len: u32, match_distance: u32) -> (r: Lmd)
        requires
            match_len == 0 || 1 <= match_distance <= MAX_D_VALUE,
        ensures
            r == (Lmd { literal_len, match_len, match_distance }),
    {
        Lmd { literal_len, match_len, match_distance }
    }
}

impl LmdPack {
    pub open spec fn wf(&self) -> bool {
        &&& self.literal_len <= MAX_L_VALUE
        &&& self.match_len <= MAX_M_VALUE
        &&& 1 <= self.match_distance <= MAX_D_VALUE
    }

    pub open spec fn lmd(&self) -> Lmd {
        Lmd {
            literal_len: self.literal_len as u32,
            match_len: self.match_len as u32,
            match_distance: self.match_distance,
        }
    }

    pub fn new(literal_len: u16, match_len: u16, match_distance: u32) -> (r: LmdPack)
        requires
            literal_len <= MAX_L_VALUE,
            match_len <= MAX_M_VALUE,
            1 <= match_distance <= MAX_D_VALUE,
        ensures
            r.wf(),
            r == (LmdPack { literal_len, match_len, match_distance }),
    {
        LmdPack { literal_len, match_len, match_distance }
    }
}

/// `out` followed by `m` bytes copied from `d` bytes back, the copy reading what it wrote.
pub open spec fn copy_match(out: Seq<u8>, d: nat, m: nat) -> Seq<u8> {
    out + Seq::new(m, |i: int| out[out.len() - d + i % (d as int)])
}

/// The number of literals that `cmds` consume.
pub open spec fn lit_count(cmds: Seq<Lmd>) -> nat
    decreases cmds.len(),
{
    if cmds.len() == 0 {
        0
    } else {
        lit_count(cmds.drop_last()) + cmds.last().literal_len as nat
    }
}

/// What `cmds` decode to after the output `out`, taking their literals in order from `lits`.
pub open spec fn expand_from(out: Seq<u8>, lits: Seq<u8>, cmds: Seq<Lmd>) -> Seq<u8>
    decreases cmds.len(),
{
    if cmds.len() == 0 {
        out
    } else {
        let pre = cmds.drop_last();
        let c = cmds.last();
        let k = lit_count(pre);
        copy_match(
            expand_from(out, lits, pre) + lits.subrange(k as int, k + c.literal_len),
            c.match_distance as nat,
            c.match_len as nat,
        )
    }
}

/// What `cmds` decode to, taking their literals in order from `lits`.
pub open spec fn expand(lits: Seq<u8>, cmds: Seq<Lmd>) -> Seq<u8> {
    expand_from(Seq::empty(), lits, cmds)
}

/// Every match of `cmds`, decoded after `out`, reaches back no further than the start of
/// the output.
pub open spec fn cmds_valid_from(out: Seq<u8>, lits: Seq<u8>, cmds: Seq<Lmd>) -> bool
    decreases cmds.len(),
{
    if cmds.len() == 0 {
        true
    } else {
        let pre = cmds.drop_last();
        let c = cmds.last();
        &&& cmds_valid_from(out, lits, pre)
        &&& (c.match_len > 0 ==> 1 <= c.match_distance <= expand_from(out, lits, pre).len() + c.literal_len)
    }
}

/// Every match of `cmds` reaches back no further than the start of the output.
pub open spec fn cmds_valid(lits: Seq<u8>, cmds: Seq<Lmd>) -> bool {
    cmds_valid_from(Seq::empty(), lits, cmds)
}

proof fn lemma_periodic(src: Seq<u8>, p: int, d: int, m: int, i: int)
    requires
        1 <= d <= p,
        p + m <= src.len(),
        0 <= i < m,
        forall|k: int| 0 <= k < m ==> #[trigger] src[p + k] == src[p - d + k],
    ensures
        src[p + i] == src[p - d + i % d],
    decreases i,
{
    if i < d {
        assert(i % d == i) by (nonlinear_arith)
            requires
                0 <= i < d,
        ;
    } else {
        assert(src[p + i] == src[p - d + i]);
        lemma_periodic(src, p, d, m, i - d);
        assert((i - d) % d == i % d) by {
            vstd::arithmetic::div_mod::lemma_mod_sub_multiples_vanish(i, d);
        }
        assert(p - d + i == p + (i - d));
    }
}

/// Copying a match whose bytes repeat those `d` back rebuilds them.
pub proof fn lemma_copy_match(src: Seq<u8>, p: int, d: int, m: int)
    requires
        1 <= d <= p,
        0 <= m,
        p + m <= src.len(),
        forall|k: int| 0 <= k < m ==> #[trigger] src[p + k] == src[p - d + k],
    ensures
        copy_match(src.take(p), d as nat, m as nat) == src.take(p + m),
{
    assert forall|i: int| 0 <= i < p + m implies #[trigger] copy_match(src.take(p), d as nat, m as nat)[i] == src.take(p + m)[i] by {
        if i >= p {
            lemma_periodic(src, p, d, m, i - p);
            assert(0 <= (i - p) % d < d) by (nonlinear_arith)
                requires
                    d >= 1,
            ;
        }
    }
    assert(copy_match(src.take(p), d as nat, m as nat) =~= src.take(p + m));
}

/// What `cmds` decode to holds at least the literals that they consume.
pub proof fn lemma_expand_len(out: Seq<u8>, lits: Seq<u8>, cmds: Seq<Lmd>)
    requires
        lit_count(cmds) <= lits.len(),
    ensures
        out.len() + lit_count(cmds) <= expand_from(out, lits, cmds).len(),
    decreases cmds.len(),
{
    if cmds.len() > 0 {
        lemma_expand_len(out, lits, cmds.drop_last());
    }
}

/// A prefix of `cmds` consumes no more literals than the whole.
pub proof fn lemma_lit_count_prefix(cmds: Seq<Lmd>, i: int)
    requires
        0 <= i <= cmds.len(),
    ensures
        lit_count(cmds.take(i)) <= lit_count(cmds),
    decreases cmds.len(),
{
    if i < cmds.len() {
        lemma_lit_count_prefix(cmds.drop_last(), i);
        assert(cmds.drop_last().take(i) =~= cmds.take(i));
    } else {
        assert(cmds.take(i) =~= cmds);
    }
}

/// Literals past those that `cmds` consume change nothing of what they decode to.
pub proof fn lemma_expand_prefix(out: Seq<u8>, lits: Seq<u8>, more: Seq<u8>, cmds: Seq<Lmd>)
    requires
        lit_count(cmds) <= lits.len(),
    ensures
        expand_from(out, lits + more, cmds) == expand_from(out, lits, cmds),
        cmds_valid_from(out, lits + more, cmds) == cmds_valid_from(out, lits, cmds),
    decreases cmds.len(),
{
    if cmds.len() > 0 {
        let pre = cmds.drop_last();
        let c = cmds.last();
        let k = lit_count(pre);
        lemma_expand_prefix(out, lits, more, pre);
        assert((lits + more).subrange(k as int, k + c.literal_len) =~= lits.subrange(
            k as int,
            k + c.literal_len,
        ));
    }
}

/// Appending a triple whose literals are the next bytes of `src` and whose match repeats the
/// bytes `d` back extends the decoded prefix of `src`.
pub proof fn lemma_expand_step(
    out: Seq<u8>,
    src: Seq<u8>,
    lits: Seq<u8>,
    cmds: Seq<Lmd>,
    li: int,
    mi: int,
    m: int,
    d: int,
)
    requires
        expand_from(out, lits, cmds) == src.take(li),
        lits.len() == lit_count(cmds),
        cmds_valid_from(out, lits, cmds),
        0 <= li <= mi,
        0 <= m,
        mi + m <= src.len(),
        m > 0 ==> 1 <= d <= mi,
        mi - li <= u32::MAX,
        m <= u32::MAX,
        0 <= d <= u32::MAX,
        forall|k: int| 0 <= k < m ==> #[trigger] src[mi + k] == src[mi - d + k],
    ensures
        ({
            let lits2 = lits + src.subrange(li, mi);
            let cmds2 = cmds.push(
                Lmd { literal_len: (mi - li) as u32, match_len: m as u32, match_distance: d as u32 },
            );
            &&& expand_from(out, lits2, cmds2) == src.take(mi + m)
            &&& lits2.len() == lit_count(cmds2)
            &&& cmds_valid_from(out, lits2, cmds2)
        }),
{
    let lits2 = lits + src.subrange(li, mi);
    let c = Lmd { literal_len: (mi - li) as u32, match_len: m as u32, match_distance: d as u32 };
    let cmds2 = cmds.push(c);
    assert(cmds2.drop_last() =~= cmds);
    lemma_expand_prefix(out, lits, src.subrange(li, mi), cmds);
    let k = lit_count(cmds);
    assert(lits2.subrange(k as int, k + c.literal_len) =~= src.subrange(li, mi));
    assert(src.take(li) + src.subrange(li, mi) =~= src.take(mi));
    if m > 0 {
        lemma_copy_match(src, mi, d, m);
    } else {
        assert(copy_match(src.take(mi), d as nat, 0) =~= src.take(mi));
    }
}

} // verus!
