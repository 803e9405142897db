//! Decoding what the VN encoder writes gives back what its triples decode to.

use vstd::prelude::*;

use crate::decode::{vn_op_spec, vn_run};
use crate::frontend_bytes::{cmd_bounded, cmds_bounded};
use crate::lmd::{cmds_valid, cmds_valid_from, copy_match, expand, expand_from, lit_count, Lmd};
use crate::match_unit::VnUnit;
use crate::vn::{eos_ops, last_distance, vn_ops, head_op, lead_ops, lead_rest, lit_ops, lrg_lits, lrg_rest, m_ops, match_ops, min_int};

verus! {

/// Literal opcodes of 16 literals or more decode to their literals.
proof fn lemma_run_lrg_lits(p: Seq<u8>, q: int, ls: Seq<u8>, out: Seq<u8>, d: int, end: int)
    requires
        0 <= q,
        q + lrg_lits(ls).len() < p.len(),
        p.subrange(q, q + lrg_lits(ls).len()) == lrg_lits(ls),
        out.len() + ls.len() <= end,
    ensures
        vn_run(p, q, out, d, end) == vn_run(
            p,
            q + lrg_lits(ls).len(),
            out + ls.take(ls.len() - lrg_rest(ls.len() as int)),
            d,
            end,
        ),
    decreases ls.len(),
{
    crate::vn::lemma_lrg_rest_le(ls.len() as int);
    if ls.len() > 15 {
        let x = min_int(ls.len() as int, 271);
        let rest = ls.skip(x);
        let chunk = seq![0xE0u8, (x - 16) as u8] + ls.take(x);
        assert(lrg_lits(ls) == chunk + lrg_lits(rest));
        let n2 = q + 2 + x;
        assert(p[q] == 0xE0u8) by {
            assert(p.subrange(q, q + lrg_lits(ls).len())[0] == lrg_lits(ls)[0]);
        }
        assert(p[q + 1] == (x - 16) as u8) by {
            assert(p.subrange(q, q + lrg_lits(ls).len())[1] == lrg_lits(ls)[1]);
        }
        assert(vn_op_spec(p, q) == Ok::<Option<(int, int, int, int)>, crate::error::Error>(Some((x, 0, 0, 2))));
        assert(p.subrange(q + 2, n2) =~= ls.take(x)) by {
            assert forall|i: int| 0 <= i < x implies p.subrange(q + 2, n2)[i] == ls.take(x)[i] by {
                assert(p.subrange(q, q + lrg_lits(ls).len())[2 + i] == lrg_lits(ls)[2 + i]);
            }
        }
        assert(p.subrange(n2, n2 + lrg_lits(rest).len()) =~= lrg_lits(rest)) by {
            assert forall|i: int| 0 <= i < lrg_lits(rest).len() implies #[trigger] p.subrange(n2, n2 + lrg_lits(rest).len())[i]
                == lrg_lits(rest)[i] by {
                assert(p.subrange(q, q + lrg_lits(ls).len())[2 + x + i] == lrg_lits(ls)[2 + x + i]);
            }
        }
        lemma_run_lrg_lits(p, n2, rest, out + ls.take(x), d, end);
        crate::vn::lemma_lrg_rest_le(rest.len() as int);
        assert(lrg_rest(ls.len() as int) == lrg_rest(rest.len() as int));
        assert(out + ls.take(x) + rest.take(rest.len() - lrg_rest(rest.len() as int)) =~= out + ls.take(
            ls.len() - lrg_rest(ls.len() as int),
        ));
    } else {
        assert(ls.take(ls.len() - lrg_rest(ls.len() as int)) =~= Seq::<u8>::empty());
        assert(out + Seq::<u8>::empty() =~= out);
    }
}

/// Match opcodes at the previous distance decode to the match.
proof fn lemma_run_m_ops(p: Seq<u8>, q: int, m: int, out: Seq<u8>, dist: int, end: int)
    requires
        0 <= q,
        0 <= m,
        q + m_ops(m).len() < p.len(),
        p.subrange(q, q + m_ops(m).len()) == m_ops(m),
        1 <= dist <= out.len(),
        out.len() + m <= end,
    ensures
        vn_run(p, q, out, dist, end) == vn_run(p, q + m_ops(m).len(), copy_match(out, dist as nat, m as nat), dist, end),
    decreases m,
{
    if m > 15 {
        let y = min_int(m, 271);
        assert(m_ops(m) == seq![0xF0u8, (y - 16) as u8] + m_ops(m - y));
        assert(p[q] == 0xF0u8) by {
            assert(p.subrange(q, q + m_ops(m).len())[0] == m_ops(m)[0]);
        }
        assert(p[q + 1] == (y - 16) as u8) by {
            assert(p.subrange(q, q + m_ops(m).len())[1] == m_ops(m)[1]);
        }
        assert(vn_op_spec(p, q) == Ok::<Option<(int, int, int, int)>, crate::error::Error>(Some((0, y, 0, 2))));
        assert(out + p.subrange(q + 2, q + 2) =~= out);
        let o2 = copy_match(out, dist as nat, y as nat);
        assert(p.subrange(q + 2, q + 2 + m_ops(m - y).len()) =~= m_ops(m - y)) by {
            assert forall|i: int| 0 <= i < m_ops(m - y).len() implies #[trigger] p.subrange(q + 2, q + 2 + m_ops(m - y).len())[i]
                == m_ops(m - y)[i] by {
                assert(p.subrange(q, q + m_ops(m).len())[2 + i] == m_ops(m)[2 + i]);
            }
        }
        lemma_run_m_ops(p, q + 2, m - y, o2, dist, end);
        crate::fse_block::lemma_copy_match_concat(out, dist as nat, y as nat, (m - y) as nat);
    } else if m > 0 {
        assert(m_ops(m) == seq![(0xF0 + m) as u8]);
        assert(p[q] == (0xF0 + m) as u8) by {
            assert(p.subrange(q, q + m_ops(m).len())[0] == m_ops(m)[0]);
        }
        assert(vn_op_spec(p, q) == Ok::<Option<(int, int, int, int)>, crate::error::Error>(Some((0, m, 0, 1))));
        assert(out + p.subrange(q + 1, q + 1) =~= out);
    } else {
        assert(copy_match(out, dist as nat, 0) =~= out);
    }
}

/// The opcode that carries the literals and the head of a match decodes to them.
#[verifier::rlimit(100)]
proof fn lemma_head_op(p: Seq<u8>, q: int, l: int, xx: int, mm: int, d: int, d_prev: int)
    requires
        0 <= l <= 3,
        0 <= xx <= 7 - 2 * l,
        0 <= mm,
        1 <= d <= 0xFFFF,
        0 <= q,
        q + head_op(l, xx, mm, d, d_prev).0.len() <= p.len(),
        p.subrange(q, q + head_op(l, xx, mm, d, d_prev).0.len()) == head_op(l, xx, mm, d, d_prev).0,
    ensures
        vn_op_spec(p, q) == Ok::<Option<(int, int, int, int)>, crate::error::Error>(
            Some((l, xx + 3 + mm - head_op(l, xx, mm, d, d_prev).1, if d == d_prev { 0 } else { d }, head_op(l, xx, mm, d, d_prev).0.len() as int)),
        ),
{
    let (op, rest) = head_op(l, xx, mm, d, d_prev);
    assert(p[q] == op[0]) by {
        assert(p.subrange(q, q + op.len())[0] == op[0]);
    }
    if op.len() > 1 {
        assert(p[q + 1] == op[1]) by {
            assert(p.subrange(q, q + op.len())[1] == op[1]);
        }
    }
    if op.len() > 2 {
        assert(p[q + 2] == op[2]) by {
            assert(p.subrange(q, q + op.len())[2] == op[2]);
        }
    }
    if d == d_prev {
        if l == 0 {
            assert(p[q] as int == 0xF0 + xx + 3);
        } else {
            let o = l * 64 + xx * 8 + 6;
            assert(o < 0xD0 && o >= 0x46);
            assert(p[q] as int == o);
            assert(o % 8 == 6 && o / 64 == l && (o / 8) % 8 == xx);
            assert(!(0xA0 <= o && o < 0xC0));
            assert(!(0x70 <= o && o < 0x80));
        }
    } else if d < 1536 {
        let o = d / 256 + l * 64 + xx * 8;
        assert(o < 0xD0);
        assert(p[q] as int == o);
        assert(o % 8 == d / 256 && o / 64 == l && (o / 8) % 8 == xx);
        assert(!(0xA0 <= o && o < 0xC0));
        assert(!(0x70 <= o && o < 0x80));
        assert(o != 0x06 && o != 0x0E && o != 0x16);
        assert(p[q + 1] as int == d % 256);
    } else if d >= 16384 || mm == 0 || xx + 3 + mm > 34 {
        let o = l * 64 + xx * 8 + 7;
        assert(o < 0xD0);
        assert(p[q] as int == o);
        assert(o % 8 == 7 && o / 64 == l && (o / 8) % 8 == xx);
        assert(!(0xA0 <= o && o < 0xC0));
        assert(!(0x70 <= o && o < 0x80));
        assert(p[q + 1] as int == d % 256);
        assert(p[q + 2] as int == d / 256);
    } else {
        let x2 = xx + mm;
        let w = d * 4 + x2 % 4;
        let o = 0xA0 + x2 / 4 + l * 8;
        assert(p[q] as int == o);
        assert((o / 8) % 4 == l && o % 8 == x2 / 4);
        assert(p[q + 1] as int == w % 256);
        assert(p[q + 2] as int == w / 256);
        assert((w % 256) % 4 == x2 % 4);
        assert((w % 256) / 4 + (w / 256) * 64 == d);
    }
}

/// Where `a + b` stands at `q`, `a` stands at `q` and `b` right after it.
proof fn lemma_split_at(p: Seq<u8>, q: int, a: Seq<u8>, b: Seq<u8>)
    requires
        0 <= q,
        q + a.len() + b.len() <= p.len(),
        p.subrange(q, q + (a + b).len()) == a + b,
    ensures
        p.subrange(q, q + a.len()) == a,
        p.subrange(q + a.len(), q + a.len() + b.len()) == b,
{
    assert forall|i: int| 0 <= i < a.len() implies #[trigger] p.subrange(q, q + a.len())[i] == a[i] by {
        assert(p.subrange(q, q + (a + b).len())[i] == (a + b)[i]);
    }
    assert(p.subrange(q, q + a.len()) =~= a);
    assert forall|i: int| 0 <= i < b.len() implies #[trigger] p.subrange(q + a.len(), q + a.len() + b.len())[i] == b[i] by {
        assert((a + b).len() == a.len() + b.len());
        assert(p.subrange(q, q + (a + b).len())[a.len() + i] == (a + b)[a.len() + i]);
        assert((a + b)[a.len() + i] == b[i]);
        assert(p.subrange(q, q + (a + b).len())[a.len() + i] == p[q + a.len() + i]);
    }
    assert(p.subrange(q + a.len(), q + a.len() + b.len()) =~= b);
}

/// Literal opcodes decode to their literals.
proof fn lemma_run_lit_ops(p: Seq<u8>, q: int, ls: Seq<u8>, out: Seq<u8>, d: int, end: int)
    requires
        0 <= q,
        q + lit_ops(ls).len() < p.len(),
        p.subrange(q, q + lit_ops(ls).len()) == lit_ops(ls),
        out.len() + ls.len() <= end,
    ensures
        vn_run(p, q, out, d, end) == vn_run(p, q + lit_ops(ls).len(), out + ls, d, end),
{
    let n = ls.len() as int;
    let r = lrg_rest(n);
    crate::vn::lemma_lrg_rest_le(n);
    let a = lrg_lits(ls);
    let b = if r > 0 { seq![(0xE0 + r) as u8] + ls.skip(n - r) } else { Seq::<u8>::empty() };
    assert(lit_ops(ls) == a + b);
    lemma_split_at(p, q, a, b);
    lemma_run_lrg_lits(p, q, ls, out, d, end);
    let q1 = q + a.len();
    let out1 = out + ls.take(n - r);
    if r > 0 {
        lemma_split_at(p, q1, seq![(0xE0 + r) as u8], ls.skip(n - r));
        assert(p[q1] == (0xE0 + r) as u8) by {
            assert(p.subrange(q1, q1 + 1)[0] == (0xE0 + r) as u8);
        }
        assert(vn_op_spec(p, q1) == Ok::<Option<(int, int, int, int)>, crate::error::Error>(Some((r, 0, 0, 1))));
        assert(out1 + p.subrange(q1 + 1, q1 + 1 + r) =~= out + ls);
    } else {
        assert(out1 =~= out + ls);
    }
}

/// The literal opcodes before a match opcode decode to the literals that do not ride with it.
proof fn lemma_run_lead(p: Seq<u8>, q: int, ls: Seq<u8>, out: Seq<u8>, d_prev: int, end: int)
    requires
        0 <= q,
        q + lead_ops(ls).len() < p.len(),
        p.subrange(q, q + lead_ops(ls).len()) == lead_ops(ls),
        out.len() + ls.len() <= end,
    ensures
        vn_run(p, q, out, d_prev, end) == vn_run(
            p,
            q + lead_ops(ls).len(),
            out + ls.take(ls.len() - lead_rest(ls.len() as int)),
            d_prev,
            end,
        ),
{
    let n = ls.len() as int;
    let r = lrg_rest(n);
    crate::vn::lemma_lrg_rest_le(n);
    let l = lead_rest(n);
    let a = lrg_lits(ls);
    let b = if r > 3 { seq![(0xE0 + r) as u8] + ls.skip(n - r) } else { Seq::<u8>::empty() };
    assert(lead_ops(ls) == a + b);
    lemma_split_at(p, q, a, b);
    lemma_run_lrg_lits(p, q, ls, out, d_prev, end);
    let q1 = q + a.len();
    let out2 = out + ls.take(n - l);
    if r > 3 {
        lemma_split_at(p, q1, seq![(0xE0 + r) as u8], ls.skip(n - r));
        assert(p[q1] == (0xE0 + r) as u8) by {
            assert(p.subrange(q1, q1 + 1)[0] == (0xE0 + r) as u8);
        }
        assert(vn_op_spec(p, q1) == Ok::<Option<(int, int, int, int)>, crate::error::Error>(Some((r, 0, 0, 1))));
        assert(out + ls.take(n - r) + p.subrange(q1 + 1, q1 + 1 + r) =~= out2);
    } else {
        assert(out + ls.take(n - r) =~= out2);
        assert(b.len() == 0);
    }
}

/// The opcodes of a triple with a match decode to its literals and its match.
#[verifier::rlimit(60)]
proof fn lemma_run_match_ops(p: Seq<u8>, q: int, ls: Seq<u8>, m: int, d: int, d_prev: int, out: Seq<u8>, end: int)
    requires
        0 <= q,
        q + match_ops(ls, m, d, d_prev).len() < p.len(),
        p.subrange(q, q + match_ops(ls, m, d, d_prev).len()) == match_ops(ls, m, d, d_prev),
        out.len() + ls.len() + m <= end,
        3 <= m,
        1 <= d <= 0xFFFF,
        d <= out.len() + ls.len(),
    ensures
        vn_run(p, q, out, d_prev, end) == vn_run(
            p,
            q + match_ops(ls, m, d, d_prev).len(),
            copy_match(out + ls, d as nat, m as nat),
            d,
            end,
        ),
{
    let n = ls.len() as int;
    let r = lrg_rest(n);
    crate::vn::lemma_lrg_rest_le(n);
    let l = lead_rest(n);
    let x = min_int(m, 10 - 2 * l);
    let (op, rest) = head_op(l, x - 3, m - x, d, d_prev);
    let lead = lead_ops(ls);
    let tail = ls.skip(n - l);
    let mo = m_ops(rest);
    assert(match_ops(ls, m, d, d_prev) == lead + op + tail + mo);
    assert(lead + op + tail + mo == lead + (op + (tail + mo)));
    lemma_split_at(p, q, lead, op + (tail + mo));
    let q2 = q + lead.len();
    lemma_split_at(p, q2, op, tail + mo);
    let q3 = q2 + op.len();
    lemma_split_at(p, q3, tail, mo);
    let q4 = q3 + tail.len();
    lemma_run_lead(p, q, ls, out, d_prev, end);
    let out2 = out + ls.take(n - l);
    // The head opcode, its literals and its share of the match.
    lemma_head_op(p, q2, l, x - 3, m - x, d, d_prev);
    let hm = m - rest;
    assert(out2 + p.subrange(q3, q3 + l) =~= out + ls);
    let o3 = copy_match(out + ls, d as nat, hm as nat);
    assert(vn_run(p, q2, out2, d_prev, end) == vn_run(p, q4, o3, d, end));
    // The rest of the match, at the same distance.
    lemma_run_m_ops(p, q4, rest, o3, d, end);
    crate::fse_block::lemma_copy_match_concat(out + ls, d as nat, hm as nat, rest as nat);
}

proof fn lemma_run_cmds(p: Seq<u8>, lits: Seq<u8>, cmds: Seq<Lmd>, out: Seq<u8>, end: int)
    requires
        lit_count(cmds) <= lits.len(),
        cmds_valid_from(out, lits, cmds),
        cmds_bounded::<VnUnit>(cmds),
        vn_ops(lits, cmds).len() < p.len(),
        p.subrange(0, vn_ops(lits, cmds).len() as int) == vn_ops(lits, cmds),
        expand_from(out, lits, cmds).len() <= end,
    ensures
        vn_run(p, 0, out, 0, end) == vn_run(
            p,
            vn_ops(lits, cmds).len() as int,
            expand_from(out, lits, cmds),
            last_distance(cmds),
            end,
        ),
        out.len() <= expand_from(out, lits, cmds).len(),
    decreases cmds.len(),
{
    if cmds.len() > 0 {
        let pre = cmds.drop_last();
        let c = cmds.last();
        let k = lit_count(pre) as int;
        let ls = lits.subrange(k, k + c.literal_len);
        let x = expand_from(out, lits, pre);
        let cops = if c.match_len == 0 {
            lit_ops(ls)
        } else {
            crate::vn::match_ops(ls, c.match_len as int, c.match_distance as int, last_distance(pre))
        };
        assert(vn_ops(lits, cmds) == vn_ops(lits, pre) + cops);
        lemma_split_at(p, 0, vn_ops(lits, pre), cops);
        assert(cmds_bounded::<VnUnit>(pre)) by {
            assert forall|i: int| 0 <= i < pre.len() implies cmd_bounded::<VnUnit>(#[trigger] pre[i]) by {
                assert(pre[i] == cmds[i]);
            }
        }
        assert(cmd_bounded::<VnUnit>(cmds[cmds.len() - 1]));
        lemma_run_cmds(p, lits, pre, out, end);
        let q = vn_ops(lits, pre).len() as int;
        if c.match_len == 0 {
            lemma_run_lit_ops(p, q, ls, x, last_distance(pre), end);
            assert(copy_match(x + ls, c.match_distance as nat, 0) =~= x + ls);
        } else {
            lemma_run_match_ops(p, q, ls, c.match_len as int, c.match_distance as int, last_distance(pre), x, end);
        }
    }
}

/// Decoding the VN opcodes of valid triples, after an output `out`, gives what the triples
/// decode to after `out`.
pub proof fn law_vn_round_trip(lits: Seq<u8>, cmds: Seq<Lmd>, out: Seq<u8>)
    requires
        lit_count(cmds) <= lits.len(),
        cmds_valid_from(out, lits, cmds),
        cmds_bounded::<VnUnit>(cmds),
    ensures
        vn_run(vn_ops(lits, cmds) + eos_ops(), 0, out, 0, expand_from(out, lits, cmds).len() as int)
            == Ok::<Seq<u8>, crate::error::Error>(expand_from(out, lits, cmds)),
{
    let ops = vn_ops(lits, cmds);
    let p = ops + eos_ops();
    assert(p.subrange(0, ops.len() as int) =~= ops);
    let e = expand_from(out, lits, cmds);
    lemma_run_cmds(p, lits, cmds, out, e.len() as int);
    assert(p[ops.len() as int] == 0x06u8);
    assert(vn_op_spec(p, ops.len() as int) == Ok::<Option<(int, int, int, int)>, crate::error::Error>(None));
}

/// Triples that reach back no further than their own output decode after any output to that
/// output followed by what they decode to.
pub proof fn lemma_expand_after(out: Seq<u8>, lits: Seq<u8>, cmds: Seq<Lmd>)
    requires
        lit_count(cmds) <= lits.len(),
        cmds_valid(lits, cmds),
    ensures
        expand_from(out, lits, cmds) == out + expand(lits, cmds),
        cmds_valid_from(out, lits, cmds),
    decreases cmds.len(),
{
    if cmds.len() > 0 {
        let pre = cmds.drop_last();
        let c = cmds.last();
        let k = lit_count(pre) as int;
        let ls = lits.subrange(k, k + c.literal_len);
        lemma_expand_after(out, lits, pre);
        let x = expand(lits, pre);
        let d = c.match_distance as nat;
        let m = c.match_len as nat;
        if m > 0 {
            assert(copy_match(out + x + ls, d, m) =~= out + copy_match(x + ls, d, m));
        } else {
            assert(copy_match(out + x + ls, d, 0) =~= out + copy_match(x + ls, d, 0));
        }
        assert(out + x + ls == out + (x + ls)) by {
            assert(out + x + ls =~= out + (x + ls));
        }
    } else {
        assert(out + Seq::<u8>::empty() =~= out);
    }
}

} // verus!
