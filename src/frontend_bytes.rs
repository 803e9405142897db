//! The match finder over a byte slice held in memory whole.

use vstd::prelude::*;

use crate::history::{History, HistoryTable, Item, HISTORY_SIZE, spec_index};
use crate::idx::{wrap32, Idx, Q1, Q2, Q3};
use crate::lmd::{cmds_valid, cmds_valid_from, expand, expand_from, lemma_expand_step, lit_count, Lmd};
use crate::match_object::{select_spec, Match};
use crate::block::{
    le32, push_u32, raw_block, raw_compress, vn_block, vn_or_raw, EOS_MAGIC, FSE2_MAGIC,
    RAW_CUTOFF, RAW_HEADER_SIZE, VN_CUTOFF, VN_HEADER_SIZE, VN_MAGIC,
};
use crate::match_unit::{FseUnit, MatchUnit, VnUnit};

verus! {

/// A match of this length or more is emitted at once.
pub const GOOD_MATCH_LEN: u32 = 0x0028;

/// The largest input that one pass of the bytes frontend takes.
pub const BYTES_LIMIT: usize = 0x7FFF_FFFF;

/// `m` is a genuine match for a backend with unit `M`: it starts at or after the literal
/// cursor `li`, reaches back at most the backend's maximum distance, ends within `src`, and
/// its bytes repeat those at `match_idx`.
pub open spec fn match_ok<M: MatchUnit>(src: Seq<u8>, m: Match, li: int) -> bool {
    &&& li <= m.idx.val
    &&& m.match_idx.val < m.idx.val
    &&& m.idx.val - m.match_idx.val <= M::spec_max_match_distance()
    &&& m.idx.val + m.match_len <= src.len()
    &&& m.match_len >= M::spec_match_unit()
    &&& forall|k: int| 0 <= k < m.match_len ==> #[trigger] src[m.idx.val + k] == src[m.match_idx.val + k]
}

/// A triple meets the backend's bounds: a match of the backend's unit or more, at a distance
/// it reaches; no distance without a match.
pub open spec fn cmd_bounded<M: MatchUnit>(c: Lmd) -> bool {
    if c.match_len == 0 {
        c.match_distance == 0
    } else {
        c.match_len >= M::spec_match_unit() && 1 <= c.match_distance <= M::spec_max_match_distance()
    }
}

/// Every triple of `cmds` meets the backend's bounds.
pub open spec fn cmds_bounded<M: MatchUnit>(cmds: Seq<Lmd>) -> bool {
    forall|i: int| 0 <= i < cmds.len() ==> cmd_bounded::<M>(#[trigger] cmds[i])
}

/// Every history item was pushed before `index`, or is the mark left by a reset.
pub open spec fn table_before(table: Seq<History>, index: int) -> bool {
    forall|b: int, s: int|
        0 <= b < HISTORY_SIZE && 0 <= s < 4 ==> (#[trigger] table[b]@[s]).idx.val == Q3
            || table[b]@[s].idx.val < index
}

/// Reads four bytes at `index`, little-endian.
fn get_u32(src: &[u8], index: u32) -> u32
    requires
        index + 4 <= src@.len(),
{
    let i = index as usize;
    (src[i] as u32) | ((src[i + 1] as u32) << 8) | ((src[i + 2] as u32) << 16) | ((src[i + 3] as u32) << 24)
}

/// Appends `src[from..to]` to `dst`.
pub fn push_bytes(dst: &mut Vec<u8>, src: &[u8], from: usize, to: usize)
    requires
        from <= to <= src@.len(),
    ensures
        final(dst)@ == old(dst)@ + src@.subrange(from as int, to as int),
{
    let mut i = from;
    while i < to
        invariant
            from <= i <= to <= src@.len(),
            dst@ == old(dst)@ + src@.subrange(from as int, i as int),
        decreases to - i,
    {
        dst.push(src[i]);
        assert(src@.subrange(from as int, i + 1) =~= src@.subrange(from as int, i as int).push(src@[i as int]));
        i += 1;
    }
}

/// The frontend over a whole input: finds the matches and collects the literals and the
/// triples that rebuild the input.
pub struct FrontendBytes<'a> {
    table: HistoryTable,
    src: &'a [u8],
    start: u32,
    pending: Match,
    literal_index: u32,
    lits: Vec<u8>,
    cmds: Vec<Lmd>,
}

impl<'a> FrontendBytes<'a> {
    pub closed spec fn source(&self) -> Seq<u8> {
        self.src@
    }

    /// The literals collected so far.
    pub closed spec fn literals(&self) -> Seq<u8> {
        self.lits@
    }

    /// The triples collected so far.
    pub closed spec fn lmds(&self) -> Seq<Lmd> {
        self.cmds@
    }

    pub closed spec fn literal_index(&self) -> int {
        self.literal_index as int
    }

    /// Where encoding starts: the bytes before it are history that matches may reach into.
    pub closed spec fn start(&self) -> int {
        self.start as int
    }

    pub closed spec fn table_wf(&self) -> bool {
        self.table.wf()
    }

    /// What is collected decodes to the input up to the literal cursor.
    pub closed spec fn wf<M: MatchUnit>(&self) -> bool {
        &&& self.table.wf()
        &&& self.src@.len() <= BYTES_LIMIT
        &&& self.start <= self.literal_index <= self.src@.len()
        &&& expand_from(self.src@.take(self.start as int), self.lits@, self.cmds@) == self.src@.take(self.literal_index as int)
        &&& self.lits@.len() == lit_count(self.cmds@)
        &&& cmds_valid_from(self.src@.take(self.start as int), self.lits@, self.cmds@)
        &&& cmds_bounded::<M>(self.cmds@)
    }

    /// The pending match, if any, is genuine and starts at or after the literal cursor.
    pub closed spec fn pending_ok<M: MatchUnit>(&self) -> bool {
        self.pending.match_len == 0 || match_ok::<M>(self.src@, self.pending, self.literal_index as int)
    }

    pub fn new(table: HistoryTable, src: &'a [u8]) -> (r: FrontendBytes<'a>)
        requires
            table.wf(),
            src@.len() <= BYTES_LIMIT,
        ensures
            r.table_wf(),
            r.source() == src@,
            r.start() == 0,
            r.literal_index() == 0,
            r.literals() == Seq::<u8>::empty(),
            r.lmds() == Seq::<Lmd>::empty(),
    {
        FrontendBytes::new_from(table, src, 0)
    }

    /// A frontend that encodes `src[start..]`, with `src[..start]` as history.
    pub fn new_from(table: HistoryTable, src: &'a [u8], start: u32) -> (r: FrontendBytes<'a>)
        requires
            table.wf(),
            src@.len() <= BYTES_LIMIT,
            start <= src@.len(),
        ensures
            r.table_wf(),
            r.source() == src@,
            r.start() == start,
            r.literal_index() == 0,
            r.literals() == Seq::<u8>::empty(),
            r.lmds() == Seq::<Lmd>::empty(),
    {
        FrontendBytes {
            table,
            src,
            start,
            pending: Match::new(Idx::new(0), Idx::new(0), 0),
            literal_index: 0,
            lits: Vec::new(),
            cmds: Vec::new(),
        }
    }

    /// Hands over the literals and triples collected.
    pub fn take_lmds(&mut self) -> (r: (Vec<u8>, Vec<Lmd>))
        ensures
            r.0@ == old(self).literals(),
            r.1@ == old(self).lmds(),
            final(self).source() == old(self).source(),
            final(self).start() == old(self).start(),
            final(self).table_wf() == old(self).table_wf(),
            final(self).literals() == Seq::<u8>::empty(),
            final(self).lmds() == Seq::<Lmd>::empty(),
    {
        let mut lits: Vec<u8> = Vec::new();
        let mut cmds: Vec<Lmd> = Vec::new();
        std::mem::swap(&mut lits, &mut self.lits);
        std::mem::swap(&mut cmds, &mut self.cmds);
        (lits, cmds)
    }

    /// Encodes the whole input as blocks and the end of stream magic: a RAW block up to
    /// `RAW_CUTOFF` bytes, a VN block up to `VN_CUTOFF` bytes where it is shorter than the RAW
    /// block would be (else the RAW block), FSE blocks beyond.
    pub fn execute(&mut self, dst: &mut Vec<u8>)
        requires
            old(self).table_wf(),
            old(self).start() == 0,
            old(self).source().len() <= BYTES_LIMIT,
        ensures
            final(self).table_wf(),
            exists|body: Seq<u8>|
                {
                    &&& #[trigger] (old(dst)@ + body + le32(EOS_MAGIC)) == final(dst)@
                    &&& frame_body(old(self).source(), body)
                },
    {
        let ghost d0 = dst@;
        let body = self.flush_select(dst);
        push_u32(dst, EOS_MAGIC);
        proof {
            assert(d0 + body@ + le32(EOS_MAGIC) =~= dst@);
        }
    }

    pub fn flush_select(&mut self, dst: &mut Vec<u8>) -> (body: Ghost<Seq<u8>>)
        requires
            old(self).table_wf(),
            old(self).start() == 0,
            old(self).source().len() <= BYTES_LIMIT,
        ensures
            final(self).table_wf(),
            final(self).source() == old(self).source(),
            final(dst)@ == old(dst)@ + body@,
            frame_body(old(self).source(), body@),
    {
        let len = self.src.len();
        if len > VN_CUTOFF as usize {
            self.flush_fse(dst)
        } else if len > RAW_CUTOFF as usize {
            self.flush_vn(dst)
        } else {
            let ghost d0 = dst@;
            raw_compress(dst, self.src);
            proof {
                assert(dst@ == d0 + raw_block(self.src@));
            }
            Ghost(raw_block(self.src@))
        }
    }

    /// A VN block, or a RAW block where the VN block would be no shorter.
    fn flush_vn(&mut self, dst: &mut Vec<u8>) -> (body: Ghost<Seq<u8>>)
        requires
            old(self).table_wf(),
            old(self).start() == 0,
            old(self).source().len() <= VN_CUTOFF,
        ensures
            final(self).table_wf(),
            final(self).source() == old(self).source(),
            final(dst)@ == old(dst)@ + body@,
            vn_or_raw(old(self).source(), body@),
    {
        self.finalize::<VnUnit>();
        let (lits, cmds) = self.take_lmds();
        let payload = crate::vn::vn_payload(&lits, &cmds);
        let n = payload.len();
        let len = self.src.len();
        if n <= len + RAW_HEADER_SIZE && VN_HEADER_SIZE + n < len + RAW_HEADER_SIZE {
            let ghost d0 = dst@;
            push_u32(dst, VN_MAGIC);
            push_u32(dst, len as u32);
            push_u32(dst, n as u32);
            crate::frontend_bytes::push_bytes(dst, payload.as_slice(), 0, n);
            proof {
                assert(payload@.subrange(0, n as int) =~= payload@);
                let out = vn_block(self.src@.len(), payload@);
                assert(d0 + out =~= dst@);
                assert(vn_or_raw(self.src@, out));
            }
            Ghost(vn_block(self.src@.len(), payload@))
        } else {
            let ghost d0 = dst@;
            raw_compress(dst, self.src);
            Ghost(raw_block(self.src@))
        }
    }

    /// FSE blocks.
    pub fn flush_fse(&mut self, dst: &mut Vec<u8>) -> (body: Ghost<Seq<u8>>)
        requires
            old(self).table_wf(),
            old(self).source().len() <= BYTES_LIMIT,
            old(self).start() < old(self).source().len(),
        ensures
            final(self).table_wf(),
            final(self).source() == old(self).source(),
            final(dst)@ == old(dst)@ + body@,
            body@.len() >= 8,
            body@.take(4) == le32(FSE2_MAGIC),
    {
        self.finalize::<FseUnit>();
        let (lits, cmds) = self.take_lmds();
        proof {
            if cmds@.len() == 0 {
                assert(expand_from(self.src@.take(self.start as int), lits@, cmds@) == self.src@.take(self.start as int));
            }
            assert forall|i: int| 0 <= i < cmds@.len() implies (#[trigger] cmds@[i]).match_distance
                <= crate::lmd::MAX_D_VALUE by {
                assert(cmd_bounded::<FseUnit>(cmds@[i]));
            }
        }
        let ghost d0 = dst@;
        crate::fse_block::fse_compress(dst, &lits, &cmds);
        let ghost body = dst@.skip(d0.len() as int);
        proof {
            assert(dst@ =~= d0 + body);
            assert(body.take(4) =~= dst@.subrange(d0.len() as int, d0.len() + 4int));
        }
        Ghost(body)
    }

    /// Gives the history table back.
    pub fn into_table(self) -> (r: HistoryTable)
        requires
            self.table_wf(),
        ensures
            r.wf(),
    {
        self.table
    }

    /// Resets the history and everything collected.
    fn init<M: MatchUnit>(&mut self)
        requires
            old(self).table.wf(),
            old(self).src@.len() <= BYTES_LIMIT,
            old(self).start <= old(self).src@.len(),
        ensures
            final(self).wf::<M>(),
            final(self).pending_ok::<M>(),
            final(self).src == old(self).src,
            final(self).start == old(self).start,
            final(self).literal_index == final(self).start,
            final(self).pending.match_len == 0,
            table_before(final(self).table@, final(self).start as int),
    {
        self.table.reset();
        self.pending = Match::new(Idx::new(0), Idx::new(0), 0);
        self.literal_index = self.start;
        self.lits = Vec::new();
        self.cmds = Vec::new();
        assert(wrap32(0 - Q1) == Q3);
        self.prime_history::<M>();
    }

    /// Pushes into the history the positions before the start.
    fn prime_history<M: MatchUnit>(&mut self)
        requires
            old(self).table.wf(),
            old(self).src@.len() <= BYTES_LIMIT,
            old(self).start <= old(self).src@.len(),
            table_before(old(self).table@, 0),
        ensures
            final(self).table.wf(),
            final(self).src == old(self).src,
            final(self).start == old(self).start,
            final(self).pending == old(self).pending,
            final(self).literal_index == old(self).literal_index,
            final(self).lits == old(self).lits,
            final(self).cmds == old(self).cmds,
            table_before(final(self).table@, final(self).start as int),
    {
        let len = self.src.len();
        let upto: u32 = if len < 4 {
            0
        } else if (self.start as usize) < len - 3 {
            self.start
        } else {
            (len - 3) as u32
        };
        let mut index: u32 = 0;
        while index < upto
            invariant
                self.table.wf(),
                self.src == old(self).src,
                self.start == old(self).start,
                self.pending == old(self).pending,
                self.literal_index == old(self).literal_index,
                self.lits == old(self).lits,
                self.cmds == old(self).cmds,
                len == self.src@.len() <= BYTES_LIMIT,
                upto <= self.start,
                len >= 4 ==> upto + 3 <= len,
                len < 4 ==> upto == 0,
                index <= upto,
                table_before(self.table@, index as int),
            decreases upto - index,
        {
            let val = get_u32(self.src, index);
            let item = Item::new(val, Idx::new(index));
            let ghost t0 = self.table@;
            let ghost b = spec_index::<M>(val);
            proof {
                self.table.lemma_len();
                crate::history::lemma_index_range::<M>(val);
                assert(t0[b]@[3] == t0[b].i3);
                lemma_not_wrapping(index, t0[b]@[3].idx.val);
            }
            let queue = self.table.push::<M>(item);
            proof {
                lemma_table_push(t0, b, queue, item, index);
            }
            index += 1;
        }
        proof {
            assert forall|b: int, s: int| 0 <= b < HISTORY_SIZE && 0 <= s < 4 implies (#[trigger] self.table@[b]@[s]).idx.val == Q3
                || self.table@[b]@[s].idx.val < self.start by {
                assert(self.table@[b]@[s].idx.val == Q3 || self.table@[b]@[s].idx.val < index);
            }
        }
    }

    /// Runs the match finder over the whole input: afterwards the literals and triples
    /// decode to the input.
    pub fn finalize<M: MatchUnit>(&mut self)
        requires
            old(self).table_wf(),
            old(self).source().len() <= BYTES_LIMIT,
            old(self).start() <= old(self).source().len(),
        ensures
            final(self).table_wf(),
            final(self).wf::<M>(),
            final(self).source() == old(self).source(),
            final(self).start() == old(self).start(),
            expand_from(final(self).source().take(final(self).start()), final(self).literals(), final(self).lmds())
                == final(self).source(),
            cmds_valid_from(final(self).source().take(final(self).start()), final(self).literals(), final(self).lmds()),
            final(self).start() == 0 ==> expand(final(self).literals(), final(self).lmds()) == final(self).source(),
            final(self).start() == 0 ==> cmds_valid(final(self).literals(), final(self).lmds()),
            cmds_bounded::<M>(final(self).lmds()),
            final(self).literals().len() == lit_count(final(self).lmds()),
            final(self).literals().len() <= final(self).source().len(),
    {
        self.init::<M>();
        if self.src.len() >= 4 && (self.start as usize) < self.src.len() - 3 {
            self.match_blocks::<M>();
        }
        self.flush_pending::<M>();
        self.flush_literals::<M>();
        proof {
            assert(self.src@.take(self.src@.len() as int) =~= self.src@);
            crate::lmd::lemma_expand_len(self.src@.take(self.start as int), self.lits@, self.cmds@);
            if self.start == 0 {
                assert(self.src@.take(0) =~= Seq::<u8>::empty());
            }
        }
    }

    /// The hot loop: pushes each position into the history and weighs the match found there.
    fn match_blocks<M: MatchUnit>(&mut self)
        requires
            old(self).wf::<M>(),
            old(self).pending_ok::<M>(),
            old(self).src@.len() >= 4,
            old(self).start + 3 < old(self).src@.len(),
            old(self).literal_index == old(self).start,
            table_before(old(self).table@, old(self).start as int),
        ensures
            final(self).wf::<M>(),
            final(self).pending_ok::<M>(),
            final(self).src == old(self).src,
            final(self).start == old(self).start,
    {
        let end: u32 = (self.src.len() - 3) as u32;
        let mut index: u32 = self.start;
        while index < end
            invariant_except_break
                self.literal_index <= index,
                index <= end,
                table_before(self.table@, index as int),
            invariant
                self.wf::<M>(),
                self.pending_ok::<M>(),
                self.src == old(self).src,
                self.start == old(self).start,
                end == self.src@.len() - 3,
            decreases end - index,
        {
            let val = get_u32(self.src, index);
            let item = Item::new(val, Idx::new(index));
            let ghost t0 = self.table@;
            let ghost b = spec_index::<M>(val);
            proof {
                self.table.lemma_len();
                crate::history::lemma_index_range::<M>(val);
                assert(t0[b]@[3] == t0[b].i3);
                lemma_not_wrapping(index, t0[b]@[3].idx.val);
            }
            let queue = self.table.push::<M>(item);
            proof {
                assert forall|s: int| 0 <= s < 4 implies (#[trigger] queue@[s]).idx.val == Q3
                    || queue@[s].idx.val < index by {
                    assert(t0[b]@[s] == queue@[s]);
                }
                lemma_table_push(t0, b, queue, item, index);
            }
            let incoming = self.find_match::<M>(queue, index);
            let ghost p = self.pending;
            let sel = self.pending.select::<GOOD_MATCH_LEN>(incoming);
            match sel {
                Some(select) => {
                    proof {
                        if p.match_len != 0 && incoming.match_len != 0 && incoming.match_len < GOOD_MATCH_LEN
                            && crate::match_object::match_end(p).le_spec(incoming.idx) {
                            assert(incoming.idx.val >= p.idx.val + p.match_len);
                        }
                    }
                    self.push_match::<M>(select);
                    if self.literal_index >= end {
                        break;
                    }
                    index = index + 1;
                    index = self.sync_history::<M>(index, end);
                },
                None => {
                    index = index + 1;
                },
            }
        }
    }

    /// The best match at `index` among the history `queue`, extended backwards as far as the
    /// literal cursor allows; a zero length where there is none.
    fn find_match<M: MatchUnit>(&self, queue: History, index: u32) -> (m: Match)
        requires
            self.wf::<M>(),
            index + 4 <= self.src@.len(),
            self.literal_index <= index,
            forall|s: int| 0 <= s < 4 ==> (#[trigger] queue@[s]).idx.val == Q3 || queue@[s].idx.val < index,
        ensures
            m.match_len == 0 || match_ok::<M>(self.src@, m, self.literal_index as int),
            m.match_len == 0 || (m.idx.val <= index && index + M::spec_match_unit() <= m.idx.val + m.match_len),
    {
        let mut m = Match::new(Idx::new(0), Idx::new(0), 0);
        proof {
            M::lemma_bounds();
        }
        let mut i: usize = 0;
        let max = M::max_match_distance();
        while i < 4
            invariant
                self.wf::<M>(),
                index + 4 <= self.src@.len(),
                max == M::spec_max_match_distance(),
                max <= crate::match_unit::FSE_MAX_MATCH_DISTANCE,
                forall|s: int| 0 <= s < 4 ==> (#[trigger] queue@[s]).idx.val == Q3 || queue@[s].idx.val < index,
                m.match_len == 0 || ({
                    &&& m.match_idx.val < index
                    &&& index - m.match_idx.val <= max
                    &&& index + m.match_len <= self.src@.len()
                    &&& m.match_len >= M::spec_match_unit()
                    &&& forall|k: int| 0 <= k < m.match_len ==> #[trigger] self.src@[index + k] == self.src@[m.match_idx.val + k]
                }),
            decreases 4 - i,
        {
            let q = queue.get(i);
            proof {
                lemma_not_wrapping(index, q.idx.val);
            }
            let distance = Idx::new(index).distance(q.idx);
            if distance > max {
                break;
            }
            let len_inc = self.match_unit::<M>(index, q.idx.val);
            if len_inc > m.match_len {
                m.match_len = len_inc;
                m.match_idx = q.idx;
            }
            i += 1;
        }
        if m.match_len == 0 {
            m
        } else {
            let midx = m.match_idx.val;
            let len = m.match_len;
            let dec = self.match_dec(index, midx);
            let r = Match::new(Idx::new(index - dec), Idx::new(midx - dec), len + dec);
            proof {
                assert forall|k: int| 0 <= k < r.match_len implies #[trigger] self.src@[r.idx.val + k] == self.src@[r.match_idx.val + k] by {
                    if k < dec {
                        let j = dec - 1 - k;
                        assert(self.src@[index - 1 - j] == self.src@[midx - 1 - j]);
                    } else {
                        let j = k - dec;
                        assert(self.src@[index + j] == self.src@[midx + j]);
                    }
                }
            }
            r
        }
    }

    /// The length of the match between `index` and `match_index`, counted forward within the
    /// input; zero where it is shorter than the backend's unit.
    fn match_unit<M: MatchUnit>(&self, index: u32, match_index: u32) -> (r: u32)
        requires
            self.src@.len() <= BYTES_LIMIT,
            match_index < index < self.src@.len(),
        ensures
            r == 0 || r >= M::spec_match_unit(),
            index + r <= self.src@.len(),
            forall|k: int| 0 <= k < r ==> #[trigger] self.src@[index + k] == self.src@[match_index + k],
    {
        let len = self.src.len() as u32;
        let max = len - index;
        let mut k: u32 = 0;
        while k < max && self.src[(index + k) as usize] == self.src[(match_index + k) as usize]
            invariant
                self.src@.len() <= BYTES_LIMIT,
                len == self.src@.len(),
                match_index < index < len,
                max == len - index,
                k <= max,
                forall|j: int| 0 <= j < k ==> #[trigger] self.src@[index + j] == self.src@[match_index + j],
            decreases max - k,
        {
            k += 1;
        }
        if k >= M::match_unit() {
            k
        } else {
            0
        }
    }

    /// The length of the match between `index` and `match_index`, counted backward, no further
    /// than the literal cursor or the start of the input.
    fn match_dec(&self, index: u32, match_index: u32) -> (r: u32)
        requires
            self.literal_index <= index,
            match_index < index <= self.src@.len(),
        ensures
            r <= index - self.literal_index,
            r <= match_index,
            forall|k: int| 0 <= k < r ==> #[trigger] self.src@[index - 1 - k] == self.src@[match_index - 1 - k],
    {
        let literal_len = index - self.literal_index;
        let max = if literal_len < match_index { literal_len } else { match_index };
        let mut k: u32 = 0;
        while k < max && self.src[(index - 1 - k) as usize] == self.src[(match_index - 1 - k) as usize]
            invariant
                match_index < index <= self.src@.len(),
                max <= index - self.literal_index,
                max <= match_index,
                k <= max,
                forall|j: int| 0 <= j < k ==> #[trigger] self.src@[index - 1 - j] == self.src@[match_index - 1 - j],
            decreases max - k,
        {
            k += 1;
        }
        k
    }

    /// Emits `m` with the literals before it.
    fn push_match<M: MatchUnit>(&mut self, m: Match)
        requires
            old(self).wf::<M>(),
            match_ok::<M>(old(self).src@, m, old(self).literal_index as int),
        ensures
            final(self).wf::<M>(),
            final(self).src == old(self).src,
            final(self).start == old(self).start,
            final(self).table == old(self).table,
            final(self).pending == old(self).pending,
            final(self).literal_index == m.idx.val + m.match_len,
    {
        let li = self.literal_index as usize;
        let mi = m.idx.val as usize;
        let d = m.idx.val - m.match_idx.val;
        proof {
            M::lemma_bounds();
            assert forall|k: int| 0 <= k < m.match_len implies #[trigger] self.src@[mi + k] == self.src@[mi - d + k] by {
                assert(self.src@[m.idx.val + k] == self.src@[m.match_idx.val + k]);
            }
            lemma_expand_step(self.src@.take(self.start as int), self.src@, self.lits@, self.cmds@, li as int, mi as int, m.match_len as int, d as int);
        }
        push_bytes(&mut self.lits, self.src, li, mi);
        let lmd = Lmd::new(m.idx.val - self.literal_index, m.match_len, d);
        let ghost c0 = self.cmds@;
        self.cmds.push(lmd);
        proof {
            assert forall|i: int| 0 <= i < self.cmds@.len() implies cmd_bounded::<M>(#[trigger] self.cmds@[i]) by {
                if i < c0.len() {
                    assert(self.cmds@[i] == c0[i]);
                }
            }
        }
        self.literal_index = m.idx.val + m.match_len;
    }

    /// Pushes into the history the positions that the last match skipped.
    fn sync_history<M: MatchUnit>(&mut self, index: u32, end: u32) -> (r: u32)
        requires
            old(self).table.wf(),
            end + 3 == old(self).src@.len(),
            old(self).src@.len() <= BYTES_LIMIT,
            old(self).literal_index < end,
            index <= end,
            table_before(old(self).table@, index as int),
        ensures
            final(self).table.wf(),
            final(self).src == old(self).src,
            final(self).start == old(self).start,
            final(self).pending == old(self).pending,
            final(self).literal_index == old(self).literal_index,
            final(self).lits == old(self).lits,
            final(self).cmds == old(self).cmds,
            r == if index < old(self).literal_index { old(self).literal_index } else { index },
            table_before(final(self).table@, r as int),
    {
        let start = index;
        let mut index = index;
        while index < self.literal_index
            invariant
                self.table.wf(),
                self.src == old(self).src,
                self.start == old(self).start,
                self.pending == old(self).pending,
                self.literal_index == old(self).literal_index,
                self.lits == old(self).lits,
                self.cmds == old(self).cmds,
                end + 3 == self.src@.len(),
                self.src@.len() <= BYTES_LIMIT,
                self.literal_index < end,
                start <= index,
                start < old(self).literal_index ==> index <= old(self).literal_index,
                start >= old(self).literal_index ==> index == start,
                table_before(self.table@, index as int),
            decreases self.literal_index - index,
        {
            let val = get_u32(self.src, index);
            let item = Item::new(val, Idx::new(index));
            let ghost t0 = self.table@;
            let ghost b = spec_index::<M>(val);
            proof {
                self.table.lemma_len();
                crate::history::lemma_index_range::<M>(val);
                assert(t0[b]@[3] == t0[b].i3);
                lemma_not_wrapping(index, t0[b]@[3].idx.val);
            }
            let queue = self.table.push::<M>(item);
            proof {
                lemma_table_push(t0, b, queue, item, index);
            }
            index += 1;
        }
        index
    }

    /// Emits the pending match, if any.
    fn flush_pending<M: MatchUnit>(&mut self)
        requires
            old(self).wf::<M>(),
            old(self).pending_ok::<M>(),
        ensures
            final(self).wf::<M>(),
            final(self).src == old(self).src,
            final(self).start == old(self).start,
    {
        if self.pending.match_len != 0 {
            let p = self.pending;
            self.push_match::<M>(p);
            self.pending.match_len = 0;
        }
    }

    /// Emits the literals after the last match.
    fn flush_literals<M: MatchUnit>(&mut self)
        requires
            old(self).wf::<M>(),
        ensures
            final(self).wf::<M>(),
            final(self).src == old(self).src,
            final(self).start == old(self).start,
            final(self).literal_index == final(self).src@.len(),
    {
        let len = self.src.len();
        let li = self.literal_index as usize;
        if li < len {
            proof {
                lemma_expand_step(self.src@.take(self.start as int), self.src@, self.lits@, self.cmds@, li as int, len as int, 0, 0);
            }
            push_bytes(&mut self.lits, self.src, li, len);
            let lmd = Lmd::new((len - li) as u32, 0, 0);
            let ghost c0 = self.cmds@;
            self.cmds.push(lmd);
            proof {
                assert forall|i: int| 0 <= i < self.cmds@.len() implies cmd_bounded::<M>(#[trigger] self.cmds@[i]) by {
                    if i < c0.len() {
                        assert(self.cmds@[i] == c0[i]);
                    }
                }
            }
            self.literal_index = len as u32;
        }
    }
}

/// What may stand between the start of a frame for `src` and its end of stream magic.
pub open spec fn frame_body(src: Seq<u8>, body: Seq<u8>) -> bool {
    if src.len() <= RAW_CUTOFF {
        body == raw_block(src)
    } else if src.len() <= VN_CUTOFF {
        vn_or_raw(src, body)
    } else {
        body.len() >= 8 && body.take(4) == le32(FSE2_MAGIC)
    }
}

proof fn lemma_not_wrapping(index: u32, x: u32)
    requires
        index < Q2,
        x == Q3 || x < index,
    ensures
        !crate::idx::is_wrapping_spec(Idx { val: index }, Idx { val: x }),
        x == Q3 ==> wrap32(index - x) > crate::match_unit::FSE_MAX_MATCH_DISTANCE,
        x < index ==> wrap32(index - x) == index - x,
{
}

proof fn lemma_table_push(t0: Seq<History>, b: int, r: History, item: Item, index: u32)
    requires
        t0.len() == HISTORY_SIZE,
        0 <= b < HISTORY_SIZE,
        r == t0[b],
        item.idx.val == index,
        table_before(t0, index as int),
    ensures
        table_before(t0.update(b, History::push_spec(r, item)), index + 1),
{
    let t1 = t0.update(b, History::push_spec(r, item));
    assert forall|c: int, s: int| 0 <= c < HISTORY_SIZE && 0 <= s < 4 implies (#[trigger] t1[c]@[s]).idx.val == Q3
        || t1[c]@[s].idx.val < index + 1 by {
        if c == b {
            if s > 0 {
                assert(t1[c]@[s] == t0[b]@[s - 1]);
            }
        } else {
            assert(t1[c] == t0[c]);
        }
    }
}

} // verus!
