//! The streaming frontend: input arrives in pieces and is held in a ring of fixed size, so the
//! working set does not grow with the input. Each time the ring fills, its bytes go through the
//! match finder as one segment of FSE blocks, with the last `LOOKBACK` bytes before them kept
//! as history, so that matches reach back across segments as far as the FSE distance allows.
//!
//! Each segment is matched by the bytes frontend over a copy of its bytes, with positions
//! counted from the start of the kept history. So positions never pass a quarter of the index
//! space and need no clamping; and the copy is contiguous, so no read crosses the ring's seam
//! and neither the shadow regions nor a working zone for the match cursor are needed. Up to
//! `VN_CUTOFF` bytes in all make the frame that the bytes frontend makes of them.

use vstd::prelude::*;

use crate::block::{le32, push_u32, EOS_MAGIC, VN_CUTOFF};
use crate::frontend_bytes::{frame_body, FrontendBytes};
use crate::history::HistoryTable;
use crate::idx::Idx;
use crate::ring::{Ring, RingType};
use crate::ring_config::Input;

verus! {

/// The bytes kept from one segment to the next: at least the largest FSE match distance.
pub const LOOKBACK: usize = 0x4_0000;

pub struct FrontendRing {
    ring: Ring,
    lookback: Vec<u8>,
    table: Option<HistoryTable>,
    fill: u32,
    flushed: bool,
    consumed: Ghost<Seq<u8>>,
}

impl FrontendRing {
    /// Every byte written since the last `init`.
    pub closed spec fn consumed(&self) -> Seq<u8> {
        self.consumed@
    }

    pub closed spec fn wf(&self) -> bool {
        &&& self.ring.wf()
        &&& self.table matches Some(t) && t.wf()
        &&& self.fill < self.ring.size()
        &&& self.ring.size() > VN_CUTOFF
        &&& self.ring.size() <= 0x10_0000
        &&& !self.flushed ==> self.ring.contents().take(self.fill as int) == self.consumed@
        &&& self.flushed ==> self.consumed@.len() > VN_CUTOFF
        &&& self.fill <= self.consumed@.len()
        &&& self.lookback@.len() <= LOOKBACK
    }

    pub fn new() -> (r: FrontendRing)
        ensures
            r.wf(),
            r.consumed() == Seq::<u8>::empty(),
    {
        let ring = Ring::new::<Input>();
        let r = FrontendRing {
            ring,
            lookback: Vec::new(),
            table: Some(HistoryTable::new()),
            fill: 0,
            flushed: false,
            consumed: Ghost(Seq::empty()),
        };
        proof {
            r.ring.lemma_wf();
            assert(r.ring.contents().take(0) =~= Seq::<u8>::empty());
        }
        r
    }

    /// Starts a new frame.
    pub fn init(&mut self)
        requires
            old(self).wf(),
        ensures
            final(self).wf(),
            final(self).consumed() == Seq::<u8>::empty(),
    {
        self.fill = 0;
        self.flushed = false;
        self.lookback.clear();
        self.consumed = Ghost(Seq::empty());
        assert(self.ring.contents().take(0) =~= Seq::<u8>::empty());
    }

    /// Takes in `src`; each time the ring fills, its bytes are encoded into `dst`.
    pub fn write(&mut self, dst: &mut Vec<u8>, src: &[u8])
        requires
            old(self).wf(),
        ensures
            final(self).wf(),
            final(self).consumed() == old(self).consumed() + src@,
            final(dst)@.take(old(dst)@.len() as int) == old(dst)@,
            final(dst)@.len() >= old(dst)@.len(),
    {
        let mut i: usize = 0;
        while i < src.len()
            invariant
                self.wf(),
                self.fill < self.ring.size(),
                i <= src@.len(),
                self.consumed() == old(self).consumed() + src@.take(i as int),
                dst@.take(old(dst)@.len() as int) == old(dst)@,
                dst@.len() >= old(dst)@.len(),
            decreases src@.len() - i,
        {
            proof {
                self.ring.lemma_wf();
            }
            let ghost c0 = self.consumed@;
            self.ring.set(Idx::new(self.fill), src[i]);
            self.consumed = Ghost(self.consumed@.push(src@[i as int]));
            proof {
                vstd::arithmetic::div_mod::lemma_small_mod(self.fill as nat, self.ring.size() as nat);
                assert((self.fill as int) % self.ring.size() == self.fill as int);
                if !self.flushed {
                    assert(self.ring.contents().take(self.fill + 1) =~= c0.push(src@[i as int]));
                }
                assert(src@.take(i + 1) =~= src@.take(i as int).push(src@[i as int]));
            }
            self.fill = self.fill + 1;
            if self.fill == self.ring.ring_size() {
                let ghost d0 = dst@;
                self.flush_segment(dst);
                proof {
                    let l = old(dst)@.len() as int;
                    assert(d0.take(l) == old(dst)@);
                    assert(dst@.take(d0.len() as int) == d0);
                    assert(dst@.take(l) =~= dst@.take(d0.len() as int).take(l));
                }
            }
            i += 1;
        }
    }

    /// Encodes the ring's bytes as FSE blocks, after the bytes kept from before, and empties
    /// it; keeps the last `LOOKBACK` bytes.
    fn flush_segment(&mut self, dst: &mut Vec<u8>)
        requires
            old(self).ring.wf(),
            old(self).table matches Some(t) && t.wf(),
            0 < old(self).fill <= old(self).ring.size(),
            old(self).ring.size() > VN_CUTOFF,
            old(self).ring.size() <= 0x10_0000,
            old(self).fill <= old(self).consumed@.len(),
            old(self).lookback@.len() <= LOOKBACK,
            old(self).flushed || old(self).fill == old(self).ring.size(),
            old(self).flushed ==> old(self).consumed@.len() > VN_CUTOFF,
        ensures
            final(self).wf(),
            final(self).ring.wf(),
            final(self).table matches Some(t) && t.wf(),
            final(self).ring == old(self).ring,
            final(self).consumed == old(self).consumed,
            final(self).lookback@.len() <= LOOKBACK,
            final(self).fill == 0,
            final(self).flushed,
            final(dst)@.take(old(dst)@.len() as int) == old(dst)@,
            final(dst)@.len() >= old(dst)@.len(),
    {
        proof {
            self.ring.lemma_wf();
        }
        let seg = self.ring.copy_range(0, self.fill);
        let mut src: Vec<u8> = Vec::new();
        crate::frontend_bytes::push_bytes(&mut src, self.lookback.as_slice(), 0, self.lookback.len());
        crate::frontend_bytes::push_bytes(&mut src, seg.as_slice(), 0, seg.len());
        let start = self.lookback.len() as u32;
        let table = match self.table.take() {
            Some(t) => t,
            None => HistoryTable::new(),
        };
        let mut frontend = FrontendBytes::new_from(table, src.as_slice(), start);
        let ghost d0 = dst@;
        let _ = frontend.flush_fse(dst);
        self.table = Some(frontend.into_table());
        let n = src.len();
        let keep = if n < LOOKBACK { n } else { LOOKBACK };
        let mut lookback: Vec<u8> = Vec::new();
        crate::frontend_bytes::push_bytes(&mut lookback, src.as_slice(), n - keep, n);
        self.lookback = lookback;
        self.fill = 0;
        self.flushed = true;
        assert(dst@.take(d0.len() as int) =~= d0);
    }

    /// Encodes what is left and ends the frame. Up to `VN_CUTOFF` bytes in all make the same
    /// frame that the bytes frontend makes of them.
    pub fn flush(&mut self, dst: &mut Vec<u8>)
        requires
            old(self).wf(),
        ensures
            final(self).wf(),
            final(self).consumed() == old(self).consumed(),
            old(self).consumed().len() <= VN_CUTOFF ==> exists|body: Seq<u8>|
                {
                    &&& #[trigger] (old(dst)@ + body + le32(EOS_MAGIC)) == final(dst)@
                    &&& frame_body(old(self).consumed(), body)
                },
            final(dst)@.len() >= old(dst)@.len() + 4,
            final(dst)@.skip(final(dst)@.len() - 4) == le32(EOS_MAGIC),
    {
        proof {
            self.ring.lemma_wf();
        }
        let ghost d0 = dst@;
        let seg = self.ring.copy_range(0, self.fill);
        let table = match self.table.take() {
            Some(t) => t,
            None => HistoryTable::new(),
        };
        let mut frontend = FrontendBytes::new(table, seg.as_slice());
        if !self.flushed {
            let body = frontend.flush_select(dst);
            proof {
                assert(seg@ == self.consumed@);
            }
            let ghost d1 = dst@;
            push_u32(dst, EOS_MAGIC);
            proof {
                assert(d0 + body@ + le32(EOS_MAGIC) =~= dst@);
            }
            self.table = Some(frontend.into_table());
        } else {
            self.table = Some(frontend.into_table());
            if self.fill > 0 {
                self.flush_segment(dst);
            }
            push_u32(dst, EOS_MAGIC);
        }
        proof {
            assert(dst@.skip(dst@.len() - 4) =~= le32(EOS_MAGIC));
        }
    }
}

} // verus!
