//! A circular byte buffer with shadow copies of its head and tail, so that a read of up to
//! `limit` bytes across the seam finds them laid out in one run.
//!
//! The slab is `[tail shadow | ring | head shadow]`: `limit`, `size` and `limit` bytes.

use vstd::prelude::*;

use crate::idx::{wrap32, Idx};

verus! {

/// The bytes that a word-wise match may read past its end: five words.
pub fn overmatch_len(len: usize) -> (r: usize)
    requires
        len + 5 * vstd::layout::size_of::<usize>() <= usize::MAX,
    ensures
        r == len + 5 * vstd::layout::size_of::<usize>(),
{
    let w = core::mem::size_of::<usize>();
    len + 5 * w
}

/// The sizes of a ring: its bytes, its shadows and the block it is filled by.
pub trait RingType {
    spec fn spec_ring_size() -> u32;

    spec fn spec_ring_limit() -> u32;

    spec fn spec_ring_blk_size() -> u32;

    fn ring_size() -> (r: u32)
        ensures
            r == Self::spec_ring_size(),
            0x1000 <= r <= 0x10_0000,
    ;

    fn ring_limit() -> (r: u32)
        ensures
            r == Self::spec_ring_limit(),
            8 <= r <= 0x1000,
    ;

    fn ring_blk_size() -> (r: u32)
        ensures
            r == Self::spec_ring_blk_size(),
            r <= Self::spec_ring_size() / 2,
            r > 0,
    ;
}

/// A ring buffer with its shadows.
pub struct Ring {
    slab: Vec<u8>,
    size: u32,
    limit: u32,
}

impl Ring {
    pub closed spec fn size(&self) -> int {
        self.size as int
    }

    pub closed spec fn limit(&self) -> int {
        self.limit as int
    }

    pub closed spec fn wf(&self) -> bool {
        &&& 8 <= self.limit <= 0x1000
        &&& 0x1000 <= self.size <= 0x10_0000
        &&& self.slab@.len() == 2 * self.limit + self.size
    }

    /// The ring's bytes.
    pub closed spec fn contents(&self) -> Seq<u8> {
        self.slab@.subrange(self.limit as int, self.limit + self.size)
    }

    /// The copy of the first `limit` bytes, after the ring.
    pub closed spec fn head_shadow(&self) -> Seq<u8> {
        self.slab@.subrange(self.limit + self.size, 2 * self.limit + self.size)
    }

    /// The copy of the last `limit` bytes, before the ring.
    pub closed spec fn tail_shadow(&self) -> Seq<u8> {
        self.slab@.subrange(0, self.limit as int)
    }

    pub proof fn lemma_wf(&self)
        requires
            self.wf(),
        ensures
            self.contents().len() == self.size(),
            self.head_shadow().len() == self.limit(),
            self.tail_shadow().len() == self.limit(),
            8 <= self.limit() <= 0x1000,
            0x1000 <= self.size() <= 0x10_0000,
    {
    }

    /// A ring of `T`'s sizes, all zero.
    pub fn new<T: RingType>() -> (r: Ring)
        ensures
            r.wf(),
            r.size() == T::spec_ring_size(),
            r.limit() == T::spec_ring_limit(),
            r.contents() == Seq::new(r.size() as nat, |i: int| 0u8),
    {
        let size = T::ring_size();
        let limit = T::ring_limit();
        let n = (2 * limit + size) as usize;
        let mut slab: Vec<u8> = Vec::new();
        while slab.len() < n
            invariant
                slab@.len() <= n,
                forall|i: int| 0 <= i < slab@.len() ==> slab@[i] == 0u8,
            decreases n - slab@.len(),
        {
            slab.push(0);
        }
        let r = Ring { slab, size, limit };
        assert(r.contents() =~= Seq::new(size as nat, |i: int| 0u8));
        r
    }

    pub fn ring_size(&self) -> (r: u32)
        ensures
            r == self.size(),
    {
        self.size
    }

    /// Copies `len` bytes within the slab from `from` to `to`, regions apart.
    fn slab_copy(&mut self, from: usize, to: usize, len: usize)
        requires
            from + len <= old(self).slab@.len(),
            to + len <= old(self).slab@.len(),
            from + len <= to || to + len <= from,
        ensures
            final(self).size == old(self).size,
            final(self).limit == old(self).limit,
            final(self).slab@.len() == old(self).slab@.len(),
            final(self).slab@.subrange(to as int, to + len) == old(self).slab@.subrange(from as int, from + len),
            forall|i: int| 0 <= i < old(self).slab@.len() && !(to <= i < to + len) ==> #[trigger] final(self).slab@[i] == old(self).slab@[i],
    {
        let mut k: usize = 0;
        let n = self.slab.len();
        while k < len
            invariant
                k <= len,
                n == self.slab@.len(),
                from + len <= self.slab@.len(),
                to + len <= self.slab@.len(),
                from + len <= to || to + len <= from,
                self.size == old(self).size,
                self.limit == old(self).limit,
                self.slab@.len() == old(self).slab@.len(),
                forall|i: int| 0 <= i < k ==> #[trigger] self.slab@[to + i] == old(self).slab@[from + i],
                forall|i: int| 0 <= i < old(self).slab@.len() && !(to <= i < to + k) ==> #[trigger] self.slab@[i] == old(self).slab@[i],
            decreases len - k,
        {
            let b = self.slab[from + k];
            proof {
                assert(b == old(self).slab@[from + k]);
            }
            self.slab.set(to + k, b);
            k += 1;
        }
        assert forall|i: int| 0 <= i < len implies #[trigger] self.slab@.subrange(to as int, to + len)[i]
            == old(self).slab@.subrange(from as int, from + len)[i] by {
            assert(self.slab@[to + i] == old(self).slab@[from + i]);
        }
        assert(self.slab@.subrange(to as int, to + len) =~= old(self).slab@.subrange(from as int, from + len));
    }

    /// Whether the head shadow holds the first `limit` bytes.
    pub fn head_shadowed(&self) -> (r: bool)
        requires
            self.wf(),
        ensures
            r == (self.head_shadow() == self.contents().take(self.limit())),
    {
        let lim = self.limit as usize;
        let base = (self.limit + self.size) as usize;
        let mut k: usize = 0;
        while k < lim
            invariant
                self.wf(),
                lim == self.limit,
                base == self.limit + self.size,
                k <= lim,
                forall|i: int| 0 <= i < k ==> #[trigger] self.head_shadow()[i] == self.contents()[i],
            decreases lim - k,
        {
            if self.slab[base + k] != self.slab[lim + k] {
                proof {
                    assert(self.head_shadow()[k as int] != self.contents().take(self.limit())[k as int]);
                }
                return false;
            }
            k += 1;
        }
        assert(self.head_shadow() =~= self.contents().take(self.limit()));
        true
    }

    /// Copies the first `limit` bytes into the head shadow.
    pub fn head_copy_out(&mut self)
        requires
            old(self).wf(),
        ensures
            final(self).wf(),
            final(self).size() == old(self).size(),
            final(self).limit() == old(self).limit(),
            final(self).contents() == old(self).contents(),
            final(self).tail_shadow() == old(self).tail_shadow(),
            final(self).head_shadow() == old(self).contents().take(old(self).limit()),
    {
        let lim = self.limit as usize;
        let base = (self.limit + self.size) as usize;
        self.slab_copy(lim, base, lim);
        assert(self.contents() =~= old(self).contents());
        assert(self.tail_shadow() =~= old(self).tail_shadow());
        assert(self.head_shadow() =~= old(self).contents().take(old(self).limit()));
    }

    /// Copies the head shadow into the first `limit` bytes.
    pub fn head_copy_in(&mut self)
        requires
            old(self).wf(),
        ensures
            final(self).wf(),
            final(self).size() == old(self).size(),
            final(self).limit() == old(self).limit(),
            final(self).contents() == old(self).head_shadow() + old(self).contents().skip(old(self).limit()),
            final(self).head_shadow() == old(self).head_shadow(),
            final(self).tail_shadow() == old(self).tail_shadow(),
    {
        let lim = self.limit as usize;
        let base = (self.limit + self.size) as usize;
        self.slab_copy(base, lim, lim);
        assert(self.contents() =~= old(self).head_shadow() + old(self).contents().skip(old(self).limit()));
        assert(self.tail_shadow() =~= old(self).tail_shadow());
        assert(self.head_shadow() =~= old(self).head_shadow());
    }

    /// Whether the tail shadow holds the last `limit` bytes.
    pub fn tail_shadowed(&self) -> (r: bool)
        requires
            self.wf(),
        ensures
            r == (self.tail_shadow() == self.contents().skip(self.size() - self.limit())),
    {
        let lim = self.limit as usize;
        let base = self.size as usize;
        let mut k: usize = 0;
        while k < lim
            invariant
                self.wf(),
                lim == self.limit,
                base == self.size,
                k <= lim,
                forall|i: int| 0 <= i < k ==> #[trigger] self.tail_shadow()[i] == self.contents()[self.size() - self.limit() + i],
            decreases lim - k,
        {
            if self.slab[k] != self.slab[base + k] {
                proof {
                    assert(self.tail_shadow()[k as int] != self.contents().skip(self.size() - self.limit())[k as int]);
                }
                return false;
            }
            k += 1;
        }
        assert(self.tail_shadow() =~= self.contents().skip(self.size() - self.limit()));
        true
    }

    /// Copies the last `limit` bytes into the tail shadow.
    pub fn tail_copy_out(&mut self)
        requires
            old(self).wf(),
        ensures
            final(self).wf(),
            final(self).size() == old(self).size(),
            final(self).limit() == old(self).limit(),
            final(self).contents() == old(self).contents(),
            final(self).head_shadow() == old(self).head_shadow(),
            final(self).tail_shadow() == old(self).contents().skip(old(self).size() - old(self).limit()),
    {
        let lim = self.limit as usize;
        let base = self.size as usize;
        self.slab_copy(base, 0, lim);
        assert(self.contents() =~= old(self).contents());
        assert(self.head_shadow() =~= old(self).head_shadow());
        assert(self.tail_shadow() =~= old(self).contents().skip(old(self).size() - old(self).limit()));
    }

    /// Copies the tail shadow into the last `limit` bytes.
    pub fn tail_copy_in(&mut self)
        requires
            old(self).wf(),
        ensures
            final(self).wf(),
            final(self).size() == old(self).size(),
            final(self).limit() == old(self).limit(),
            final(self).contents() == old(self).contents().take(old(self).size() - old(self).limit()) + old(self).tail_shadow(),
            final(self).head_shadow() == old(self).head_shadow(),
            final(self).tail_shadow() == old(self).tail_shadow(),
    {
        let lim = self.limit as usize;
        let base = self.size as usize;
        self.slab_copy(0, base, lim);
        assert(self.contents() =~= old(self).contents().take(old(self).size() - old(self).limit()) + old(self).tail_shadow());
        assert(self.head_shadow() =~= old(self).head_shadow());
        assert(self.tail_shadow() =~= old(self).tail_shadow());
    }

    /// The byte at position `idx`, modulo the ring size.
    pub fn get(&self, idx: Idx) -> (r: u8)
        requires
            self.wf(),
        ensures
            r == self.contents()[(idx.val as int) % self.size()],
    {
        let i = (idx.val % self.size) as usize;
        self.slab[self.limit as usize + i]
    }

    /// Sets the byte at position `idx`, modulo the ring size.
    pub fn set(&mut self, idx: Idx, b: u8)
        requires
            old(self).wf(),
        ensures
            final(self).wf(),
            final(self).size() == old(self).size(),
            final(self).limit() == old(self).limit(),
            final(self).contents() == old(self).contents().update((idx.val as int) % old(self).size(), b),
    {
        let i = (idx.val % self.size) as usize;
        self.slab.set(self.limit as usize + i, b);
        assert(self.contents() =~= old(self).contents().update((idx.val as int) % old(self).size(), b));
    }

    /// A copy of the ring's bytes `from..to`.
    pub fn copy_range(&self, from: u32, to: u32) -> (r: Vec<u8>)
        requires
            self.wf(),
            from <= to <= self.size(),
        ensures
            r@ == self.contents().subrange(from as int, to as int),
    {
        let mut r: Vec<u8> = Vec::new();
        let mut i = from;
        while i < to
            invariant
                self.wf(),
                from <= i <= to <= self.size(),
                r@ == self.contents().subrange(from as int, i as int),
            decreases to - i,
        {
            r.push(self.slab[(self.limit + i) as usize]);
            i += 1;
            proof {
                assert(r@ =~= self.contents().subrange(from as int, i as int));
            }
        }
        r
    }

    /// Four bytes from position `idx`, little-endian, wrapping around the ring.
    pub fn get_u32(&self, idx: Idx) -> (r: u32)
        requires
            self.wf(),
        ensures
            r == self.contents()[(idx.val as int) % self.size()] + 256 * self.contents()[(wrap32(idx.val + 1) as int)
                % self.size()] + 65536 * self.contents()[(wrap32(idx.val + 2) as int) % self.size()] + 16777216
                * self.contents()[(wrap32(idx.val + 3) as int) % self.size()],
    {
        let b0 = self.get(idx) as u32;
        let b1 = self.get(idx.wrapping_add(1)) as u32;
        let b2 = self.get(idx.wrapping_add(2)) as u32;
        let b3 = self.get(idx.wrapping_add(3)) as u32;
        let v = b0 | (b1 << 8) | (b2 << 16) | (b3 << 24);
        assert(v == b0 + 256 * b1 + 65536 * b2 + 16777216 * b3) by (bit_vector)
            requires
                v == b0 | (b1 << 8) | (b2 << 16) | (b3 << 24),
                b0 < 256,
                b1 < 256,
                b2 < 256,
                b3 < 256,
        ;
        v
    }
}

} // verus!
