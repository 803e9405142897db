//! The match finder's hashed history table.

use vstd::prelude::*;

use crate::idx::{is_wrapping_spec, wrap32, Idx, Q0, Q1};
use crate::match_unit::MatchUnit;

verus! {

pub const HASH_BITS: u32 = 14;

pub const HASH_WIDTH: usize = 4;

pub const HISTORY_SIZE: usize = 0x4000;

/// A four byte word and the position that it was read from.
#[derive(Clone, Copy, Debug, Default, PartialEq, Eq, Structural)]
pub struct Item {
    pub val: u32,
    pub idx: Idx,
}

impl Item {
    pub fn new(val: u32, idx: Idx) -> (r: Item)
        ensures
            r.val == val,
            r.idx == idx,
    {
        Item { val, idx }
    }
}

/// A fixed length queue of items, newest first.
#[derive(Clone, Copy, Debug, Default, PartialEq, Eq, Structural)]
pub struct History {
    pub i0: Item,
    pub i1: Item,
    pub i2: Item,
    pub i3: Item,
}

/// The item that `clamp_rebias` makes of `item`.
pub open spec fn clamp_item(item: Item, idx: Idx, delta: u32) -> Item {
    if wrap32(idx.val - item.idx.val) > Q1 {
        Item { val: item.val, idx: Idx { val: wrap32(idx.val - Q1 - delta) } }
    } else {
        Item { val: item.val, idx: Idx { val: wrap32(item.idx.val - delta) } }
    }
}

impl History {
    pub open spec fn view(&self) -> Seq<Item> {
        seq![self.i0, self.i1, self.i2, self.i3]
    }

    pub open spec fn new_spec(item: Item) -> History {
        History { i0: item, i1: item, i2: item, i3: item }
    }

    /// The queue after `item` is pushed to `h`.
    pub open spec fn push_spec(h: History, item: Item) -> History {
        History { i0: item, i1: h.i0, i2: h.i1, i3: h.i2 }
    }

    /// A queue that holds `item` in every slot.
    pub fn new(item: Item) -> (r: History)
        ensures
            r == History::new_spec(item),
            r@ == seq![item, item, item, item],
    {
        History { i0: item, i1: item, i2: item, i3: item }
    }

    /// The item at `i`, newest first.
    pub fn get(&self, i: usize) -> (r: Item)
        requires
            i < HASH_WIDTH,
        ensures
            r == self@[i as int],
    {
        if i == 0 {
            self.i0
        } else if i == 1 {
            self.i1
        } else if i == 2 {
            self.i2
        } else {
            self.i3
        }
    }

    /// Pushes `item` to the front, dropping the oldest item.
    pub fn push(&mut self, item: Item)
        requires
            !is_wrapping_spec(item.idx, old(self).i3.idx),
        ensures
            *final(self) == History::push_spec(*old(self), item),
            final(self)@ == seq![item].add(old(self)@.take(3)),
    {
        self.i3 = self.i2;
        self.i2 = self.i1;
        self.i1 = self.i0;
        self.i0 = item;
        assert(self@ =~= seq![item].add(old(self)@.take(3)));
    }

    /// Clamps every position to at most `Q1` behind `idx`, then subtracts `delta`.
    pub fn clamp_rebias(&mut self, idx: Idx, delta: u32)
        requires
            forall|i: int| 0 <= i < 4 ==> !is_wrapping_spec(idx, #[trigger] old(self)@[i].idx),
        ensures
            final(self)@ == old(self)@.map_values(|it: Item| clamp_item(it, idx, delta)),
    {
        proof {
            assert(old(self)@[0] == old(self).i0);
            assert(old(self)@[1] == old(self).i1);
            assert(old(self)@[2] == old(self).i2);
            assert(old(self)@[3] == old(self).i3);
        }
        self.i0 = clamp_one(self.i0, idx, delta);
        self.i1 = clamp_one(self.i1, idx, delta);
        self.i2 = clamp_one(self.i2, idx, delta);
        self.i3 = clamp_one(self.i3, idx, delta);
        assert(self@ =~= old(self)@.map_values(|it: Item| clamp_item(it, idx, delta)));
    }
}

fn clamp_one(item: Item, idx: Idx, delta: u32) -> (r: Item)
    ensures
        r == clamp_item(item, idx, delta),
{
    if idx.distance(item.idx) > Q1 {
        Item { val: item.val, idx: idx.wrapping_sub(Q1).wrapping_sub(delta) }
    } else {
        Item { val: item.val, idx: item.idx.wrapping_sub(delta) }
    }
}

} // verus!

verus! {

/// The queue after pushing `items` in order.
pub open spec fn push_all(h: History, items: Seq<Item>) -> History
    decreases items.len(),
{
    if items.len() == 0 {
        h
    } else {
        History::push_spec(push_all(h, items.drop_last()), items.last())
    }
}

/// After four or more pushes of items with strictly increasing positions, a queue holds
/// strictly decreasing positions from its newest item to its oldest.
pub proof fn law_history_order(h: History, items: Seq<Item>)
    requires
        items.len() >= 4,
        forall|i: int, j: int| 0 <= i < j < items.len() ==> (#[trigger] items[i]).idx.val < (#[trigger] items[j]).idx.val,
    ensures
        ({
            let q = push_all(h, items);
            q.i0.idx.val > q.i1.idx.val > q.i2.idx.val > q.i3.idx.val
        }),
{
    let n = items.len() as int;
    let q = push_all(h, items);
    let s1 = items.drop_last();
    let s2 = s1.drop_last();
    let s3 = s2.drop_last();
    assert(q.i0 == items[n - 1]);
    assert(q.i1 == push_all(h, s1).i0);
    assert(push_all(h, s1).i0 == s1.last());
    assert(q.i2 == push_all(h, s2).i0);
    assert(push_all(h, s2).i0 == s2.last());
    assert(q.i3 == push_all(h, s3).i0);
    assert(push_all(h, s3).i0 == s3.last());
    assert(items[n - 4].idx.val < items[n - 3].idx.val);
    assert(items[n - 3].idx.val < items[n - 2].idx.val);
    assert(items[n - 2].idx.val < items[n - 1].idx.val);
}

} // verus!

verus! {

/// The bucket that `val` is filed under.
pub open spec fn spec_index<M: MatchUnit>(val: u32) -> int {
    (M::spec_hash(val) >> (32 - HASH_BITS) as u32) as int
}

/// Every value is filed under a bucket of the table.
pub proof fn lemma_index_range<M: MatchUnit>(val: u32)
    ensures
        0 <= spec_index::<M>(val) < HISTORY_SIZE,
{
    let h = M::spec_hash(val);
    assert(h >> 18u32 < 0x4000) by (bit_vector);
}

pub fn index<M: MatchUnit>(val: u32) -> (r: usize)
    ensures
        r == spec_index::<M>(val),
        r < HISTORY_SIZE,
{
    let h = M::hash_u(val);
    assert(h >> 18u32 < 0x4000) by (bit_vector);
    (h >> (32 - HASH_BITS)) as usize
}

/// The history table: `HISTORY_SIZE` buckets of `HASH_WIDTH` items each.
pub struct HistoryTable {
    buckets: Vec<History>,
}

impl HistoryTable {
    pub closed spec fn view(&self) -> Seq<History> {
        self.buckets@
    }

    pub closed spec fn wf(&self) -> bool {
        self.buckets@.len() == HISTORY_SIZE
    }

    /// A well formed table holds `HISTORY_SIZE` buckets.
    pub proof fn lemma_len(&self)
        requires
            self.wf(),
        ensures
            self@.len() == HISTORY_SIZE,
    {
    }

    /// A table whose every item is `(0, Q0 - Q1)`.
    pub fn new() -> (r: HistoryTable)
        ensures
            r.wf(),
            forall|i: int|
                0 <= i < HISTORY_SIZE ==> #[trigger] r@[i] == History::new_spec(
                    Item { val: 0, idx: Idx { val: wrap32(Q0 - Q1) } },
                ),
    {
        let h = History::new(Item::new(0, Idx::new(Q0).wrapping_sub(Q1)));
        let mut buckets: Vec<History> = Vec::new();
        while buckets.len() < HISTORY_SIZE
            invariant
                buckets@.len() <= HISTORY_SIZE,
                forall|i: int| 0 <= i < buckets@.len() ==> #[trigger] buckets@[i] == h,
                h == History::new_spec(Item { val: 0, idx: Idx { val: wrap32(Q0 - Q1) } }),
            decreases HISTORY_SIZE - buckets@.len(),
        {
            buckets.push(h);
        }
        HistoryTable { buckets }
    }

    /// Pushes `item` into its bucket and returns the bucket as it was before.
    pub fn push<M: MatchUnit>(&mut self, item: Item) -> (r: History)
        requires
            old(self).wf(),
            !is_wrapping_spec(item.idx, old(self)@[spec_index::<M>(item.val)].i3.idx),
        ensures
            final(self).wf(),
            r == old(self)@[spec_index::<M>(item.val)],
            final(self)@ == old(self)@.update(
                spec_index::<M>(item.val),
                History::push_spec(r, item),
            ),
    {
        let i = index::<M>(item.val);
        let mut queue = self.buckets[i];
        let copy = queue;
        queue.push(item);
        self.buckets.set(i, queue);
        copy
    }

    /// Clamps every position to at most `Q1` behind `idx`.
    pub fn clamp(&mut self, idx: Idx)
        requires
            old(self).wf(),
            forall|b: int, i: int|
                0 <= b < HISTORY_SIZE && 0 <= i < 4 ==> !is_wrapping_spec(
                    idx,
                    #[trigger] old(self)@[b]@[i].idx,
                ),
        ensures
            final(self).wf(),
            forall|b: int|
                0 <= b < HISTORY_SIZE ==> #[trigger] final(self)@[b]@ == old(self)@[b]@.map_values(
                    |it: Item| clamp_item(it, idx, 0),
                ),
    {
        self.clamp_rebias(idx, 0)
    }

    /// Clamps every position to at most `Q1` behind `idx`, then subtracts `delta`.
    pub fn clamp_rebias(&mut self, idx: Idx, delta: u32)
        requires
            old(self).wf(),
            forall|b: int, i: int|
                0 <= b < HISTORY_SIZE && 0 <= i < 4 ==> !is_wrapping_spec(
                    idx,
                    #[trigger] old(self)@[b]@[i].idx,
                ),
        ensures
            final(self).wf(),
            forall|b: int|
                0 <= b < HISTORY_SIZE ==> #[trigger] final(self)@[b]@ == old(self)@[b]@.map_values(
                    |it: Item| clamp_item(it, idx, delta),
                ),
    {
        let ghost pre = self.buckets@;
        let mut b: usize = 0;
        while b < HISTORY_SIZE
            invariant
                self.buckets@.len() == HISTORY_SIZE,
                pre == old(self).buckets@,
                b <= HISTORY_SIZE,
                forall|j: int|
                    0 <= j < b ==> #[trigger] self.buckets@[j]@ == pre[j]@.map_values(
                        |it: Item| clamp_item(it, idx, delta),
                    ),
                forall|j: int| b <= j < HISTORY_SIZE ==> #[trigger] self.buckets@[j] == pre[j],
                forall|j: int, i: int|
                    0 <= j < HISTORY_SIZE && 0 <= i < 4 ==> !is_wrapping_spec(
                        idx,
                        #[trigger] old(self)@[j]@[i].idx,
                    ),
            decreases HISTORY_SIZE - b,
        {
            let mut h = self.buckets[b];
            assert(h == pre[b as int]);
            assert(h == old(self)@[b as int]);
            assert(forall|i: int| 0 <= i < 4 ==> !is_wrapping_spec(idx, #[trigger] h@[i].idx));
            h.clamp_rebias(idx, delta);
            self.buckets.set(b, h);
            b += 1;
        }
    }

    /// Sets every item to `(0, Q0 - Q1)`.
    pub fn reset(&mut self)
        requires
            old(self).wf(),
        ensures
            final(self).wf(),
            forall|i: int|
                0 <= i < HISTORY_SIZE ==> #[trigger] final(self)@[i] == History::new_spec(
                    Item { val: 0, idx: Idx { val: wrap32(Q0 - Q1) } },
                ),
    {
        self.reset_with_idx(Idx::new(Q0))
    }

    /// Sets every item to `(0, idx - Q1)`.
    pub fn reset_with_idx(&mut self, idx: Idx)
        requires
            old(self).wf(),
        ensures
            final(self).wf(),
            forall|i: int|
                0 <= i < HISTORY_SIZE ==> #[trigger] final(self)@[i] == History::new_spec(
                    Item { val: 0, idx: Idx { val: wrap32(idx.val - Q1) } },
                ),
    {
        let h = History::new(Item::new(0, idx.wrapping_sub(Q1)));
        let mut b: usize = 0;
        while b < HISTORY_SIZE
            invariant
                self.wf(),
                b <= HISTORY_SIZE,
                h == History::new_spec(Item { val: 0, idx: Idx { val: wrap32(idx.val - Q1) } }),
                forall|j: int| 0 <= j < b ==> #[trigger] self.buckets@[j] == h,
            decreases HISTORY_SIZE - b,
        {
            self.buckets.set(b, h);
            b += 1;
        }
    }
}

} // verus!
