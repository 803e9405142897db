//! A candidate match and the rule that picks between two of them.

use vstd::prelude::*;

use crate::idx::{wrap32, Idx};

verus! {

/// `match_len` bytes at `idx` equal those at `match_idx`.
#[derive(Clone, Copy, Debug, Default, PartialEq, Eq, Structural)]
pub struct Match {
    pub idx: Idx,
    pub match_idx: Idx,
    pub match_len: u32,
}

/// The end of `m`, wrapping.
pub open spec fn match_end(m: Match) -> Idx {
    Idx { val: wrap32(m.idx.val + m.match_len) }
}

/// What `select` emits, and what it keeps pending, for a pending match `p`, an incoming match
/// `m` and a good match length `t`.
pub open spec fn select_spec(p: Match, m: Match, t: u32) -> (Option<Match>, Match) {
    if m.match_len == 0 {
        (None, p)
    } else if m.match_len >= t {
        (Some(m), Match { match_len: 0, ..p })
    } else if p.match_len == 0 {
        (None, m)
    } else if match_end(p).le_spec(m.idx) {
        (Some(p), m)
    } else if m.match_len > p.match_len {
        (Some(m), Match { match_len: 0, ..p })
    } else {
        (Some(p), Match { match_len: 0, ..p })
    }
}

impl Match {
    pub fn new(idx: Idx, match_idx: Idx, match_len: u32) -> (r: Match)
        ensures
            r == (Match { idx, match_idx, match_len }),
    {
        Match { idx, match_idx, match_len }
    }

    /// Weighs the incoming match against the pending one (`self`): returns the match to emit,
    /// if any, and leaves the match that stays pending in `self`. An incoming match of length
    /// `T` or more is emitted at once; two overlapping matches give the longer one.
    pub fn select<const T: u32>(&mut self, incoming: Match) -> (r: Option<Match>)
        ensures
            (r, *final(self)) == select_spec(*old(self), incoming, T),
    {
        let select;
        if incoming.match_len == 0 {
            select = None;
        } else if incoming.match_len >= T {
            select = Some(incoming);
            self.match_len = 0;
        } else if self.match_len == 0 {
            select = None;
            *self = incoming;
        } else if self.idx.wrapping_add(self.match_len).le(incoming.idx) {
            select = Some(*self);
            *self = incoming;
        } else if incoming.match_len > self.match_len {
            select = Some(incoming);
            self.match_len = 0;
        } else {
            select = Some(*self);
            self.match_len = 0;
        }
        select
    }
}

} // verus!
