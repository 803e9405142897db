//! A deterministic linear congruential generator for test data.

use vstd::prelude::*;

use crate::idx::wrap32;

verus! {

pub const RNG_MUL: u32 = 1_103_515_245;

pub const RNG_ADD: u32 = 12_345;

/// The state that follows `s`.
pub open spec fn next_state(s: u32) -> u32 {
    wrap32(wrap32(s * RNG_MUL) + RNG_ADD)
}

/// The state after `n` steps from `s`.
pub open spec fn state_after(s: u32, n: nat) -> u32
    decreases n,
{
    if n == 0 {
        s
    } else {
        state_after(next_state(s), (n - 1) as nat)
    }
}

/// The bytes that `gen_vec` makes of `len` bytes from state `s`: each state in turn as four
/// bytes, little-endian, and the low bytes of the next state for the last `len % 4`.
pub open spec fn rng_bytes(s: u32, len: nat) -> Seq<u8>
    decreases len,
{
    if len >= 4 {
        crate::block::le32(s) + rng_bytes(next_state(s), (len - 4) as nat)
    } else {
        crate::block::le32(s).take(len as int)
    }
}

#[derive(Clone, Copy, Debug, PartialEq, Eq, Structural)]
pub struct Rng {
    pub state: u32,
}

impl Rng {
    pub fn new(seed: u32) -> (r: Rng)
        ensures
            r.state == seed,
    {
        Rng { state: seed }
    }

    /// Steps the generator and returns the new state.
    pub fn gen(&mut self) -> (r: u32)
        ensures
            r == next_state(old(self).state),
            final(self).state == r,
    {
        self.state = self.state.wrapping_mul(RNG_MUL).wrapping_add(RNG_ADD);
        self.state
    }

    /// `len` bytes of output.
    pub fn gen_vec(&mut self, len: usize) -> (r: Option<Vec<u8>>)
        ensures
            r matches Some(v) && v@ == rng_bytes(old(self).state, len as nat),
            final(self).state == state_after(old(self).state, (len / 4) as nat),
    {
        let mut v: Vec<u8> = Vec::new();
        let mut i: usize = 0;
        while i < len / 4
            invariant
                i <= len / 4,
                v@ + rng_bytes(self.state, (len - 4 * i) as nat) == rng_bytes(old(self).state, len as nat),
                self.state == state_after(old(self).state, i as nat),
            decreases len / 4 - i,
        {
            let ghost s = self.state;
            crate::block::push_u32(&mut v, self.state);
            self.gen();
            proof {
                lemma_state_after_step(old(self).state, i as nat);
                assert(rng_bytes(s, (len - 4 * i) as nat) == crate::block::le32(s) + rng_bytes(next_state(s), (len - 4 * (i + 1)) as nat));
                assert(v@ + rng_bytes(self.state, (len - 4 * (i + 1)) as nat) =~= rng_bytes(old(self).state, len as nat));
            }
            i += 1;
        }
        let mut tail: Vec<u8> = Vec::new();
        crate::block::push_u32(&mut tail, self.state);
        let rest = len % 4;
        let mut k: usize = 0;
        while k < rest
            invariant
                rest == len % 4,
                k <= rest,
                len - 4 * i == rest,
                tail@ == crate::block::le32(self.state),
                v@ + rng_bytes(self.state, rest as nat).skip(k as int) == rng_bytes(old(self).state, len as nat),
            decreases rest - k,
        {
            v.push(tail[k]);
            proof {
                assert(v@ + rng_bytes(self.state, rest as nat).skip(k + 1) =~= rng_bytes(old(self).state, len as nat));
            }
            k += 1;
        }
        proof {
            assert(v@ =~= rng_bytes(old(self).state, len as nat));
        }
        Some(v)
    }

    /// Whether `bytes` are the output that `gen_vec` gives from the current state; steps the
    /// generator past the whole words of `bytes`.
    pub fn check_bytes(&mut self, bytes: &[u8]) -> (r: bool)
        ensures
            r == (bytes@ == rng_bytes(old(self).state, bytes@.len())),
    {
        let ghost s0 = self.state;
        let expected = self.gen_vec(bytes.len());
        match expected {
            Some(v) => {
                proof {
                    lemma_rng_bytes_len(s0, bytes@.len());
                }
                let mut i: usize = 0;
                while i < bytes.len()
                    invariant
                        s0 == old(self).state,
                        v@ == rng_bytes(s0, bytes@.len()),
                        v@.len() == bytes@.len(),
                        i <= bytes@.len(),
                        forall|j: int| 0 <= j < i ==> bytes@[j] == v@[j],
                    decreases bytes@.len() - i,
                {
                    if bytes[i] != v[i] {
                        proof {
                            assert(bytes@[i as int] != v@[i as int]);
                            assert(s0 == old(self).state);
                            assert(bytes@ != rng_bytes(old(self).state, bytes@.len()));
                        }
                        return false;
                    }
                    i += 1;
                }
                proof {
                    assert(bytes@ =~= v@);
                }
                true
            },
            None => false,
        }
    }
}

proof fn lemma_rng_bytes_len(s: u32, len: nat)
    ensures
        rng_bytes(s, len).len() == len,
    decreases len,
{
    if len >= 4 {
        lemma_rng_bytes_len(next_state(s), (len - 4) as nat);
    }
}

proof fn lemma_state_after_step(s: u32, n: nat)
    ensures
        state_after(s, n + 1) == next_state(state_after(s, n)),
    decreases n,
{
    assert(state_after(s, n + 1) == state_after(next_state(s), n));
    if n > 0 {
        lemma_state_after_step(next_state(s), (n - 1) as nat);
    }
}

} // verus!
