//! The source of randomness: a stream of 64-bit words that the caller
//! supplies and that key generation and encryption consume in order.
//!
//! The engine draws nothing by itself, so the same stream always gives the
//! same keys and ciphertexts.

use crate::error::EngineError;
use vstd::prelude::*;

verus! {

/// The step of the seeded generator's counter.
pub const SEED_STEP: u64 = 0x9E37_79B9_7F4A_7C15;

/// The counter of the seeded generator after `i` steps.
pub open spec fn seed_state(seed: u64, i: nat) -> u64
    decreases i,
{
    if i == 0 {
        seed
    } else {
        seed_state(seed, (i - 1) as nat).wrapping_add(SEED_STEP)
    }
}

/// The output of the seeded generator for the counter value `z`.
pub open spec fn mixed(z: u64) -> u64 {
    let a: u64 = (z ^ (z >> 30)).wrapping_mul(0xBF58_476D_1CE4_E5B9);
    let b: u64 = (a ^ (a >> 27)).wrapping_mul(0x94D0_49BB_1331_11EB);
    b ^ (b >> 31)
}

/// The first `count` words that the seed `seed` expands to.
pub open spec fn seed_stream(seed: u64, count: nat) -> Seq<u64> {
    Seq::new(count, |i: int| mixed(seed_state(seed, (i + 1) as nat)))
}

fn mix(z: u64) -> (r: u64)
    ensures
        r == mixed(z),
{
    let a: u64 = (z ^ (z >> 30)).wrapping_mul(0xBF58_476D_1CE4_E5B9);
    let b: u64 = (a ^ (a >> 27)).wrapping_mul(0x94D0_49BB_1331_11EB);
    b ^ (b >> 31)
}

/// A stream of random words, consumed from the front.
#[derive(Debug)]
pub struct RandomSource {
    words: Vec<u64>,
    cursor: usize,
}

impl View for RandomSource {
    type V = Seq<u64>;

    /// The words that are still to come.
    closed spec fn view(&self) -> Seq<u64> {
        self.words@.skip(self.cursor as int)
    }
}

impl RandomSource {
    /// The invariant of the type.
    pub closed spec fn wf(&self) -> bool {
        self.cursor <= self.words.len()
    }

    /// The stream of the given words, for instance from the system's
    /// generator.
    pub fn from_words(words: Vec<u64>) -> (rng: RandomSource)
        ensures
            rng.wf(),
            rng@ == words@,
    {
        let rng = RandomSource { words, cursor: 0 };
        assert(rng@ =~= words@);
        rng
    }

    /// The stream of `count` words that `seed` expands to. It is meant for
    /// runs that must be repeatable, not for secrets.
    pub fn from_seed(seed: u64, count: usize) -> (rng: RandomSource)
        ensures
            rng.wf(),
            rng@ == seed_stream(seed, count as nat),
    {
        let mut words: Vec<u64> = Vec::new();
        let mut state: u64 = seed;
        let mut i: usize = 0;
        while i < count
            invariant
                i <= count,
                words.len() == i,
                state == seed_state(seed, i as nat),
                forall|j: int|
                    0 <= j < i ==> #[trigger] words[j] == mixed(seed_state(seed, (j + 1) as nat)),
            decreases count - i,
        {
            state = state.wrapping_add(SEED_STEP);
            words.push(mix(state));
            i += 1;
        }
        let rng = RandomSource { words, cursor: 0 };
        assert(rng@ =~= seed_stream(seed, count as nat));
        rng
    }

    /// How many words are left.
    pub fn remaining(&self) -> (n: usize)
        requires
            self.wf(),
        ensures
            n == self@.len(),
    {
        self.words.len() - self.cursor
    }

    /// Takes the next `n` words, or none at all if fewer are left.
    pub fn take(&mut self, n: usize) -> (r: Result<Vec<u64>, EngineError>)
        requires
            old(self).wf(),
        ensures
            final(self).wf(),
            match r {
                Ok(words) => old(self)@.len() >= n && words@ == old(self)@.take(n as int)
                    && final(self)@ == old(self)@.skip(n as int),
                Err(e) => e == EngineError::InsufficientEntropy && old(self)@.len() < n
                    && final(self)@ == old(self)@,
            },
    {
        if self.words.len() - self.cursor < n {
            return Err(EngineError::InsufficientEntropy);
        }
        let start: usize = self.cursor;
        let mut out: Vec<u64> = Vec::new();
        let mut i: usize = 0;
        while i < n
            invariant
                i <= n,
                start + n <= self.words.len(),
                out.len() == i,
                forall|j: int| 0 <= j < i ==> #[trigger] out[j] == self.words[start + j],
            decreases n - i,
        {
            out.push(self.words[start + i]);
            i += 1;
        }
        self.cursor = start + n;
        assert(out@ =~= old(self)@.take(n as int));
        assert(self@ =~= old(self)@.skip(n as int));
        Ok(out)
    }
}

} // verus!
