//! A small deterministic, seedable pseudo-random number generator (a linear
//! congruential step kept below 2^31). Generation and spawning draw from it,
//! so a dungeon is a pure function of its seed; exact replication of any
//! other generator's sequence is not a goal.

use vstd::prelude::*;

verus! {

/// The congruential step: `state * 1103515245 + 12345 mod 2^31`. Kept
/// opaque so callers chain draws symbolically instead of unfolding the
/// arithmetic.
#[verifier::opaque]
pub open spec fn spec_next(s: u32) -> u32 {
    (((s as int) * 1103515245 + 12345) % 0x8000_0000) as u32
}

/// What a bounded draw yields from state `s`.
pub open spec fn spec_range(s: u32, lo: int, hi: int) -> int {
    lo + (spec_next(s) as int) % (hi - lo)
}

/// The state after `n` draws.
pub open spec fn spec_state_after(s: u32, n: nat) -> u32
    decreases n,
{
    if n == 0 {
        s
    } else {
        spec_state_after(spec_next(s), (n - 1) as nat)
    }
}

/// The sum of `n` dice of `die` sides rolled from state `s`.
pub open spec fn spec_roll(s: u32, n: nat, die: int) -> int
    decreases n,
{
    if n == 0 {
        0
    } else {
        spec_range(s, 1, die + 1) + spec_roll(spec_next(s), (n - 1) as nat, die)
    }
}

pub struct Rng {
    pub state: u32,
}

impl Rng {
    pub open spec fn wf(self) -> bool {
        self.state < 0x8000_0000
    }

    pub fn new(seed: u32) -> (r: Rng)
        ensures
            r.wf(),
            r.state == seed % 0x8000_0000,
    {
        Rng { state: seed % 0x8000_0000 }
    }

    /// Advance the state once and hand it out.
    pub fn next(&mut self) -> (r: u32)
        ensures
            final(self).wf(),
            final(self).state == spec_next(old(self).state),
            r == final(self).state,
            r < 0x8000_0000,
    {
        proof {
            reveal(crate::rng::spec_next);
        }
        let s64: u64 = (self.state as u64) * 1103515245 + 12345;
        let ns: u32 = (s64 % 0x8000_0000) as u32;
        self.state = ns;
        ns
    }

    /// A draw from `lo` (inclusive) to `hi` (exclusive), pinned to the
    /// congruential sequence.
    pub fn range(&mut self, lo: i32, hi: i32) -> (r: i32)
        requires
            lo < hi,
            -32768 <= lo,
            hi <= 32767,
        ensures
            final(self).wf(),
            final(self).state == spec_next(old(self).state),
            r == spec_range(old(self).state, lo as int, hi as int),
            lo <= r < hi,
    {
        let draw = self.next();
        let span: u32 = (hi - lo) as u32;
        lo + (draw % span) as i32
    }

    /// Roll `n` dice of `die` sides and sum them, as `spec_roll` says.
    #[verifier::rlimit(40)]
    pub fn roll_dice(&mut self, n: i32, die: i32) -> (r: i32)
        requires
            old(self).wf(),
            1 <= n <= 100,
            1 <= die <= 100,
        ensures
            final(self).wf(),
            final(self).state == spec_state_after(old(self).state, n as nat),
            r == spec_roll(old(self).state, n as nat, die as int),
            n <= r,
            n == 1 ==> r <= die,
    {
        let ghost s0 = self.state;
        let mut acc: i32 = 0;
        let mut i: i32 = 0;
        while i < n
            invariant
                0 <= i <= n,
                1 <= n <= 100,
                1 <= die <= 100,
                self.wf(),
                i <= acc <= i * 101,
                self.state == spec_state_after(s0, i as nat),
                spec_roll(s0, n as nat, die as int) == acc + spec_roll(
                    self.state,
                    (n - i) as nat,
                    die as int,
                ),
            decreases n - i,
        {
            let ghost st = self.state;
            let d = self.range(1, die + 1);
            proof {
                lemma_state_after_snoc(s0, i as nat);
                lemma_roll_unfold(st, (n - i) as nat, die as int);
                assert(1 <= d <= 101);
                assert(0 <= acc <= i * 101);
                assert(i * 101 <= 99 * 101);
                assert(acc + d <= 100 * 101);
            }
            acc = acc + d;
            i = i + 1;
        }
        proof {
            if n == 1 {
                lemma_roll_unfold(s0, 1, die as int);
                lemma_range_bounds(s0, 1, die + 1);
            }
        }
        acc
    }
}

/// A bounded draw stays in its half-open interval.
pub proof fn lemma_range_bounds(s: u32, lo: int, hi: int)
    requires
        lo < hi,
    ensures
        lo <= spec_range(s, lo, hi) < hi,
{
}

/// One unfolding of `spec_roll`.
pub proof fn lemma_roll_unfold(s: u32, n: nat, die: int)
    requires
        n > 0,
    ensures
        spec_roll(s, n, die) == spec_range(s, 1, die + 1) + spec_roll(
            spec_next(s),
            (n - 1) as nat,
            die,
        ),
{
}

/// Appending one step to `n` steps is the same as stepping after `n` steps.
pub proof fn lemma_state_after_snoc(s: u32, n: nat)
    ensures
        spec_state_after(s, n + 1) == spec_next(spec_state_after(s, n)),
    decreases n,
{
    if n > 0 {
        lemma_state_after_snoc(spec_next(s), (n - 1) as nat);
    } else {
        assert(spec_state_after(s, 1) == spec_state_after(spec_next(s), 0));
        assert(spec_state_after(s, 0) == s);
    }
}

} // verus!
