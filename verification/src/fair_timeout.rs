//! Decides when an unlock should be fair.
use crate::time::{clock_reads, Clock, Moment};
use vstd::prelude::*;

verus! {

/// The longest time, in nanoseconds, until a fair unlock is forced again.
pub const FAIR_PERIOD: u32 = 1_000_000;

/// The point in time from which an unlock is fair, and the generator that
/// picks the next one.
#[derive(Copy, Clone, Eq, PartialEq, Debug, Structural)]
pub struct FairTimeout {
    /// Next time at which point be_fair should be set
    pub timeout: Moment,
    /// the PRNG state for calculating the next timeout
    pub seed: u32,
}

/// One step of the 13-17-5 xorshift generator.
pub open spec fn xorshift(seed: u32) -> u32 {
    let a = seed ^ (seed << 13);
    let b = a ^ (a >> 17);
    b ^ (b << 5)
}

/// The timeout after it has been asked at `now`: once `now` lies beyond it, it
/// moves to a pseudorandom point less than `FAIR_PERIOD` after `now`.
pub open spec fn after_asking(fair: FairTimeout, now: Moment) -> FairTimeout {
    if fair.due(now) {
        FairTimeout {
            timeout: Moment { nanos: (now.nanos + xorshift(fair.seed) % FAIR_PERIOD) as u128 },
            seed: xorshift(fair.seed),
        }
    } else {
        fair
    }
}

impl FairTimeout {
    /// Whether the timeout lies before `now`.
    pub open spec fn due(self, now: Moment) -> bool {
        now.nanos > self.timeout.nanos
    }

    pub fn new(timeout: Moment, seed: u32) -> (fair: FairTimeout)
        ensures
            fair == (FairTimeout { timeout, seed }),
    {
        FairTimeout { timeout, seed }
    }

    /// Determine whether we should force a fair unlock, and update the timeout
    pub fn should_timeout(&mut self, clock: &Clock) -> (due: bool)
        ensures
            exists|now: Moment|
                now.readable() && clock_reads(
                    clock.starting_instant(),
                    clock.latest_reading(),
                    now,
                ) && #[trigger] old(self).due(now) == due && *final(self) == after_asking(
                    *old(self),
                    now,
                ),
    {
        let now = clock.reading();
        self.should_timeout_at(now)
    }

    /// As `should_timeout`, for a clock that reads `now`.
    pub fn should_timeout_at(&mut self, now: Moment) -> (due: bool)
        requires
            now.nanos + FAIR_PERIOD <= u128::MAX,
        ensures
            due == old(self).due(now),
            *final(self) == after_asking(*old(self), now),
    {
        if now.nanos > self.timeout.nanos {
            // Time between 0 and 1ms.
            let nanos = self.gen_u32() % FAIR_PERIOD;
            self.timeout = Moment { nanos: now.nanos + nanos as u128 };
            true
        } else {
            false
        }
    }

    /// Pseudorandom number generator from the "Xorshift RNGs" paper by George Marsaglia.
    pub fn gen_u32(&mut self) -> (random: u32)
        ensures
            random == xorshift(old(self).seed),
            *final(self) == (FairTimeout { seed: random, ..*old(self) }),
    {
        self.seed = self.seed ^ (self.seed << 13);
        self.seed = self.seed ^ (self.seed >> 17);
        self.seed = self.seed ^ (self.seed << 5);
        self.seed
    }
}

/// The generator never reaches zero, where it would stay for ever, from a seed
/// that is not zero.
pub proof fn law_seed_stays_nonzero(seed: u32)
    requires
        seed != 0,
    ensures
        xorshift(seed) != 0,
{
    assert(seed != 0 ==> {
        let a = seed ^ (seed << 13);
        let b = a ^ (a >> 17);
        b ^ (b << 5) != 0
    }) by (bit_vector);
}

/// The generator loses nothing: different seeds lead to different numbers.
pub proof fn law_generator_is_injective(seed: u32, other: u32)
    requires
        xorshift(seed) == xorshift(other),
    ensures
        seed == other,
{
    assert((({
        let a = seed ^ (seed << 13);
        let b = a ^ (a >> 17);
        b ^ (b << 5)
    }) == ({
        let a = other ^ (other << 13);
        let b = a ^ (a >> 17);
        b ^ (b << 5)
    })) ==> seed == other) by (bit_vector);
}

/// After a fair unlock at `now` the next one becomes due at `now` or later,
/// and less than `FAIR_PERIOD` nanoseconds later; until it is due nothing changes.
pub proof fn law_next_fair_unlock(fair: FairTimeout, now: Moment)
    requires
        now.nanos + FAIR_PERIOD <= u128::MAX,
    ensures
        fair.due(now) ==> now.nanos <= after_asking(fair, now).timeout.nanos < now.nanos
            + FAIR_PERIOD,
        fair.due(now) ==> !after_asking(fair, now).due(now),
        !fair.due(now) ==> after_asking(fair, now) == fair,
{
}

} // verus!
