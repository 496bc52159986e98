//! Points in time, as nanoseconds since a clock was started.
use instant::Instant;
use vstd::prelude::*;

verus! {

/// Nanoseconds per second.
pub const NANOS_PER_SEC: u32 = 1_000_000_000;

/// A point in time: so many nanoseconds after the clock that read it was started.
#[derive(Copy, Clone, Eq, PartialEq, Debug, Structural)]
pub struct Moment {
    pub nanos: u128,
}

impl Moment {
    /// Whether a clock can read this moment: its whole seconds fit 64 bits.
    pub open spec fn readable(self) -> bool {
        self.nanos < 0x1_0000_0000_0000_0000u128 * NANOS_PER_SEC
    }

    /// The moment so many seconds and nanoseconds after a clock was started.
    pub fn after_start(secs: u64, nanos: u32) -> (moment: Moment)
        requires
            nanos < NANOS_PER_SEC,
        ensures
            moment.nanos == secs * 1_000_000_000 + nanos,
            moment.readable(),
    {
        assert(secs * NANOS_PER_SEC <= 0xffff_ffff_ffff_ffff * NANOS_PER_SEC) by (nonlinear_arith)
            requires
                secs <= 0xffff_ffff_ffff_ffffu64,
        ;
        Moment { nanos: secs as u128 * NANOS_PER_SEC as u128 + nanos as u128 }
    }
}

/// The outside type `instant::Instant`, an opaque reading of a monotonic clock.
#[verifier::external_type_specification]
#[verifier::external_body]
pub struct ExInstant(Instant);

/// Calls `instant::Instant::now`. Nothing is claimed of the reading: it
/// depends on the time of the call.
#[verifier::external_body]
fn instant_now() -> Instant {
    Instant::now()
}

/// Calls `instant::Instant::elapsed` and hands the duration out as whole
/// seconds and the nanoseconds beyond them. All that is claimed is what holds
/// of every duration: the nanoseconds are less than a second. How long it is
/// depends on the time of the call.
#[verifier::external_body]
fn elapsed_since(started: &Instant) -> (duration: (u64, u32))
    ensures
        duration.1 < NANOS_PER_SEC,
{
    let elapsed = started.elapsed();
    (elapsed.as_secs(), elapsed.subsec_nanos())
}

/// Whether an instant was read from the outside clock.
pub closed spec fn observed(instant: Instant) -> bool {
    call_ensures(instant_now, (), instant)
}

/// Whether the time that has elapsed since an instant was measured to be so
/// many seconds and nanoseconds.
pub closed spec fn measured(started: Instant, secs: u64, nanos: u32) -> bool {
    call_ensures(elapsed_since, (&started,), (secs, nanos))
}

/// Whether a clock reads `now`, which was started at the given instant and has
/// last read `latest`: that is the whole time that has elapsed. The clock is
/// monotonic, so this is not before `latest`; a measurement that is takes
/// nothing back.
pub open spec fn clock_reads(started: Instant, latest: Moment, now: Moment) -> bool {
    exists|secs: u64, nanos: u32|
        {
            let elapsed = secs * NANOS_PER_SEC + nanos;
            #[trigger] measured(started, secs, nanos) && nanos < NANOS_PER_SEC && now.nanos
                == if elapsed < latest.nanos {
                latest.nanos as int
            } else {
                elapsed
            }
        }
}

/// A running clock.
pub struct Clock {
    started: Instant,
    latest: Moment,
}

impl Clock {
    /// The instant at which the clock was started.
    pub closed spec fn starting_instant(self) -> Instant {
        self.started
    }

    /// The latest moment that has been read from the clock.
    pub closed spec fn latest_reading(self) -> Moment {
        self.latest
    }

    /// Only what a clock can read is noted.
    #[verifier::type_invariant]
    closed spec fn wf(self) -> bool {
        self.latest.readable()
    }

    /// A clock that was started at the given instant.
    pub(crate) fn started_at(started: Instant) -> (clock: Clock)
        ensures
            clock.starting_instant() == started,
            clock.latest_reading() == (Moment { nanos: 0 }),
    {
        Clock { started, latest: Moment { nanos: 0 } }
    }

    /// Starts a clock. The instant is that of the call: which one that is
    /// depends on the time.
    pub fn start() -> (clock: Clock)
        ensures
            observed(clock.starting_instant()),
            clock.latest_reading() == (Moment { nanos: 0 }),
    {
        Clock::started_at(instant_now())
    }

    /// Measures the time since the clock was started: the moment is the whole
    /// duration, in nanoseconds.
    pub fn now(&self) -> (now: Moment)
        ensures
            now.readable(),
            exists|secs: u64, nanos: u32| #[trigger]
                measured(self.starting_instant(), secs, nanos) && nanos < NANOS_PER_SEC
                    && now.nanos == secs * 1_000_000_000 + nanos,
    {
        let (secs, nanos): (u64, u32) = elapsed_since(&self.started);
        assert(measured(self.starting_instant(), secs, nanos));
        Moment::after_start(secs, nanos)
    }

    /// What the clock reads, which is never before what it has read.
    pub(crate) fn reading(&self) -> (now: Moment)
        ensures
            now.readable(),
            clock_reads(self.starting_instant(), self.latest_reading(), now),
    {
        proof {
            use_type_invariant(self);
        }
        let now = self.now();
        if now.nanos < self.latest.nanos {
            self.latest
        } else {
            now
        }
    }

    /// Notes what has been read from the clock.
    pub(crate) fn note(&mut self, now: Moment)
        requires
            now.readable(),
        ensures
            final(self).starting_instant() == old(self).starting_instant(),
            final(self).latest_reading() == now,
    {
        self.latest = now;
    }
}

/// What is taken for an instant that was read is one that was handed out.
proof fn law_instants_are_read(instant: Instant)
    requires
        observed(instant),
    ensures
        call_ensures(instant_now, (), instant),
{
}

/// What is taken for a measurement is one: the seconds and nanoseconds are
/// those that were handed out for this instant.
proof fn law_measurements_are_taken(started: Instant, secs: u64, nanos: u32)
    requires
        measured(started, secs, nanos),
    ensures
        call_ensures(elapsed_since, (&started,), (secs, nanos)),
{
}

/// What a clock reads is the whole time that was measured since it was
/// started, down to the nanosecond, unless it has read a later moment before:
/// later readings are never before earlier ones.
pub proof fn law_clock_reads_whole_duration(
    started: Instant,
    latest: Moment,
    now: Moment,
) -> (duration: (u64, u32))
    requires
        clock_reads(started, latest, now),
    ensures
        measured(started, duration.0, duration.1),
        duration.1 < 1_000_000_000,
        now.nanos >= latest.nanos,
        now.nanos >= duration.0 * 1_000_000_000 + duration.1,
        now.nanos == latest.nanos || now.nanos == duration.0 * 1_000_000_000 + duration.1,
{
    let (secs, nanos) = choose|secs: u64, nanos: u32|
        {
            let elapsed = secs * NANOS_PER_SEC + nanos;
            #[trigger] measured(started, secs, nanos) && nanos < NANOS_PER_SEC && now.nanos
                == if elapsed < latest.nanos {
                latest.nanos as int
            } else {
                elapsed
            }
        };
    (secs, nanos)
}

} // verus!
