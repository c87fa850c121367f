//! The interpolation rule that every moving entity follows. Travel lasts one
//! second and is eased by a square root; an entity whose eased progress has
//! reached 0.99 has settled.
//!
//! Times are whole microseconds and progress is counted in millionths, so that
//! the rule is exact.
use crate::components::TravelTime;
use vstd::prelude::*;

verus! {

/// The length of a travel in microseconds, and the progress of a finished
/// travel in millionths.
pub const FULL: u64 = 1000000;

/// The progress, in millionths, from which an entity counts as settled.
pub const SETTLED: u64 = 990000;

/// The travel time, in microseconds, from which an entity counts as settled.
pub const SETTLING_TIME: u64 = 980100;

/// The time that has passed since `start`; none if `start` lies ahead of `now`.
pub open spec fn elapsed(start: u64, now: u64) -> nat {
    if now >= start {
        (now - start) as nat
    } else {
        0
    }
}

/// The linear progress of a travel, in millionths: the elapsed time in
/// microseconds, held at one second.
pub open spec fn linear(elapsed: nat) -> nat {
    if elapsed < FULL {
        elapsed
    } else {
        FULL as nat
    }
}

/// Whether `progress` is the eased progress after `elapsed` microseconds: the
/// square root of the linear progress, in millionths and rounded down.
pub open spec fn eases(elapsed: nat, progress: nat) -> bool {
    progress * progress <= linear(elapsed) * FULL < (progress + 1) * (progress + 1)
}

/// Where a travel stands at one tick.
#[derive(Debug, Eq, PartialEq, Clone, Copy, Structural)]
pub struct Motion {
    /// When the travel started.
    pub start_time: u64,
    /// The eased progress in millionths, from 0 to `FULL`.
    pub progress: u64,
    /// Whether the travel has come to rest.
    pub settled: bool,
}

/// There is exactly one eased progress for each elapsed time.
pub proof fn eased_progress_is_unique(elapsed: nat, p: nat, q: nat)
    requires
        eases(elapsed, p),
        eases(elapsed, q),
    ensures
        p == q,
{
    let x = linear(elapsed) * FULL;
    if p < q {
        assert((p + 1) * (p + 1) <= q * q) by (nonlinear_arith)
            requires
                p + 1 <= q,
        ;
    }
    if q < p {
        assert((q + 1) * (q + 1) <= p * p) by (nonlinear_arith)
            requires
                q + 1 <= p,
        ;
    }
}

/// Progress never falls as time passes, and never exceeds the full travel.
pub proof fn eased_progress_is_monotonic(earlier: nat, later: nat, p: nat, q: nat)
    requires
        earlier <= later,
        eases(earlier, p),
        eases(later, q),
    ensures
        p <= q,
        q <= FULL,
{
    let x = linear(earlier) * FULL;
    let y = linear(later) * FULL;
    assert(x <= y) by (nonlinear_arith)
        requires
            linear(earlier) <= linear(later),
            x == linear(earlier) * FULL,
            y == linear(later) * FULL,
    ;
    if q < p {
        assert((q + 1) * (q + 1) <= p * p) by (nonlinear_arith)
            requires
                q + 1 <= p,
        ;
    }
    if q > FULL {
        assert(q * q >= (FULL + 1) * (FULL + 1)) by (nonlinear_arith)
            requires
                q >= FULL + 1,
        ;
        assert(y <= FULL * FULL) by (nonlinear_arith)
            requires
                linear(later) <= FULL,
                y == linear(later) * FULL,
        ;
    }
}

/// An entity has settled exactly when it has travelled for `SETTLING_TIME`.
pub proof fn settles_at_settling_time(elapsed: nat, p: nat)
    requires
        eases(elapsed, p),
    ensures
        p >= SETTLED <==> elapsed >= SETTLING_TIME,
        elapsed >= FULL ==> p == FULL,
        elapsed == 0 ==> p == 0,
{
    let x = linear(elapsed) * FULL;
    if p >= SETTLED {
        assert(p * p >= SETTLED * SETTLED) by (nonlinear_arith)
            requires
                p >= SETTLED,
        ;
        assert(linear(elapsed) >= SETTLING_TIME) by (nonlinear_arith)
            requires
                linear(elapsed) * FULL >= SETTLED * SETTLED,
                SETTLED * SETTLED == SETTLING_TIME * FULL,
        ;
    }
    if elapsed >= SETTLING_TIME {
        assert(x >= SETTLING_TIME * FULL) by (nonlinear_arith)
            requires
                linear(elapsed) >= SETTLING_TIME,
                x == linear(elapsed) * FULL,
        ;
        if p < SETTLED {
            assert((p + 1) * (p + 1) <= SETTLED * SETTLED) by (nonlinear_arith)
                requires
                    p + 1 <= SETTLED,
            ;
        }
    }
    if elapsed >= FULL {
        assert(eases(elapsed, FULL as nat)) by (nonlinear_arith)
            requires
                linear(elapsed) == FULL,
        ;
        eased_progress_is_unique(elapsed, p, FULL as nat);
    }
    if elapsed == 0 {
        assert(eases(elapsed, 0)) by (nonlinear_arith)
            requires
                linear(elapsed) == 0,
        ;
        eased_progress_is_unique(elapsed, p, 0);
    }
}

/// With ticks of a fixed positive length, an entity that starts to travel at
/// `start` has settled at the first tick that lies `SETTLING_TIME` or more after
/// it: after `ticks` ticks where `ticks * tick >= SETTLING_TIME`, and so within
/// `SETTLING_TIME` ticks at the latest.
pub proof fn settles_within_bounded_ticks(start: u64, tick: u64, ticks: nat, p: nat)
    requires
        tick > 0,
        ticks * tick >= SETTLING_TIME,
        start + ticks * tick <= u64::MAX,
        eases(elapsed(start, (start + ticks * tick) as u64), p),
    ensures
        p >= SETTLED,
{
    settles_at_settling_time(elapsed(start, (start + ticks * tick) as u64), p);
}

/// The eased progress, in millionths, after `elapsed_micros` microseconds.
pub fn eased_progress(elapsed_micros: u64) -> (progress: u64)
    ensures
        eases(elapsed_micros as nat, progress as nat),
        progress <= FULL,
{
    let linear_progress: u64 = if elapsed_micros < FULL {
        elapsed_micros
    } else {
        FULL
    };
    assert(linear_progress * FULL <= FULL * FULL) by (nonlinear_arith)
        requires
            linear_progress <= FULL,
    ;
    let square: u64 = linear_progress * FULL;
    let mut low: u64 = 0;
    let mut high: u64 = FULL + 1;
    assert(square < high * high) by (nonlinear_arith)
        requires
            square <= FULL * FULL,
            high == FULL + 1,
    ;
    while high - low > 1
        invariant
            low < high <= FULL + 1,
            low * low <= square,
            square < high * high,
        decreases high - low,
    {
        let middle: u64 = low + (high - low) / 2;
        assert(middle * middle <= 1000002000001) by (nonlinear_arith)
            requires
                middle <= 1000001,
        ;
        if middle * middle <= square {
            low = middle;
        } else {
            high = middle;
        }
    }
    assert(high == low + 1);
    low
}

/// One tick of a travel: it starts now unless it is under way, and it has
/// settled once its eased progress has reached `SETTLED`.
pub fn advance(travel_time: Option<TravelTime>, now: u64) -> (motion: Motion)
    ensures
        motion.start_time == (match travel_time {
            Some(travel) => travel.start_time,
            None => now,
        }),
        eases(elapsed(motion.start_time, now), motion.progress as nat),
        motion.settled == (motion.progress >= SETTLED),
        motion.settled == (elapsed(motion.start_time, now) >= SETTLING_TIME),
{
    let start_time = match travel_time {
        Some(travel) => travel.start_time,
        None => now,
    };
    let elapsed_micros: u64 = if now >= start_time {
        now - start_time
    } else {
        0
    };
    let progress = eased_progress(elapsed_micros);
    proof {
        settles_at_settling_time(elapsed_micros as nat, progress as nat);
    }
    Motion { start_time, progress, settled: progress >= SETTLED }
}

} // verus!
