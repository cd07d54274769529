//! Slots and the clock: which slot it is, and when a slot begins.
//!
//! The readings of the wall clock and of the monotonic clock are arguments.

use vstd::prelude::*;

use crate::mantle::Slot;
use crate::time::{Duration, Instant, SystemTime, LATEST_NANOS, MAX_DURATION_NANOS};

verus! {

/// Slack after a slot boundary so a wake-up lands inside the new slot; timers
/// tick at millisecond granularity.
pub const BOUNDARY_GRACE_NANOS: i128 = 10_000_000;

/// Whole slots in a span; none where a slot has no length.
pub open spec fn slots_in(nanos: nat, slot_nanos: nat) -> nat {
    if slot_nanos == 0 {
        0
    } else if nanos / slot_nanos > u64::MAX {
        u64::MAX as nat
    } else {
        nanos / slot_nanos
    }
}

/// The span of a number of slots; the longest one where it outgrows sixty-four
/// bits of nanoseconds.
pub open spec fn slots_span(slots: nat, slot_nanos: nat) -> nat {
    if slots * slot_nanos <= u64::MAX {
        slots * slot_nanos
    } else {
        MAX_DURATION_NANOS as nat
    }
}

/// The time from `earlier` to `later`, nothing when it runs backwards.
pub open spec fn span(earlier: int, later: int) -> nat {
    if later >= earlier {
        (later - earlier) as nat
    } else {
        0
    }
}

/// Whole slots in a span of time, at most what sixty-four bits hold; none
/// where a slot has no length.
pub fn slots_from_duration(elapsed: Duration, slot_duration: Duration) -> (res: u64)
    ensures
        res == slots_in(elapsed.nanos as nat, slot_duration.nanos as nat),
{
    let divisor: u128 = slot_duration.nanos;
    if divisor == 0 {
        return 0;
    }
    let slots: u128 = elapsed.nanos / divisor;
    if slots > u64::MAX as u128 {
        u64::MAX
    } else {
        slots as u64
    }
}

/// The span of `slots` slots; the longest duration where it outgrows
/// sixty-four bits of nanoseconds.
pub fn duration_for_slots(slots: u64, slot_duration: Duration) -> (res: Duration)
    requires
        slots * slot_duration.nanos <= u128::MAX,
    ensures
        res.nanos == slots_span(slots as nat, slot_duration.nanos as nat),
{
    let nanos: u128 = slots as u128 * slot_duration.nanos;
    if nanos <= u64::MAX as u128 {
        Duration { nanos }
    } else {
        Duration { nanos: MAX_DURATION_NANOS }
    }
}

/// The point on the monotonic clock at which the wall clock reads `at`, given
/// one reading of both; the present one for a time gone by.
pub open spec fn instant_at(at: SystemTime, now: Instant, system_now: SystemTime) -> Instant {
    if at.nanos >= system_now.nanos {
        Instant { nanos: (now.nanos + (at.nanos - system_now.nanos)) as i128 }
    } else {
        now
    }
}

/// Carries a wall-clock time over to the monotonic clock.
pub fn system_time_to_instant(at: SystemTime, now: Instant, system_now: SystemTime) -> (res:
    Instant)
    requires
        at.valid(),
        now.valid(),
        system_now.valid(),
        now.nanos + (at.nanos - system_now.nanos) <= LATEST_NANOS,
    ensures
        res == instant_at(at, now, system_now),
{
    if at.nanos >= system_now.nanos {
        Instant { nanos: now.nanos + (at.nanos - system_now.nanos) }
    } else {
        now
    }
}

/// Tells slots from two references: the chain's start on the wall clock, where
/// it is known, and the last slot seen on the monotonic one.
#[derive(Clone, Copy, Debug, PartialEq, Eq, Structural)]
pub struct SlotClock {
    pub slot_duration: Duration,
    pub chain_start_time: Option<SystemTime>,
    pub last_observed_slot: Slot,
    pub last_observed_at: Instant,
}

impl SlotClock {
    /// A clock whose references are points in time.
    pub open spec fn valid(self) -> bool {
        &&& self.chain_start_time matches Some(start) ==> start.valid()
        &&& self.last_observed_at.valid()
    }

    /// The slot by the chain's start; the first where that is not known.
    pub open spec fn slot_by_chain_start(self, system_now: SystemTime) -> nat {
        match self.chain_start_time {
            Some(start) => slots_in(
                span(start.nanos as int, system_now.nanos as int),
                self.slot_duration.nanos as nat,
            ),
            None => 0,
        }
    }

    /// The slot by the last one seen.
    pub open spec fn slot_by_anchor(self, now: Instant) -> nat {
        let slot = self.last_observed_slot + slots_in(
            span(self.last_observed_at.nanos as int, now.nanos as int),
            self.slot_duration.nanos as nat,
        );
        if slot > u64::MAX {
            u64::MAX as nat
        } else {
            slot as nat
        }
    }

    /// The later of the two estimates.
    pub open spec fn slot_at(self, system_now: SystemTime, now: Instant) -> nat {
        let by_start = self.slot_by_chain_start(system_now);
        let by_anchor = self.slot_by_anchor(now);
        if by_start >= by_anchor {
            by_start
        } else {
            by_anchor
        }
    }

    /// When the anchor puts the start of `slot`, if the clock can hold it.
    pub open spec fn anchor_instant(self, slot: Slot) -> Option<int> {
        let ahead = if slot >= self.last_observed_slot {
            (slot - self.last_observed_slot) as nat
        } else {
            0
        };
        let at = self.last_observed_at.nanos + slots_span(ahead, self.slot_duration.nanos as nat);
        if at <= LATEST_NANOS {
            Some(at)
        } else {
            None
        }
    }

    /// When the chain's start puts the start of `slot` on the wall clock, if
    /// it is known and the clock can hold it.
    pub open spec fn chain_start_wall(self, slot: Slot) -> Option<int> {
        match self.chain_start_time {
            Some(start) => {
                let at = start.nanos + slots_span(slot as nat, self.slot_duration.nanos as nat);
                if at <= LATEST_NANOS {
                    Some(at)
                } else {
                    None
                }
            },
            None => None,
        }
    }

    /// When the chain's start puts the start of `slot` on the monotonic clock.
    pub open spec fn chain_start_instant(
        self,
        slot: Slot,
        system_now: SystemTime,
        now: Instant,
    ) -> Option<int> {
        match self.chain_start_wall(slot) {
            Some(wall) => Some(
                instant_at(
                    SystemTime { nanos: wall as i128 },
                    now,
                    system_now,
                ).nanos as int,
            ),
            None => None,
        }
    }

    /// The earlier of the two, or now where that has gone by.
    pub open spec fn start_of(self, slot: Slot, system_now: SystemTime, now: Instant) -> Option<
        int,
    > {
        let earlier = match (
            self.anchor_instant(slot),
            self.chain_start_instant(slot, system_now, now),
        ) {
            (Some(a), Some(b)) => Some(if a <= b { a } else { b }),
            (Some(a), None) => Some(a),
            (None, Some(b)) => Some(b),
            (None, None) => None::<int>,
        };
        match earlier {
            Some(at) => Some(if at >= now.nanos { at } else { now.nanos as int }),
            None => None,
        }
    }

    /// The monotonic clock can hold the wall-clock start of `slot`.
    pub open spec fn can_hold(self, slot: Slot, system_now: SystemTime, now: Instant) -> bool {
        self.chain_start_wall(slot) matches Some(wall) ==> now.nanos + (wall - system_now.nanos)
            <= LATEST_NANOS
    }

    pub fn from_chain_start_time(
        chain_start_time: SystemTime,
        slot_duration: Duration,
        system_now: SystemTime,
        now: Instant,
    ) -> (res: SlotClock)
        requires
            chain_start_time.valid(),
            system_now.valid(),
            now.valid(),
        ensures
            res.valid(),
            res.slot_duration == slot_duration,
            res.chain_start_time == Some(chain_start_time),
            res.last_observed_slot == slots_in(
                span(chain_start_time.nanos as int, system_now.nanos as int),
                slot_duration.nanos as nat,
            ),
            res.last_observed_at == now,
    {
        let slot: u64 = if system_now.nanos >= chain_start_time.nanos {
            let elapsed = Duration { nanos: (system_now.nanos - chain_start_time.nanos) as u128 };
            slots_from_duration(elapsed, slot_duration)
        } else {
            0
        };
        proof {
            lemma_no_slots_in_nothing(slot_duration.nanos as nat);
        }
        SlotClock {
            slot_duration,
            chain_start_time: Some(chain_start_time),
            last_observed_slot: slot,
            last_observed_at: now,
        }
    }

    /// A clock that knows nothing but a slot seen now and how long slots are.
    pub fn from_observed_slot(observed_slot: Slot, slot_duration: Duration, now: Instant) -> (res:
        SlotClock)
        requires
            now.valid(),
        ensures
            res.valid(),
            res == (SlotClock {
                slot_duration,
                chain_start_time: None,
                last_observed_slot: observed_slot,
                last_observed_at: now,
            }),
    {
        SlotClock {
            slot_duration,
            chain_start_time: None,
            last_observed_slot: observed_slot,
            last_observed_at: now,
        }
    }

    /// Moves the anchor to a slot seen now.
    pub fn observe_slot(&mut self, observed_slot: Slot, now: Instant)
        ensures
            *final(self) == (SlotClock {
                last_observed_slot: observed_slot,
                last_observed_at: now,
                ..*old(self)
            }),
    {
        self.last_observed_slot = observed_slot;
        self.last_observed_at = now;
    }

    pub fn current_slot(&self, system_now: SystemTime, now: Instant) -> (res: Slot)
        requires
            self.valid(),
            system_now.valid(),
            now.valid(),
        ensures
            res == self.slot_at(system_now, now),
    {
        proof {
            lemma_no_slots_in_nothing(self.slot_duration.nanos as nat);
        }
        let from_chain_start: u64 = match self.chain_start_time {
            Some(start) => if system_now.nanos >= start.nanos {
                let elapsed = Duration { nanos: (system_now.nanos - start.nanos) as u128 };
                slots_from_duration(elapsed, self.slot_duration)
            } else {
                0
            },
            None => 0,
        };
        let since_anchor: u64 = if now.nanos >= self.last_observed_at.nanos {
            let elapsed = Duration { nanos: (now.nanos - self.last_observed_at.nanos) as u128 };
            slots_from_duration(elapsed, self.slot_duration)
        } else {
            0
        };
        let from_anchor: u64 = self.last_observed_slot.saturating_add(since_anchor);
        if from_chain_start >= from_anchor {
            from_chain_start
        } else {
            from_anchor
        }
    }

    /// Earliest instant at which [`Self::current_slot`] reaches `slot`; now if
    /// it already has, `None` if it lies beyond what the clock can hold.
    pub fn instant_of(&self, slot: Slot, system_now: SystemTime, now: Instant) -> (res: Option<
        Instant,
    >)
        requires
            self.valid(),
            system_now.valid(),
            now.valid(),
            slot * self.slot_duration.nanos <= u128::MAX,
            self.can_hold(slot, system_now, now),
        ensures
            match res {
                Some(at) => self.start_of(slot, system_now, now) == Some(at.nanos as int),
                None => self.start_of(slot, system_now, now) is None,
            },
    {
        let slots_from_anchor: u64 = slot.saturating_sub(self.last_observed_slot);
        proof {
            assert(slots_from_anchor * self.slot_duration.nanos <= slot * self.slot_duration.nanos)
                by (nonlinear_arith)
                requires
                    slots_from_anchor <= slot,
                    0 <= self.slot_duration.nanos,
            ;
        }
        let ahead = duration_for_slots(slots_from_anchor, self.slot_duration);
        let from_anchor: Option<Instant> = self.last_observed_at.checked_add(ahead);

        let since_start = duration_for_slots(slot, self.slot_duration);
        let from_chain_start: Option<Instant> = match self.chain_start_time {
            Some(start) => match start.checked_add(since_start) {
                Some(at) => Some(system_time_to_instant(at, now, system_now)),
                None => None,
            },
            None => None,
        };

        // The current slot is the later of two estimates, so a slot is reached
        // at the earlier of the two instants.
        let earlier: Option<Instant> = match (from_anchor, from_chain_start) {
            (Some(a), Some(b)) => Some(
                if a.nanos <= b.nanos {
                    a
                } else {
                    b
                },
            ),
            (Some(a), None) => Some(a),
            (None, Some(b)) => Some(b),
            (None, None) => None,
        };
        match earlier {
            Some(at) => Some(
                if at.nanos >= now.nanos {
                    at
                } else {
                    now
                },
            ),
            None => None,
        }
    }

    /// When to wake up to find [`Self::current_slot`] at `slot`: now if it is
    /// reached, else a moment after it begins; `None` if the slot lies beyond
    /// what the clock can hold.
    pub fn wake_at(&self, slot: Slot, system_now: SystemTime, now: Instant) -> (res: Option<
        Instant,
    >)
        requires
            self.valid(),
            system_now.valid(),
            now.valid(),
            slot * self.slot_duration.nanos <= u128::MAX,
            self.can_hold(slot, system_now, now),
            self.start_of(slot, system_now, now) matches Some(at) ==> at + BOUNDARY_GRACE_NANOS
                <= LATEST_NANOS,
        ensures
            match res {
                Some(at) => at.nanos == if self.slot_at(system_now, now) >= slot {
                    now.nanos as int
                } else {
                    self.start_of(slot, system_now, now).unwrap() + BOUNDARY_GRACE_NANOS
                },
                None => self.slot_at(system_now, now) < slot && self.start_of(
                    slot,
                    system_now,
                    now,
                ) is None,
            },
    {
        if self.current_slot(system_now, now) >= slot {
            Some(now)
        } else {
            match self.instant_of(slot, system_now, now) {
                Some(at) => Some(Instant { nanos: at.nanos + BOUNDARY_GRACE_NANOS }),
                None => None,
            }
        }
    }
}

proof fn lemma_no_slots_in_nothing(slot_nanos: nat)
    ensures
        slots_in(0, slot_nanos) == 0,
{
    if slot_nanos > 0 {
        assert(0nat / slot_nanos == 0) by (nonlinear_arith)
            requires
                slot_nanos > 0,
        ;
    }
}

/// A span holds at least `n` slots exactly when it is as long as `n` slots.
proof fn lemma_slots_in_reaches(nanos: nat, slot_nanos: nat, n: nat)
    requires
        slot_nanos > 0,
        n <= u64::MAX,
    ensures
        slots_in(nanos, slot_nanos) >= n <==> nanos >= n * slot_nanos,
{
    let q = nanos / slot_nanos;
    assert(q >= n <==> nanos >= n * slot_nanos) by (nonlinear_arith)
        requires
            slot_nanos > 0,
            q == nanos / slot_nanos,
    ;
}

/// The slots of a span of whole slots are those slots.
pub proof fn law_slots_round_trip(slots: u64, slot_duration: Duration)
    requires
        slot_duration.nanos > 0,
        slots * slot_duration.nanos <= u64::MAX,
    ensures
        slots_in(
            slots_span(slots as nat, slot_duration.nanos as nat),
            slot_duration.nanos as nat,
        ) == slots,
{
    let d = slot_duration.nanos as nat;
    let nanos = slots_span(slots as nat, d);
    lemma_slots_in_reaches(nanos, d, slots as nat);
    assert(nanos / d <= slots) by (nonlinear_arith)
        requires
            d > 0,
            nanos == slots as nat * d,
    ;
}

/// The clock shows a slot exactly when one of its two readings reached it: the
/// time since the chain's start is that many whole slots, or the time since the
/// last slot was seen is as many whole slots as it is ahead of that one. The
/// slot that was seen itself is reached at once.
pub proof fn law_slot_is_reached_by_either_reading(
    clock: SlotClock,
    slot: Slot,
    system_now: SystemTime,
    now: Instant,
)
    requires
        clock.slot_duration.nanos > 0,
    ensures
        clock.slot_at(system_now, now) >= slot <==> {
            ||| slot <= clock.last_observed_slot
            ||| now.nanos - clock.last_observed_at.nanos >= (slot - clock.last_observed_slot)
                * clock.slot_duration.nanos
            ||| clock.chain_start_time matches Some(start) && (slot == 0 || system_now.nanos
                - start.nanos >= slot * clock.slot_duration.nanos)
        },
{
    let d = clock.slot_duration.nanos as nat;
    let x = span(clock.last_observed_at.nanos as int, now.nanos as int);
    if slot > clock.last_observed_slot {
        let ahead = (slot - clock.last_observed_slot) as nat;
        lemma_slots_in_reaches(x, d, ahead);
        assert(ahead * d > 0) by (nonlinear_arith)
            requires
                ahead > 0,
                d > 0,
        ;
    }
    if let Some(start) = clock.chain_start_time {
        let y = span(start.nanos as int, system_now.nanos as int);
        lemma_slots_in_reaches(y, d, slot as nat);
        if slot > 0 {
            assert(slot * d > 0) by (nonlinear_arith)
                requires
                    slot > 0,
                    d > 0,
            ;
        }
    }
}

/// As both clocks run, the slot never goes back.
pub proof fn law_current_slot_is_monotone(
    clock: SlotClock,
    system_now: SystemTime,
    now: Instant,
    system_later: SystemTime,
    later: Instant,
)
    requires
        system_now.nanos <= system_later.nanos,
        now.nanos <= later.nanos,
    ensures
        clock.slot_at(system_now, now) <= clock.slot_at(system_later, later),
{
    let d = clock.slot_duration.nanos as nat;
    if d > 0 {
        if let Some(start) = clock.chain_start_time {
            let a = span(start.nanos as int, system_now.nanos as int);
            let b = span(start.nanos as int, system_later.nanos as int);
            lemma_slots_in_reaches(b, d, slots_in(a, d));
            lemma_slots_in_reaches(a, d, slots_in(a, d));
        }
        let x = span(clock.last_observed_at.nanos as int, now.nanos as int);
        let y = span(clock.last_observed_at.nanos as int, later.nanos as int);
        lemma_slots_in_reaches(y, d, slots_in(x, d));
        lemma_slots_in_reaches(x, d, slots_in(x, d));
    }
}

/// The instant given for a slot is the first at which the clock shows it: at
/// that instant it does, and at none between now and then. Both clocks run
/// alike, the last slot was seen in the past, a slot has a length, and the
/// slot starts within sixty-four bits of nanoseconds.
pub proof fn law_instant_of_is_the_first_of_the_slot(
    clock: SlotClock,
    slot: Slot,
    system_now: SystemTime,
    now: Instant,
    elapsed: nat,
)
    requires
        clock.valid(),
        system_now.valid(),
        now.valid(),
        clock.last_observed_at.nanos <= now.nanos,
        clock.slot_duration.nanos > 0,
        slot * clock.slot_duration.nanos <= u64::MAX,
        clock.start_of(slot, system_now, now) is Some,
        now.nanos + elapsed <= LATEST_NANOS,
        system_now.nanos + elapsed <= LATEST_NANOS,
    ensures
        clock.slot_at(
            SystemTime { nanos: (system_now.nanos + elapsed) as i128 },
            Instant { nanos: (now.nanos + elapsed) as i128 },
        ) >= slot <==> now.nanos + elapsed >= clock.start_of(slot, system_now, now).unwrap(),
{
    let d = clock.slot_duration.nanos as nat;
    let wall = SystemTime { nanos: (system_now.nanos + elapsed) as i128 };
    let at = Instant { nanos: (now.nanos + elapsed) as i128 };
    let y = span(clock.last_observed_at.nanos as int, at.nanos as int);
    let ahead = if slot >= clock.last_observed_slot {
        (slot - clock.last_observed_slot) as nat
    } else {
        0
    };
    assert(ahead * d <= slot * d) by (nonlinear_arith)
        requires
            ahead <= slot,
            d > 0,
    ;
    if let Some(start) = clock.chain_start_time {
        let x = span(start.nanos as int, wall.nanos as int);
        lemma_slots_in_reaches(x, d, slot as nat);
        assert(clock.slot_by_chain_start(wall) >= slot <==> x >= slot * d);
    }
    lemma_slots_in_reaches(y, d, ahead);
    assert(clock.slot_by_anchor(at) >= slot <==> y >= ahead * d);
    assert(slots_span(slot as nat, d) == slot * d);
    assert(slots_span(ahead, d) == ahead * d);
    assert(slot == 0 ==> slot * d == 0) by (nonlinear_arith);
    assert(slot > 0 ==> slot * d > 0) by (nonlinear_arith)
        requires
            d > 0,
    ;
    assert(ahead == 0 ==> ahead * d == 0) by (nonlinear_arith);
    assert(ahead > 0 ==> ahead * d > 0) by (nonlinear_arith)
        requires
            d > 0,
    ;
}

} // verus!
