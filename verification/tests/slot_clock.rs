use zone_sdk::sequencer::slot_clock::{
    duration_for_slots, slots_from_duration, system_time_to_instant, SlotClock,
};
use zone_sdk::sequencer::turn::{
    can_publish_inscription, has_enough_turn_time_left, next_turn_wakeup, turn_changed,
    turn_gate_closes_at, turn_notification, Moment, Rotation,
};
use zone_sdk::time::{Duration, Instant, SystemTime, MAX_DURATION_NANOS};

const SEC: i128 = 1_000_000_000;

fn at(secs: i128) -> Instant {
    Instant { nanos: secs * SEC }
}

fn wall(secs: i128) -> SystemTime {
    SystemTime { nanos: secs * SEC }
}

#[test]
fn instant_of_uses_the_earlier_of_anchor_and_chain_start() {
    let slot_duration = Duration::from_millis(100);
    let step = 100_000_000;
    let (system_now, now) = (wall(1000), at(50));
    let mut clock = SlotClock::from_chain_start_time(system_now, slot_duration, system_now, now);
    clock.observe_slot(10, now);
    let anchor = clock.last_observed_at;

    let reached = clock.instant_of(13, system_now, now).unwrap();
    assert!(reached.nanos >= anchor.nanos + step * 3);
    assert!(reached.nanos < anchor.nanos + step * 4);

    assert!(clock.instant_of(5, system_now, now).unwrap() <= now);
}

/// A reached slot is not waited for; a coming one is, with the grace added.
#[test]
fn sleep_until_a_reached_slot_does_not_wait() {
    let slot_duration = Duration::from_millis(100);
    let (system_now, now) = (wall(1000), at(50));
    let mut clock = SlotClock::from_chain_start_time(system_now, slot_duration, system_now, now);
    clock.observe_slot(10, now);
    assert!(clock.instant_of(5, system_now, now).unwrap() <= now);
    let ahead = clock.wake_at(13, system_now, now).unwrap();
    assert!(ahead.nanos >= clock.last_observed_at.nanos + 300_000_000);
}

#[test]
fn the_slot_is_the_later_of_chain_start_and_observation() {
    let second = Duration::from_secs(1);
    let mut clock = SlotClock::from_chain_start_time(wall(0), second, wall(7), at(0));
    assert_eq!(clock.current_slot(wall(7), at(0)), 7);
    clock.observe_slot(20, at(0));
    assert_eq!(clock.current_slot(wall(7), at(0)), 20);
    assert_eq!(clock.current_slot(wall(9), at(2)), 22);
    assert_eq!(clock.current_slot(wall(100), at(2)), 100);
}

#[test]
fn a_clock_without_a_chain_start_goes_by_the_observed_slot() {
    let second = Duration::from_secs(1);
    let mut clock = SlotClock::from_observed_slot(20, second, at(5));
    assert_eq!(clock.chain_start_time, None);
    assert_eq!(clock.current_slot(wall(1_000_000), at(5)), 20);
    assert_eq!(clock.current_slot(wall(0), at(8)), 23);
    assert_eq!(clock.instant_of(24, wall(1_000_000), at(6)), Some(at(9)));
    assert_eq!(clock.instant_of(3, wall(0), at(6)), Some(at(6)), "reached already");
    clock.observe_slot(30, at(6));
    assert_eq!(clock.current_slot(wall(0), at(6)), 30);
}

#[test]
fn slots_and_durations_convert_exactly() {
    let slot = Duration::from_millis(250);
    assert_eq!(duration_for_slots(4, slot), Duration::from_secs(1));
    assert_eq!(slots_from_duration(Duration::from_secs(1), slot), 4);
    assert_eq!(slots_from_duration(Duration::from_millis(999), slot), 3);
    assert_eq!(slots_from_duration(Duration::from_secs(1), Duration::from_nanos(0)), 0);
    assert_eq!(
        duration_for_slots(u64::MAX, Duration::from_secs(2)).nanos,
        MAX_DURATION_NANOS,
        "what does not fit in nanoseconds is the longest duration"
    );
}

#[test]
fn wall_time_maps_to_the_monotonic_clock() {
    assert_eq!(system_time_to_instant(wall(12), at(5), wall(10)), at(7));
    assert_eq!(system_time_to_instant(wall(8), at(5), wall(10)), at(5), "a time gone by is now");
}

#[test]
fn a_clock_stays_put_without_a_slot_duration() {
    let clock = SlotClock::from_chain_start_time(wall(0), Duration::from_nanos(0), wall(7), at(0));
    assert_eq!(clock.current_slot(wall(1000), at(1000)), clock.last_observed_slot);
}

#[test]
fn the_margin_closes_a_turn_early_and_for_good() {
    assert_eq!(turn_gate_closes_at(0, 4, 8), None);
    assert_eq!(turn_gate_closes_at(3, 0, 8), None);
    assert_eq!(turn_gate_closes_at(3, 4, 8), Some(10));
    assert_eq!(turn_gate_closes_at(100, 4, 8), Some(0));
    assert!(has_enough_turn_time_left(3, 4, 8, 9));
    assert!(!has_enough_turn_time_left(3, 4, 8, 10));
    assert!(!has_enough_turn_time_left(3, 4, 8, 11));
    let last = u64::MAX - 4;
    assert!(has_enough_turn_time_left(3, 4, last, u64::MAX - 3));
    assert!(!has_enough_turn_time_left(3, 4, last, u64::MAX - 2));
}

fn moment(slot: u64, authorized: u16, start: u64, boundary: u64) -> Moment {
    Moment {
        current_slot: Some(slot),
        rotation: Some(Rotation {
            authorized_key_index: authorized,
            turn_start: start,
            next_boundary: Some(boundary),
        }),
    }
}

#[test]
fn publishing_needs_a_connection_and_the_turn() {
    let ours = moment(8, 1, 8, 12);
    assert!(can_publish_inscription(true, 0, Some(4), Some(1), &ours));
    assert!(!can_publish_inscription(false, 0, Some(4), Some(1), &ours));
    assert!(!can_publish_inscription(true, 0, Some(4), Some(0), &ours));
    assert!(!can_publish_inscription(true, 0, Some(4), None, &ours));
    let no_clock = Moment { current_slot: None, rotation: None };
    assert!(!can_publish_inscription(true, 0, Some(4), Some(1), &no_clock));
    let no_channel = Moment { current_slot: Some(8), rotation: None };
    assert!(can_publish_inscription(true, 0, None, None, &no_channel), "the channel is unclaimed");
}

#[test]
fn the_wakeup_is_the_boundary_or_the_closing_margin() {
    assert_eq!(next_turn_wakeup(3, Some(4), Some(1), &moment(8, 1, 8, 12)), Some(10));
    assert_eq!(next_turn_wakeup(3, Some(4), Some(1), &moment(10, 1, 8, 12)), Some(12));
    assert_eq!(next_turn_wakeup(3, Some(4), Some(0), &moment(8, 1, 8, 12)), Some(12));
    assert_eq!(next_turn_wakeup(0, Some(4), Some(1), &moment(8, 1, 8, 12)), Some(12));
}

#[test]
fn a_turn_is_told_by_its_bounds() {
    let a = turn_notification(true, Some(4), &moment(8, 1, 8, 12));
    assert_eq!((a.starting_slot, a.ends_at_slot), (Some(8), Some(12)));
    assert_eq!((a.turn_to_write_slots, a.current_slot), (Some(4), Some(8)));
    let b = turn_notification(true, Some(4), &moment(9, 1, 8, 12));
    assert!(!turn_changed(&a, &b), "only the current slot differs");
    assert!(turn_changed(&a, &turn_notification(false, Some(4), &moment(8, 1, 8, 12))));
    assert!(turn_changed(&a, &turn_notification(true, Some(4), &moment(12, 1, 12, 16))));
}
