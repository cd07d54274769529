//! Whose turn it is to write, and when that can change.
//!
//! The round-robin rotation of a channel's accredited keys at a slot is an
//! argument.

use vstd::prelude::*;

use crate::mantle::Slot;
use crate::sequencer::types::{ChannelState, TurnNotification};

verus! {

/// The rotation of a channel's keys at a slot.
#[derive(Clone, Copy, Debug, PartialEq, Eq, Structural)]
pub struct Rotation {
    /// The index of the key that may write.
    pub authorized_key_index: u16,
    /// The slot at which its turn started.
    pub turn_start: Slot,
    /// The next slot at which the rotation moves on, where it does.
    pub next_boundary: Option<Slot>,
}

/// One reading of the slot clock, with the rotation of the channel at that
/// slot. Without a slot clock there is no slot, and the rotation is that of the
/// first one; without a channel there is no rotation.
#[derive(Clone, Copy, Debug, PartialEq, Eq, Structural)]
pub struct Moment {
    pub current_slot: Option<Slot>,
    pub rotation: Option<Rotation>,
}

/// A sum, capped at the largest slot.
pub open spec fn capped_slot(slot: int) -> Slot {
    if slot > u64::MAX {
        u64::MAX
    } else {
        slot as u64
    }
}

/// The slot that follows a turn.
pub open spec fn turn_end(turn_start: Slot, timeframe: u32) -> Slot {
    capped_slot(turn_start + timeframe)
}

/// The first slot of a turn with fewer than `min_remaining` slots left; `None`
/// when no margin is asked for or the turn is unbounded.
pub open spec fn gate(min_remaining: u64, timeframe: u32, turn_start: Slot) -> Option<Slot> {
    if min_remaining == 0 || timeframe == 0 {
        None
    } else {
        let end = turn_end(turn_start, timeframe);
        if end < min_remaining {
            Some(0)
        } else {
            Some(capped_slot(end - min_remaining + 1))
        }
    }
}

/// The first slot of the turn that starts at `turn_start` with fewer than
/// `min_remaining` slots left.
pub fn turn_gate_closes_at(min_remaining: u64, timeframe: u32, turn_start: Slot) -> (res: Option<
    Slot,
>)
    ensures
        res == gate(min_remaining, timeframe, turn_start),
{
    if min_remaining == 0 || timeframe == 0 {
        return None;
    }
    let end: u64 = turn_start.saturating_add(timeframe as u64);
    match end.checked_sub(min_remaining) {
        None => Some(0),
        Some(slot) => Some(slot.saturating_add(1)),
    }
}

/// A turn still has `min_remaining` slots left at a slot of it exactly where
/// its gate has not closed.
pub proof fn law_gate_keeps_the_margin(
    min_remaining: u64,
    timeframe: u32,
    turn_start: Slot,
    slot: Slot,
)
    requires
        timeframe > 0,
        turn_start + timeframe <= u64::MAX,
        turn_start <= slot < turn_start + timeframe,
    ensures
        enough_time_left(min_remaining, timeframe, turn_start, slot) <==> turn_start + timeframe
            - slot >= min_remaining,
{
}

/// Once too little of a turn is left for publishing, every later slot has too little.
pub proof fn law_gate_stays_closed(
    min_remaining: u64,
    timeframe: u32,
    turn_start: Slot,
    slot: Slot,
    later: Slot,
)
    requires
        slot <= later,
        !enough_time_left(min_remaining, timeframe, turn_start, slot),
    ensures
        !enough_time_left(min_remaining, timeframe, turn_start, later),
{
}

pub open spec fn enough_time_left(
    min_remaining: u64,
    timeframe: u32,
    turn_start: Slot,
    current_slot: Slot,
) -> bool {
    gate(min_remaining, timeframe, turn_start) matches Some(closes_at) ==> current_slot < closes_at
}

/// Whether the turn's gate is still open at `current_slot`.
pub fn has_enough_turn_time_left(
    min_remaining: u64,
    timeframe: u32,
    turn_start: Slot,
    current_slot: Slot,
) -> (res: bool)
    ensures
        res == enough_time_left(min_remaining, timeframe, turn_start, current_slot),
{
    match turn_gate_closes_at(min_remaining, timeframe, turn_start) {
        Some(closes_at) => current_slot < closes_at,
        None => true,
    }
}

/// Whether an inscription may be published: the cached channel state is fresh,
/// the slot is known, and it is the turn of our key with enough of it left. A
/// channel that does not exist yet is open to anyone.
pub open spec fn may_publish(
    connected: bool,
    min_remaining: u64,
    timeframe: Option<u32>,
    own_key_index: Option<u16>,
    moment: Moment,
) -> bool {
    connected && match moment.current_slot {
        None => false,
        Some(slot) => match (timeframe, own_key_index, moment.rotation) {
            (None, _, _) => true,
            (Some(timeframe), Some(own), Some(rotation)) => rotation.authorized_key_index == own
                && enough_time_left(min_remaining, timeframe, rotation.turn_start, slot),
            _ => false,
        },
    }
}

pub fn can_publish_inscription(
    connected: bool,
    min_remaining: u64,
    timeframe: Option<u32>,
    own_key_index: Option<u16>,
    moment: &Moment,
) -> (res: bool)
    ensures
        res == may_publish(connected, min_remaining, timeframe, own_key_index, *moment),
{
    if !connected {
        return false;
    }
    let slot: Slot = match moment.current_slot {
        None => return false,
        Some(slot) => slot,
    };
    match (timeframe, own_key_index, moment.rotation) {
        (None, _, _) => true,
        (Some(timeframe), Some(own), Some(rotation)) => rotation.authorized_key_index == own
            && has_enough_turn_time_left(min_remaining, timeframe, rotation.turn_start, slot),
        _ => false,
    }
}

/// On a channel that exists, publishing is for the key whose turn it is and for
/// no other: whoever may publish is connected, knows the slot, and has the index
/// that the rotation authorizes. That key may publish as long as no margin is
/// asked for, the turn is unbounded, or the margin is left of it.
pub proof fn law_only_the_authorized_key_publishes(
    connected: bool,
    min_remaining: u64,
    timeframe: u32,
    own_key_index: Option<u16>,
    moment: Moment,
)
    ensures
        may_publish(connected, min_remaining, Some(timeframe), own_key_index, moment) ==> connected
            && moment.current_slot is Some && (moment.rotation matches Some(rotation)
            && own_key_index == Some(rotation.authorized_key_index)),
        moment.current_slot matches Some(slot) ==> (moment.rotation matches Some(rotation) ==> (
        connected && own_key_index == Some(rotation.authorized_key_index) && (min_remaining == 0
            || timeframe == 0) ==> may_publish(
            connected,
            min_remaining,
            Some(timeframe),
            own_key_index,
            moment,
        ))),
        moment.current_slot matches Some(slot) ==> (moment.rotation matches Some(rotation) ==> (
        connected && own_key_index == Some(rotation.authorized_key_index) && timeframe > 0
            && rotation.turn_start <= slot < rotation.turn_start + timeframe && rotation.turn_start
            + timeframe <= u64::MAX ==> (may_publish(
            connected,
            min_remaining,
            Some(timeframe),
            own_key_index,
            moment,
        ) <==> slot + min_remaining <= rotation.turn_start + timeframe))),
{
}

/// Two keys are never both allowed to publish on a channel at one moment.
pub proof fn law_turns_exclude_each_other(
    connected: (bool, bool),
    min_remaining: (u64, u64),
    timeframe: u32,
    a: Option<u16>,
    b: Option<u16>,
    moment: Moment,
)
    requires
        a != b,
    ensures
        !(may_publish(connected.0, min_remaining.0, Some(timeframe), a, moment) && may_publish(
            connected.1,
            min_remaining.1,
            Some(timeframe),
            b,
            moment,
        )),
{
}

/// A channel that does not exist yet is open to whoever is connected and knows
/// the slot, whatever key they hold and whatever margin they keep.
pub proof fn law_absent_channel_is_open(
    connected: bool,
    min_remaining: u64,
    own_key_index: Option<u16>,
    moment: Moment,
)
    ensures
        may_publish(connected, min_remaining, None, own_key_index, moment) <==> connected
            && moment.current_slot is Some,
{
}

/// A margin that is asked for closes a turn exactly at the first slot with too
/// little left: publishing is open before it and closed from it on, and a turn
/// whose end lies beyond the last slot counts as ending there.
pub proof fn law_gate_is_the_first_late_slot(
    min_remaining: u64,
    timeframe: u32,
    turn_start: Slot,
    slot: Slot,
)
    ensures
        min_remaining == 0 || timeframe == 0 ==> gate(min_remaining, timeframe, turn_start) is None
            && enough_time_left(min_remaining, timeframe, turn_start, slot),
        min_remaining > 0 && timeframe > 0 && turn_start + timeframe <= u64::MAX ==> (
        enough_time_left(min_remaining, timeframe, turn_start, slot) <==> slot + min_remaining
            <= turn_start + timeframe),
        min_remaining > 0 && timeframe > 0 && turn_start + timeframe > u64::MAX && slot < u64::MAX
            ==> (enough_time_left(min_remaining, timeframe, turn_start, slot) <==> slot
            + min_remaining <= u64::MAX),
        gate(min_remaining, timeframe, turn_start) matches Some(at) ==> (slot < at
            <==> enough_time_left(min_remaining, timeframe, turn_start, slot)),
{
}

/// The earlier of two slots, where there is one.
pub open spec fn earlier(a: Option<Slot>, b: Option<Slot>) -> Option<Slot> {
    match (a, b) {
        (Some(x), Some(y)) => if x <= y {
            Some(x)
        } else {
            Some(y)
        },
        (Some(x), None) => Some(x),
        (None, y) => y,
    }
}

/// The next slot at which the turn to write can change: the rotation's
/// boundary, or earlier the slot at which our turn has too little left.
pub open spec fn wakeup(
    min_remaining: u64,
    timeframe: Option<u32>,
    own_key_index: Option<u16>,
    moment: Moment,
) -> Option<Slot> {
    match (moment.current_slot, timeframe, moment.rotation) {
        (Some(current), Some(timeframe), Some(rotation)) => {
            let closes = gate(min_remaining, timeframe, rotation.turn_start);
            let ours = own_key_index == Some(rotation.authorized_key_index);
            earlier(
                rotation.next_boundary,
                if ours && (closes matches Some(at) && at > current) {
                    closes
                } else {
                    None
                },
            )
        },
        _ => None,
    }
}

pub fn next_turn_wakeup(
    min_remaining: u64,
    timeframe: Option<u32>,
    own_key_index: Option<u16>,
    moment: &Moment,
) -> (res: Option<Slot>)
    ensures
        res == wakeup(min_remaining, timeframe, own_key_index, *moment),
{
    let (current, timeframe, rotation) = match (moment.current_slot, timeframe, moment.rotation) {
        (Some(current), Some(timeframe), Some(rotation)) => (current, timeframe, rotation),
        _ => return None,
    };
    let ours = match own_key_index {
        Some(own) => own == rotation.authorized_key_index,
        None => false,
    };
    let closes: Option<Slot> = if ours {
        match turn_gate_closes_at(min_remaining, timeframe, rotation.turn_start) {
            Some(at) => if at > current {
                Some(at)
            } else {
                None
            },
            None => None,
        }
    } else {
        None
    };
    match (rotation.next_boundary, closes) {
        (Some(a), Some(b)) => if a <= b {
            Some(a)
        } else {
            Some(b)
        },
        (Some(a), None) => Some(a),
        (None, b) => b,
    }
}

/// Before the wake-up the answer stays what it is: with the rotation unchanged,
/// an open turn is still open at every slot before it.
pub proof fn law_no_change_before_wakeup(
    min_remaining: u64,
    timeframe: Option<u32>,
    own_key_index: Option<u16>,
    moment: Moment,
    later: Slot,
)
    requires
        moment.current_slot matches Some(current) && current <= later,
        wakeup(min_remaining, timeframe, own_key_index, moment) matches Some(at) ==> later < at,
        timeframe is Some ==> moment.rotation is Some,
    ensures
        may_publish(true, min_remaining, timeframe, own_key_index, moment) == may_publish(
            true,
            min_remaining,
            timeframe,
            own_key_index,
            (Moment { current_slot: Some(later), ..moment }),
        ),
{
}

/// A wake-up is never for nothing: it is where the rotation moves on, or where
/// a turn that is ours and open now closes. It never lies behind the rotation's
/// boundary, and there is one wherever there is a boundary.
pub proof fn law_wakeup_is_a_change(
    min_remaining: u64,
    timeframe: Option<u32>,
    own_key_index: Option<u16>,
    moment: Moment,
)
    ensures
        ({
            let at = wakeup(min_remaining, timeframe, own_key_index, moment);
            &&& at matches Some(at) ==> moment.current_slot is Some && timeframe is Some && (
            moment.rotation matches Some(rotation) && (rotation.next_boundary == Some(at) || (
            moment.current_slot->0 < at && may_publish(
                true,
                min_remaining,
                timeframe,
                own_key_index,
                moment,
            ) && !may_publish(
                true,
                min_remaining,
                timeframe,
                own_key_index,
                Moment { current_slot: Some(at), ..moment },
            ))))
            &&& moment.current_slot is Some && timeframe is Some ==> (moment.rotation matches Some(
                rotation,
            ) ==> (rotation.next_boundary matches Some(boundary) ==> (at matches Some(at) && at
                <= boundary)))
        }),
{
}

/// What consumers are told of a turn.
pub open spec fn notification(
    our_turn_to_write: bool,
    timeframe: Option<u32>,
    moment: Moment,
) -> TurnNotification {
    match (moment.current_slot, timeframe, moment.rotation) {
        (Some(current), Some(timeframe), Some(rotation)) => TurnNotification {
            our_turn_to_write,
            starting_slot: Some(rotation.turn_start),
            ends_at_slot: Some(turn_end(rotation.turn_start, timeframe)),
            turn_to_write_slots: Some(timeframe),
            current_slot: Some(current),
        },
        _ => TurnNotification {
            our_turn_to_write,
            starting_slot: None,
            ends_at_slot: None,
            turn_to_write_slots: None,
            current_slot: moment.current_slot,
        },
    }
}

pub fn turn_notification(our_turn_to_write: bool, timeframe: Option<u32>, moment: &Moment) -> (res:
    TurnNotification)
    ensures
        res == notification(our_turn_to_write, timeframe, *moment),
{
    match (moment.current_slot, timeframe, moment.rotation) {
        (Some(current), Some(timeframe), Some(rotation)) => TurnNotification {
            our_turn_to_write,
            starting_slot: Some(rotation.turn_start),
            ends_at_slot: Some(rotation.turn_start.saturating_add(timeframe as u64)),
            turn_to_write_slots: Some(timeframe),
            current_slot: Some(current),
        },
        _ => TurnNotification {
            our_turn_to_write,
            starting_slot: None,
            ends_at_slot: None,
            turn_to_write_slots: None,
            current_slot: moment.current_slot,
        },
    }
}

/// A notification says what it was made from: whether it is our turn and the
/// slot it was made at; and on a channel whose rotation is known, when the turn
/// started, how long it is, and the slot behind it, at most the last one.
pub proof fn law_notification_tells_the_turn(
    our_turn: bool,
    timeframe: Option<u32>,
    moment: Moment,
)
    ensures
        ({
            let told = notification(our_turn, timeframe, moment);
            let known = moment.current_slot is Some && timeframe is Some && moment.rotation is Some;
            &&& told.our_turn_to_write == our_turn
            &&& told.current_slot == moment.current_slot
            &&& told.starting_slot is Some <==> known
            &&& told.ends_at_slot is Some <==> known
            &&& told.turn_to_write_slots == if known {
                timeframe
            } else {
                None
            }
            &&& known ==> {
                let start = moment.rotation->0.turn_start;
                let end = told.ends_at_slot->0;
                &&& told.starting_slot == Some(start)
                &&& start + timeframe->0 <= u64::MAX ==> end - start == timeframe->0
                &&& start + timeframe->0 > u64::MAX ==> end == u64::MAX
            }
        }),
{
}

/// Whether two notifications differ in more than the slot they were made at.
pub open spec fn turn_moved(old_turn: TurnNotification, new_turn: TurnNotification) -> bool {
    old_turn != (TurnNotification { current_slot: old_turn.current_slot, ..new_turn })
}

/// A turn moved where its owner, its start, its end or its length did; the
/// passing of slots alone does not move it.
pub proof fn law_turn_moves_with_its_terms(a: TurnNotification, b: TurnNotification)
    ensures
        turn_moved(a, b) <==> a.our_turn_to_write != b.our_turn_to_write || a.starting_slot
            != b.starting_slot || a.ends_at_slot != b.ends_at_slot || a.turn_to_write_slots
            != b.turn_to_write_slots,
        turn_moved(a, b) == turn_moved(b, a),
{
}

fn same_slot(a: Option<u64>, b: Option<u64>) -> (res: bool)
    ensures
        res == (a == b),
{
    match (a, b) {
        (Some(x), Some(y)) => x == y,
        (None, None) => true,
        _ => false,
    }
}

pub fn turn_changed(old_turn: &TurnNotification, new_turn: &TurnNotification) -> (res: bool)
    ensures
        res == turn_moved(*old_turn, *new_turn),
{
    let same_length = match (old_turn.turn_to_write_slots, new_turn.turn_to_write_slots) {
        (Some(x), Some(y)) => x == y,
        (None, None) => true,
        _ => false,
    };
    old_turn.our_turn_to_write != new_turn.our_turn_to_write || !same_slot(
        old_turn.starting_slot,
        new_turn.starting_slot,
    ) || !same_slot(old_turn.ends_at_slot, new_turn.ends_at_slot) || !same_length
}

/// The length of a turn in a channel.
pub open spec fn timeframe_of(channel: Option<ChannelState>) -> Option<u32> {
    match channel {
        Some(channel) => Some(channel.posting_timeframe),
        None => None,
    }
}

pub fn posting_timeframe(channel: &Option<ChannelState>) -> (res: Option<u32>)
    ensures
        res == timeframe_of(*channel),
{
    match channel {
        Some(channel) => Some(channel.posting_timeframe),
        None => None,
    }
}

} // verus!
