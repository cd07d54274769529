//! The sequencer: what it holds between two steps of the drive loop, and the
//! steps. The loop itself — the node, the clock, the posts — is outside: it
//! hands in what it read and posts what a step returns.

use vstd::prelude::*;

use crate::collections::KeySet;
use crate::ids::{ChannelId, Ed25519PublicKey, HeaderId, MsgId, TxHash};
use crate::mantle::{SignedOps, Slot};
use crate::sequencer::block_event::state_of;
use crate::sequencer::checkpoint::{build_checkpoint, restore_state, restored_state};
use crate::sequencer::events::{event_models, Event};
use crate::sequencer::resubmit::select_resubmits;
use crate::sequencer::sequencer_model::{hash_of_pair, SequencerModel};
use crate::sequencer::slot_clock::SlotClock;
use crate::sequencer::state::TxState;
use crate::sequencer::turn::{
    can_publish_inscription, next_turn_wakeup, posting_timeframe, turn_changed, turn_notification,
    Moment,
};
use crate::sequencer::tx_builder::key_position;
use crate::sequencer::types::{
    ChannelState, SequencerChannelView, SequencerCheckpoint, SequencerConfig, TurnNotification,
    TxSource, TxStatus, TxStatusUpdate,
};
use crate::time::{Instant, SystemTime};

verus! {

/// The sequencer of a channel.
pub struct ZoneSequencer {
    pub channel_id: ChannelId,
    pub own_key: Ed25519PublicKey,
    pub config: SequencerConfig,
    pub state: Option<TxState>,
    pub current_tip: Option<HeaderId>,
    pub lib_slot: Slot,
    pub last_msg_id: MsgId,
    pub slot_clock: Option<SlotClock>,
    pub channel_state: Option<ChannelState>,
    pub own_key_index: Option<u16>,
    pub connected: bool,
    pub ready: bool,
    pub resubmit_active: bool,
    pub posting: KeySet<TxHash>,
    pub buffered_events: Vec<Event>,
    pub statuses: Vec<TxStatusUpdate>,
    pub backfill_from: Option<Slot>,
    pub backfill_to: Option<Slot>,
    pub backfill_from_genesis: bool,
    pub turn: TurnNotification,
    pub turn_boundary: Option<Slot>,
    pub channel_view: SequencerChannelView,
    pub checkpoint: Option<SequencerCheckpoint>,
}

impl View for ZoneSequencer {
    type V = SequencerModel;

    open spec fn view(&self) -> SequencerModel {
        SequencerModel {
            channel_id: self.channel_id,
            own_key: self.own_key,
            config: self.config,
            state: state_of(self.state),
            current_tip: self.current_tip,
            lib_slot: self.lib_slot,
            last_msg_id: self.last_msg_id,
            slot_clock: self.slot_clock,
            channel_state: self.channel_state,
            own_key_index: self.own_key_index,
            connected: self.connected,
            ready: self.ready,
            resubmit_active: self.resubmit_active,
            posting: self.posting@,
            events: event_models(self.buffered_events@),
            statuses: self.statuses@,
            backfill_from: self.backfill_from,
            backfill_to: self.backfill_to,
            backfill_from_genesis: self.backfill_from_genesis,
            turn: self.turn,
            turn_boundary: self.turn_boundary,
            channel_view: self.channel_view,
            checkpoint: match self.checkpoint {
                Some(checkpoint) => Some(checkpoint@),
                None => None,
            },
        }
    }
}

/// The turn before anything is known of it.
pub open spec fn no_turn() -> TurnNotification {
    TurnNotification {
        our_turn_to_write: false,
        starting_slot: None,
        ends_at_slot: None,
        turn_to_write_slots: None,
        current_slot: None,
    }
}

/// A sequencer that did nothing yet, from what it starts with.
pub open spec fn started(
    channel_id: ChannelId,
    own_key: Ed25519PublicKey,
    config: SequencerConfig,
    checkpoint: Option<SequencerCheckpoint>,
) -> SequencerModel {
    SequencerModel {
        channel_id,
        own_key,
        config,
        state: match checkpoint {
            Some(checkpoint) => Some(
                restored_state(checkpoint, channel_id, config.max_local_tx_tracking),
            ),
            None => None,
        },
        current_tip: None,
        lib_slot: match checkpoint {
            Some(checkpoint) => checkpoint.lib_slot,
            None => 0,
        },
        last_msg_id: match checkpoint {
            Some(checkpoint) => checkpoint.last_msg_id,
            None => MsgId::spec_root(),
        },
        slot_clock: None,
        channel_state: None,
        own_key_index: None,
        connected: false,
        ready: false,
        resubmit_active: false,
        posting: Set::empty(),
        events: Seq::empty(),
        statuses: Seq::empty(),
        backfill_from: None,
        backfill_to: None,
        backfill_from_genesis: checkpoint is None,
        turn: no_turn(),
        turn_boundary: None,
        channel_view: SequencerChannelView {
            channel_id,
            channel: None,
            current_slot: 0,
            own_key_index: None,
            authorized_key_index: None,
            our_turn_to_write: false,
            tip_message: MsgId::spec_root(),
            pending_publish_txs: 0,
            queued_messages: 0,
            turn_to_write_slots: None,
            posting_timeout_slots: None,
            accredited_key_count: None,
        },
        checkpoint: None,
    }
}

proof fn lemma_events_push(events: Seq<Event>, event: Event)
    ensures
        event_models(events.push(event)) == event_models(events).push(event@),
{
    assert(event_models(events.push(event)) =~= event_models(events).push(event@));
}

impl ZoneSequencer {
    /// A sequencer with the default configuration.
    pub fn init(
        channel_id: ChannelId,
        own_key: Ed25519PublicKey,
        checkpoint: Option<SequencerCheckpoint>,
    ) -> (res: ZoneSequencer)
        ensures
            res@ == started(channel_id, own_key, SequencerConfig::spec_default(), checkpoint),
            res@.checkpoint is None,
    {
        ZoneSequencer::init_with_config(
            channel_id,
            own_key,
            SequencerConfig::default(),
            checkpoint,
        )
    }

    /// A sequencer with a configuration of its own. With a checkpoint it
    /// resumes from it; without, it backfills from genesis. Either way it has
    /// no checkpoint of its own before it processed a block.
    pub fn init_with_config(
        channel_id: ChannelId,
        own_key: Ed25519PublicKey,
        config: SequencerConfig,
        checkpoint: Option<SequencerCheckpoint>,
    ) -> (res: ZoneSequencer)
        ensures
            res@ == started(channel_id, own_key, config, checkpoint),
            res@.checkpoint is None,
    {
        let (state, lib_slot, last_msg_id, from_genesis) = match checkpoint {
            Some(checkpoint) => {
                let lib_slot = checkpoint.lib_slot;
                let last_msg_id = checkpoint.last_msg_id;
                let state = restore_state(checkpoint, channel_id, config.max_local_tx_tracking);
                (Some(state), lib_slot, last_msg_id, false)
            },
            None => (None, 0, MsgId::root(), true),
        };
        let res = ZoneSequencer {
            channel_id,
            own_key,
            config,
            state,
            current_tip: None,
            lib_slot,
            last_msg_id,
            slot_clock: None,
            channel_state: None,
            own_key_index: None,
            connected: false,
            ready: false,
            resubmit_active: false,
            posting: KeySet::new(),
            buffered_events: Vec::new(),
            statuses: Vec::new(),
            backfill_from: None,
            backfill_to: None,
            backfill_from_genesis: from_genesis,
            turn: TurnNotification {
                our_turn_to_write: false,
                starting_slot: None,
                ends_at_slot: None,
                turn_to_write_slots: None,
                current_slot: None,
            },
            turn_boundary: None,
            channel_view: SequencerChannelView::new(channel_id),
            checkpoint: None,
        };
        assert(res@ =~= started(channel_id, own_key, config, checkpoint));
        res
    }

    /// Whether cold-start backfill is complete. Never goes back.
    pub fn is_ready(&self) -> (res: bool)
        ensures
            res == self@.ready,
    {
        self.ready
    }

    /// The stored checkpoint; none before the first block is processed.
    pub fn checkpoint(&self) -> (res: Option<SequencerCheckpoint>)
        ensures
            match res {
                Some(checkpoint) => self@.checkpoint == Some(checkpoint@),
                None => self@.checkpoint is None,
            },
    {
        match &self.checkpoint {
            Some(checkpoint) => {
                let copy = checkpoint.clone();
                assert(copy@ =~= checkpoint@);
                Some(copy)
            },
            None => None,
        }
    }

    /// Builds the checkpoint of the present state and stores it.
    pub fn publish_checkpoint(&mut self) -> (res: Option<SequencerCheckpoint>)
        ensures
            final(self)@ == old(self)@.with_checkpoint(final(self)@.checkpoint),
            final(self)@.checkpoint_is_current(),
            match res {
                Some(checkpoint) => final(self)@.checkpoint == Some(checkpoint@),
                None => final(self)@.checkpoint is None,
            },
    {
        self.checkpoint = match &self.state {
            Some(state) => Some(build_checkpoint(state, self.last_msg_id, self.lib_slot)),
            None => None,
        };
        assert(self@ =~= old(self)@.with_checkpoint(self@.checkpoint));
        self.checkpoint()
    }

    /// Takes the oldest event.
    pub fn pop_event(&mut self) -> (res: Option<Event>)
        ensures
            final(self)@ == old(self)@.without_first_event(),
            match res {
                Some(event) => old(self)@.first_event() == Some(event@),
                None => old(self)@.first_event() is None,
            },
    {
        if self.buffered_events.len() == 0 {
            return None;
        }
        let event = self.buffered_events.remove(0);
        assert(event_models(self.buffered_events@) =~= old(self)@.events.drop_first());
        assert(self@ =~= old(self)@.without_first_event());
        Some(event)
    }

    /// Takes the queued status changes.
    pub fn take_statuses(&mut self) -> (res: Vec<TxStatusUpdate>)
        ensures
            res@ == old(self)@.statuses,
            final(self)@ == (SequencerModel { statuses: Seq::empty(), ..old(self)@ }),
    {
        let mut res: Vec<TxStatusUpdate> = Vec::new();
        std::mem::swap(&mut res, &mut self.statuses);
        assert(self@ =~= SequencerModel { statuses: Seq::empty(), ..old(self)@ });
        res
    }

    pub(crate) fn push_event(&mut self, event: Event)
        ensures
            final(self)@ == (SequencerModel {
                events: old(self)@.events.push(event@),
                ..old(self)@
            }),
    {
        proof {
            lemma_events_push(self.buffered_events@, event);
        }
        self.buffered_events.push(event);
        assert(self@ =~= SequencerModel { events: old(self)@.events.push(event@), ..old(self)@ });
    }

    /// The position of our key among the accredited ones; a position of 65536
    /// and more keeps its low sixteen bits.
    pub fn own_key_index_for(&self, channel: &ChannelState) -> (res: Option<u16>)
        ensures
            res == match channel.accredited_keys@.index_of_first(self@.own_key) {
                Some(i) => Some(i as u16),
                None => None,
            },
    {
        match key_position(channel.accredited_keys.as_slice(), &self.own_key) {
            Some(i) => Some(#[verifier::truncate] (i as u16)),
            None => None,
        }
    }

    /// Caches the channel's state.
    pub fn install_channel_state(&mut self, channel: Option<ChannelState>)
        ensures
            final(self)@ == (SequencerModel {
                channel_state: channel,
                own_key_index: match channel {
                    Some(channel) => match channel.accredited_keys@.index_of_first(
                        old(self)@.own_key,
                    ) {
                        Some(i) => Some(i as u16),
                        None => None,
                    },
                    None => None,
                },
                ..old(self)@
            }),
    {
        self.own_key_index = match &channel {
            Some(channel) => self.own_key_index_for(channel),
            None => None,
        };
        self.channel_state = channel;
    }

    /// The slot by the slot clock.
    pub fn current_slot(&self, system_now: SystemTime, now: Instant) -> (res: Option<Slot>)
        requires
            self.slot_clock matches Some(clock) ==> clock.valid(),
            system_now.valid(),
            now.valid(),
        ensures
            res == match self@.slot_clock {
                Some(clock) => Some(clock.slot_at(system_now, now) as u64),
                None => None,
            },
    {
        match &self.slot_clock {
            Some(clock) => Some(clock.current_slot(system_now, now)),
            None => None,
        }
    }

    /// Whether an inscription may be published.
    pub fn can_publish_inscription_now(&self, moment: &Moment) -> (res: bool)
        ensures
            res == self@.may_publish(*moment),
    {
        can_publish_inscription(
            self.connected,
            self.config.min_slots_remaining_in_turn,
            posting_timeframe(&self.channel_state),
            self.own_key_index,
            moment,
        )
    }

    /// What consumers see of the channel.
    pub fn channel_view(&self, moment: &Moment) -> (res: SequencerChannelView)
        ensures
            res == self@.view_at(*moment),
    {
        let current_slot: Slot = match moment.current_slot {
            Some(slot) => slot,
            None => 0,
        };
        let authorized_key_index: Option<u16> = match (&self.channel_state, moment.rotation) {
            (Some(_), Some(rotation)) => Some(rotation.authorized_key_index),
            _ => None,
        };
        let pending: usize = match &self.state {
            Some(state) => state.pending_publish_count(),
            None => 0,
        };
        let our_turn_to_write = self.can_publish_inscription_now(moment);
        let turn_to_write_slots = posting_timeframe(&self.channel_state);
        let (channel, tip_message, posting_timeout_slots, accredited_key_count) =
            match &self.channel_state {
            Some(channel) => (
                Some(channel.clone()),
                channel.tip_message,
                Some(channel.posting_timeout),
                Some(channel.accredited_keys.len()),
            ),
            None => (None, self.last_msg_id, None, None),
        };
        SequencerChannelView {
            channel_id: self.channel_id,
            channel,
            current_slot,
            own_key_index: self.own_key_index,
            authorized_key_index,
            our_turn_to_write,
            tip_message,
            pending_publish_txs: pending,
            queued_messages: pending,
            turn_to_write_slots,
            posting_timeout_slots,
            accredited_key_count,
        }
    }

    pub(crate) fn select_sweep(&self, moment: &Moment) -> (res: Vec<(TxHash, SignedOps)>)
        ensures
            res@ == self@.sweep_at(*moment),
    {
        if self.resubmit_active {
            return Vec::new();
        }
        match (&self.state, self.current_tip) {
            (Some(state), Some(tip)) => select_resubmits(
                state,
                tip,
                &self.posting,
                self.can_publish_inscription_now(moment),
                self.config.max_pending_publish_depth,
            ),
            _ => Vec::new(),
        }
    }

    pub(crate) fn queue_sweep(&mut self, batch: &Vec<(TxHash, SignedOps)>)
        ensures
            final(self)@ == old(self)@.with_sweep(batch@),
    {
        if batch.len() == 0 {
            return;
        }
        let ghost hashes = batch@.map_values(hash_of_pair());
        let ghost before = self.posting@;
        let ghost start = self@;
        let mut i: usize = 0;
        assert(self.posting@ =~= before.union(hashes.take(0).to_set()));
        while i < batch.len()
            invariant
                i <= batch@.len(),
                hashes == batch@.map_values(hash_of_pair()),
                self@ == (SequencerModel {
                    posting: before.union(hashes.take(i as int).to_set()),
                    ..start
                }),
            decreases batch@.len() - i,
        {
            proof {
                hashes.take(i as int).lemma_push_to_set_commute(hashes[i as int]);
                assert(hashes.take(i + 1) =~= hashes.take(i as int).push(hashes[i as int]));
            }
            let _ = self.posting.insert(batch[i].0);
            assert(self@ =~= SequencerModel {
                posting: before.union(hashes.take(i + 1).to_set()),
                ..start
            });
            i = i + 1;
        }
        assert(hashes.take(i as int) =~= hashes);
        self.resubmit_active = true;
        assert(self@ =~= old(self)@.with_sweep(batch@));
    }

    /// Announces a turn. Returns what is to be posted: when the turn becomes
    /// ours, what accumulated until now.
    pub(crate) fn publish_turn_to_write(&mut self, turn_to_write: bool, moment: &Moment) -> (res: Vec<
        (TxHash, SignedOps),
    >)
        ensures
            final(self)@ == old(self)@.with_turn(turn_to_write, *moment),
            res@ == old(self)@.posts_on_turn(turn_to_write, *moment),
    {
        let timeframe = posting_timeframe(&self.channel_state);
        let turn = turn_notification(turn_to_write, timeframe, moment);
        let changed = turn_changed(&self.turn, &turn);
        let began = turn_to_write && !self.turn.our_turn_to_write;
        let batch = if began {
            self.select_sweep(moment)
        } else {
            Vec::new()
        };
        assert(batch@ =~= old(self)@.posts_on_turn(turn_to_write, *moment));
        self.queue_sweep(&batch);
        self.turn = turn;
        if changed {
            self.push_event(Event::TurnNotification { notification: turn });
        }
        self.turn_boundary = next_turn_wakeup(
            self.config.min_slots_remaining_in_turn,
            timeframe,
            self.own_key_index,
            moment,
        );
        assert(self@ =~= old(self)@.with_turn(turn_to_write, *moment));
        batch
    }

    /// Refreshes the channel view and announces the turn. Returns what is to be
    /// posted.
    pub fn publish_channel_view(&mut self, moment: &Moment) -> (res: Vec<(TxHash, SignedOps)>)
        ensures
            final(self)@ == old(self)@.with_view(*moment),
            res@ == old(self)@.posts_on_view(*moment),
    {
        let view = self.channel_view(moment);
        let turn_to_write = self.ready && view.our_turn_to_write;
        self.channel_view = view;
        let ghost viewed = self@;
        assert(viewed =~= SequencerModel {
            channel_view: old(self)@.view_at(*moment),
            ..old(self)@
        });
        self.publish_turn_to_write(turn_to_write, moment)
    }

    /// Picks the pending transactions to post again, and refreshes the view.
    pub fn resubmit_pending(&mut self, moment: &Moment) -> (res: Vec<(TxHash, SignedOps)>)
        ensures
            final(self)@ == old(self)@.with_sweep(old(self)@.sweep_at(*moment)).with_view(*moment),
            res@ == old(self)@.sweep_at(*moment),
    {
        let batch = self.select_sweep(moment);
        self.queue_sweep(&batch);
        proof {
            lemma_one_sweep(old(self)@, *moment);
        }
        let _ = self.publish_channel_view(moment);
        batch
    }

    /// The stream of blocks broke: cached channel state is stale now, so the
    /// turn is not ours until a block comes in again. Readiness stays.
    pub fn handle_stream_drop(&mut self, moment: &Moment)
        ensures
            final(self)@ == old(self)@.disconnected(*moment),
            final(self)@ == (SequencerModel { connected: false, ..old(self)@ }).with_turn(
                false,
                *moment,
            ),
    {
        self.connected = false;
        assert(self@ =~= SequencerModel { connected: false, ..old(self)@ });
        let _ = self.publish_turn_to_write(false, moment);
    }

    pub(crate) fn tx_source(&self, tx_hash: &TxHash) -> (res: TxSource)
        ensures
            res == self@.source(*tx_hash),
    {
        match &self.state {
            Some(state) => state.tx_source(tx_hash),
            None => TxSource::Other,
        }
    }

    pub(crate) fn queue_tx_status(&mut self, tx_hash: TxHash, status: TxStatus)
        ensures
            final(self)@ == old(self)@.with_status(tx_hash, status),
    {
        self.statuses.push(TxStatusUpdate { tx_hash, status });
        match status {
            TxStatus::PendingMempool => self.push_event(Event::MempoolPending(tx_hash)),
            _ => {},
        }
        let max_local: usize = self.config.max_local_tx_tracking;
        match &mut self.state {
            Some(state) => match status {
                TxStatus::AcceptedLocally => state.prune_local_tx_tracking(max_local),
                TxStatus::Finalized(TxSource::Local) => state.remove_local_tx(&tx_hash),
                _ => {},
            },
            None => {},
        }
        assert(self@ =~= old(self)@.with_status(tx_hash, status));
    }
}

/// A sweep leaves nothing to post for the view that follows it.
proof fn lemma_one_sweep(s: SequencerModel, moment: Moment)
    ensures
        s.with_sweep(s.sweep_at(moment)).posts_on_view(moment) == Seq::<
            (TxHash, SignedOps),
        >::empty(),
{
}

} // verus!
