//! The sequencer as a mathematical value, and what each step makes of it.

use vstd::prelude::*;

use crate::collections::other_than;
use crate::ids::{ChannelId, Ed25519PublicKey, HeaderId, MsgId, TxHash};
use crate::mantle::{SignedOps, Slot};
use crate::sequencer::backfill::{pointer_after, settle_batch};
use crate::sequencer::block_event::UpdateModel;
use crate::sequencer::checkpoint::newest;
use crate::sequencer::events::{CheckpointModel, EventModel, ViewChange};
use crate::sequencer::resubmit::sweep;
use crate::sequencer::slot_clock::SlotClock;
use crate::sequencer::state_model::StateModel;
use crate::sequencer::turn::{may_publish, notification, timeframe_of, turn_moved, wakeup, Moment};
use crate::sequencer::types::{
    ChannelState, ChannelUpdateTx, DepositInfo, FinalizedTx, InscriptionInfo,
    SequencerChannelView, SequencerConfig, TurnNotification, TxSource, TxStatus, TxStatusUpdate,
};
use crate::sequencer::updates::{adopted_of, change_of, merged, outcome};

verus! {

pub open spec fn hash_of_pair() -> spec_fn((TxHash, SignedOps)) -> TxHash {
    |pair: (TxHash, SignedOps)| pair.0
}

/// The transactions of a batch.
pub open spec fn batch_hashes(batch: Seq<(TxHash, SignedOps)>) -> Set<TxHash> {
    batch.map_values(hash_of_pair()).to_set()
}

/// What an update of the chain orphaned; nothing without one.
pub open spec fn orphaned_of(update: Option<UpdateModel>) -> Seq<ChannelUpdateTx> {
    match update {
        Some(update) => update.orphaned,
        None => Seq::empty(),
    }
}

#[verifier::ext_equal]
pub struct SequencerModel {
    pub channel_id: ChannelId,
    pub own_key: Ed25519PublicKey,
    pub config: SequencerConfig,
    pub state: Option<StateModel>,
    pub current_tip: Option<HeaderId>,
    pub lib_slot: Slot,
    /// What the next message chains from.
    pub last_msg_id: MsgId,
    pub slot_clock: Option<SlotClock>,
    pub channel_state: Option<ChannelState>,
    pub own_key_index: Option<u16>,
    /// The block stream is alive and a block of it was processed.
    pub connected: bool,
    /// Cold-start backfill is complete; never unset.
    pub ready: bool,
    /// A sweep is being posted.
    pub resubmit_active: bool,
    /// The transactions being posted.
    pub posting: Set<TxHash>,
    /// Events to hand out, oldest first.
    pub events: Seq<EventModel>,
    /// Changes of transaction statuses to hand out, oldest first.
    pub statuses: Seq<TxStatusUpdate>,
    pub backfill_from: Option<Slot>,
    pub backfill_to: Option<Slot>,
    /// The first backfill includes the genesis slot.
    pub backfill_from_genesis: bool,
    pub turn: TurnNotification,
    /// The next slot at which the turn can change.
    pub turn_boundary: Option<Slot>,
    pub channel_view: SequencerChannelView,
    pub checkpoint: Option<CheckpointModel>,
}

impl SequencerModel {
    /// Whether an inscription may be published.
    pub open spec fn may_publish(self, moment: Moment) -> bool {
        may_publish(
            self.connected,
            self.config.min_slots_remaining_in_turn,
            timeframe_of(self.channel_state),
            self.own_key_index,
            moment,
        )
    }

    /// How many inscriptions are pending.
    pub open spec fn pending_publishes(self) -> usize {
        match self.state {
            Some(m) => m.pending.len() as usize,
            None => 0,
        }
    }

    /// What consumers see of the channel.
    pub open spec fn view_at(self, moment: Moment) -> SequencerChannelView {
        SequencerChannelView {
            channel_id: self.channel_id,
            channel: self.channel_state,
            current_slot: match moment.current_slot {
                Some(slot) => slot,
                None => 0,
            },
            own_key_index: self.own_key_index,
            authorized_key_index: match (self.channel_state, moment.rotation) {
                (Some(_), Some(rotation)) => Some(rotation.authorized_key_index),
                _ => None,
            },
            our_turn_to_write: self.may_publish(moment),
            tip_message: match self.channel_state {
                Some(channel) => channel.tip_message,
                None => self.last_msg_id,
            },
            pending_publish_txs: self.pending_publishes(),
            queued_messages: self.pending_publishes(),
            turn_to_write_slots: timeframe_of(self.channel_state),
            posting_timeout_slots: match self.channel_state {
                Some(channel) => Some(channel.posting_timeout),
                None => None,
            },
            accredited_key_count: match self.channel_state {
                Some(channel) => Some(channel.accredited_keys@.len() as usize),
                None => None,
            },
        }
    }

    /// What a sweep posts: nothing while one is being posted, or before a tip
    /// is known.
    pub open spec fn sweep_at(self, moment: Moment) -> Seq<(TxHash, SignedOps)> {
        match (self.resubmit_active, self.state, self.current_tip) {
            (false, Some(m), Some(tip)) => sweep(
                m,
                tip,
                self.posting,
                self.may_publish(moment),
                self.config.max_pending_publish_depth,
            ),
            _ => Seq::empty(),
        }
    }

    /// A sweep on its way.
    pub open spec fn with_sweep(self, batch: Seq<(TxHash, SignedOps)>) -> SequencerModel {
        if batch.len() == 0 {
            self
        } else {
            SequencerModel {
                posting: self.posting.union(batch_hashes(batch)),
                resubmit_active: true,
                ..self
            }
        }
    }

    /// Whether the turn becomes ours.
    pub open spec fn turn_begins(self, turn_to_write: bool) -> bool {
        turn_to_write && !self.turn.our_turn_to_write
    }

    /// What a change of the turn posts: when the turn becomes ours, what
    /// accumulated until now.
    pub open spec fn posts_on_turn(self, turn_to_write: bool, moment: Moment) -> Seq<
        (TxHash, SignedOps),
    > {
        if self.turn_begins(turn_to_write) {
            self.sweep_at(moment)
        } else {
            Seq::empty()
        }
    }

    /// With a turn announced, where it differs from the last one in more than
    /// the slot.
    pub open spec fn with_turn(self, turn_to_write: bool, moment: Moment) -> SequencerModel {
        let turn = notification(turn_to_write, timeframe_of(self.channel_state), moment);
        let swept = self.with_sweep(self.posts_on_turn(turn_to_write, moment));
        SequencerModel {
            turn,
            events: if turn_moved(self.turn, turn) {
                self.events.push(EventModel::TurnNotification { notification: turn })
            } else {
                self.events
            },
            turn_boundary: wakeup(
                self.config.min_slots_remaining_in_turn,
                timeframe_of(self.channel_state),
                self.own_key_index,
                moment,
            ),
            ..swept
        }
    }

    /// Whether it is our turn, as it is announced: never before readiness.
    pub open spec fn announced_turn(self, moment: Moment) -> bool {
        self.ready && self.may_publish(moment)
    }

    /// With the channel view and the turn of a moment.
    pub open spec fn with_view(self, moment: Moment) -> SequencerModel {
        SequencerModel { channel_view: self.view_at(moment), ..self }.with_turn(
            self.announced_turn(moment),
            moment,
        )
    }

    /// What refreshing the view posts.
    pub open spec fn posts_on_view(self, moment: Moment) -> Seq<(TxHash, SignedOps)> {
        self.posts_on_turn(self.announced_turn(moment), moment)
    }

    pub open spec fn source(self, hash: TxHash) -> TxSource {
        match self.state {
            Some(m) => m.source(hash),
            None => TxSource::Other,
        }
    }

    /// With a change of a transaction's status queued. An accepted one is
    /// remembered as ours, the oldest forgotten beyond the limit; a final one
    /// is forgotten; the first post of one is an event.
    pub open spec fn with_status(self, tx_hash: TxHash, status: TxStatus) -> SequencerModel {
        SequencerModel {
            statuses: self.statuses.push(TxStatusUpdate { tx_hash, status }),
            events: if status == TxStatus::PendingMempool {
                self.events.push(EventModel::MempoolPending(tx_hash))
            } else {
                self.events
            },
            state: match self.state {
                None => None,
                Some(m) => if status == TxStatus::AcceptedLocally {
                    Some(
                        StateModel {
                            local: newest(m.local, self.config.max_local_tx_tracking),
                            ..m
                        },
                    )
                } else if status == TxStatus::Finalized(TxSource::Local) {
                    Some(StateModel { local: m.local.filter(other_than(tx_hash)), ..m })
                } else {
                    Some(m)
                },
            },
            ..self
        }
    }

    pub open spec fn with_orphaned(self, txs: Seq<ChannelUpdateTx>) -> SequencerModel
        decreases txs.len(),
    {
        if txs.len() == 0 {
            self
        } else {
            let before = self.with_orphaned(txs.drop_last());
            let hash = txs.last().spec_tx_hash();
            before.with_status(hash, TxStatus::Orphaned(before.source(hash)))
        }
    }

    pub open spec fn with_mined(self, infos: Seq<InscriptionInfo>) -> SequencerModel
        decreases infos.len(),
    {
        if infos.len() == 0 {
            self
        } else {
            let before = self.with_mined(infos.drop_last());
            let hash = infos.last().tx_hash;
            before.with_status(hash, TxStatus::OnChain(before.source(hash)))
        }
    }

    pub open spec fn with_finalized(self, txs: Seq<FinalizedTx>) -> SequencerModel
        decreases txs.len(),
    {
        if txs.len() == 0 {
            self
        } else {
            let before = self.with_finalized(txs.drop_last());
            let hash = txs.last().tx_hash;
            before.with_status(hash, TxStatus::Finalized(before.source(hash)))
        }
    }

    /// The statuses that a block brings: orphaned, then mined, then final.
    pub open spec fn with_block_statuses(
        self,
        orphaned: Seq<ChannelUpdateTx>,
        finalized: Seq<FinalizedTx>,
        mined: Seq<InscriptionInfo>,
    ) -> SequencerModel {
        self.with_orphaned(orphaned).with_mined(mined).with_finalized(finalized)
    }

    /// The change of the view that a processed block brings.
    pub open spec fn block_change(
        self,
        update: Option<UpdateModel>,
        common_prefix: Seq<ChannelUpdateTx>,
    ) -> ViewChange {
        match (self.state, self.current_tip) {
            (Some(m), Some(tip)) => outcome(
                m,
                tip,
                self.last_msg_id,
                self.channel_id,
                update,
                common_prefix,
            ).change,
            _ => change_of(
                common_prefix,
                adopted_of(update),
                merged(Seq::empty(), orphaned_of(update)),
            ),
        }
    }

    /// The sequencer once a processed block's shed passes ran.
    pub open spec fn after_result(
        self,
        update: Option<UpdateModel>,
        common_prefix: Seq<ChannelUpdateTx>,
    ) -> SequencerModel {
        match (self.state, self.current_tip) {
            (Some(m), Some(tip)) => {
                let o = outcome(m, tip, self.last_msg_id, self.channel_id, update, common_prefix);
                SequencerModel { state: Some(o.state), last_msg_id: o.last_msg_id, ..self }
            },
            _ => self,
        }
    }

    /// A stored checkpoint captures the state; there is none without a state.
    pub open spec fn checkpoint_is_current(self) -> bool {
        match (self.state, self.checkpoint) {
            (None, None) => true,
            (Some(m), Some(checkpoint)) => checkpoint.captures(m, self.last_msg_id, self.lib_slot),
            _ => false,
        }
    }

    /// With a checkpoint stored.
    pub open spec fn with_checkpoint(self, checkpoint: Option<CheckpointModel>) -> SequencerModel {
        SequencerModel { checkpoint, ..self }
    }

    /// Whether a processed block makes the sequencer ready.
    pub open spec fn becomes_ready(self) -> bool {
        !self.ready && self.backfill_from is None && self.backfill_to is None
    }

    /// The sequencer once a block is processed, before the view is refreshed.
    pub open spec fn after_block(
        self,
        update: Option<UpdateModel>,
        common_prefix: Seq<ChannelUpdateTx>,
        deposits: Seq<DepositInfo>,
        finalized: Seq<FinalizedTx>,
        mined: Seq<InscriptionInfo>,
        checkpoint: Option<CheckpointModel>,
    ) -> SequencerModel {
        let live = SequencerModel {
            connected: true,
            ready: self.ready || self.becomes_ready(),
            ..self
        };
        let change = live.block_change(update, common_prefix);
        let told = live.after_result(update, common_prefix).with_block_statuses(
            change.orphans(),
            finalized,
            mined,
        ).with_checkpoint(checkpoint);
        match checkpoint {
            None => told,
            Some(checkpoint) => SequencerModel {
                events: told.events.push(
                    EventModel::BlocksProcessed {
                        checkpoint,
                        channel_update: change,
                        deposits,
                        finalized,
                    },
                ),
                ..told
            },
        }
    }

    /// Whether readiness is announced: it begins, or a reconnect is complete.
    pub open spec fn announces_ready(self) -> bool {
        self.becomes_ready() || (!self.connected && self.ready)
    }

    /// With the oldest event taken.
    pub open spec fn without_first_event(self) -> SequencerModel {
        if self.events.len() == 0 {
            self
        } else {
            SequencerModel { events: self.events.drop_first(), ..self }
        }
    }

    pub open spec fn first_event(self) -> Option<EventModel> {
        if self.events.len() == 0 {
            None
        } else {
            Some(self.events[0])
        }
    }

    /// With one post done. A first post that went through is announced.
    pub open spec fn with_post(self, tx_hash: TxHash, success: bool) -> SequencerModel {
        let done = SequencerModel { posting: self.posting.remove(tx_hash), ..self };
        match self.state {
            Some(m) => if success && m.pending.contains_key(tx_hash) {
                let marked = SequencerModel { state: Some(m.mark_posted(tx_hash)), ..done };
                if m.pending[tx_hash].posted {
                    marked
                } else {
                    marked.with_status(tx_hash, TxStatus::PendingMempool)
                }
            } else {
                done
            },
            None => done,
        }
    }

    pub open spec fn with_posts(self, results: Seq<(TxHash, bool)>) -> SequencerModel
        decreases results.len(),
    {
        if results.len() == 0 {
            self
        } else {
            self.with_posts(results.drop_last()).with_post(results.last().0, results.last().1)
        }
    }

    /// With a batch of finalized history settled up to `to`.
    pub open spec fn with_batch(
        self,
        hashes: Seq<TxHash>,
        items: Seq<FinalizedTx>,
        to: Slot,
    ) -> SequencerModel {
        SequencerModel {
            backfill_from: Some((to + 1) as u64),
            state: match self.state {
                Some(m) => Some(settle_batch(m, hashes, items)),
                None => None,
            },
            last_msg_id: pointer_after(self.last_msg_id, items),
            lib_slot: to,
            ..self
        }
    }

    /// Without its stream of blocks: the turn is not ours until a block comes in
    /// again.
    pub open spec fn disconnected(self, moment: Moment) -> SequencerModel {
        SequencerModel { connected: false, ..self }.with_turn(false, moment)
    }

    /// Whether finalized history up to a slot is still to be fetched.
    pub open spec fn lacks_history(self, network_lib_slot: Slot) -> bool {
        self.state is Some && (self.backfill_from_genesis || self.lib_slot < network_lib_slot)
    }

    /// With the history up to a slot scheduled, where it is lacking and none is
    /// under way.
    pub open spec fn with_history(self, network_lib_slot: Slot) -> SequencerModel {
        if self.backfill_from is Some || !self.lacks_history(network_lib_slot) {
            self
        } else {
            SequencerModel {
                backfill_from_genesis: false,
                backfill_from: Some(
                    if self.backfill_from_genesis {
                        self.lib_slot
                    } else {
                        (self.lib_slot + 1) as u64
                    },
                ),
                backfill_to: Some(network_lib_slot),
                ..self
            }
        }
    }

    /// What a new message chains from: the channel tip with our pending tail.
    pub open spec fn publish_parent(self) -> MsgId {
        match (self.state, self.current_tip) {
            (Some(m), Some(tip)) => m.publish_parent(tip),
            _ => self.last_msg_id,
        }
    }

    /// What a new config chains from: the mined config tip.
    pub open spec fn config_parent(self) -> MsgId {
        match (self.state, self.current_tip) {
            (Some(m), Some(tip)) => m.config_tip(tip),
            (Some(m), None) => m.finalized_config,
            (None, _) => MsgId::spec_root(),
        }
    }

    /// With a pending transaction accepted: the pointer moves to it where it
    /// moves the tip, and its acceptance is announced.
    pub open spec fn accepted(self, m: StateModel, tx_hash: TxHash, pointer: MsgId) -> SequencerModel {
        SequencerModel { state: Some(m), last_msg_id: pointer, ..self }.with_status(
            tx_hash,
            TxStatus::AcceptedLocally,
        )
    }

    /// Whether a new inscription is posted at once: it is our turn, and there
    /// is room among the publishes that are posted and not mined yet.
    pub open spec fn posts_now(self, moment: Moment) -> bool {
        self.may_publish(moment) && match self.state {
            Some(m) => m.posted().len() < crate::sequencer::resubmit::depth_of(
                self.config.max_pending_publish_depth,
            ),
            None => false,
        }
    }
}

} // verus!
