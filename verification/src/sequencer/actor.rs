//! The steps of the sequencer on what the chain does: blocks, finalized
//! history, completed posts.

use vstd::prelude::*;

use crate::adapter::EventsReply;
use crate::ids::{HeaderId, MsgId, TxHash};
use crate::mantle::{SignedOps, Slot};
use crate::sequencer::backfill::{
    apply_backfill_batch, backfill_range, backfill_step, next_backfill_step, BackfillStep,
};
use crate::sequencer::block_event::{
    all_in_order, apply_finalized, event_failure, event_handled, fetch_and_process_blocks, first_failure,
    handle_block_event, hashes_of_block, items_of_block, prepares_finalized, update_of,
    BlockEventResult, PreparedFinalizedBlock,
};
use crate::sequencer::block_fetch::{BlockEvent, FetchedBlock};
use crate::sequencer::channel_tx::txs_in_order;
use crate::sequencer::events::{Event, EventModel, ViewChange};
use crate::sequencer::sequencer_model::SequencerModel;
use crate::sequencer::slot_clock::SlotClock;
use crate::sequencer::state::lineage::ChannelUpdateInfo;
use crate::sequencer::state::TxState;
use crate::sequencer::state_model::StateModel;
use crate::sequencer::turn::Moment;
use crate::sequencer::types::{
    ChannelState, ChannelUpdate, ChannelUpdateTx, DepositInfo, Error, FinalizedTx,
    InscriptionInfo, TxStatus,
};
use crate::sequencer::updates::{apply_block_result, change_without_state};
use crate::sequencer::zone_sequencer::ZoneSequencer;
use crate::time::{Instant, SystemTime};

verus! {

/// A clock with a block's slot observed.
pub open spec fn clock_at(clock: Option<SlotClock>, slot: Slot, now: Instant) -> Option<SlotClock> {
    match clock {
        Some(clock) => Some(
            SlotClock { last_observed_slot: slot, last_observed_at: now, ..clock },
        ),
        None => None,
    }
}

/// The position of a key among a channel's accredited ones.
pub open spec fn index_in(s: SequencerModel, channel: Option<ChannelState>) -> Option<u16> {
    match channel {
        Some(channel) => match channel.accredited_keys@.index_of_first(s.own_key) {
            Some(i) => Some(i as u16),
            None => None,
        },
        None => None,
    }
}

impl ZoneSequencer {
    /// Ingests one live block event. `channel` is the channel's state as the
    /// node told it before. On an error nothing changes, and the same event
    /// can be handled again.
    pub fn process_block_event(
        &mut self,
        event: BlockEvent,
        finalized: &[FetchedBlock],
        backfill: Vec<FetchedBlock>,
        live: &EventsReply,
        channel: Option<ChannelState>,
        now: Instant,
    ) -> (res: Result<BlockEventResult, Error>)
        requires
            txs_in_order(event.block.transactions@, old(self)@.channel_id),
            all_in_order(finalized@, old(self)@.channel_id),
            all_in_order(backfill@, old(self)@.channel_id),
        ensures
            match res {
                Ok(result) => {
                    &&& event_failure(event, finalized@, *live, old(self)@.channel_id) is None
                    &&& event_handled(
                        event,
                        finalized@,
                        backfill@,
                        *live,
                        old(self)@.channel_id,
                        (old(self)@.state, old(self)@.current_tip, old(self)@.lib_slot),
                        (final(self)@.state, final(self)@.current_tip, final(self)@.lib_slot),
                        result,
                    )
                    &&& final(self)@ == (SequencerModel {
                        state: final(self)@.state,
                        current_tip: final(self)@.current_tip,
                        lib_slot: final(self)@.lib_slot,
                        slot_clock: clock_at(old(self)@.slot_clock, event.tip_slot, now),
                        channel_state: channel,
                        own_key_index: index_in(old(self)@, channel),
                        ..old(self)@
                    })
                },
                Err(Error::Network(text)) => {
                    &&& event_failure(event, finalized@, *live, old(self)@.channel_id) == Some(
                        text@,
                    )
                    &&& final(self)@ == old(self)@
                },
                Err(_) => false,
            },
    {
        let tip_slot: Slot = event.tip_slot;
        let result = match handle_block_event(
            event,
            finalized,
            backfill,
            live,
            &mut self.state,
            &mut self.current_tip,
            &mut self.lib_slot,
            self.channel_id,
        ) {
            Ok(result) => result,
            Err(err) => {
                assert(self@ =~= old(self)@);
                return Err(err);
            },
        };
        match &mut self.slot_clock {
            Some(clock) => clock.observe_slot(tip_slot, now),
            None => {},
        }
        self.install_channel_state(channel);
        assert(self@ =~= SequencerModel {
            state: self@.state,
            current_tip: self@.current_tip,
            lib_slot: self@.lib_slot,
            slot_clock: clock_at(old(self)@.slot_clock, tip_slot, now),
            channel_state: channel,
            own_key_index: index_in(old(self)@, channel),
            ..old(self)@
        });
        Ok(result)
    }

    /// Marks the sequencer ready once backfill is complete. Returns whether
    /// readiness began.
    pub fn maybe_signal_ready(&mut self) -> (res: bool)
        ensures
            res == old(self)@.becomes_ready(),
            final(self)@ == (SequencerModel {
                ready: old(self)@.ready || old(self)@.becomes_ready(),
                ..old(self)@
            }),
    {
        if self.ready {
            assert(self@ =~= SequencerModel { ready: true, ..old(self)@ });
            return false;
        }
        if self.backfill_from.is_none() && self.backfill_to.is_none() {
            self.ready = true;
            assert(self@ =~= SequencerModel { ready: true, ..old(self)@ });
            true
        } else {
            assert(self@ =~= SequencerModel { ready: false, ..old(self)@ });
            false
        }
    }

    /// Runs the shed passes of a processed block, and returns the consumer's
    /// channel update.
    pub fn apply_block_result(
        &mut self,
        update: Option<ChannelUpdateInfo>,
        common_prefix: Vec<ChannelUpdateTx>,
    ) -> (res: ChannelUpdate)
        ensures
            res@ == old(self)@.block_change(update_of(update), common_prefix@),
            final(self)@ == old(self)@.after_result(update_of(update), common_prefix@),
    {
        match (&mut self.state, self.current_tip) {
            (Some(state), Some(tip)) => {
                let (change, pointer) = apply_block_result(
                    state,
                    tip,
                    self.last_msg_id,
                    self.channel_id,
                    update,
                    common_prefix,
                );
                self.last_msg_id = pointer;
                assert(self@ =~= old(self)@.after_result(update_of(update), common_prefix@));
                change
            },
            _ => {
                assert(self@ =~= old(self)@);
                change_without_state(update, common_prefix)
            },
        }
    }

    fn queue_orphaned(&mut self, txs: &[ChannelUpdateTx])
        ensures
            final(self)@ == old(self)@.with_orphaned(txs@),
    {
        let ghost start = self@;
        let mut i: usize = 0;
        while i < txs.len()
            invariant
                i <= txs@.len(),
                self@ == start.with_orphaned(txs@.take(i as int)),
            decreases txs@.len() - i,
        {
            assert(txs@.take(i + 1).drop_last() =~= txs@.take(i as int));
            let tx_hash = txs[i].tx_hash();
            let source = self.tx_source(&tx_hash);
            self.queue_tx_status(tx_hash, TxStatus::Orphaned(source));
            i = i + 1;
        }
        assert(txs@.take(i as int) =~= txs@);
    }

    fn queue_mined(&mut self, infos: &Vec<InscriptionInfo>)
        ensures
            final(self)@ == old(self)@.with_mined(infos@),
    {
        let ghost start = self@;
        let mut i: usize = 0;
        while i < infos.len()
            invariant
                i <= infos@.len(),
                self@ == start.with_mined(infos@.take(i as int)),
            decreases infos@.len() - i,
        {
            assert(infos@.take(i + 1).drop_last() =~= infos@.take(i as int));
            let tx_hash = infos[i].tx_hash;
            let source = self.tx_source(&tx_hash);
            self.queue_tx_status(tx_hash, TxStatus::OnChain(source));
            i = i + 1;
        }
        assert(infos@.take(i as int) =~= infos@);
    }

    fn queue_finalized(&mut self, txs: &Vec<FinalizedTx>)
        ensures
            final(self)@ == old(self)@.with_finalized(txs@),
    {
        let ghost start = self@;
        let mut i: usize = 0;
        while i < txs.len()
            invariant
                i <= txs@.len(),
                self@ == start.with_finalized(txs@.take(i as int)),
            decreases txs@.len() - i,
        {
            assert(txs@.take(i + 1).drop_last() =~= txs@.take(i as int));
            let tx_hash = txs[i].tx_hash;
            let source = self.tx_source(&tx_hash);
            self.queue_tx_status(tx_hash, TxStatus::Finalized(source));
            i = i + 1;
        }
        assert(txs@.take(i as int) =~= txs@);
    }

    /// Queues the statuses that a block brings: orphaned, then mined, then
    /// final. A transaction is on chain when a block carries it, whether or not
    /// it moved the channel's lineage.
    pub fn queue_block_status_events(
        &mut self,
        channel_update: &ChannelUpdate,
        finalized: &Vec<FinalizedTx>,
        mined: &Vec<InscriptionInfo>,
    )
        ensures
            final(self)@ == old(self)@.with_block_statuses(
                channel_update@.orphans(),
                finalized@,
                mined@,
            ),
    {
        assert(channel_update.spec_orphaned() =~= channel_update@.orphans());
        self.queue_orphaned(channel_update.orphaned());
        self.queue_mined(mined);
        self.queue_finalized(finalized);
    }

    /// Turns an ingested block into the public event. The block that makes the
    /// sequencer ready, or completes a reconnect, announces `Ready` first and
    /// keeps its own event for the next step. Returns the event and what is to
    /// be posted.
    pub fn finish_block_processing(&mut self, result: BlockEventResult, moment: &Moment) -> (res: (
        Option<Event>,
        Vec<(TxHash, SignedOps)>,
    ))
        ensures
            ({
                let told = old(self)@.after_block(
                    update_of(result.channel_update),
                    result.common_prefix@,
                    result.deposits@,
                    result.finalized_items@,
                    result.mined_inscriptions@,
                    final(self)@.checkpoint,
                );
                let viewed = told.with_view(*moment);
                &&& told.checkpoint_is_current()
                &&& res.1@ == told.posts_on_view(*moment)
                &&& if old(self)@.announces_ready() {
                    (res.0 matches Some(event) && event@ == EventModel::Ready) && final(self)@
                        == viewed
                } else {
                    final(self)@ == viewed.without_first_event() && match res.0 {
                        Some(event) => viewed.first_event() == Some(event@),
                        None => viewed.first_event() is None,
                    }
                }
            }),
    {
        let announces = self.tell_block(result);
        let ghost told = self@;
        let batch = self.publish_channel_view(moment);
        assert(told.with_view(*moment).checkpoint == told.checkpoint);
        if announces {
            return (Some(Event::Ready), batch);
        }
        (self.pop_event(), batch)
    }

    /// Queues what an ingested block brings. Returns whether readiness is to be
    /// announced.
    fn tell_block(&mut self, result: BlockEventResult) -> (res: bool)
        ensures
            res == old(self)@.announces_ready(),
            final(self)@ == old(self)@.after_block(
                update_of(result.channel_update),
                result.common_prefix@,
                result.deposits@,
                result.finalized_items@,
                result.mined_inscriptions@,
                final(self)@.checkpoint,
            ),
            final(self)@.checkpoint_is_current(),
    {
        let reconnected = !self.connected;
        self.connected = true;
        let became_ready = self.maybe_signal_ready();
        let announces = became_ready || (reconnected && self.ready);
        assert(self@ =~= SequencerModel {
            connected: true,
            ready: old(self)@.ready || old(self)@.becomes_ready(),
            ..old(self)@
        });
        let channel_update = self.apply_block_result(result.channel_update, result.common_prefix);
        self.queue_block_status_events(
            &channel_update,
            &result.finalized_items,
            &result.mined_inscriptions,
        );
        let checkpoint = self.publish_checkpoint();
        if let Some(checkpoint) = checkpoint {
            self.push_event(
                Event::BlocksProcessed {
                    checkpoint,
                    channel_update,
                    deposits: result.deposits,
                    finalized: result.finalized_items,
                },
            );
        }
        announces
    }

    /// Completed posts: they are no longer under way, and a first one that went
    /// through is announced. `swept` says that they were a sweep.
    pub fn posts_completed(&mut self, results: &Vec<(TxHash, bool)>, swept: bool)
        ensures
            final(self)@ == (SequencerModel {
                resubmit_active: old(self)@.resubmit_active && !swept,
                ..old(self)@
            }).with_posts(results@),
    {
        if swept {
            self.resubmit_active = false;
        }
        let ghost start = self@;
        assert(start =~= SequencerModel {
            resubmit_active: old(self)@.resubmit_active && !swept,
            ..old(self)@
        });
        let mut i: usize = 0;
        while i < results.len()
            invariant
                i <= results@.len(),
                self@ == start.with_posts(results@.take(i as int)),
            decreases results@.len() - i,
        {
            assert(results@.take(i + 1).drop_last() =~= results@.take(i as int));
            self.post_completed(results[i].0, results[i].1);
            i = i + 1;
        }
        assert(results@.take(i as int) =~= results@);
    }

    fn post_completed(&mut self, tx_hash: TxHash, success: bool)
        ensures
            final(self)@ == old(self)@.with_post(tx_hash, success),
    {
        let _ = self.posting.remove(&tx_hash);
        let mut first = false;
        if success {
            match &mut self.state {
                Some(state) => {
                    first = state.mark_pending_inscription_posted(&tx_hash);
                },
                None => {},
            }
        }
        let ghost done = SequencerModel {
            posting: old(self)@.posting.remove(tx_hash),
            ..old(self)@
        };
        if first {
            assert(self@ =~= SequencerModel {
                state: Some(old(self)@.state->0.mark_posted(tx_hash)),
                ..done
            });
            self.queue_tx_status(tx_hash, TxStatus::PendingMempool);
        }
        assert(self@ =~= old(self)@.with_post(tx_hash, success));
    }

    /// What the backfill does next. A range that is done is dropped.
    pub fn next_backfill(&mut self) -> (res: BackfillStep)
        ensures
            res == backfill_step(old(self)@.backfill_from, old(self)@.backfill_to),
            final(self)@ == if res == BackfillStep::Exhausted {
                SequencerModel { backfill_from: None, backfill_to: None, ..old(self)@ }
            } else {
                old(self)@
            },
    {
        let step = next_backfill_step(self.backfill_from, self.backfill_to);
        match step {
            BackfillStep::Exhausted => {
                self.backfill_from = None;
                self.backfill_to = None;
            },
            _ => {},
        }
        step
    }

    /// Schedules a backfill up to the network's LIB slot, where one is needed
    /// and none is under way. Returns whether the sequencer is caught up.
    pub fn setup_backfill_range(&mut self, network_lib_slot: Slot) -> (res: bool)
        ensures
            final(self)@ == old(self)@.with_history(network_lib_slot),
            res == (old(self)@.backfill_from is Some || !old(self)@.lacks_history(
                network_lib_slot,
            )),
            ({
                let s = old(self)@;
                if s.state is None || s.backfill_from is Some {
                    res && final(self)@ == s
                } else if s.backfill_from_genesis {
                    !res && final(self)@ == (SequencerModel {
                        backfill_from_genesis: false,
                        backfill_from: Some(s.lib_slot),
                        backfill_to: Some(network_lib_slot),
                        ..s
                    })
                } else if s.lib_slot < network_lib_slot {
                    !res && final(self)@ == (SequencerModel {
                        backfill_from: Some((s.lib_slot + 1) as u64),
                        backfill_to: Some(network_lib_slot),
                        ..s
                    })
                } else {
                    res && final(self)@ == s
                }
            }),
    {
        if self.state.is_none() || self.backfill_from.is_some() {
            return true;
        }
        let range = backfill_range(self.backfill_from_genesis, self.lib_slot, network_lib_slot);
        self.backfill_from_genesis = false;
        match range {
            Some((from, to)) => {
                self.backfill_from = Some(from);
                self.backfill_to = Some(to);
                false
            },
            None => true,
        }
    }

    /// Settles one batch of finalized history, up to the slot `to`. On an error
    /// nothing changes, and the same slots come next again. A batch without
    /// channel transactions is an event too.
    pub fn process_incremental_backfill(&mut self, fetched: &[FetchedBlock], to: Slot) -> (res:
        Result<Event, Error>)
        requires
            old(self)@.state is Some,
            to < u64::MAX,
            all_in_order(fetched@, old(self)@.channel_id),
        ensures
            match res {
                Ok(event) => {
                    &&& first_failure(fetched@, old(self)@.channel_id) is None
                    &&& batch_settled(old(self)@, fetched@, to, event@, final(self)@)
                },
                Err(Error::Network(text)) => {
                    &&& first_failure(fetched@, old(self)@.channel_id) == Some(text@)
                    &&& final(self)@ == old(self)@
                },
                Err(_) => false,
            },
    {
        let channel_id = self.channel_id;
        let ghost before = self@;
        let mut taken: Option<TxState> = None;
        std::mem::swap(&mut taken, &mut self.state);
        let mut state = taken.unwrap();
        assert(before.state == Some(state@));
        let ghost m = state@;
        let batch = match fetch_and_process_blocks(&mut state, fetched, channel_id) {
            Ok(batch) => batch,
            Err(err) => {
                self.state = Some(state);
                assert(self@ =~= before);
                return Err(err);
            },
        };
        let ghost blocks = choose|blocks: Seq<PreparedFinalizedBlock>|
            {
                &&& blocks.len() == fetched@.len()
                &&& forall|i: int|
                    0 <= i < fetched@.len() ==> prepares_finalized(
                        #[trigger] blocks[i],
                        fetched@[i],
                        channel_id,
                        Some(m),
                    )
                &&& state@ == #[trigger] apply_finalized(m, blocks)
                &&& batch.our_tx_hashes@ == blocks.flat_map(hashes_of_block())
                &&& batch.items@ == blocks.flat_map(items_of_block())
            };
        let ghost processed = state@;
        self.last_msg_id = apply_backfill_batch(&mut state, self.last_msg_id, &batch);
        self.state = Some(state);
        self.backfill_from = Some(to + 1);
        self.lib_slot = to;
        let ghost settled = SequencerModel { state: Some(processed), ..before }.with_batch(
            batch.our_tx_hashes@,
            batch.items@,
            to,
        );
        assert(self@ =~= settled);
        let checkpoint = self.publish_checkpoint().unwrap();
        let adopted: Vec<ChannelUpdateTx> = Vec::new();
        assert(adopted@ =~= Seq::empty());
        let deposits: Vec<DepositInfo> = Vec::new();
        assert(deposits@ =~= Seq::empty());
        let event = Event::BlocksProcessed {
            checkpoint,
            channel_update: ChannelUpdate::Extension { adopted },
            deposits,
            finalized: batch.items,
        };
        assert(settles(before, fetched@, blocks, to, event@, self@));
        Ok(event)
    }

    /// What is learnt on connecting: the channel's state, the slot clock, and
    /// on a cold start the LIB to start from. Without a configured chain start,
    /// the clock goes by the observed slot alone.
    pub fn init_state(
        &mut self,
        lib: HeaderId,
        channel: Option<ChannelState>,
        observed_slot: Slot,
        system_now: SystemTime,
        now: Instant,
    )
        requires
            old(self)@.config.chain_start_time matches Some(start) ==> start.valid(),
            system_now.valid(),
            now.valid(),
        ensures
            final(self)@ == (SequencerModel {
                state: match old(self)@.state {
                    Some(m) => Some(m),
                    None => Some(StateModel::new(lib, MsgId::spec_root())),
                },
                channel_state: channel,
                own_key_index: index_in(old(self)@, channel),
                slot_clock: Some(
                    SlotClock {
                        slot_duration: old(self)@.config.slot_duration,
                        chain_start_time: old(self)@.config.chain_start_time,
                        last_observed_slot: observed_slot,
                        last_observed_at: now,
                    },
                ),
                ..old(self)@
            }),
            final(self)@.slot_clock matches Some(clock) && clock.valid(),
    {
        self.install_channel_state(channel);
        if self.state.is_none() {
            self.state = Some(TxState::new(lib, MsgId::root()));
        }
        let clock = match self.config.chain_start_time {
            Some(start) => {
                let mut clock = SlotClock::from_chain_start_time(
                    start,
                    self.config.slot_duration,
                    system_now,
                    now,
                );
                clock.observe_slot(observed_slot, now);
                clock
            },
            None => SlotClock::from_observed_slot(observed_slot, self.config.slot_duration, now),
        };
        self.slot_clock = Some(clock);
    }
}

/// What settling given blocks of finalized history makes of the sequencer, and
/// the event it brings.
pub open spec fn settles(
    before: SequencerModel,
    fetched: Seq<FetchedBlock>,
    blocks: Seq<PreparedFinalizedBlock>,
    to: Slot,
    event: EventModel,
    after: SequencerModel,
) -> bool {
    let m = before.state->0;
    let items = blocks.flat_map(items_of_block());
    &&& blocks.len() == fetched.len()
    &&& forall|i: int|
        0 <= i < fetched.len() ==> prepares_finalized(
            #[trigger] blocks[i],
            fetched[i],
            before.channel_id,
            Some(m),
        )
    &&& after == SequencerModel { state: Some(apply_finalized(m, blocks)), ..before }.with_batch(
        blocks.flat_map(hashes_of_block()),
        items,
        to,
    ).with_checkpoint(after.checkpoint)
    &&& after.checkpoint_is_current()
    &&& event == EventModel::BlocksProcessed {
        checkpoint: after.checkpoint->0,
        channel_update: ViewChange::Extension { adopted: Seq::empty() },
        deposits: Seq::empty(),
        finalized: items,
    }
}

/// What settling a batch of finalized history makes of the sequencer.
pub open spec fn batch_settled(
    before: SequencerModel,
    fetched: Seq<FetchedBlock>,
    to: Slot,
    event: EventModel,
    after: SequencerModel,
) -> bool {
    exists|blocks: Seq<PreparedFinalizedBlock>| #[trigger]
        settles(before, fetched, blocks, to, event, after)
}

} // verus!
