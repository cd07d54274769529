//! What holds of the sequencer's steps: connecting and catching up, taking
//! requests, posting, and what its consumer sees of them.

use vstd::prelude::*;

use crate::ids::{ChannelId, MsgId, TxHash};
use crate::mantle::{Inscription, Op, OpProof, SignedOps, Slot};
use crate::sequencer::actor::{batch_settled, clock_at, index_in, settles};
use crate::sequencer::block_event::{items_of_block, prepares_finalized, PreparedFinalizedBlock};
use crate::sequencer::block_fetch::FetchedBlock;
use crate::sequencer::checkpoint::{
    continues, first_parent_outside, id_of, inscription_on, newest, pending_entry,
    pending_inscriptions, pending_root, refusal, restored_state, with_all_pending, with_pending,
    withdraw_on,
};
use crate::sequencer::drive::{stepped, Step};
use crate::sequencer::events::{EventModel, ViewChange};
use crate::sequencer::pending_laws::lemma_flat_map_has;
use crate::sequencer::publish::{accepts, PublishReceipt};
use crate::sequencer::requests::{message_published, Made, Published};
use crate::sequencer::resubmit::depth_of;
use crate::sequencer::sequencer_model::SequencerModel;
use crate::sequencer::shape_laws::{
    count, law_finalized_items_keep_the_order, lemma_read, touches, withdraws, writes,
};
use crate::sequencer::slot_clock::SlotClock;
use crate::sequencer::state_laws::lemma_filter_member;
use crate::sequencer::state_model::StateModel;
use crate::sequencer::turn::{timeframe_of, Moment};
use crate::sequencer::types::{
    ChannelState, Error, FinalizedTx, PublishedTx, SequencerCheckpoint, TxSource, TxStatus,
    TxStatusUpdate,
};
use crate::time::{Instant, SystemTime};

verus! {

// Catching up.

/// History is scheduled where it is lacking and none is under way: from the slot
/// behind what is settled, on a cold start from that slot itself, up to the
/// network's LIB. It is not scheduled again from the start.
pub proof fn law_history_starts_behind_what_is_settled(s: SequencerModel, network_lib_slot: Slot)
    requires
        s.state is Some,
        s.backfill_from is None,
    ensures
        ({
            let n = s.with_history(network_lib_slot);
            &&& s.backfill_from_genesis ==> n.backfill_from == Some(s.lib_slot) && n.backfill_to
                == Some(network_lib_slot) && !n.backfill_from_genesis
            &&& !s.backfill_from_genesis && s.lib_slot < network_lib_slot ==> (n.backfill_from
                matches Some(from) && from == s.lib_slot + 1) && n.backfill_to == Some(
                network_lib_slot,
            )
            &&& !s.backfill_from_genesis && s.lib_slot >= network_lib_slot ==> n == s
            &&& n.with_history(network_lib_slot) == n
            &&& n.state == s.state && n.lib_slot == s.lib_slot && n.events == s.events
        }),
{
}

/// Readiness begins with a block once no history is left to fetch, and is
/// announced then, and again when a ready sequencer is connected anew.
pub proof fn law_readiness_waits_for_history(s: SequencerModel)
    ensures
        s.backfill_from is Some || s.backfill_to is Some ==> !s.becomes_ready(),
        !s.ready && s.backfill_from is None && s.backfill_to is None ==> s.becomes_ready(),
        s.ready ==> !s.becomes_ready() && s.announces_ready() == !s.connected,
        !s.ready ==> s.announces_ready() == s.becomes_ready(),
{
}

/// A settled batch of history moves the sequencer to its last slot, tells every
/// transaction of it that does something to the channel, with the slot of its
/// block, and nothing else; what waits to be told or posted stays as it is.
pub proof fn law_settled_batch_is_told_whole(
    before: SequencerModel,
    fetched: Seq<FetchedBlock>,
    to: Slot,
    event: EventModel,
    after: SequencerModel,
    k: int,
    j: int,
)
    requires
        batch_settled(before, fetched, to, event, after),
        to < u64::MAX,
    ensures
        after.lib_slot == to,
        after.backfill_from matches Some(from) && from == to + 1,
        after.backfill_to == before.backfill_to,
        after.events == before.events,
        after.statuses == before.statuses,
        after.posting == before.posting,
        after.ready == before.ready,
        event matches EventModel::BlocksProcessed {
            checkpoint,
            channel_update,
            deposits,
            finalized,
        } && {
            &&& after.checkpoint == Some(checkpoint)
            &&& channel_update == (ViewChange::Extension { adopted: Seq::empty() })
            &&& deposits.len() == 0
            &&& 0 <= k < fetched.len() && 0 <= j < fetched[k].block.transactions@.len() && touches(
                before.channel_id,
            )(fetched[k].block.transactions@[j]) ==> tells(
                finalized,
                fetched[k].block.transactions@[j].hash,
                fetched[k].block.slot,
            )
        },
{
    let blocks = choose|blocks: Seq<PreparedFinalizedBlock>| #[trigger]
        settles(before, fetched, blocks, to, event, after);
    let items = blocks.flat_map(items_of_block());
    if 0 <= k < fetched.len() && 0 <= j < fetched[k].block.transactions@.len() && touches(
        before.channel_id,
    )(fetched[k].block.transactions@[j]) {
        let block = fetched[k].block;
        let txs = block.transactions@;
        assert(prepares_finalized(blocks[k], fetched[k], before.channel_id, Some(before.state->0)));
        let events = crate::adapter::deposit_lookup(
            block.id,
            txs,
            before.channel_id,
            fetched[k].events,
        )->Ok_0;
        law_finalized_items_keep_the_order(txs, before.channel_id, block.slot, events, j);
        crate::sequencer::shape_laws::law_finalized_item_lists_the_ops(
            txs[j],
            before.channel_id,
            block.slot,
            events,
            0,
        );
        let at = count(txs.take(j), touches(before.channel_id)) as int;
        let item = blocks[k].items@[at];
        assert(items_of_block()(blocks[k]).contains(item));
        lemma_flat_map_has(blocks, items_of_block(), item);
        let i = items.index_of(item);
        assert(items[i].tx_hash == txs[j].hash && items[i].l1_slot == block.slot);
    }
}

/// A list has a transaction, at a slot.
pub open spec fn tells(items: Seq<FinalizedTx>, hash: TxHash, slot: Slot) -> bool {
    exists|i: int|
        0 <= i < items.len() && (#[trigger] items[i]).tx_hash == hash && items[i].l1_slot == slot
}

/// The steps have their order: what waits to be told goes first and oldest
/// first; then history, batch by batch, before any block; then a block in hand,
/// before the stream is waited for; and the stream is opened only once the
/// sequencer knows its state and its clock.
pub proof fn law_steps_come_in_order(
    before: SequencerModel,
    retained: bool,
    stream_open: bool,
    step: Step,
    after: SequencerModel,
)
    requires
        stepped(before, retained, stream_open, step, after),
    ensures
        before.events.len() > 0 <==> step is Emit,
        step matches Step::Emit(event) ==> event@ == before.events[0] && after.events
            == before.events.skip(1),
        step !is Emit ==> after.events == before.events,
        step matches Step::Backfill { from, to } ==> before.backfill_from == Some(from) && (
        before.backfill_to matches Some(end) && from <= to <= end) && after == before,
        step is ProcessBlock ==> retained && (before.backfill_from is None
            || before.backfill_to is None || before.backfill_from->0 > before.backfill_to->0),
        step is Wait ==> !retained && stream_open,
        step is OpenStream ==> !retained && !stream_open && before.state is Some
            && before.slot_clock is Some,
        step is Initialize ==> !retained && !stream_open && (before.state is None
            || before.slot_clock is None),
        after.state == before.state,
{
    if before.events.len() > 0 {
        assert(before.events.drop_first() =~= before.events.skip(1));
    }
}

// The channel's state.

/// Our index is the first place where our key stands among the accredited ones,
/// none where it does not, or where there is no channel.
pub proof fn law_own_index_is_our_first_place(
    s: SequencerModel,
    channel: Option<ChannelState>,
    i: int,
)
    requires
        channel matches Some(channel) ==> channel.accredited_keys@.len() <= u16::MAX,
    ensures
        channel is None ==> index_in(s, channel) is None,
        channel matches Some(state) ==> {
            let keys = state.accredited_keys@;
            &&& 0 <= i < keys.len() && keys[i] == s.own_key && (forall|j: int|
                0 <= j < i ==> #[trigger] keys[j] != s.own_key) ==> (index_in(s, channel) matches
                Some(index) && index == i)
            &&& (forall|j: int| 0 <= j < keys.len() ==> #[trigger] keys[j] != s.own_key)
                ==> index_in(s, channel) is None
        },
{
    if let Some(state) = channel {
        let keys = state.accredited_keys@;
        keys.index_of_first_ensures(s.own_key);
        if 0 <= i < keys.len() && keys[i] == s.own_key {
            assert(keys.contains(keys[i]));
        }
    }
}

/// A clock that saw a slot shows it at once, where it does not already run ahead
/// of it by the chain's start.
pub proof fn law_observed_slot_is_shown(
    clock: SlotClock,
    slot: Slot,
    system_now: SystemTime,
    now: Instant,
)
    requires
        clock.slot_duration.nanos > 0,
    ensures
        clock_at(Some(clock), slot, now) matches Some(seen) && seen.slot_at(system_now, now)
            >= slot && (clock.chain_start_time is None ==> seen.slot_at(system_now, now) == slot),
        clock_at(None, slot, now) is None,
{
    let seen = clock_at(Some(clock), slot, now)->0;
    let d = clock.slot_duration.nanos as nat;
    assert(0nat / d == 0) by (nonlinear_arith)
        requires
            d > 0,
    ;
}

// Requests.

/// An accepted transaction is announced as accepted, moves the pointer as given,
/// is under way exactly where it is posted at once, and is in the checkpoint
/// that its receipt carries. It is remembered as ours, as far as the limit
/// goes.
pub proof fn law_accepted_is_announced_and_saved(
    s: SequencerModel,
    m: StateModel,
    tx_hash: TxHash,
    pointer: MsgId,
    post: bool,
    receipt: PublishReceipt,
    after: SequencerModel,
)
    requires
        accepts(s, m, tx_hash, pointer, post, receipt, after),
        m.local.len() > 0 && m.local.last() == tx_hash,
        s.config.max_local_tx_tracking > 0,
    ensures
        receipt.inscription_id == tx_hash,
        receipt.post == post,
        after.last_msg_id == pointer,
        after.posting.contains(tx_hash) <==> post || s.posting.contains(tx_hash),
        after.statuses == s.statuses.push(
            TxStatusUpdate { tx_hash, status: TxStatus::AcceptedLocally },
        ),
        after.events == s.events,
        after.state matches Some(n) && {
            &&& n.pending == m.pending && n.other == m.other && n.by_parent == m.by_parent
            &&& n.local.last() == tx_hash && n.local.len() <= s.config.max_local_tx_tracking
            &&& n.source(tx_hash) is Local
            &&& receipt.checkpoint@.captures(n, pointer, s.lib_slot)
        },
{
    let n = after.state->0;
    let k = m.local.len() as int;
    law_newest_are_the_last(m.local, s.config.max_local_tx_tracking, k - 1);
    assert(n.local == newest(m.local, s.config.max_local_tx_tracking));
    assert(n.local.contains(n.local.last()));
}

/// The newest of a list are its last ones, in order, as many as there may be.
pub proof fn law_newest_are_the_last(list: Seq<TxHash>, max: usize, i: int)
    ensures
        ({
            let kept = newest(list, max);
            &&& kept.len() == if list.len() <= max {
                list.len()
            } else {
                max as nat
            }
            &&& list.len() - kept.len() <= i < list.len() ==> kept[i - (list.len() - kept.len())]
                == list[i]
        }),
{
}

/// A published message is one inscription of ours that continues what the next
/// publish was to continue, signed once; it is pending, not posted yet, and the
/// pointer moves to it. A refused one changes nothing.
pub proof fn law_published_message_continues_the_chain(
    before: SequencerModel,
    data: Inscription,
    made: Made,
    moment: Moment,
    res: Result<Published, Error>,
    after: SequencerModel,
)
    requires
        before.state is Some,
        message_published(before, data, made, moment, res, after),
    ensures
        res is Err ==> after == before && before.state->0.child(before.publish_parent()) is Some,
        res is Err <==> before.state->0.taken(before.publish_parent(), made.tx_hash) is Some,
        res matches Ok(published) ==> {
            let tx = published.signed_tx;
            &&& tx.hash == made.tx_hash
            &&& tx.ops@.len() == 1 && tx.proofs@.len() == 1
            &&& tx.ops@[0] matches Op::ChannelInscribe(inscribe) && inscribe.channel_id
                == before.channel_id && inscribe.parent == before.publish_parent()
                && inscribe.inscription == data && inscribe.signer == before.own_key
                && inscribe.id == made.msg_id
            &&& tx.proofs@[0] == OpProof::Ed25519Sig(made.signature)
            &&& published.tx matches PublishedTx::Inscription(info) && info.tx_hash == tx.hash
                && info.parent_msg == before.publish_parent() && info.this_msg == made.msg_id
                && info.payload == data && info.signer == Some(before.own_key)
            &&& after.last_msg_id == made.msg_id
            &&& published.receipt.post == (before.may_publish(moment)
                && before.state->0.posted().len() < depth_of(
                before.config.max_pending_publish_depth,
            ))
            &&& after.state matches Some(n) && n.pending.contains_key(made.tx_hash) && {
                let held = n.pending[made.tx_hash];
                &&& held.signed_tx == tx && !held.posted && held.bundle is Plain
                &&& held.parent_msg == before.publish_parent() && held.this_msg == made.msg_id
                &&& held.payload == data
                &&& n.child(before.publish_parent()) == Some(made.tx_hash)
            }
            &&& forall|hash: TxHash|
                hash != made.tx_hash ==> (after.state->0.pending.contains_key(hash) <==>
                    #[trigger] before.state->0.pending.contains_key(hash))
        },
{
}

/// There is room for at least one post that is not mined yet, and for as many as
/// is configured.
pub proof fn law_depth_is_as_configured(max_depth: usize)
    ensures
        depth_of(max_depth) >= 1,
        max_depth > 0 ==> depth_of(max_depth) == max_depth,
{
}

// Posting.

/// The first post of a pending inscription that goes through marks it and is
/// announced, as a status and as an event; a repeated or a failed one is not,
/// and marks nothing new.
pub proof fn law_first_post_is_announced_once(s: SequencerModel, hash: TxHash, other: TxHash)
    requires
        s.state matches Some(m) && m.pending.contains_key(hash),
    ensures
        ({
            let m = s.state->0;
            let done = s.with_post(hash, true);
            let failed = s.with_post(hash, false);
            let again = done.with_post(hash, true);
            &&& !m.pending[hash].posted ==> done.events == s.events.push(
                EventModel::MempoolPending(hash),
            ) && done.statuses == s.statuses.push(
                TxStatusUpdate { tx_hash: hash, status: TxStatus::PendingMempool },
            )
            &&& m.pending[hash].posted ==> done.events == s.events && done.statuses == s.statuses
            &&& again.events == done.events && again.statuses == done.statuses
            &&& failed.events == s.events && failed.statuses == s.statuses && failed.state
                == s.state
            &&& done.posting == s.posting.remove(hash) && failed.posting == s.posting.remove(hash)
            &&& done.state matches Some(n) && n.pending[hash].posted && n.pending.dom()
                == m.pending.dom() && n.pending[hash].signed_tx == m.pending[hash].signed_tx && (
            other != hash && m.pending.contains_key(other) ==> n.pending[other]
                == m.pending[other]) && n.by_parent == m.by_parent && n.other == m.other
        }),
{
    let m = s.state->0;
    assert(m.mark_posted(hash).pending.dom() =~= m.pending.dom());
}

// Statuses.

/// A final status forgets our transaction, acceptance keeps the newest of ours,
/// and no other status changes what is held; each is queued behind the others.
pub proof fn law_status_is_queued_and_remembered(
    s: SequencerModel,
    hash: TxHash,
    status: TxStatus,
    other: TxHash,
)
    ensures
        ({
            let n = s.with_status(hash, status);
            &&& n.statuses == s.statuses.push(TxStatusUpdate { tx_hash: hash, status })
            &&& n.events == if status is PendingMempool {
                s.events.push(EventModel::MempoolPending(hash))
            } else {
                s.events
            }
            &&& s.state is Some <==> n.state is Some
            &&& s.state matches Some(m) ==> {
                let k = n.state->0;
                &&& k.pending == m.pending && k.other == m.other && k.by_parent == m.by_parent
                &&& status is Orphaned || status is OnChain || status is PendingMempool ==> k == m
                &&& status == TxStatus::Finalized(TxSource::Local) ==> (k.local.contains(other)
                    <==> m.local.contains(other) && other != hash)
            }
        }),
{
    if let Some(m) = s.state {
        lemma_filter_member(m.local, crate::collections::other_than(hash), other);
    }
}

// The view.

/// What consumers see of the channel is what is known of it: the channel as it
/// was installed with its tip, who may write now, and how many inscriptions are
/// pending. Without a channel the tip is where our own chain stands.
pub proof fn law_view_shows_what_is_known(s: SequencerModel, moment: Moment)
    ensures
        ({
            let view = s.with_view(moment).channel_view;
            &&& view.channel_id == s.channel_id
            &&& view.channel == s.channel_state
            &&& view.own_key_index == s.own_key_index
            &&& view.our_turn_to_write == s.may_publish(moment)
            &&& s.channel_state matches Some(channel) ==> view.tip_message == channel.tip_message
                && view.posting_timeout_slots == Some(channel.posting_timeout)
            &&& s.channel_state is None ==> view.tip_message == s.last_msg_id
                && view.authorized_key_index is None && view.posting_timeout_slots is None
                && view.accredited_key_count is None
            &&& s.channel_state is Some ==> (moment.rotation matches Some(rotation)
                ==> view.authorized_key_index == Some(rotation.authorized_key_index))
            &&& view.turn_to_write_slots == timeframe_of(s.channel_state)
            &&& moment.current_slot matches Some(slot) ==> view.current_slot == slot
            &&& view.queued_messages == view.pending_publish_txs
            &&& s.state is Some && s.state->0.pending.len() <= usize::MAX
                ==> view.pending_publish_txs == s.state->0.pending.len()
            &&& s.state is None ==> view.pending_publish_txs == 0
        }),
{
}

/// A turn is told where it differs from the last one told, once; when it
/// becomes ours, what is due is posted along.
pub proof fn law_turn_is_told_when_it_moves(s: SequencerModel, turn_to_write: bool, moment: Moment)
    ensures
        ({
            let n = s.with_turn(turn_to_write, moment);
            &&& n.turn.our_turn_to_write == turn_to_write
            &&& n.events == s.events || (n.events == s.events.push(
                EventModel::TurnNotification { notification: n.turn },
            ))
            &&& turn_to_write != s.turn.our_turn_to_write ==> n.events.len() == s.events.len() + 1
            &&& n.with_turn(turn_to_write, moment).events == n.events
            &&& turn_to_write && !s.turn.our_turn_to_write ==> s.posts_on_turn(
                turn_to_write,
                moment,
            ) == s.sweep_at(moment)
            &&& !turn_to_write || s.turn.our_turn_to_write ==> s.posts_on_turn(
                turn_to_write,
                moment,
            ).len() == 0
            &&& n.statuses == s.statuses && n.state == s.state && n.last_msg_id == s.last_msg_id
        }),
{
}

/// A lost stream takes the turn away, and nothing is published until a block
/// comes in again; readiness, what is held and what waits to be told stay, and
/// the lost turn is told where it was ours.
pub proof fn law_lost_stream_takes_the_turn(s: SequencerModel, moment: Moment, later: Moment)
    ensures
        ({
            let n = s.disconnected(moment);
            &&& !n.connected && n.ready == s.ready
            &&& !n.turn.our_turn_to_write
            &&& !n.may_publish(later) && !n.announced_turn(later)
            &&& n.state == s.state && n.posting == s.posting && n.statuses == s.statuses
            &&& s.events.is_prefix_of(n.events)
            &&& s.turn.our_turn_to_write ==> n.events.len() == s.events.len() + 1
                && n.events.last() is TurnNotification
        }),
{
    let n = s.disconnected(moment);
    assert(s.events =~= n.events.take(s.events.len() as int));
}

// Restoring.

proof fn lemma_first_parent_outside(
    inscriptions: Seq<crate::mantle::InscriptionOp>,
    made: Set<MsgId>,
    i: int,
)
    ensures
        0 <= i < inscriptions.len() && !made.contains(inscriptions[i].parent) && (forall|k: int|
            0 <= k < i ==> made.contains((#[trigger] inscriptions[k]).parent))
            ==> first_parent_outside(inscriptions, made) == Some(inscriptions[i].parent),
        (forall|k: int|
            0 <= k < inscriptions.len() ==> made.contains((#[trigger] inscriptions[k]).parent))
            ==> first_parent_outside(inscriptions, made) is None,
    decreases inscriptions.len(),
{
    if inscriptions.len() > 0 {
        let rest = inscriptions.drop_first();
        lemma_first_parent_outside(rest, made, i - 1);
        assert forall|k: int| 0 <= k < rest.len() implies #[trigger] rest[k] == inscriptions[k
            + 1] by {
        }
    }
}

/// What the pending inscriptions continue is the parent of the first of them,
/// in the order they are listed, whose parent none of them writes.
pub proof fn law_pending_root_is_the_first_unwritten_parent(
    pending_txs: Seq<(TxHash, SignedOps)>,
    channel_id: ChannelId,
    i: int,
)
    ensures
        ({
            let all = pending_txs.flat_map(pending_inscriptions(channel_id));
            &&& 0 <= i < all.len() && (forall|j: int|
                0 <= j < all.len() ==> (#[trigger] all[j]).id != all[i].parent) && (forall|k: int|
                0 <= k < i ==> exists|j: int|
                    0 <= j < all.len() && (#[trigger] all[j]).id == (#[trigger] all[k]).parent)
                ==> pending_root(pending_txs, channel_id) == Some(all[i].parent)
            &&& all.len() == 0 ==> pending_root(pending_txs, channel_id) is None
        }),
{
    let all = pending_txs.flat_map(pending_inscriptions(channel_id));
    let ids = all.map_values(id_of());
    let made = ids.to_set();
    lemma_first_parent_outside(all, made, i);
    if 0 <= i < all.len() && (forall|j: int|
        0 <= j < all.len() ==> (#[trigger] all[j]).id != all[i].parent) {
        if made.contains(all[i].parent) {
            let j = ids.index_of(all[i].parent);
            assert(all[j].id == all[i].parent);
        }
    }
    assert forall|k: int|
        0 <= k < all.len() && (exists|j: int|
            0 <= j < all.len() && (#[trigger] all[j]).id == all[k].parent) implies made.contains(
        (#[trigger] all[k]).parent,
    ) by {
        let j = choose|j: int| 0 <= j < all.len() && (#[trigger] all[j]).id == all[k].parent;
        assert(ids[j] == all[k].parent);
        assert(ids.contains(ids[j]));
    }
}

/// A restored transaction is pending by its shape: as an inscription exactly
/// where one of its operations writes a message, as a bundle where others
/// withdraw, with the message that it writes and its parent.
pub proof fn law_restored_transaction_goes_by_its_shape(
    tx: SignedOps,
    channel_id: ChannelId,
    p: int,
)
    ensures
        ({
            let ops = tx.ops@;
            let entry = pending_entry(tx, channel_id);
            &&& entry is Some <==> count(ops, writes(channel_id)) == 1
            &&& entry matches Some(held) ==> {
                &&& held.tx_hash == tx.hash && held.signed_tx == tx && !held.posted
                &&& held.bundle is Plain <==> count(ops, withdraws(channel_id)) == 0
                &&& held.bundle !is PinDeposit
                &&& 0 <= p < ops.len() && writes(channel_id)(ops[p]) ==> (ops[p] matches
                    Op::ChannelInscribe(inscribe) && held.parent_msg == inscribe.parent
                    && held.this_msg == inscribe.id && held.payload == inscribe.inscription)
            }
        }),
{
    let ops = tx.ops@;
    lemma_read(ops, writes(channel_id), inscription_on(channel_id));
    lemma_read(ops, withdraws(channel_id), withdraw_on(channel_id, tx.hash));
    if 0 <= p < ops.len() {
        assert(ops[p] == ops[p]);
    }
}

/// A transaction is refused a place in the pending set exactly where another one
/// continues the same message; otherwise it is held by its bytes and its place
/// is its own.
pub proof fn law_restored_transaction_takes_a_free_place(
    m: StateModel,
    tx: SignedOps,
    channel_id: ChannelId,
)
    ensures
        ({
            let n = with_pending(m, tx, channel_id);
            let place = continues(tx, channel_id);
            let occupied = place matches Some(parent) && (m.child(parent) matches Some(by) && by
                != tx.hash);
            &&& refusal(m, tx, channel_id) is Some <==> occupied
            &&& occupied ==> n == m
            &&& !occupied ==> {
                &&& n.is_tracked(tx.hash)
                &&& place matches Some(parent) ==> n.child(parent) == Some(tx.hash)
                &&& n.local.contains(tx.hash)
            }
        }),
{
    let local = m.track_local(tx.hash);
    if !m.local.contains(tx.hash) {
        assert(local.local[m.local.len() as int] == tx.hash);
    }
}

/// A restored state stands at the message that its pending inscriptions
/// continue; at the checkpoint's last one where nothing is pending.
pub proof fn law_restored_state_stands_where_pending_starts(
    checkpoint: SequencerCheckpoint,
    channel_id: ChannelId,
    max_local: usize,
)
    ensures
        ({
            let m = restored_state(checkpoint, channel_id, max_local);
            &&& m.finalized_msg == match pending_root(checkpoint.pending_txs@, channel_id) {
                Some(msg) => msg,
                None => checkpoint.last_msg_id,
            }
            &&& m.local.len() <= max_local
        }),
{
    let finalized = match pending_root(checkpoint.pending_txs@, channel_id) {
        Some(msg) => msg,
        None => checkpoint.last_msg_id,
    };
    let base = StateModel::new(checkpoint.lib, finalized);
    let start = StateModel {
        finalized_config: checkpoint.finalized_config,
        observed_config_tip: checkpoint.finalized_config,
        wallet: crate::sequencer::channel_wallet::WalletModel {
            base: crate::sequencer::channel_wallet::notes_from(checkpoint.channel_notes@),
            ..base.wallet
        },
        ..base
    };
    lemma_pending_keeps_the_message(start, checkpoint.pending_txs@, channel_id);
}

proof fn lemma_pending_keeps_the_message(
    m: StateModel,
    txs: Seq<(TxHash, SignedOps)>,
    channel_id: ChannelId,
)
    ensures
        with_all_pending(m, txs, channel_id).finalized_msg == m.finalized_msg,
    decreases txs.len(),
{
    if txs.len() > 0 {
        lemma_pending_keeps_the_message(m, txs.drop_last(), channel_id);
    }
}

} // verus!
