//! What a request makes of the sequencer, and what it starts from.

use vstd::prelude::*;

use crate::ids::{ChannelId, Ed25519PublicKey, HeaderId, MsgId, TxHash};
use crate::items::law_items_hold;
use crate::mantle::{Inscription, Op, OpProof, SignedOps};
use crate::sequencer::events::EventModel;
use crate::sequencer::publish::{opaque_accepted, PublishReceipt};
use crate::sequencer::requests::{
    bundle_published, channel_configured, op_of, publish_failure, request_served, ActorRequest,
    Answer, ChannelSettings, Made, Published,
};
use crate::sequencer::resubmit::depth_of;
use crate::sequencer::sequencer_model::SequencerModel;
use crate::sequencer::state_model::{grounded, kept_blocks, OtherModel, PendingBundle, StateModel};
use crate::sequencer::turn::Moment;
use crate::sequencer::tx_builder::outputs_of;
use crate::sequencer::types::{
    ChannelState, Error, PublishedTx, SequencerCheckpoint, SequencerConfig, WithdrawArg,
};
use crate::sequencer::zone_sequencer::{started, ZoneSequencer};

verus! {

/// Before readiness a request changes nothing: a publish is dropped, anything
/// else is rejected. Preparing and signing never change anything.
pub proof fn law_no_request_is_served_before_readiness(
    before: ZoneSequencer,
    request: ActorRequest,
    moment: Moment,
    answer: Answer,
    after: ZoneSequencer,
)
    requires
        request_served(before, request, moment, answer, after),
    ensures
        !before@.ready ==> after@ == before@ && (answer is Dropped || answer is Rejected),
        !before@.ready && (request is PublishMessage || request is PublishAtomicWithdraw)
            ==> answer is Dropped,
        before@.ready ==> !(answer is Dropped),
        request is PrepareTx || request is SignTx ==> after@ == before@,
        before@.ready && request is PublishMessage ==> answer is Published,
        before@.ready && request is PublishAtomicWithdraw ==> answer is Published,
        before@.ready && request is SubmitSignedTx ==> answer is Submitted,
        before@.ready && request is ChannelConfig ==> answer is Configured,
{
}

/// A prepared list of operations is the given ones with our inscription behind
/// them, on what our own chain stands at.
pub proof fn law_prepared_ops_end_with_our_inscription(
    before: ZoneSequencer,
    ops: Vec<Op>,
    msg: Inscription,
    id: MsgId,
    moment: Moment,
    answer: Answer,
    after: ZoneSequencer,
)
    requires
        before@.ready,
        request_served(before, ActorRequest::PrepareTx { ops, msg, id }, moment, answer, after),
    ensures
        answer matches Answer::Prepared(prepared) && {
            &&& prepared@.len() == ops@.len() + 1
            &&& prepared@.drop_last() == ops@
            &&& prepared@.last() matches Op::ChannelInscribe(inscribe) && inscribe.channel_id
                == before@.channel_id && inscribe.parent == before@.last_msg_id
                && inscribe.inscription == msg && inscribe.signer == before@.own_key && inscribe.id
                == id
        },
{
    if let Answer::Prepared(prepared) = answer {
        assert(prepared@.drop_last() =~= ops@);
    }
}

/// Withdraws are published with an inscription as one transaction: the withdraws
/// in the order asked for, paying out what was asked for under consecutive
/// nonces, then the inscription that continues our chain; each withdraw proven
/// by our one signature at our index. The bundle is pending as such.
pub proof fn law_published_bundle_pays_what_was_asked(
    before: SequencerModel,
    data: Inscription,
    withdraws: Seq<WithdrawArg>,
    channel: Result<ChannelState, String>,
    made: Made,
    moment: Moment,
    res: Result<Published, Error>,
    after: SequencerModel,
    i: int,
)
    requires
        before.state is Some,
        bundle_published(before, data, withdraws, channel, made, moment, res, after),
    ensures
        res is Err ==> after == before,
        res is Ok <==> publish_failure(withdraws.len(), channel, before.own_key) is None
            && before.state->0.taken(before.publish_parent(), made.tx_hash) is None,
        res is Ok ==> withdraws.len() > 0 && channel is Ok && channel->Ok_0.transfer_threshold <= 1
            && channel->Ok_0.accredited_keys@.contains(before.own_key)
            && channel->Ok_0.withdrawal_nonce + withdraws.len() <= u32::MAX,
        res matches Ok(published) ==> {
            let tx = published.signed_tx;
            let n = withdraws.len() as int;
            let state = channel->Ok_0;
            &&& tx.hash == made.tx_hash
            &&& tx.ops@.len() == n + 1 && tx.proofs@.len() == n + 1
            &&& tx.ops@[n] matches Op::ChannelInscribe(inscribe) && inscribe.channel_id
                == before.channel_id && inscribe.parent == before.publish_parent()
                && inscribe.inscription == data && inscribe.signer == before.own_key
                && inscribe.id == made.msg_id
            &&& tx.proofs@[n] == OpProof::Ed25519Sig(made.signature)
            &&& 0 <= i < n ==> {
                &&& tx.ops@[i] matches Op::ChannelWithdraw(op) && op.channel_id
                    == before.channel_id && op.outputs == withdraws[i].outputs
                    && op.withdraw_nonce == state.withdrawal_nonce + i
                &&& tx.proofs@[i] matches OpProof::ChannelMultiSigProof(shared) && shared@.len()
                    == 1 && shared@[0].signature == made.signature
            }
            &&& after.last_msg_id == made.msg_id
            &&& published.tx matches PublishedTx::AtomicWithdraw(bundle) && {
                &&& bundle.tx_hash == made.tx_hash
                &&& bundle.inscription.this_msg == made.msg_id && bundle.inscription.payload == data
                &&& bundle.withdraws@.len() == n
                &&& bundle.outputs@ == withdraws.flat_map(outputs_of())
                &&& after.state matches Some(k) && k.pending.contains_key(made.tx_hash) && {
                    let held = k.pending[made.tx_hash];
                    &&& held.signed_tx == tx && !held.posted
                    &&& held.parent_msg == before.publish_parent() && held.this_msg == made.msg_id
                    &&& held.payload == data
                    &&& held.bundle == (PendingBundle::Withdraw {
                        withdraws: bundle.withdraws,
                        outputs: bundle.outputs,
                    })
                }
            }
            &&& published.receipt.post == (before.may_publish(moment)
                && before.state->0.posted().len() < depth_of(
                before.config.max_pending_publish_depth,
            ))
        },
{
    broadcast use law_items_hold;

    if let Ok(state) = channel {
        state.accredited_keys@.index_of_first_ensures(before.own_key);
    }
    if let Ok(published) = res {
        if let PublishedTx::AtomicWithdraw(bundle) = published.tx {
            let ops = bundle.withdraws@.map_values(op_of());
            if 0 <= i < withdraws.len() {
                assert(ops[i].channel_id == before.channel_id);
            }
        }
    }
}

/// The channel is configured by one operation on the config tip, with the
/// settings as given, signed by us at our index where the channel exists and by
/// nobody where it does not; our own chain of messages stands where it stood.
/// It is refused exactly where we alone cannot configure the channel.
pub proof fn law_config_chains_on_the_config_tip(
    before: ZoneSequencer,
    settings: ChannelSettings,
    made: Made,
    res: Result<(SignedOps, PublishReceipt), Error>,
    after: ZoneSequencer,
)
    requires
        before@.state is Some,
        channel_configured(before, settings, made, res, after),
    ensures
        res is Err <==> before@.channel_state is Some && (before@.own_key_index is None
            || before@.channel_state->0.configuration_threshold > 1),
        res is Err ==> after@ == before@,
        res matches Ok((tx, receipt)) ==> {
            &&& tx.hash == made.tx_hash && tx.ops@.len() == 1 && tx.proofs@.len() == 1
            &&& tx.ops@[0] matches Op::ChannelConfig(config) && {
                &&& config.channel == before@.channel_id && config.id == made.msg_id
                &&& config.parent == before@.config_parent()
                &&& config.keys == settings.keys
                &&& config.posting_timeframe == settings.posting_timeframe
                &&& config.posting_timeout == settings.posting_timeout
                &&& config.configuration_threshold == settings.configuration_threshold
                &&& config.transfer_threshold == settings.transfer_threshold
            }
            &&& tx.proofs@[0] matches OpProof::ChannelMultiSigProof(shared) && {
                &&& before@.channel_state is None ==> shared@.len() == 0
                &&& before@.channel_state is Some ==> shared@.len() == 1 && shared@[0].signature
                    == made.signature && Some(shared@[0].channel_key_index)
                    == before@.own_key_index
            }
            &&& receipt.post
            &&& after@.last_msg_id == before@.last_msg_id
            &&& after@.posting.contains(made.tx_hash)
            &&& after@.state matches Some(m) && m.other.contains_key(made.tx_hash)
                && m.other[made.tx_hash].signed_tx == tx && m.other_order.last() == made.tx_hash
        },
{
    if let Ok((tx, receipt)) = res {
        let ops = tx.ops@;
        assert(ops[0] is ChannelConfig);
        let entry = crate::sequencer::state_model::OtherModel::of(tx, before@.channel_id);
        crate::sequencer::shape_laws::law_entries_are_read_off_the_ops(tx, before@.channel_id, 0);
        assert(crate::sequencer::shape_laws::count(
            ops,
            crate::sequencer::shape_laws::writes(before@.channel_id),
        ) == 0) by {
            reveal(Seq::filter);
            assert(ops.drop_last() =~= Seq::empty());
            assert(ops.last() == ops[0]);
        }
        assert(entry.first_parent() is None);
    }
}

/// A signed transaction that is submitted is held by its bytes, posted at once,
/// and moves our chain to the message it was submitted with; it is refused
/// exactly where another pending one continues the message it continues, and then
/// nothing changes.
pub proof fn law_submitted_transaction_is_held_and_posted(
    before: ZoneSequencer,
    tx: SignedOps,
    pointer: MsgId,
    res: Result<PublishReceipt, Error>,
    after: ZoneSequencer,
)
    requires
        before@.state is Some,
        opaque_accepted(before, tx, pointer, res, after),
    ensures
        ({
            let m = before@.state->0;
            let entry = OtherModel::of(tx, before@.channel_id);
            let occupied = entry.infos.len() > 0 && (m.child(entry.infos[0].parent_msg) matches
                Some(by) && by != tx.hash);
            &&& res is Err <==> occupied
            &&& res is Err ==> after@ == before@
            &&& res matches Ok(receipt) ==> {
                &&& receipt.inscription_id == tx.hash && receipt.post
                &&& after@.last_msg_id == pointer
                &&& after@.posting.contains(tx.hash)
                &&& after@.statuses.last().tx_hash == tx.hash
                &&& after@.state matches Some(n) && n.other.contains_key(tx.hash)
                    && n.other[tx.hash] == entry && n.other_order.last() == tx.hash && (
                entry.infos.len() > 0 ==> n.child(entry.infos[0].parent_msg) == Some(tx.hash))
            }
        }),
{
}

/// Events come out in the order in which they went in, one at a time.
pub proof fn law_events_come_out_in_order(s: SequencerModel, event: EventModel)
    ensures
        s.first_event() is None <==> s.events.len() == 0,
        s.events.len() > 0 ==> s.first_event() == Some(s.events[0]) && seq![s.events[0]]
            + s.without_first_event().events == s.events,
        s.events.len() == 0 ==> s.without_first_event() == s,
        s.events.len() > 0 ==> (SequencerModel { events: s.events.push(event), ..s }).first_event()
            == s.first_event(),
{
    if s.events.len() > 0 {
        assert(seq![s.events[0]] + s.without_first_event().events =~= s.events);
    }
}

/// A sequencer starts from its checkpoint: at its last message and LIB slot and
/// with what was pending; without one at the root, with no state, and with the
/// history still to come from the genesis slot. It is neither connected nor
/// ready, and owes nobody an event.
pub proof fn law_start_is_from_the_checkpoint(
    channel_id: ChannelId,
    own_key: Ed25519PublicKey,
    config: SequencerConfig,
    checkpoint: Option<SequencerCheckpoint>,
)
    ensures
        ({
            let s = started(channel_id, own_key, config, checkpoint);
            &&& s.channel_id == channel_id && s.own_key == own_key && s.config == config
            &&& !s.connected && !s.ready && !s.resubmit_active
            &&& s.events.len() == 0 && s.statuses.len() == 0
            &&& s.posting == Set::<TxHash>::empty()
            &&& s.current_tip is None && s.backfill_from is None && s.backfill_to is None
            &&& !s.turn.our_turn_to_write
            &&& checkpoint matches Some(saved) ==> s.last_msg_id == saved.last_msg_id && s.lib_slot
                == saved.lib_slot && s.state is Some && !s.backfill_from_genesis
                && s.state->0.lib == saved.lib
            &&& checkpoint is None ==> s.last_msg_id == MsgId::spec_root() && s.lib_slot == 0
                && s.state is None && s.backfill_from_genesis
        }),
{
    if let Some(saved) = checkpoint {
        crate::sequencer::checkpoint::law_restore_keeps_what_is_finalized(
            saved,
            channel_id,
            config.max_local_tx_tracking,
        );
    }
}

// Known blocks.

/// When LIB moves, the blocks that hang together above it stay known, with
/// their parents, what is mined on them and what they store; the parent of LIB
/// is forgotten.
pub proof fn law_blocks_above_lib_stay_known(
    m: StateModel,
    lib: HeaderId,
    blocks: Set<HeaderId>,
    block: HeaderId,
)
    requires
        blocks.subset_of(m.parents.dom()),
        blocks.disjoint(m.below(lib)),
        grounded(m.parents, lib, blocks),
        blocks.contains(block),
    ensures
        ({
            let n = m.advance_lib(lib);
            &&& n.parents.contains_key(block) && n.parents[block] == m.parents[block]
            &&& m.safe.contains_key(block) ==> n.safe.contains_key(block)
            &&& n.txs_at(block) == m.txs_at(block)
            &&& m.wallet.overlay.contains_key(block) ==> n.wallet.overlay.contains_key(block)
                && n.wallet.overlay[block] == m.wallet.overlay[block]
        }),
{
    let finalized = m.finalize(lib);
    let trimmed = finalized.prune(finalized.below(lib)).without_settled(lib);
    assert(finalized.below(lib) == m.below(lib));
    assert(blocks.subset_of(trimmed.parents.dom()));
    assert(grounded(trimmed.parents, lib, blocks)) by {
        assert forall|id: HeaderId| #[trigger] blocks.contains(id) implies (id == lib
            || trimmed.parents[id] == lib || blocks.contains(trimmed.parents[id])) by {
            assert(trimmed.parents[id] == m.parents[id]);
        }
    }
    assert(kept_blocks(trimmed.parents, lib).contains(block));
}

/// The blocks below LIB are forgotten with all that was kept of them: its
/// parent, and the parent of each of them, as far as they are known.
pub proof fn law_blocks_below_lib_are_forgotten(m: StateModel, lib: HeaderId, block: HeaderId)
    requires
        m.parents.dom().finite(),
    ensures
        m.parents.contains_key(lib) ==> m.below(lib).contains(m.parents[lib]),
        m.below(lib).contains(block) ==> {
            let n = m.advance_lib(lib);
            &&& !n.parents.contains_key(block)
            &&& !n.safe.contains_key(block)
            &&& !n.stored.contains_key(block)
            &&& !n.wallet.overlay.contains_key(block)
        },
{
    let finalized = m.finalize(lib);
    assert(finalized.below(lib) == m.below(lib));
}

} // verus!
