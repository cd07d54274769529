//! What holds of the sequencer across its steps, and of the updates it reports.

use vstd::prelude::*;

use crate::collections::other_than;
use crate::ids::{HeaderId, MsgId, TxHash};
use crate::mantle::SignedOps;
use crate::sequencer::block_event::{report_not_in, update_from, UpdateModel};
use crate::sequencer::events::{CheckpointModel, EventModel, ViewChange};
use crate::sequencer::resubmit::{depth_of, first_post_in, is_skipped, law_sweep_is_bounded};
use crate::sequencer::sequencer_model::{hash_of_pair, orphaned_of, SequencerModel};
use crate::sequencer::state_laws::lemma_filter_member;
use crate::sequencer::state_model::{msg_in_neither, msg_of, msgs, StateModel};
use crate::sequencer::turn::Moment;
use crate::sequencer::types::{
    ChannelUpdateTx, DepositInfo, FinalizedTx, InscriptionInfo, TxStatus,
};
use crate::sequencer::updates::{
    hash_of_report, law_consumer_is_told_all_that_was_adopted, law_merged_reports_all, merged,
    reported,
};

verus! {

// Updates of the view.

proof fn lemma_msgs_of_member(infos: Seq<InscriptionInfo>, info: InscriptionInfo)
    requires
        infos.contains(info),
    ensures
        msgs(infos).contains(info.this_msg),
{
    let ids = infos.map_values(msg_of());
    let i = infos.index_of(info);
    assert(ids[i] == info.this_msg);
    assert(ids.to_set().contains(info.this_msg));
}

/// What entered the view is new to it and is not finalized; what left it is no
/// longer in it and is not finalized either: a LIB advance reads as neither.
/// No message did both.
pub proof fn law_adopted_and_orphaned_differ(
    m: StateModel,
    old_lineage: Seq<InscriptionInfo>,
    tip: HeaderId,
    finalized_now: Set<MsgId>,
    a: InscriptionInfo,
    o: InscriptionInfo,
)
    requires
        m.adopted_infos(old_lineage, tip, finalized_now).contains(a),
        m.orphaned_infos(old_lineage, tip, finalized_now).contains(o),
    ensures
        a.this_msg != o.this_msg,
        m.lineage(tip).contains(a) && !msgs(old_lineage).contains(a.this_msg),
        old_lineage.contains(o) && !msgs(m.lineage(tip)).contains(o.this_msg),
        !m.settled_ids(old_lineage, m.lineage(tip), finalized_now).contains(a.this_msg),
        !m.settled_ids(old_lineage, m.lineage(tip), finalized_now).contains(o.this_msg),
{
    let new_lineage = m.lineage(tip);
    let settled = m.settled_ids(old_lineage, new_lineage, finalized_now);
    lemma_filter_member(new_lineage, msg_in_neither(msgs(old_lineage), settled), a);
    lemma_filter_member(old_lineage, msg_in_neither(msgs(new_lineage), settled), o);
    lemma_msgs_of_member(new_lineage, a);
}

/// A view that did not change is no update.
pub proof fn law_same_view_is_no_update(
    m: StateModel,
    tip: HeaderId,
    finalized_now: Set<MsgId>,
    held_before: Set<TxHash>,
)
    ensures
        update_from(m, m.lineage(tip), tip, finalized_now, held_before) is None,
{
    let lineage = m.lineage(tip);
    let settled = m.settled_ids(lineage, lineage, finalized_now);
    let keep = msg_in_neither(msgs(lineage), settled);
    let left = lineage.filter(keep);
    if left.len() > 0 {
        assert(left.contains(left[0]));
        lemma_filter_member(lineage, keep, left[0]);
        lemma_msgs_of_member(lineage, left[0]);
    }
}

/// Where nothing was orphaned, what this sequencer held before is not reported
/// as adopted: it landed by its own action.
pub proof fn law_own_transactions_are_not_adopted(
    m: StateModel,
    old_lineage: Seq<InscriptionInfo>,
    tip: HeaderId,
    finalized_now: Set<MsgId>,
    held_before: Set<TxHash>,
    tx: ChannelUpdateTx,
)
    requires
        update_from(m, old_lineage, tip, finalized_now, held_before) matches Some(update)
            && update.orphaned.len() == 0 && update.adopted.contains(tx),
    ensures
        !held_before.contains(tx.spec_tx_hash()),
{
    let adopted = m.update_txs(m.adopted_infos(old_lineage, tip, finalized_now));
    lemma_filter_member(adopted, report_not_in(held_before), tx);
}

// Posting.

/// A sweep posts no inscription out of turn, nothing that is being posted
/// already, and not more first posts than the configured depth leaves room for.
pub proof fn law_sweep_respects_turn_and_depth(s: SequencerModel, moment: Moment, i: int)
    requires
        0 <= i < s.sweep_at(moment).len(),
    ensures
        ({
            let m = s.state->0;
            let batch = s.sweep_at(moment);
            let depth = depth_of(s.config.max_pending_publish_depth);
            &&& s.state is Some && s.current_tip is Some && !s.resubmit_active
            &&& !s.posting.contains(batch[i].0)
            &&& m.pending.contains_key(batch[i].0) ==> s.may_publish(moment)
            &&& batch.filter(first_post_in(m)).len() + m.posted().len() <= if m.posted().len()
                > depth {
                m.posted().len()
            } else {
                depth
            }
        }),
{
    let m = s.state->0;
    let tip = s.current_tip->0;
    law_sweep_is_bounded(
        m,
        m.to_post(tip),
        s.posting,
        s.may_publish(moment),
        depth_of(s.config.max_pending_publish_depth),
        m.posted().len(),
    );
    assert(!is_skipped(m, s.sweep_at(moment)[i].0, s.posting, s.may_publish(moment)));
}

/// While a sweep is being posted no other starts, and its transactions are
/// under way.
pub proof fn law_one_sweep_at_a_time(
    s: SequencerModel,
    moment: Moment,
    later: Moment,
    i: int,
)
    requires
        0 <= i < s.sweep_at(moment).len(),
    ensures
        ({
            let n = s.with_sweep(s.sweep_at(moment));
            &&& n.sweep_at(later) == Seq::<(TxHash, SignedOps)>::empty()
            &&& n.posting.contains(s.sweep_at(moment)[i].0)
        }),
{
    let batch = s.sweep_at(moment);
    let ids = batch.map_values(hash_of_pair());
    assert(ids[i] == batch[i].0);
    assert(ids.to_set().contains(batch[i].0));
}

/// A completed post is no longer under way, and the first one of a pending
/// inscription leaves it posted.
pub proof fn law_completed_post_is_settled(s: SequencerModel, hash: TxHash, success: bool)
    ensures
        !s.with_post(hash, success).posting.contains(hash),
        success && s.state is Some && s.state->0.pending.contains_key(hash) ==> {
            let n = s.with_post(hash, success).state;
            n is Some && n->0.pending.contains_key(hash) && n->0.pending[hash].posted
        },
        !success ==> s.with_post(hash, success).state == s.state,
{
}

// Readiness.

/// Readiness is never taken back by a block.
pub proof fn law_readiness_stays(
    s: SequencerModel,
    update: Option<UpdateModel>,
    common_prefix: Seq<ChannelUpdateTx>,
    deposits: Seq<DepositInfo>,
    finalized: Seq<FinalizedTx>,
    mined: Seq<InscriptionInfo>,
    checkpoint: Option<CheckpointModel>,
    moment: Moment,
)
    requires
        s.ready,
    ensures
        s.after_block(update, common_prefix, deposits, finalized, mined, checkpoint).with_view(
            moment,
        ).ready,
        s.with_turn(false, moment).ready,
        s.with_view(moment).ready,
{
    let live = SequencerModel { connected: true, ..s };
    let start = live.after_result(update, common_prefix);
    lemma_finalized_keeps_ready(
        start.with_orphaned(live.block_change(update, common_prefix).orphans()).with_mined(mined),
        finalized,
    );
    lemma_mined_keeps_ready(
        start.with_orphaned(live.block_change(update, common_prefix).orphans()),
        mined,
    );
    lemma_orphaned_keeps_ready(start, live.block_change(update, common_prefix).orphans());
}

proof fn lemma_orphaned_keeps_ready(s: SequencerModel, txs: Seq<ChannelUpdateTx>)
    ensures
        s.with_orphaned(txs).ready == s.ready,
        s.with_orphaned(txs).events == s.events,
        s.with_orphaned(txs).connected == s.connected,
        s.with_orphaned(txs).last_msg_id == s.last_msg_id,
        s.with_orphaned(txs).posting == s.posting,
    decreases txs.len(),
{
    if txs.len() > 0 {
        lemma_orphaned_keeps_ready(s, txs.drop_last());
    }
}

proof fn lemma_mined_keeps_ready(s: SequencerModel, infos: Seq<InscriptionInfo>)
    ensures
        s.with_mined(infos).ready == s.ready,
        s.with_mined(infos).events == s.events,
        s.with_mined(infos).connected == s.connected,
        s.with_mined(infos).last_msg_id == s.last_msg_id,
        s.with_mined(infos).posting == s.posting,
    decreases infos.len(),
{
    if infos.len() > 0 {
        lemma_mined_keeps_ready(s, infos.drop_last());
    }
}

proof fn lemma_finalized_keeps_ready(s: SequencerModel, txs: Seq<FinalizedTx>)
    ensures
        s.with_finalized(txs).ready == s.ready,
        s.with_finalized(txs).events == s.events,
        s.with_finalized(txs).connected == s.connected,
        s.with_finalized(txs).last_msg_id == s.last_msg_id,
        s.with_finalized(txs).posting == s.posting,
    decreases txs.len(),
{
    if txs.len() > 0 {
        lemma_finalized_keeps_ready(s, txs.drop_last());
    }
}

/// Before readiness no turn is announced as ours, and none is while the node is
/// disconnected.
pub proof fn law_no_turn_before_readiness(s: SequencerModel, moment: Moment)
    requires
        !s.ready || !s.connected,
    ensures
        !s.with_view(moment).turn.our_turn_to_write,
        s.posts_on_view(moment) == Seq::<(TxHash, SignedOps)>::empty(),
{
}

/// A processed block is one event, behind those that wait: it carries all that
/// the block adopted, in the order of the update, the deposits and the
/// finalized transactions as they were read, and the checkpoint that is stored.
pub proof fn law_block_is_told_whole(
    s: SequencerModel,
    update: Option<UpdateModel>,
    common_prefix: Seq<ChannelUpdateTx>,
    deposits: Seq<DepositInfo>,
    finalized: Seq<FinalizedTx>,
    mined: Seq<InscriptionInfo>,
    checkpoint: CheckpointModel,
)
    ensures
        ({
            let n = s.after_block(
                update,
                common_prefix,
                deposits,
                finalized,
                mined,
                Some(checkpoint),
            );
            &&& n.connected
            &&& n.checkpoint == Some(checkpoint)
            &&& n.events.len() == s.events.len() + 1
            &&& n.events.drop_last() == s.events
            &&& n.events.last() matches EventModel::BlocksProcessed {
                checkpoint: told_checkpoint,
                channel_update: change,
                deposits: told_deposits,
                finalized: told_finalized,
            } && {
                let told = match change {
                    ViewChange::Extension { adopted } => adopted,
                    ViewChange::Conflict { adopted, .. } => adopted,
                };
                &&& told_checkpoint == checkpoint
                &&& told_deposits == deposits
                &&& told_finalized == finalized
                &&& told == match update {
                    Some(update) => update.adopted,
                    None => Seq::empty(),
                }
                &&& update is Some && update->0.orphaned.len() > 0 ==> change is Conflict
            }
        }),
{
    let live = SequencerModel { connected: true, ready: s.ready || s.becomes_ready(), ..s };
    let start = live.after_result(update, common_prefix);
    let change = live.block_change(update, common_prefix);
    let a = start.with_orphaned(change.orphans());
    let b = a.with_mined(mined);
    lemma_orphaned_keeps_ready(start, change.orphans());
    lemma_mined_keeps_ready(a, mined);
    lemma_finalized_keeps_ready(b, finalized);
    lemma_told_adopted(live, update, common_prefix);
    let told = b.with_finalized(finalized).with_checkpoint(Some(checkpoint));
    assert(told.events == s.events);
    let event = EventModel::BlocksProcessed {
        checkpoint,
        channel_update: change,
        deposits,
        finalized,
    };
    assert(s.events.push(event).drop_last() =~= s.events);
}

proof fn lemma_told_adopted(
    s: SequencerModel,
    update: Option<UpdateModel>,
    common_prefix: Seq<ChannelUpdateTx>,
)
    ensures
        ({
            let change = s.block_change(update, common_prefix);
            let told = match change {
                ViewChange::Extension { adopted } => adopted,
                ViewChange::Conflict { adopted, .. } => adopted,
            };
            &&& told == match update {
                Some(update) => update.adopted,
                None => Seq::empty(),
            }
            &&& update is Some && update->0.orphaned.len() > 0 ==> change is Conflict
        }),
{
    match (s.state, s.current_tip) {
        (Some(m), Some(tip)) => {
            law_consumer_is_told_all_that_was_adopted(
                m,
                tip,
                s.last_msg_id,
                s.channel_id,
                update,
                common_prefix,
            );
        },
        _ => {
            let orphaned = orphaned_of(update);
            law_merged_reports_all(Seq::empty(), orphaned);
            if orphaned.len() > 0 {
                let hash = orphaned[0].spec_tx_hash();
                assert(orphaned.map_values(hash_of_report())[0] == hash);
                assert(reported(orphaned).contains(hash));
                let all = merged(Seq::empty(), orphaned);
                assert(reported(all).contains(hash));
                assert(all.map_values(hash_of_report()).contains(hash));
            }
        },
    }
}

/// A block brings one status per orphaned, mined and finalized transaction, in
/// that order, each with the transaction it is of and where that came from. A
/// finalized transaction of ours is no longer remembered once told.
pub proof fn law_block_statuses_are_complete(
    s: SequencerModel,
    orphaned: Seq<ChannelUpdateTx>,
    finalized: Seq<FinalizedTx>,
    mined: Seq<InscriptionInfo>,
)
    ensures
        ({
            let n = s.with_block_statuses(orphaned, finalized, mined);
            let k = s.statuses.len();
            let l = k + orphaned.len();
            let o = l + mined.len();
            &&& n.statuses.len() == o + finalized.len()
            &&& n.statuses.take(k as int) == s.statuses
            &&& forall|i: int|
                0 <= i < orphaned.len() ==> (#[trigger] n.statuses[k + i]).tx_hash
                    == orphaned[i].spec_tx_hash() && n.statuses[k + i].status
                    == TxStatus::Orphaned(s.source(orphaned[i].spec_tx_hash()))
            &&& forall|i: int|
                0 <= i < mined.len() ==> (#[trigger] n.statuses[l + i]).tx_hash == mined[i].tx_hash
                    && n.statuses[l + i].status == TxStatus::OnChain(s.source(mined[i].tx_hash))
            &&& forall|i: int|
                0 <= i < finalized.len() ==> (#[trigger] n.statuses[o + i]).tx_hash
                    == finalized[i].tx_hash && n.statuses[o + i].status is Finalized && (
                first_of_its_hash(finalized, i) ==> n.statuses[o + i].status
                    == TxStatus::Finalized(s.source(finalized[i].tx_hash)))
        }),
{
    lemma_orphaned_statuses(s, orphaned);
    let a = s.with_orphaned(orphaned);
    lemma_mined_statuses(a, mined);
    let b = a.with_mined(mined);
    lemma_finalized_statuses(b, finalized);
    let n = b.with_finalized(finalized);
    let k = s.statuses.len();
    let l = k + orphaned.len();
    assert(n.statuses.take(k as int) =~= b.statuses.take(k as int));
    assert(b.statuses.take(k as int) =~= a.statuses.take(k as int));
    assert forall|i: int| 0 <= i < orphaned.len() implies (#[trigger] n.statuses[k + i]).tx_hash
        == orphaned[i].spec_tx_hash() && n.statuses[k + i].status == TxStatus::Orphaned(
        s.source(orphaned[i].spec_tx_hash()),
    ) by {
        assert(n.statuses[k + i] == n.statuses.take(b.statuses.len() as int)[k + i]);
        assert(b.statuses[k + i] == b.statuses.take(a.statuses.len() as int)[k + i]);
        assert(a.statuses[k + i].tx_hash == orphaned[i].spec_tx_hash());
    }
    assert forall|i: int| 0 <= i < mined.len() implies (#[trigger] n.statuses[l + i]).tx_hash
        == mined[i].tx_hash && n.statuses[l + i].status == TxStatus::OnChain(
        s.source(mined[i].tx_hash),
    ) by {
        assert(n.statuses[l + i] == n.statuses.take(b.statuses.len() as int)[l + i]);
        assert(b.statuses[l + i].tx_hash == mined[i].tx_hash);
    }
}

/// No earlier transaction of a list has the hash of the one at `i`.
pub open spec fn first_of_its_hash(txs: Seq<FinalizedTx>, i: int) -> bool {
    forall|j: int| 0 <= j < i ==> (#[trigger] txs[j]).tx_hash != txs[i].tx_hash
}

proof fn lemma_orphaned_statuses(s: SequencerModel, txs: Seq<ChannelUpdateTx>)
    ensures
        ({
            let n = s.with_orphaned(txs);
            let k = s.statuses.len();
            &&& n.statuses.len() == k + txs.len()
            &&& n.statuses.take(k as int) == s.statuses
            &&& n.state == s.state
            &&& forall|i: int|
                0 <= i < txs.len() ==> (#[trigger] n.statuses[k + i]).tx_hash
                    == txs[i].spec_tx_hash() && n.statuses[k + i].status == TxStatus::Orphaned(
                    s.source(txs[i].spec_tx_hash()),
                )
        }),
    decreases txs.len(),
{
    let n = s.with_orphaned(txs);
    let k = s.statuses.len();
    if txs.len() > 0 {
        lemma_orphaned_statuses(s, txs.drop_last());
        let before = s.with_orphaned(txs.drop_last());
        assert(n.statuses.take(k as int) =~= before.statuses.take(k as int));
        assert forall|i: int| 0 <= i < txs.len() implies (#[trigger] n.statuses[k + i]).tx_hash
            == txs[i].spec_tx_hash() && n.statuses[k + i].status == TxStatus::Orphaned(
            s.source(txs[i].spec_tx_hash()),
        ) by {
            if i < txs.len() - 1 {
                assert(n.statuses[k + i] == before.statuses[k + i]);
                assert(txs.drop_last()[i] == txs[i]);
            }
        }
    } else {
        assert(n.statuses.take(k as int) =~= s.statuses);
    }
}

proof fn lemma_mined_statuses(s: SequencerModel, infos: Seq<InscriptionInfo>)
    ensures
        ({
            let n = s.with_mined(infos);
            let k = s.statuses.len();
            &&& n.statuses.len() == k + infos.len()
            &&& n.statuses.take(k as int) == s.statuses
            &&& n.state == s.state
            &&& forall|i: int|
                0 <= i < infos.len() ==> (#[trigger] n.statuses[k + i]).tx_hash == infos[i].tx_hash
                    && n.statuses[k + i].status == TxStatus::OnChain(s.source(infos[i].tx_hash))
        }),
    decreases infos.len(),
{
    let n = s.with_mined(infos);
    let k = s.statuses.len();
    if infos.len() > 0 {
        lemma_mined_statuses(s, infos.drop_last());
        let before = s.with_mined(infos.drop_last());
        assert(n.statuses.take(k as int) =~= before.statuses.take(k as int));
        assert forall|i: int| 0 <= i < infos.len() implies (#[trigger] n.statuses[k + i]).tx_hash
            == infos[i].tx_hash && n.statuses[k + i].status == TxStatus::OnChain(
            s.source(infos[i].tx_hash),
        ) by {
            if i < infos.len() - 1 {
                assert(n.statuses[k + i] == before.statuses[k + i]);
                assert(infos.drop_last()[i] == infos[i]);
            }
        }
    } else {
        assert(n.statuses.take(k as int) =~= s.statuses);
    }
}

proof fn lemma_finalized_statuses(s: SequencerModel, txs: Seq<FinalizedTx>)
    ensures
        ({
            let n = s.with_finalized(txs);
            let k = s.statuses.len();
            &&& n.statuses.len() == k + txs.len()
            &&& n.statuses.take(k as int) == s.statuses
            &&& forall|hash: TxHash|
                (forall|j: int| 0 <= j < txs.len() ==> (#[trigger] txs[j]).tx_hash != hash)
                    ==> #[trigger] n.source(hash) == s.source(hash)
            &&& forall|i: int|
                0 <= i < txs.len() ==> (#[trigger] n.statuses[k + i]).tx_hash == txs[i].tx_hash
                    && n.statuses[k + i].status is Finalized && (first_of_its_hash(txs, i)
                    ==> n.statuses[k + i].status == TxStatus::Finalized(s.source(txs[i].tx_hash)))
        }),
    decreases txs.len(),
{
    let n = s.with_finalized(txs);
    let k = s.statuses.len();
    if txs.len() > 0 {
        let front = txs.drop_last();
        let last = txs.last().tx_hash;
        lemma_finalized_statuses(s, front);
        let before = s.with_finalized(front);
        assert(n.statuses.take(k as int) =~= before.statuses.take(k as int));
        assert forall|hash: TxHash|
            (forall|j: int| 0 <= j < txs.len() ==> (#[trigger] txs[j]).tx_hash
                != hash) implies #[trigger] n.source(hash) == s.source(hash) by {
            assert forall|j: int| 0 <= j < front.len() implies (#[trigger] front[j]).tx_hash
                != hash by {
                assert(txs[j] == front[j]);
            }
            assert(before.source(hash) == s.source(hash));
            assert(txs[txs.len() - 1].tx_hash != hash);
            if let Some(m) = before.state {
                lemma_filter_member(m.local, other_than(last), hash);
            }
        }
        assert forall|i: int| 0 <= i < txs.len() implies (#[trigger] n.statuses[k + i]).tx_hash
            == txs[i].tx_hash && n.statuses[k + i].status is Finalized && (first_of_its_hash(txs, i)
            ==> n.statuses[k + i].status == TxStatus::Finalized(s.source(txs[i].tx_hash))) by {
            if i < txs.len() - 1 {
                assert(n.statuses[k + i] == before.statuses[k + i]);
                assert(front[i] == txs[i]);
                if first_of_its_hash(txs, i) {
                    assert forall|j: int| 0 <= j < i implies (#[trigger] front[j]).tx_hash
                        != front[i].tx_hash by {
                        assert(txs[j] == front[j]);
                    }
                }
            } else if first_of_its_hash(txs, i) {
                assert forall|j: int| 0 <= j < front.len() implies (#[trigger] front[j]).tx_hash
                    != last by {
                    assert(txs[j] == front[j]);
                }
                assert(before.source(last) == s.source(last));
            }
        }
    } else {
        assert(n.statuses.take(k as int) =~= s.statuses);
    }
}

} // verus!
