//! What a processed block gives up is told, and nothing else is.

use vstd::prelude::*;

use crate::collections::{lemma_sorted_seq_lists, sorted_seq};
use crate::ids::{ChannelId, HeaderId, MsgId, TxHash};
use crate::sequencer::block_event::UpdateModel;
use crate::sequencer::block_fetch::orphan_report;
use crate::sequencer::consistency_laws::held_once;
use crate::sequencer::state_laws::{
    law_only_the_eligible_are_shed, law_sheds_keep_wf, law_taken_out_is_gone,
    lemma_without_all_shrinks, lemma_without_all_wf,
};
use crate::sequencer::state_model::{report_hash, StateModel};
use crate::sequencer::types::ChannelUpdateTx;
use crate::sequencer::updates::{
    after_config, config_moved, hash_of_report, law_merged_reports_all, merged, outcome,
    report_of_other, reported, shed_by_config, shed_configs, shed_on_update, shed_passes,
};

verus! {

// Lists of reports.

proof fn lemma_reported_at(txs: Seq<ChannelUpdateTx>, i: int)
    requires
        0 <= i < txs.len(),
    ensures
        reported(txs).contains(txs[i].spec_tx_hash()),
{
    let ids = txs.map_values(hash_of_report());
    assert(ids[i] == txs[i].spec_tx_hash());
    assert(ids.contains(ids[i]));
}

proof fn lemma_reported_by(txs: Seq<ChannelUpdateTx>, hash: TxHash) -> (i: int)
    requires
        reported(txs).contains(hash),
    ensures
        0 <= i < txs.len(),
        txs[i].spec_tx_hash() == hash,
{
    let ids = txs.map_values(hash_of_report());
    let i = ids.index_of(hash);
    assert(ids.contains(hash));
    assert(ids[i] == hash);
    i
}

proof fn lemma_reported_add(a: Seq<ChannelUpdateTx>, b: Seq<ChannelUpdateTx>)
    ensures
        reported(a + b) == reported(a).union(reported(b)),
{
    assert forall|hash: TxHash| reported(a + b).contains(hash) <==> reported(a).union(
        reported(b),
    ).contains(hash) by {
        if reported(a + b).contains(hash) {
            let i = lemma_reported_by(a + b, hash);
            if i < a.len() {
                assert((a + b)[i] == a[i]);
                lemma_reported_at(a, i);
            } else {
                assert((a + b)[i] == b[i - a.len()]);
                lemma_reported_at(b, i - a.len());
            }
        }
        if reported(a).contains(hash) {
            let i = lemma_reported_by(a, hash);
            assert((a + b)[i] == a[i]);
            lemma_reported_at(a + b, i);
        }
        if reported(b).contains(hash) {
            let i = lemma_reported_by(b, hash);
            assert((a + b)[a.len() + i] == b[i]);
            lemma_reported_at(a + b, a.len() + i);
        }
    }
    assert(reported(a + b) =~= reported(a).union(reported(b)));
}

/// A merge keeps the first list as it is, in front, and puts behind it what of
/// the second is not reported yet, in its order.
pub proof fn law_merge_keeps_the_order(
    first: Seq<ChannelUpdateTx>,
    a: Seq<ChannelUpdateTx>,
    b: Seq<ChannelUpdateTx>,
    tx: ChannelUpdateTx,
)
    ensures
        first.is_prefix_of(merged(first, a)),
        merged(first, a + b) == merged(merged(first, a), b),
        merged(first, seq![tx]) == if exists|j: int|
            0 <= j < first.len() && (#[trigger] first[j]).spec_tx_hash() == tx.spec_tx_hash() {
            first
        } else {
            first.push(tx)
        },
    decreases a.len() + b.len(),
{
    assert(seq![tx].drop_last() =~= Seq::empty());
    assert(seq![tx].last() == tx);
    assert(merged(first, seq![tx].drop_last()) == first);
    if reported(first).contains(tx.spec_tx_hash()) {
        let j = lemma_reported_by(first, tx.spec_tx_hash());
        assert(first[j].spec_tx_hash() == tx.spec_tx_hash());
    } else {
        assert forall|j: int| 0 <= j < first.len() implies (#[trigger] first[j]).spec_tx_hash()
            != tx.spec_tx_hash() by {
            lemma_reported_at(first, j);
        }
    }
    if b.len() > 0 {
        law_merge_keeps_the_order(first, a, b.drop_last(), tx);
        assert((a + b).drop_last() =~= a + b.drop_last());
        assert((a + b).last() == b.last());
    } else {
        assert(a + b =~= a);
    }
    if a.len() > 0 {
        law_merge_keeps_the_order(first, a.drop_last(), Seq::empty(), tx);
    }
}

// One pass.

proof fn lemma_stays(m: StateModel, list: Seq<TxHash>, hash: TxHash)
    requires
        m.is_tracked(hash),
        !m.without_all(list).is_tracked(hash),
    ensures
        list.contains(hash),
    decreases list.len(),
{
    if list.len() > 0 {
        let front = list.drop_last();
        if m.without_all(front).is_tracked(hash) {
            assert(list[list.len() - 1] == hash);
        } else {
            lemma_stays(m, front, hash);
            assert(list[front.index_of(hash)] == hash);
        }
    }
}

proof fn lemma_keeps_displaced(m: StateModel, list: Seq<TxHash>)
    ensures
        m.without_all(list).displaced == m.displaced,
        m.without_all(list).displaced_other == m.displaced_other,
    decreases list.len(),
{
    if list.len() > 0 {
        lemma_keeps_displaced(m, list.drop_last());
    }
}

/// Inscriptions that a pass drains are told, and those told are drained.
proof fn lemma_drained_is_told(m: StateModel, eligible: Set<TxHash>, hash: TxHash)
    requires
        m.wf(),
        held_once(m),
    ensures
        m.is_tracked(hash) && !m.drain(eligible).is_tracked(hash) ==> reported(
            m.drained(eligible).map_values(orphan_report()),
        ).contains(hash),
        reported(m.drained(eligible).map_values(orphan_report())).contains(hash) ==> m.is_tracked(
            hash,
        ) && !m.drain(eligible).is_tracked(hash),
{
    let drained = m.drained(eligible);
    let list = drained.map_values(report_hash());
    let told = drained.map_values(orphan_report());
    if m.is_tracked(hash) && !m.drain(eligible).is_tracked(hash) {
        lemma_stays(m, list, hash);
        let i = list.index_of(hash);
        assert(told[i].spec_tx_hash() == hash);
        lemma_reported_at(told, i);
    }
    if reported(told).contains(hash) {
        let i = lemma_reported_by(told, hash);
        law_only_the_eligible_are_shed(m, eligible, i);
        assert(list[i] == hash);
        assert(list.contains(list[i]));
        law_taken_out_is_gone(m, list, hash);
    }
}

/// Opaque transactions that are taken out are told, and those told are taken
/// out.
proof fn lemma_taken_out_is_told(
    m: StateModel,
    list: Seq<TxHash>,
    channel_id: ChannelId,
    hash: TxHash,
)
    requires
        m.wf(),
        held_once(m),
        forall|i: int| 0 <= i < list.len() ==> !m.pending.contains_key(#[trigger] list[i]),
    ensures
        m.is_tracked(hash) && !m.without_all(list).is_tracked(hash) ==> reported(
            m.taken_out(list).map_values(report_of_other(channel_id)),
        ).contains(hash),
        reported(m.taken_out(list).map_values(report_of_other(channel_id))).contains(hash)
            ==> m.is_tracked(hash) && !m.without_all(list).is_tracked(hash),
    decreases list.len(),
{
    let told = m.taken_out(list).map_values(report_of_other(channel_id));
    if list.len() == 0 {
        assert(told =~= Seq::empty());
        if reported(told).contains(hash) {
            let i = lemma_reported_by(told, hash);
        }
    } else {
        let front = list.drop_last();
        let last = list.last();
        assert forall|i: int| 0 <= i < front.len() implies !m.pending.contains_key(
            #[trigger] front[i],
        ) by {
            assert(front[i] == list[i]);
        }
        lemma_taken_out_is_told(m, front, channel_id, hash);
        let before = m.without_all(front);
        let so_far = m.taken_out(front).map_values(report_of_other(channel_id));
        lemma_without_all_wf(m, front);
        lemma_without_all_shrinks(m, front);
        lemma_without_all_shrinks(m, list);
        assert(list[list.len() - 1] == last);
        assert(!before.pending.contains_key(last));
        match before.signed_of(last) {
            Some(tx) => {
                assert(tx.hash == last);
                let report = report_of_other(channel_id)(tx);
                assert(report.spec_tx_hash() == last);
                assert(told =~= so_far.push(report));
                crate::sequencer::updates::lemma_reported_push(so_far, report);
                assert(!before.without(last).is_tracked(last));
            },
            None => {
                assert(told =~= so_far);
            },
        }
    }
}

// The passes together.

proof fn lemma_others_are_opaque(m: StateModel, set: Set<TxHash>)
    requires
        m.wf(),
        held_once(m),
        set.subset_of(m.other.dom()),
    ensures
        forall|i: int|
            0 <= i < sorted_seq(set).len() ==> !m.pending.contains_key(
                #[trigger] sorted_seq(set)[i],
            ),
{
    vstd::set_lib::lemma_set_subset_finite(m.other.dom(), set);
    lemma_sorted_seq_lists::<TxHash>(set);
    let list = sorted_seq(set);
    assert forall|i: int| 0 <= i < list.len() implies !m.pending.contains_key(#[trigger] list[i]) by {
        assert(list.to_set().contains(list[i]));
        assert(m.other.contains_key(list[i]));
    }
}

/// A displaced transaction waits to be reported.
pub open spec fn waits_to_be_told(m: StateModel, hash: TxHash) -> bool {
    (exists|i: int| 0 <= i < m.displaced.len() && (#[trigger] m.displaced[i]).spec_tx_hash() == hash)
        || (exists|i: int|
        0 <= i < m.displaced_other.len() && (#[trigger] m.displaced_other[i]).hash == hash)
}

proof fn lemma_waiting(m: StateModel, channel_id: ChannelId, hash: TxHash)
    ensures
        waits_to_be_told(m, hash) <==> reported(m.displaced.map_values(orphan_report())).contains(
            hash,
        ) || reported(m.displaced_other.map_values(report_of_other(channel_id))).contains(hash),
{
    let a = m.displaced.map_values(orphan_report());
    let b = m.displaced_other.map_values(report_of_other(channel_id));
    if reported(a).contains(hash) {
        let i = lemma_reported_by(a, hash);
        assert(m.displaced[i].spec_tx_hash() == hash);
    }
    if reported(b).contains(hash) {
        let i = lemma_reported_by(b, hash);
        assert(m.displaced_other[i].hash == hash);
    }
    if exists|i: int|
        0 <= i < m.displaced.len() && (#[trigger] m.displaced[i]).spec_tx_hash() == hash {
        let i = choose|i: int|
            0 <= i < m.displaced.len() && (#[trigger] m.displaced[i]).spec_tx_hash() == hash;
        lemma_reported_at(a, i);
    }
    if exists|i: int|
        0 <= i < m.displaced_other.len() && (#[trigger] m.displaced_other[i]).hash == hash {
        let i = choose|i: int|
            0 <= i < m.displaced_other.len() && (#[trigger] m.displaced_other[i]).hash == hash;
        lemma_reported_at(b, i);
    }
}

proof fn lemma_passes_tell(m: StateModel, tip: HeaderId, channel_id: ChannelId, hash: TxHash)
    requires
        m.wf(),
        held_once(m),
    ensures
        ({
            let shed = shed_passes(m, tip, channel_id);
            &&& reported(shed.orphaned).contains(hash) <==> waits_to_be_told(m, hash) || (
            m.is_tracked(hash) && !shed.state.is_tracked(hash))
            &&& shed.state.wf() && held_once(shed.state)
            &&& shed.state.pending.dom().subset_of(m.pending.dom())
            &&& shed.state.other.dom().subset_of(m.other.dom())
        }),
{
    let lost = m.without_inputs(tip, channel_id);
    let m1 = m.drain(lost);
    let rest1 = StateModel { displaced: Seq::empty(), ..m1 };
    let off = rest1.off_branch(tip);
    let m2 = rest1.drain(off);
    let rest2 = StateModel { displaced_other: Seq::empty(), ..m2 };
    let others = sorted_seq(rest2.displaced_others(tip));
    let list1 = m.drained(lost).map_values(report_hash());
    let list2 = rest1.drained(off).map_values(report_hash());
    law_sheds_keep_wf(m, lost, Seq::empty());
    lemma_without_all_shrinks(m, list1);
    lemma_keeps_displaced(m, list1);
    law_sheds_keep_wf(rest1, off, Seq::empty());
    lemma_without_all_shrinks(rest1, list2);
    lemma_keeps_displaced(rest1, list2);
    lemma_without_all_wf(rest2, others);
    lemma_without_all_shrinks(rest2, others);
    assert(held_once(rest1));
    assert(held_once(rest2));
    lemma_drained_is_told(m, lost, hash);
    lemma_drained_is_told(rest1, off, hash);
    lemma_others_are_opaque(rest2, rest2.displaced_others(tip));
    lemma_taken_out_is_told(rest2, others, channel_id, hash);
    let a = m.drained(lost).map_values(orphan_report());
    let b = m.displaced.map_values(orphan_report());
    let c = rest1.drained(off).map_values(orphan_report());
    let d = m.displaced_other.map_values(report_of_other(channel_id));
    let e = rest2.taken_out(others).map_values(report_of_other(channel_id));
    lemma_waiting(m, channel_id, hash);
    lemma_reported_add(b, c);
    lemma_reported_add(a, b + c);
    lemma_reported_add(d, e);
    lemma_reported_add(a + (b + c), d + e);
    assert(shed_passes(m, tip, channel_id).orphaned =~= (a + (b + c)) + (d + e));
}

/// Of a processed block, a transaction is told as orphaned exactly where it was
/// held and is held no more, or where the chain orphaned it, or it was displaced
/// before and the view changed now.
pub proof fn law_given_up_is_told_and_nothing_else(
    m: StateModel,
    tip: HeaderId,
    last_msg_id: MsgId,
    channel_id: ChannelId,
    update: Option<UpdateModel>,
    common_prefix: Seq<ChannelUpdateTx>,
    hash: TxHash,
)
    requires
        m.wf(),
        held_once(m),
    ensures
        ({
            let o = outcome(m, tip, last_msg_id, channel_id, update, common_prefix);
            let told = exists|j: int|
                0 <= j < o.change.orphans().len() && (
                #[trigger] o.change.orphans()[j]).spec_tx_hash() == hash;
            told <==> {
                ||| m.is_tracked(hash) && !o.state.is_tracked(hash)
                ||| update is Some && waits_to_be_told(m, hash)
                ||| update matches Some(update) && exists|j: int|
                    0 <= j < update.orphaned.len() && (
                    #[trigger] update.orphaned[j]).spec_tx_hash() == hash
            }
        }),
{
    let updated = shed_on_update(m, tip, last_msg_id, channel_id, update).0;
    if let Some(update) = update {
        let shed = shed_passes(m, tip, channel_id);
        lemma_passes_tell(m, tip, channel_id, hash);
        law_merged_reports_all(Seq::empty(), shed.orphaned);
        law_merged_reports_all(merged(Seq::empty(), shed.orphaned), update.orphaned);
    }
    let none = Seq::<ChannelUpdateTx>::empty();
    assert(reported(none) =~= Set::empty()) by {
        assert(none.map_values(hash_of_report()) =~= Seq::empty());
    }
    let u = updated.state;
    let stale = u.stale_configs(tip);
    let list = sorted_seq(stale);
    lemma_others_are_opaque(u, stale);
    lemma_taken_out_is_told(u, list, channel_id, hash);
    lemma_without_all_wf(u, list);
    lemma_without_all_shrinks(u, list);
    let configured = shed_configs(updated, tip, channel_id);
    law_merged_reports_all(
        updated.orphaned,
        u.taken_out(list).map_values(report_of_other(channel_id)),
    );
    let c = configured.state;
    assert(held_once(c));
    let rest = StateModel { observed_config_tip: c.config_tip(tip), ..c };
    let eligible = rest.pending.dom().difference(rest.safe_at(tip));
    let config_shed = shed_by_config(c, tip).map_values(orphan_report());
    if config_moved(c, tip) {
        lemma_drained_is_told(rest, eligible, hash);
        lemma_without_all_shrinks(rest, rest.drained(eligible).map_values(report_hash()));
    } else {
        assert(config_shed =~= none);
    }
    law_merged_reports_all(configured.orphaned, config_shed);
    let all = merged(configured.orphaned, config_shed);
    let o = outcome(m, tip, last_msg_id, channel_id, update, common_prefix);
    assert(o.state == after_config(c, tip));
    assert(o.change.orphans() == all) by {
        if all.len() == 0 {
            assert(all =~= Seq::empty());
        }
    }
    if reported(all).contains(hash) {
        let j = lemma_reported_by(all, hash);
        assert(o.change.orphans()[j].spec_tx_hash() == hash);
    }
    if exists|j: int|
        0 <= j < o.change.orphans().len() && (#[trigger] o.change.orphans()[j]).spec_tx_hash()
            == hash {
        let j = choose|j: int|
            0 <= j < o.change.orphans().len() && (#[trigger] o.change.orphans()[j]).spec_tx_hash()
                == hash;
        lemma_reported_at(all, j);
    }
    if let Some(update) = update {
        if reported(update.orphaned).contains(hash) {
            let j = lemma_reported_by(update.orphaned, hash);
            assert(update.orphaned[j].spec_tx_hash() == hash);
        }
        if exists|j: int|
            0 <= j < update.orphaned.len() && (#[trigger] update.orphaned[j]).spec_tx_hash()
                == hash {
            let j = choose|j: int|
                0 <= j < update.orphaned.len() && (#[trigger] update.orphaned[j]).spec_tx_hash()
                    == hash;
            lemma_reported_at(update.orphaned, j);
        }
    }
}

/// Where a new message chains after a block: where it did without a change; on
/// the message tip once a moved config gave anything up, which leaves nothing
/// pending that is not mined; and otherwise behind what the shed passes left.
pub proof fn law_pointer_follows_what_is_left(
    m: StateModel,
    tip: HeaderId,
    last_msg_id: MsgId,
    channel_id: ChannelId,
    update: Option<UpdateModel>,
    common_prefix: Seq<ChannelUpdateTx>,
)
    ensures
        ({
            let o = outcome(m, tip, last_msg_id, channel_id, update, common_prefix);
            let left = match update {
                Some(_) => shed_passes(m, tip, channel_id).state,
                None => m,
            };
            let unstale = left.without_all(sorted_seq(left.stale_configs(tip)));
            let gave_up = shed_by_config(unstale, tip).len() > 0;
            &&& gave_up ==> o.last_msg_id == o.state.channel_tip(tip)
            &&& !gave_up && update is None ==> o.last_msg_id == last_msg_id
            &&& !gave_up && update is Some ==> o.last_msg_id == left.publish_parent(tip)
        }),
{
}

} // verus!
