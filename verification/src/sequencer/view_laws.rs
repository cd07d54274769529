//! How the parts of an update add up to the channel view.

use vstd::prelude::*;

use crate::ids::{ChannelId, HeaderId, MsgId, TxHash};
use crate::mantle::SignedOps;
use crate::sequencer::block_event::{report_in, report_not_in, update_from, UpdateModel};
use crate::sequencer::channel_tx::{
    classification, law_classification_keeps_every_entry, BlockChannelTx,
};
use crate::sequencer::channel_wallet::NoteOp;
use crate::sequencer::consistency_laws::consistent;
use crate::sequencer::state_laws::lemma_filter_member;
use crate::sequencer::state_model::{
    block_with, first_of_tx, hash_of, hashes, last_position, msg_in_neither, msg_not_in, msg_of,
    msgs, signed_with, tx_in, StateModel, StoredModel,
};
use crate::sequencer::types::{ChannelUpdateTx, InscriptionInfo};
use crate::sequencer::updates::{
    hash_of_report, law_consumer_is_told_all_that_was_adopted, lemma_prefix_of_outcome, outcome,
    reported,
};

verus! {

// Reports carry the hash of their transaction.

/// A stored transaction is reported under the hash that its entries carry.
pub open spec fn carries_its_hash(tx: BlockChannelTx) -> bool {
    match tx {
        BlockChannelTx::AtomicWithdraw(a) => a.tx_hash == a.inscription.tx_hash,
        BlockChannelTx::PinDeposit(a) => a.tx_hash == a.inscription.tx_hash,
        BlockChannelTx::Custom { tx: signed, .. } => tx.spec_tx_hash() matches Some(hash)
            ==> hash == signed.hash,
        _ => true,
    }
}

/// Every stored transaction is reported under the hash that its entries carry.
pub open spec fn stored_carry_their_hash(m: StateModel) -> bool {
    forall|block: HeaderId, i: int|
        m.stored.contains_key(block) && 0 <= i < m.stored[block].channel_txs.len()
            ==> carries_its_hash(#[trigger] m.stored[block].channel_txs[i])
}

/// What a block scan stores is reported under the hash of the transaction.
pub proof fn law_classified_carries_its_hash(tx: SignedOps, channel_id: ChannelId)
    ensures
        classification(tx, channel_id) matches Some(stored) ==> carries_its_hash(stored),
{
    law_classification_keeps_every_entry(tx, channel_id);
}

proof fn lemma_tx_in(txs: Seq<BlockChannelTx>, hash: TxHash) -> (i: int)
    requires
        tx_in(txs, hash) is Some,
    ensures
        0 <= i < txs.len(),
        tx_in(txs, hash) == Some(txs[i]),
        txs[i].spec_tx_hash() == Some(hash),
    decreases txs.len(),
{
    if txs[0].spec_tx_hash() == Some(hash) {
        0
    } else {
        lemma_tx_in(txs.drop_first(), hash) + 1
    }
}

proof fn lemma_block_with(
    blocks: Seq<HeaderId>,
    stored: Map<HeaderId, StoredModel>,
    hash: TxHash,
)
    ensures
        block_with(blocks, stored, hash) matches Some(block) ==> blocks.contains(block) && tx_in(
            stored[block].channel_txs,
            hash,
        ) is Some,
    decreases blocks.len(),
{
    if blocks.len() > 0 && tx_in(stored[blocks[0]].channel_txs, hash) is None {
        let rest = blocks.drop_first();
        lemma_block_with(rest, stored, hash);
        if let Some(block) = block_with(rest, stored, hash) {
            assert(blocks[rest.index_of(block) + 1] == block);
        }
    }
}

proof fn lemma_signed_with(txs: Seq<SignedOps>, hash: TxHash)
    ensures
        signed_with(txs, hash) matches Some(tx) ==> tx.hash == hash,
    decreases txs.len(),
{
    if txs.len() > 0 && txs[0].hash != hash {
        lemma_signed_with(txs.drop_first(), hash);
    }
}

proof fn lemma_report_hash(m: StateModel, info: InscriptionInfo)
    requires
        m.wf(),
        stored_carry_their_hash(m),
    ensures
        m.update_tx(info) matches Some(tx) ==> tx.spec_tx_hash() == info.tx_hash,
{
    lemma_block_with(m.stored_order, m.stored, info.tx_hash);
    if let Some(block) = block_with(m.stored_order, m.stored, info.tx_hash) {
        assert(m.stored_order.to_set().contains(block));
        let i = lemma_tx_in(m.stored[block].channel_txs, info.tx_hash);
        assert(carries_its_hash(m.stored[block].channel_txs[i]));
        lemma_signed_with(m.stored[block].signed_txs, info.tx_hash);
    }
}

// The view is the prefix and what was adopted.

pub open spec fn tx_not_in(set: Set<TxHash>) -> spec_fn(InscriptionInfo) -> bool {
    |info: InscriptionInfo| !set.contains(info.tx_hash)
}

proof fn lemma_hashes_push(infos: Seq<InscriptionInfo>, info: InscriptionInfo)
    ensures
        hashes(infos.push(info)) == hashes(infos).insert(info.tx_hash),
{
    let ids = infos.map_values(hash_of());
    assert(infos.push(info).map_values(hash_of()) =~= ids.push(info.tx_hash));
    assert forall|hash: TxHash|
        ids.push(info.tx_hash).to_set().contains(hash) <==> ids.to_set().insert(
            info.tx_hash,
        ).contains(hash) by {
        if ids.contains(hash) {
            assert(ids.push(info.tx_hash)[ids.index_of(hash)] == hash);
        }
        assert(ids.push(info.tx_hash)[ids.len() as int] == info.tx_hash);
        if ids.push(info.tx_hash).contains(hash) && hash != info.tx_hash {
            assert(ids[ids.push(info.tx_hash).index_of(hash)] == hash);
        }
    }
    assert(ids.push(info.tx_hash).to_set() =~= ids.to_set().insert(info.tx_hash));
}

/// Taking the first entry of each transaction and leaving whole transactions
/// out commute.
proof fn lemma_first_of_kept(
    infos: Seq<InscriptionInfo>,
    keep: spec_fn(InscriptionInfo) -> bool,
    gone: Set<TxHash>,
)
    requires
        forall|i: int|
            0 <= i < infos.len() ==> (keep(#[trigger] infos[i]) <==> !gone.contains(
                infos[i].tx_hash,
            )),
    ensures
        first_of_tx(infos.filter(keep)) == first_of_tx(infos).filter(tx_not_in(gone)),
        hashes(infos.filter(keep)) == hashes(infos).difference(gone),
    decreases infos.len(),
{
    reveal(Seq::filter);
    if infos.len() == 0 {
        assert(infos.filter(keep) =~= Seq::empty());
        assert(infos.map_values(hash_of()) =~= Seq::empty());
        assert(hashes(infos) =~= Set::empty());
        assert(hashes(infos.filter(keep)) =~= hashes(infos).difference(gone));
        assert(first_of_tx(infos).filter(tx_not_in(gone)) =~= Seq::empty());
    } else {
        let front = infos.drop_last();
        let last = infos.last();
        lemma_first_of_kept(front, keep, gone);
        assert(infos =~= front.push(last));
        lemma_hashes_push(front, last);
        assert(keep(infos[infos.len() - 1]) <==> !gone.contains(last.tx_hash));
        let seen = hashes(front).contains(last.tx_hash);
        let firsts = first_of_tx(front);
        assert(first_of_tx(infos) == if seen {
            firsts
        } else {
            firsts.push(last)
        });
        assert(firsts.push(last).drop_last() =~= firsts);
        assert(firsts.push(last).filter(tx_not_in(gone)) == if gone.contains(last.tx_hash) {
            firsts.filter(tx_not_in(gone))
        } else {
            firsts.filter(tx_not_in(gone)).push(last)
        });
        if keep(last) {
            let kept = front.filter(keep);
            assert(infos.filter(keep) == kept.push(last));
            lemma_hashes_push(kept, last);
            assert(kept.push(last).drop_last() =~= kept);
            assert(hashes(infos.filter(keep)) =~= hashes(infos).difference(gone));
        } else {
            assert(infos.filter(keep) == front.filter(keep));
            assert(hashes(infos.filter(keep)) =~= hashes(infos).difference(gone));
        }
    }
}

/// Reporting entries and leaving transactions out commute.
proof fn lemma_reports_of_kept(m: StateModel, infos: Seq<InscriptionInfo>, gone: Set<TxHash>)
    requires
        m.wf(),
        stored_carry_their_hash(m),
    ensures
        infos.filter(tx_not_in(gone)).filter_map(m.as_update_tx()) == infos.filter_map(
            m.as_update_tx(),
        ).filter(report_not_in(gone)),
    decreases infos.len(),
{
    reveal(Seq::filter);
    reveal(Seq::filter_map);
    let f = m.as_update_tx();
    let keep = tx_not_in(gone);
    if infos.len() == 0 {
        assert(infos.filter(keep).filter_map(f) =~= Seq::empty());
        assert(infos.filter_map(f).filter(report_not_in(gone)) =~= Seq::empty());
    } else {
        let front = infos.drop_last();
        let last = infos.last();
        lemma_reports_of_kept(m, front, gone);
        lemma_report_hash(m, last);
        let kept = front.filter(keep);
        let reports = front.filter_map(f);
        assert(kept.push(last).drop_last() =~= kept);
        if let Some(report) = f(last) {
            assert(reports + seq![report] =~= reports.push(report));
            assert(reports.push(report).drop_last() =~= reports);
            assert(kept.filter_map(f) + seq![report] =~= kept.filter_map(f).push(report));
            assert(infos.filter_map(f) == reports.push(report));
            assert(reports.push(report).filter(report_not_in(gone)) == if gone.contains(
                last.tx_hash,
            ) {
                reports.filter(report_not_in(gone))
            } else {
                reports.filter(report_not_in(gone)).push(report)
            });
            assert(kept.push(last).filter_map(f) == kept.filter_map(f).push(report));
        } else {
            assert(kept.push(last).filter_map(f) == kept.filter_map(f));
        }
    }
}

proof fn lemma_split(txs: Seq<ChannelUpdateTx>, set: Set<TxHash>)
    ensures
        txs.to_multiset() == txs.filter(report_in(set)).to_multiset().add(
            txs.filter(report_not_in(set)).to_multiset(),
        ),
        txs.filter(report_not_in(set)).len() == 0 ==> txs.filter(report_in(set)) == txs,
    decreases txs.len(),
{
    reveal(Seq::filter);
    if txs.len() == 0 {
        assert(txs =~= Seq::empty());
        txs.to_multiset_ensures();
        assert(txs.to_multiset() =~= txs.to_multiset().add(txs.to_multiset()));
    } else {
        let front = txs.drop_last();
        let last = txs.last();
        lemma_split(front, set);
        let inside = front.filter(report_in(set));
        let outside = front.filter(report_not_in(set));
        assert(txs =~= front.push(last));
        front.to_multiset_ensures();
        inside.to_multiset_ensures();
        outside.to_multiset_ensures();
        assert(inside.push(last).to_multiset().add(outside.to_multiset()) =~= inside.to_multiset()
            .add(outside.to_multiset()).insert(last));
        assert(inside.to_multiset().add(outside.push(last).to_multiset()) =~= inside.to_multiset()
            .add(outside.to_multiset()).insert(last));
    }
}

proof fn lemma_filter_twice<A>(
    s: Seq<A>,
    first: spec_fn(A) -> bool,
    second: spec_fn(A) -> bool,
    both: spec_fn(A) -> bool,
)
    requires
        forall|i: int|
            0 <= i < s.len() ==> (both(#[trigger] s[i]) <==> first(s[i]) && second(s[i])),
    ensures
        s.filter(first).filter(second) == s.filter(both),
    decreases s.len(),
{
    reveal(Seq::filter);
    if s.len() > 0 {
        let front = s.drop_last();
        let last = s.last();
        lemma_filter_twice(front, first, second, both);
        assert(both(s[s.len() - 1]) <==> first(last) && second(last));
        let kept = front.filter(first);
        assert(kept.push(last).drop_last() =~= kept);
        if first(last) {
            assert(s.filter(first) == kept.push(last));
        }
    }
}

proof fn lemma_prefix_msgs(lineage: Seq<InscriptionInfo>, n: int, msg: MsgId)
    requires
        0 <= n <= lineage.len(),
        msgs(lineage.take(n)).contains(msg),
    ensures
        msgs(lineage).contains(msg),
{
    let front = lineage.take(n).map_values(msg_of());
    let ids = lineage.map_values(msg_of());
    let i = front.index_of(msg);
    assert(front.contains(msg));
    assert(ids[i] == front[i]);
    assert(ids.contains(msg));
}

/// An entry of the view is of the old lineage exactly where its transaction
/// is: no message comes back in another transaction, and the entries of a
/// transaction come and go together.
pub open spec fn whole_transactions(
    m: StateModel,
    old_lineage: Seq<InscriptionInfo>,
    tip: HeaderId,
    finalized_now: Set<MsgId>,
) -> bool {
    let lineage = m.lineage(tip);
    let settled = m.finalized_prefix(lineage).union(finalized_now);
    forall|i: int|
        0 <= i < lineage.len() && !settled.contains((#[trigger] lineage[i]).this_msg) ==> (msgs(
            old_lineage,
        ).contains(lineage[i].this_msg) <==> hashes(old_lineage).contains(lineage[i].tx_hash))
}

proof fn lemma_settled_is_old(
    m: StateModel,
    old_lineage: Seq<InscriptionInfo>,
    lineage: Seq<InscriptionInfo>,
    finalized_now: Set<MsgId>,
    msg: MsgId,
)
    ensures
        !msgs(old_lineage).contains(msg) ==> (m.settled_ids(
            old_lineage,
            lineage,
            finalized_now,
        ).contains(msg) <==> m.finalized_prefix(lineage).union(finalized_now).contains(msg)),
{
    if m.finalized_prefix(old_lineage).contains(msg) {
        lemma_last_position(old_lineage, old_lineage.len() as int, m.is_finalized_msg());
        lemma_last_position(old_lineage, old_lineage.len() as int, m.is_finalized_config());
        lemma_prefix_msgs(old_lineage, m.boundary(old_lineage) + 1, msg);
    }
}

pub proof fn lemma_last_position(
    lineage: Seq<InscriptionInfo>,
    n: int,
    matching: spec_fn(InscriptionInfo) -> bool,
)
    requires
        0 <= n,
    ensures
        -1 <= last_position(lineage, n, matching) < n || n == 0 && last_position(
            lineage,
            n,
            matching,
        ) == -1,
    decreases n,
{
    if n > 0 {
        lemma_last_position(lineage, n - 1, matching);
    }
}

/// The channel view above LIB is what it had before and what was adopted:
/// each transaction of the view is in the common prefix or adopted, in
/// neither twice, and both keep its order. Where nothing was orphaned, the
/// adopted are reported without what this sequencer held; where there is no
/// update, the prefix is the whole view.
pub proof fn law_view_is_prefix_and_adopted(
    m: StateModel,
    old_lineage: Seq<InscriptionInfo>,
    tip: HeaderId,
    finalized_now: Set<MsgId>,
    held_before: Set<TxHash>,
)
    requires
        consistent(m),
        whole_transactions(m, old_lineage, tip, finalized_now),
    ensures
        ({
            let view = m.view_txs(tip, finalized_now);
            let prefix = view.filter(report_in(hashes(old_lineage)));
            let adopted = m.update_txs(m.adopted_infos(old_lineage, tip, finalized_now));
            &&& adopted == view.filter(report_not_in(hashes(old_lineage)))
            &&& view.to_multiset() == prefix.to_multiset().add(adopted.to_multiset())
            &&& match update_from(m, old_lineage, tip, finalized_now, held_before) {
                Some(update) => update.adopted == if update.orphaned.len() == 0 {
                    adopted.filter(report_not_in(held_before))
                } else {
                    adopted
                },
                None => prefix == view,
            }
        }),
{
    let lineage = m.lineage(tip);
    let settled = m.finalized_prefix(lineage).union(finalized_now);
    let all_settled = m.settled_ids(old_lineage, lineage, finalized_now);
    let gone = hashes(old_lineage);
    let infos = lineage.filter(msg_not_in(settled));
    let keep = msg_not_in(msgs(old_lineage));
    let both = msg_in_neither(msgs(old_lineage), all_settled);
    assert forall|i: int| 0 <= i < lineage.len() implies (both(#[trigger] lineage[i])
        <==> msg_not_in(settled)(lineage[i]) && keep(lineage[i])) by {
        lemma_settled_is_old(m, old_lineage, lineage, finalized_now, lineage[i].this_msg);
    }
    lemma_filter_twice(lineage, msg_not_in(settled), keep, both);
    assert(m.adopted_infos(old_lineage, tip, finalized_now) == infos.filter(keep));
    assert forall|i: int| 0 <= i < infos.len() implies (keep(#[trigger] infos[i])
        <==> !gone.contains(infos[i].tx_hash)) by {
        assert(infos.contains(infos[i]));
        lemma_filter_member(lineage, msg_not_in(settled), infos[i]);
        let k = lineage.index_of(infos[i]);
        assert(lineage[k] == infos[i]);
    }
    lemma_first_of_kept(infos, keep, gone);
    lemma_reports_of_kept(m, first_of_tx(infos), gone);
    let view = m.view_txs(tip, finalized_now);
    lemma_split(view, gone);
    if m.adopted_infos(old_lineage, tip, finalized_now).len() == 0 {
        reveal(Seq::filter_map);
        assert(m.update_txs(m.adopted_infos(old_lineage, tip, finalized_now)).len() == 0);
    }
}

// Once each.

proof fn lemma_first_of_tx_differ(infos: Seq<InscriptionInfo>)
    ensures
        forall|i: int, j: int|
            0 <= i < j < first_of_tx(infos).len() ==> (#[trigger] first_of_tx(infos)[i]).tx_hash
                != (#[trigger] first_of_tx(infos)[j]).tx_hash,
        forall|i: int|
            0 <= i < first_of_tx(infos).len() ==> hashes(infos).contains(
                (#[trigger] first_of_tx(infos)[i]).tx_hash,
            ),
    decreases infos.len(),
{
    if infos.len() > 0 {
        let front = infos.drop_last();
        lemma_first_of_tx_differ(front);
        assert(infos =~= front.push(infos.last()));
        lemma_hashes_push(front, infos.last());
    }
}

/// Reports of entries of different transactions are of different transactions.
proof fn lemma_reports_differ(m: StateModel, infos: Seq<InscriptionInfo>)
    requires
        m.wf(),
        stored_carry_their_hash(m),
        forall|i: int, j: int|
            0 <= i < j < infos.len() ==> (#[trigger] infos[i]).tx_hash != (
            #[trigger] infos[j]).tx_hash,
    ensures
        infos.filter_map(m.as_update_tx()).map_values(hash_of_report()).no_duplicates(),
        forall|i: int|
            0 <= i < infos.filter_map(m.as_update_tx()).len() ==> hashes(infos).contains(
                (#[trigger] infos.filter_map(m.as_update_tx())[i]).spec_tx_hash(),
            ),
    decreases infos.len(),
{
    reveal(Seq::filter_map);
    let f = m.as_update_tx();
    if infos.len() > 0 {
        let front = infos.drop_last();
        let last = infos.last();
        assert forall|i: int, j: int| 0 <= i < j < front.len() implies (
        #[trigger] front[i]).tx_hash != (#[trigger] front[j]).tx_hash by {
            assert(front[i] == infos[i] && front[j] == infos[j]);
        }
        lemma_reports_differ(m, front);
        lemma_report_hash(m, last);
        assert(infos =~= front.push(last));
        lemma_hashes_push(front, last);
        let told = front.filter_map(f);
        let all = infos.filter_map(f);
        let told_ids = told.map_values(hash_of_report());
        let ids = all.map_values(hash_of_report());
        if hashes(front).contains(last.tx_hash) {
            let front_ids = front.map_values(hash_of());
            assert(front_ids.contains(last.tx_hash));
            let k = front_ids.index_of(last.tx_hash);
            assert(infos[k].tx_hash == infos[infos.len() - 1].tx_hash);
        }
        if let Some(report) = f(last) {
            assert(all == told + seq![report]);
            assert forall|i: int, j: int| 0 <= i < j < ids.len() implies ids[i] != ids[j] by {
                assert(ids[i] == told_ids[i]);
                assert(hashes(front).contains(told[i].spec_tx_hash()));
                if j < told_ids.len() {
                    assert(ids[j] == told_ids[j]);
                }
            }
        }
    }
}

proof fn lemma_update_txs_differ(m: StateModel, infos: Seq<InscriptionInfo>)
    requires
        m.wf(),
        stored_carry_their_hash(m),
    ensures
        m.update_txs(infos).map_values(hash_of_report()).no_duplicates(),
{
    lemma_first_of_tx_differ(infos);
    lemma_reports_differ(m, first_of_tx(infos));
}

proof fn lemma_filter_differ(txs: Seq<ChannelUpdateTx>, keep: spec_fn(ChannelUpdateTx) -> bool)
    requires
        txs.map_values(hash_of_report()).no_duplicates(),
    ensures
        txs.filter(keep).map_values(hash_of_report()).no_duplicates(),
    decreases txs.len(),
{
    reveal(Seq::filter);
    if txs.len() > 0 {
        let front = txs.drop_last();
        let last = txs.last();
        let ids = txs.map_values(hash_of_report());
        let front_ids = front.map_values(hash_of_report());
        assert forall|i: int, j: int|
            0 <= i < front_ids.len() && 0 <= j < front_ids.len() && i != j implies front_ids[i]
            != front_ids[j] by {
            assert(front_ids[i] == ids[i] && front_ids[j] == ids[j]);
        }
        lemma_filter_differ(front, keep);
        let kept = front.filter(keep);
        if keep(last) {
            let all = kept.push(last).map_values(hash_of_report());
            let kept_ids = kept.map_values(hash_of_report());
            assert forall|i: int, j: int| 0 <= i < j < all.len() implies all[i] != all[j] by {
                assert(all[i] == kept_ids[i]);
                if j < kept.len() {
                    assert(all[j] == kept_ids[j]);
                } else {
                    assert(kept.contains(kept[i]));
                    lemma_filter_member(front, keep, kept[i]);
                    let k = front.index_of(kept[i]);
                    assert(ids[k] == kept[i].spec_tx_hash());
                    assert(ids[txs.len() - 1] == last.spec_tx_hash());
                }
            }
        }
    }
}

/// No transaction is reported twice: not among the adopted, not among the
/// orphaned, and not in the view.
pub proof fn law_no_transaction_is_told_twice(
    m: StateModel,
    old_lineage: Seq<InscriptionInfo>,
    tip: HeaderId,
    finalized_now: Set<MsgId>,
    held_before: Set<TxHash>,
)
    requires
        consistent(m),
    ensures
        update_from(m, old_lineage, tip, finalized_now, held_before) matches Some(update) ==> {
            &&& update.adopted.map_values(hash_of_report()).no_duplicates()
            &&& update.orphaned.map_values(hash_of_report()).no_duplicates()
        },
        m.view_txs(tip, finalized_now).map_values(hash_of_report()).no_duplicates(),
{
    let adopted = m.adopted_infos(old_lineage, tip, finalized_now);
    lemma_update_txs_differ(m, adopted);
    lemma_update_txs_differ(m, m.orphaned_infos(old_lineage, tip, finalized_now));
    lemma_filter_differ(m.update_txs(adopted), report_not_in(held_before));
    let lineage = m.lineage(tip);
    lemma_update_txs_differ(
        m,
        lineage.filter(msg_not_in(m.finalized_prefix(lineage).union(finalized_now))),
    );
}

/// Every entry of a list is reported: none is of a transaction that only moves
/// the lineage, with no payload to apply.
pub open spec fn all_told(m: StateModel, infos: Seq<InscriptionInfo>) -> bool {
    forall|i: int| 0 <= i < infos.len() ==> m.update_tx(#[trigger] infos[i]) is Some
}

proof fn lemma_told_each(m: StateModel, infos: Seq<InscriptionInfo>)
    requires
        consistent(m),
        all_told(m, infos),
    ensures
        infos.filter_map(m.as_update_tx()).map_values(hash_of_report()) == infos.map_values(
            hash_of(),
        ),
    decreases infos.len(),
{
    reveal(Seq::filter_map);
    let f = m.as_update_tx();
    if infos.len() > 0 {
        let front = infos.drop_last();
        let last = infos.last();
        assert forall|i: int| 0 <= i < front.len() implies m.update_tx(#[trigger] front[i]) is Some by {
            assert(front[i] == infos[i]);
        }
        lemma_told_each(m, front);
        assert(infos[infos.len() - 1] == last);
        lemma_report_hash(m, last);
        let told = front.filter_map(f);
        assert(infos.filter_map(f) == told + seq![f(last)->0]);
        assert((told + seq![f(last)->0]).map_values(hash_of_report()) =~= told.map_values(
            hash_of_report(),
        ).push(last.tx_hash));
        assert(infos.map_values(hash_of()) =~= front.map_values(hash_of()).push(last.tx_hash));
    } else {
        assert(infos.filter_map(f).map_values(hash_of_report()) =~= infos.map_values(hash_of()));
    }
}

proof fn lemma_first_of_tx_from(infos: Seq<InscriptionInfo>, i: int)
    requires
        0 <= i < first_of_tx(infos).len(),
    ensures
        infos.contains(first_of_tx(infos)[i]),
    decreases infos.len(),
{
    let front = infos.drop_last();
    let so_far = first_of_tx(front);
    if i < so_far.len() {
        lemma_first_of_tx_from(front, i);
        assert(infos[front.index_of(so_far[i])] == so_far[i]);
    } else {
        assert(infos[infos.len() - 1] == infos.last());
    }
}

/// Where every entry is reported, the reports are of the transactions of the
/// entries, each once and in order.
pub proof fn lemma_told_transactions(m: StateModel, infos: Seq<InscriptionInfo>)
    requires
        consistent(m),
        all_told(m, infos),
    ensures
        m.update_txs(infos).map_values(hash_of_report()) == first_of_tx(infos).map_values(
            hash_of(),
        ),
        forall|i: int|
            0 <= i < m.update_txs(infos).len() ==> hashes(infos).contains(
                (#[trigger] m.update_txs(infos)[i]).spec_tx_hash(),
            ),
{
    let first = first_of_tx(infos);
    assert forall|i: int| 0 <= i < first.len() implies m.update_tx(#[trigger] first[i]) is Some by {
        lemma_first_of_tx_from(infos, i);
        let k = infos.index_of(first[i]);
        assert(infos[k] == first[i]);
    }
    lemma_told_each(m, first);
    lemma_first_of_tx_differ(infos);
    let told = m.update_txs(infos);
    let ids = told.map_values(hash_of_report());
    let first_ids = first.map_values(hash_of());
    assert(ids == first_ids);
    assert(ids.len() == told.len() && first_ids.len() == first.len());
    assert forall|i: int| 0 <= i < told.len() implies hashes(infos).contains(
        (#[trigger] told[i]).spec_tx_hash(),
    ) by {
        assert(ids[i] == told[i].spec_tx_hash());
        assert(first_ids[i] == first[i].tx_hash);
    }
}

/// Processing and storing blocks whose transactions carry their hash keeps it
/// so.
pub proof fn law_blocks_keep_carrying_their_hash(
    m: StateModel,
    block: HeaderId,
    parent: HeaderId,
    lib: HeaderId,
    our_txs: Seq<TxHash>,
    channel_txs: Seq<BlockChannelTx>,
    note_ops: Seq<NoteOp>,
    signed: Seq<SignedOps>,
)
    requires
        stored_carry_their_hash(m),
        forall|i: int| 0 <= i < channel_txs.len() ==> carries_its_hash(#[trigger] channel_txs[i]),
    ensures
        stored_carry_their_hash(
            m.process_block(block, parent, lib, our_txs, channel_txs, note_ops),
        ),
        stored_carry_their_hash(m.store_signed(block, signed)),
{
    let added = m.add_block(block, parent, our_txs, channel_txs, note_ops);
    assert(stored_carry_their_hash(added));
    let n = m.process_block(block, parent, lib, our_txs, channel_txs, note_ops);
    assert forall|b: HeaderId, i: int|
        n.stored.contains_key(b) && 0 <= i
            < n.stored[b].channel_txs.len() implies carries_its_hash(
        #[trigger] n.stored[b].channel_txs[i],
    ) by {
        assert(added.stored.contains_key(b) && added.stored[b] == n.stored[b]);
        assert(carries_its_hash(added.stored[b].channel_txs[i]));
    }
    let stored = m.store_signed(block, signed);
    assert forall|b: HeaderId, i: int|
        stored.stored.contains_key(b) && 0 <= i
            < stored.stored[b].channel_txs.len() implies carries_its_hash(
        #[trigger] stored.stored[b].channel_txs[i],
    ) by {
        if m.stored.contains_key(b) {
            assert(carries_its_hash(m.stored[b].channel_txs[i]));
        }
    }
}

// An extension.

/// Each entry continues the one before it, the first one `start`.
pub open spec fn chained(start: MsgId, infos: Seq<InscriptionInfo>) -> bool {
    forall|i: int|
        0 <= i < infos.len() ==> (#[trigger] infos[i]).parent_msg == if i == 0 {
            start
        } else {
            infos[i - 1].this_msg
        }
}

/// No message occurs twice.
pub open spec fn distinct_msgs(infos: Seq<InscriptionInfo>) -> bool {
    forall|i: int, j: int|
        0 <= i < j < infos.len() ==> (#[trigger] infos[i]).this_msg != (
        #[trigger] infos[j]).this_msg
}

/// Of two chains from one message, one that lies in the other is its start.
proof fn lemma_chain_is_start(
    start: MsgId,
    short: Seq<InscriptionInfo>,
    long: Seq<InscriptionInfo>,
    n: int,
)
    requires
        chained(start, short),
        chained(start, long),
        distinct_msgs(long),
        !msgs(long).contains(start),
        forall|i: int| 0 <= i < short.len() ==> long.contains(#[trigger] short[i]),
        0 <= n <= short.len(),
    ensures
        n <= long.len(),
        short.take(n) == long.take(n),
    decreases n,
{
    if n == 0 {
        assert(short.take(0) =~= long.take(0));
    } else {
        lemma_chain_is_start(start, short, long, n - 1);
        let j = long.index_of(short[n - 1]);
        assert(long.contains(short[n - 1]));
        assert(long[j] == short[n - 1]);
        if n == 1 {
            if j > 0 {
                lemma_msgs_of(long, j - 1);
            }
        } else {
            assert(short.take(n - 1)[n - 2] == long.take(n - 1)[n - 2]);
            assert(short[n - 1].parent_msg == short[n - 2].this_msg);
            assert(short[n - 2] == long[n - 2]);
            if j == 0 {
                lemma_msgs_of(long, n - 2);
            } else {
                assert(long[j].parent_msg == long[j - 1].this_msg);
            }
        }
        assert(j == n - 1);
        assert(short.take(n) =~= short.take(n - 1).push(short[n - 1]));
        assert(long.take(n) =~= long.take(n - 1).push(long[n - 1]));
    }
}

proof fn lemma_msgs_of(infos: Seq<InscriptionInfo>, i: int)
    requires
        0 <= i < infos.len(),
    ensures
        msgs(infos).contains(infos[i].this_msg),
{
    let ids = infos.map_values(msg_of());
    assert(ids[i] == infos[i].this_msg);
    assert(ids.contains(infos[i].this_msg));
}

/// Lists of entries with no transaction in common are reported one after the
/// other.
pub proof fn lemma_reports_of_parts(
    m: StateModel,
    front: Seq<InscriptionInfo>,
    back: Seq<InscriptionInfo>,
)
    requires
        hashes(front).disjoint(hashes(back)),
    ensures
        m.update_txs(front + back) == m.update_txs(front) + m.update_txs(back),
        hashes(front + back) == hashes(front).union(hashes(back)),
    decreases back.len(),
{
    reveal(Seq::filter_map);
    let f = m.as_update_tx();
    if back.len() == 0 {
        assert(front + back =~= front);
        assert(m.update_txs(back) =~= Seq::empty());
        assert(m.update_txs(front) + m.update_txs(back) =~= m.update_txs(front));
        assert(back.map_values(hash_of()) =~= Seq::empty());
        assert(hashes(front) =~= hashes(front).union(hashes(back)));
    } else {
        let rest = back.drop_last();
        let last = back.last();
        assert(back =~= rest.push(last));
        lemma_hashes_push(rest, last);
        assert(hashes(back).contains(last.tx_hash));
        assert(!hashes(front).contains(last.tx_hash));
        lemma_reports_of_parts(m, front, rest);
        lemma_hashes_push(front + rest, last);
        assert((front + back).drop_last() =~= front + rest);
        assert((front + rest).push(last) =~= front + back);
        assert(hashes(front + back) =~= hashes(front).union(hashes(back)));
        if !hashes(rest).contains(last.tx_hash) {
            let firsts = first_of_tx(rest);
            let all_firsts = first_of_tx(front + rest);
            assert(first_of_tx(back) == firsts.push(last));
            assert(first_of_tx(front + back) == all_firsts.push(last));
            assert(firsts.push(last).drop_last() =~= firsts);
            assert(all_firsts.push(last).drop_last() =~= all_firsts);
            if let Some(report) = f(last) {
                assert(m.update_txs(front) + (firsts.filter_map(f) + seq![report]) =~= (
                m.update_txs(front) + firsts.filter_map(f)) + seq![report]);
            }
        }
    }
}

/// On an extension the new view is the previous one followed by what was
/// adopted: where both chain on from one message and nothing is orphaned, the
/// unsettled part of the new lineage is that of the old one with the adopted
/// entries after it, and so are the reports of whole transactions.
pub proof fn law_extension_appends_the_adopted(
    m: StateModel,
    old_lineage: Seq<InscriptionInfo>,
    tip: HeaderId,
    finalized_now: Set<MsgId>,
    start: MsgId,
)
    requires
        ({
            let lineage = m.lineage(tip);
            let unsettled = msg_not_in(m.settled_ids(old_lineage, lineage, finalized_now));
            let old_part = old_lineage.filter(unsettled);
            let new_part = lineage.filter(unsettled);
            &&& chained(start, old_part)
            &&& chained(start, new_part)
            &&& distinct_msgs(new_part)
            &&& !msgs(new_part).contains(start)
            &&& forall|i: int, j: int|
                0 <= i < old_part.len() && 0 <= j < new_part.len() && (
                #[trigger] old_part[i]).this_msg == (#[trigger] new_part[j]).this_msg
                    ==> old_part[i] == new_part[j]
        }),
        m.orphaned_infos(old_lineage, tip, finalized_now).len() == 0,
    ensures
        ({
            let lineage = m.lineage(tip);
            let unsettled = msg_not_in(m.settled_ids(old_lineage, lineage, finalized_now));
            lineage.filter(unsettled) == old_lineage.filter(unsettled) + m.adopted_infos(
                old_lineage,
                tip,
                finalized_now,
            )
        }),
        ({
            let lineage = m.lineage(tip);
            let unsettled = msg_not_in(m.settled_ids(old_lineage, lineage, finalized_now));
            let old_part = old_lineage.filter(unsettled);
            let adopted = m.adopted_infos(old_lineage, tip, finalized_now);
            m.finalized_prefix(old_lineage).subset_of(
                m.finalized_prefix(lineage).union(finalized_now),
            ) && hashes(old_part).disjoint(hashes(adopted)) ==> m.view_txs(tip, finalized_now)
                == m.update_txs(old_part) + m.update_txs(adopted)
        }),
{
    let lineage = m.lineage(tip);
    let settled = m.settled_ids(old_lineage, lineage, finalized_now);
    let unsettled = msg_not_in(settled);
    let old_part = old_lineage.filter(unsettled);
    let new_part = lineage.filter(unsettled);
    let fresh = msg_not_in(msgs(old_lineage));
    let left = msg_in_neither(msgs(lineage), settled);
    assert forall|i: int| 0 <= i < old_part.len() implies new_part.contains(
        #[trigger] old_part[i],
    ) by {
        let info = old_part[i];
        assert(old_part.contains(info));
        lemma_filter_member(old_lineage, unsettled, info);
        if !msgs(lineage).contains(info.this_msg) {
            lemma_filter_member(old_lineage, left, info);
            assert(old_lineage.filter(left).contains(info));
            assert(old_lineage.filter(left).len() > 0);
        }
        let ids = lineage.map_values(msg_of());
        let k = ids.index_of(info.this_msg);
        assert(ids.contains(info.this_msg));
        assert(lineage[k].this_msg == info.this_msg);
        assert(lineage.contains(lineage[k]));
        lemma_filter_member(lineage, unsettled, lineage[k]);
        let j = new_part.index_of(lineage[k]);
        assert(new_part[j].this_msg == old_part[i].this_msg);
    }
    lemma_chain_is_start(start, old_part, new_part, old_part.len() as int);
    let n = old_part.len() as int;
    assert(old_part.take(n) =~= old_part);
    let rest = new_part.skip(n);
    assert(new_part =~= old_part + rest);
    lemma_filter_twice(
        lineage,
        unsettled,
        fresh,
        msg_in_neither(msgs(old_lineage), settled),
    );
    Seq::filter_distributes_over_add(old_part, rest, fresh);
    assert(old_part.filter(fresh).len() == 0) by {
        let kept = old_part.filter(fresh);
        if kept.len() > 0 {
            let info = kept[0];
            assert(kept.contains(info));
            lemma_filter_member(old_part, fresh, info);
            lemma_filter_member(old_lineage, unsettled, info);
            lemma_msgs_of(old_lineage, old_lineage.index_of(info));
        }
    }
    assert forall|i: int| 0 <= i < rest.len() implies fresh(#[trigger] rest[i]) by {
        let info = rest[i];
        assert(new_part[n + i] == info);
        assert(new_part.contains(info));
        lemma_filter_member(lineage, unsettled, info);
        if msgs(old_lineage).contains(info.this_msg) {
            let ids = old_lineage.map_values(msg_of());
            let k = ids.index_of(info.this_msg);
            assert(ids.contains(info.this_msg));
            assert(old_lineage[k].this_msg == info.this_msg);
            assert(old_lineage.contains(old_lineage[k]));
            lemma_filter_member(old_lineage, unsettled, old_lineage[k]);
            let j = old_part.index_of(old_lineage[k]);
            assert(old_part[j] == new_part.take(n)[j]);
            assert(new_part[j].this_msg == new_part[n + i].this_msg);
        }
    }
    lemma_all_kept(rest, fresh);
    assert(old_part.filter(fresh) + rest =~= rest);
    if hashes(old_part).disjoint(hashes(rest)) {
        lemma_reports_of_parts(m, old_part, rest);
    }
    let new_settled = m.finalized_prefix(lineage).union(finalized_now);
    if m.finalized_prefix(old_lineage).subset_of(new_settled) {
        assert(settled =~= new_settled);
    }
}

proof fn lemma_all_kept<A>(s: Seq<A>, keep: spec_fn(A) -> bool)
    requires
        forall|i: int| 0 <= i < s.len() ==> keep(#[trigger] s[i]),
    ensures
        s.filter(keep) == s,
    decreases s.len(),
{
    reveal(Seq::filter);
    if s.len() > 0 {
        lemma_all_kept(s.drop_last(), keep);
        assert(keep(s[s.len() - 1]));
        assert(s.drop_last().push(s.last()) =~= s);
    }
}

// A conflict.

/// Of a chain off `start`, what another chain off it has comes before what it
/// has not.
proof fn lemma_shared_comes_first(
    start: MsgId,
    old_part: Seq<InscriptionInfo>,
    new_part: Seq<InscriptionInfo>,
    i: int,
    j: int,
)
    requires
        chained(start, old_part),
        chained(start, new_part),
        !msgs(new_part).contains(start),
        forall|a: int, b: int|
            0 <= a < old_part.len() && 0 <= b < new_part.len() && (#[trigger] old_part[a]).this_msg
                == (#[trigger] new_part[b]).this_msg ==> old_part[a] == new_part[b],
        0 <= i <= j < new_part.len(),
        msgs(old_part).contains(new_part[j].this_msg),
    ensures
        msgs(old_part).contains(new_part[i].this_msg),
    decreases j - i,
{
    if i < j {
        let ids = old_part.map_values(msg_of());
        let a = ids.index_of(new_part[j].this_msg);
        assert(ids.contains(new_part[j].this_msg));
        assert(old_part[a].this_msg == new_part[j].this_msg);
        assert(old_part[a] == new_part[j]);
        lemma_msgs_of(new_part, j - 1);
        assert(a > 0);
        lemma_msgs_of(old_part, a - 1);
        lemma_shared_comes_first(start, old_part, new_part, i, j - 1);
    }
}

/// How many entries of a chain come before the first that another has not.
spec fn shared(infos: Seq<InscriptionInfo>, old: Set<MsgId>) -> int
    decreases infos.len(),
{
    if infos.len() == 0 || !old.contains(infos[0].this_msg) {
        0
    } else {
        1 + shared(infos.drop_first(), old)
    }
}

proof fn lemma_shared(infos: Seq<InscriptionInfo>, old: Set<MsgId>)
    ensures
        0 <= shared(infos, old) <= infos.len(),
        forall|i: int|
            0 <= i < shared(infos, old) ==> old.contains((#[trigger] infos[i]).this_msg),
        shared(infos, old) < infos.len() ==> !old.contains(
            infos[shared(infos, old)].this_msg,
        ),
    decreases infos.len(),
{
    if infos.len() > 0 && old.contains(infos[0].this_msg) {
        let rest = infos.drop_first();
        lemma_shared(rest, old);
        assert forall|i: int| 0 <= i < shared(infos, old) implies old.contains(
            (#[trigger] infos[i]).this_msg,
        ) by {
            if i > 0 {
                assert(rest[i - 1] == infos[i]);
            }
        }
    }
}

/// What is told of whole transactions is of the transactions of their entries.
proof fn lemma_told_of_entries(m: StateModel, infos: Seq<InscriptionInfo>, i: int)
    requires
        m.wf(),
        stored_carry_their_hash(m),
        0 <= i < m.update_txs(infos).len(),
    ensures
        hashes(infos).contains(m.update_txs(infos)[i].spec_tx_hash()),
{
    let firsts = first_of_tx(infos);
    lemma_first_of_tx_differ(infos);
    lemma_reports_differ(m, firsts);
    let hash = m.update_txs(infos)[i].spec_tx_hash();
    assert(hashes(firsts).contains(hash));
    let ids = firsts.map_values(hash_of());
    let k = ids.index_of(hash);
    assert(firsts[k].tx_hash == hash);
}

/// Where the views before and after chain on from one message, the new view is
/// the common prefix followed by what was adopted, as lists; also where
/// something was orphaned.
pub proof fn law_view_is_the_prefix_then_the_adopted(
    m: StateModel,
    old_lineage: Seq<InscriptionInfo>,
    tip: HeaderId,
    finalized_now: Set<MsgId>,
    start: MsgId,
)
    requires
        consistent(m),
        whole_transactions(m, old_lineage, tip, finalized_now),
        ({
            let lineage = m.lineage(tip);
            let open = msg_not_in(m.finalized_prefix(lineage).union(finalized_now));
            let old_part = old_lineage.filter(open);
            let new_part = lineage.filter(open);
            &&& chained(start, old_part)
            &&& chained(start, new_part)
            &&& !msgs(new_part).contains(start)
            &&& forall|a: int, b: int|
                0 <= a < old_part.len() && 0 <= b < new_part.len() && (
                #[trigger] old_part[a]).this_msg == (#[trigger] new_part[b]).this_msg
                    ==> old_part[a] == new_part[b]
        }),
    ensures
        ({
            let view = m.view_txs(tip, finalized_now);
            view == view.filter(report_in(hashes(old_lineage))) + m.update_txs(
                m.adopted_infos(old_lineage, tip, finalized_now),
            )
        }),
{
    let lineage = m.lineage(tip);
    let settled = m.finalized_prefix(lineage).union(finalized_now);
    let all_settled = m.settled_ids(old_lineage, lineage, finalized_now);
    let open = msg_not_in(settled);
    let old_part = old_lineage.filter(open);
    let new_part = lineage.filter(open);
    let old = msgs(old_lineage);
    let gone = hashes(old_lineage);
    let n = shared(new_part, old);
    lemma_shared(new_part, old);
    let front = new_part.take(n);
    let back = new_part.skip(n);
    assert(new_part =~= front + back);
    assert forall|i: int| 0 <= i < new_part.len() implies {
        &&& old.contains((#[trigger] new_part[i]).this_msg) <==> i < n
        &&& old.contains(new_part[i].this_msg) <==> gone.contains(new_part[i].tx_hash)
    } by {
        assert(new_part.contains(new_part[i]));
        lemma_filter_member(lineage, open, new_part[i]);
        let k = lineage.index_of(new_part[i]);
        assert(lineage[k] == new_part[i]);
        if i >= n && old.contains(new_part[i].this_msg) {
            let ids = old_lineage.map_values(msg_of());
            let a = ids.index_of(new_part[i].this_msg);
            assert(ids.contains(new_part[i].this_msg));
            assert(old_lineage.contains(old_lineage[a]));
            lemma_filter_member(old_lineage, open, old_lineage[a]);
            lemma_msgs_of(old_part, old_part.index_of(old_lineage[a]));
            lemma_shared_comes_first(start, old_part, new_part, n, i);
            let part_ids = old_part.map_values(msg_of());
            let b = part_ids.index_of(new_part[n].this_msg);
            assert(part_ids.contains(new_part[n].this_msg));
            assert(old_part.contains(old_part[b]));
            lemma_filter_member(old_lineage, open, old_part[b]);
            lemma_msgs_of(old_lineage, old_lineage.index_of(old_part[b]));
        }
    }
    let keep = msg_not_in(old);
    let both = msg_in_neither(old, all_settled);
    assert forall|i: int| 0 <= i < lineage.len() implies (both(#[trigger] lineage[i])
        <==> open(lineage[i]) && keep(lineage[i])) by {
        lemma_settled_is_old(m, old_lineage, lineage, finalized_now, lineage[i].this_msg);
    }
    lemma_filter_twice(lineage, open, keep, both);
    Seq::filter_distributes_over_add(front, back, keep);
    lemma_none_kept(front, keep);
    assert forall|i: int| 0 <= i < back.len() implies keep(#[trigger] back[i]) by {
        assert(new_part[n + i] == back[i]);
    }
    lemma_all_kept(back, keep);
    assert(front.filter(keep) + back =~= back);
    assert(m.adopted_infos(old_lineage, tip, finalized_now) == back);
    assert forall|hash: TxHash| hashes(front).contains(hash) implies gone.contains(hash) by {
        let ids = front.map_values(hash_of());
        let k = ids.index_of(hash);
        assert(new_part[k] == front[k]);
    }
    assert forall|hash: TxHash| hashes(back).contains(hash) implies !gone.contains(hash) by {
        let ids = back.map_values(hash_of());
        let k = ids.index_of(hash);
        assert(new_part[n + k] == back[k]);
    }
    assert(hashes(front).disjoint(hashes(back)));
    lemma_reports_of_parts(m, front, back);
    let a = m.update_txs(front);
    let b = m.update_txs(back);
    let inside = report_in(gone);
    Seq::filter_distributes_over_add(a, b, inside);
    assert forall|i: int| 0 <= i < a.len() implies inside(#[trigger] a[i]) by {
        lemma_told_of_entries(m, front, i);
    }
    assert forall|i: int| 0 <= i < b.len() implies !inside(#[trigger] b[i]) by {
        lemma_told_of_entries(m, back, i);
    }
    lemma_all_kept(a, inside);
    lemma_none_kept(b, inside);
    assert(a + b.filter(inside) =~= a);
}

proof fn lemma_none_kept<A>(s: Seq<A>, keep: spec_fn(A) -> bool)
    requires
        forall|i: int| 0 <= i < s.len() ==> !keep(#[trigger] s[i]),
    ensures
        s.filter(keep) == Seq::<A>::empty(),
    decreases s.len(),
{
    reveal(Seq::filter);
    if s.len() > 0 {
        lemma_none_kept(s.drop_last(), keep);
        assert(!keep(s[s.len() - 1]));
    }
}

/// The change that a block with orphans tells, put together, is the view at
/// the new tip: what is left of the prefix, followed by what is told as
/// adopted, is the view without what of its old part the same block gives up;
/// the whole view, where it gives up none of that.
pub proof fn law_told_conflict_is_the_view(
    m: StateModel,
    old_lineage: Seq<InscriptionInfo>,
    tip: HeaderId,
    finalized_now: Set<MsgId>,
    held_before: Set<TxHash>,
    start: MsgId,
    last_msg_id: MsgId,
    channel_id: ChannelId,
)
    requires
        consistent(m),
        whole_transactions(m, old_lineage, tip, finalized_now),
        ({
            let lineage = m.lineage(tip);
            let open = msg_not_in(m.finalized_prefix(lineage).union(finalized_now));
            let old_part = old_lineage.filter(open);
            let new_part = lineage.filter(open);
            &&& chained(start, old_part)
            &&& chained(start, new_part)
            &&& !msgs(new_part).contains(start)
            &&& forall|a: int, b: int|
                0 <= a < old_part.len() && 0 <= b < new_part.len() && (
                #[trigger] old_part[a]).this_msg == (#[trigger] new_part[b]).this_msg
                    ==> old_part[a] == new_part[b]
        }),
        update_from(m, old_lineage, tip, finalized_now, held_before) matches Some(update)
            && update.orphaned.len() > 0,
    ensures
        ({
            let view = m.view_txs(tip, finalized_now);
            let prefix = view.filter(report_in(hashes(old_lineage)));
            let update = update_from(m, old_lineage, tip, finalized_now, held_before);
            let change = outcome(m, tip, last_msg_id, channel_id, update, prefix).change;
            &&& change is Conflict
            &&& view.skip(prefix.len() as int) == change->Conflict_adopted
            &&& view.take(prefix.len() as int).filter(
                report_not_in(reported(change->orphaned)),
            ) == change->common_prefix
            &&& (forall|i: int|
                0 <= i < prefix.len() ==> !reported(change->orphaned).contains(
                    (#[trigger] prefix[i]).spec_tx_hash(),
                )) ==> change->common_prefix + change->Conflict_adopted == view
        }),
{
    let view = m.view_txs(tip, finalized_now);
    let prefix = view.filter(report_in(hashes(old_lineage)));
    let update = update_from(m, old_lineage, tip, finalized_now, held_before);
    let adopted = m.update_txs(m.adopted_infos(old_lineage, tip, finalized_now));
    law_view_is_the_prefix_then_the_adopted(m, old_lineage, tip, finalized_now, start);
    assert(update->0.adopted == adopted);
    lemma_told_parts(m, tip, last_msg_id, channel_id, update->0, view, prefix, adopted);
}

proof fn lemma_told_parts(
    m: StateModel,
    tip: HeaderId,
    last_msg_id: MsgId,
    channel_id: ChannelId,
    update: UpdateModel,
    view: Seq<ChannelUpdateTx>,
    prefix: Seq<ChannelUpdateTx>,
    adopted: Seq<ChannelUpdateTx>,
)
    requires
        update.orphaned.len() > 0,
        update.adopted == adopted,
        view == prefix + adopted,
    ensures
        ({
            let change = outcome(m, tip, last_msg_id, channel_id, Some(update), prefix).change;
            &&& change is Conflict
            &&& view.skip(prefix.len() as int) == change->Conflict_adopted
            &&& view.take(prefix.len() as int).filter(
                report_not_in(reported(change->orphaned)),
            ) == change->common_prefix
            &&& (forall|i: int|
                0 <= i < prefix.len() ==> !reported(change->orphaned).contains(
                    (#[trigger] prefix[i]).spec_tx_hash(),
                )) ==> change->common_prefix + change->Conflict_adopted == view
        }),
{
    let o = outcome(m, tip, last_msg_id, channel_id, Some(update), prefix);
    law_consumer_is_told_all_that_was_adopted(
        m,
        tip,
        last_msg_id,
        channel_id,
        Some(update),
        prefix,
    );
    lemma_prefix_of_outcome(m, tip, last_msg_id, channel_id, Some(update), prefix);
    assert(view.skip(prefix.len() as int) =~= adopted);
    assert(view.take(prefix.len() as int) =~= prefix);
    let orphaned = o.change->orphaned;
    if forall|i: int|
        0 <= i < prefix.len() ==> !reported(orphaned).contains(
            (#[trigger] prefix[i]).spec_tx_hash(),
        ) {
        lemma_all_kept(prefix, report_not_in(reported(orphaned)));
    }
}

} // verus!
