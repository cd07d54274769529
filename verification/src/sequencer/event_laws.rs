//! What holds of a block event as a whole.

use vstd::prelude::*;

use crate::adapter::EventsReply;
use crate::ids::{ChannelId, HeaderId, MsgId, TxHash};
use crate::mantle::{SignedOps, Slot};
use crate::sequencer::block_event::{
    after_block, after_event, backfill_all, event_handled, event_start, hashes_of_block,
    items_of_block, msg_of_op, prepares_event, report_not_in, settled_msgs, update_from, update_of,
    view_before, BackfilledBlock, BlockEventResult, PreparedBlockEvent,
};
use crate::sequencer::block_fetch::{
    demoted, mirror, mirror_one, mirrorable, observed, ops_of_item, our_hashes, tx_with, BlockEvent,
    FetchedBlock,
};
use crate::sequencer::channel_tx::{classifications, BlockChannelTx};
use crate::sequencer::consistency_laws::{consistent, law_events_keep_consistency};
use crate::sequencer::state_laws::{
    law_observing_keeps_wf, law_process_block_keeps_wf, lemma_filter_member, lemma_without_wf,
};
use crate::sequencer::state_model::{
    hashes, last_position, msg_not_in, msg_of, msgs, OtherModel, PendingBundle, StateModel,
};
use crate::sequencer::types::{FinalizedTx, InscriptionInfo};
use crate::sequencer::updates::hash_of_report;
use crate::sequencer::view_laws::{
    all_told, chained, distinct_msgs, law_extension_appends_the_adopted, lemma_reports_of_parts,
    lemma_told_transactions,
};

verus! {

// The finalized boundary.

/// The same finalized boundary.
spec fn same_boundary(a: StateModel, b: StateModel) -> bool {
    &&& a.lib == b.lib
    &&& a.finalized_msg == b.finalized_msg
    &&& a.finalized_parent_msg == b.finalized_parent_msg
    &&& a.finalized_config == b.finalized_config
}

proof fn lemma_displace_keeps_boundary(m: StateModel, head: TxHash)
    requires
        m.wf(),
    ensures
        same_boundary(m, m.displace(head)),
    decreases m.pending.len() + m.other.len(),
{
    if m.is_tracked(head) {
        let rest = if m.pending.contains_key(head) {
            StateModel {
                displaced: m.displaced.push(m.pending[head].report()),
                ..m.without(head)
            }
        } else {
            StateModel {
                displaced_other: m.displaced_other.push(m.other[head].signed_tx),
                ..m.without(head)
            }
        };
        if let Some(tip) = m.tip_of(head) {
            if let Some(next) = m.child(tip) {
                lemma_without_wf(m, head);
                lemma_displace_keeps_boundary(rest, next);
            }
        }
    }
}

proof fn lemma_cleared_keeps_boundary(m: StateModel, parent: Option<MsgId>)
    requires
        m.wf(),
    ensures
        same_boundary(m, m.cleared(parent)),
{
    if let Some(parent) = parent {
        if let Some(sibling) = m.child(parent) {
            lemma_displace_keeps_boundary(m, sibling);
        }
    }
}

proof fn lemma_mirror_one_keeps_boundary(
    m: StateModel,
    classified: BlockChannelTx,
    txs: Seq<SignedOps>,
    channel_id: ChannelId,
)
    requires
        m.wf(),
    ensures
        mirror_one(m, classified, txs, channel_id).wf(),
        same_boundary(m, mirror_one(m, classified, txs, channel_id)),
{
    let tx = tx_with(txs, classified.spec_tx_hash().unwrap()).unwrap();
    let entry = match classified {
        BlockChannelTx::Inscription(i) => observed(tx, i, PendingBundle::Plain),
        BlockChannelTx::AtomicWithdraw(a) => observed(
            tx,
            a.inscription,
            PendingBundle::Withdraw {
                withdraws: a.withdraws,
                outputs: a.outputs,
            },
        ),
        BlockChannelTx::PinDeposit(a) => observed(
            tx,
            a.inscription,
            PendingBundle::PinDeposit(a.consumed_notes),
        ),
        _ => arbitrary(),
    };
    law_observing_keeps_wf(m, entry, tx, channel_id);
    lemma_cleared_keeps_boundary(m, Some(entry.parent_msg));
    lemma_cleared_keeps_boundary(m, OtherModel::of(tx, channel_id).first_parent());
}

proof fn lemma_mirror_keeps_boundary(
    m: StateModel,
    classified: Seq<BlockChannelTx>,
    txs: Seq<SignedOps>,
    channel_id: ChannelId,
)
    requires
        m.wf(),
    ensures
        mirror(m, classified, txs, channel_id).wf(),
        same_boundary(m, mirror(m, classified, txs, channel_id)),
    decreases classified.len(),
{
    if classified.len() > 0 {
        lemma_mirror_keeps_boundary(m, classified.drop_last(), txs, channel_id);
        lemma_mirror_one_keeps_boundary(
            mirror(m, classified.drop_last(), txs, channel_id),
            classified.last(),
            txs,
            channel_id,
        );
    }
}

proof fn lemma_store_signed_keeps_boundary(m: StateModel, block: HeaderId, txs: Seq<SignedOps>)
    requires
        m.wf(),
    ensures
        m.store_signed(block, txs).wf(),
        same_boundary(m, m.store_signed(block, txs)),
{
    let n = m.store_signed(block, txs);
    if txs.len() > 0 && !m.stored.contains_key(block) {
        let order = m.stored_order;
        assert(!order.contains(block)) by {
            if order.contains(block) {
                assert(order.to_set().contains(block));
            }
        }
        order.lemma_push_to_set_commute(block);
        assert(n.stored_order.to_set() =~= n.stored.dom());
        assert forall|i: int, j: int|
            0 <= i < n.stored_order.len() && 0 <= j < n.stored_order.len() && i
                != j implies n.stored_order[i] != n.stored_order[j] by {
            if i == order.len() {
                assert(order.contains(order[j]));
            } else if j == order.len() {
                assert(order.contains(order[i]));
            }
        }
    } else if txs.len() > 0 {
        assert(n.stored.dom() =~= m.stored.dom());
    }
}

proof fn lemma_backfill_keeps_boundary(
    m: StateModel,
    blocks: Seq<BackfilledBlock>,
    channel_id: ChannelId,
)
    requires
        m.wf(),
    ensures
        backfill_all(m, blocks, m.lib, channel_id).wf(),
        same_boundary(m, backfill_all(m, blocks, m.lib, channel_id)),
    decreases blocks.len(),
{
    if blocks.len() > 0 {
        lemma_backfill_keeps_boundary(m, blocks.drop_last(), channel_id);
        let before = backfill_all(m, blocks.drop_last(), m.lib, channel_id);
        let block = blocks.last().block;
        let txs = block.transactions@;
        let channel_txs = classifications(txs, channel_id).map_values(
            demoted(before.wallet, txs, channel_id),
        );
        let mirrored = mirror(before, channel_txs, txs, channel_id);
        lemma_mirror_keeps_boundary(before, channel_txs, txs, channel_id);
        let ours = our_hashes(txs, channel_id);
        let ops = blocks.last().note_ops@;
        law_process_block_keeps_wf(
            mirrored,
            block.id,
            block.parent_block,
            m.lib,
            ours,
            channel_txs,
            ops,
        );
        let processed = mirrored.process_block(
            block.id,
            block.parent_block,
            m.lib,
            ours,
            channel_txs,
            ops,
        );
        lemma_store_signed_keeps_boundary(processed, block.id, mirrorable(channel_txs, txs));
    }
}

/// An event that finalizes nothing leaves the finalized boundary.
proof fn lemma_event_keeps_boundary(
    start: StateModel,
    prepared: PreparedBlockEvent,
    channel_id: ChannelId,
)
    requires
        start.wf(),
        prepared.finalized@.len() == 0,
        prepared.lib == start.lib,
    ensures
        same_boundary(start, after_event(start, prepared, channel_id)),
{
    let filled = backfill_all(start, prepared.canonical_backfill@, start.lib, channel_id);
    lemma_backfill_keeps_boundary(start, prepared.canonical_backfill@, channel_id);
    let block = prepared.block;
    let txs = block.transactions@;
    let channel_txs = prepared.channel_txs@.map_values(demoted(filled.wallet, txs, channel_id));
    lemma_mirror_keeps_boundary(filled, channel_txs, txs, channel_id);
    let mirrored = if block.id == prepared.tip {
        mirror(filled, channel_txs, txs, channel_id)
    } else {
        filled
    };
    lemma_store_signed_keeps_boundary(mirrored, block.id, mirrorable(channel_txs, txs));
    let stored = mirrored.store_signed(block.id, mirrorable(channel_txs, txs));
    law_process_block_keeps_wf(
        stored,
        block.id,
        block.parent_block,
        prepared.lib,
        prepared.our_txs@,
        channel_txs,
        prepared.note_ops@,
    );
    let processed = after_block(filled, prepared, channel_id);
    let gone = prepared.finalized@.flat_map(hashes_of_block());
    assert(prepared.finalized@ =~= Seq::empty());
    assert(gone =~= Seq::empty());
    assert(processed.without_all(gone) == processed);
    let untracked = processed.untracked_on(prepared.tip);
    lemma_mirror_keeps_boundary(
        processed,
        classifications(untracked, channel_id).map_values(
            demoted(processed.wallet, untracked, channel_id),
        ),
        untracked,
        channel_id,
    );
}

proof fn lemma_same_position(
    lineage: Seq<InscriptionInfo>,
    n: int,
    a: spec_fn(InscriptionInfo) -> bool,
    b: spec_fn(InscriptionInfo) -> bool,
)
    requires
        forall|info: InscriptionInfo| #[trigger] a(info) == b(info),
    ensures
        last_position(lineage, n, a) == last_position(lineage, n, b),
    decreases n,
{
    if n > 0 {
        lemma_same_position(lineage, n - 1, a, b);
    }
}

proof fn lemma_same_finalized_prefix(a: StateModel, b: StateModel, lineage: Seq<InscriptionInfo>)
    requires
        same_boundary(a, b),
    ensures
        a.boundary(lineage) == b.boundary(lineage),
        a.finalized_prefix(lineage) == b.finalized_prefix(lineage),
{
    let n = lineage.len() as int;
    lemma_same_position(lineage, n, a.is_finalized_msg(), b.is_finalized_msg());
    lemma_same_position(lineage, n, a.is_finalized_config(), b.is_finalized_config());
}

// Extensions.

/// The entries of the view at a tip above the finalized boundary.
pub open spec fn unsettled(m: StateModel, tip: HeaderId) -> Seq<InscriptionInfo> {
    let lineage = m.lineage(tip);
    lineage.filter(msg_not_in(m.finalized_prefix(lineage)))
}

/// A message that two lists have is the same entry in both.
pub open spec fn agree(a: Seq<InscriptionInfo>, b: Seq<InscriptionInfo>) -> bool {
    forall|i: int, j: int|
        0 <= i < a.len() && 0 <= j < b.len() && (#[trigger] a[i]).this_msg == (
        #[trigger] b[j]).this_msg ==> a[i] == b[j]
}

/// What is not finalized is one chain of messages off the finalized one, before
/// and after, as the protocol has it; a message that is in both is the same
/// entry, and what is final for one is not open for the other.
pub open spec fn in_one_chain(
    start: StateModel,
    old_tip: HeaderId,
    m: StateModel,
    tip: HeaderId,
) -> bool {
    let before = unsettled(start, old_tip);
    let after = unsettled(m, tip);
    &&& chained(start.finalized_msg, before)
    &&& chained(m.finalized_msg, after)
    &&& distinct_msgs(after)
    &&& !msgs(after).contains(m.finalized_msg)
    &&& agree(before, after)
    &&& msgs(before).disjoint(m.finalized_prefix(m.lineage(tip)))
    &&& msgs(after).disjoint(start.finalized_prefix(start.lineage(old_tip)))
}

proof fn lemma_same_filter(
    infos: Seq<InscriptionInfo>,
    a: spec_fn(InscriptionInfo) -> bool,
    b: spec_fn(InscriptionInfo) -> bool,
)
    requires
        forall|i: int| 0 <= i < infos.len() ==> a(#[trigger] infos[i]) == b(infos[i]),
    ensures
        infos.filter(a) == infos.filter(b),
    decreases infos.len(),
{
    reveal(Seq::filter);
    if infos.len() > 0 {
        let front = infos.drop_last();
        assert forall|i: int| 0 <= i < front.len() implies a(#[trigger] front[i]) == b(front[i]) by {
            assert(front[i] == infos[i]);
        }
        lemma_same_filter(front, a, b);
        assert(infos[infos.len() - 1] == infos.last());
    }
}

/// Leaving out more than is settled leaves the same where what else is left out
/// is not there.
proof fn lemma_open_part(
    lineage: Seq<InscriptionInfo>,
    settled: Set<MsgId>,
    more: Set<MsgId>,
)
    requires
        msgs(lineage.filter(msg_not_in(settled))).disjoint(more),
    ensures
        lineage.filter(msg_not_in(settled.union(more))) == lineage.filter(msg_not_in(settled)),
{
    let part = lineage.filter(msg_not_in(settled));
    assert forall|i: int| 0 <= i < lineage.len() implies msg_not_in(settled.union(more))(
        #[trigger] lineage[i],
    ) == msg_not_in(settled)(lineage[i]) by {
        if !settled.contains(lineage[i].this_msg) {
            assert(lineage.contains(lineage[i]));
            lemma_filter_member(lineage, msg_not_in(settled), lineage[i]);
            let k = part.index_of(lineage[i]);
            let ids = part.map_values(msg_of());
            assert(ids[k] == lineage[i].this_msg);
            assert(ids.contains(lineage[i].this_msg));
            assert(msgs(part).contains(lineage[i].this_msg));
        }
    }
    lemma_same_filter(lineage, msg_not_in(settled.union(more)), msg_not_in(settled));
}

/// What an event that finalizes nothing tells is read off the view before it.
proof fn lemma_event_reads_the_view(
    event: BlockEvent,
    backfill: Seq<FetchedBlock>,
    live: EventsReply,
    channel_id: ChannelId,
    start: StateModel,
    old_tip: HeaderId,
    lib_slots: (Slot, Slot),
    m: StateModel,
    result: BlockEventResult,
)
    requires
        event_handled(
            event,
            Seq::empty(),
            backfill,
            live,
            channel_id,
            (Some(start), Some(old_tip), lib_slots.0),
            (Some(m), Some(event.tip), lib_slots.1),
            result,
        ),
        start.wf(),
        event.lib == start.lib,
    ensures
        same_boundary(start, m),
        update_of(result.channel_update) == update_from(
            m,
            start.lineage(old_tip),
            event.tip,
            Set::empty(),
            start.held(),
        ),
{
    let prepared = choose|prepared: PreparedBlockEvent|
        {
            let after = after_event(start, prepared, channel_id);
            let items = prepared.finalized@.flat_map(items_of_block());
            &&& #[trigger] prepares_event(
                prepared,
                event,
                Seq::empty(),
                backfill,
                live,
                Some(start),
                channel_id,
            )
            &&& Some(m) == Some(after)
            &&& update_of(result.channel_update) == update_from(
                after,
                view_before(start, Some(old_tip), prepared, channel_id),
                event.tip,
                settled_msgs(items),
                start.held(),
            )
        };
    assert(event_start(Some(start), event.lib) == start);
    let items = prepared.finalized@.flat_map(items_of_block());
    assert(prepared.finalized@ =~= Seq::empty());
    assert(items =~= Seq::<FinalizedTx>::empty());
    assert(items.flat_map(ops_of_item()) =~= Seq::empty());
    assert(items.flat_map(ops_of_item()).filter_map(msg_of_op()) =~= Seq::<MsgId>::empty());
    assert(settled_msgs(items) =~= Set::<MsgId>::empty());
    lemma_event_keeps_boundary(start, prepared, channel_id);
    assert(view_before(start, Some(old_tip), prepared, channel_id) == start.lineage(old_tip));
}

/// Where nothing is orphaned, a view extends another with the same boundary by
/// what is adopted.
proof fn lemma_extension(start: StateModel, old_tip: HeaderId, m: StateModel, tip: HeaderId)
    requires
        same_boundary(start, m),
        in_one_chain(start, old_tip, m, tip),
        m.orphaned_infos(start.lineage(old_tip), tip, Set::empty()).len() == 0,
    ensures
        unsettled(m, tip) == unsettled(start, old_tip) + m.adopted_infos(
            start.lineage(old_tip),
            tip,
            Set::empty(),
        ),
{
    let old_lineage = start.lineage(old_tip);
    let lineage = m.lineage(tip);
    let old_settled = start.finalized_prefix(old_lineage);
    let new_settled = m.finalized_prefix(lineage);
    lemma_same_finalized_prefix(start, m, old_lineage);
    let settled = m.settled_ids(old_lineage, lineage, Set::empty());
    lemma_open_part(old_lineage, old_settled, new_settled);
    lemma_open_part(lineage, new_settled, old_settled);
    assert(settled =~= old_settled.union(new_settled));
    assert(settled =~= new_settled.union(old_settled));
    law_extension_appends_the_adopted(m, old_lineage, tip, Set::empty(), m.finalized_msg);
}

/// An event that orphans and finalizes nothing appends to the view: its
/// unsettled entries after the event are those before it, followed by the
/// adopted ones, and reported whole transactions the same way. What the
/// sequencer held before is not told as adopted.
pub proof fn law_extending_event_appends_the_adopted(
    event: BlockEvent,
    backfill: Seq<FetchedBlock>,
    live: EventsReply,
    channel_id: ChannelId,
    start: StateModel,
    old_tip: HeaderId,
    lib_slots: (Slot, Slot),
    m: StateModel,
    result: BlockEventResult,
)
    requires
        event_handled(
            event,
            Seq::empty(),
            backfill,
            live,
            channel_id,
            (Some(start), Some(old_tip), lib_slots.0),
            (Some(m), Some(event.tip), lib_slots.1),
            result,
        ),
        start.wf(),
        event.lib == start.lib,
        in_one_chain(start, old_tip, m, event.tip),
        m.orphaned_infos(start.lineage(old_tip), event.tip, Set::empty()).len() == 0,
    ensures
        ({
            let old_lineage = start.lineage(old_tip);
            let adopted = m.adopted_infos(old_lineage, event.tip, Set::empty());
            &&& unsettled(m, event.tip) == unsettled(start, old_tip) + adopted
            &&& hashes(unsettled(start, old_tip)).disjoint(hashes(adopted)) ==> m.view_txs(
                event.tip,
                Set::empty(),
            ) == m.update_txs(unsettled(start, old_tip)) + m.update_txs(adopted)
            &&& match update_of(result.channel_update) {
                Some(update) => update.orphaned.len() == 0 && update.adopted == m.update_txs(
                    adopted,
                ).filter(report_not_in(start.held())),
                None => adopted.len() == 0,
            }
        }),
{
    let none = Set::<MsgId>::empty();
    let old_lineage = start.lineage(old_tip);
    let adopted = m.adopted_infos(old_lineage, event.tip, none);
    lemma_event_reads_the_view(
        event,
        backfill,
        live,
        channel_id,
        start,
        old_tip,
        lib_slots,
        m,
        result,
    );
    lemma_extension(start, old_tip, m, event.tip);
    let part = unsettled(start, old_tip);
    if hashes(part).disjoint(hashes(adopted)) {
        lemma_view_of_parts(m, part, adopted, event.tip);
    }
    reveal(Seq::filter_map);
    assert(m.update_txs(m.orphaned_infos(old_lineage, event.tip, none)).len() == 0);
}

/// On an event that orphans and finalizes nothing, with everything held in the
/// view and every entry of it reported, the view after the event is the one
/// before it followed by what is told as adopted, transaction by transaction;
/// and nothing that was held is told as adopted. The entries of a transaction
/// come together: none is adopted where another was there before.
pub proof fn law_extending_event_appends_to_the_view(
    event: BlockEvent,
    backfill: Seq<FetchedBlock>,
    live: EventsReply,
    channel_id: ChannelId,
    start: StateModel,
    old_tip: HeaderId,
    lib_slots: (Slot, Slot),
    m: StateModel,
    result: BlockEventResult,
)
    requires
        event_handled(
            event,
            Seq::empty(),
            backfill,
            live,
            channel_id,
            (Some(start), Some(old_tip), lib_slots.0),
            (Some(m), Some(event.tip), lib_slots.1),
            result,
        ),
        consistent(start),
        event.lib == start.lib,
        start.held().subset_of(hashes(unsettled(start, old_tip))),
        all_told(start, unsettled(start, old_tip)),
        all_told(m, unsettled(m, event.tip)),
        m.orphaned_infos(start.lineage(old_tip), event.tip, Set::empty()).len() == 0,
        in_one_chain(start, old_tip, m, event.tip),
        hashes(unsettled(start, old_tip)).disjoint(
            hashes(m.adopted_infos(start.lineage(old_tip), event.tip, Set::empty())),
        ),
    ensures
        ({
            let adopted = match update_of(result.channel_update) {
                Some(update) => update.adopted,
                None => Seq::empty(),
            };
            &&& m.view_txs(event.tip, Set::empty()).map_values(hash_of_report())
                == start.view_txs(old_tip, Set::empty()).map_values(hash_of_report())
                + adopted.map_values(hash_of_report())
            &&& forall|i: int|
                0 <= i < adopted.len() ==> !start.held().contains(
                    (#[trigger] adopted[i]).spec_tx_hash(),
                )
        }),
{
    let none = Set::<MsgId>::empty();
    let old_lineage = start.lineage(old_tip);
    let old_part = unsettled(start, old_tip);
    let infos = m.adopted_infos(old_lineage, event.tip, none);
    law_events_keep_consistency(
        event,
        Seq::empty(),
        backfill,
        live,
        channel_id,
        (Some(start), Some(old_tip), lib_slots.0),
        (Some(m), Some(event.tip), lib_slots.1),
        result,
    );
    law_extending_event_appends_the_adopted(
        event,
        backfill,
        live,
        channel_id,
        start,
        old_tip,
        lib_slots,
        m,
        result,
    );
    let whole = unsettled(m, event.tip);
    assert forall|i: int| 0 <= i < old_part.len() implies m.update_tx(
        #[trigger] old_part[i],
    ) is Some by {
        assert(whole[i] == old_part[i]);
    }
    assert forall|i: int| 0 <= i < infos.len() implies m.update_tx(#[trigger] infos[i]) is Some by {
        assert(whole[old_part.len() + i] == infos[i]);
    }
    lemma_told_transactions(start, old_part);
    lemma_told_transactions(m, old_part);
    lemma_told_transactions(m, infos);
    let told = m.update_txs(infos);
    let new = report_not_in(start.held());
    assert forall|i: int| 0 <= i < told.len() implies new(#[trigger] told[i]) by {
        assert(hashes(infos).contains(told[i].spec_tx_hash()));
        if start.held().contains(told[i].spec_tx_hash()) {
            assert(hashes(old_part).contains(told[i].spec_tx_hash()));
        }
    }
    lemma_filter_all(told, new);
    assert(start.finalized_prefix(old_lineage).union(none) =~= start.finalized_prefix(old_lineage));
    assert(start.view_txs(old_tip, none) == start.update_txs(old_part));
    let before = m.update_txs(old_part);
    assert((before + told).map_values(hash_of_report()) =~= before.map_values(hash_of_report())
        + told.map_values(hash_of_report()));
    if update_of(result.channel_update) is None {
        assert(infos =~= Seq::empty());
        lemma_nothing_told(m, infos);
    }
}

proof fn lemma_nothing_told(m: StateModel, infos: Seq<InscriptionInfo>)
    requires
        infos.len() == 0,
    ensures
        m.update_txs(infos).len() == 0,
{
    reveal(Seq::filter_map);
}

/// A test that everything passes leaves everything.
proof fn lemma_filter_all<A>(s: Seq<A>, keep: spec_fn(A) -> bool)
    requires
        forall|i: int| 0 <= i < s.len() ==> keep(#[trigger] s[i]),
    ensures
        s.filter(keep) == s,
    decreases s.len(),
{
    reveal(Seq::filter);
    if s.len() > 0 {
        let front = s.drop_last();
        assert forall|i: int| 0 <= i < front.len() implies keep(#[trigger] front[i]) by {
            assert(front[i] == s[i]);
        }
        lemma_filter_all(front, keep);
        assert(s[s.len() - 1] == s.last());
        assert(s =~= front.push(s.last()));
    }
}

proof fn lemma_view_of_parts(
    m: StateModel,
    old_part: Seq<InscriptionInfo>,
    adopted: Seq<InscriptionInfo>,
    tip: HeaderId,
)
    requires
        unsettled(m, tip) == old_part + adopted,
        hashes(old_part).disjoint(hashes(adopted)),
    ensures
        m.view_txs(tip, Set::empty()) == m.update_txs(old_part) + m.update_txs(adopted),
{
    let lineage = m.lineage(tip);
    assert(m.finalized_prefix(lineage).union(Set::empty()) =~= m.finalized_prefix(lineage));
    lemma_reports_of_parts(m, old_part, adopted);
}

} // verus!
