//! What is seen on the channel is held, what is final is held no more, and what
//! bundles will spend is not offered.

use vstd::prelude::*;

use crate::ids::{ChannelId, NoteId, TxHash, ZkPublicKey};
use crate::mantle::{SignedOps, Value};
use crate::sequencer::block_event::{
    after_block, after_event, apply_finalized, backfill_all, hashes_of_block, PreparedBlockEvent,
};
use crate::sequencer::block_fetch::{mirror, mirror_one, observed, tx_with};
use crate::sequencer::channel_tx::{classifications, BlockChannelTx};
use crate::sequencer::consistency_laws::held_once;
use crate::sequencer::given_up_laws::waits_to_be_told;
use crate::sequencer::lineage_laws::law_displaced_is_kept_for_the_report;
use crate::sequencer::note_selection::{selection, value_of};
use crate::sequencer::state::bundles::not_reserved;
use crate::sequencer::state_laws::{
    law_observing_keeps_wf, law_taken_out_is_gone, lemma_filter_member,
};
use crate::sequencer::state_model::{OtherModel, PendingBundle, StateModel};
use crate::sequencer::types::{ChannelNote, WithdrawInputs};
use crate::sequencer::wallet_laws::{
    ids_differ, law_selection_is_spendable, law_value_is_that_of_the_note,
};

verus! {

/// A transaction is held, or waits to be reported.
pub open spec fn held_or_told(m: StateModel, hash: TxHash) -> bool {
    m.is_tracked(hash) || waits_to_be_told(m, hash)
}

proof fn lemma_cleared_keeps(m: StateModel, parent: Option<crate::ids::MsgId>, hash: TxHash)
    requires
        m.wf(),
    ensures
        held_or_told(m, hash) ==> held_or_told(m.cleared(parent), hash),
        m.cleared(parent).is_tracked(hash) ==> m.is_tracked(hash),
{
    if let Some(msg) = parent {
        if let Some(sibling) = m.child(msg) {
            law_displaced_is_kept_for_the_report(m, sibling, hash);
            let n = m.displace(sibling);
            let k = m.displaced.len() as int;
            let l = m.displaced_other.len() as int;
            if m.pending.contains_key(hash) && !n.is_tracked(hash) {
                let report = m.pending[hash].report();
                let i = n.displaced.skip(k).index_of(report);
                assert(n.displaced[k + i].spec_tx_hash() == hash);
            } else if m.other.contains_key(hash) && !n.is_tracked(hash) {
                let tx = m.other[hash].signed_tx;
                let i = n.displaced_other.skip(l).index_of(tx);
                assert(n.displaced_other[l + i].hash == hash);
            }
            if exists|i: int|
                0 <= i < m.displaced.len() && (#[trigger] m.displaced[i]).spec_tx_hash() == hash {
                let i = choose|i: int|
                    0 <= i < m.displaced.len() && (#[trigger] m.displaced[i]).spec_tx_hash()
                        == hash;
                assert(m.displaced =~= n.displaced.take(k));
                assert(n.displaced[i] == n.displaced.take(k)[i]);
                assert(n.displaced[i].spec_tx_hash() == hash);
            }
            if exists|i: int|
                0 <= i < m.displaced_other.len() && (#[trigger] m.displaced_other[i]).hash
                    == hash {
                let i = choose|i: int|
                    0 <= i < m.displaced_other.len() && (#[trigger] m.displaced_other[i]).hash
                        == hash;
                assert(m.displaced_other =~= n.displaced_other.take(l));
                assert(n.displaced_other[i] == n.displaced_other.take(l)[i]);
                assert(n.displaced_other[i].hash == hash);
            }
        }
    }
}

proof fn lemma_mirror_one_keeps(
    m: StateModel,
    classified: BlockChannelTx,
    txs: Seq<SignedOps>,
    channel_id: ChannelId,
    hash: TxHash,
)
    requires
        m.wf(),
        classified.spec_tx_hash() matches Some(own) && tx_with(txs, own) matches Some(tx)
            && tx.hash == own,
    ensures
        ({
            let n = mirror_one(m, classified, txs, channel_id);
            &&& n.wf()
            &&& held_or_told(m, hash) ==> held_or_told(n, hash)
            &&& n.is_tracked(classified.spec_tx_hash()->0)
            &&& n.is_tracked(hash) ==> m.is_tracked(hash) || classified.spec_tx_hash() == Some(hash)
        }),
{
    let own = classified.spec_tx_hash()->0;
    let tx = tx_with(txs, own)->0;
    let entry = match classified {
        BlockChannelTx::Inscription(i) => observed(tx, i, PendingBundle::Plain),
        BlockChannelTx::AtomicWithdraw(a) => observed(
            tx,
            a.inscription,
            PendingBundle::Withdraw { withdraws: a.withdraws, outputs: a.outputs },
        ),
        BlockChannelTx::PinDeposit(a) => observed(
            tx,
            a.inscription,
            PendingBundle::PinDeposit(a.consumed_notes),
        ),
        _ => arbitrary(),
    };
    law_observing_keeps_wf(m, entry, tx, channel_id);
    lemma_cleared_keeps(m, Some(entry.parent_msg), hash);
    lemma_cleared_keeps(m, OtherModel::of(tx, channel_id).first_parent(), hash);
    let n = mirror_one(m, classified, txs, channel_id);
    let cleared = if classified is Config || classified is Custom {
        m.cleared(OtherModel::of(tx, channel_id).first_parent())
    } else {
        m.cleared(Some(entry.parent_msg))
    };
    if !m.is_tracked(own) {
        assert(n.displaced == cleared.displaced && n.displaced_other == cleared.displaced_other);
        if waits_to_be_told(cleared, hash) {
            assert(waits_to_be_told(n, hash));
        }
    }
}

/// The classified transactions of a list stand under the hashes of its
/// transactions.
pub open spec fn stand_under_their_hashes(classified: Seq<BlockChannelTx>, txs: Seq<SignedOps>) -> bool {
    forall|k: int|
        0 <= k < classified.len() ==> ((#[trigger] classified[k]).spec_tx_hash() matches Some(own)
            && tx_with(txs, own) matches Some(tx) && tx.hash == own)
}

/// Mirroring holds every transaction that it is given, unless a later one of
/// them takes its place and it waits to be reported; what was held is held or
/// waits; and nothing else is held afterwards.
pub proof fn law_mirroring_holds_what_it_is_given(
    m: StateModel,
    classified: Seq<BlockChannelTx>,
    txs: Seq<SignedOps>,
    channel_id: ChannelId,
    k: int,
    hash: TxHash,
)
    requires
        m.wf(),
        stand_under_their_hashes(classified, txs),
    ensures
        ({
            let n = mirror(m, classified, txs, channel_id);
            &&& n.wf()
            &&& 0 <= k < classified.len() ==> held_or_told(n, classified[k].spec_tx_hash()->0)
            &&& classified.len() > 0 ==> n.is_tracked(classified.last().spec_tx_hash()->0)
            &&& held_or_told(m, hash) ==> held_or_told(n, hash)
            &&& n.is_tracked(hash) ==> m.is_tracked(hash) || exists|j: int|
                0 <= j < classified.len() && (#[trigger] classified[j]).spec_tx_hash() == Some(hash)
        }),
    decreases classified.len(),
{
    if classified.len() > 0 {
        let front = classified.drop_last();
        let last = classified.last();
        assert forall|j: int| 0 <= j < front.len() implies ((
        #[trigger] front[j]).spec_tx_hash() matches Some(own) && tx_with(txs, own) matches Some(tx)
            && tx.hash == own) by {
            assert(front[j] == classified[j]);
        }
        law_mirroring_holds_what_it_is_given(m, front, txs, channel_id, k, hash);
        let before = mirror(m, front, txs, channel_id);
        assert(classified[classified.len() - 1] == last);
        lemma_mirror_one_keeps(before, last, txs, channel_id, hash);
        if 0 <= k < front.len() {
            assert(front[k] == classified[k]);
            lemma_mirror_one_keeps(
                before,
                last,
                txs,
                channel_id,
                classified[k].spec_tx_hash()->0,
            );
        }
        if before.is_tracked(hash) && !m.is_tracked(hash) {
            let j = choose|j: int|
                0 <= j < front.len() && (#[trigger] front[j]).spec_tx_hash() == Some(hash);
            assert(classified[j].spec_tx_hash() == Some(hash));
        }
    }
}

/// A block that is not the tip of its event is stored and leaves what is pending
/// as it is.
pub proof fn law_fork_block_leaves_what_is_pending(
    m: StateModel,
    prepared: PreparedBlockEvent,
    channel_id: ChannelId,
)
    requires
        prepared.block.id != prepared.tip,
    ensures
        ({
            let n = after_block(m, prepared, channel_id);
            &&& n.pending == m.pending && n.other == m.other && n.by_parent == m.by_parent
            &&& n.displaced == m.displaced && n.displaced_other == m.displaced_other
        }),
{
}

/// What a finalized block carries is held no more once the event is handled,
/// unless it stands on the branch above LIB again.
pub proof fn law_finalized_is_held_no_more(
    start: StateModel,
    prepared: PreparedBlockEvent,
    channel_id: ChannelId,
    hash: TxHash,
)
    requires
        ({
            let settled = apply_finalized(start, prepared.finalized@);
            let filled = backfill_all(
                settled,
                prepared.canonical_backfill@,
                settled.lib,
                channel_id,
            );
            held_once(after_block(filled, prepared, channel_id))
        }),
        prepared.finalized@.flat_map(hashes_of_block()).contains(hash),
    ensures
        ({
            let settled = apply_finalized(start, prepared.finalized@);
            let filled = backfill_all(
                settled,
                prepared.canonical_backfill@,
                settled.lib,
                channel_id,
            );
            let cleaned = after_block(filled, prepared, channel_id).without_all(
                prepared.finalized@.flat_map(hashes_of_block()),
            );
            &&& !cleaned.is_tracked(hash)
            &&& cleaned.wf() && cleaned.untracked_on(prepared.tip).len() == 0 ==> !after_event(
                start,
                prepared,
                channel_id,
            ).is_tracked(hash)
        }),
{
    let settled = apply_finalized(start, prepared.finalized@);
    let filled = backfill_all(settled, prepared.canonical_backfill@, settled.lib, channel_id);
    let processed = after_block(filled, prepared, channel_id);
    let list = prepared.finalized@.flat_map(hashes_of_block());
    law_taken_out_is_gone(processed, list, hash);
    let cleaned = processed.without_all(list);
    let txs = cleaned.untracked_on(prepared.tip);
    if txs.len() == 0 {
        reveal(Seq::filter_map);
        assert(classifications(txs, channel_id).len() == 0);
    }
}

/// The notes that pending bundles will spend are not offered, and all others
/// are.
pub proof fn law_reserved_notes_are_not_offered(
    notes: Seq<ChannelNote>,
    reserved: Set<NoteId>,
    note: ChannelNote,
)
    ensures
        notes.filter(not_reserved(reserved)).contains(note) <==> notes.contains(note)
            && !reserved.contains(note.note_id),
{
    lemma_filter_member(notes, not_reserved(reserved), note);
}

/// No choice of notes, the sequencer's or the caller's, takes a reserved one.
pub proof fn law_no_choice_takes_a_reserved_note(
    notes: Seq<ChannelNote>,
    reserved: Set<NoteId>,
    own_key: ZkPublicKey,
    amount: Value,
    choice: WithdrawInputs,
    i: int,
)
    requires
        ids_differ(notes.filter(not_reserved(reserved))),
    ensures
        selection(notes.filter(not_reserved(reserved)), own_key, amount, choice) matches Ok(ids)
            ==> (0 <= i < ids.len() ==> !reserved.contains(ids[i])),
{
    let pool = notes.filter(not_reserved(reserved));
    law_selection_is_spendable(pool, own_key, amount, choice);
    if let Ok(ids) = selection(pool, own_key, amount, choice) {
        if 0 <= i < ids.len() {
            assert(value_of(pool, ids[i]) is Some);
            law_value_is_that_of_the_note(pool, ids[i], 0);
            let k = choose|k: int| 0 <= k < pool.len() && (#[trigger] pool[k]).note_id == ids[i];
            assert(pool.contains(pool[k]));
            law_reserved_notes_are_not_offered(notes, reserved, pool[k]);
        }
    }
}

} // verus!
