//! What holds of every transaction state: each held transaction has its one
//! place in the message lineage.

use vstd::prelude::*;

use crate::adapter::EventsReply;
use crate::ids::{ChannelId, HeaderId, MsgId, TxHash};
use crate::items::law_items_hold;
use crate::mantle::{SignedOps, Slot};
use crate::sequencer::block_event::{
    after_block, after_event, apply_finalized, backfill_all, event_handled, event_start,
    hashes_of_block, prepares_event, prepares_finalized, BackfilledBlock, BlockEventResult,
    PreparedBlockEvent, PreparedFinalizedBlock,
};
use crate::sequencer::block_fetch::{
    demoted, is_from, lemma_classified_from, mirror, mirrorable, observed, our_hashes, tx_with,
    BlockEvent, FetchedBlock,
};
use crate::sequencer::channel_tx::{as_classified, classifications, BlockChannelTx};
use crate::sequencer::channel_wallet::{notes_from, NoteOp, WalletModel};
use crate::sequencer::checkpoint::{
    pending_entry, pending_root, restored_state, with_all_pending,
};
use crate::sequencer::shed_laws::{
    law_opaque_entries_stay_under_their_hash, opaque_entries_carry_their_hash,
};
use crate::sequencer::state_laws::{
    law_pending_operations_keep_wf, law_process_block_keeps_wf, lemma_filter_map_from, linked,
    orderly, orderly_in,
};
use crate::sequencer::state_model::{
    report_hash, OtherModel, PendingBundle, PendingInscription, StateModel,
};
use crate::sequencer::types::SequencerCheckpoint;
use crate::sequencer::view_laws::{
    carries_its_hash, law_blocks_keep_carrying_their_hash, law_classified_carries_its_hash,
    stored_carry_their_hash,
};

verus! {

/// Whatever stands under a message is held, and chains from it.
pub open spec fn placed(m: StateModel) -> bool {
    forall|parent: MsgId| #[trigger]
        m.by_parent.contains_key(parent) ==> m.is_tracked(m.by_parent[parent]) && m.parent_of(
            m.by_parent[parent],
        ) == Some(parent)
}

/// No transaction is held both as an inscription and as an opaque one.
pub open spec fn held_once(m: StateModel) -> bool {
    forall|hash: TxHash| !(m.pending.contains_key(hash) && #[trigger] m.other.contains_key(hash))
}

/// What holds of every state: a held transaction stands under the message that
/// it chains from, nothing else stands there, and everything is kept under the
/// hash of its transaction.
pub open spec fn consistent(m: StateModel) -> bool {
    &&& m.wf()
    &&& placed(m)
    &&& linked(m)
    &&& held_once(m)
    &&& opaque_entries_carry_their_hash(m)
    &&& stored_carry_their_hash(m)
}

/// Messages rise along the pending chains.
pub open spec fn ranked(m: StateModel, rank: spec_fn(MsgId) -> nat) -> bool {
    forall|parent: MsgId| #[trigger]
        m.by_parent.contains_key(parent) ==> (m.tip_of(m.by_parent[parent]) matches Some(tip)
            ==> rank(tip) > rank(parent))
}

/// No pending chain comes back to a message that it went through: a message is
/// named by what it holds, its parent among it.
pub open spec fn loop_free(m: StateModel) -> bool {
    exists|rank: spec_fn(MsgId) -> nat| ranked(m, rank)
}

/// Messages never fall along the pending chains, and rise with each of a set of
/// inscriptions.
pub open spec fn ranked_in(
    m: StateModel,
    eligible: Set<TxHash>,
    rank: spec_fn(MsgId) -> nat,
) -> bool {
    forall|parent: MsgId| #[trigger]
        m.by_parent.contains_key(parent) ==> (m.tip_of(m.by_parent[parent]) matches Some(tip) ==> {
            &&& rank(tip) >= rank(parent)
            &&& m.pending_in(eligible).contains(m.by_parent[parent]) ==> rank(tip) > rank(parent)
        })
}

/// No pending chain comes back to a message through one of a set of
/// inscriptions.
pub open spec fn loop_free_in(m: StateModel, eligible: Set<TxHash>) -> bool {
    exists|rank: spec_fn(MsgId) -> nat| ranked_in(m, eligible, rank)
}

/// Where there is no loop, there is none through any inscription.
pub proof fn lemma_loop_free_in(m: StateModel, eligible: Set<TxHash>)
    requires
        loop_free(m),
    ensures
        loop_free_in(m, eligible),
{
    let rank = choose|rank: spec_fn(MsgId) -> nat| ranked(m, rank);
    assert(ranked_in(m, eligible, rank));
}

/// The order that messages have where no loop runs through a set of
/// inscriptions.
pub proof fn lemma_in_order_of(m: StateModel, eligible: Set<TxHash>) -> (rank: spec_fn(
    MsgId,
) -> nat)
    requires
        consistent(m),
        loop_free_in(m, eligible),
    ensures
        orderly_in(m, eligible, rank),
{
    let rank = choose|rank: spec_fn(MsgId) -> nat| ranked_in(m, eligible, rank);
    assert forall|parent: MsgId| #[trigger] m.by_parent.contains_key(parent) implies {
        let hash = m.by_parent[parent];
        &&& m.is_tracked(hash)
        &&& m.parent_of(hash) == Some(parent)
        &&& m.tip_of(hash) matches Some(tip) && rank(tip) >= rank(parent) && (m.pending_in(
            eligible,
        ).contains(hash) ==> rank(tip) > rank(parent))
    } by {
        assert(m.parent_of(m.by_parent[parent]) == Some(parent));
    }
    rank
}

/// The order that the messages of a state without loops have.
pub proof fn lemma_in_order(m: StateModel) -> (rank: spec_fn(MsgId) -> nat)
    requires
        consistent(m),
        loop_free(m),
    ensures
        orderly(m, rank),
{
    let rank = choose|rank: spec_fn(MsgId) -> nat| ranked(m, rank);
    assert forall|parent: MsgId| #[trigger] m.by_parent.contains_key(parent) implies {
        let hash = m.by_parent[parent];
        &&& m.is_tracked(hash)
        &&& m.parent_of(hash) == Some(parent)
        &&& m.tip_of(hash) matches Some(tip) && rank(tip) > rank(parent)
    } by {
        assert(m.parent_of(m.by_parent[parent]) == Some(parent));
    }
    rank
}

/// A state without anything is consistent and has no loops.
pub proof fn law_new_state_is_consistent(lib: HeaderId, msg: MsgId)
    ensures
        consistent(StateModel::new(lib, msg)),
        loop_free(StateModel::new(lib, msg)),
{
    let m = StateModel::new(lib, msg);
    let rank = |msg: MsgId| 0nat;
    assert(m.wf()) by {
        assert(m.other_order.to_set() =~= m.other.dom());
        assert(m.stored_order.to_set() =~= m.stored.dom());
    }
    assert(ranked(m, rank));
}

proof fn lemma_put_pending(m: StateModel, entry: PendingInscription)
    requires
        consistent(m),
        !m.is_tracked(entry.tx_hash),
        m.child(entry.parent_msg) is None,
    ensures
        consistent(m.put_pending(entry)),
{
    let n = m.put_pending(entry);
    assert(n.wf());
    assert forall|parent: MsgId| #[trigger] n.by_parent.contains_key(parent) implies n.is_tracked(
        n.by_parent[parent],
    ) && n.parent_of(n.by_parent[parent]) == Some(parent) by {
        if parent != entry.parent_msg {
            assert(m.by_parent.contains_key(parent));
        }
    }
    assert forall|h: TxHash| #[trigger] n.is_tracked(h) implies (n.parent_of(h) matches Some(parent)
        ==> n.child(parent) == Some(h)) by {
        if h != entry.tx_hash {
            assert(m.is_tracked(h));
        }
    }
    assert forall|hash: TxHash, i: int|
        n.other.contains_key(hash) && 0 <= i < n.other[hash].infos.len() implies (
    #[trigger] n.other[hash].infos[i]).tx_hash == hash by {
        assert(m.other[hash].infos[i].tx_hash == hash);
    }
    lemma_same_stored(m, n);
}

pub proof fn lemma_same_stored(m: StateModel, n: StateModel)
    requires
        stored_carry_their_hash(m),
        n.stored == m.stored,
    ensures
        stored_carry_their_hash(n),
{
    assert forall|block: HeaderId, i: int|
        n.stored.contains_key(block) && 0 <= i
            < n.stored[block].channel_txs.len() implies carries_its_hash(
        #[trigger] n.stored[block].channel_txs[i],
    ) by {
        assert(carries_its_hash(m.stored[block].channel_txs[i]));
    }
}

proof fn lemma_put_other(m: StateModel, tx: SignedOps, channel_id: ChannelId)
    requires
        consistent(m),
        !m.is_tracked(tx.hash),
        OtherModel::of(tx, channel_id).first_parent() matches Some(parent) ==> m.child(
            parent,
        ) is None,
    ensures
        consistent(m.put_other(tx, channel_id)),
{
    let n = m.put_other(tx, channel_id);
    let model = OtherModel::of(tx, channel_id);
    law_pending_operations_keep_wf(m, m.lib, m.finalized_msg, arbitrary(), tx, channel_id, tx.hash);
    assert forall|parent: MsgId| #[trigger] n.by_parent.contains_key(parent) implies n.is_tracked(
        n.by_parent[parent],
    ) && n.parent_of(n.by_parent[parent]) == Some(parent) by {
        if model.first_parent() != Some(parent) {
            assert(m.by_parent.contains_key(parent));
        }
    }
    assert forall|h: TxHash| #[trigger] n.is_tracked(h) implies (n.parent_of(h) matches Some(parent)
        ==> n.child(parent) == Some(h)) by {
        if h != tx.hash {
            assert(m.is_tracked(h));
        }
    }
    law_opaque_entries_stay_under_their_hash(m, tx, channel_id, tx.hash);
    lemma_same_stored(m, n);
}

/// A place that no other transaction holds is held by nobody, as long as `hash`
/// is not pending.
pub proof fn lemma_place_is_free(m: StateModel, parent: MsgId, hash: TxHash)
    requires
        placed(m),
        !m.is_tracked(hash),
        m.taken(parent, hash) is None,
    ensures
        m.child(parent) is None,
{
    if m.by_parent.contains_key(parent) {
        assert(m.is_tracked(m.by_parent[parent]));
    }
}

/// Only where a transaction stands tells two states apart here.
pub proof fn lemma_same_pending(m: StateModel, n: StateModel)
    requires
        consistent(m),
        n.wf(),
        n.pending == m.pending,
        n.other == m.other,
        n.by_parent == m.by_parent,
        stored_carry_their_hash(n),
    ensures
        consistent(n),
{
    assert forall|parent: MsgId| #[trigger] n.by_parent.contains_key(parent) implies n.is_tracked(
        n.by_parent[parent],
    ) && n.parent_of(n.by_parent[parent]) == Some(parent) by {
        assert(m.by_parent.contains_key(parent));
    }
    assert forall|h: TxHash| #[trigger] n.is_tracked(h) implies (n.parent_of(h) matches Some(parent)
        ==> n.child(parent) == Some(h)) by {
        assert(m.is_tracked(h));
    }
    assert forall|hash: TxHash, i: int|
        n.other.contains_key(hash) && 0 <= i < n.other[hash].infos.len() implies (
    #[trigger] n.other[hash].infos[i]).tx_hash == hash by {
        assert(m.other[hash].infos[i].tx_hash == hash);
    }
}

/// An accepted submission of a transaction that is not held keeps a state
/// consistent, and its chains without loops where the new message ranks above
/// its parent.
pub proof fn law_submitting_keeps_consistency(
    m: StateModel,
    rank: spec_fn(MsgId) -> nat,
    entry: PendingInscription,
    tx: SignedOps,
    channel_id: ChannelId,
)
    requires
        consistent(m),
    ensures
        !m.is_tracked(entry.tx_hash) && m.taken(entry.parent_msg, entry.tx_hash) is None ==> {
            let n = m.track_local(entry.tx_hash).put_pending(entry);
            &&& consistent(n)
            &&& ranked(m, rank) && rank(entry.this_msg) > rank(entry.parent_msg) ==> ranked(n, rank)
        },
        ({
            let model = OtherModel::of(tx, channel_id);
            let n = m.track_local(tx.hash).put_other(tx, channel_id);
            !m.is_tracked(tx.hash) && (model.first_parent() matches Some(parent) ==> m.taken(
                parent,
                tx.hash,
            ) is None) ==> {
                &&& consistent(n)
                &&& ranked(m, rank) && rises(model, rank) ==> ranked(n, rank)
            }
        }),
{
    if !m.is_tracked(entry.tx_hash) && m.taken(entry.parent_msg, entry.tx_hash) is None {
        lemma_place_is_free(m, entry.parent_msg, entry.tx_hash);
        let local = m.track_local(entry.tx_hash);
        lemma_same_stored(m, local);
        lemma_same_pending(m, local);
        lemma_put_pending(local, entry);
        if ranked(m, rank) && rank(entry.this_msg) > rank(entry.parent_msg) {
            lemma_same_ranks(m, local, rank);
            lemma_put_pending_ranked(local, rank, entry);
        }
    }
    let model = OtherModel::of(tx, channel_id);
    if !m.is_tracked(tx.hash) && (model.first_parent() matches Some(parent) ==> m.taken(
        parent,
        tx.hash,
    ) is None) {
        if let Some(parent) = model.first_parent() {
            lemma_place_is_free(m, parent, tx.hash);
        }
        let local = m.track_local(tx.hash);
        lemma_same_stored(m, local);
        lemma_same_pending(m, local);
        lemma_put_other(local, tx, channel_id);
        if ranked(m, rank) && rises(model, rank) {
            lemma_same_ranks(m, local, rank);
            lemma_put_other_ranked(local, rank, tx, channel_id);
        }
    }
}

/// An opaque transaction leaves a message of a higher rank than it chains from.
pub open spec fn rises(other: OtherModel, rank: spec_fn(MsgId) -> nat) -> bool {
    other.first_parent() matches Some(parent) ==> (other.last_msg() matches Some(last)
        && rank(last) > rank(parent))
}

proof fn lemma_put_pending_ranked(
    m: StateModel,
    rank: spec_fn(MsgId) -> nat,
    entry: PendingInscription,
)
    requires
        placed(m),
        ranked(m, rank),
        !m.is_tracked(entry.tx_hash),
        rank(entry.this_msg) > rank(entry.parent_msg),
    ensures
        ranked(m.put_pending(entry), rank),
{
    let n = m.put_pending(entry);
    assert forall|parent: MsgId| #[trigger] n.by_parent.contains_key(parent) implies (n.tip_of(
        n.by_parent[parent],
    ) matches Some(tip) ==> rank(tip) > rank(parent)) by {
        if parent != entry.parent_msg {
            assert(m.by_parent.contains_key(parent));
        }
    }
}

proof fn lemma_put_other_ranked(
    m: StateModel,
    rank: spec_fn(MsgId) -> nat,
    tx: SignedOps,
    channel_id: ChannelId,
)
    requires
        placed(m),
        ranked(m, rank),
        !m.is_tracked(tx.hash),
        rises(OtherModel::of(tx, channel_id), rank),
    ensures
        ranked(m.put_other(tx, channel_id), rank),
{
    let n = m.put_other(tx, channel_id);
    assert forall|parent: MsgId| #[trigger] n.by_parent.contains_key(parent) implies (n.tip_of(
        n.by_parent[parent],
    ) matches Some(tip) ==> rank(tip) > rank(parent)) by {
        if OtherModel::of(tx, channel_id).first_parent() != Some(parent) {
            assert(m.by_parent.contains_key(parent));
        }
    }
}

/// Taking a transaction out keeps a state consistent and its chains without
/// loops.
pub proof fn law_removing_keeps_consistency(
    m: StateModel,
    rank: spec_fn(MsgId) -> nat,
    hash: TxHash,
)
    requires
        consistent(m),
    ensures
        consistent(m.without(hash)),
        ranked(m, rank) ==> ranked(m.without(hash), rank),
{
    let n = m.without(hash);
    law_pending_operations_keep_wf(
        m,
        m.lib,
        m.finalized_msg,
        arbitrary(),
        arbitrary(),
        arbitrary(),
        hash,
    );
    assert forall|parent: MsgId| #[trigger] n.by_parent.contains_key(parent) implies n.is_tracked(
        n.by_parent[parent],
    ) && n.parent_of(n.by_parent[parent]) == Some(parent) && n.tip_of(n.by_parent[parent])
        == m.tip_of(m.by_parent[parent]) && m.by_parent.contains_key(parent) by {
        assert(m.by_parent.contains_key(parent));
    }
    assert forall|h: TxHash| #[trigger] n.is_tracked(h) implies (n.parent_of(h) matches Some(parent)
        ==> n.child(parent) == Some(h)) by {
        assert(m.is_tracked(h));
    }
    law_opaque_entries_stay_under_their_hash(m, arbitrary(), arbitrary(), hash);
    lemma_same_stored(m, n);
}

/// Taking transactions out one by one keeps a state consistent and its chains
/// without loops, whatever a shed pass gives up.
pub proof fn law_sheds_keep_consistency(
    m: StateModel,
    rank: spec_fn(MsgId) -> nat,
    list: Seq<TxHash>,
    eligible: Set<TxHash>,
)
    requires
        consistent(m),
    ensures
        consistent(m.without_all(list)),
        ranked(m, rank) ==> ranked(m.without_all(list), rank),
        consistent(m.drain(eligible)),
        ranked(m, rank) ==> ranked(m.drain(eligible), rank),
{
    lemma_without_all(m, rank, list);
    lemma_without_all(m, rank, m.drained(eligible).map_values(report_hash()));
}

proof fn lemma_without_all(m: StateModel, rank: spec_fn(MsgId) -> nat, list: Seq<TxHash>)
    requires
        consistent(m),
    ensures
        consistent(m.without_all(list)),
        ranked(m, rank) ==> ranked(m.without_all(list), rank),
    decreases list.len(),
{
    if list.len() > 0 {
        lemma_without_all(m, rank, list.drop_last());
        law_removing_keeps_consistency(m.without_all(list.drop_last()), rank, list.last());
    }
}

/// Displacing a chain only takes out.
proof fn lemma_displace(m: StateModel, rank: spec_fn(MsgId) -> nat, head: TxHash)
    requires
        consistent(m),
    ensures
        ({
            let n = m.displace(head);
            &&& consistent(n)
            &&& ranked(m, rank) ==> ranked(n, rank)
            &&& !n.is_tracked(head)
            &&& forall|hash: TxHash| #[trigger] n.is_tracked(hash) ==> m.is_tracked(hash)
            &&& forall|parent: MsgId| #[trigger]
                n.by_parent.contains_key(parent) ==> m.by_parent.contains_key(parent)
                    && n.by_parent[parent] == m.by_parent[parent]
        }),
    decreases m.pending.len() + m.other.len(),
{
    if m.is_tracked(head) {
        law_removing_keeps_consistency(m, rank, head);
        let less = m.without(head);
        let rest = if m.pending.contains_key(head) {
            StateModel { displaced: m.displaced.push(m.pending[head].report()), ..less }
        } else {
            StateModel {
                displaced_other: m.displaced_other.push(m.other[head].signed_tx),
                ..less
            }
        };
        lemma_same_stored(less, rest);
        lemma_same_pending(less, rest);
        if ranked(m, rank) {
            lemma_same_ranks(less, rest, rank);
        }
        assert(!rest.is_tracked(head));
        if let Some(tip) = m.tip_of(head) {
            if let Some(next) = m.child(tip) {
                lemma_displace(rest, rank, next);
            }
        }
    }
}

/// Once cleared, a place is free.
proof fn lemma_cleared(m: StateModel, rank: spec_fn(MsgId) -> nat, parent: Option<MsgId>)
    requires
        consistent(m),
    ensures
        ({
            let n = m.cleared(parent);
            &&& consistent(n)
            &&& ranked(m, rank) ==> ranked(n, rank)
            &&& parent matches Some(parent) ==> n.child(parent) is None
            &&& forall|hash: TxHash| #[trigger] n.is_tracked(hash) ==> m.is_tracked(hash)
        }),
{
    if let Some(place) = parent {
        if let Some(sibling) = m.child(place) {
            assert(m.by_parent.contains_key(place));
            lemma_displace(m, rank, sibling);
            let n = m.displace(sibling);
            if n.by_parent.contains_key(place) {
                assert(n.by_parent[place] == sibling);
                assert(n.is_tracked(sibling));
            }
        }
    }
}

/// Seeing a transaction on the channel keeps a state consistent, whatever it
/// displaces, and its chains without loops where the new message ranks above
/// its parent.
pub proof fn law_observing_keeps_consistency(
    m: StateModel,
    rank: spec_fn(MsgId) -> nat,
    entry: PendingInscription,
    tx: SignedOps,
    channel_id: ChannelId,
)
    requires
        consistent(m),
    ensures
        consistent(m.observe_inscription(entry)),
        ranked(m, rank) && (m.is_tracked(entry.tx_hash) || rank(entry.this_msg) > rank(
            entry.parent_msg,
        )) ==> ranked(m.observe_inscription(entry), rank),
        consistent(m.observe_other(tx, channel_id)),
        ranked(m, rank) && (m.is_tracked(tx.hash) || rises(OtherModel::of(tx, channel_id), rank))
            ==> ranked(m.observe_other(tx, channel_id), rank),
{
    if !m.is_tracked(entry.tx_hash) {
        lemma_cleared(m, rank, Some(entry.parent_msg));
        let n = m.cleared(Some(entry.parent_msg));
        lemma_put_pending(n, entry);
        if ranked(m, rank) && rank(entry.this_msg) > rank(entry.parent_msg) {
            lemma_put_pending_ranked(n, rank, entry);
        }
    }
    if !m.is_tracked(tx.hash) {
        let model = OtherModel::of(tx, channel_id);
        lemma_cleared(m, rank, model.first_parent());
        let n = m.cleared(model.first_parent());
        lemma_put_other(n, tx, channel_id);
        if ranked(m, rank) && rises(model, rank) {
            lemma_put_other_ranked(n, rank, tx, channel_id);
        }
    }
}

/// A new block keeps a state consistent and leaves the pending chains, as do
/// the signed transactions stored with it and a post that went through.
pub proof fn law_blocks_keep_consistency(
    m: StateModel,
    rank: spec_fn(MsgId) -> nat,
    block: HeaderId,
    parent: HeaderId,
    lib: HeaderId,
    our_txs: Seq<TxHash>,
    channel_txs: Seq<BlockChannelTx>,
    note_ops: Seq<NoteOp>,
    signed: Seq<SignedOps>,
    posted: TxHash,
)
    requires
        consistent(m),
        forall|i: int| 0 <= i < channel_txs.len() ==> carries_its_hash(#[trigger] channel_txs[i]),
    ensures
        ({
            let n = m.process_block(block, parent, lib, our_txs, channel_txs, note_ops);
            consistent(n) && (ranked(m, rank) ==> ranked(n, rank))
        }),
        consistent(m.store_signed(block, signed)),
        ranked(m, rank) ==> ranked(m.store_signed(block, signed), rank),
        consistent(m.mark_posted(posted)),
        ranked(m, rank) ==> ranked(m.mark_posted(posted), rank),
{
    law_blocks_keep_carrying_their_hash(
        m,
        block,
        parent,
        lib,
        our_txs,
        channel_txs,
        note_ops,
        signed,
    );
    law_process_block_keeps_wf(m, block, parent, lib, our_txs, channel_txs, note_ops);
    let n = m.process_block(block, parent, lib, our_txs, channel_txs, note_ops);
    lemma_same_pending(m, n);
    let stored = m.store_signed(block, signed);
    assert(stored.wf()) by {
        m.stored_order.lemma_push_to_set_commute(block);
        if signed.len() != 0 && !m.stored.contains_key(block) {
            assert(!m.stored_order.contains(block)) by {
                if m.stored_order.contains(block) {
                    assert(m.stored_order.to_set().contains(block));
                }
            }
        }
        assert(stored.stored_order.to_set() =~= stored.stored.dom());
    }
    lemma_same_pending(m, stored);
    if ranked(m, rank) {
        lemma_same_ranks(m, n, rank);
        lemma_same_ranks(m, stored, rank);
    }
    lemma_mark_posted(m, rank, posted);
}

pub proof fn lemma_same_ranks(m: StateModel, n: StateModel, rank: spec_fn(MsgId) -> nat)
    requires
        ranked(m, rank),
        n.pending == m.pending,
        n.other == m.other,
        n.by_parent == m.by_parent,
    ensures
        ranked(n, rank),
{
    assert forall|parent: MsgId| #[trigger] n.by_parent.contains_key(parent) implies (n.tip_of(
        n.by_parent[parent],
    ) matches Some(tip) ==> rank(tip) > rank(parent)) by {
        assert(m.by_parent.contains_key(parent));
    }
}

proof fn lemma_mark_posted(m: StateModel, rank: spec_fn(MsgId) -> nat, hash: TxHash)
    requires
        consistent(m),
    ensures
        consistent(m.mark_posted(hash)),
        ranked(m, rank) ==> ranked(m.mark_posted(hash), rank),
{
    let n = m.mark_posted(hash);
    assert(n.pending.dom() =~= m.pending.dom());
    assert forall|h: TxHash| n.is_tracked(h) == m.is_tracked(h) && n.parent_of(h) == m.parent_of(h)
        && #[trigger] n.tip_of(h) == m.tip_of(h) by {}
    assert forall|parent: MsgId| #[trigger] n.by_parent.contains_key(parent) implies n.is_tracked(
        n.by_parent[parent],
    ) && n.parent_of(n.by_parent[parent]) == Some(parent) && n.tip_of(n.by_parent[parent])
        == m.tip_of(m.by_parent[parent]) && m.by_parent.contains_key(parent) by {
        assert(m.by_parent.contains_key(parent));
        assert(n.tip_of(n.by_parent[parent]) == m.tip_of(m.by_parent[parent]));
    }
    assert forall|h: TxHash| #[trigger] n.is_tracked(h) implies (n.parent_of(h) matches Some(parent)
        ==> n.child(parent) == Some(h)) by {
        assert(m.is_tracked(h));
        assert(n.tip_of(h) == m.tip_of(h));
    }
    assert forall|h: TxHash, i: int|
        n.other.contains_key(h) && 0 <= i < n.other[h].infos.len() implies (
    #[trigger] n.other[h].infos[i]).tx_hash == h by {
        assert(m.other[h].infos[i].tx_hash == h);
    }
    lemma_same_stored(m, n);
}

// Restarts.

/// Transactions that are listed once each, restored one by one.
proof fn lemma_with_all_pending(
    m: StateModel,
    txs: Seq<(TxHash, SignedOps)>,
    channel_id: ChannelId,
)
    requires
        consistent(m),
        forall|hash: TxHash| !#[trigger] m.is_tracked(hash),
        forall|i: int, j: int|
            #![trigger txs[i], txs[j]]
            0 <= i < j < txs.len() ==> txs[i].1.hash != txs[j].1.hash,
    ensures
        consistent(with_all_pending(m, txs, channel_id)),
        forall|hash: TxHash| #[trigger]
            with_all_pending(m, txs, channel_id).is_tracked(hash) ==> exists|i: int|
                0 <= i < txs.len() && (#[trigger] txs[i]).1.hash == hash,
    decreases txs.len(),
{
    if txs.len() > 0 {
        let front = txs.drop_last();
        let tx = txs.last().1;
        assert forall|i: int, j: int|
            #![trigger front[i], front[j]]
            0 <= i < j < front.len() implies front[i].1.hash != front[j].1.hash by {
            assert(txs[i].1.hash != txs[j].1.hash);
        }
        lemma_with_all_pending(m, front, channel_id);
        let before = with_all_pending(m, front, channel_id);
        let after = with_all_pending(m, txs, channel_id);
        assert(txs[txs.len() - 1].1 == tx);
        if before.is_tracked(tx.hash) {
            let i = choose|i: int| 0 <= i < front.len() && (#[trigger] front[i]).1.hash == tx.hash;
            assert(txs[i].1.hash != txs[txs.len() - 1].1.hash);
        }
        let entry = match pending_entry(tx, channel_id) {
            Some(entry) => entry,
            None => arbitrary(),
        };
        law_submitting_keeps_consistency(before, arbitrary(), entry, tx, channel_id);
        assert forall|hash: TxHash| #[trigger] after.is_tracked(hash) implies exists|i: int|
            0 <= i < txs.len() && (#[trigger] txs[i]).1.hash == hash by {
            if hash == tx.hash {
                assert(txs[txs.len() - 1].1.hash == hash);
            } else {
                assert(before.is_tracked(hash));
                let i = choose|i: int| 0 <= i < front.len() && (#[trigger] front[i]).1.hash == hash;
                assert(txs[i].1.hash == hash);
            }
        }
    }
}

/// What is restored from a checkpoint that lists no transaction twice is
/// consistent.
pub proof fn law_restored_state_is_consistent(
    checkpoint: SequencerCheckpoint,
    channel_id: ChannelId,
    max_local: usize,
)
    requires
        forall|i: int, j: int|
            #![trigger checkpoint.pending_txs@[i], checkpoint.pending_txs@[j]]
            0 <= i < j < checkpoint.pending_txs@.len() ==> checkpoint.pending_txs@[i].1.hash
                != checkpoint.pending_txs@[j].1.hash,
    ensures
        consistent(restored_state(checkpoint, channel_id, max_local)),
{
    let finalized = match pending_root(checkpoint.pending_txs@, channel_id) {
        Some(msg) => msg,
        None => checkpoint.last_msg_id,
    };
    let base = StateModel::new(checkpoint.lib, finalized);
    law_new_state_is_consistent(checkpoint.lib, finalized);
    let start = StateModel {
        finalized_config: checkpoint.finalized_config,
        observed_config_tip: checkpoint.finalized_config,
        wallet: WalletModel { base: notes_from(checkpoint.channel_notes@), ..base.wallet },
        ..base
    };
    lemma_same_stored(base, start);
    lemma_same_pending(base, start);
    lemma_with_all_pending(start, checkpoint.pending_txs@, channel_id);
    let full = with_all_pending(start, checkpoint.pending_txs@, channel_id);
    let res = restored_state(checkpoint, channel_id, max_local);
    lemma_same_stored(full, res);
    lemma_same_pending(full, res);
}

// Events.

proof fn lemma_tx_with_hash(txs: Seq<SignedOps>, hash: TxHash)
    ensures
        tx_with(txs, hash) matches Some(tx) ==> tx.hash == hash,
    decreases txs.len(),
{
    if txs.len() > 0 && txs.last().hash != hash {
        lemma_tx_with_hash(txs.drop_last(), hash);
    }
}

/// What a scan of transactions classifies and re-types carries their hashes.
proof fn lemma_scan_carries(txs: Seq<SignedOps>, channel_id: ChannelId, wallet: WalletModel)
    ensures
        ({
            let plain = classifications(txs, channel_id);
            let typed = plain.map_values(demoted(wallet, txs, channel_id));
            &&& forall|i: int| 0 <= i < plain.len() ==> carries_its_hash(#[trigger] plain[i])
            &&& forall|i: int| 0 <= i < typed.len() ==> carries_its_hash(#[trigger] typed[i])
        }),
{
    broadcast use law_items_hold;

    let f = as_classified(channel_id);
    let plain = classifications(txs, channel_id);
    let typed = plain.map_values(demoted(wallet, txs, channel_id));
    assert forall|i: int| 0 <= i < plain.len() implies carries_its_hash(#[trigger] plain[i]) by {
        lemma_filter_map_from(txs, f, i);
        let k = choose|k: int| 0 <= k < txs.len() && f(#[trigger] txs[k]) == Some(plain[i]);
        law_classified_carries_its_hash(txs[k], channel_id);
    }
    assert(txs.take(txs.len() as int) =~= txs);
    lemma_classified_from(txs, channel_id, txs.len() as int);
    assert forall|i: int| 0 <= i < typed.len() implies carries_its_hash(#[trigger] typed[i]) by {
        assert(carries_its_hash(plain[i]));
        assert(is_from(plain[i], txs));
        if let BlockChannelTx::PinDeposit(a) = plain[i] {
            lemma_tx_with_hash(txs, a.tx_hash);
        }
    }
}

proof fn lemma_mirror(
    m: StateModel,
    classified: Seq<BlockChannelTx>,
    txs: Seq<SignedOps>,
    channel_id: ChannelId,
)
    requires
        consistent(m),
    ensures
        consistent(mirror(m, classified, txs, channel_id)),
    decreases classified.len(),
{
    if classified.len() > 0 {
        lemma_mirror(m, classified.drop_last(), txs, channel_id);
        let before = mirror(m, classified.drop_last(), txs, channel_id);
        let last = classified.last();
        let tx = tx_with(txs, last.spec_tx_hash().unwrap()).unwrap();
        let entry = match last {
            BlockChannelTx::Inscription(i) => observed(tx, i, PendingBundle::Plain),
            BlockChannelTx::AtomicWithdraw(a) => observed(
                tx,
                a.inscription,
                PendingBundle::Withdraw { withdraws: a.withdraws, outputs: a.outputs },
            ),
            BlockChannelTx::PinDeposit(a) => observed(
                tx,
                a.inscription,
                PendingBundle::PinDeposit(a.consumed_notes),
            ),
            _ => arbitrary(),
        };
        law_observing_keeps_consistency(before, arbitrary(), entry, tx, channel_id);
    }
}

proof fn lemma_finalized(
    m: StateModel,
    blocks: Seq<PreparedFinalizedBlock>,
    fetched: Seq<FetchedBlock>,
    channel_id: ChannelId,
    known: Option<StateModel>,
)
    requires
        consistent(m),
        blocks.len() <= fetched.len(),
        forall|i: int|
            0 <= i < blocks.len() ==> prepares_finalized(
                #[trigger] blocks[i],
                fetched[i],
                channel_id,
                known,
            ),
    ensures
        consistent(apply_finalized(m, blocks)),
    decreases blocks.len(),
{
    if blocks.len() > 0 {
        let front = blocks.drop_last();
        assert forall|i: int| 0 <= i < front.len() implies prepares_finalized(
            #[trigger] front[i],
            fetched[i],
            channel_id,
            known,
        ) by {
            assert(front[i] == blocks[i]);
        }
        lemma_finalized(m, front, fetched, channel_id, known);
        let before = apply_finalized(m, front);
        let block = blocks.last();
        let last = blocks.len() - 1;
        assert(prepares_finalized(blocks[last], fetched[last], channel_id, known));
        let txs = fetched[last].block.transactions@;
        lemma_scan_carries(
            txs,
            channel_id,
            match known {
                Some(known) => known.wallet,
                None => m.wallet,
            },
        );
        let noted = before.settle_notes(block.note_ops@);
        lemma_same_stored(before, noted);
        lemma_same_pending(before, noted);
        law_blocks_keep_consistency(
            noted,
            arbitrary(),
            block.block_id,
            block.parent_id,
            before.lib,
            block.our_txs@,
            block.channel_txs@,
            Seq::empty(),
            Seq::empty(),
            arbitrary(),
        );
    }
}

proof fn lemma_backfill(
    m: StateModel,
    blocks: Seq<BackfilledBlock>,
    lib: HeaderId,
    channel_id: ChannelId,
)
    requires
        consistent(m),
    ensures
        consistent(backfill_all(m, blocks, lib, channel_id)),
    decreases blocks.len(),
{
    if blocks.len() > 0 {
        lemma_backfill(m, blocks.drop_last(), lib, channel_id);
        let before = backfill_all(m, blocks.drop_last(), lib, channel_id);
        let block = blocks.last().block;
        let txs = block.transactions@;
        let channel_txs = classifications(txs, channel_id).map_values(
            demoted(before.wallet, txs, channel_id),
        );
        lemma_scan_carries(txs, channel_id, before.wallet);
        lemma_mirror(before, channel_txs, txs, channel_id);
        let mirrored = mirror(before, channel_txs, txs, channel_id);
        let ours = our_hashes(txs, channel_id);
        let ops = blocks.last().note_ops@;
        law_blocks_keep_consistency(
            mirrored,
            arbitrary(),
            block.id,
            block.parent_block,
            lib,
            ours,
            channel_txs,
            ops,
            Seq::empty(),
            arbitrary(),
        );
        let processed = mirrored.process_block(
            block.id,
            block.parent_block,
            lib,
            ours,
            channel_txs,
            ops,
        );
        law_blocks_keep_consistency(
            processed,
            arbitrary(),
            block.id,
            block.parent_block,
            lib,
            ours,
            channel_txs,
            ops,
            mirrorable(channel_txs, txs),
            arbitrary(),
        );
    }
}

proof fn lemma_after_block(m: StateModel, prepared: PreparedBlockEvent, channel_id: ChannelId)
    requires
        consistent(m),
        prepared.channel_txs@ == classifications(prepared.block.transactions@, channel_id),
    ensures
        consistent(after_block(m, prepared, channel_id)),
{
    let block = prepared.block;
    let txs = block.transactions@;
    let channel_txs = prepared.channel_txs@.map_values(demoted(m.wallet, txs, channel_id));
    lemma_scan_carries(txs, channel_id, m.wallet);
    lemma_mirror(m, channel_txs, txs, channel_id);
    let mirrored = if block.id == prepared.tip {
        mirror(m, channel_txs, txs, channel_id)
    } else {
        m
    };
    let signed = mirrorable(channel_txs, txs);
    law_blocks_keep_consistency(
        mirrored,
        arbitrary(),
        block.id,
        block.parent_block,
        prepared.lib,
        prepared.our_txs@,
        channel_txs,
        prepared.note_ops@,
        signed,
        arbitrary(),
    );
    law_blocks_keep_consistency(
        mirrored.store_signed(block.id, signed),
        arbitrary(),
        block.id,
        block.parent_block,
        prepared.lib,
        prepared.our_txs@,
        channel_txs,
        prepared.note_ops@,
        Seq::empty(),
        arbitrary(),
    );
}

/// A handled block event leaves a consistent state, whatever it finalizes,
/// fills in, displaces and mirrors.
pub proof fn law_events_keep_consistency(
    event: BlockEvent,
    finalized: Seq<FetchedBlock>,
    backfill: Seq<FetchedBlock>,
    live: EventsReply,
    channel_id: ChannelId,
    before: (Option<StateModel>, Option<HeaderId>, Slot),
    after: (Option<StateModel>, Option<HeaderId>, Slot),
    result: BlockEventResult,
)
    requires
        event_handled(event, finalized, backfill, live, channel_id, before, after, result),
        before.0 matches Some(m) ==> consistent(m),
    ensures
        after.0 matches Some(m) && consistent(m),
{
    let start = event_start(before.0, event.lib);
    law_new_state_is_consistent(event.lib, MsgId::spec_root());
    let prepared = choose|prepared: PreparedBlockEvent|
        {
            &&& #[trigger] prepares_event(
                prepared,
                event,
                finalized,
                backfill,
                live,
                before.0,
                channel_id,
            )
            &&& after.0 == Some(after_event(start, prepared, channel_id))
        };
    lemma_finalized(start, prepared.finalized@, finalized, channel_id, before.0);
    let settled = apply_finalized(start, prepared.finalized@);
    lemma_backfill(settled, prepared.canonical_backfill@, settled.lib, channel_id);
    let filled = backfill_all(settled, prepared.canonical_backfill@, settled.lib, channel_id);
    lemma_after_block(filled, prepared, channel_id);
    let processed = after_block(filled, prepared, channel_id);
    lemma_without_all(processed, arbitrary(), prepared.finalized@.flat_map(hashes_of_block()));
    let cleaned = processed.without_all(prepared.finalized@.flat_map(hashes_of_block()));
    let txs = cleaned.untracked_on(prepared.tip);
    lemma_mirror(
        cleaned,
        classifications(txs, channel_id).map_values(demoted(cleaned.wallet, txs, channel_id)),
        txs,
        channel_id,
    );
}

} // verus!
