//! What holds of the sequencer's state across its operations.

use vstd::prelude::*;

use crate::collections::{lemma_sorted_seq_lists, other_than, outside, sorted_seq};
use crate::ids::{ChannelId, HeaderId, MsgId, TxHash};
use crate::mantle::SignedOps;
use crate::sequencer::channel_tx::BlockChannelTx;
use crate::sequencer::channel_wallet::NoteOp;
use crate::sequencer::consistency_laws::{
    consistent, held_once, lemma_in_order, lemma_in_order_of, lemma_place_is_free, loop_free,
    loop_free_in,
};
use crate::sequencer::state::lemma_filter_map_push;
use crate::sequencer::state_model::{
    branch, grounded, hash_not_in, hash_of, hashes, kept_blocks, last_tip, not_safe, report_hash,
    OtherModel, PendingInscription, StateModel,
};
use crate::sequencer::types::{InscriptionInfo, PendingTx};
use crate::sequencer::updates::{after_config, config_moved, shed_by_config};

verus! {

// Pending chains.

/// The pending continuations are in order: each stands under the parent it
/// chains from, and leaves a message of a higher rank than its parent.
pub open spec fn orderly(m: StateModel, rank: spec_fn(MsgId) -> nat) -> bool {
    forall|parent: MsgId| #[trigger]
        m.by_parent.contains_key(parent) ==> {
            let hash = m.by_parent[parent];
            &&& m.is_tracked(hash)
            &&& m.parent_of(hash) == Some(parent)
            &&& m.tip_of(hash) matches Some(tip) && rank(tip) > rank(parent)
        }
}

/// The pending continuations are in order: each stands under the parent it
/// chains from, and leaves a message of no lower rank than its parent, of a
/// higher one if it is among `eligible`.
pub open spec fn orderly_in(
    m: StateModel,
    eligible: Set<TxHash>,
    rank: spec_fn(MsgId) -> nat,
) -> bool {
    forall|parent: MsgId| #[trigger]
        m.by_parent.contains_key(parent) ==> {
            let hash = m.by_parent[parent];
            &&& m.is_tracked(hash)
            &&& m.parent_of(hash) == Some(parent)
            &&& m.tip_of(hash) matches Some(tip) && rank(tip) >= rank(parent) && (m.pending_in(
                eligible,
            ).contains(hash) ==> rank(tip) > rank(parent))
        }
}

/// The held transactions that chain from a message of rank `r` or more.
pub open spec fn from_rank(m: StateModel, rank: spec_fn(MsgId) -> nat, r: nat) -> Set<TxHash> {
    Set::new(
        |hash: TxHash|
            m.held().contains(hash) && (m.parent_of(hash) matches Some(parent) && rank(parent)
                >= r),
    )
}

pub proof fn lemma_from_rank_bound(m: StateModel, rank: spec_fn(MsgId) -> nat, r: nat)
    requires
        m.wf(),
    ensures
        from_rank(m, rank, r).finite(),
        from_rank(m, rank, r).len() <= m.pending.len() + m.other.len(),
        m.held().finite(),
{
    vstd::set_lib::lemma_len_union(m.pending.dom(), m.other.dom());
    vstd::set_lib::lemma_len_subset(from_rank(m, rank, r), m.held());
}

proof fn lemma_tail_ends(m: StateModel, rank: spec_fn(MsgId) -> nat, msg: MsgId, steps: nat)
    requires
        m.wf(),
        orderly(m, rank),
        from_rank(m, rank, rank(msg)).len() < steps,
    ensures
        m.child(m.tail(msg, steps)) is None,
    decreases steps,
{
    if let Some(hash) = m.child(msg) {
        assert(m.by_parent.contains_key(msg));
        let tip = m.tip_of(hash)->0;
        assert(m.next(msg) == Some(tip));
        let here = from_rank(m, rank, rank(msg));
        let there = from_rank(m, rank, rank(tip));
        lemma_from_rank_bound(m, rank, rank(msg));
        lemma_from_rank_bound(m, rank, rank(tip));
        assert(here.contains(hash));
        assert(!there.contains(hash));
        assert(there.subset_of(here.remove(hash)));
        vstd::set_lib::lemma_len_subset(there, here.remove(hash));
        lemma_tail_ends(m, rank, tip, (steps - 1) as nat);
    } else {
        assert(m.next(msg) is None);
        assert(m.tail(msg, steps) == msg);
    }
}

/// What a new publish chains on is free: no pending transaction continues it,
/// so that no submission there is refused.
pub proof fn law_publish_parent_is_free(m: StateModel, tip: HeaderId, hash: TxHash)
    requires
        consistent(m),
        loop_free(m),
    ensures
        m.child(m.publish_parent(tip)) is None,
        m.taken(m.publish_parent(tip), hash) is None,
{
    let rank = lemma_in_order(m);
    lemma_from_rank_bound(m, rank, rank(m.channel_tip(tip)));
    lemma_tail_ends(m, rank, m.channel_tip(tip), m.chain_bound());
}

/// With nothing pending on the channel tip, a new publish chains on it.
pub proof fn law_first_publish_chains_on_the_tip(m: StateModel, tip: HeaderId)
    requires
        m.child(m.channel_tip(tip)) is None,
    ensures
        m.publish_parent(tip) == m.channel_tip(tip),
{
    assert(m.next(m.channel_tip(tip)) is None);
}

proof fn lemma_tail_grows(
    m: StateModel,
    n: StateModel,
    entry: PendingInscription,
    msg: MsgId,
    steps: nat,
)
    requires
        n == m.put_pending(entry),
        !m.is_tracked(entry.tx_hash),
        m.child(m.tail(msg, steps)) is None,
        m.tail(msg, steps) == entry.parent_msg,
        entry.this_msg != entry.parent_msg,
        m.child(entry.this_msg) is None,
        forall|parent: MsgId| #[trigger]
            m.by_parent.contains_key(parent) ==> m.is_tracked(m.by_parent[parent]),
    ensures
        n.tail(msg, steps + 1) == entry.this_msg,
    decreases steps,
{
    let parent = entry.parent_msg;
    assert(n.next(parent) == Some(entry.this_msg));
    assert(n.child(entry.this_msg) is None);
    if steps == 0 || m.next(msg) is None {
        assert(msg == parent);
        assert(n.next(entry.this_msg) is None);
        assert(n.tail(entry.this_msg, steps) == entry.this_msg);
    } else {
        let next = m.next(msg)->0;
        assert(msg != parent);
        assert(n.child(msg) == m.child(msg));
        assert(n.next(msg) == Some(next));
        lemma_tail_grows(m, n, entry, next, (steps - 1) as nat);
    }
}

/// Publishing on the publish parent makes the published message the next
/// publish parent, wherever the submission is accepted: our own messages form
/// one chain.
pub proof fn law_publishes_chain(m: StateModel, tip: HeaderId, entry: PendingInscription)
    requires
        consistent(m),
        !m.is_tracked(entry.tx_hash),
        entry.parent_msg == m.publish_parent(tip),
        m.taken(entry.parent_msg, entry.tx_hash) is None,
        entry.this_msg != entry.parent_msg,
        m.child(entry.this_msg) is None,
    ensures
        m.track_local(entry.tx_hash).put_pending(entry).publish_parent(tip) == entry.this_msg,
{
    let local = m.track_local(entry.tx_hash);
    let n = local.put_pending(entry);
    let plain = m.put_pending(entry);
    lemma_place_is_free(m, entry.parent_msg, entry.tx_hash);
    assert forall|parent: MsgId| #[trigger] m.by_parent.contains_key(parent) implies m.is_tracked(
        m.by_parent[parent],
    ) by {}
    lemma_tail_grows(m, plain, entry, m.channel_tip(tip), m.chain_bound());
    assert(plain.chain_bound() == m.chain_bound() + 1);
    lemma_same_chain(plain, n, plain.channel_tip(tip), plain.chain_bound());
    assert(n.channel_tip(tip) == m.channel_tip(tip)) by {
        lemma_same_blocks(m, n, tip);
    }
    assert(plain.channel_tip(tip) == m.channel_tip(tip)) by {
        lemma_same_blocks(m, plain, tip);
    }
}

/// What is pending decides the chain alone.
proof fn lemma_same_chain(a: StateModel, b: StateModel, msg: MsgId, steps: nat)
    requires
        a.pending == b.pending,
        a.other == b.other,
        a.by_parent == b.by_parent,
    ensures
        a.tail(msg, steps) == b.tail(msg, steps),
    decreases steps,
{
    assert(a.next(msg) == b.next(msg));
    if steps > 0 && a.next(msg) is Some {
        lemma_same_chain(a, b, a.next(msg)->0, (steps - 1) as nat);
    }
}

proof fn lemma_same_tip_entry(a: StateModel, b: StateModel, blocks: Seq<HeaderId>)
    requires
        a.stored == b.stored,
    ensures
        a.tip_entry_in(blocks) == b.tip_entry_in(blocks),
        a.config_entry_in(blocks) == b.config_entry_in(blocks),
    decreases blocks.len(),
{
    if blocks.len() > 0 {
        assert(a.txs_at(blocks[0]) == b.txs_at(blocks[0]));
        lemma_same_tip_entry(a, b, blocks.drop_first());
    }
}

/// What is stored on a branch decides its tips.
pub proof fn lemma_same_blocks(a: StateModel, b: StateModel, tip: HeaderId)
    requires
        a.stored == b.stored,
        a.parents == b.parents,
        a.lib == b.lib,
        a.finalized_msg == b.finalized_msg,
        a.finalized_config == b.finalized_config,
    ensures
        a.channel_tip(tip) == b.channel_tip(tip),
        a.config_tip(tip) == b.config_tip(tip),
{
    lemma_same_tip_entry(a, b, a.branch(tip));
}

/// Every pending transaction that continues a message stands under it.
pub open spec fn linked(m: StateModel) -> bool {
    forall|hash: TxHash| #[trigger]
        m.is_tracked(hash) ==> (m.parent_of(hash) matches Some(parent) ==> m.child(parent) == Some(
            hash,
        ))
}

// Submitting.

/// Taking a submitted inscription back leaves the pending set and the chain as
/// they were.
pub proof fn law_remove_undoes_submit(m: StateModel, entry: PendingInscription)
    requires
        !m.is_tracked(entry.tx_hash),
        m.child(entry.parent_msg) is None,
    ensures
        ({
            let n = m.track_local(entry.tx_hash).put_pending(entry).without(entry.tx_hash);
            &&& n.pending == m.pending
            &&& n.by_parent == m.by_parent
            &&& n.other == m.other
            &&& n.other_order == m.other_order
        }),
{
    let n = m.track_local(entry.tx_hash).put_pending(entry).without(entry.tx_hash);
    assert(n.pending =~= m.pending);
    assert(n.by_parent =~= m.by_parent);
}

/// After an accepted submission, its place in the lineage is its own: another
/// transaction on the same parent is refused.
pub proof fn law_one_continuation_per_parent(
    m: StateModel,
    entry: PendingInscription,
    other: TxHash,
)
    requires
        other != entry.tx_hash,
    ensures
        m.put_pending(entry).taken(entry.parent_msg, other) == Some(entry.tx_hash),
{
}

/// Seeing a pending transaction on the channel changes nothing.
pub proof fn law_observing_a_pending_tx_is_a_no_op(
    m: StateModel,
    entry: PendingInscription,
    tx: SignedOps,
    channel_id: ChannelId,
)
    ensures
        m.is_tracked(entry.tx_hash) ==> m.observe_inscription(entry) == m,
        m.is_tracked(tx.hash) ==> m.observe_other(tx, channel_id) == m,
{
}

/// An inscription seen on the channel is held afterwards, and holds its place.
pub proof fn law_observed_inscription_holds_its_place(m: StateModel, entry: PendingInscription)
    requires
        m.wf(),
        !m.is_tracked(entry.tx_hash),
    ensures
        m.observe_inscription(entry).pending.contains_key(entry.tx_hash),
        m.observe_inscription(entry).child(entry.parent_msg) == Some(entry.tx_hash),
{
}

// Blocks.

/// A new block settles nothing that is pending: only finalized blocks do.
pub proof fn law_process_block_keeps_pending(
    m: StateModel,
    block: HeaderId,
    parent: HeaderId,
    lib: HeaderId,
    our_txs: Seq<TxHash>,
    channel_txs: Seq<BlockChannelTx>,
    note_ops: Seq<NoteOp>,
)
    ensures
        ({
            let n = m.process_block(block, parent, lib, our_txs, channel_txs, note_ops);
            &&& n.pending == m.pending
            &&& n.by_parent == m.by_parent
            &&& n.other == m.other
            &&& n.other_order == m.other_order
            &&& n.displaced == m.displaced
            &&& n.displaced_other == m.displaced_other
            &&& n.local == m.local
        }),
{
}

/// The safe set of a block holds that of its parent and the block's own
/// transactions.
pub proof fn law_safe_sets_are_cumulative(
    m: StateModel,
    block: HeaderId,
    parent: HeaderId,
    our_txs: Seq<TxHash>,
    channel_txs: Seq<BlockChannelTx>,
    note_ops: Seq<NoteOp>,
)
    ensures
        ({
            let n = m.add_block(block, parent, our_txs, channel_txs, note_ops);
            &&& m.safe_at(parent).subset_of(n.safe_at(block))
            &&& our_txs.to_set().subset_of(n.safe_at(block))
            &&& forall|other: HeaderId| other != block ==> #[trigger] n.safe_at(other)
                == m.safe_at(other)
        }),
{
}

/// Once LIB moved, every known block hangs together with it: nothing below it
/// and nothing on a dead fork is left.
pub proof fn law_known_blocks_reach_lib(m: StateModel, lib: HeaderId)
    ensures
        grounded(m.advance_lib(lib).parents, lib, m.advance_lib(lib).parents.dom()),
        m.advance_lib(lib).lib == lib,
{
    let finalized = m.finalize(lib);
    let trimmed = finalized.prune(finalized.below(lib)).without_settled(lib);
    let n = m.advance_lib(lib);
    let kept = kept_blocks(trimmed.parents, lib);
    assert forall|id: HeaderId| #[trigger] n.parents.dom().contains(id) implies id == lib
        || n.parents[id] == lib || n.parents.dom().contains(n.parents[id]) by {
        assert(kept.contains(id));
        let blocks = choose|blocks: Set<HeaderId>|
            {
                &&& #[trigger] blocks.subset_of(trimmed.parents.dom())
                &&& grounded(trimmed.parents, lib, blocks)
                &&& blocks.contains(id)
            };
        let parent = trimmed.parents[id];
        if id != lib && parent != lib {
            assert(blocks.contains(parent));
            assert(kept.contains(parent));
            assert(trimmed.parents.contains_key(parent));
        }
    }
}

/// Nothing that is mined on the branch is posted again.
pub proof fn law_mined_is_not_posted_again(m: StateModel, tip: HeaderId, i: int)
    requires
        m.wf(),
        0 <= i < m.to_post(tip).len(),
    ensures
        !m.safe_at(tip).contains(m.to_post(tip)[i].0),
        m.is_tracked(m.to_post(tip)[i].0),
{
    let safe = m.safe_at(tip);
    let chain = m.suffix(m.channel_tip(tip)).filter(not_safe(safe));
    let first = chain.filter_map(m.pending_pair());
    let rest = m.other_order.filter(hash_not_in(safe)).map_values(m.other_pair());
    broadcast use vstd::seq_lib::group_filter_ensures;

    if i < first.len() {
        lemma_filter_map_from(chain, m.pending_pair(), i);
        let k = choose|k: int|
            0 <= k < chain.len() && m.pending_pair()(#[trigger] chain[k]) == Some(first[i]);
        assert(not_safe(safe)(chain[k]));
    } else {
        let j = i - first.len();
        let others = m.other_order.filter(hash_not_in(safe));
        assert(hash_not_in(safe)(others[j]));
        lemma_filter_member(m.other_order, hash_not_in(safe), others[j]);
        assert(m.other_order.to_set().contains(others[j]));
    }
}

pub proof fn lemma_filter_map_from<A, B>(s: Seq<A>, f: spec_fn(A) -> Option<B>, i: int)
    requires
        0 <= i < s.filter_map(f).len(),
    ensures
        exists|k: int| 0 <= k < s.len() && f(#[trigger] s[k]) == Some(s.filter_map(f)[i]),
    decreases s.len(),
{
    if s.len() > 0 {
        let front = s.drop_last();
        assert(front.push(s.last()) =~= s);
        lemma_filter_map_push(front, s.last(), f);
        if i < front.filter_map(f).len() {
            lemma_filter_map_from(front, f, i);
            let k = choose|k: int|
                0 <= k < front.len() && f(#[trigger] front[k]) == Some(front.filter_map(f)[i]);
            assert(s[k] == front[k]);
        } else {
            assert(f(s[s.len() - 1]) == Some(s.filter_map(f)[i]));
        }
    } else {
        assert(s.filter_map(f) =~= Seq::empty());
    }
}

// Configs.

/// Restoring the finalized config tip makes it the config tip wherever the
/// branch has no config, and is no fresh landing.
pub proof fn law_restored_config_is_the_config_tip(m: StateModel, config: MsgId, tip: HeaderId)
    requires
        m.config_entry(tip) is None,
    ensures
        ({
            let n = StateModel {
                finalized_config: config,
                observed_config_tip: config,
                ..m
            };
            n.config_tip(tip) == config && n.config_tip(tip) == n.observed_config_tip
        }),
{
    let n = StateModel { finalized_config: config, observed_config_tip: config, ..m };
    lemma_same_tip_entry(m, n, m.branch(tip));
}

/// A block of configs alone leaves the message tip where its parent has it.
pub proof fn law_configs_leave_the_message_tip(
    m: StateModel,
    block: HeaderId,
    parent: HeaderId,
    our_txs: Seq<TxHash>,
    channel_txs: Seq<BlockChannelTx>,
    note_ops: Seq<NoteOp>,
)
    requires
        m.wf(),
        block != m.lib,
        !m.branch(parent).contains(block),
        !m.parents.contains_key(block),
        last_tip(channel_txs) is None,
        !m.stored.contains_key(block),
    ensures
        m.add_block(block, parent, our_txs, channel_txs, note_ops).channel_tip(block)
            == m.channel_tip(parent),
{
    let n = m.add_block(block, parent, our_txs, channel_txs, note_ops);
    assert(n.parents.len() == m.parents.len() + 1);
    lemma_branch_with_new_block(m.parents, m.lib, parent, m.parents.len(), block, parent);
    assert(n.branch(block) == seq![block] + m.branch(parent));
    assert(n.branch(block).drop_first() =~= m.branch(parent));
    lemma_tip_entry_elsewhere(m, n, m.branch(parent), block);
    assert(last_tip(n.txs_at(block)) is None);
}

/// A new block leaves a branch that does not run through it as it is.
proof fn lemma_branch_with_new_block(
    parents: Map<HeaderId, HeaderId>,
    lib: HeaderId,
    tip: HeaderId,
    fuel: nat,
    block: HeaderId,
    parent: HeaderId,
)
    requires
        !branch(parents, lib, tip, fuel).contains(block),
    ensures
        branch(parents.insert(block, parent), lib, tip, fuel) == branch(parents, lib, tip, fuel),
    decreases fuel,
{
    let blocks = branch(parents, lib, tip, fuel);
    assert(blocks[0] == tip);
    if !(tip == lib || !parents.contains_key(tip) || fuel == 0) {
        let rest = branch(parents, lib, parents[tip], (fuel - 1) as nat);
        assert(!rest.contains(block)) by {
            if rest.contains(block) {
                let k = rest.index_of(block);
                assert(blocks[k + 1] == block);
            }
        }
        lemma_branch_with_new_block(parents, lib, parents[tip], (fuel - 1) as nat, block, parent);
    }
}

proof fn lemma_tip_entry_elsewhere(
    m: StateModel,
    n: StateModel,
    blocks: Seq<HeaderId>,
    block: HeaderId,
)
    requires
        !blocks.contains(block),
        forall|b: HeaderId| b != block ==> m.txs_at(b) == #[trigger] n.txs_at(b),
    ensures
        m.tip_entry_in(blocks) == n.tip_entry_in(blocks),
    decreases blocks.len(),
{
    if blocks.len() > 0 {
        assert(blocks[0] != block);
        assert(n.txs_at(blocks[0]) == m.txs_at(blocks[0]));
        assert(!blocks.drop_first().contains(block)) by {
            if blocks.drop_first().contains(block) {
                let k = blocks.drop_first().index_of(block);
                assert(blocks[k + 1] == block);
            }
        }
        lemma_tip_entry_elsewhere(m, n, blocks.drop_first(), block);
    }
}

// What holds of every state.

proof fn lemma_other_order_without(m: StateModel, hash: TxHash)
    requires
        m.wf(),
    ensures
        m.other_order.filter(other_than(hash)).no_duplicates(),
        m.other_order.filter(other_than(hash)).to_set() == m.other.dom().remove(hash),
{
    let keep = other_than(hash);
    let rest = m.other_order.filter(keep);
    lemma_filter_keeps_distinct(m.other_order, keep);
    assert forall|x: TxHash| rest.to_set().contains(x) == m.other.dom().remove(hash).contains(
        x,
    ) by {
        if rest.contains(x) {
            lemma_filter_member(m.other_order, keep, x);
            assert(m.other_order.to_set().contains(x));
        }
        if m.other.dom().remove(hash).contains(x) {
            assert(m.other_order.to_set().contains(x));
            lemma_filter_member(m.other_order, keep, x);
        }
    }
    assert(rest.to_set() =~= m.other.dom().remove(hash));
}

/// A filtered list holds what the list holds and the test lets through.
pub proof fn lemma_filter_member<A>(s: Seq<A>, keep: spec_fn(A) -> bool, x: A)
    ensures
        s.filter(keep).contains(x) <==> s.contains(x) && keep(x),
    decreases s.len(),
{
    reveal(Seq::filter);
    if s.len() > 0 {
        let front = s.drop_last();
        lemma_filter_member(front, keep, x);
        let kept = front.filter(keep);
        if front.contains(x) {
            assert(s[front.index_of(x)] == x);
        }
        if kept.contains(x) {
            assert(kept.push(s.last())[kept.index_of(x)] == x);
        }
        if x == s.last() && keep(x) {
            assert(s.filter(keep) == kept.push(x));
            assert(kept.push(x)[kept.len() as int] == x);
        }
        if s.contains(x) && x != s.last() {
            assert(front[s.index_of(x)] == x);
        }
        if s.filter(keep).contains(x) && keep(s.last()) {
            let i = s.filter(keep).index_of(x);
            if i < kept.len() {
                assert(kept[i] == x);
            }
        }
        assert(s.contains(s.last())) by {
            assert(s[s.len() - 1] == s.last());
        }
    }
}

proof fn lemma_filter_keeps_distinct<A>(s: Seq<A>, keep: spec_fn(A) -> bool)
    requires
        s.no_duplicates(),
    ensures
        s.filter(keep).no_duplicates(),
    decreases s.len(),
{
    reveal(Seq::filter);
    if s.len() > 0 {
        let front = s.drop_last();
        lemma_filter_keeps_distinct(front, keep);
        assert(s.filter(keep) == if keep(s.last()) {
            front.filter(keep).push(s.last())
        } else {
            front.filter(keep)
        });
        if keep(s.last()) {
            assert(!front.filter(keep).contains(s.last())) by {
                if front.filter(keep).contains(s.last()) {
                    lemma_filter_member(front, keep, s.last());
                    let k = front.index_of(s.last());
                    assert(s[k] == s[s.len() - 1]);
                }
            }
        }
    }
}

/// A new state is well formed, and submitting, observing and removing keep it
/// so.
pub proof fn law_pending_operations_keep_wf(
    m: StateModel,
    lib: HeaderId,
    msg: MsgId,
    entry: PendingInscription,
    tx: SignedOps,
    channel_id: ChannelId,
    hash: TxHash,
)
    requires
        m.wf(),
    ensures
        StateModel::new(lib, msg).wf(),
        m.track_local(hash).wf(),
        m.put_pending(entry).wf(),
        m.put_other(tx, channel_id).wf(),
        m.without(hash).wf(),
        m.mark_posted(hash).wf(),
{
    lemma_new_wf(lib, msg);
    assert(m.put_pending(entry).wf());
    lemma_put_other_wf(m, tx, channel_id);
    lemma_without_wf(m, hash);
    assert(m.mark_posted(hash).wf());
}

proof fn lemma_new_wf(lib: HeaderId, msg: MsgId)
    ensures
        StateModel::new(lib, msg).wf(),
{
    let m = StateModel::new(lib, msg);
    assert(m.other_order.to_set() =~= m.other.dom());
    assert(m.stored_order.to_set() =~= m.stored.dom());
}

proof fn lemma_put_other_wf(m: StateModel, tx: SignedOps, channel_id: ChannelId)
    requires
        m.wf(),
    ensures
        m.put_other(tx, channel_id).wf(),
{
    let n = m.put_other(tx, channel_id);
    let rest = m.other_order.filter(other_than(tx.hash));
    lemma_other_order_without(m, tx.hash);
    rest.lemma_push_to_set_commute(tx.hash);
    assert(!rest.contains(tx.hash)) by {
        if rest.contains(tx.hash) {
            assert(rest.to_set().contains(tx.hash));
        }
    }
    assert(n.other_order.no_duplicates());
    assert(n.other_order.to_set() =~= n.other.dom());
}

pub proof fn lemma_without_wf(m: StateModel, hash: TxHash)
    requires
        m.wf(),
    ensures
        m.without(hash).wf(),
{
    lemma_other_order_without(m, hash);
    let n = m.without(hash);
    assert(n.other_order.to_set() =~= n.other.dom());
}

pub proof fn lemma_without_all_wf(m: StateModel, list: Seq<TxHash>)
    requires
        m.wf(),
    ensures
        m.without_all(list).wf(),
    decreases list.len(),
{
    if list.len() > 0 {
        lemma_without_all_wf(m, list.drop_last());
        lemma_without_wf(m.without_all(list.drop_last()), list.last());
    }
}

proof fn lemma_displace_wf(m: StateModel, head: TxHash)
    requires
        m.wf(),
    ensures
        m.displace(head).wf(),
    decreases m.pending.len() + m.other.len(),
{
    if m.is_tracked(head) {
        lemma_without_wf(m, head);
        let rest = if m.pending.contains_key(head) {
            StateModel {
                displaced: m.displaced.push(m.pending[head].report()),
                ..m.without(head)
            }
        } else {
            StateModel {
                displaced_other: m.displaced_other.push(m.other[head].signed_tx),
                ..m.without(head)
            }
        };
        assert(rest.wf());
        if let Some(tip) = m.tip_of(head) {
            if let Some(next) = m.child(tip) {
                lemma_displace_wf(rest, next);
            }
        }
    }
}

/// Seeing a transaction on the channel keeps a state well formed.
pub proof fn law_observing_keeps_wf(
    m: StateModel,
    entry: PendingInscription,
    tx: SignedOps,
    channel_id: ChannelId,
)
    requires
        m.wf(),
    ensures
        m.observe_inscription(entry).wf(),
        m.observe_other(tx, channel_id).wf(),
{
    if let Some(sibling) = m.child(entry.parent_msg) {
        lemma_displace_wf(m, sibling);
    }
    assert(m.cleared(Some(entry.parent_msg)).wf());
    let parent = OtherModel::of(tx, channel_id).first_parent();
    if let Some(parent) = parent {
        if let Some(sibling) = m.child(parent) {
            lemma_displace_wf(m, sibling);
        }
    }
    assert(m.cleared(parent).wf());
    lemma_put_other_wf(m.cleared(parent), tx, channel_id);
}

proof fn lemma_prune_wf(m: StateModel, blocks: Set<HeaderId>)
    requires
        m.wf(),
    ensures
        m.prune(blocks).wf(),
{
    let n = m.prune(blocks);
    let keep = outside(blocks);
    lemma_filter_keeps_distinct(m.stored_order, keep);
    assert forall|x: HeaderId| n.stored_order.to_set().contains(x) == n.stored.dom().contains(
        x,
    ) by {
        if n.stored_order.contains(x) {
            lemma_filter_member(m.stored_order, keep, x);
            assert(m.stored_order.to_set().contains(x));
        }
        if n.stored.dom().contains(x) {
            assert(m.stored_order.to_set().contains(x));
            lemma_filter_member(m.stored_order, keep, x);
        }
    }
    assert(n.stored_order.to_set() =~= n.stored.dom());
    vstd::set_lib::lemma_len_subset(n.parents.dom(), m.parents.dom());
}

proof fn lemma_add_block_wf(
    m: StateModel,
    block: HeaderId,
    parent: HeaderId,
    our_txs: Seq<TxHash>,
    channel_txs: Seq<BlockChannelTx>,
    note_ops: Seq<NoteOp>,
)
    requires
        m.wf(),
    ensures
        m.add_block(block, parent, our_txs, channel_txs, note_ops).wf(),
{
    let n = m.add_block(block, parent, our_txs, channel_txs, note_ops);
    m.stored_order.lemma_push_to_set_commute(block);
    if channel_txs.len() != 0 && !m.stored.contains_key(block) {
        assert(!m.stored_order.contains(block)) by {
            if m.stored_order.contains(block) {
                assert(m.stored_order.to_set().contains(block));
            }
        }
    }
    assert(n.stored_order.to_set() =~= n.stored.dom());
}

/// A new block keeps a state well formed, whether or not LIB moves.
pub proof fn law_process_block_keeps_wf(
    m: StateModel,
    block: HeaderId,
    parent: HeaderId,
    lib: HeaderId,
    our_txs: Seq<TxHash>,
    channel_txs: Seq<BlockChannelTx>,
    note_ops: Seq<NoteOp>,
)
    requires
        m.wf(),
    ensures
        m.process_block(block, parent, lib, our_txs, channel_txs, note_ops).wf(),
{
    lemma_add_block_wf(m, block, parent, our_txs, channel_txs, note_ops);
    let added = m.add_block(block, parent, our_txs, channel_txs, note_ops);
    let finalized = added.finalize(lib);
    assert(finalized.wf());
    lemma_prune_wf(finalized, finalized.below(lib));
    let trimmed = finalized.prune(finalized.below(lib)).without_settled(lib);
    assert(trimmed.wf());
    lemma_prune_wf(trimmed, trimmed.orphans(lib));
}

/// The shed passes keep a state well formed.
pub proof fn law_sheds_keep_wf(m: StateModel, eligible: Set<TxHash>, list: Seq<TxHash>)
    requires
        m.wf(),
    ensures
        m.drain(eligible).wf(),
        m.without_all(list).wf(),
{
    lemma_without_all_wf(m, m.drained(eligible).map_values(
        report_hash(),
    ));
    lemma_without_all_wf(m, list);
}

// Shedding.

/// A transaction taken out is no longer held, whatever else is taken out.
pub proof fn law_taken_out_is_gone(m: StateModel, list: Seq<TxHash>, hash: TxHash)
    requires
        list.contains(hash),
        held_once(m),
    ensures
        !m.without_all(list).is_tracked(hash),
    decreases list.len(),
{
    let front = list.drop_last();
    let before = m.without_all(front);
    lemma_without_all_shrinks(m, front);
    if list.last() != hash {
        let i = list.index_of(hash);
        assert(front[i] == hash);
        law_taken_out_is_gone(m, front, hash);
    }
}

pub proof fn lemma_without_all_shrinks(m: StateModel, list: Seq<TxHash>)
    ensures
        m.without_all(list).pending.dom().subset_of(m.pending.dom()),
        m.without_all(list).other.dom().subset_of(m.other.dom()),
    decreases list.len(),
{
    if list.len() > 0 {
        lemma_without_all_shrinks(m, list.drop_last());
    }
}

proof fn lemma_reports_are_eligible(
    m: StateModel,
    infos: Seq<InscriptionInfo>,
    eligible: Set<TxHash>,
    i: int,
)
    requires
        m.wf(),
        0 <= i < m.reports(infos, eligible).len(),
    ensures
        eligible.contains(m.reports(infos, eligible)[i].spec_tx_hash()),
        m.pending.contains_key(m.reports(infos, eligible)[i].spec_tx_hash()),
    decreases infos.len(),
{
    let rest = infos.drop_first();
    let later = m.reports(rest, eligible);
    let all = m.reports(infos, eligible);
    let k = i - (all.len() - later.len());
    if k >= 0 {
        lemma_reports_are_eligible(m, rest, eligible, k);
        assert(all[i] == later[k]);
    }
}

/// A shed pass reports only what it was to give up.
pub proof fn law_only_the_eligible_are_shed(m: StateModel, eligible: Set<TxHash>, i: int)
    requires
        m.wf(),
        0 <= i < m.drained(eligible).len(),
    ensures
        eligible.contains(m.drained(eligible)[i].spec_tx_hash()),
        m.pending.contains_key(m.drained(eligible)[i].spec_tx_hash()),
{
    let infos = sorted_seq(m.roots(eligible)).flat_map(m.suffixes());
    lemma_reports_are_eligible(m, infos, eligible, i);
}

/// Nothing that is mined on the branch is shed, whether a tip moved past it or
/// a config changed.
pub proof fn law_mined_is_not_shed(m: StateModel, tip: HeaderId, hash: TxHash)
    requires
        m.wf(),
        m.safe_at(tip).contains(hash),
    ensures
        forall|i: int|
            0 <= i < m.drained(m.off_branch(tip)).len() ==> (#[trigger] m.drained(
                m.off_branch(tip),
            )[i]).spec_tx_hash() != hash,
        forall|i: int|
            0 <= i < shed_by_config(m, tip).len() ==> (#[trigger] shed_by_config(
                m,
                tip,
            )[i]).spec_tx_hash() != hash,
        !m.displaced_others(tip).contains(hash),
        !m.stale_configs(tip).contains(hash),
{
    assert forall|i: int| 0 <= i < m.drained(m.off_branch(tip)).len() implies (
    #[trigger] m.drained(m.off_branch(tip))[i]).spec_tx_hash() != hash by {
        law_only_the_eligible_are_shed(m, m.off_branch(tip), i);
    }
    let rest = StateModel { observed_config_tip: m.config_tip(tip), ..m };
    let eligible = rest.pending.dom().difference(rest.safe_at(tip));
    assert forall|i: int| 0 <= i < shed_by_config(m, tip).len() implies (
    #[trigger] shed_by_config(m, tip)[i]).spec_tx_hash() != hash by {
        law_only_the_eligible_are_shed(rest, eligible, i);
    }
}

/// An opaque transaction with no place in either lineage is never shed, and is
/// posted until it is mined.
pub proof fn law_placeless_is_never_shed(m: StateModel, tip: HeaderId, hash: TxHash)
    requires
        m.wf(),
        m.other.contains_key(hash),
        m.other[hash].first_parent() is None,
        m.other[hash].config_parent() is None,
    ensures
        !m.displaced_others(tip).contains(hash),
        !m.stale_configs(tip).contains(hash),
        !m.safe_at(tip).contains(hash) ==> m.to_post(tip).contains(
            (hash, m.other[hash].signed_tx),
        ),
{
    if !m.safe_at(tip).contains(hash) {
        let safe = m.safe_at(tip);
        assert(m.other_order.to_set().contains(hash));
        lemma_filter_member(m.other_order, hash_not_in(safe), hash);
        let others = m.other_order.filter(hash_not_in(safe));
        let rest = others.map_values(m.other_pair());
        let first = m.suffix(m.channel_tip(tip)).filter(not_safe(safe)).filter_map(
            m.pending_pair(),
        );
        let k = others.index_of(hash);
        assert(rest[k] == (hash, m.other[hash].signed_tx));
        assert(m.to_post(tip)[first.len() + k] == (hash, m.other[hash].signed_tx));
    }
}

/// Once a moved config tip was acted on, it sheds nothing more until it moves
/// again.
pub proof fn law_config_sheds_once(m: StateModel, tip: HeaderId)
    ensures
        !config_moved(
            after_config(m, tip),
            tip,
        ),
        shed_by_config(
            after_config(m, tip),
            tip,
        ) == Seq::<PendingTx>::empty(),
{
    let rest = StateModel { observed_config_tip: m.config_tip(tip), ..m };
    let eligible = rest.pending.dom().difference(rest.safe_at(tip));
    let n = rest.drain(eligible);
    lemma_without_all_keeps_blocks(
        rest,
        rest.drained(eligible).map_values(report_hash()),
    );
    lemma_same_blocks(m, n, tip);
}

/// Taking pending transactions out leaves the blocks and the finalized tips.
pub proof fn lemma_without_all_keeps_blocks(m: StateModel, list: Seq<TxHash>)
    ensures
        ({
            let n = m.without_all(list);
            &&& n.stored == m.stored
            &&& n.parents == m.parents
            &&& n.safe == m.safe
            &&& n.lib == m.lib
            &&& n.finalized_msg == m.finalized_msg
            &&& n.finalized_config == m.finalized_config
            &&& n.observed_config_tip == m.observed_config_tip
            &&& n.wallet == m.wallet
            &&& n.local == m.local
        }),
    decreases list.len(),
{
    if list.len() > 0 {
        lemma_without_all_keeps_blocks(m, list.drop_last());
    }
}

/// The chain off `start` runs through `msg`: it ends with the chain off `msg`.
spec fn runs_through(
    m: StateModel,
    rank: spec_fn(MsgId) -> nat,
    start: MsgId,
    msg: MsgId,
    before: Seq<InscriptionInfo>,
    visited: Set<MsgId>,
) -> bool {
    &&& m.suffix(start) == before + m.suffix_from(msg, visited)
    &&& forall|v: MsgId| #[trigger] visited.contains(v) ==> rank(v) < rank(msg)
}

/// A chain that runs through a message runs on through what a pending
/// inscription makes of it, and lists that inscription.
proof fn lemma_runs_on(
    m: StateModel,
    rank: spec_fn(MsgId) -> nat,
    eligible: Set<TxHash>,
    start: MsgId,
    hash: TxHash,
    before: Seq<InscriptionInfo>,
    visited: Set<MsgId>,
)
    requires
        m.wf(),
        orderly_in(m, eligible, rank),
        linked(m),
        m.pending_in(eligible).contains(hash),
        runs_through(m, rank, start, m.pending[hash].parent_msg, before, visited),
    ensures
        m.suffix(start).contains(m.pending[hash].entry()),
        runs_through(
            m,
            rank,
            start,
            m.pending[hash].this_msg,
            before.push(m.pending[hash].entry()),
            visited.insert(m.pending[hash].parent_msg),
        ),
{
    let entry = m.pending[hash].entry();
    let parent = m.pending[hash].parent_msg;
    let this = m.pending[hash].this_msg;
    assert(m.is_tracked(hash));
    assert(m.child(parent) == Some(hash));
    assert(m.by_parent.contains_key(parent));
    assert(!visited.contains(parent));
    let rest = m.suffix_from(this, visited.insert(parent));
    assert(m.suffix_from(parent, visited) == seq![entry] + rest);
    assert(m.suffix(start) =~= before.push(entry) + rest);
    assert(m.suffix(start)[before.len() as int] == entry);
    assert(rank(this) > rank(parent));
}

/// The chain of an eligible inscription starts off some root.
proof fn lemma_has_root(
    m: StateModel,
    rank: spec_fn(MsgId) -> nat,
    eligible: Set<TxHash>,
    hash: TxHash,
) -> (res: (MsgId, Seq<InscriptionInfo>, Set<MsgId>))
    requires
        m.wf(),
        orderly_in(m, eligible, rank),
        linked(m),
        m.pending_in(eligible).contains(hash),
    ensures
        m.roots(eligible).contains(res.0),
        runs_through(m, rank, res.0, m.pending[hash].parent_msg, res.1, res.2),
    decreases rank(m.pending[hash].parent_msg),
{
    let parent = m.pending[hash].parent_msg;
    if m.made_by(eligible).contains(parent) {
        let maker = choose|h: TxHash|
            #[trigger] m.pending_in(eligible).contains(h) && m.pending[h].this_msg == parent;
        assert(m.is_tracked(maker));
        assert(m.by_parent.contains_key(m.pending[maker].parent_msg));
        assert(rank(parent) > rank(m.pending[maker].parent_msg));
        let (root, before, visited) = lemma_has_root(m, rank, eligible, maker);
        lemma_runs_on(m, rank, eligible, root, maker, before, visited);
        (
            root,
            before.push(m.pending[maker].entry()),
            visited.insert(m.pending[maker].parent_msg),
        )
    } else {
        let none = Seq::<InscriptionInfo>::empty();
        assert(m.suffix(parent) =~= none + m.suffix_from(parent, Set::empty()));
        (parent, none, Set::empty())
    }
}

pub proof fn lemma_reported_where_listed(
    m: StateModel,
    infos: Seq<InscriptionInfo>,
    eligible: Set<TxHash>,
    hash: TxHash,
)
    requires
        hashes(infos).contains(hash),
        eligible.contains(hash),
        m.pending.contains_key(hash),
    ensures
        m.reports(infos, eligible).contains(m.pending[hash].report()),
    decreases infos.len(),
{
    let rest = infos.drop_first();
    let later = m.reports(rest, eligible);
    let all = m.reports(infos, eligible);
    let ids = infos.map_values(hash_of());
    let i = ids.index_of(hash);
    assert(ids[i] == hash);
    if hashes(rest).contains(hash) {
        lemma_reported_where_listed(m, rest, eligible, hash);
        let k = later.index_of(m.pending[hash].report());
        assert(all[k + all.len() - later.len()] == m.pending[hash].report());
    } else {
        if i > 0 {
            let rest_ids = rest.map_values(hash_of());
            assert(rest_ids[i - 1] == hash);
            assert(rest_ids.to_set().contains(hash));
        }
        assert(infos[0].tx_hash == hash);
        assert(all[0] == m.pending[hash].report());
    }
}

/// Every inscription that a shed pass gives up is reported, and none of them is
/// held afterwards.
pub proof fn law_every_shed_inscription_is_reported(
    m: StateModel,
    eligible: Set<TxHash>,
    hash: TxHash,
)
    requires
        consistent(m),
        loop_free_in(m, eligible),
        m.pending.contains_key(hash),
        eligible.contains(hash),
    ensures
        m.drained(eligible).contains(m.pending[hash].report()),
        !m.drain(eligible).is_tracked(hash),
{
    let rank = lemma_in_order_of(m, eligible);
    assert(m.pending_in(eligible).contains(hash));
    lemma_eligible_is_listed(m, rank, eligible, hash);
    let infos = sorted_seq(m.roots(eligible)).flat_map(m.suffixes());
    lemma_reported_where_listed(m, infos, eligible, hash);
    let gone = m.drained(eligible).map_values(report_hash());
    let k = m.drained(eligible).index_of(m.pending[hash].report());
    assert(gone[k] == hash);
    law_taken_out_is_gone(m, gone, hash);
}

proof fn lemma_roots_finite(m: StateModel, eligible: Set<TxHash>)
    requires
        m.wf(),
    ensures
        m.roots(eligible).finite(),
{
    let f = |hash: TxHash| m.pending[hash].parent_msg;
    let parents = m.pending.dom().map(f);
    m.pending.dom().lemma_map_finite(f);
    assert(m.roots(eligible).subset_of(parents)) by {
        assert forall|p: MsgId| m.roots(eligible).contains(p) implies parents.contains(p) by {
            let hash = choose|hash: TxHash|
                {
                    &&& #[trigger] m.pending_in(eligible).contains(hash)
                    &&& m.pending[hash].parent_msg == p
                    &&& !m.made_by(eligible).contains(p)
                };
            assert(m.pending.dom().contains(hash) && f(hash) == p);
        }
    }
    vstd::set_lib::lemma_set_subset_finite(parents, m.roots(eligible));
}

proof fn lemma_flat_map_lists<A, B>(s: Seq<A>, f: spec_fn(A) -> Seq<B>, i: int, x: B)
    requires
        0 <= i < s.len(),
        f(s[i]).contains(x),
    ensures
        s.flat_map(f).contains(x),
    decreases s.len(),
{
    let front = s.drop_last();
    s.lemma_flat_map_take_append(f, s.len() - 1);
    assert(s.take(s.len() as int) =~= s);
    assert(s.take(s.len() - 1) =~= front);
    let head = front.flat_map(f);
    let tail = f(s.last());
    assert(s.flat_map(f) == head + tail);
    if i < front.len() {
        lemma_flat_map_lists(front, f, i, x);
        assert((head + tail)[head.index_of(x)] == x);
    } else {
        assert((head + tail)[head.len() + tail.index_of(x)] == x);
    }
}

/// The chains off the roots list every eligible inscription.
pub proof fn lemma_eligible_is_listed(
    m: StateModel,
    rank: spec_fn(MsgId) -> nat,
    eligible: Set<TxHash>,
    hash: TxHash,
)
    requires
        m.wf(),
        orderly_in(m, eligible, rank),
        linked(m),
        m.pending_in(eligible).contains(hash),
    ensures
        hashes(sorted_seq(m.roots(eligible)).flat_map(m.suffixes())).contains(hash),
{
    let (root, before, visited) = lemma_has_root(m, rank, eligible, hash);
    lemma_runs_on(m, rank, eligible, root, hash, before, visited);
    let entry = m.pending[hash].entry();
    lemma_roots_finite(m, eligible);
    lemma_sorted_seq_lists::<MsgId>(m.roots(eligible));
    let list = sorted_seq(m.roots(eligible));
    assert(list.to_set().contains(root));
    let infos = list.flat_map(m.suffixes());
    lemma_flat_map_lists(list, m.suffixes(), list.index_of(root), entry);
    let ids = infos.map_values(hash_of());
    let k = infos.index_of(entry);
    assert(ids[k] == hash);
    assert(ids.to_set().contains(hash));
}

} // verus!
