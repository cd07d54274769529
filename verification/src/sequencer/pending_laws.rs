//! What the pending transactions are held to: the chain they form, the places
//! they keep, and how each is told.

use vstd::prelude::*;

use crate::ids::{ChannelId, HeaderId, MsgId, NoteId, TxHash};
use crate::mantle::{Op, SignedOps};
use crate::sequencer::block_event::update_from;
use crate::sequencer::block_fetch::{mirror_one, tx_with};
use crate::sequencer::channel_tx::{transfers_of, BlockChannelTx};
use crate::sequencer::consistency_laws::{consistent, lemma_in_order, loop_free};
use crate::sequencer::lineage_laws::{
    in_its_order, law_displaced_is_kept_for_the_report, lemma_filter_in_order, rises_through,
};
use crate::sequencer::resubmit::{is_first_post, is_skipped, picked};
use crate::sequencer::shape_laws::lemma_filter_map_source;
use crate::sequencer::shed_laws::lemma_low_ranks_do_not_matter;
use crate::sequencer::state_laws::{from_rank, lemma_from_rank_bound, orderly, orderly_in};
use crate::sequencer::state_model::{
    block_with, first_signer, has_payload, hash_not_in, inputs_of, msgs, not_safe, tx_in,
    OtherModel, PendingBundle, StateModel,
};
use crate::sequencer::types::{ChannelUpdateTx, InscriptionInfo};

verus! {

// The pending chain.

/// The entries of a held transaction on the message lineage.
pub open spec fn entries_of(m: StateModel, hash: TxHash) -> Seq<InscriptionInfo> {
    if m.pending.contains_key(hash) {
        seq![m.pending[hash].entry()]
    } else {
        m.other[hash].infos
    }
}

proof fn lemma_link(m: StateModel, rank: spec_fn(MsgId) -> nat, msg: MsgId)
    requires
        m.wf(),
        orderly(m, rank),
    ensures
        match m.child(msg) {
            None => m.suffix(msg) == Seq::<InscriptionInfo>::empty(),
            Some(hash) => m.tip_of(hash) matches Some(tip) && m.suffix(msg) == entries_of(m, hash)
                + m.suffix(tip) && entries_of(m, hash).len() > 0 && entries_of(
                m,
                hash,
            ).last().this_msg == tip && entries_of(m, hash)[0].parent_msg == msg,
        },
{
    if let Some(hash) = m.child(msg) {
        assert(m.by_parent.contains_key(msg));
        let tip = m.tip_of(hash)->0;
        assert(orderly_in(m, Set::empty(), rank));
        assert(rank(tip) > rank(msg));
        lemma_low_ranks_do_not_matter(
            m,
            rank,
            Set::empty(),
            tip,
            Set::empty().insert(msg),
            Set::empty(),
        );
    }
}

/// The pending chain off a message is the entries of the transaction that
/// continues it, all of them, followed by the chain off the message that one
/// leaves behind; nothing where no transaction continues it.
pub proof fn law_pending_chain_goes_link_by_link(m: StateModel, msg: MsgId)
    requires
        consistent(m),
        loop_free(m),
    ensures
        match m.child(msg) {
            None => m.suffix(msg) == Seq::<InscriptionInfo>::empty(),
            Some(hash) => m.tip_of(hash) matches Some(tip) && m.suffix(msg) == entries_of(m, hash)
                + m.suffix(tip) && entries_of(m, hash).len() > 0 && entries_of(
                m,
                hash,
            ).last().this_msg == tip && entries_of(m, hash)[0].parent_msg == msg,
        },
{
    let rank = lemma_in_order(m);
    lemma_link(m, rank, msg);
}

proof fn lemma_tail_is_the_end(m: StateModel, rank: spec_fn(MsgId) -> nat, msg: MsgId, steps: nat)
    requires
        m.wf(),
        orderly(m, rank),
        from_rank(m, rank, rank(msg)).len() < steps,
    ensures
        m.tail(msg, steps) == if m.suffix(msg).len() == 0 {
            msg
        } else {
            m.suffix(msg).last().this_msg
        },
    decreases steps,
{
    lemma_link(m, rank, msg);
    if let Some(hash) = m.child(msg) {
        assert(m.by_parent.contains_key(msg));
        let tip = m.tip_of(hash)->0;
        assert(m.next(msg) == Some(tip));
        let here = from_rank(m, rank, rank(msg));
        let there = from_rank(m, rank, rank(tip));
        lemma_from_rank_bound(m, rank, rank(msg));
        lemma_from_rank_bound(m, rank, rank(tip));
        assert(here.contains(hash));
        assert(!there.contains(hash));
        assert(there.subset_of(here.remove(hash)));
        vstd::set_lib::lemma_len_subset(there, here.remove(hash));
        lemma_tail_is_the_end(m, rank, tip, (steps - 1) as nat);
        let rest = m.suffix(tip);
        if rest.len() > 0 {
            assert(m.suffix(msg).last() == rest.last());
        } else {
            assert(m.suffix(msg) =~= entries_of(m, hash));
        }
    } else {
        assert(m.next(msg) is None);
    }
}

/// A new publish chains on the last message of what is pending off the channel
/// tip; on the channel tip where nothing is.
pub proof fn law_publish_parent_ends_the_pending_chain(m: StateModel, tip: HeaderId)
    requires
        consistent(m),
        loop_free(m),
    ensures
        ({
            let chain = m.suffix(m.channel_tip(tip));
            m.publish_parent(tip) == if chain.len() == 0 {
                m.channel_tip(tip)
            } else {
                chain.last().this_msg
            }
        }),
{
    let rank = lemma_in_order(m);
    lemma_from_rank_bound(m, rank, rank(m.channel_tip(tip)));
    lemma_tail_is_the_end(m, rank, m.channel_tip(tip), m.chain_bound());
}

// Places of opaque transactions.

/// An opaque transaction keeps its place where it is mined, needs none, or
/// chains from the channel tip, from a message pending off it, or from what an
/// opaque transaction that can still land leaves; in any other place it loses
/// it.
pub proof fn law_opaque_keeps_its_place_where_it_can_land(
    m: StateModel,
    tip: HeaderId,
    hash: TxHash,
    before: TxHash,
    reach: Set<MsgId>,
)
    requires
        m.other.contains_key(hash),
    ensures
        ({
            let start = m.channel_tip(tip);
            let other = m.other[hash];
            let lost = m.displaced_others(tip).contains(hash);
            &&& m.safe_at(tip).contains(hash) ==> !lost
            &&& other.infos.len() == 0 ==> !lost
            &&& other.infos.len() > 0 && other.infos[0].parent_msg == start ==> !lost
            &&& other.infos.len() > 0 && msgs(m.suffix(start)).contains(other.infos[0].parent_msg)
                ==> !lost
            &&& other.infos.len() > 0 && m.other.contains_key(before) && m.other[before].infos.len()
                > 0 && m.landable_at(tip).contains(m.other[before].infos[0].parent_msg)
                && other.infos[0].parent_msg == m.other[before].infos.last().this_msg ==> !lost
            &&& reach.contains(start) && msgs(m.suffix(start)).subset_of(reach)
                && m.closed_under_landing(reach) && other.infos.len() > 0 && !reach.contains(
                other.infos[0].parent_msg,
            ) && !m.safe_at(tip).contains(hash) ==> lost
        }),
{
    let start = m.channel_tip(tip);
    let seeds = msgs(m.suffix(start)).insert(start);
    let other = m.other[hash];
    let landable = m.landable_at(tip);
    assert forall|msg: MsgId| seeds.contains(msg) implies landable.contains(msg) by {
        assert forall|set: Set<MsgId>| #[trigger]
            seeds.subset_of(set) && m.closed_under_landing(set) implies set.contains(msg) by {
        }
    }
    if other.infos.len() > 0 && m.other.contains_key(before) && m.other[before].infos.len() > 0
        && landable.contains(m.other[before].infos[0].parent_msg) {
        let last = m.other[before].infos.last().this_msg;
        assert forall|set: Set<MsgId>| #[trigger]
            seeds.subset_of(set) && m.closed_under_landing(set) implies set.contains(last) by {
            assert(set.contains(m.other[before].infos[0].parent_msg));
            assert(m.other[before].last_msg() == Some(last));
        }
    }
    if reach.contains(start) && msgs(m.suffix(start)).subset_of(reach) && m.closed_under_landing(
        reach,
    ) {
        assert(seeds.subset_of(reach));
    }
}

/// A pending config keeps its place where it is mined, or chains from the config
/// tip, or from what a pending config that can still land leaves; one whose
/// parent and whose own last config are both out of reach loses it.
pub proof fn law_config_keeps_its_place_where_it_can_land(
    m: StateModel,
    tip: HeaderId,
    hash: TxHash,
    before: TxHash,
    reach: Set<MsgId>,
)
    requires
        m.other.contains_key(hash),
    ensures
        ({
            let start = m.config_tip(tip);
            let configs = m.other[hash].config_infos;
            let lost = m.stale_configs(tip).contains(hash);
            &&& m.safe_at(tip).contains(hash) ==> !lost
            &&& configs.len() == 0 ==> !lost
            &&& configs.len() > 0 && configs[0].parent_msg == start ==> !lost
            &&& configs.len() > 0 && configs.last().this_msg == start ==> !lost
            &&& configs.len() > 0 && m.other.contains_key(before)
                && m.other[before].config_infos.len() > 0 && m.landable_configs(start).contains(
                m.other[before].config_infos[0].parent_msg,
            ) && configs[0].parent_msg == m.other[before].config_infos.last().this_msg ==> !lost
            &&& reach.contains(start) && m.closed_under_configs(reach) && configs.len() > 0
                && !reach.contains(configs[0].parent_msg) && !reach.contains(
                configs.last().this_msg,
            ) && !m.safe_at(tip).contains(hash) ==> lost
        }),
{
    let start = m.config_tip(tip);
    let configs = m.other[hash].config_infos;
    let landable = m.landable_configs(start);
    assert(landable.contains(start)) by {
        assert forall|set: Set<MsgId>| #[trigger]
            set.contains(start) && m.closed_under_configs(set) implies set.contains(start) by {
        }
    }
    if configs.len() > 0 && m.other.contains_key(before) && m.other[before].config_infos.len() > 0
        && landable.contains(m.other[before].config_infos[0].parent_msg) {
        let last = m.other[before].config_infos.last().this_msg;
        assert forall|set: Set<MsgId>| #[trigger]
            set.contains(start) && m.closed_under_configs(set) implies set.contains(last) by {
            assert(set.contains(m.other[before].config_infos[0].parent_msg));
            assert(m.other[before].last_config() == Some(last));
        }
    }
    if reach.contains(start) && m.closed_under_configs(reach) {
        assert forall|msg: MsgId| landable.contains(msg) implies reach.contains(msg) by {
        }
    }
}

// Blocks.

/// A block's own transactions are mined on its branch, with those of its parent,
/// and no others; other blocks keep theirs.
pub proof fn law_new_block_adds_to_what_is_mined(
    m: StateModel,
    block: HeaderId,
    parent: HeaderId,
    our_txs: Seq<TxHash>,
    channel_txs: Seq<BlockChannelTx>,
    note_ops: Seq<crate::sequencer::channel_wallet::NoteOp>,
    other: HeaderId,
    hash: TxHash,
)
    ensures
        ({
            let n = m.add_block(block, parent, our_txs, channel_txs, note_ops);
            &&& n.parents.contains_key(block) && n.parents[block] == parent
            &&& n.safe_at(block).contains(hash) <==> m.safe_at(parent).contains(hash)
                || our_txs.contains(hash)
            &&& other != block ==> n.safe_at(other) == m.safe_at(other) && n.txs_at(other)
                == m.txs_at(other) && n.parents.contains_key(other) == m.parents.contains_key(other)
            &&& channel_txs.len() > 0 ==> n.txs_at(block) == channel_txs
            &&& note_ops.len() > 0 ==> n.wallet.overlay.contains_key(block)
                && n.wallet.overlay[block] == note_ops
            &&& n.wallet.base == m.wallet.base
            &&& n.lib == m.lib && n.pending == m.pending && n.other == m.other
        }),
{
}

/// When LIB moves, what is mined on the branch of a block that stays known is
/// still mined there if it is held or was not mined up to the new LIB; only
/// what is mined there and held no more is forgotten.
pub proof fn law_held_transactions_stay_mined(
    m: StateModel,
    lib: HeaderId,
    block: HeaderId,
    hash: TxHash,
)
    requires
        m.advance_lib(lib).safe.contains_key(block),
    ensures
        ({
            let n = m.advance_lib(lib);
            n.safe_at(block).contains(hash) <==> m.safe_at(block).contains(hash) && (m.is_tracked(
                hash,
            ) || !m.safe_at(lib).contains(hash) || !m.safe.contains_key(lib) || m.below(
                lib,
            ).contains(lib))
        }),
{
    let finalized = m.finalize(lib);
    let pruned = finalized.prune(finalized.below(lib));
    assert(finalized.below(lib) == m.below(lib));
    assert(pruned.held() =~= m.held());
}

// How a held transaction is told.

proof fn lemma_first_signer(ops: Seq<Op>, p: int)
    ensures
        0 <= p < ops.len() && ops[p] is ChannelInscribe && (forall|k: int|
            0 <= k < p ==> !((#[trigger] ops[k]) is ChannelInscribe)) ==> first_signer(ops) == Some(
            ops[p]->ChannelInscribe_0.signer,
        ),
        (forall|k: int| 0 <= k < ops.len() ==> !((#[trigger] ops[k]) is ChannelInscribe))
            ==> first_signer(ops) is None,
    decreases ops.len(),
{
    if ops.len() > 0 {
        let rest = ops.drop_first();
        lemma_first_signer(rest, p - 1);
        assert forall|k: int| 0 <= k < rest.len() implies #[trigger] rest[k] == ops[k + 1] by {
        }
    }
}

/// A transaction that was put in is told as it was held: what is not mined and
/// held is told by its own bytes or its own entry, what is neither mined nor
/// held by the entry alone.
pub proof fn law_pending_is_told_as_it_is_held(m: StateModel, info: InscriptionInfo)
    requires
        forall|k: int|
            0 <= k < m.stored_order.len() ==> tx_in(
                m.stored[#[trigger] m.stored_order[k]].channel_txs,
                info.tx_hash,
            ) is None,
    ensures
        ({
            let told = m.update_tx(info);
            let hash = info.tx_hash;
            &&& m.other.contains_key(hash) ==> told == Some(
                if m.other[hash].pure_config {
                    ChannelUpdateTx::Config(m.other[hash].signed_tx)
                } else {
                    ChannelUpdateTx::Custom(m.other[hash].signed_tx)
                },
            )
            &&& !m.other.contains_key(hash) && m.pending.contains_key(hash) ==> match told {
                Some(ChannelUpdateTx::Inscription(entry)) => m.pending[hash].bundle is Plain
                    && entry == info,
                Some(ChannelUpdateTx::AtomicWithdraw(bundle)) => m.pending[hash].bundle
                    == (PendingBundle::Withdraw {
                    withdraws: bundle.withdraws,
                    outputs: bundle.outputs,
                }) && bundle.inscription == info && bundle.tx_hash == hash,
                Some(ChannelUpdateTx::PinDeposit(pin)) => m.pending[hash].bundle
                    == PendingBundle::PinDeposit(pin.consumed_notes) && pin.inscription == info
                    && pin.tx_hash == hash,
                _ => false,
            }
            &&& !m.other.contains_key(hash) && !m.pending.contains_key(hash) ==> told == Some(
                ChannelUpdateTx::Inscription(info),
            )
        }),
{
    lemma_no_block_with(m, m.stored_order, info.tx_hash);
}

proof fn lemma_no_block_with(m: StateModel, blocks: Seq<HeaderId>, hash: TxHash)
    requires
        forall|k: int|
            0 <= k < blocks.len() ==> tx_in(
                m.stored[#[trigger] blocks[k]].channel_txs,
                hash,
            ) is None,
    ensures
        block_with(blocks, m.stored, hash) is None,
    decreases blocks.len(),
{
    if blocks.len() > 0 {
        let rest = blocks.drop_first();
        assert forall|k: int| 0 <= k < rest.len() implies tx_in(
            m.stored[#[trigger] rest[k]].channel_txs,
            hash,
        ) is None by {
            assert(rest[k] == blocks[k + 1]);
        }
        lemma_no_block_with(m, rest, hash);
    }
}

/// The entry of a pending inscription carries what it was put in with, and the
/// signer of the first message among its operations.
pub proof fn law_pending_entry_carries_its_signer(m: StateModel, hash: TxHash, p: int)
    requires
        m.pending.contains_key(hash),
    ensures
        ({
            let held = m.pending[hash];
            let entry = held.entry();
            let ops = held.signed_tx.ops@;
            &&& entry.tx_hash == held.tx_hash
            &&& entry.parent_msg == held.parent_msg
            &&& entry.this_msg == held.this_msg
            &&& entry.payload == held.payload
            &&& 0 <= p < ops.len() && ops[p] is ChannelInscribe && (forall|k: int|
                0 <= k < p ==> !((#[trigger] ops[k]) is ChannelInscribe)) ==> entry.signer == Some(
                ops[p]->ChannelInscribe_0.signer,
            )
        }),
{
    lemma_first_signer(m.pending[hash].signed_tx.ops@, p);
}

// Seen on the channel.

/// A transaction seen on the channel is held afterwards, by its bytes and as it
/// was classified, and counts as posted; one that was held is left as it was.
pub proof fn law_seen_transaction_is_held(
    m: StateModel,
    classified: BlockChannelTx,
    txs: Seq<SignedOps>,
    channel_id: ChannelId,
)
    requires
        m.wf(),
        classified.spec_tx_hash() matches Some(hash) && tx_with(txs, hash) matches Some(tx)
            && tx.hash == hash,
    ensures
        ({
            let hash = classified.spec_tx_hash()->0;
            let tx = tx_with(txs, hash)->0;
            let n = mirror_one(m, classified, txs, channel_id);
            &&& m.is_tracked(hash) ==> n == m
            &&& !m.is_tracked(hash) ==> match classified {
                BlockChannelTx::Inscription(info) => n.pending.contains_key(hash) && {
                    let held = n.pending[hash];
                    held.signed_tx == tx && held.posted && held.parent_msg == info.parent_msg
                        && held.this_msg == info.this_msg && held.payload == info.payload
                        && held.bundle is Plain
                },
                BlockChannelTx::AtomicWithdraw(bundle) => n.pending.contains_key(hash) && {
                    let held = n.pending[hash];
                    held.signed_tx == tx && held.posted && held.parent_msg
                        == bundle.inscription.parent_msg && held.this_msg
                        == bundle.inscription.this_msg && held.payload
                        == bundle.inscription.payload && held.bundle == (PendingBundle::Withdraw {
                        withdraws: bundle.withdraws,
                        outputs: bundle.outputs,
                    })
                },
                BlockChannelTx::PinDeposit(pin) => n.pending.contains_key(hash) && {
                    let held = n.pending[hash];
                    held.signed_tx == tx && held.posted && held.parent_msg
                        == pin.inscription.parent_msg && held.this_msg == pin.inscription.this_msg
                        && held.payload == pin.inscription.payload && held.bundle
                        == PendingBundle::PinDeposit(pin.consumed_notes)
                },
                _ => n.other.contains_key(hash) && n.other[hash] == OtherModel::of(tx, channel_id)
                    && n.other_order.last() == hash,
            }
        }),
{
}

/// Nothing that was held is lost to what is seen: it is held as it was, or
/// waits to be reported.
pub proof fn law_seen_transaction_loses_nothing(
    m: StateModel,
    parent: Option<MsgId>,
    hash: TxHash,
)
    requires
        m.wf(),
    ensures
        ({
            let n = m.cleared(parent);
            &&& m.pending.contains_key(hash) ==> (n.pending.contains_key(hash) && n.pending[hash]
                == m.pending[hash]) || n.displaced.skip(m.displaced.len() as int).contains(
                m.pending[hash].report(),
            )
            &&& m.other.contains_key(hash) && !m.pending.contains_key(hash) ==> (
            n.other.contains_key(hash) && n.other[hash] == m.other[hash])
                || n.displaced_other.skip(m.displaced_other.len() as int).contains(
                m.other[hash].signed_tx,
            )
        }),
{
    if let Some(msg) = parent {
        if let Some(sibling) = m.child(msg) {
            law_displaced_is_kept_for_the_report(m, sibling, hash);
        }
    }
}

// Reserved notes.

pub proof fn lemma_flat_map_has<A, B>(s: Seq<A>, f: spec_fn(A) -> Seq<B>, x: B)
    ensures
        s.flat_map(f).contains(x) <==> exists|i: int| 0 <= i < s.len() && f(#[trigger] s[i]).contains(x),
    decreases s.len(),
{
    if s.len() == 0 {
        reveal(Seq::flat_map);
    } else {
        let front = s.drop_last();
        lemma_flat_map_has(front, f, x);
        assert(front.push(s.last()) =~= s);
        front.lemma_flat_map_push(f, s.last());
        let head = front.flat_map(f);
        let tail = f(s.last());
        if s.flat_map(f).contains(x) {
            let k = s.flat_map(f).index_of(x);
            if k < head.len() {
                assert(head[k] == x);
                let i = choose|i: int| 0 <= i < front.len() && f(#[trigger] front[i]).contains(x);
                assert(s[i] == front[i]);
            } else {
                assert(tail[k - head.len()] == x);
                assert(s[s.len() - 1] == s.last());
            }
        }
        if exists|i: int| 0 <= i < s.len() && f(#[trigger] s[i]).contains(x) {
            let i = choose|i: int| 0 <= i < s.len() && f(#[trigger] s[i]).contains(x);
            if i < front.len() {
                assert(front[i] == s[i]);
                assert((head + tail)[head.index_of(x)] == x);
            } else {
                assert((head + tail)[head.len() + tail.index_of(x)] == x);
            }
        }
    }
}

/// A note is reserved exactly where a pending bundle that is not mined spends it
/// in one of its channel transfers.
pub proof fn law_reserved_notes_are_those_bundles_spend(
    m: StateModel,
    tip: HeaderId,
    channel_id: ChannelId,
    note: NoteId,
)
    ensures
        m.reserved(tip, channel_id).contains(note) <==> exists|i: int, k: int|
            0 <= i < m.unmined_bundles(tip).len() && 0 <= k < transfers_of(
                m.unmined_bundles(tip)[i].1.signed_tx,
                channel_id,
            ).len() && (#[trigger] transfers_of(
                m.unmined_bundles(tip)[i].1.signed_tx,
                channel_id,
            )[k]).inputs@.contains(note),
{
    let bundles = m.unmined_bundles(tip);
    let f = StateModel::spent_by(channel_id);
    lemma_flat_map_has(bundles, f, note);
    if m.reserved(tip, channel_id).contains(note) {
        let i = choose|i: int| 0 <= i < bundles.len() && f(#[trigger] bundles[i]).contains(note);
        let transfers = transfers_of(bundles[i].1.signed_tx, channel_id);
        lemma_flat_map_has(transfers, inputs_of(), note);
        let k = choose|k: int|
            0 <= k < transfers.len() && inputs_of()(#[trigger] transfers[k]).contains(note);
        assert(transfers_of(m.unmined_bundles(tip)[i].1.signed_tx, channel_id)[k].inputs@.contains(
            note,
        ));
    }
    if exists|i: int, k: int|
        0 <= i < m.unmined_bundles(tip).len() && 0 <= k < transfers_of(
            m.unmined_bundles(tip)[i].1.signed_tx,
            channel_id,
        ).len() && (#[trigger] transfers_of(
            m.unmined_bundles(tip)[i].1.signed_tx,
            channel_id,
        )[k]).inputs@.contains(note) {
        let (i, k) = choose|i: int, k: int|
            0 <= i < m.unmined_bundles(tip).len() && 0 <= k < transfers_of(
                m.unmined_bundles(tip)[i].1.signed_tx,
                channel_id,
            ).len() && (#[trigger] transfers_of(
                m.unmined_bundles(tip)[i].1.signed_tx,
                channel_id,
            )[k]).inputs@.contains(note);
        let transfers = transfers_of(bundles[i].1.signed_tx, channel_id);
        lemma_flat_map_has(transfers, inputs_of(), note);
        assert(inputs_of()(transfers[k]).contains(note));
        assert(f(bundles[i]).contains(note));
    }
}

// Posting.

proof fn lemma_picked_in_order(
    m: StateModel,
    list: Seq<(TxHash, SignedOps)>,
    posting: Set<TxHash>,
    can_publish: bool,
    depth: nat,
    active: nat,
) -> (at: Seq<int>)
    ensures
        rises_through(picked(m, list, posting, can_publish, depth, active), list, at),
    decreases list.len(),
{
    let res = picked(m, list, posting, can_publish, depth, active);
    if res.len() == 0 {
        Seq::empty()
    } else {
        let rest = list.drop_first();
        let takes_first = !is_skipped(m, list[0].0, posting, can_publish);
        let next = if takes_first && is_first_post(m, list[0].0) {
            active + 1
        } else {
            active
        };
        let before = lemma_picked_in_order(m, rest, posting, can_publish, depth, next);
        let later = picked(m, rest, posting, can_publish, depth, next);
        let shifted = before.map_values(|p: int| p + 1);
        if takes_first {
            let at = seq![0int] + shifted;
            assert(res =~= seq![list[0]] + later);
            assert forall|i: int| 0 <= i < at.len() implies 0 <= #[trigger] at[i] < list.len()
                && res[i] == list[at[i]] by {
                if i > 0 {
                    assert(at[i] == before[i - 1] + 1);
                    assert(rest[before[i - 1]] == list[at[i]]);
                }
            }
            assert forall|i: int, j: int| 0 <= i < j < at.len() implies #[trigger] at[i]
                < #[trigger] at[j] by {
                assert(at[j] == before[j - 1] + 1);
                if i > 0 {
                    assert(at[i] == before[i - 1] + 1);
                }
            }
            at
        } else {
            assert(res =~= later);
            assert forall|i: int| 0 <= i < shifted.len() implies 0 <= #[trigger] shifted[i]
                < list.len() && res[i] == list[shifted[i]] by {
                assert(shifted[i] == before[i] + 1);
                assert(rest[before[i]] == list[shifted[i]]);
            }
            assert forall|i: int, j: int| 0 <= i < j < shifted.len() implies #[trigger] shifted[i]
                < #[trigger] shifted[j] by {
                assert(shifted[i] == before[i] + 1 && shifted[j] == before[j] + 1);
            }
            shifted
        }
    }
}

/// A sweep posts in the order in which things are due: what it picks stands in
/// it as it stood in the list.
pub proof fn law_sweep_keeps_the_order(
    m: StateModel,
    list: Seq<(TxHash, SignedOps)>,
    posting: Set<TxHash>,
    can_publish: bool,
    depth: nat,
    active: nat,
)
    ensures
        in_its_order(picked(m, list, posting, can_publish, depth, active), list),
{
    let at = lemma_picked_in_order(m, list, posting, can_publish, depth, active);
    assert(rises_through(picked(m, list, posting, can_publish, depth, active), list, at));
}

/// What is due at a tip is the un-mined inscriptions of the pending chain, in its
/// order, and behind them the un-mined opaque transactions in the order they were
/// submitted; each by its own bytes.
pub proof fn law_due_goes_along_the_chain(m: StateModel, tip: HeaderId)
    ensures
        ({
            let safe = m.safe_at(tip);
            let all = m.to_post(tip);
            let others = m.other_order.filter(hash_not_in(safe));
            let n = all.len() - others.len();
            &&& n >= 0
            &&& forall|i: int|
                0 <= i < n ==> m.pending.contains_key((#[trigger] all[i]).0) && all[i].1
                    == m.pending[all[i].0].signed_tx && !safe.contains(all[i].0)
            &&& forall|i: int|
                0 <= i < others.len() ==> (#[trigger] all[n + i]).0 == others[i] && all[n + i].1
                    == m.other[others[i]].signed_tx
            &&& in_its_order(others, m.other_order)
            &&& in_its_order(
                m.suffix(m.channel_tip(tip)).filter(not_safe(safe)),
                m.suffix(m.channel_tip(tip)),
            )
        }),
{
    let safe = m.safe_at(tip);
    let chain = m.suffix(m.channel_tip(tip));
    let open = chain.filter(not_safe(safe));
    let first = open.filter_map(m.pending_pair());
    let others = m.other_order.filter(hash_not_in(safe));
    let all = m.to_post(tip);
    let a = lemma_filter_in_order(m.other_order, hash_not_in(safe));
    let b = lemma_filter_in_order(chain, not_safe(safe));
    assert(rises_through(others, m.other_order, a));
    assert(rises_through(open, chain, b));
    assert forall|i: int| 0 <= i < first.len() implies m.pending.contains_key(
        (#[trigger] all[i]).0,
    ) && all[i].1 == m.pending[all[i].0].signed_tx && !safe.contains(all[i].0) by {
        assert(all[i] == first[i]);
        assert(first.contains(first[i]));
        lemma_filter_map_source(open, m.pending_pair(), first[i]);
        let k = choose|k: int|
            0 <= k < open.len() && m.pending_pair()(#[trigger] open[k]) == Some(first[i]);
        assert(open.contains(open[k]));
        crate::sequencer::state_laws::lemma_filter_member(chain, not_safe(safe), open[k]);
    }
}

// Told by its shape.

/// A mined transaction is told by how the block that came in first with it stored
/// it: its first entry of that hash there decides.
pub proof fn law_mined_is_told_by_its_shape(m: StateModel, info: InscriptionInfo, b: int, t: int)
    requires
        0 <= b < m.stored_order.len(),
        0 <= t < m.stored[m.stored_order[b]].channel_txs.len(),
        m.stored[m.stored_order[b]].channel_txs[t].spec_tx_hash() == Some(info.tx_hash),
        forall|k: int|
            0 <= k < t ==> (#[trigger] m.stored[m.stored_order[b]].channel_txs[k]).spec_tx_hash()
                != Some(info.tx_hash),
        forall|k: int|
            0 <= k < b ==> tx_in(
                m.stored[#[trigger] m.stored_order[k]].channel_txs,
                info.tx_hash,
            ) is None,
    ensures
        ({
            let told = m.update_tx(info);
            match m.stored[m.stored_order[b]].channel_txs[t] {
                BlockChannelTx::Inscription(_) => told == Some(ChannelUpdateTx::Inscription(info)),
                BlockChannelTx::AtomicWithdraw(bundle) => told == Some(
                    ChannelUpdateTx::AtomicWithdraw(bundle),
                ),
                BlockChannelTx::PinDeposit(pin) => told == Some(ChannelUpdateTx::PinDeposit(pin)),
                BlockChannelTx::Config(_) => told is None || told->0 is Config,
                BlockChannelTx::Custom { tx, message_entries, config_entries } => {
                    &&& told is None || told == Some(ChannelUpdateTx::Custom(tx))
                    &&& config_entries@.len() > 0 ==> told is Some
                    &&& (exists|i: int|
                        0 <= i < message_entries@.len() && (
                        #[trigger] message_entries@[i]).payload@.len() > 0) ==> told is Some
                },
            }
        }),
{
    let block = m.stored_order[b];
    lemma_tx_in_first(m.stored[block].channel_txs, info.tx_hash, t);
    lemma_block_with_first(m, m.stored_order, info.tx_hash, b);
    if let BlockChannelTx::Custom { tx, message_entries, config_entries } =
        m.stored[block].channel_txs[t] {
        if exists|i: int|
            0 <= i < message_entries@.len() && (#[trigger] message_entries@[i]).payload@.len() > 0 {
            let i = choose|i: int|
                0 <= i < message_entries@.len() && (#[trigger] message_entries@[i]).payload@.len()
                    > 0;
            assert(has_payload()(message_entries@[i]));
        }
    }
}

proof fn lemma_tx_in_first(txs: Seq<BlockChannelTx>, hash: TxHash, t: int)
    requires
        0 <= t < txs.len(),
        txs[t].spec_tx_hash() == Some(hash),
        forall|k: int| 0 <= k < t ==> (#[trigger] txs[k]).spec_tx_hash() != Some(hash),
    ensures
        tx_in(txs, hash) == Some(txs[t]),
    decreases txs.len(),
{
    if t > 0 {
        let rest = txs.drop_first();
        assert(txs[0].spec_tx_hash() != Some(hash));
        assert forall|k: int| 0 <= k < t - 1 implies (#[trigger] rest[k]).spec_tx_hash() != Some(
            hash,
        ) by {
            assert(rest[k] == txs[k + 1]);
        }
        lemma_tx_in_first(rest, hash, t - 1);
    }
}

proof fn lemma_block_with_first(m: StateModel, blocks: Seq<HeaderId>, hash: TxHash, b: int)
    requires
        0 <= b < blocks.len(),
        tx_in(m.stored[blocks[b]].channel_txs, hash) is Some,
        forall|k: int|
            0 <= k < b ==> tx_in(m.stored[#[trigger] blocks[k]].channel_txs, hash) is None,
    ensures
        block_with(blocks, m.stored, hash) == Some(blocks[b]),
    decreases blocks.len(),
{
    if b > 0 {
        let rest = blocks.drop_first();
        assert(tx_in(m.stored[blocks[0]].channel_txs, hash) is None);
        assert forall|k: int| 0 <= k < b - 1 implies tx_in(
            m.stored[#[trigger] rest[k]].channel_txs,
            hash,
        ) is None by {
            assert(rest[k] == blocks[k + 1]);
        }
        lemma_block_with_first(m, rest, hash, b - 1);
    }
}

/// There is an update exactly where an entry entered or left the view, and it
/// names the channel tip that it leads to.
pub proof fn law_update_names_the_new_tip(
    m: StateModel,
    old_lineage: Seq<InscriptionInfo>,
    tip: HeaderId,
    finalized_now: Set<MsgId>,
    held_before: Set<TxHash>,
)
    ensures
        ({
            let update = update_from(m, old_lineage, tip, finalized_now, held_before);
            &&& update is Some <==> m.adopted_infos(old_lineage, tip, finalized_now).len() > 0
                || m.orphaned_infos(old_lineage, tip, finalized_now).len() > 0
            &&& update matches Some(told) ==> told.new_channel_tip == m.channel_tip(tip)
                && told.orphaned == m.update_txs(m.orphaned_infos(old_lineage, tip, finalized_now))
        }),
{
}

} // verus!
