//! What is read off the blocks of an event.

use vstd::prelude::*;

use crate::adapter::{deposit_lookup, lemma_filter_map_holds};
use crate::ids::{ChannelId, HeaderId, MsgId, TxHash};
use crate::items::law_items_hold;
use crate::mantle::SignedOps;
use crate::sequencer::block_event::{
    after_block, apply_finalized, event_failure, first_failure, infos_of_tx, mined_entries,
    msg_of_op, settled_msgs, usable, PreparedBlockEvent, PreparedFinalizedBlock,
};
use crate::sequencer::block_fetch::{
    demoted, hash_among, hash_of_classified, identity_deposit, known_note, mirrorable, note_behind,
    note_of_utxo, ops_of_item, our_hashes, touching, tx_with, uncovered_config, BlockEvent,
    FetchedBlock,
};
use crate::sequencer::channel_tx::{
    as_classified, classification, classifications, configs_of, inscriptions_of,
    law_classification_keeps_every_entry, touches_tip, transfers_of, BlockChannelTx,
};
use crate::sequencer::channel_wallet::{after_ops, NoteOp, WalletModel};
use crate::sequencer::pending_laws::lemma_flat_map_has;
use crate::sequencer::shape_laws::{
    count, lemma_filter_map_source, lemma_flat_map_empty, lemma_read,
};
use crate::sequencer::state_laws::lemma_filter_member;
use crate::sequencer::state_model::{hashes, known_under, StateModel};
use crate::sequencer::types::{FinalizedOp, FinalizedTx, InscriptionInfo};
use crate::sequencer::wallet_laws::law_settling_moves_no_note;

verus! {

// Failures.

/// The deposits of a fetched block are known.
pub open spec fn is_usable(fetched: FetchedBlock, channel_id: ChannelId) -> bool {
    deposit_lookup(
        fetched.block.id,
        fetched.block.transactions@,
        channel_id,
        fetched.events,
    ) is Ok
}

/// A list of fetched blocks fails with the first block whose deposits are not
/// known, and only where there is one; the blocks before it are the usable ones.
pub proof fn law_first_unusable_block_is_the_failure(
    fetched: Seq<FetchedBlock>,
    channel_id: ChannelId,
    i: int,
)
    ensures
        first_failure(fetched, channel_id) is None <==> forall|k: int|
            0 <= k < fetched.len() ==> is_usable(#[trigger] fetched[k], channel_id),
        0 <= i < fetched.len() && !is_usable(fetched[i], channel_id) && (forall|k: int|
            0 <= k < i ==> is_usable(#[trigger] fetched[k], channel_id)) ==> usable(
            fetched,
            channel_id,
        ) == i && (deposit_lookup(
            fetched[i].block.id,
            fetched[i].block.transactions@,
            channel_id,
            fetched[i].events,
        ) matches Err(text) && first_failure(fetched, channel_id) == Some(text)),
        (forall|k: int| 0 <= k < fetched.len() ==> is_usable(#[trigger] fetched[k], channel_id))
            ==> usable(fetched, channel_id) == fetched.len(),
    decreases fetched.len(),
{
    if fetched.len() > 0 {
        let rest = fetched.drop_first();
        law_first_unusable_block_is_the_failure(rest, channel_id, i - 1);
        assert forall|k: int| 0 <= k < rest.len() implies #[trigger] rest[k] == fetched[k + 1] by {
        }
        assert((forall|k: int|
            0 <= k < fetched.len() ==> is_usable(#[trigger] fetched[k], channel_id)) <==> is_usable(
            fetched[0],
            channel_id,
        ) && (forall|k: int| 0 <= k < rest.len() ==> is_usable(#[trigger] rest[k], channel_id))) by {
            if is_usable(fetched[0], channel_id) && (forall|k: int|
                0 <= k < rest.len() ==> is_usable(#[trigger] rest[k], channel_id)) {
                assert forall|k: int| 0 <= k < fetched.len() implies is_usable(
                    #[trigger] fetched[k],
                    channel_id,
                ) by {
                    if k > 0 {
                        assert(rest[k - 1] == fetched[k]);
                    }
                }
            }
            if forall|k: int|
                0 <= k < fetched.len() ==> is_usable(#[trigger] fetched[k], channel_id) {
                assert forall|k: int| 0 <= k < rest.len() implies is_usable(
                    #[trigger] rest[k],
                    channel_id,
                ) by {
                    assert(is_usable(fetched[k + 1], channel_id));
                }
            }
        }
        if 0 < i < fetched.len() && (forall|k: int|
            0 <= k < i ==> is_usable(#[trigger] fetched[k], channel_id)) {
            assert forall|k: int| 0 <= k < i - 1 implies is_usable(
                #[trigger] rest[k],
                channel_id,
            ) by {
                assert(is_usable(fetched[k + 1], channel_id));
            }
            assert(rest[i - 1] == fetched[i]);
            assert(is_usable(fetched[0], channel_id));
        }
    }
}

/// An event is handled exactly where the deposits of every finalized block and
/// of its own are known.
pub proof fn law_event_fails_where_deposits_are_unknown(
    event: BlockEvent,
    finalized: Seq<FetchedBlock>,
    live: crate::adapter::EventsReply,
    channel_id: ChannelId,
)
    ensures
        event_failure(event, finalized, live, channel_id) is None <==> (forall|k: int|
            0 <= k < finalized.len() ==> is_usable(#[trigger] finalized[k], channel_id))
            && deposit_lookup(event.block.id, event.block.transactions@, channel_id, live) is Ok,
{
    law_first_unusable_block_is_the_failure(finalized, channel_id, 0);
}

// Transactions of a block.

/// The transactions of ours in a block are those that move one of the tips, in
/// the block's order.
pub proof fn law_our_transactions_are_those_that_move_a_tip(
    front: Seq<SignedOps>,
    back: Seq<SignedOps>,
    channel_id: ChannelId,
    hash: TxHash,
)
    ensures
        our_hashes(front + back, channel_id) == our_hashes(front, channel_id) + our_hashes(
            back,
            channel_id,
        ),
        our_hashes(front, channel_id).contains(hash) <==> exists|k: int|
            0 <= k < front.len() && (#[trigger] front[k]).hash == hash && touches_tip(
                front[k],
                channel_id,
            ),
{
    let keep = touching(channel_id);
    Seq::filter_distributes_over_add(front, back, keep);
    let a = front.filter(keep);
    let b = back.filter(keep);
    let f = crate::sequencer::block_fetch::hash_of_signed();
    assert((a + b).map_values(f) =~= a.map_values(f) + b.map_values(f));
    let ids = a.map_values(f);
    if ids.contains(hash) {
        let i = ids.index_of(hash);
        assert(a.contains(a[i]));
        lemma_filter_member(front, keep, a[i]);
        let k = front.index_of(a[i]);
        assert(front[k].hash == hash);
    }
    if exists|k: int|
        0 <= k < front.len() && (#[trigger] front[k]).hash == hash && touches_tip(
            front[k],
            channel_id,
        ) {
        let k = choose|k: int|
            0 <= k < front.len() && (#[trigger] front[k]).hash == hash && touches_tip(
                front[k],
                channel_id,
            );
        assert(front.contains(front[k]));
        lemma_filter_member(front, keep, front[k]);
        let i = a.index_of(front[k]);
        assert(ids[i] == hash);
    }
}

/// A transaction is looked up by its hash; the last one of a hash is found.
pub proof fn law_last_transaction_of_a_hash_is_found(txs: Seq<SignedOps>, i: int, hash: TxHash)
    ensures
        0 <= i < txs.len() && (forall|k: int|
            i < k < txs.len() ==> (#[trigger] txs[k]).hash != txs[i].hash) ==> tx_with(
            txs,
            txs[i].hash,
        ) == Some(txs[i]),
        tx_with(txs, hash) is None <==> forall|k: int|
            0 <= k < txs.len() ==> (#[trigger] txs[k]).hash != hash,
    decreases txs.len(),
{
    if txs.len() > 0 {
        let front = txs.drop_last();
        law_last_transaction_of_a_hash_is_found(front, i, hash);
        assert(txs[txs.len() - 1] == txs.last());
        if 0 <= i < front.len() && (forall|k: int|
            i < k < txs.len() ==> (#[trigger] txs[k]).hash != txs[i].hash) {
            assert forall|k: int| i < k < front.len() implies (#[trigger] front[k]).hash
                != front[i].hash by {
                assert(txs[k] == front[k]);
            }
            assert(txs[txs.len() - 1].hash != txs[i].hash);
        }
        if txs.last().hash != hash {
            if tx_with(front, hash) is None {
                assert forall|k: int| 0 <= k < txs.len() implies (#[trigger] txs[k]).hash != hash by {
                    if k < front.len() {
                        assert(front[k] == txs[k]);
                    }
                }
            } else {
                let k = choose|k: int| 0 <= k < front.len() && (#[trigger] front[k]).hash == hash;
                assert(txs[k].hash == hash);
            }
        }
    }
}

/// A pinned deposit stays one exactly where its transfer re-creates notes that
/// are known, value for value and key for key in any order; otherwise it is
/// stored whole, with the same message. Nothing else is re-typed.
pub proof fn law_pin_deposit_re_creates_its_notes(
    wallet: WalletModel,
    txs: Seq<SignedOps>,
    channel_id: ChannelId,
    classified: BlockChannelTx,
)
    requires
        classified matches BlockChannelTx::PinDeposit(pin) ==> (tx_with(txs, pin.tx_hash) matches
            Some(tx) && transfers_of(tx, channel_id).len() > 0),
    ensures
        ({
            let res = demoted(wallet, txs, channel_id)(classified);
            match classified {
                BlockChannelTx::PinDeposit(pin) => {
                    let tx = tx_with(txs, pin.tx_hash)->0;
                    let transfer = transfers_of(tx, channel_id)[0];
                    let unchanged = (forall|i: int|
                        0 <= i < transfer.inputs@.len() ==> wallet.note(
                            #[trigger] transfer.inputs@[i],
                        ) is Some) && transfer.inputs@.map_values(note_behind(wallet)).to_multiset()
                        == transfer.utxos@.map_values(note_of_utxo()).to_multiset();
                    if unchanged {
                        res == classified
                    } else {
                        res matches BlockChannelTx::Custom { tx: whole, message_entries, config_entries }
                            && whole == tx && message_entries@ == seq![pin.inscription]
                            && config_entries@.len() == 0
                    }
                },
                _ => res == classified,
            }
        }),
{
    broadcast use law_items_hold;

    if let BlockChannelTx::PinDeposit(pin) = classified {
        let tx = tx_with(txs, pin.tx_hash)->0;
        let transfer = transfers_of(tx, channel_id)[0];
        let unchanged = (forall|i: int|
            0 <= i < transfer.inputs@.len() ==> wallet.note(#[trigger] transfer.inputs@[i]) is Some)
            && transfer.inputs@.map_values(note_behind(wallet)).to_multiset()
            == transfer.utxos@.map_values(note_of_utxo()).to_multiset();
        assert forall|i: int| 0 <= i < transfer.inputs@.len() implies (known_note(wallet)(
            #[trigger] transfer.inputs@[i],
        ) is Some <==> wallet.note(transfer.inputs@[i]) is Some) by {
        }
        if unchanged {
            assert forall|i: int| 0 <= i < transfer.inputs@.len() implies known_note(wallet)(
                #[trigger] transfer.inputs@[i],
            ) is Some by {
                assert(wallet.note(transfer.inputs@[i]) is Some);
            }
        }
        assert(identity_deposit(wallet, tx, channel_id) <==> unchanged);
    }
}

// Mined entries.

/// A transaction's messages on the channel.
pub open spec fn messages_of(channel_id: ChannelId) -> spec_fn(SignedOps) -> Seq<InscriptionInfo> {
    |tx: SignedOps| inscriptions_of(tx, channel_id)
}

proof fn lemma_messages_of_block(txs: Seq<SignedOps>, channel_id: ChannelId)
    ensures
        classifications(txs, channel_id).flat_map(infos_of_tx()) == txs.flat_map(
            messages_of(channel_id),
        ),
    decreases txs.len(),
{
    reveal(Seq::filter_map);
    let f = as_classified(channel_id);
    if txs.len() == 0 {
        assert(classifications(txs, channel_id) =~= Seq::empty());
        lemma_flat_map_empty(classifications(txs, channel_id), infos_of_tx());
        lemma_flat_map_empty(txs, messages_of(channel_id));
    } else {
        let front = txs.drop_last();
        let last = txs.last();
        lemma_messages_of_block(front, channel_id);
        law_classification_keeps_every_entry(last, channel_id);
        assert(front.push(last) =~= txs);
        front.lemma_flat_map_push(messages_of(channel_id), last);
        let so_far = classifications(front, channel_id);
        match classification(last, channel_id) {
            Some(stored) => {
                assert(classifications(txs, channel_id) =~= so_far.push(stored));
                so_far.lemma_flat_map_push(infos_of_tx(), stored);
            },
            None => {
                assert(classifications(txs, channel_id) =~= so_far);
                assert(inscriptions_of(last, channel_id) =~= Seq::empty());
                assert(txs.flat_map(messages_of(channel_id)) =~= front.flat_map(
                    messages_of(channel_id),
                ));
            },
        }
    }
}

/// The transaction has a config, and no message of a set of transactions is its
/// own.
pub open spec fn config_only(told: Set<TxHash>, channel_id: ChannelId) -> spec_fn(
    SignedOps,
) -> bool {
    |tx: SignedOps| configs_of(tx, channel_id).len() > 0 && !told.contains(tx.hash)
}

/// The mined entries of a block are all messages of its transactions, in their
/// order, and then of each transaction with a config and no message the first
/// config, in their order.
pub proof fn law_mined_entries_tell_every_transaction(
    txs: Seq<SignedOps>,
    channel_id: ChannelId,
    k: int,
)
    ensures
        ({
            let messages = txs.flat_map(messages_of(channel_id));
            let test = config_only(hashes(messages), channel_id);
            let all = mined_entries(txs, channel_id);
            &&& all.len() == messages.len() + count(txs, test)
            &&& all.take(messages.len() as int) == messages
            &&& 0 <= k < txs.len() && test(txs[k]) ==> {
                let at = messages.len() + count(txs.take(k), test);
                at < all.len() && all[at as int] == configs_of(txs[k], channel_id)[0]
            }
        }),
{
    lemma_messages_of_block(txs, channel_id);
    let messages = txs.flat_map(messages_of(channel_id));
    let test = config_only(hashes(messages), channel_id);
    lemma_read(txs, test, uncovered_config(hashes(messages), channel_id));
    assert(mined_entries(txs, channel_id).take(messages.len() as int) =~= messages);
    if 0 <= k < txs.len() {
        assert(txs[k] == txs[k]);
    }
}

// What is settled.

/// A message or config is settled by a list of items exactly where one of them
/// has an operation that writes or configures it.
pub proof fn law_settled_messages_are_those_of_the_items(items: Seq<FinalizedTx>, msg: MsgId)
    ensures
        settled_msgs(items).contains(msg) <==> exists|k: int, i: int|
            0 <= k < items.len() && 0 <= i < items[k].ops@.len() && writes_msg(
                #[trigger] items[k].ops@[i],
                msg,
            ),
{
    let ops = items.flat_map(ops_of_item());
    let f = msg_of_op();
    let ids = ops.filter_map(f);
    if settled_msgs(items).contains(msg) {
        assert(ids.contains(msg));
        lemma_filter_map_source(ops, f, msg);
        let p = choose|p: int| 0 <= p < ops.len() && f(#[trigger] ops[p]) == Some(msg);
        assert(ops.contains(ops[p]));
        lemma_flat_map_has(items, ops_of_item(), ops[p]);
        let k = choose|k: int|
            0 <= k < items.len() && ops_of_item()(#[trigger] items[k]).contains(ops[p]);
        let i = items[k].ops@.index_of(ops[p]);
        assert(writes_msg(items[k].ops@[i], msg));
    }
    if exists|k: int, i: int|
        0 <= k < items.len() && 0 <= i < items[k].ops@.len() && writes_msg(
            #[trigger] items[k].ops@[i],
            msg,
        ) {
        let (k, i) = choose|k: int, i: int|
            0 <= k < items.len() && 0 <= i < items[k].ops@.len() && writes_msg(
                #[trigger] items[k].ops@[i],
                msg,
            );
        let op = items[k].ops@[i];
        assert(ops_of_item()(items[k]).contains(op));
        lemma_flat_map_has(items, ops_of_item(), op);
        let p = ops.index_of(op);
        lemma_filter_map_holds(ops, f, p);
        let j = choose|j: int| 0 <= j < ids.len() && #[trigger] ids[j] == msg;
        assert(ids.contains(ids[j]));
    }
}

/// The operation writes a message, or configures under an id.
pub open spec fn writes_msg(op: FinalizedOp, msg: MsgId) -> bool {
    match op {
        FinalizedOp::Inscription(info) => info.this_msg == msg,
        FinalizedOp::Config(info) => info.this_msg == msg,
        _ => false,
    }
}

pub open spec fn note_ops_of_block() -> spec_fn(PreparedFinalizedBlock) -> Seq<NoteOp> {
    |block: PreparedFinalizedBlock| block.note_ops@
}

/// Finalized blocks settle their notes, one block after the other, are known
/// with their parents afterwards, and leave LIB, the finalized tips and what is
/// pending alone.
pub proof fn law_finalized_blocks_settle_their_notes(
    m: StateModel,
    blocks: Seq<PreparedFinalizedBlock>,
    i: int,
)
    ensures
        ({
            let n = apply_finalized(m, blocks);
            &&& n.wallet.base == after_ops(m.wallet.base, blocks.flat_map(note_ops_of_block()))
            &&& n.wallet.overlay == m.wallet.overlay
            &&& n.lib == m.lib
            &&& n.finalized_msg == m.finalized_msg && n.finalized_config == m.finalized_config
            &&& n.pending == m.pending && n.other == m.other && n.by_parent == m.by_parent
            &&& 0 <= i < blocks.len() ==> n.parents.contains_key(blocks[i].block_id)
                && n.safe.contains_key(blocks[i].block_id)
            &&& blocks.len() > 0 ==> n.parents[blocks.last().block_id] == blocks.last().parent_id
        }),
    decreases blocks.len(),
{
    if blocks.len() == 0 {
        lemma_flat_map_empty(blocks, note_ops_of_block());
    } else {
        let front = blocks.drop_last();
        let last = blocks.last();
        law_finalized_blocks_settle_their_notes(m, front, i);
        assert(front.push(last) =~= blocks);
        front.lemma_flat_map_push(note_ops_of_block(), last);
        law_settling_moves_no_note(
            m.wallet.base,
            front.flat_map(note_ops_of_block()),
            last.note_ops@,
        );
        if 0 <= i < front.len() {
            assert(front[i] == blocks[i]);
        }
    }
}

// Branches.

/// What the event's block brings is stored under it, where LIB stays: its parent,
/// the transactions of ours mined on it and before it, its channel transactions,
/// and its note mutations.
pub proof fn law_event_block_is_stored(
    m: StateModel,
    prepared: PreparedBlockEvent,
    channel_id: ChannelId,
    hash: TxHash,
)
    requires
        prepared.lib == m.lib,
        prepared.block.id != prepared.tip,
    ensures
        ({
            let n = after_block(m, prepared, channel_id);
            let block = prepared.block;
            &&& n.parents.contains_key(block.id) && n.parents[block.id] == block.parent_block
            &&& n.safe_at(block.id).contains(hash) <==> m.safe_at(block.parent_block).contains(hash)
                || prepared.our_txs@.contains(hash)
            &&& n.txs_at(block.id).len() == prepared.channel_txs@.len()
                || prepared.channel_txs@.len() == 0
            &&& prepared.note_ops@.len() > 0 ==> n.wallet.overlay[block.id] == prepared.note_ops@
        }),
{
}

/// What is posted again from a branch is each transaction stored on a block of it
/// above LIB that is not held, and no other.
pub proof fn law_untracked_is_what_the_branch_stores(m: StateModel, tip: HeaderId, tx: SignedOps)
    ensures
        m.untracked_on(tip).contains(tx) <==> !m.is_tracked(tx.hash) && exists|k: int|
            0 <= k < m.branch_above_lib(tip).len() && m.stored_at(
                #[trigger] m.branch_above_lib(tip)[k],
            ).signed_txs.contains(tx),
{
    let blocks = m.branch_above_lib(tip);
    let all = blocks.flat_map(m.signed_txs_at());
    lemma_filter_member(all, m.is_untracked_tx(), tx);
    lemma_flat_map_has(blocks, m.signed_txs_at(), tx);
    if all.contains(tx) {
        let k = choose|k: int|
            0 <= k < blocks.len() && m.signed_txs_at()(#[trigger] blocks[k]).contains(tx);
        assert(m.stored_at(blocks[k]).signed_txs.contains(tx));
    }
    if exists|k: int|
        0 <= k < blocks.len() && m.stored_at(#[trigger] blocks[k]).signed_txs.contains(tx) {
        let k = choose|k: int|
            0 <= k < blocks.len() && m.stored_at(#[trigger] blocks[k]).signed_txs.contains(tx);
        assert(m.signed_txs_at()(blocks[k]).contains(tx));
    }
}

/// The transactions of a block that a mirror can post again are those that were
/// classified.
pub proof fn law_mirrorable_are_the_classified(
    classified: Seq<BlockChannelTx>,
    txs: Seq<SignedOps>,
    tx: SignedOps,
)
    ensures
        mirrorable(classified, txs).contains(tx) <==> txs.contains(tx) && exists|k: int|
            0 <= k < classified.len() && (#[trigger] classified[k]).spec_tx_hash() == Some(tx.hash),
{
    let f = hash_of_classified();
    let ids = classified.filter_map(f);
    lemma_filter_member(txs, hash_among(ids.to_set()), tx);
    if ids.to_set().contains(tx.hash) {
        lemma_filter_map_source(classified, f, tx.hash);
        let k = choose|k: int|
            0 <= k < classified.len() && f(#[trigger] classified[k]) == Some(tx.hash);
        assert(classified[k].spec_tx_hash() == Some(tx.hash));
    }
    if exists|k: int|
        0 <= k < classified.len() && (#[trigger] classified[k]).spec_tx_hash() == Some(tx.hash) {
        let k = choose|k: int|
            0 <= k < classified.len() && (#[trigger] classified[k]).spec_tx_hash() == Some(tx.hash);
        lemma_filter_map_holds(classified, f, k);
        let j = choose|j: int| 0 <= j < ids.len() && #[trigger] ids[j] == tx.hash;
        assert(ids.contains(ids[j]));
    }
}

/// On the first event the view before it is what the held entries of the lineage
/// chain on: their own messages with their parents, and so on down; nothing of a
/// lineage without a held entry.
pub proof fn law_known_messages_lead_to_the_held(
    lineage: Seq<InscriptionInfo>,
    held: Set<TxHash>,
    i: int,
)
    ensures
        0 <= i < lineage.len() && held.contains(lineage[i].tx_hash) ==> known_under(
            lineage,
            held,
        ).contains(lineage[i].this_msg) && known_under(lineage, held).contains(
            lineage[i].parent_msg,
        ),
        0 <= i < lineage.len() && known_under(lineage.skip(i + 1), held).contains(
            lineage[i].this_msg,
        ) ==> known_under(lineage, held).contains(lineage[i].parent_msg),
        0 <= i <= lineage.len() ==> known_under(lineage.skip(i), held).subset_of(
            known_under(lineage, held),
        ),
        (forall|k: int| 0 <= k < lineage.len() ==> !held.contains((#[trigger] lineage[k]).tx_hash))
            ==> known_under(lineage, held) == Set::<MsgId>::empty(),
    decreases lineage.len(),
{
    if lineage.len() > 0 {
        let rest = lineage.drop_first();
        law_known_messages_lead_to_the_held(rest, held, i - 1);
        assert forall|k: int| 0 <= k < rest.len() implies #[trigger] rest[k] == lineage[k + 1] by {
        }
        if i == 0 {
            assert(lineage.skip(0) =~= lineage);
            assert(lineage.skip(1) =~= rest);
        } else if 0 < i <= lineage.len() {
            assert(lineage.skip(i) =~= rest.skip(i - 1));
            if i < lineage.len() {
                assert(lineage.skip(i + 1) =~= rest.skip(i));
            }
        }
    } else if i == 0 {
        assert(lineage.skip(0) =~= lineage);
    }
}

} // verus!
