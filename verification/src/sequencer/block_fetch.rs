//! Reading blocks into the transaction state.
//!
//! Whoever talks to the node hands over what it fetched; everything from there
//! on is computed here. A block event is handled in two steps: preparing it
//! touches no state and may fail, applying it cannot fail.

use std::sync::Arc;

use vstd::prelude::*;
use vstd::string::StringExecFns;

use crate::adapter::{
    deposit_key, knows_deposits, DepositEvent, DepositEvents, DepositOpKey, EventsReply,
};
use crate::collections::KeySet;
use crate::ids::{ChannelId, HeaderId, Key, NoteId, TxHash};
use crate::items::{law_items_hold, Items};
use crate::mantle::{ChannelTransferOp, Note, Op, SignedOps, Slot, Utxo};
use crate::sequencer::channel_tx::{
    channel_configs, channel_transfers, classifications, classify_each, config_entry, configs_of,
    inscription_entry, law_classification_keeps_every_entry, touches_channel_tip, touches_tip,
    transfers_of, BlockChannelTx,
};
use crate::sequencer::channel_wallet::WalletModel;
use crate::sequencer::state::{lemma_filter_map_push, TxState};
use crate::sequencer::state_model::{hashes, PendingBundle, PendingInscription, StateModel};
use crate::sequencer::types::{
    ChannelTransferInfo, ChannelUpdateTx, DepositInfo, FinalizedOp, FinalizedTx, InscriptionInfo,
    PendingTx, WithdrawInfo,
};

verus! {

/// A block, as far as the sequencer reads it.
#[derive(Debug, PartialEq, Eq)]
pub struct Block {
    pub id: HeaderId,
    pub parent_block: HeaderId,
    pub slot: Slot,
    pub transactions: Vec<SignedOps>,
}

/// A node's notice of a new block.
#[derive(Debug, PartialEq, Eq)]
pub struct BlockEvent {
    pub block: Block,
    pub tip: HeaderId,
    pub tip_slot: Slot,
    pub lib: HeaderId,
    pub lib_slot: Slot,
}

/// A block with what came of asking for its events.
#[derive(Debug, PartialEq, Eq)]
pub struct FetchedBlock {
    pub block: Block,
    pub events: EventsReply,
}

pub open spec fn touching(channel_id: ChannelId) -> spec_fn(SignedOps) -> bool {
    |tx: SignedOps| touches_tip(tx, channel_id)
}

pub open spec fn hash_of_signed() -> spec_fn(SignedOps) -> TxHash {
    |tx: SignedOps| tx.hash
}

/// The transactions of a block that move one of the channel's tips, by hash.
pub open spec fn our_hashes(txs: Seq<SignedOps>, channel_id: ChannelId) -> Seq<TxHash> {
    txs.filter(touching(channel_id)).map_values(hash_of_signed())
}

/// The hashes of the transactions that move one of the channel's tips. They
/// join the safe set of their branch whether or not they are tracked: a fork
/// block is not mirrored on arrival, and its transactions must read as mined
/// once the branch turns canonical.
pub fn our_txs(txs: &[SignedOps], channel_id: ChannelId) -> (res: Vec<TxHash>)
    ensures
        res@ == our_hashes(txs@, channel_id),
{
    let ghost keep = touching(channel_id);
    let mut res: Vec<TxHash> = Vec::new();
    proof {
        reveal(Seq::filter);
        assert(txs@.take(0).filter(keep) =~= Seq::empty());
    }
    let mut i: usize = 0;
    while i < txs.len()
        invariant
            i <= txs@.len(),
            keep == touching(channel_id),
            res@ == txs@.take(i as int).filter(keep).map_values(hash_of_signed()),
        decreases txs@.len() - i,
    {
        proof {
            let before = txs@.take(i as int);
            assert(txs@.take(i + 1) =~= before.push(txs@[i as int]));
            before.lemma_filter_push(txs@[i as int], keep);
        }
        if touches_channel_tip(&txs[i], channel_id) {
            res.push(txs[i].hash);
        }
        assert(res@ =~= txs@.take(i + 1).filter(keep).map_values(hash_of_signed()));
        i = i + 1;
    }
    assert(txs@.take(i as int) =~= txs@);
    res
}

/// The transaction of a list with a hash; the last one where there are several.
pub open spec fn tx_with(txs: Seq<SignedOps>, hash: TxHash) -> Option<SignedOps>
    decreases txs.len(),
{
    if txs.len() == 0 {
        None
    } else if txs.last().hash == hash {
        Some(txs.last())
    } else {
        tx_with(txs.drop_last(), hash)
    }
}

fn find_by_hash(txs: &[SignedOps], hash: &TxHash) -> (res: Option<SignedOps>)
    ensures
        res == tx_with(txs@, *hash),
{
    let mut n: usize = txs.len();
    assert(txs@.take(n as int) =~= txs@);
    while n > 0
        invariant
            n <= txs@.len(),
            tx_with(txs@, *hash) == tx_with(txs@.take(n as int), *hash),
        decreases n,
    {
        assert(txs@.take(n as int).drop_last() =~= txs@.take(n - 1));
        assert(txs@.take(n as int).last() == txs@[n - 1]);
        if txs[n - 1].hash.same(hash) {
            return Some(txs[n - 1].clone());
        }
        n = n - 1;
    }
    None
}

proof fn lemma_tx_with_holds(txs: Seq<SignedOps>, k: int)
    requires
        0 <= k < txs.len(),
    ensures
        tx_with(txs, txs[k].hash) is Some,
    decreases txs.len(),
{
    if k < txs.len() - 1 {
        assert(txs.drop_last()[k] == txs[k]);
        lemma_tx_with_holds(txs.drop_last(), k);
    }
}

/// A classified transaction is one of `txs`.
pub open spec fn is_from(tx: BlockChannelTx, txs: Seq<SignedOps>) -> bool {
    &&& tx.spec_tx_hash() matches Some(hash) && tx_with(txs, hash) is Some
    &&& tx matches BlockChannelTx::PinDeposit(a) ==> tx_with(txs, a.tx_hash) is Some
}

/// All classified transactions are among `txs`.
pub open spec fn all_from(classified: Seq<BlockChannelTx>, txs: Seq<SignedOps>) -> bool {
    forall|i: int| 0 <= i < classified.len() ==> is_from(#[trigger] classified[i], txs)
}

/// Classified transactions come from the list they were classified from.
pub proof fn lemma_classified_from(txs: Seq<SignedOps>, channel_id: ChannelId, n: int)
    requires
        0 <= n <= txs.len(),
    ensures
        all_from(classifications(txs.take(n), channel_id), txs),
    decreases n,
{
    let f = crate::sequencer::channel_tx::as_classified(channel_id);
    if n > 0 {
        lemma_classified_from(txs, channel_id, n - 1);
        txs.lemma_filter_map_take_succ(f, n - 1);
        law_classification_keeps_every_entry(txs[n - 1], channel_id);
        lemma_tx_with_holds(txs, n - 1);
    } else {
        assert(txs.take(0) =~= Seq::empty());
    }
}

pub open spec fn note_of_utxo() -> spec_fn(Utxo) -> Note {
    |utxo: Utxo| utxo.note
}

pub open spec fn known_note(wallet: WalletModel) -> spec_fn(NoteId) -> Option<Note> {
    |id: NoteId|
        match wallet.note(id) {
            Some(note) => Some(Note { value: note.value, pk: note.pk }),
            None => None,
        }
}

pub open spec fn note_behind(wallet: WalletModel) -> spec_fn(NoteId) -> Note {
    |id: NoteId| known_note(wallet)(id).unwrap()
}

/// A transfer that re-creates its inputs unchanged: all of them are known, and
/// the outputs have their values and keys, in any order.
pub open spec fn re_creates(wallet: WalletModel, transfer: ChannelTransferOp) -> bool {
    &&& forall|i: int|
        0 <= i < transfer.inputs@.len() ==> known_note(wallet)(#[trigger] transfer.inputs@[i])
            is Some
    &&& transfer.inputs@.map_values(note_behind(wallet)).to_multiset()
        == transfer.utxos@.map_values(note_of_utxo()).to_multiset()
}

/// A transaction whose first channel transfer re-creates its inputs.
pub open spec fn identity_deposit(wallet: WalletModel, tx: SignedOps, channel_id: ChannelId) -> bool {
    transfers_of(tx, channel_id).len() > 0 && re_creates(wallet, transfers_of(tx, channel_id)[0])
}

proof fn lemma_prefix_multiset<A>(s: Seq<A>, n: int)
    requires
        0 <= n <= s.len(),
    ensures
        forall|x: A| s.take(n).to_multiset().count(x) <= s.to_multiset().count(x),
    decreases s.len() - n,
{
    broadcast use vstd::seq_lib::group_to_multiset_ensures;

    if n < s.len() {
        lemma_prefix_multiset(s, n + 1);
        assert(s.take(n + 1) =~= s.take(n).push(s[n]));
    } else {
        assert(s.take(n) =~= s);
    }
}

/// Whether the bundle's channel transfer re-creates its inputs unchanged. An
/// input note that is not known cannot be compared and counts as changed.
pub fn is_identity_deposit_transfer(state: &TxState, tx: &SignedOps, channel_id: ChannelId) -> (res:
    bool)
    ensures
        res == identity_deposit(state@.wallet, *tx, channel_id),
{
    broadcast use vstd::seq_lib::group_to_multiset_ensures;

    let transfers = channel_transfers(tx, channel_id);
    if transfers.len() == 0 {
        return false;
    }
    let transfer = &transfers[0];
    let utxos: &Vec<Utxo> = &transfer.utxos;
    let ids: &Vec<NoteId> = &transfer.inputs.ids;
    let ghost wallet = state@.wallet;
    let ghost created = utxos@.map_values(note_of_utxo());
    let ghost spent = ids@.map_values(note_behind(wallet));
    let mut outputs: Vec<Note> = Vec::new();
    let mut k: usize = 0;
    while k < utxos.len()
        invariant
            k <= utxos@.len(),
            created == utxos@.map_values(note_of_utxo()),
            outputs@ == created.take(k as int),
        decreases utxos@.len() - k,
    {
        outputs.push(utxos[k].note);
        assert(outputs@ =~= created.take(k + 1));
        k = k + 1;
    }
    assert(outputs@ =~= created);
    if ids.len() != outputs.len() {
        proof {
            if re_creates(wallet, *transfer) {
                assert(spent.to_multiset().len() == created.to_multiset().len());
            }
        }
        return false;
    }
    proof {
        assert(spent.take(0) =~= Seq::empty());
        assert(outputs@.to_multiset().add(spent.take(0).to_multiset()) =~= created.to_multiset());
    }
    let mut i: usize = 0;
    while i < ids.len()
        invariant
            i <= ids@.len(),
            transfers@ == transfers_of(*tx, channel_id),
            transfers@.len() > 0,
            *transfer == transfers@[0],
            ids@ == transfer.inputs@,
            wallet == state@.wallet,
            created == transfer.utxos@.map_values(note_of_utxo()),
            spent == ids@.map_values(note_behind(wallet)),
            ids@.len() == created.len(),
            outputs@.len() == ids@.len() - i,
            forall|j: int| 0 <= j < i ==> known_note(wallet)(#[trigger] ids@[j]) is Some,
            outputs@.to_multiset().add(spent.take(i as int).to_multiset())
                == created.to_multiset(),
        decreases ids@.len() - i,
    {
        let note: Note = match state.find_channel_note(&ids[i]) {
            Some(note) => Note { value: note.value, pk: note.pk },
            None => {
                assert(known_note(wallet)(ids@[i as int]) is None);
                return false;
            },
        };
        assert(spent[i as int] == note);
        assert(spent.take(i + 1) =~= spent.take(i as int).push(note));
        match position(&outputs, &note) {
            Some(pos) => {
                let ghost before = outputs@;
                let _ = outputs.remove(pos);
                proof {
                    assert(before[pos as int] == note);
                    assert(outputs@ =~= before.remove(pos as int));
                    vstd::seq_lib::to_multiset_remove(before, pos as int);
                    vstd::seq_lib::to_multiset_contains(before, note);
                    assert(before.contains(note));
                    vstd::seq_lib::to_multiset_build(spent.take(i as int), note);
                    assert(outputs@.to_multiset().add(spent.take(i + 1).to_multiset())
                        =~= created.to_multiset());
                }
            },
            None => {
                proof {
                    vstd::seq_lib::to_multiset_contains(outputs@, note);
                    vstd::seq_lib::to_multiset_build(spent.take(i as int), note);
                    lemma_prefix_multiset(spent, i + 1);
                    assert(created.to_multiset().count(note) == spent.take(
                        i as int,
                    ).to_multiset().count(note));
                    assert(spent.take(i + 1).to_multiset().count(note) == spent.take(
                        i as int,
                    ).to_multiset().count(note) + 1);
                    assert(spent.to_multiset().count(note) > created.to_multiset().count(note));
                    assert(!re_creates(wallet, *transfer));
                }
                return false;
            },
        }
        i = i + 1;
    }
    proof {
        assert(spent.take(i as int) =~= spent);
        assert(outputs@ =~= Seq::empty());
        assert(spent.to_multiset() =~= created.to_multiset());
    }
    true
}

/// Where a note is in a list.
fn position(notes: &Vec<Note>, note: &Note) -> (res: Option<usize>)
    ensures
        match res {
            Some(i) => i < notes@.len() && notes@[i as int] == *note,
            None => !notes@.contains(*note),
        },
{
    let mut i: usize = 0;
    while i < notes.len()
        invariant
            i <= notes@.len(),
            forall|j: int| 0 <= j < i ==> notes@[j] != *note,
        decreases notes@.len() - i,
    {
        if notes[i] == *note {
            return Some(i);
        }
        i = i + 1;
    }
    None
}

/// How a classified transaction is stored once the notes are known: a pin
/// deposit whose transfer does not re-create its inputs as a custom one.
pub open spec fn demoted(
    wallet: WalletModel,
    txs: Seq<SignedOps>,
    channel_id: ChannelId,
) -> spec_fn(BlockChannelTx) -> BlockChannelTx {
    |classified: BlockChannelTx|
        match classified {
            BlockChannelTx::PinDeposit(a) => {
                let tx = tx_with(txs, a.tx_hash).unwrap();
                if identity_deposit(wallet, tx, channel_id) {
                    classified
                } else {
                    BlockChannelTx::Custom {
                        tx,
                        message_entries: Items::of(seq![a.inscription]),
                        config_entries: Items::of(Seq::empty()),
                    }
                }
            },
            _ => classified,
        }
}

/// Re-typing keeps where a transaction comes from.
pub proof fn lemma_demoted_from(
    classified: Seq<BlockChannelTx>,
    wallet: WalletModel,
    txs: Seq<SignedOps>,
    channel_id: ChannelId,
)
    requires
        all_from(classified, txs),
    ensures
        all_from(classified.map_values(demoted(wallet, txs, channel_id)), txs),
{
    broadcast use law_items_hold;

    let f = demoted(wallet, txs, channel_id);
    assert forall|i: int| 0 <= i < classified.len() implies is_from(
        #[trigger] classified.map_values(f)[i],
        txs,
    ) by {
        assert(is_from(classified[i], txs));
    }
}

/// Re-types every pin deposit whose transfer is not a one-to-one re-creation of
/// its consumed notes as custom: a split, a merge, another value or another key
/// would make its consumed notes misdescribe the deposit.
pub fn demote_non_identity_pin_deposits(
    channel_txs: &mut Vec<BlockChannelTx>,
    transactions: &[SignedOps],
    channel_id: ChannelId,
    state: &TxState,
)
    requires
        all_from(old(channel_txs)@, transactions@),
    ensures
        final(channel_txs)@ == old(channel_txs)@.map_values(
            demoted(state@.wallet, transactions@, channel_id),
        ),
{
    let ghost f = demoted(state@.wallet, transactions@, channel_id);
    let ghost before = channel_txs@;
    let mut i: usize = 0;
    while i < channel_txs.len()
        invariant
            i <= channel_txs@.len(),
            before == old(channel_txs)@,
            all_from(before, transactions@),
            f == demoted(state@.wallet, transactions@, channel_id),
            channel_txs@.len() == before.len(),
            forall|j: int| 0 <= j < i ==> #[trigger] channel_txs@[j] == f(before[j]),
            forall|j: int| i <= j < before.len() ==> #[trigger] channel_txs@[j] == before[j],
        decreases channel_txs@.len() - i,
    {
        assert(is_from(before[i as int], transactions@));
        if let BlockChannelTx::PinDeposit(a) = &channel_txs[i] {
            if let Some(tx) = find_by_hash(transactions, &a.tx_hash) {
                if !is_identity_deposit_transfer(state, &tx, channel_id) {
                    let mut entries: Vec<InscriptionInfo> = Vec::new();
                    entries.push(a.inscription.clone());
                    assert(entries@ =~= seq![a.inscription]);
                    channel_txs.set(
                        i,
                        BlockChannelTx::Custom {
                            tx,
                            message_entries: Items::from_vec(entries),
                            config_entries: Items::from_vec(Vec::new()),
                        },
                    );
                }
            }
        }
        i = i + 1;
    }
    assert(channel_txs@ =~= before.map_values(f));
}

/// The pending entry of an inscription seen on the channel.
pub open spec fn observed(
    signed_tx: SignedOps,
    info: InscriptionInfo,
    bundle: PendingBundle,
) -> PendingInscription {
    PendingInscription {
        tx_hash: signed_tx.hash,
        signed_tx,
        parent_msg: info.parent_msg,
        this_msg: info.this_msg,
        payload: info.payload,
        bundle,
        posted: true,
    }
}

/// The state once one classified transaction is mirrored.
pub open spec fn mirror_one(
    m: StateModel,
    classified: BlockChannelTx,
    txs: Seq<SignedOps>,
    channel_id: ChannelId,
) -> StateModel {
    let tx = tx_with(txs, classified.spec_tx_hash().unwrap()).unwrap();
    match classified {
        BlockChannelTx::Inscription(i) => m.observe_inscription(
            observed(tx, i, PendingBundle::Plain),
        ),
        BlockChannelTx::AtomicWithdraw(a) => m.observe_inscription(
            observed(
                tx,
                a.inscription,
                PendingBundle::Withdraw { withdraws: a.withdraws, outputs: a.outputs },
            ),
        ),
        BlockChannelTx::PinDeposit(a) => m.observe_inscription(
            observed(tx, a.inscription, PendingBundle::PinDeposit(a.consumed_notes)),
        ),
        BlockChannelTx::Config(_) => m.observe_other(tx, channel_id),
        BlockChannelTx::Custom { .. } => m.observe_other(tx, channel_id),
    }
}

/// The state once a list of classified transactions is mirrored.
pub open spec fn mirror(
    m: StateModel,
    classified: Seq<BlockChannelTx>,
    txs: Seq<SignedOps>,
    channel_id: ChannelId,
) -> StateModel
    decreases classified.len(),
{
    if classified.len() == 0 {
        m
    } else {
        mirror_one(
            mirror(m, classified.drop_last(), txs, channel_id),
            classified.last(),
            txs,
            channel_id,
        )
    }
}

/// Mirrors a block's channel transactions into the pending set, each unless it
/// is there, so that a later retry posts the same bytes again.
pub fn mirror_channel_txs(
    state: &mut TxState,
    classified: &[BlockChannelTx],
    transactions: &[SignedOps],
    channel_id: ChannelId,
)
    requires
        all_from(classified@, transactions@),
    ensures
        final(state)@ == mirror(old(state)@, classified@, transactions@, channel_id),
{
    assert(classified@.take(0) =~= Seq::empty());
    let mut i: usize = 0;
    while i < classified.len()
        invariant
            i <= classified@.len(),
            all_from(classified@, transactions@),
            state@ == mirror(
                old(state)@,
                classified@.take(i as int),
                transactions@,
                channel_id,
            ),
        decreases classified@.len() - i,
    {
        proof {
            assert(classified@.take(i + 1).drop_last() =~= classified@.take(i as int));
            assert(classified@.take(i + 1).last() == classified@[i as int]);
            assert(is_from(classified@[i as int], transactions@));
        }
        if let Some(hash) = classified[i].tx_hash() {
            if let Some(tx) = find_by_hash(transactions, &hash) {
                match &classified[i] {
                    BlockChannelTx::Inscription(info) => {
                        state.observe_channel_inscription(
                            tx,
                            info.parent_msg,
                            info.this_msg,
                            info.payload.clone(),
                            PendingBundle::Plain,
                        );
                    },
                    BlockChannelTx::AtomicWithdraw(a) => {
                        state.observe_channel_inscription(
                            tx,
                            a.inscription.parent_msg,
                            a.inscription.this_msg,
                            a.inscription.payload.clone(),
                            PendingBundle::Withdraw {
                                withdraws: a.withdraws.clone(),
                                outputs: a.outputs.clone(),
                            },
                        );
                    },
                    BlockChannelTx::PinDeposit(a) => {
                        state.observe_channel_inscription(
                            tx,
                            a.inscription.parent_msg,
                            a.inscription.this_msg,
                            a.inscription.payload.clone(),
                            PendingBundle::PinDeposit(a.consumed_notes.clone()),
                        );
                    },
                    BlockChannelTx::Config(_) => {
                        state.observe_other_tx(tx, channel_id);
                    },
                    BlockChannelTx::Custom { .. } => {
                        state.observe_other_tx(tx, channel_id);
                    },
                }
            }
        }
        i = i + 1;
    }
    assert(classified@.take(i as int) =~= classified@);
}

pub open spec fn hash_of_classified() -> spec_fn(BlockChannelTx) -> Option<TxHash> {
    |classified: BlockChannelTx| classified.spec_tx_hash()
}

pub open spec fn hash_among(set: Set<TxHash>) -> spec_fn(SignedOps) -> bool {
    |tx: SignedOps| set.contains(tx.hash)
}

/// The transactions of a block that were classified.
pub open spec fn mirrorable(classified: Seq<BlockChannelTx>, txs: Seq<SignedOps>) -> Seq<SignedOps> {
    txs.filter(hash_among(classified.filter_map(hash_of_classified()).to_set()))
}

/// The block's transactions that a mirror posts again: every classified one.
pub fn mirrorable_txs(classified: &[BlockChannelTx], transactions: &[SignedOps]) -> (res: Vec<
    SignedOps,
>)
    ensures
        res@ == mirrorable(classified@, transactions@),
{
    let ghost f = hash_of_classified();
    let mut set: KeySet<TxHash> = KeySet::new();
    assert(set@ =~= classified@.take(0).filter_map(f).to_set());
    let mut k: usize = 0;
    while k < classified.len()
        invariant
            k <= classified@.len(),
            f == hash_of_classified(),
            set@ == classified@.take(k as int).filter_map(f).to_set(),
        decreases classified@.len() - k,
    {
        proof {
            classified@.lemma_filter_map_take_succ(f, k as int);
        }
        if let Some(hash) = classified[k].tx_hash() {
            proof {
                classified@.take(k as int).filter_map(f).lemma_push_to_set_commute(hash);
                assert(classified@.take(k + 1).filter_map(f) =~= classified@.take(
                    k as int,
                ).filter_map(f).push(hash));
            }
            let _ = set.insert(hash);
        }
        k = k + 1;
    }
    assert(classified@.take(k as int) =~= classified@);
    let ghost keep = hash_among(set@);
    let mut res: Vec<SignedOps> = Vec::new();
    proof {
        reveal(Seq::filter);
        assert(transactions@.take(0).filter(keep) =~= Seq::empty());
    }
    let mut i: usize = 0;
    while i < transactions.len()
        invariant
            i <= transactions@.len(),
            keep == hash_among(set@),
            res@ == transactions@.take(i as int).filter(keep),
        decreases transactions@.len() - i,
    {
        proof {
            let before = transactions@.take(i as int);
            assert(transactions@.take(i + 1) =~= before.push(transactions@[i as int]));
            before.lemma_filter_push(transactions@[i as int], keep);
        }
        if set.contains(&transactions[i].hash) {
            res.push(transactions[i].clone());
        }
        i = i + 1;
    }
    assert(transactions@.take(i as int) =~= transactions@);
    res
}

/// The state once the stored transactions on `tip`'s branch that are not
/// pending are mirrored.
pub open spec fn remirror(m: StateModel, tip: HeaderId, channel_id: ChannelId) -> StateModel {
    let txs = m.untracked_on(tip);
    mirror(
        m,
        classifications(txs, channel_id).map_values(demoted(m.wallet, txs, channel_id)),
        txs,
        channel_id,
    )
}

/// Mirrors stored blocks that are now on the canonical path: they arrived as a
/// fork, or their transactions were given up on an earlier switch.
pub fn mirror_branch_from_store(state: &mut TxState, tip: HeaderId, channel_id: ChannelId)
    ensures
        final(state)@ == remirror(old(state)@, tip, channel_id),
{
    let untracked = state.untracked_signed_txs_on_branch(tip);
    let mut classified = classify_each(untracked.as_slice(), channel_id);
    proof {
        assert(untracked@.take(untracked@.len() as int) =~= untracked@);
        lemma_classified_from(untracked@, channel_id, untracked@.len() as int);
        lemma_demoted_from(classified@, state@.wallet, untracked@, channel_id);
    }
    demote_non_identity_pin_deposits(&mut classified, untracked.as_slice(), channel_id, state);
    mirror_channel_txs(state, classified.as_slice(), untracked.as_slice(), channel_id);
}

/// Configs are not among the mined inscriptions, but their transactions are
/// reported too: the first config of each transaction that `mined` does not
/// cover.
pub open spec fn uncovered_config(mined: Set<TxHash>, channel_id: ChannelId) -> spec_fn(
    SignedOps,
) -> Option<InscriptionInfo> {
    |tx: SignedOps|
        if mined.contains(tx.hash) || configs_of(tx, channel_id).len() == 0 {
            None
        } else {
            Some(configs_of(tx, channel_id)[0])
        }
}

/// One entry per config-carrying transaction that has no entry in `mined`, with
/// its config-lineage ids.
pub fn mined_config_entries(
    transactions: &[SignedOps],
    channel_id: ChannelId,
    mined: &[InscriptionInfo],
) -> (res: Vec<InscriptionInfo>)
    ensures
        res@ == transactions@.filter_map(uncovered_config(hashes(mined@), channel_id)),
{
    let ghost f = uncovered_config(hashes(mined@), channel_id);
    let mut res: Vec<InscriptionInfo> = Vec::new();
    let mut i: usize = 0;
    while i < transactions.len()
        invariant
            i <= transactions@.len(),
            f == uncovered_config(hashes(mined@), channel_id),
            res@ == transactions@.take(i as int).filter_map(f),
        decreases transactions@.len() - i,
    {
        proof {
            transactions@.lemma_filter_map_take_succ(f, i as int);
        }
        if !covers(mined, &transactions[i].hash) {
            let configs = channel_configs(&transactions[i], channel_id);
            if configs.len() > 0 {
                res.push(configs[0].clone());
            }
        }
        i = i + 1;
    }
    assert(transactions@.take(i as int) =~= transactions@);
    res
}

/// Whether an entry of a list belongs to a transaction.
fn covers(infos: &[InscriptionInfo], hash: &TxHash) -> (res: bool)
    ensures
        res == hashes(infos@).contains(*hash),
{
    let ghost all = infos@.map_values(crate::sequencer::state_model::hash_of());
    let mut i: usize = 0;
    while i < infos.len()
        invariant
            i <= infos@.len(),
            all == infos@.map_values(crate::sequencer::state_model::hash_of()),
            forall|j: int| 0 <= j < i ==> #[trigger] all[j] != *hash,
        decreases infos@.len() - i,
    {
        if infos[i].tx_hash.same(hash) {
            assert(all[i as int] == *hash);
            assert(all.contains(*hash));
            return true;
        }
        i = i + 1;
    }
    false
}

/// How a given-up pending entry is reported.
pub open spec fn orphan_report() -> spec_fn(PendingTx) -> ChannelUpdateTx {
    |entry: PendingTx|
        match entry {
            PendingTx::Inscription(i) => ChannelUpdateTx::Inscription(i),
            PendingTx::AtomicWithdraw(a) => ChannelUpdateTx::AtomicWithdraw(a),
            PendingTx::PinDeposit(a) => ChannelUpdateTx::PinDeposit(a),
        }
}

/// Converts a given-up pending entry for the consumer.
pub fn orphan_from_shed(entry: PendingTx) -> (res: ChannelUpdateTx)
    ensures
        res == orphan_report()(entry),
{
    match entry {
        PendingTx::Inscription(i) => ChannelUpdateTx::Inscription(i),
        PendingTx::AtomicWithdraw(a) => ChannelUpdateTx::AtomicWithdraw(a),
        PendingTx::PinDeposit(a) => ChannelUpdateTx::PinDeposit(a),
    }
}

/// What an operation does to the channel, if anything.
pub open spec fn finalized_op(
    tx_hash: TxHash,
    channel_id: ChannelId,
    events: Map<DepositOpKey, DepositEvent>,
) -> spec_fn(Op) -> Option<FinalizedOp> {
    |op: Op|
        match op {
            Op::ChannelInscribe(_) => match inscription_entry(tx_hash, channel_id, op) {
                Some(info) => Some(FinalizedOp::Inscription(info)),
                None => None,
            },
            Op::ChannelConfig(_) => match config_entry(tx_hash, channel_id, op) {
                Some(info) => Some(FinalizedOp::Config(info)),
                None => None,
            },
            Op::ChannelDeposit(deposit) => if deposit.channel_id == channel_id {
                let event = events[DepositOpKey { tx_hash, op_id: deposit.op_id }];
                Some(
                    FinalizedOp::Deposit(
                        DepositInfo {
                            tx_hash,
                            op_id: deposit.op_id,
                            channel_id,
                            inputs: deposit.inputs,
                            notes: event.notes,
                            amount: event.amount,
                            metadata: deposit.metadata,
                        },
                    ),
                )
            } else {
                None
            },
            Op::ChannelWithdraw(withdraw) => if withdraw.channel_id == channel_id {
                Some(FinalizedOp::Withdraw(WithdrawInfo { tx_hash, op: withdraw }))
            } else {
                None
            },
            Op::ChannelTransfer(transfer) => if transfer.channel_id == channel_id {
                Some(FinalizedOp::ChannelTransfer(ChannelTransferInfo { tx_hash, op: transfer }))
            } else {
                None
            },
            _ => None,
        }
}

/// A transaction's channel operations, if it has any.
pub open spec fn finalized_item(
    channel_id: ChannelId,
    l1_slot: Slot,
    events: Map<DepositOpKey, DepositEvent>,
) -> spec_fn(SignedOps) -> Option<FinalizedTx> {
    |tx: SignedOps|
        {
            let ops = tx.ops@.filter_map(finalized_op(tx.hash, channel_id, events));
            if ops.len() == 0 {
                None
            } else {
                Some(FinalizedTx { tx_hash: tx.hash, l1_slot, ops: Items::of(ops) })
            }
        }
}

/// The channel-relevant transactions of a block, in tx-then-op order.
pub open spec fn finalized_items(
    txs: Seq<SignedOps>,
    channel_id: ChannelId,
    l1_slot: Slot,
    events: Map<DepositOpKey, DepositEvent>,
) -> Seq<FinalizedTx> {
    txs.filter_map(finalized_item(channel_id, l1_slot, events))
}

/// Reads one operation. The lookup has to know every deposit into the channel.
fn read_op(tx_hash: TxHash, channel_id: ChannelId, deposit_events: &DepositEvents, op: &Op) -> (res:
    Option<FinalizedOp>)
    requires
        deposit_key(tx_hash, channel_id, *op) matches Some(key) ==> deposit_events@.contains_key(
            key,
        ),
    ensures
        res == finalized_op(tx_hash, channel_id, deposit_events@)(*op),
{
    match op {
        Op::ChannelInscribe(inscribe) => if inscribe.channel_id == channel_id {
            Some(
                FinalizedOp::Inscription(
                    InscriptionInfo {
                        tx_hash,
                        parent_msg: inscribe.parent,
                        this_msg: inscribe.id,
                        payload: inscribe.inscription.clone(),
                        signer: Some(inscribe.signer),
                    },
                ),
            )
        } else {
            None
        },
        Op::ChannelConfig(config) => if config.channel == channel_id {
            Some(
                FinalizedOp::Config(
                    InscriptionInfo {
                        tx_hash,
                        parent_msg: config.parent,
                        this_msg: config.id,
                        payload: crate::mantle::Inscription::empty(),
                        signer: None,
                    },
                ),
            )
        } else {
            None
        },
        Op::ChannelDeposit(deposit) => if deposit.channel_id == channel_id {
            let key = DepositOpKey { tx_hash, op_id: deposit.op_id };
            match deposit_events.get(&key) {
                Some(event) => Some(
                    FinalizedOp::Deposit(
                        DepositInfo {
                            tx_hash,
                            op_id: deposit.op_id,
                            channel_id,
                            inputs: deposit.inputs.clone(),
                            notes: Arc::clone(&event.notes),
                            amount: event.amount,
                            metadata: Arc::clone(&deposit.metadata),
                        },
                    ),
                ),
                None => None,
            }
        } else {
            None
        },
        Op::ChannelWithdraw(withdraw) => if withdraw.channel_id == channel_id {
            Some(FinalizedOp::Withdraw(WithdrawInfo { tx_hash, op: withdraw.clone() }))
        } else {
            None
        },
        Op::ChannelTransfer(transfer) => if transfer.channel_id == channel_id {
            Some(
                FinalizedOp::ChannelTransfer(ChannelTransferInfo { tx_hash, op: transfer.clone() }),
            )
        } else {
            None
        },
        _ => None,
    }
}

/// Groups the channel-relevant operations of a block by transaction, in the
/// order they ran. Every operation of one item took effect together with the
/// others. The lookup has to know every deposit into the channel.
pub fn extract_finalized_items(
    transactions: &[SignedOps],
    channel_id: ChannelId,
    l1_slot: Slot,
    deposit_events: &DepositEvents,
) -> (res: Vec<FinalizedTx>)
    requires
        knows_deposits(transactions@, channel_id, deposit_events@),
    ensures
        res@ == finalized_items(transactions@, channel_id, l1_slot, deposit_events@),
{
    let ghost f = finalized_item(channel_id, l1_slot, deposit_events@);
    let mut items: Vec<FinalizedTx> = Vec::new();
    let mut k: usize = 0;
    while k < transactions.len()
        invariant
            k <= transactions@.len(),
            knows_deposits(transactions@, channel_id, deposit_events@),
            f == finalized_item(channel_id, l1_slot, deposit_events@),
            items@ == transactions@.take(k as int).filter_map(f),
        decreases transactions@.len() - k,
    {
        let tx = &transactions[k];
        let ghost g = finalized_op(tx.hash, channel_id, deposit_events@);
        proof {
            transactions@.lemma_filter_map_take_succ(f, k as int);
        }
        let mut ops: Vec<FinalizedOp> = Vec::new();
        let mut i: usize = 0;
        while i < tx.ops.len()
            invariant
                k < transactions@.len(),
                *tx == transactions@[k as int],
                knows_deposits(transactions@, channel_id, deposit_events@),
                i <= tx.ops@.len(),
                g == finalized_op(tx.hash, channel_id, deposit_events@),
                ops@ == tx.ops@.take(i as int).filter_map(g),
            decreases tx.ops@.len() - i,
        {
            proof {
                tx.ops@.lemma_filter_map_take_succ(g, i as int);
                assert(deposit_key(
                    transactions@[k as int].hash,
                    channel_id,
                    transactions@[k as int].ops@[i as int],
                ) matches Some(key) ==> deposit_events@.contains_key(key));
            }
            if let Some(read) = read_op(tx.hash, channel_id, deposit_events, &tx.ops[i]) {
                ops.push(read);
            }
            i = i + 1;
        }
        assert(tx.ops@.take(i as int) =~= tx.ops@);
        if ops.len() > 0 {
            items.push(FinalizedTx { tx_hash: tx.hash, l1_slot, ops: Items::from_vec(ops) });
        }
        k = k + 1;
    }
    assert(transactions@.take(k as int) =~= transactions@);
    items
}

pub open spec fn as_deposit() -> spec_fn(FinalizedOp) -> Option<DepositInfo> {
    |op: FinalizedOp|
        match op {
            FinalizedOp::Deposit(deposit) => Some(deposit),
            _ => None,
        }
}

pub open spec fn ops_of_item() -> spec_fn(FinalizedTx) -> Seq<FinalizedOp> {
    |item: FinalizedTx| item.ops@
}

/// The channel deposits of a block, in op order.
pub open spec fn deposits_of(
    txs: Seq<SignedOps>,
    channel_id: ChannelId,
    l1_slot: Slot,
    events: Map<DepositOpKey, DepositEvent>,
) -> Seq<DepositInfo> {
    finalized_items(txs, channel_id, l1_slot, events).flat_map(ops_of_item()).filter_map(
        as_deposit(),
    )
}

/// The channel deposits of a single block, in op order, before they are final.
pub fn block_channel_deposits(
    transactions: &[SignedOps],
    channel_id: ChannelId,
    l1_slot: Slot,
    deposit_events: &DepositEvents,
) -> (res: Vec<DepositInfo>)
    requires
        knows_deposits(transactions@, channel_id, deposit_events@),
    ensures
        res@ == deposits_of(transactions@, channel_id, l1_slot, deposit_events@),
{
    let items = extract_finalized_items(transactions, channel_id, l1_slot, deposit_events);
    let ghost f = ops_of_item();
    let ghost g = as_deposit();
    let mut res: Vec<DepositInfo> = Vec::new();
    assert(items@.take(0) =~= Seq::empty());
    let mut k: usize = 0;
    while k < items.len()
        invariant
            k <= items@.len(),
            f == ops_of_item(),
            g == as_deposit(),
            res@ == items@.take(k as int).flat_map(f).filter_map(g),
        decreases items@.len() - k,
    {
        let ops = items[k].ops.refs();
        let ghost before = items@.take(k as int).flat_map(f);
        let ghost all = items@[k as int].ops@;
        assert(before + all.take(0) =~= before);
        let mut i: usize = 0;
        while i < ops.len()
            invariant
                i <= ops@.len(),
                ops@.len() == all.len(),
                forall|j: int| 0 <= j < ops@.len() ==> *(#[trigger] ops@[j]) == all[j],
                g == as_deposit(),
                res@ == (before + all.take(i as int)).filter_map(g),
            decreases ops@.len() - i,
        {
            proof {
                let so_far = before + all.take(i as int);
                assert(before + all.take(i + 1) =~= so_far.push(all[i as int]));
                lemma_filter_map_push(so_far, all[i as int], g);
            }
            if let FinalizedOp::Deposit(deposit) = ops[i] {
                res.push(deposit.clone());
            }
            i = i + 1;
        }
        proof {
            assert(all.take(i as int) =~= all);
            items@.lemma_flat_map_take_append(f, k as int);
        }
        k = k + 1;
    }
    assert(items@.take(k as int) =~= items@);
    res
}

} // verus!
