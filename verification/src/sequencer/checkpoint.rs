//! Checkpoints: what is kept of the state, and how the state is restored.

use vstd::prelude::*;

use crate::collections::KeySet;
use crate::ids::{ChannelId, MsgId, TxHash};
use crate::items::Items;
use crate::mantle::{InscriptionOp, Op, Outputs, SignedOps, Slot};
use crate::sequencer::channel_wallet::{notes_from, WalletModel};
use crate::sequencer::state_laws::linked;
use crate::sequencer::state::{lemma_filter_map_push, ParentTaken, TxState};
use crate::sequencer::state_model::{OtherModel, PendingBundle, PendingInscription, StateModel};
use crate::sequencer::types::{SequencerCheckpoint, WithdrawInfo};

verus! {

/// The checkpoint of a state.
pub fn build_checkpoint(state: &TxState, last_msg_id: MsgId, lib_slot: Slot) -> (res:
    SequencerCheckpoint)
    ensures
        res@.captures(state@, last_msg_id, lib_slot),
{
    SequencerCheckpoint {
        last_msg_id,
        pending_txs: state.all_pending_txs(),
        lib: state.lib(),
        lib_slot,
        finalized_config: state.finalized_config(),
        channel_notes: state.channel_notes_base(),
    }
}

/// An inscription on the channel.
pub open spec fn inscription_on(channel_id: ChannelId) -> spec_fn(Op) -> Option<InscriptionOp> {
    |op: Op|
        match op {
            Op::ChannelInscribe(ins) => if ins.channel_id == channel_id {
                Some(ins)
            } else {
                None
            },
            _ => None,
        }
}

/// A withdraw from the channel, as it is reported.
pub open spec fn withdraw_on(channel_id: ChannelId, tx_hash: TxHash) -> spec_fn(Op) -> Option<
    WithdrawInfo,
> {
    |op: Op|
        match op {
            Op::ChannelWithdraw(op) => if op.channel_id == channel_id {
                Some(WithdrawInfo { tx_hash, op })
            } else {
                None
            },
            _ => None,
        }
}

/// The channel's inscriptions in a transaction.
pub open spec fn inscriptions_in(tx: SignedOps, channel_id: ChannelId) -> Seq<InscriptionOp> {
    tx.ops@.filter_map(inscription_on(channel_id))
}

/// The channel's withdraws in a transaction.
pub open spec fn withdraws_in(tx: SignedOps, channel_id: ChannelId) -> Seq<WithdrawInfo> {
    tx.ops@.filter_map(withdraw_on(channel_id, tx.hash))
}

fn inscriptions_of(tx: &SignedOps, channel_id: ChannelId) -> (res: Vec<InscriptionOp>)
    ensures
        res@ == inscriptions_in(*tx, channel_id),
{
    let ghost f = inscription_on(channel_id);
    let ops: &Vec<Op> = &tx.ops;
    let mut res: Vec<InscriptionOp> = Vec::new();
    let mut i: usize = 0;
    assert(ops@.take(0) =~= Seq::empty());
    assert(ops@.take(0).filter_map(f) =~= Seq::empty());
    while i < ops.len()
        invariant
            i <= ops@.len(),
            f == inscription_on(channel_id),
            res@ == ops@.take(i as int).filter_map(f),
        decreases ops@.len() - i,
    {
        proof {
            lemma_filter_map_push(ops@.take(i as int), ops@[i as int], f);
            assert(ops@.take(i + 1) =~= ops@.take(i as int).push(ops@[i as int]));
        }
        if let Op::ChannelInscribe(ins) = &ops[i] {
            if ins.channel_id == channel_id {
                res.push(ins.clone());
            }
        }
        i = i + 1;
    }
    assert(ops@.take(i as int) =~= ops@);
    res
}

fn withdraws_of(tx: &SignedOps, channel_id: ChannelId) -> (res: Vec<WithdrawInfo>)
    ensures
        res@ == withdraws_in(*tx, channel_id),
{
    let ghost f = withdraw_on(channel_id, tx.hash);
    let ops: &Vec<Op> = &tx.ops;
    let mut res: Vec<WithdrawInfo> = Vec::new();
    let mut i: usize = 0;
    assert(ops@.take(0) =~= Seq::empty());
    assert(ops@.take(0).filter_map(f) =~= Seq::empty());
    while i < ops.len()
        invariant
            i <= ops@.len(),
            f == withdraw_on(channel_id, tx.hash),
            res@ == ops@.take(i as int).filter_map(f),
        decreases ops@.len() - i,
    {
        proof {
            lemma_filter_map_push(ops@.take(i as int), ops@[i as int], f);
            assert(ops@.take(i + 1) =~= ops@.take(i as int).push(ops@[i as int]));
        }
        if let Op::ChannelWithdraw(op) = &ops[i] {
            if op.channel_id == channel_id {
                res.push(WithdrawInfo { tx_hash: tx.hash, op: op.clone() });
            }
        }
        i = i + 1;
    }
    assert(ops@.take(i as int) =~= ops@);
    res
}

/// The inscriptions of a pending transaction.
pub open spec fn pending_inscriptions(channel_id: ChannelId) -> spec_fn(
    (TxHash, SignedOps),
) -> Seq<InscriptionOp> {
    |pair: (TxHash, SignedOps)| inscriptions_in(pair.1, channel_id)
}

pub open spec fn id_of() -> spec_fn(InscriptionOp) -> MsgId {
    |ins: InscriptionOp| ins.id
}

/// The parent of the first inscription whose parent is outside `made`.
pub open spec fn first_parent_outside(inscriptions: Seq<InscriptionOp>, made: Set<MsgId>) -> Option<
    MsgId,
>
    decreases inscriptions.len(),
{
    if inscriptions.len() == 0 {
        None
    } else if !made.contains(inscriptions[0].parent) {
        Some(inscriptions[0].parent)
    } else {
        first_parent_outside(inscriptions.drop_first(), made)
    }
}

/// The message that pending inscriptions continue: the first parent among them
/// that none of them produces.
pub open spec fn pending_root(pending_txs: Seq<(TxHash, SignedOps)>, channel_id: ChannelId) -> Option<
    MsgId,
> {
    let inscriptions = pending_txs.flat_map(pending_inscriptions(channel_id));
    first_parent_outside(inscriptions, inscriptions.map_values(id_of()).to_set())
}

/// The channel tip that restored pending transactions continue, if any of them
/// inscribes on the channel.
pub fn restored_pending_channel_tip(
    pending_txs: &Vec<(TxHash, SignedOps)>,
    channel_id: ChannelId,
) -> (res: Option<MsgId>)
    ensures
        res == pending_root(pending_txs@, channel_id),
{
    let ghost f = pending_inscriptions(channel_id);
    let mut all: Vec<InscriptionOp> = Vec::new();
    let mut i: usize = 0;
    assert(pending_txs@.take(0) =~= Seq::empty());
    while i < pending_txs.len()
        invariant
            i <= pending_txs@.len(),
            f == pending_inscriptions(channel_id),
            all@ == pending_txs@.take(i as int).flat_map(f),
        decreases pending_txs@.len() - i,
    {
        proof {
            pending_txs@.lemma_flat_map_take_append(f, i as int);
        }
        let mut inscriptions = inscriptions_of(&pending_txs[i].1, channel_id);
        all.append(&mut inscriptions);
        i = i + 1;
    }
    assert(pending_txs@.take(i as int) =~= pending_txs@);

    let mut made: KeySet<MsgId> = KeySet::new();
    let ghost ids = all@.map_values(id_of());
    let mut i: usize = 0;
    assert(made@ =~= ids.take(0).to_set());
    while i < all.len()
        invariant
            i <= all@.len(),
            ids == all@.map_values(id_of()),
            made@ == ids.take(i as int).to_set(),
        decreases all@.len() - i,
    {
        proof {
            ids.take(i as int).lemma_push_to_set_commute(ids[i as int]);
            assert(ids.take(i + 1) =~= ids.take(i as int).push(ids[i as int]));
        }
        let _ = made.insert(all[i].id);
        i = i + 1;
    }
    assert(ids.take(i as int) =~= ids);

    let mut i: usize = 0;
    assert(all@.skip(0) =~= all@);
    while i < all.len()
        invariant
            i <= all@.len(),
            first_parent_outside(all@, made@) == first_parent_outside(all@.skip(i as int), made@),
            pending_root(pending_txs@, channel_id) == first_parent_outside(all@, made@),
        decreases all@.len() - i,
    {
        assert(all@.skip(i as int)[0] == all@[i as int]);
        assert(all@.skip(i as int).drop_first() =~= all@.skip(i + 1));
        if !made.contains(&all[i].parent) {
            return Some(all[i].parent);
        }
        i = i + 1;
    }
    None
}

/// How a transaction with exactly one inscription on the channel is pending: as
/// a bundle when it withdraws from the channel too.
pub open spec fn pending_entry(tx: SignedOps, channel_id: ChannelId) -> Option<PendingInscription> {
    let inscriptions = inscriptions_in(tx, channel_id);
    let withdraws = withdraws_in(tx, channel_id);
    if inscriptions.len() != 1 {
        None
    } else {
        Some(
            PendingInscription {
                tx_hash: tx.hash,
                signed_tx: tx,
                parent_msg: inscriptions[0].parent,
                this_msg: inscriptions[0].id,
                payload: inscriptions[0].inscription,
                bundle: if withdraws.len() == 0 {
                    PendingBundle::Plain
                } else {
                    PendingBundle::Withdraw {
                        withdraws: Items::of(withdraws),
                        outputs: Outputs::spec_empty(),
                    }
                },
                posted: false,
            },
        )
    }
}

/// The message that a transaction continues, if it does.
pub open spec fn continues(tx: SignedOps, channel_id: ChannelId) -> Option<MsgId> {
    match pending_entry(tx, channel_id) {
        Some(entry) => Some(entry.parent_msg),
        None => OtherModel::of(tx, channel_id).first_parent(),
    }
}

/// Why a transaction cannot become pending: another one continues its parent.
pub open spec fn refusal(m: StateModel, tx: SignedOps, channel_id: ChannelId) -> Option<
    ParentTaken,
> {
    match continues(tx, channel_id) {
        None => None,
        Some(parent) => match m.taken(parent, tx.hash) {
            Some(by) => Some(ParentTaken { parent, by }),
            None => None,
        },
    }
}

/// The state with a transaction pending; as it is where that is refused.
pub open spec fn with_pending(m: StateModel, tx: SignedOps, channel_id: ChannelId) -> StateModel {
    if refusal(m, tx, channel_id) is Some {
        m
    } else {
        match pending_entry(tx, channel_id) {
            Some(entry) => m.track_local(tx.hash).put_pending(entry),
            None => m.track_local(tx.hash).put_other(tx, channel_id),
        }
    }
}

/// Tracks a pending transaction by its shape: one inscription on the channel is
/// a plain inscription, with withdraws a bundle; anything else, several
/// inscriptions among it, is opaque. Refused when another pending transaction
/// continues its parent.
pub fn track_pending_tx(state: &mut TxState, tx: SignedOps, channel_id: ChannelId) -> (res: Result<
    (),
    ParentTaken,
>)
    ensures
        match refusal(old(state)@, tx, channel_id) {
            Some(taken) => res == Err::<(), ParentTaken>(taken),
            None => res is Ok,
        },
        final(state)@ == with_pending(old(state)@, tx, channel_id),
{
    let inscriptions = inscriptions_of(&tx, channel_id);
    if inscriptions.len() != 1 {
        return match state.submit_other(tx, channel_id) {
            Ok(_) => Ok(()),
            Err(taken) => Err(taken),
        };
    }
    let withdraws = withdraws_of(&tx, channel_id);
    let parent = inscriptions[0].parent;
    let this_msg = inscriptions[0].id;
    let payload = inscriptions[0].inscription.clone();
    if withdraws.len() == 0 {
        state.submit_inscription(tx, parent, this_msg, payload)
    } else {
        state.submit_atomic_withdraw(tx, parent, this_msg, payload, withdraws, Outputs::empty())
    }
}

/// Restores a pending transaction of a checkpoint. One whose parent is
/// continued by an earlier one is dropped.
pub fn restore_pending_tx(state: &mut TxState, tx: SignedOps, channel_id: ChannelId)
    ensures
        final(state)@ == with_pending(old(state)@, tx, channel_id),
{
    let _ = track_pending_tx(state, tx, channel_id);
}

/// The state with all of a list pending, in order.
pub open spec fn with_all_pending(
    m: StateModel,
    txs: Seq<(TxHash, SignedOps)>,
    channel_id: ChannelId,
) -> StateModel
    decreases txs.len(),
{
    if txs.len() == 0 {
        m
    } else {
        with_pending(with_all_pending(m, txs.drop_last(), channel_id), txs.last().1, channel_id)
    }
}

/// The last `max` of a list.
pub open spec fn newest(list: Seq<TxHash>, max: usize) -> Seq<TxHash> {
    if list.len() > max {
        list.skip(list.len() - max)
    } else {
        list
    }
}

/// The state that a checkpoint holds: its LIB with the finalized tips and
/// notes, and what was pending. The finalized message is the one that the
/// pending transactions continue, or the last message when none does.
pub open spec fn restored_state(
    checkpoint: SequencerCheckpoint,
    channel_id: ChannelId,
    max_local: usize,
) -> StateModel {
    let finalized = match pending_root(checkpoint.pending_txs@, channel_id) {
        Some(msg) => msg,
        None => checkpoint.last_msg_id,
    };
    let base = StateModel::new(checkpoint.lib, finalized);
    let start = StateModel {
        finalized_config: checkpoint.finalized_config,
        observed_config_tip: checkpoint.finalized_config,
        wallet: WalletModel { base: notes_from(checkpoint.channel_notes@), ..base.wallet },
        ..base
    };
    let full = with_all_pending(start, checkpoint.pending_txs@, channel_id);
    StateModel { local: newest(full.local, max_local), ..full }
}

/// Restores the state that a checkpoint holds.
pub fn restore_state(
    checkpoint: SequencerCheckpoint,
    channel_id: ChannelId,
    max_local: usize,
) -> (res: TxState)
    ensures
        res@ == restored_state(checkpoint, channel_id, max_local),
{
    let finalized = match restored_pending_channel_tip(&checkpoint.pending_txs, channel_id) {
        Some(msg) => msg,
        None => checkpoint.last_msg_id,
    };
    let mut state = TxState::new(checkpoint.lib, finalized);
    state.set_finalized_config(checkpoint.finalized_config);
    state.restore_channel_notes(checkpoint.channel_notes);
    let ghost base = StateModel::new(checkpoint.lib, finalized);
    let ghost start = StateModel {
        finalized_config: checkpoint.finalized_config,
        observed_config_tip: checkpoint.finalized_config,
        wallet: WalletModel { base: notes_from(checkpoint.channel_notes@), ..base.wallet },
        ..base
    };
    assert(state@ =~= start);
    let txs: Vec<(TxHash, SignedOps)> = checkpoint.pending_txs;
    let mut i: usize = 0;
    while i < txs.len()
        invariant
            i <= txs@.len(),
            state@ == with_all_pending(start, txs@.take(i as int), channel_id),
        decreases txs@.len() - i,
    {
        assert(txs@.take(i + 1).drop_last() =~= txs@.take(i as int));
        restore_pending_tx(&mut state, txs[i].1.clone(), channel_id);
        i = i + 1;
    }
    assert(txs@.take(i as int) =~= txs@);
    state.prune_local_tx_tracking(max_local);
    state
}

/// Nothing but pending transactions changes when one becomes pending.
pub proof fn lemma_pending_keeps_the_rest(m: StateModel, tx: SignedOps, channel_id: ChannelId)
    ensures
        ({
            let n = with_pending(m, tx, channel_id);
            &&& n.lib == m.lib
            &&& n.finalized_msg == m.finalized_msg
            &&& n.finalized_config == m.finalized_config
            &&& n.observed_config_tip == m.observed_config_tip
            &&& n.wallet == m.wallet
            &&& n.stored == m.stored
            &&& n.safe == m.safe
        }),
{
}

proof fn lemma_all_pending_keep_the_rest(
    m: StateModel,
    txs: Seq<(TxHash, SignedOps)>,
    channel_id: ChannelId,
)
    ensures
        ({
            let n = with_all_pending(m, txs, channel_id);
            &&& n.lib == m.lib
            &&& n.finalized_msg == m.finalized_msg
            &&& n.finalized_config == m.finalized_config
            &&& n.observed_config_tip == m.observed_config_tip
            &&& n.wallet == m.wallet
            &&& n.stored == m.stored
            &&& n.safe == m.safe
        }),
    decreases txs.len(),
{
    if txs.len() > 0 {
        lemma_all_pending_keep_the_rest(m, txs.drop_last(), channel_id);
        lemma_pending_keeps_the_rest(
            with_all_pending(m, txs.drop_last(), channel_id),
            txs.last().1,
            channel_id,
        );
    }
}

/// A restored state is at the checkpoint's LIB, with its finalized config and
/// its notes.
pub proof fn law_restore_keeps_what_is_finalized(
    checkpoint: SequencerCheckpoint,
    channel_id: ChannelId,
    max_local: usize,
)
    ensures
        ({
            let m = restored_state(checkpoint, channel_id, max_local);
            &&& m.lib == checkpoint.lib
            &&& m.finalized_config == checkpoint.finalized_config
            &&& m.observed_config_tip == checkpoint.finalized_config
            &&& m.wallet.base == notes_from(checkpoint.channel_notes@)
        }),
{
    let finalized = match pending_root(checkpoint.pending_txs@, channel_id) {
        Some(msg) => msg,
        None => checkpoint.last_msg_id,
    };
    let base = StateModel::new(checkpoint.lib, finalized);
    let start = StateModel {
        finalized_config: checkpoint.finalized_config,
        observed_config_tip: checkpoint.finalized_config,
        wallet: WalletModel { base: notes_from(checkpoint.channel_notes@), ..base.wallet },
        ..base
    };
    lemma_all_pending_keep_the_rest(start, checkpoint.pending_txs@, channel_id);
}

/// No two transactions of a list are the same or continue the same message.
pub open spec fn places_differ(txs: Seq<(TxHash, SignedOps)>, channel_id: ChannelId) -> bool {
    forall|i: int, j: int|
        #![trigger txs[i], txs[j]]
        0 <= i < j < txs.len() ==> {
            &&& txs[i].1.hash != txs[j].1.hash
            &&& continues(txs[i].1, channel_id) is Some ==> continues(txs[i].1, channel_id)
                != continues(txs[j].1, channel_id)
        }
}

/// What a list of pending transactions makes of an empty pending set.
spec fn holds_list(m: StateModel, txs: Seq<(TxHash, SignedOps)>, channel_id: ChannelId) -> bool {
    &&& forall|i: int|
        #![trigger txs[i]]
        0 <= i < txs.len() ==> {
            let tx = txs[i].1;
            &&& m.signed_of(tx.hash) == Some(tx)
            &&& m.is_tracked(tx.hash)
            &&& m.pending.contains_key(tx.hash) == (pending_entry(tx, channel_id) is Some)
            &&& pending_entry(tx, channel_id) matches Some(entry) ==> m.pending[tx.hash] == entry
        }
    &&& forall|hash: TxHash| #[trigger]
        m.is_tracked(hash) ==> exists|i: int| 0 <= i < txs.len() && (#[trigger] txs[i]).1.hash == hash
    &&& forall|parent: MsgId| #[trigger]
        m.by_parent.contains_key(parent) ==> exists|i: int|
            0 <= i < txs.len() && continues((#[trigger] txs[i]).1, channel_id) == Some(parent)
                && m.by_parent[parent] == txs[i].1.hash
    &&& forall|i: int|
        #![trigger txs[i]]
        0 <= i < txs.len() && continues(txs[i].1, channel_id) is Some ==> m.child(
            continues(txs[i].1, channel_id)->0,
        ) == Some(txs[i].1.hash)
}

proof fn lemma_list_is_held(m: StateModel, txs: Seq<(TxHash, SignedOps)>, channel_id: ChannelId)
    requires
        places_differ(txs, channel_id),
        m.pending == Map::<TxHash, PendingInscription>::empty(),
        m.other == Map::<TxHash, OtherModel>::empty(),
        m.by_parent == Map::<MsgId, TxHash>::empty(),
    ensures
        holds_list(with_all_pending(m, txs, channel_id), txs, channel_id),
    decreases txs.len(),
{
    if txs.len() > 0 {
        let front = txs.drop_last();
        let last = txs.len() - 1;
        let tx = txs[last].1;
        assert forall|i: int, j: int|
            #![trigger front[i], front[j]]
            0 <= i < j < front.len() implies {
            &&& front[i].1.hash != front[j].1.hash
            &&& continues(front[i].1, channel_id) is Some ==> continues(front[i].1, channel_id)
                != continues(front[j].1, channel_id)
        } by {
            assert(front[i] == txs[i] && front[j] == txs[j]);
        }
        lemma_list_is_held(m, front, channel_id);
        let before = with_all_pending(m, front, channel_id);
        let n = with_pending(before, tx, channel_id);
        assert(!before.is_tracked(tx.hash)) by {
            if before.is_tracked(tx.hash) {
                let i = choose|i: int|
                    0 <= i < front.len() && (#[trigger] front[i]).1.hash == tx.hash;
                assert(front[i] == txs[i]);
                assert(txs[i].1.hash != txs[last].1.hash);
            }
        }
        assert(refusal(before, tx, channel_id) is None) by {
            if let Some(parent) = continues(tx, channel_id) {
                if before.by_parent.contains_key(parent) {
                    let i = choose|i: int|
                        0 <= i < front.len() && continues((#[trigger] front[i]).1, channel_id)
                            == Some(parent) && before.by_parent[parent] == front[i].1.hash;
                    assert(front[i] == txs[i]);
                    assert(continues(txs[i].1, channel_id) != continues(txs[last].1, channel_id));
                }
            }
        }
        assert(n.child(continues(tx, channel_id)->0) == Some(tx.hash) || continues(
            tx,
            channel_id,
        ) is None);
        assert forall|i: int|
            #![trigger txs[i]]
            0 <= i < txs.len() implies {
            let t = txs[i].1;
            &&& n.signed_of(t.hash) == Some(t)
            &&& n.is_tracked(t.hash)
            &&& n.pending.contains_key(t.hash) == (pending_entry(t, channel_id) is Some)
            &&& pending_entry(t, channel_id) matches Some(entry) ==> n.pending[t.hash] == entry
        } by {
            if i < last {
                assert(front[i] == txs[i]);
                assert(txs[i].1.hash != txs[last].1.hash);
            }
        }
        assert forall|hash: TxHash| #[trigger] n.is_tracked(hash) implies exists|i: int|
            0 <= i < txs.len() && (#[trigger] txs[i]).1.hash == hash by {
            if hash == tx.hash {
                assert(txs[last].1.hash == hash);
            } else {
                assert(before.is_tracked(hash));
                let i = choose|i: int| 0 <= i < front.len() && (#[trigger] front[i]).1.hash == hash;
                assert(txs[i].1.hash == hash);
            }
        }
        assert forall|parent: MsgId| #[trigger] n.by_parent.contains_key(parent) implies exists|
            i: int,
        |
            0 <= i < txs.len() && continues((#[trigger] txs[i]).1, channel_id) == Some(parent)
                && n.by_parent[parent] == txs[i].1.hash by {
            if continues(tx, channel_id) == Some(parent) {
                assert(n.by_parent[parent] == txs[last].1.hash);
            } else {
                assert(before.by_parent.contains_key(parent));
                let i = choose|i: int|
                    0 <= i < front.len() && continues((#[trigger] front[i]).1, channel_id) == Some(
                        parent,
                    ) && before.by_parent[parent] == front[i].1.hash;
                assert(front[i] == txs[i]);
                assert(n.by_parent[parent] == txs[i].1.hash);
            }
        }
        assert forall|i: int|
            #![trigger txs[i]]
            0 <= i < txs.len() && continues(txs[i].1, channel_id) is Some implies n.child(
            continues(txs[i].1, channel_id)->0,
        ) == Some(txs[i].1.hash) by {
            if i < last {
                assert(front[i] == txs[i]);
                assert(continues(txs[i].1, channel_id) != continues(txs[last].1, channel_id));
            }
        }
    }
}

/// A state whose pending transactions are what their shape says.
pub open spec fn by_shape(m: StateModel, channel_id: ChannelId) -> bool {
    &&& forall|hash: TxHash| #[trigger]
        m.pending.contains_key(hash) ==> {
            let tx = m.pending[hash].signed_tx;
            &&& tx.hash == hash
            &&& pending_entry(tx, channel_id) == Some(
                PendingInscription { posted: false, ..m.pending[hash] },
            )
            &&& !m.other.contains_key(hash)
        }
    &&& forall|hash: TxHash| #[trigger]
        m.other.contains_key(hash) ==> {
            let tx = m.other[hash].signed_tx;
            &&& tx.hash == hash
            &&& pending_entry(tx, channel_id) is None
            &&& m.other[hash] == OtherModel::of(tx, channel_id)
        }
}

/// What was pending when a checkpoint was taken is pending once it is restored:
/// the same transactions, each in its place.
pub proof fn law_restore_brings_back_what_was_pending(
    m: StateModel,
    checkpoint: SequencerCheckpoint,
    channel_id: ChannelId,
    max_local: usize,
    last_msg_id: MsgId,
    lib_slot: Slot,
)
    requires
        checkpoint@.captures(m, last_msg_id, lib_slot),
        m.wf(),
        linked(m),
        by_shape(m, channel_id),
    ensures
        ({
            let n = restored_state(checkpoint, channel_id, max_local);
            &&& n.held() == m.held()
            &&& n.pending.dom() == m.pending.dom()
            &&& forall|hash: TxHash| #[trigger]
                m.is_tracked(hash) ==> n.signed_of(hash) == m.signed_of(hash) && n.parent_of(hash)
                    == m.parent_of(hash)
        }),
{
    let txs = checkpoint.pending_txs@;
    let order = choose|order: Seq<TxHash>|
        {
            &&& #[trigger] order.no_duplicates()
            &&& order.to_set() == m.pending.dom()
            &&& txs == order.map_values(m.inscription_pair()) + m.other_order.map_values(
                m.other_pair(),
            )
        };
    let k = order.len();
    assert forall|i: int| #![trigger txs[i]] 0 <= i < txs.len() implies {
        let hash = if i < k {
            order[i]
        } else {
            m.other_order[i - k]
        };
        &&& txs[i].1.hash == hash
        &&& m.is_tracked(hash)
        &&& m.signed_of(hash) == Some(txs[i].1)
        &&& continues(txs[i].1, channel_id) == m.parent_of(hash)
        &&& (pending_entry(txs[i].1, channel_id) is Some) == m.pending.contains_key(hash)
    } by {
        if i < k {
            assert(order.to_set().contains(order[i]));
        } else {
            assert(m.other_order.to_set().contains(m.other_order[i - k]));
        }
    }
    assert forall|i: int, j: int|
        #![trigger txs[i], txs[j]]
        0 <= i < j < txs.len() implies {
        &&& txs[i].1.hash != txs[j].1.hash
        &&& continues(txs[i].1, channel_id) is Some ==> continues(txs[i].1, channel_id)
            != continues(txs[j].1, channel_id)
    } by {
        let a = txs[i].1.hash;
        let b = txs[j].1.hash;
        if j < k {
            assert(order[i] != order[j]);
        } else if i >= k {
            assert(m.other_order[i - k] != m.other_order[j - k]);
        } else {
            assert(order.to_set().contains(a));
            assert(m.other_order.to_set().contains(b));
            assert(m.pending.contains_key(a) && m.other.contains_key(b));
        }
        assert(m.is_tracked(a) && m.is_tracked(b));
    }
    let finalized = match pending_root(txs, channel_id) {
        Some(msg) => msg,
        None => checkpoint.last_msg_id,
    };
    let base = StateModel::new(checkpoint.lib, finalized);
    let start = StateModel {
        finalized_config: checkpoint.finalized_config,
        observed_config_tip: checkpoint.finalized_config,
        wallet: WalletModel { base: notes_from(checkpoint.channel_notes@), ..base.wallet },
        ..base
    };
    lemma_list_is_held(start, txs, channel_id);
    let full = with_all_pending(start, txs, channel_id);
    let n = restored_state(checkpoint, channel_id, max_local);
    assert forall|hash: TxHash| m.is_tracked(hash) implies exists|i: int|
        0 <= i < txs.len() && (#[trigger] txs[i]).1.hash == hash by {
        if m.pending.contains_key(hash) {
            assert(order.to_set().contains(hash));
            let i = order.index_of(hash);
            assert(txs[i].1.hash == hash);
        } else {
            assert(m.other_order.to_set().contains(hash));
            let i = m.other_order.index_of(hash);
            assert(txs[k + i].1.hash == hash);
        }
    }
    assert forall|hash: TxHash| n.held().contains(hash) == m.held().contains(hash) by {
        if n.held().contains(hash) {
            assert(full.is_tracked(hash));
            let i = choose|i: int| 0 <= i < txs.len() && (#[trigger] txs[i]).1.hash == hash;
            assert(m.is_tracked(txs[i].1.hash));
        }
        if m.held().contains(hash) {
            assert(m.is_tracked(hash));
            let i = choose|i: int| 0 <= i < txs.len() && (#[trigger] txs[i]).1.hash == hash;
            assert(full.is_tracked(txs[i].1.hash));
        }
    }
    assert(n.held() =~= m.held());
    assert forall|hash: TxHash| n.pending.dom().contains(hash) == m.pending.dom().contains(hash) by {
        if n.held().contains(hash) {
            assert(m.is_tracked(hash));
            let i = choose|i: int| 0 <= i < txs.len() && (#[trigger] txs[i]).1.hash == hash;
            assert(full.pending.contains_key(hash) == (pending_entry(
                txs[i].1,
                channel_id,
            ) is Some));
        } else {
            assert(!m.held().contains(hash));
        }
    }
    assert(n.pending.dom() =~= m.pending.dom());
    lemma_restored_others(start, txs, channel_id);
    assert forall|hash: TxHash| #[trigger] m.is_tracked(hash) implies n.signed_of(hash)
        == m.signed_of(hash) && n.parent_of(hash) == m.parent_of(hash) by {
        let i = choose|i: int| 0 <= i < txs.len() && (#[trigger] txs[i]).1.hash == hash;
        assert(full.signed_of(hash) == Some(txs[i].1));
    }
}

/// A restored opaque transaction is what its bytes say.
proof fn lemma_restored_others(m: StateModel, txs: Seq<(TxHash, SignedOps)>, channel_id: ChannelId)
    requires
        m.other == Map::<TxHash, OtherModel>::empty(),
    ensures
        forall|hash: TxHash| #[trigger]
            with_all_pending(m, txs, channel_id).other.contains_key(hash) ==> with_all_pending(
                m,
                txs,
                channel_id,
            ).other[hash] == OtherModel::of(
                with_all_pending(m, txs, channel_id).other[hash].signed_tx,
                channel_id,
            ),
    decreases txs.len(),
{
    if txs.len() > 0 {
        lemma_restored_others(m, txs.drop_last(), channel_id);
    }
}

} // verus!
