//! Transaction state tracker.
//!
//! Holds the pending transactions of the channel, the blocks above the last
//! irreversible one (LIB) with their channel content, and the channel's notes.

use std::sync::Arc;

use vstd::prelude::*;
use vstd::string::StringExecFns;

use crate::collections::{
    lemma_filter_outside_empty, lemma_filter_outside_insert, other_than, outside, KeyMap, KeySet,
};
use crate::ids::{ChannelId, Ed25519PublicKey, HeaderId, Key, MsgId, TxHash};
use crate::items::Items;
use crate::mantle::{Inputs, Inscription, Op, Outputs, SignedOps};
use crate::safe_set::SafeSet;
use crate::sequencer::channel_tx::{
    channel_configs, channel_inscriptions, is_pure_config, BlockChannelTx,
};
use crate::sequencer::channel_wallet::{ChannelWallet, NoteOp};
use crate::sequencer::state_model::{
    branch, chain_down, first_signer, grounded, kept_blocks, last_config_tip, last_tip, minus,
    not_safe, hash_not_in,
    OtherModel, PendingBundle, PendingInscription, StateModel, StoredModel,
};
use crate::sequencer::types::{
    AtomicWithdrawInfo, Error, InscriptionInfo, PendingTx, PinDepositInfo, TxSource, WithdrawInfo,
};
use crate::text::{hex_chars, hex_encode};

pub mod bundles;
pub mod lineage;
pub mod sheds;

verus! {

/// The author of a transaction's first inscription, if it carries one.
fn inscription_signer(tx: &SignedOps) -> (res: Option<Ed25519PublicKey>)
    ensures
        res == first_signer(tx.ops@),
{
    let ops: &Vec<Op> = &tx.ops;
    assert(ops@.skip(0) =~= ops@);
    let mut i: usize = 0;
    while i < ops.len()
        invariant
            i <= ops@.len(),
            ops@ == tx.ops@,
            first_signer(ops@) == first_signer(ops@.skip(i as int)),
        decreases ops@.len() - i,
    {
        assert(ops@.skip(i as int).drop_first() =~= ops@.skip(i + 1));
        assert(ops@.skip(i as int)[0] == ops@[i as int]);
        if let Op::ChannelInscribe(inscribe) = &ops[i] {
            return Some(inscribe.signer);
        }
        i = i + 1;
    }
    None
}

/// Where an opaque transaction sits in the two lineages.
#[derive(Clone, Copy, Debug, PartialEq, Eq)]
pub struct OpaqueLineage {
    /// Parent of the first inscription: where it attaches to the message
    /// lineage.
    pub first_parent: Option<MsgId>,
    /// Id of the last inscription: the message tip it leaves behind.
    pub last_msg: Option<MsgId>,
    /// Parent of the first config: where it attaches to the config lineage.
    pub config_parent: Option<MsgId>,
    /// Id of the last config: the config tip it leaves behind.
    pub last_config: Option<MsgId>,
}

/// Reads where an opaque transaction sits in the two lineages.
pub fn opaque_lineage(tx: &SignedOps, channel_id: ChannelId) -> (res: OpaqueLineage)
    ensures
        res.first_parent == OtherModel::of(*tx, channel_id).first_parent(),
        res.last_msg == OtherModel::of(*tx, channel_id).last_msg(),
        res.config_parent == OtherModel::of(*tx, channel_id).config_parent(),
        res.last_config == OtherModel::of(*tx, channel_id).last_config(),
{
    let infos = channel_inscriptions(tx, channel_id);
    let config_infos = channel_configs(tx, channel_id);
    OpaqueLineage {
        first_parent: first_parent_of(infos.as_slice()),
        last_msg: last_msg_of(infos.as_slice()),
        config_parent: first_parent_of(config_infos.as_slice()),
        last_config: last_msg_of(config_infos.as_slice()),
    }
}

fn first_parent_of(infos: &[InscriptionInfo]) -> (res: Option<MsgId>)
    ensures
        res == if infos@.len() > 0 {
            Some(infos@[0].parent_msg)
        } else {
            None
        },
{
    if infos.len() > 0 {
        Some(infos[0].parent_msg)
    } else {
        None
    }
}

fn last_msg_of(infos: &[InscriptionInfo]) -> (res: Option<MsgId>)
    ensures
        res == if infos@.len() > 0 {
            Some(infos@.last().this_msg)
        } else {
            None
        },
{
    if infos.len() > 0 {
        Some(infos[infos.len() - 1].this_msg)
    } else {
        None
    }
}

/// A local submission chained on a channel position that already has a pending
/// continuation.
#[derive(Clone, Copy, Debug, PartialEq, Eq)]
pub struct ParentTaken {
    pub parent: MsgId,
    pub by: TxHash,
}

impl ParentTaken {
    /// The text of the refusal.
    pub open spec fn text(self) -> Seq<char> {
        "parent "@ + hex_chars(self.parent.0.bytes()) + " already has pending continuation "@
            + hex_chars(self.by.0.bytes())
    }

    /// A message for humans.
    pub fn message(&self) -> (res: String)
        ensures
            res@ == self.text(),
    {
        let parent = hex_encode(&self.parent.0.to_bytes());
        let by = hex_encode(&self.by.0.to_bytes());
        let text = "parent ".to_string().concat(parent.as_str()).concat(
            " already has pending continuation ",
        ).concat(by.as_str());
        assert(text@ =~= self.text());
        text
    }

    /// The refusal as a sequencer error.
    pub fn into_error(self) -> (res: Error)
        ensures
            res matches Error::ChannelStateChanged(text) && text@ == self.text(),
    {
        Error::ChannelStateChanged(self.message())
    }
}

impl PendingInscription {
    /// The lineage entry of a pending inscription.
    pub fn info(&self) -> (res: InscriptionInfo)
        ensures
            res == self.entry(),
    {
        InscriptionInfo {
            tx_hash: self.tx_hash,
            parent_msg: self.parent_msg,
            this_msg: self.this_msg,
            payload: self.payload.clone(),
            signer: inscription_signer(&self.signed_tx),
        }
    }

    /// The reportable form of a pending inscription or bundle.
    pub fn reported(&self) -> (res: PendingTx)
        ensures
            res == self.report(),
    {
        let info = self.info();
        match &self.bundle {
            PendingBundle::Withdraw { withdraws, outputs } => PendingTx::AtomicWithdraw(
                AtomicWithdrawInfo {
                    tx_hash: self.tx_hash,
                    inscription: info,
                    withdraws: withdraws.clone(),
                    outputs: outputs.clone(),
                },
            ),
            PendingBundle::PinDeposit(consumed_notes) => PendingTx::PinDeposit(
                PinDepositInfo {
                    tx_hash: self.tx_hash,
                    inscription: info,
                    consumed_notes: consumed_notes.clone(),
                },
            ),
            PendingBundle::Plain => PendingTx::Inscription(info),
        }
    }
}

/// An opaque pending transaction. Its inscriptions anchor it in the message
/// lineage, its configs in the config lineage; one anchored in neither is
/// always mineable and never shed.
struct PendingOtherTx {
    signed_tx: SignedOps,
    infos: Vec<InscriptionInfo>,
    config_infos: Vec<InscriptionInfo>,
    pure_config: bool,
}

impl View for PendingOtherTx {
    type V = OtherModel;

    closed spec fn view(&self) -> OtherModel {
        OtherModel {
            signed_tx: self.signed_tx,
            infos: self.infos@,
            config_infos: self.config_infos@,
            pure_config: self.pure_config,
        }
    }
}

impl PendingOtherTx {
    fn first_parent(&self) -> (res: Option<MsgId>)
        ensures
            res == self@.first_parent(),
    {
        first_parent_of(self.infos.as_slice())
    }

    fn last_msg(&self) -> (res: Option<MsgId>)
        ensures
            res == self@.last_msg(),
    {
        last_msg_of(self.infos.as_slice())
    }

    fn config_parent(&self) -> (res: Option<MsgId>)
        ensures
            res == self@.config_parent(),
    {
        first_parent_of(self.config_infos.as_slice())
    }

    fn last_config(&self) -> (res: Option<MsgId>)
        ensures
            res == self@.last_config(),
    {
        last_msg_of(self.config_infos.as_slice())
    }
}

/// One stored block's channel content.
struct StoredBlock {
    channel_txs: Arc<Vec<BlockChannelTx>>,
    signed_txs: Arc<Vec<SignedOps>>,
}

impl View for StoredBlock {
    type V = StoredModel;

    closed spec fn view(&self) -> StoredModel {
        StoredModel { channel_txs: self.channel_txs@, signed_txs: self.signed_txs@ }
    }
}

/// Transaction state tracker.
pub struct TxState {
    pending: KeyMap<TxHash, PendingInscription>,
    /// The one pending transaction chaining from a message, plain or opaque: a
    /// local submission on a taken parent is refused, a mined entry displaces
    /// the one there.
    pending_by_parent: KeyMap<MsgId, TxHash>,
    displaced: Vec<PendingTx>,
    displaced_other: Vec<SignedOps>,
    /// Opaque pending transactions in submission order.
    pending_other: KeyMap<TxHash, PendingOtherTx>,
    local_txs: Vec<TxHash>,
    block_states: KeyMap<HeaderId, SafeSet>,
    parent_map: KeyMap<HeaderId, HeaderId>,
    current_lib: HeaderId,
    block_txs: KeyMap<HeaderId, StoredBlock>,
    finalized_msg: MsgId,
    finalized_parent_msg: Option<MsgId>,
    finalized_config: MsgId,
    observed_config_tip: MsgId,
    wallet: ChannelWallet,
}

spec fn other_view() -> spec_fn(PendingOtherTx) -> OtherModel {
    |other: PendingOtherTx| other@
}

spec fn safe_view() -> spec_fn(SafeSet) -> Set<TxHash> {
    |set: SafeSet| set@
}

spec fn stored_view() -> spec_fn(StoredBlock) -> StoredModel {
    |block: StoredBlock| block@
}

impl View for TxState {
    type V = StateModel;

    closed spec fn view(&self) -> StateModel {
        StateModel {
            pending: self.pending@,
            by_parent: self.pending_by_parent@,
            displaced: self.displaced@,
            displaced_other: self.displaced_other@,
            other: self.pending_other@.map_values(other_view()),
            other_order: self.pending_other.order(),
            local: self.local_txs@,
            safe: self.block_states@.map_values(safe_view()),
            parents: self.parent_map@,
            lib: self.current_lib,
            stored: self.block_txs@.map_values(stored_view()),
            stored_order: self.block_txs.order(),
            finalized_msg: self.finalized_msg,
            finalized_parent_msg: self.finalized_parent_msg,
            finalized_config: self.finalized_config,
            observed_config_tip: self.observed_config_tip,
            wallet: self.wallet@,
        }
    }
}

/// Whether a list holds a hash.
fn holds(list: &[TxHash], hash: &TxHash) -> (res: bool)
    ensures
        res == list@.contains(*hash),
{
    let mut i: usize = 0;
    while i < list.len()
        invariant
            i <= list@.len(),
            forall|j: int| 0 <= j < i ==> list@[j] != *hash,
        decreases list@.len() - i,
    {
        if list[i].same(hash) {
            assert(list@.contains(*hash));
            return true;
        }
        i = i + 1;
    }
    false
}

impl TxState {
    /// What every state has: finitely many entries.
    proof fn lemma_finite(&self)
        ensures
            self@.pending.dom().finite(),
            self@.by_parent.dom().finite(),
            self@.other.dom().finite(),
            self@.safe.dom().finite(),
            self@.parents.dom().finite(),
            self@.stored.dom().finite(),
            self@.other.dom() == self@.other_order.to_set(),
            self@.stored.dom() == self@.stored_order.to_set(),
    {
        self.pending.lemma_finite();
        self.pending_by_parent.lemma_finite();
        self.pending_other.lemma_finite();
        self.block_states.lemma_finite();
        self.parent_map.lemma_finite();
        self.block_txs.lemma_finite();
        assert(self@.other.dom() =~= self.pending_other@.dom());
        assert(self@.safe.dom() =~= self.block_states@.dom());
        assert(self@.stored.dom() =~= self.block_txs@.dom());
    }

    /// A tracker that has seen nothing above `lib`.
    pub fn new(lib: HeaderId, finalized_msg: MsgId) -> (res: TxState)
        ensures
            res@ == StateModel::new(lib, finalized_msg),
    {
        let mut block_states: KeyMap<HeaderId, SafeSet> = KeyMap::new();
        block_states.insert(lib, SafeSet::new());
        let res = TxState {
            pending: KeyMap::new(),
            pending_by_parent: KeyMap::new(),
            displaced: Vec::new(),
            displaced_other: Vec::new(),
            pending_other: KeyMap::new(),
            local_txs: Vec::new(),
            block_states,
            parent_map: KeyMap::new(),
            current_lib: lib,
            block_txs: KeyMap::new(),
            finalized_msg,
            finalized_parent_msg: None,
            finalized_config: MsgId::root(),
            observed_config_tip: MsgId::root(),
            wallet: ChannelWallet::new(),
        };
        assert(res@ =~= StateModel::new(lib, finalized_msg));
        res
    }

    /// Update the finalized channel tip from backfilled finalized history.
    /// `parent` is the entry's lineage-parent, where it is known.
    pub fn set_finalized_msg(&mut self, msg: MsgId, parent: Option<MsgId>)
        ensures
            final(self)@ == (StateModel {
                finalized_msg: msg,
                finalized_parent_msg: parent,
                ..old(self)@
            }),
    {
        self.finalized_msg = msg;
        self.finalized_parent_msg = parent;
    }

    /// The finalized config-lineage tip (the newest config at or below LIB).
    pub fn finalized_config(&self) -> (res: MsgId)
        ensures
            res == self@.finalized_config,
    {
        self.finalized_config
    }

    /// Restore or refresh the finalized config-lineage tip. A config that is
    /// final has been observed, so it also becomes the observed one: the
    /// config-driven shed must not take it for a fresh landing.
    pub fn set_finalized_config(&mut self, config: MsgId)
        ensures
            final(self)@ == (StateModel {
                finalized_config: config,
                observed_config_tip: config,
                ..old(self)@
            }),
    {
        self.finalized_config = config;
        self.observed_config_tip = config;
    }

    /// The pending transaction chaining from `parent`, if any.
    fn pending_child(&self, parent: MsgId) -> (res: Option<TxHash>)
        ensures
            res == self@.child(parent),
    {
        match self.pending_by_parent.get(&parent) {
            Some(hash) => Some(*hash),
            None => None,
        }
    }

    fn track_local_tx(&mut self, tx_hash: TxHash)
        ensures
            final(self)@ == old(self)@.track_local(tx_hash),
    {
        if !holds(self.local_txs.as_slice(), &tx_hash) {
            self.local_txs.push(tx_hash);
        }
    }

    fn insert_pending(
        &mut self,
        signed_tx: SignedOps,
        parent_msg: MsgId,
        this_msg: MsgId,
        payload: Inscription,
        bundle: PendingBundle,
    ) -> (res: Result<(), ParentTaken>)
        ensures
            match old(self)@.taken(parent_msg, signed_tx.hash) {
                Some(by) => res == Err::<(), ParentTaken>(ParentTaken { parent: parent_msg, by })
                    && final(self)@ == old(self)@,
                None => res is Ok && final(self)@ == old(self)@.track_local(
                    signed_tx.hash,
                ).put_pending(
                    (PendingInscription {
                        tx_hash: signed_tx.hash,
                        signed_tx,
                        parent_msg,
                        this_msg,
                        payload,
                        bundle,
                        posted: false,
                    }),
                ),
            },
    {
        let tx_hash = signed_tx.hash;
        if let Some(by) = self.pending_child(parent_msg) {
            if !by.same(&tx_hash) {
                return Err(ParentTaken { parent: parent_msg, by });
            }
        }
        self.track_local_tx(tx_hash);
        self.pending_by_parent.insert(parent_msg, tx_hash);
        self.pending.insert(
            tx_hash,
            PendingInscription {
                tx_hash,
                signed_tx,
                parent_msg,
                this_msg,
                payload,
                bundle,
                posted: false,
            },
        );
        Ok(())
    }

    /// Submit an inscription transaction for tracking. Refused when its parent
    /// already has another pending continuation.
    pub fn submit_inscription(
        &mut self,
        signed_tx: SignedOps,
        parent_msg: MsgId,
        this_msg: MsgId,
        payload: Inscription,
    ) -> (res: Result<(), ParentTaken>)
        ensures
            match old(self)@.taken(parent_msg, signed_tx.hash) {
                Some(by) => res == Err::<(), ParentTaken>(ParentTaken { parent: parent_msg, by })
                    && final(self)@ == old(self)@,
                None => res is Ok && final(self)@ == old(self)@.track_local(
                    signed_tx.hash,
                ).put_pending(
                    (PendingInscription {
                        tx_hash: signed_tx.hash,
                        signed_tx,
                        parent_msg,
                        this_msg,
                        payload,
                        bundle: PendingBundle::Plain,
                        posted: false,
                    }),
                ),
            },
    {
        self.insert_pending(signed_tx, parent_msg, this_msg, payload, PendingBundle::Plain)
    }

    /// Submit an inscription with withdraws for tracking. `withdraws` mirrors
    /// the withdraw ops in the bundle, in tx order; `outputs` are the recipient
    /// notes it releases.
    pub fn submit_atomic_withdraw(
        &mut self,
        signed_tx: SignedOps,
        parent_msg: MsgId,
        this_msg: MsgId,
        payload: Inscription,
        withdraws: Vec<WithdrawInfo>,
        outputs: Outputs,
    ) -> (res: Result<(), ParentTaken>)
        ensures
            match old(self)@.taken(parent_msg, signed_tx.hash) {
                Some(by) => res == Err::<(), ParentTaken>(ParentTaken { parent: parent_msg, by })
                    && final(self)@ == old(self)@,
                None => res is Ok && final(self)@ == old(self)@.track_local(
                    signed_tx.hash,
                ).put_pending(
                    (PendingInscription {
                        tx_hash: signed_tx.hash,
                        signed_tx,
                        parent_msg,
                        this_msg,
                        payload,
                        bundle: (PendingBundle::Withdraw {
                            withdraws: Items::of(withdraws@),
                            outputs,
                        }),
                        posted: false,
                    }),
                ),
            },
    {
        self.insert_pending(
            signed_tx,
            parent_msg,
            this_msg,
            payload,
            PendingBundle::Withdraw { withdraws: Items::from_vec(withdraws), outputs },
        )
    }

    /// Submit an inscription with a transfer that pins a deposit.
    /// `consumed_notes` mirrors the bundled transfer's inputs.
    pub fn submit_pin_deposit(
        &mut self,
        signed_tx: SignedOps,
        parent_msg: MsgId,
        this_msg: MsgId,
        payload: Inscription,
        consumed_notes: Inputs,
    ) -> (res: Result<(), ParentTaken>)
        ensures
            match old(self)@.taken(parent_msg, signed_tx.hash) {
                Some(by) => res == Err::<(), ParentTaken>(ParentTaken { parent: parent_msg, by })
                    && final(self)@ == old(self)@,
                None => res is Ok && final(self)@ == old(self)@.track_local(
                    signed_tx.hash,
                ).put_pending(
                    (PendingInscription {
                        tx_hash: signed_tx.hash,
                        signed_tx,
                        parent_msg,
                        this_msg,
                        payload,
                        bundle: PendingBundle::PinDeposit(consumed_notes),
                        posted: false,
                    }),
                ),
            },
    {
        self.insert_pending(
            signed_tx,
            parent_msg,
            this_msg,
            payload,
            PendingBundle::PinDeposit(consumed_notes),
        )
    }

    /// The message a pending transaction leaves as the channel tip: a plain
    /// entry's own id, an opaque transaction's last inscription.
    fn pending_tip_of(&self, tx_hash: TxHash) -> (res: Option<MsgId>)
        ensures
            res == self@.tip_of(tx_hash),
    {
        if let Some(pending) = self.pending.get(&tx_hash) {
            return Some(pending.this_msg);
        }
        match self.pending_other.get(&tx_hash) {
            Some(other) => other.last_msg(),
            None => None,
        }
    }

    /// The reportable form of a pending inscription or bundle.
    fn pending_tx_of(&self, tx_hash: &TxHash) -> (res: Option<PendingTx>)
        ensures
            res == if self@.pending.contains_key(*tx_hash) {
                Some(self@.pending[*tx_hash].report())
            } else {
                None
            },
    {
        match self.pending.get(tx_hash) {
            Some(pending) => Some(pending.reported()),
            None => None,
        }
    }

    /// Whether the transaction is pending, plain or opaque.
    pub fn is_tracked(&self, tx_hash: &TxHash) -> (res: bool)
        ensures
            res == self@.is_tracked(*tx_hash),
    {
        self.pending.contains_key(tx_hash) || self.pending_other.contains_key(tx_hash)
    }

    /// Remove a pending transaction and return it.
    pub fn remove_pending(&mut self, tx_hash: &TxHash) -> (res: Option<SignedOps>)
        ensures
            res == old(self)@.signed_of(*tx_hash),
            final(self)@ == old(self)@.without(*tx_hash),
    {
        let parent: Option<MsgId>;
        let signed_tx: SignedOps;
        match self.pending.remove(tx_hash) {
            Some(removed) => {
                parent = Some(removed.parent_msg);
                signed_tx = removed.signed_tx;
            },
            None => {
                assert(self.pending@ =~= old(self).pending@);
                match self.pending_other.remove(tx_hash) {
                    Some(removed) => {
                        parent = removed.first_parent();
                        signed_tx = removed.signed_tx;
                        assert(self@.other =~= old(self)@.other.remove(*tx_hash));
                    },
                    None => {
                        proof {
                            assert(self@.other =~= old(self)@.other);
                            old(self).lemma_finite();
                            assert(!old(self)@.other_order.contains(*tx_hash)) by {
                                assert(!old(self)@.other.contains_key(*tx_hash));
                            }
                            crate::collections::lemma_filter_out_none(
                                old(self)@.other_order,
                                *tx_hash,
                            );
                        }
                        return None;
                    },
                }
            },
        }
        if let Some(parent) = parent {
            if let Some(child) = self.pending_child(parent) {
                if child.same(tx_hash) {
                    let _ = self.pending_by_parent.remove(&parent);
                }
            }
        }
        Some(signed_tx)
    }

    /// Remove `head` and everything pending chained after it, queuing them for
    /// orphan reporting.
    fn displace_chain(&mut self, head: TxHash)
        ensures
            final(self)@ == old(self)@.displace(head),
    {
        let mut next: Option<TxHash> = Some(head);
        while next.is_some()
            invariant
                old(self)@.displace(head) == match next {
                    Some(hash) => self@.displace(hash),
                    None => self@,
                },
            decreases
                    (match next {
                        Some(_) => 1 + self@.pending.len() + self@.other.len(),
                        None => 0,
                    }),
        {
            let tx_hash: TxHash = next.unwrap();
            proof {
                self.lemma_finite();
            }
            let ghost before = self@;
            next = match self.pending_tip_of(tx_hash) {
                Some(tip) => self.pending_child(tip),
                None => None,
            };
            match self.pending_tx_of(&tx_hash) {
                Some(entry) => {
                    self.displaced.push(entry);
                    let _ = self.remove_pending(&tx_hash);
                    assert(self@ =~= (StateModel {
                        displaced: before.displaced.push(before.pending[tx_hash].report()),
                        ..before.without(tx_hash)
                    }));
                },
                None => {
                    if let Some(signed_tx) = self.remove_pending(&tx_hash) {
                        self.displaced_other.push(signed_tx);
                        assert(self@ =~= (StateModel {
                            displaced_other: before.displaced_other.push(
                                before.other[tx_hash].signed_tx,
                            ),
                            ..before.without(tx_hash)
                        }));
                    }
                },
            }
        }
    }

    /// Track an inscription observed on the channel, ours or another
    /// sequencer's. Nothing happens when it is tracked already. A pending
    /// continuation on the same parent lost the position to this mined entry:
    /// it and everything chained on it are displaced. Observed entries start
    /// posted, so they never count as first-time publishes.
    pub fn observe_channel_inscription(
        &mut self,
        signed_tx: SignedOps,
        parent_msg: MsgId,
        this_msg: MsgId,
        payload: Inscription,
        bundle: PendingBundle,
    )
        ensures
            final(self)@ == old(self)@.observe_inscription(
                (PendingInscription {
                    tx_hash: signed_tx.hash,
                    signed_tx,
                    parent_msg,
                    this_msg,
                    payload,
                    bundle,
                    posted: true,
                }),
            ),
    {
        let tx_hash = signed_tx.hash;
        if self.is_tracked(&tx_hash) {
            return;
        }
        if let Some(sibling) = self.pending_child(parent_msg) {
            self.displace_chain(sibling);
        }
        self.pending_by_parent.insert(parent_msg, tx_hash);
        self.pending.insert(
            tx_hash,
            PendingInscription {
                tx_hash,
                signed_tx,
                parent_msg,
                this_msg,
                payload,
                bundle,
                posted: true,
            },
        );
    }

    fn insert_other(&mut self, signed_tx: SignedOps, channel_id: ChannelId)
        ensures
            final(self)@ == old(self)@.put_other(signed_tx, channel_id),
    {
        let tx_hash = signed_tx.hash;
        let infos = channel_inscriptions(&signed_tx, channel_id);
        let config_infos = channel_configs(&signed_tx, channel_id);
        let pure_config = is_pure_config(&signed_tx, channel_id);
        if let Some(parent) = first_parent_of(infos.as_slice()) {
            self.pending_by_parent.insert(parent, tx_hash);
        }
        let _ = self.pending_other.remove(&tx_hash);
        self.pending_other.insert(
            tx_hash,
            PendingOtherTx { signed_tx, infos, config_infos, pure_config },
        );
        assert(self@ =~= old(self)@.put_other(signed_tx, channel_id));
    }

    /// Submit a transaction of any shape for tracking. Returns the channel tip
    /// it leaves behind once mined, if it moves the tip. Refused when its
    /// parent already has another pending continuation.
    pub fn submit_other(&mut self, signed_tx: SignedOps, channel_id: ChannelId) -> (res: Result<
        Option<MsgId>,
        ParentTaken,
    >)
        ensures
            ({
                let entry = OtherModel::of(signed_tx, channel_id);
                let taken = match entry.first_parent() {
                    Some(parent) => old(self)@.taken(parent, signed_tx.hash),
                    None => None,
                };
                match taken {
                    Some(by) => res == Err::<Option<MsgId>, ParentTaken>(
                        ParentTaken { parent: entry.first_parent().unwrap(), by },
                    ) && final(self)@ == old(self)@,
                    None => res == Ok::<Option<MsgId>, ParentTaken>(entry.last_msg())
                        && final(self)@ == old(self)@.track_local(signed_tx.hash).put_other(
                        signed_tx,
                        channel_id,
                    ),
                }
            }),
    {
        let tx_hash = signed_tx.hash;
        let lineage = opaque_lineage(&signed_tx, channel_id);
        if let Some(parent) = lineage.first_parent {
            if let Some(by) = self.pending_child(parent) {
                if !by.same(&tx_hash) {
                    return Err(ParentTaken { parent, by });
                }
            }
        }
        self.track_local_tx(tx_hash);
        self.insert_other(signed_tx, channel_id);
        Ok(lineage.last_msg)
    }

    /// Track an opaque transaction observed on the channel: nothing happens
    /// when it is tracked already, and a pending continuation on its message
    /// parent is displaced.
    pub fn observe_other_tx(&mut self, signed_tx: SignedOps, channel_id: ChannelId)
        ensures
            final(self)@ == old(self)@.observe_other(signed_tx, channel_id),
    {
        let tx_hash = signed_tx.hash;
        if self.is_tracked(&tx_hash) {
            return;
        }
        let lineage = opaque_lineage(&signed_tx, channel_id);
        if let Some(parent) = lineage.first_parent {
            if let Some(sibling) = self.pending_child(parent) {
                self.displace_chain(sibling);
            }
        }
        self.insert_other(signed_tx, channel_id);
    }

    /// Forget the oldest locally accepted transactions beyond `max_tracked`.
    pub fn prune_local_tx_tracking(&mut self, max_tracked: usize)
        ensures
            final(self)@ == (StateModel {
                local: if old(self)@.local.len() > max_tracked {
                    old(self)@.local.skip(old(self)@.local.len() - max_tracked)
                } else {
                    old(self)@.local
                },
                ..old(self)@
            }),
    {
        let n: usize = self.local_txs.len();
        if n > max_tracked {
            let mut kept: Vec<TxHash> = Vec::new();
            let mut i: usize = n - max_tracked;
            while i < n
                invariant
                    max_tracked < n,
                    n - max_tracked <= i <= n,
                    n == self.local_txs@.len(),
                    kept@ == self.local_txs@.subrange(n - max_tracked, i as int),
                decreases n - i,
            {
                kept.push(self.local_txs[i]);
                assert(kept@ =~= self.local_txs@.subrange(n - max_tracked, i + 1));
                i = i + 1;
            }
            assert(kept@ =~= self.local_txs@.skip(n - max_tracked));
            self.local_txs = kept;
        }
    }

    /// Forget that a transaction was accepted locally.
    pub fn remove_local_tx(&mut self, tx_hash: &TxHash)
        ensures
            final(self)@ == (StateModel {
                local: old(self)@.local.filter(other_than(*tx_hash)),
                ..old(self)@
            }),
    {
        let mut kept: Vec<TxHash> = Vec::new();
        let ghost all = self.local_txs@;
        proof {
            reveal(Seq::filter);
            assert(all.take(0).filter(other_than(*tx_hash)) =~= Seq::empty());
        }
        let mut i: usize = 0;
        while i < self.local_txs.len()
            invariant
                i <= self.local_txs@.len(),
                all == self.local_txs@,
                kept@ == all.take(i as int).filter(other_than(*tx_hash)),
            decreases all.len() - i,
        {
            proof {
                assert(all.take(i + 1) =~= all.take(i as int).push(all[i as int]));
                all.take(i as int).lemma_filter_push(all[i as int], other_than(*tx_hash));
            }
            if !self.local_txs[i].same(tx_hash) {
                kept.push(self.local_txs[i]);
            }
            i = i + 1;
        }
        assert(all.take(i as int) =~= all);
        self.local_txs = kept;
    }

    /// The blocks from `tip` down to LIB, or down to where the parent is not
    /// known.
    fn branch_of(&self, tip: HeaderId) -> (res: Vec<HeaderId>)
        ensures
            res@ == self@.branch(tip),
            res@.len() > 0,
    {
        let mut blocks: Vec<HeaderId> = Vec::new();
        let mut current: HeaderId = tip;
        let mut fuel: usize = self.parent_map.len();
        loop
            invariant_except_break
                self@.branch(tip) == blocks@ + branch(
                    self@.parents,
                    self@.lib,
                    current,
                    fuel as nat,
                ),
            ensures
                blocks@ == self@.branch(tip),
                blocks@.len() > 0,
            decreases fuel,
        {
            let ghost before = blocks@;
            blocks.push(current);
            assert(blocks@ =~= before + seq![current]);
            if current.same(&self.current_lib) || fuel == 0 {
                break;
            }
            match self.parent_map.get(&current) {
                Some(parent) => {
                    proof {
                        let rest = branch(self@.parents, self@.lib, *parent, (fuel - 1) as nat);
                        assert(before + (seq![current] + rest) =~= blocks@ + rest);
                    }
                    current = *parent;
                },
                None => {
                    break;
                },
            }
            fuel = fuel - 1;
        }
        blocks
    }

    /// The entry a block leaves the channel at.
    fn block_tip_entry(&self, block: &HeaderId) -> (res: Option<InscriptionInfo>)
        ensures
            res == last_tip(self@.txs_at(*block)),
    {
        match self.block_txs.get(block) {
            Some(stored) => {
                let txs: &Vec<BlockChannelTx> = &stored.channel_txs;
                assert(txs@ == self@.txs_at(*block));
                assert(txs@.take(txs@.len() as int) =~= txs@);
                let mut n: usize = txs.len();
                while n > 0
                    invariant
                        n <= txs@.len(),
                        last_tip(txs@) == last_tip(txs@.take(n as int)),
                        txs@ == self@.txs_at(*block),
                    decreases n,
                {
                    assert(txs@.take(n as int).drop_last() =~= txs@.take(n - 1));
                    assert(txs@.take(n as int).last() == txs@[n - 1]);
                    if let Some(entry) = txs[n - 1].tip_entry() {
                        return Some(entry);
                    }
                    n = n - 1;
                }
                None
            },
            None => None,
        }
    }

    /// The entry a block leaves the config lineage at.
    fn block_config_entry(&self, block: &HeaderId) -> (res: Option<InscriptionInfo>)
        ensures
            res == last_config_tip(self@.txs_at(*block)),
    {
        match self.block_txs.get(block) {
            Some(stored) => {
                let txs: &Vec<BlockChannelTx> = &stored.channel_txs;
                assert(txs@ == self@.txs_at(*block));
                assert(txs@.take(txs@.len() as int) =~= txs@);
                let mut n: usize = txs.len();
                while n > 0
                    invariant
                        n <= txs@.len(),
                        last_config_tip(txs@) == last_config_tip(txs@.take(n as int)),
                        txs@ == self@.txs_at(*block),
                    decreases n,
                {
                    assert(txs@.take(n as int).drop_last() =~= txs@.take(n - 1));
                    assert(txs@.take(n as int).last() == txs@[n - 1]);
                    let mut entries = txs[n - 1].config_entries();
                    if let Some(entry) = entries.pop() {
                        return Some(entry);
                    }
                    n = n - 1;
                }
                None
            },
            None => None,
        }
    }

    /// The newest message entry on a block's branch, within the window down to
    /// LIB.
    fn channel_tip_entry_at(&self, block_id: HeaderId) -> (res: Option<InscriptionInfo>)
        ensures
            res == self@.tip_entry(block_id),
    {
        let blocks = self.branch_of(block_id);
        assert(blocks@.skip(0) =~= blocks@);
        let mut i: usize = 0;
        while i < blocks.len()
            invariant
                i <= blocks@.len(),
                self@.tip_entry(block_id) == self@.tip_entry_in(blocks@.skip(i as int)),
            decreases blocks@.len() - i,
        {
            assert(blocks@.skip(i as int).drop_first() =~= blocks@.skip(i + 1));
            assert(blocks@.skip(i as int)[0] == blocks@[i as int]);
            let entry = self.block_tip_entry(&blocks[i]);
            if entry.is_some() {
                return entry;
            }
            i = i + 1;
        }
        None
    }

    /// The newest config entry on a block's branch, within the window down to
    /// LIB.
    fn config_tip_entry_at(&self, block_id: HeaderId) -> (res: Option<InscriptionInfo>)
        ensures
            res == self@.config_entry(block_id),
    {
        let blocks = self.branch_of(block_id);
        assert(blocks@.skip(0) =~= blocks@);
        let mut i: usize = 0;
        while i < blocks.len()
            invariant
                i <= blocks@.len(),
                self@.config_entry(block_id) == self@.config_entry_in(blocks@.skip(i as int)),
            decreases blocks@.len() - i,
        {
            assert(blocks@.skip(i as int).drop_first() =~= blocks@.skip(i + 1));
            assert(blocks@.skip(i as int)[0] == blocks@[i as int]);
            let entry = self.block_config_entry(&blocks[i]);
            if entry.is_some() {
                return entry;
            }
            i = i + 1;
        }
        None
    }

    /// The channel tip at a block: the newest message on its branch, or the
    /// finalized one when the window down to LIB has none.
    pub fn channel_tip_at(&self, block_id: HeaderId) -> (res: MsgId)
        ensures
            res == self@.channel_tip(block_id),
    {
        match self.channel_tip_entry_at(block_id) {
            Some(entry) => entry.this_msg,
            None => self.finalized_msg,
        }
    }

    /// The config tip at a block: the newest config on its branch, or the
    /// finalized one when the window down to LIB has none. It comes from the
    /// blocks processed so far alone, so it never runs ahead of them.
    pub fn config_tip_at(&self, block_id: HeaderId) -> (res: MsgId)
        ensures
            res == self@.config_tip(block_id),
    {
        match self.config_tip_entry_at(block_id) {
            Some(entry) => entry.this_msg,
            None => self.finalized_config,
        }
    }

    /// Drop a block and everything held for it.
    fn prune_block(&mut self, block: &HeaderId)
        ensures
            final(self)@ == old(self)@.prune(set![*block]),
    {
        let _ = self.block_states.remove(block);
        let _ = self.block_txs.remove(block);
        self.wallet.prune_block(block);
        let _ = self.parent_map.remove(block);
        proof {
            let gone = set![*block];
            lemma_filter_outside_one(old(self)@.stored_order, *block);
            lemma_filter_outside_one(old(self)@.wallet.overlay_order, *block);
            assert(self@ =~= old(self)@.prune(gone));
        }
    }

    /// Drop the blocks below `lib`, but not `lib` itself.
    fn prune_below(&mut self, lib: HeaderId)
        ensures
            final(self)@ == old(self)@.prune(old(self)@.below(lib)),
    {
        let ghost start = self@;
        let mut cursor: Option<HeaderId> = match self.parent_map.get(&lib) {
            Some(parent) => Some(*parent),
            None => None,
        };
        let ghost mut gone: Set<HeaderId> = Set::empty();
        proof {
            lemma_prune_nothing(start);
            if cursor is Some {
                assert(gone.union(chain_down(start.parents, cursor.unwrap())) =~= start.below(lib));
            }
        }
        while cursor.is_some()
            invariant
                self@ == start.prune(gone),
                match cursor {
                    Some(block) => gone.union(chain_down(self@.parents, block)) == start.below(lib),
                    None => gone == start.below(lib),
                },
            decreases
                    (match cursor {
                        Some(_) => 1 + self@.parents.len(),
                        None => 0,
                    }),
        {
            proof {
                self.lemma_finite();
            }
            let block: HeaderId = cursor.unwrap();
            let ghost before = self@;
            cursor = match self.parent_map.get(&block) {
                Some(parent) => Some(*parent),
                None => None,
            };
            self.prune_block(&block);
            proof {
                lemma_prune_twice(start, gone, block);
                assert(self@.parents =~= before.parents.remove(block));
                if before.parents.contains_key(block) {
                    let next = before.parents[block];
                    assert(gone.insert(block).union(chain_down(self@.parents, next)) =~= gone.union(
                        chain_down(before.parents, block),
                    ));
                } else {
                    assert(gone.insert(block) =~= gone.union(chain_down(before.parents, block)));
                }
                gone = gone.insert(block);
            }
        }
    }

    /// Take finalized transactions out of all safe sets.
    fn drop_settled(&mut self, lib: HeaderId)
        ensures
            final(self)@ == old(self)@.without_settled(lib),
    {
        let ghost start = self@;
        let ghost gone = start.settled(lib);
        let mut settled: Vec<TxHash> = Vec::new();
        match self.block_states.get(&lib) {
            Some(lib_safe_set) => {
                let hashes = lib_safe_set.to_vec();
                proof {
                    assert(self@.safe_at(lib) == lib_safe_set@);
                    assert(hashes@.take(0).to_set().difference(start.held()) =~= Set::empty());
                    assert(settled@.to_set() =~= Set::empty());
                }
                let mut i: usize = 0;
                while i < hashes.len()
                    invariant
                        i <= hashes@.len(),
                        start == self@,
                        settled@.to_set() == hashes@.take(i as int).to_set().difference(
                            start.held(),
                        ),
                    decreases hashes@.len() - i,
                {
                    let ghost before = settled@;
                    proof {
                        assert(hashes@.take(i + 1) =~= hashes@.take(i as int).push(
                            hashes@[i as int],
                        ));
                        hashes@.take(i as int).lemma_push_to_set_commute(hashes@[i as int]);
                        before.lemma_push_to_set_commute(hashes@[i as int]);
                    }
                    if !self.is_tracked(&hashes[i]) {
                        settled.push(hashes[i]);
                    }
                    assert(settled@.to_set() =~= hashes@.take(i + 1).to_set().difference(
                        start.held(),
                    ));
                    i = i + 1;
                }
                assert(hashes@.take(i as int) =~= hashes@);
            },
            None => {
                assert(settled@.to_set() =~= gone);
            },
        }
        assert(settled@.to_set() == gone);
        let blocks = self.block_states.keys();
        proof {
            assert(self@ =~= (StateModel { safe: self@.safe, ..start }));
            assert(blocks@.take(0).to_set() =~= Set::empty());
        }
        let mut k: usize = 0;
        while k < blocks.len()
            invariant
                k <= blocks@.len(),
                blocks@.no_duplicates(),
                blocks@.to_set() == start.safe.dom(),
                settled@.to_set() == gone,
                self@ == (StateModel { safe: self@.safe, ..start }),
                self@.safe.dom() == start.safe.dom(),
                forall|b: HeaderId| #[trigger]
                    start.safe.contains_key(b) ==> self@.safe[b] == if blocks@.take(
                        k as int,
                    ).contains(b) {
                        start.safe[b].difference(gone)
                    } else {
                        start.safe[b]
                    },
            decreases blocks@.len() - k,
        {
            let block: HeaderId = blocks[k];
            let ghost before = self@;
            proof {
                assert(blocks@.to_set().contains(block));
                assert(blocks@.take(k + 1) =~= blocks@.take(k as int).push(block));
                assert(!blocks@.take(k as int).contains(block)) by {
                    if blocks@.take(k as int).contains(block) {
                        let j = blocks@.take(k as int).index_of(block);
                        assert(blocks@[j] == block);
                    }
                }
                assert forall|b: HeaderId| blocks@.take(k + 1).contains(b) == (blocks@.take(
                    k as int,
                ).contains(b) || b == block) by {
                    blocks@.take(k as int).lemma_push_to_set_commute(block);
                    assert(blocks@.take(k + 1).to_set().contains(b) == blocks@.take(
                        k as int,
                    ).to_set().insert(block).contains(b));
                }
                assert(self@.safe.contains_key(block));
                assert(self.block_states@.contains_key(block));
            }
            if let Some(set) = self.block_states.get(&block) {
                let rest = without_hashes(set, settled.as_slice());
                self.block_states.insert(block, rest);
                assert(self@.safe =~= before.safe.insert(block, start.safe[block].difference(gone)));
                assert(self@.safe.dom() =~= start.safe.dom());
            }
            assert(self@ =~= (StateModel { safe: self@.safe, ..start }));
            k = k + 1;
        }
        proof {
            assert(blocks@.take(k as int) =~= blocks@);
            assert forall|b: HeaderId| start.safe.contains_key(b) implies blocks@.contains(b) by {
                assert(blocks@.to_set().contains(b));
            }
            assert(self@.safe =~= start.safe.map_values(minus(gone)));
        }
    }

    /// Drop the blocks whose chain no longer reaches `lib`.
    fn prune_orphans(&mut self, lib: HeaderId)
        ensures
            final(self)@ == old(self)@.prune(old(self)@.orphans(lib)),
    {
        let ghost start = self@;
        let ghost mut gone: Set<HeaderId> = Set::empty();
        proof {
            lemma_prune_nothing(start);
        }
        loop
            invariant
                self@ == start.prune(gone),
                gone.subset_of(start.parents.dom()),
                forall|blocks: Set<HeaderId>, id: HeaderId|
                    #![trigger blocks.contains(id), gone.contains(id)]
                    blocks.subset_of(start.parents.dom()) && grounded(start.parents, lib, blocks)
                        && gone.contains(id) ==> !blocks.contains(id),
            ensures
                self@ == start.prune(start.orphans(lib)),
            decreases self@.parents.len(),
        {
            proof {
                self.lemma_finite();
            }
            let orphans = self.find_orphans(lib);
            if orphans.len() == 0 {
                proof {
                    let rest = self@.parents.dom();
                    assert forall|id: HeaderId| #[trigger] rest.contains(id) implies (id == lib
                        || start.parents[id] == lib || rest.contains(start.parents[id])) by {
                        assert(!self@.is_orphan(id, lib));
                    }
                    assert(grounded(start.parents, lib, rest));
                    assert(rest.subset_of(start.parents.dom()));
                    assert forall|id: HeaderId| gone.contains(id) == start.orphans(lib).contains(
                        id,
                    ) by {
                        if start.parents.contains_key(id) && !gone.contains(id) {
                            assert(rest.contains(id));
                            assert(kept_blocks(start.parents, lib).contains(id));
                        }
                        if gone.contains(id) && kept_blocks(start.parents, lib).contains(id) {
                            let blocks = choose|blocks: Set<HeaderId>|
                                {
                                    &&& #[trigger] blocks.subset_of(start.parents.dom())
                                    &&& grounded(start.parents, lib, blocks)
                                    &&& blocks.contains(id)
                                };
                            assert(!blocks.contains(id));
                        }
                    }
                    assert(gone =~= start.orphans(lib));
                }
                break;
            }
            let ghost round = self@;
            let ghost gone_before = gone;
            let mut i: usize = 0;
            while i < orphans.len()
                invariant
                    i <= orphans@.len(),
                    round == start.prune(gone_before),
                    round.parents.dom().finite(),
                    gone_before.subset_of(start.parents.dom()),
                    forall|j: int|
                        0 <= j < orphans@.len() ==> round.is_orphan(#[trigger] orphans@[j], lib),
                    self@ == start.prune(gone),
                    gone.subset_of(start.parents.dom()),
                    gone_before.subset_of(gone),
                    forall|blocks: Set<HeaderId>, id: HeaderId|
                        #![trigger blocks.contains(id), gone_before.contains(id)]
                        blocks.subset_of(start.parents.dom()) && grounded(
                            start.parents,
                            lib,
                            blocks,
                        ) && gone_before.contains(id) ==> !blocks.contains(id),
                    forall|blocks: Set<HeaderId>, id: HeaderId|
                        #![trigger blocks.contains(id), gone.contains(id)]
                        blocks.subset_of(start.parents.dom()) && grounded(
                            start.parents,
                            lib,
                            blocks,
                        ) && gone.contains(id) ==> !blocks.contains(id),
                    self@.parents.dom().finite(),
                    self@.parents.len() <= round.parents.len(),
                    i > 0 ==> self@.parents.len() < round.parents.len(),
                decreases orphans@.len() - i,
            {
                let orphan: HeaderId = orphans[i];
                let ghost before = self@;
                self.prune_block(&orphan);
                proof {
                    self.lemma_finite();
                    assert(round.is_orphan(orphan, lib));
                    lemma_prune_twice(start, gone, orphan);
                    let next = gone.insert(orphan);
                    assert forall|blocks: Set<HeaderId>, id: HeaderId|
                        #![trigger blocks.contains(id), next.contains(id)]
                        blocks.subset_of(start.parents.dom()) && grounded(
                            start.parents,
                            lib,
                            blocks,
                        ) && next.contains(id) implies !blocks.contains(id) by {
                        if id == orphan && blocks.contains(id) {
                            let parent = start.parents[id];
                            assert(blocks.contains(parent));
                            assert(start.parents.contains_key(parent));
                            assert(gone_before.contains(parent));
                        }
                        if id != orphan {
                            assert(gone.contains(id));
                        }
                    }
                    assert(self@.parents =~= before.parents.remove(orphan));
                    vstd::set_lib::lemma_len_subset(self@.parents.dom(), before.parents.dom());
                    gone = next;
                    lemma_pruned_below(round, self@, orphan, start, gone);
                }
                i = i + 1;
            }
        }
    }

    /// Process a new block: its transactions join the safe set of its branch,
    /// its channel content and its note changes are stored. When LIB moves, the
    /// finalized tips move with it and what is no longer needed is dropped;
    /// pending transactions stay, since only finalized blocks settle them.
    ///
    /// A block whose parent is not known starts from an empty safe set: its
    /// transactions read as pending until they are seen again.
    pub fn process_block(
        &mut self,
        block_id: HeaderId,
        parent_id: HeaderId,
        lib: HeaderId,
        our_txs: &[TxHash],
        channel_txs: Vec<BlockChannelTx>,
        note_ops: Vec<NoteOp>,
    )
        ensures
            final(self)@ == old(self)@.process_block(
                block_id,
                parent_id,
                lib,
                our_txs@,
                channel_txs@,
                note_ops@,
            ),
    {
        let ghost start = self@;
        self.parent_map.insert(block_id, parent_id);
        let mut safe_set = match self.block_states.get(&parent_id) {
            Some(set) => set.copy(),
            None => SafeSet::new(),
        };
        assert(safe_set@ =~= start.safe_at(parent_id).union(our_txs@.take(0).to_set()));
        let mut i: usize = 0;
        while i < our_txs.len()
            invariant
                i <= our_txs@.len(),
                safe_set@ == start.safe_at(parent_id).union(our_txs@.take(i as int).to_set()),
            decreases our_txs@.len() - i,
        {
            proof {
                assert(our_txs@.take(i + 1) =~= our_txs@.take(i as int).push(our_txs@[i as int]));
                our_txs@.take(i as int).lemma_push_to_set_commute(our_txs@[i as int]);
            }
            safe_set = safe_set.insert(our_txs[i]);
            assert(safe_set@ =~= start.safe_at(parent_id).union(our_txs@.take(i + 1).to_set()));
            i = i + 1;
        }
        assert(our_txs@.take(i as int) =~= our_txs@);
        self.block_states.insert(block_id, safe_set);
        if channel_txs.len() > 0 {
            let signed_txs: Arc<Vec<SignedOps>> = match self.block_txs.get(&block_id) {
                Some(stored) => Arc::clone(&stored.signed_txs),
                None => Arc::new(Vec::new()),
            };
            self.block_txs.insert(
                block_id,
                StoredBlock { channel_txs: Arc::new(channel_txs), signed_txs },
            );
        }
        self.wallet.store_overlay(block_id, note_ops);
        assert(self@ =~= start.add_block(
            block_id,
            parent_id,
            our_txs@,
            channel_txs@,
            note_ops@,
        ));
        if !lib.same(&self.current_lib) {
            self.advance_lib(lib);
        }
    }

    /// Make `lib` the last irreversible block.
    fn advance_lib(&mut self, lib: HeaderId)
        ensures
            final(self)@ == old(self)@.advance_lib(lib),
    {
        let ghost start = self@;
        // The tips at the new LIB, before the blocks below it go.
        let message = self.channel_tip_entry_at(lib);
        let config = self.config_tip_entry_at(lib);
        if let Some(entry) = message {
            self.finalized_msg = entry.this_msg;
            self.finalized_parent_msg = Some(entry.parent_msg);
        }
        if let Some(entry) = config {
            self.finalized_config = entry.this_msg;
        }
        assert(self@ =~= start.finalize(lib));
        self.prune_below(lib);
        self.drop_settled(lib);
        self.prune_orphans(lib);
        self.current_lib = lib;
    }

    /// Keep a block's signed channel transactions with the block.
    pub fn store_block_signed_txs(&mut self, block: HeaderId, txs: Vec<SignedOps>)
        ensures
            final(self)@ == old(self)@.store_signed(block, txs@),
    {
        if txs.len() > 0 {
            let channel_txs: Arc<Vec<BlockChannelTx>> = match self.block_txs.get(&block) {
                Some(stored) => Arc::clone(&stored.channel_txs),
                None => Arc::new(Vec::new()),
            };
            self.block_txs.insert(
                block,
                StoredBlock { channel_txs, signed_txs: Arc::new(txs) },
            );
            assert(self@ =~= old(self)@.store_signed(block, txs@));
        }
    }

    /// The known blocks, other than `lib`, whose parent is neither `lib` nor
    /// known.
    fn find_orphans(&self, lib: HeaderId) -> (res: Vec<HeaderId>)
        ensures
            forall|j: int| 0 <= j < res@.len() ==> self@.is_orphan(#[trigger] res@[j], lib),
            res@.len() == 0 ==> forall|id: HeaderId| !#[trigger] self@.is_orphan(id, lib),
    {
        let ids = self.parent_map.keys();
        let mut res: Vec<HeaderId> = Vec::new();
        let mut i: usize = 0;
        while i < ids.len()
            invariant
                i <= ids@.len(),
                ids@.to_set() == self@.parents.dom(),
                forall|j: int| 0 <= j < ids@.len() ==> self@.parents.contains_key(#[trigger] ids@[j]),
                forall|j: int| 0 <= j < res@.len() ==> self@.is_orphan(#[trigger] res@[j], lib),
                res@.len() == 0 ==> forall|j: int|
                    0 <= j < i ==> !self@.is_orphan(#[trigger] ids@[j], lib),
            decreases ids@.len() - i,
        {
            let id: HeaderId = ids[i];
            assert(self@.parents.contains_key(ids@[i as int]));
            if !id.same(&lib) {
                if let Some(parent) = self.parent_map.get(&id) {
                    let parent: HeaderId = *parent;
                    if !parent.same(&lib) && !self.parent_map.contains_key(&parent) {
                        res.push(id);
                    }
                }
            }
            i = i + 1;
        }
        proof {
            if res@.len() == 0 {
                assert forall|id: HeaderId| !#[trigger] self@.is_orphan(id, lib) by {
                    if self@.parents.contains_key(id) {
                        assert(ids@.to_set().contains(id));
                        let j = ids@.index_of(id);
                        assert(!self@.is_orphan(ids@[j], lib));
                    }
                }
            }
        }
        res
    }
}

impl TxState {
    /// The pending chain off `from_msg`, parents first: plain entries by their
    /// own id, opaque transactions by their inscriptions in op order.
    pub fn collect_pending_suffix(&self, from_msg: MsgId) -> (res: Vec<InscriptionInfo>)
        ensures
            res@ == self@.suffix(from_msg),
    {
        let mut suffix: Vec<InscriptionInfo> = Vec::new();
        let mut visited: KeySet<MsgId> = KeySet::new();
        let mut current: MsgId = from_msg;
        proof {
            self.lemma_finite();
            assert(suffix@ + self@.suffix_from(current, visited@) =~= self@.suffix(from_msg));
        }
        loop
            invariant_except_break
                self@.by_parent.dom().finite(),
                suffix@ + self@.suffix_from(current, visited@) == self@.suffix(from_msg),
            ensures
                suffix@ == self@.suffix(from_msg),
            decreases self@.by_parent.dom().difference(visited@).len(),
        {
            let ghost before = suffix@;
            let ghost seen = visited@;
            if !visited.insert(current) {
                assert(before + Seq::<InscriptionInfo>::empty() =~= before);
                break;
            }
            let tx_hash: TxHash = match self.pending_child(current) {
                Some(hash) => hash,
                None => {
                    assert(before + Seq::<InscriptionInfo>::empty() =~= before);
                    break;
                },
            };
            proof {
                let dom = self@.by_parent.dom();
                assert(dom.difference(visited@) =~= dom.difference(seen).remove(current));
                assert(dom.difference(seen).contains(current));
            }
            match self.pending.get(&tx_hash) {
                Some(pending) => {
                    suffix.push(pending.info());
                    proof {
                        let rest = self@.suffix_from(pending.this_msg, visited@);
                        assert(suffix@ + rest =~= before + (seq![pending.entry()] + rest));
                    }
                    current = pending.this_msg;
                },
                None => match self.pending_other.get(&tx_hash) {
                    Some(other) => {
                        push_infos(&mut suffix, other.infos.as_slice());
                        match other.last_msg() {
                            Some(last_msg) => {
                                proof {
                                    let rest = self@.suffix_from(last_msg, visited@);
                                    assert(suffix@ + rest =~= before + (other@.infos + rest));
                                }
                                current = last_msg;
                            },
                            None => {
                                break;
                            },
                        }
                    },
                    None => {
                        assert(before + Seq::<InscriptionInfo>::empty() =~= before);
                        break;
                    },
                },
            }
        }
        suffix
    }

    /// The message the pending continuation of `current` leaves as tip, if one
    /// is pending and moves the tip.
    fn pending_next(&self, current: MsgId) -> (res: Option<MsgId>)
        ensures
            res == self@.next(current),
    {
        match self.pending_child(current) {
            Some(child) => match self.pending_tip_of(child) {
                Some(next) => if next.same(&current) {
                    None
                } else {
                    Some(next)
                },
                None => None,
            },
            None => None,
        }
    }

    /// The last message of the pending chain off `from_msg`; `None` when
    /// nothing is pending there.
    ///
    /// The walk takes at most one step more than there are pending
    /// transactions, so inconsistent lineage data cannot keep it going.
    fn pending_publish_tail(&self, from_msg: MsgId) -> (res: Option<MsgId>)
        ensures
            res == if self@.next(from_msg) is Some {
                Some(self@.tail(from_msg, self@.chain_bound()))
            } else {
                None
            },
    {
        let mut current: MsgId = from_msg;
        let mut found_any: bool = false;
        let bound: u128 = self.pending.len() as u128 + self.pending_other.len() as u128 + 1;
        proof {
            assert(self@.other.dom() =~= self.pending_other@.dom());
        }
        let mut step: u128 = 0;
        while step < bound
            invariant
                step <= bound,
                bound == self@.chain_bound(),
                self@.tail(from_msg, bound as nat) == self@.tail(current, (bound - step) as nat),
                found_any == (step > 0),
                found_any ==> self@.next(from_msg) is Some,
                !found_any ==> current == from_msg,
            decreases bound - step,
        {
            match self.pending_next(current) {
                Some(next) => {
                    current = next;
                    found_any = true;
                },
                None => {
                    return if found_any {
                        Some(current)
                    } else {
                        None
                    };
                },
            }
            step = step + 1;
        }
        Some(current)
    }

    /// What a new publish chains on: the end of the pending chain off the
    /// channel tip, or the channel tip itself when nothing is pending there.
    pub fn publish_parent(&self, tip: HeaderId) -> (res: MsgId)
        ensures
            res == self@.publish_parent(tip),
    {
        let channel_tip = self.channel_tip_at(tip);
        match self.pending_publish_tail(channel_tip) {
            Some(tail) => tail,
            None => channel_tip,
        }
    }

    /// The hashes of the transactions mined on `tip`'s branch.
    fn safe_at(&self, tip: HeaderId) -> (res: SafeSet)
        ensures
            res@ == self@.safe_at(tip),
    {
        match self.block_states.get(&tip) {
            Some(set) => set.copy(),
            None => SafeSet::new(),
        }
    }

    /// Pending transactions to post again: not mined on the branch, and part of
    /// the chain off the channel tip; opaque ones by submission order. A parent
    /// comes before its child.
    pub fn pending_txs(&self, tip: HeaderId) -> (res: Vec<(TxHash, SignedOps)>)
        ensures
            res@ == self@.to_post(tip),
    {
        let safe = self.safe_at(tip);
        let suffix = self.collect_pending_suffix(self.channel_tip_at(tip));
        let mut res: Vec<(TxHash, SignedOps)> = Vec::new();
        let ghost keep = not_safe(safe@);
        let ghost pair = self@.pending_pair();
        proof {
            reveal(Seq::filter);
            assert(suffix@.take(0).filter(keep) =~= Seq::empty());
        }
        let mut i: usize = 0;
        while i < suffix.len()
            invariant
                i <= suffix@.len(),
                keep == not_safe(safe@),
                pair == self@.pending_pair(),
                res@ == suffix@.take(i as int).filter(keep).filter_map(pair),
            decreases suffix@.len() - i,
        {
            proof {
                let before = suffix@.take(i as int);
                assert(suffix@.take(i + 1) =~= before.push(suffix@[i as int]));
                before.lemma_filter_push(suffix@[i as int], keep);
                lemma_filter_map_push(before.filter(keep), suffix@[i as int], pair);
            }
            let hash: TxHash = suffix[i].tx_hash;
            if !safe.contains(&hash) {
                if let Some(pending) = self.pending.get(&hash) {
                    res.push((hash, pending.signed_tx.clone()));
                }
            }
            i = i + 1;
        }
        assert(suffix@.take(i as int) =~= suffix@);
        let ghost inscriptions = res@;
        let order = self.pending_other.keys();
        let ghost left = hash_not_in(safe@);
        let ghost entry = self@.other_pair();
        proof {
            assert(order@.take(0).filter(left) =~= Seq::empty());
            assert(inscriptions + Seq::<TxHash>::empty().map_values(entry) =~= inscriptions);
        }
        let mut k: usize = 0;
        while k < order.len()
            invariant
                k <= order@.len(),
                left == hash_not_in(safe@),
                entry == self@.other_pair(),
                forall|j: int|
                    0 <= j < order@.len() ==> self.pending_other@.contains_key(#[trigger] order@[j]),
                res@ == inscriptions + order@.take(k as int).filter(left).map_values(entry),
            decreases order@.len() - k,
        {
            proof {
                let before = order@.take(k as int);
                assert(order@.take(k + 1) =~= before.push(order@[k as int]));
                before.lemma_filter_push(order@[k as int], left);
                assert(self.pending_other@.contains_key(order@[k as int]));
            }
            let hash: TxHash = order[k];
            if !safe.contains(&hash) {
                if let Some(other) = self.pending_other.get(&hash) {
                    res.push((hash, other.signed_tx.clone()));
                    assert(res@ =~= inscriptions + order@.take(k + 1).filter(left).map_values(
                        entry,
                    ));
                }
            }
            k = k + 1;
        }
        assert(order@.take(k as int) =~= order@);
        res
    }

    /// Number of pending transactions of all shapes.
    pub fn unfinalized_count(&self) -> (res: usize)
        requires
            self@.pending.len() + self@.other.len() <= usize::MAX,
        ensures
            res == self@.pending.len() + self@.other.len(),
    {
        assert(self@.other.dom() =~= self.pending_other@.dom());
        self.pending.len() + self.pending_other.len()
    }

    /// Number of pending inscription transactions.
    pub fn pending_publish_count(&self) -> (res: usize)
        ensures
            res == self@.pending.len(),
    {
        self.pending.len()
    }

    /// Number of pending inscription transactions already posted.
    pub fn posted_pending_publish_count(&self) -> (res: usize)
        ensures
            res == self@.posted().len(),
    {
        let hashes = self.pending.keys();
        let ghost posted = self@.is_posted();
        let ghost mut found: Set<TxHash> = Set::empty();
        let mut count: usize = 0;
        let mut i: usize = 0;
        while i < hashes.len()
            invariant
                i <= hashes@.len(),
                hashes@.no_duplicates(),
                forall|j: int| 0 <= j < hashes@.len() ==> self.pending@.contains_key(#[trigger] hashes@[j]),
                found.finite(),
                count == found.len(),
                count <= i,
                forall|hash: TxHash| #[trigger]
                    found.contains(hash) <==> hashes@.take(i as int).contains(hash)
                        && self.pending@[hash].posted,
            decreases hashes@.len() - i,
        {
            let hash: TxHash = hashes[i];
            proof {
                let before = hashes@.take(i as int);
                assert(hashes@.take(i + 1) =~= before.push(hash));
                assert(self.pending@.contains_key(hashes@[i as int]));
                assert(!before.contains(hash)) by {
                    if before.contains(hash) {
                        let j = before.index_of(hash);
                        assert(hashes@[j] == hash);
                    }
                }
                assert forall|h: TxHash| hashes@.take(i + 1).contains(h) == (before.contains(h) || h
                    == hash) by {
                    before.lemma_push_to_set_commute(hash);
                    assert(hashes@.take(i + 1).to_set().contains(h) == before.to_set().insert(
                        hash,
                    ).contains(h));
                }
            }
            if let Some(pending) = self.pending.get(&hash) {
                if pending.posted {
                    count = count + 1;
                    proof {
                        found = found.insert(hash);
                    }
                }
            }
            i = i + 1;
        }
        proof {
            assert(hashes@.take(i as int) =~= hashes@);
            assert forall|hash: TxHash| found.contains(hash) == self@.posted().contains(hash) by {
                if self@.pending.contains_key(hash) {
                    assert(hashes@.to_set().contains(hash));
                }
                if hashes@.contains(hash) {
                    let j = hashes@.index_of(hash);
                    assert(self.pending@.contains_key(hashes@[j]));
                }
            }
            assert(found =~= self@.posted());
        }
        count
    }
}

impl TxState {
    /// The hashes of all pending transactions, plain and opaque.
    pub fn tracked_tx_hashes(&self) -> (res: KeySet<TxHash>)
        ensures
            res@ == self@.held(),
    {
        let mut res: KeySet<TxHash> = KeySet::new();
        add_keys(&mut res, &self.pending);
        add_keys(&mut res, &self.pending_other);
        assert(self@.other.dom() =~= self.pending_other@.dom());
        assert(res@ =~= self@.held());
        res
    }

    /// Whether there is state for a block.
    pub fn has_block(&self, block_id: &HeaderId) -> (res: bool)
        ensures
            res == self@.safe.contains_key(*block_id),
    {
        self.block_states.contains_key(block_id)
    }

    /// The last irreversible block.
    pub fn lib(&self) -> (res: HeaderId)
        ensures
            res == self@.lib,
    {
        self.current_lib
    }

    /// A pending inscription or bundle by transaction hash.
    pub fn pending_inscription(&self, tx_hash: &TxHash) -> (res: Option<&PendingInscription>)
        ensures
            match res {
                Some(pending) => self@.pending.contains_key(*tx_hash) && *pending
                    == self@.pending[*tx_hash],
                None => !self@.pending.contains_key(*tx_hash),
            },
    {
        self.pending.get(tx_hash)
    }

    /// Whether a transaction was accepted by this sequencer.
    pub fn tx_source(&self, tx_hash: &TxHash) -> (res: TxSource)
        ensures
            res == self@.source(*tx_hash),
    {
        if holds(self.local_txs.as_slice(), tx_hash) {
            TxSource::Local
        } else {
            TxSource::Other
        }
    }

    /// Mark a pending inscription as posted; true only for the first time.
    pub fn mark_pending_inscription_posted(&mut self, tx_hash: &TxHash) -> (res: bool)
        ensures
            res == (old(self)@.pending.contains_key(*tx_hash)
                && !old(self)@.pending[*tx_hash].posted),
            final(self)@ == old(self)@.mark_posted(*tx_hash),
    {
        match self.pending.get(tx_hash) {
            Some(pending) => {
                let first_post: bool = !pending.posted;
                let marked = PendingInscription { posted: true, ..pending.clone() };
                self.pending.insert(*tx_hash, marked);
                first_post
            },
            None => false,
        }
    }

    /// Whether an opaque pending transaction is tracked under this hash.
    pub fn pending_other_contains(&self, tx_hash: &TxHash) -> (res: bool)
        ensures
            res == self@.other.contains_key(*tx_hash),
    {
        self.pending_other.contains_key(tx_hash)
    }

    /// All pending transactions, for checkpointing: inscriptions in no
    /// particular order, then opaque ones in submission order.
    pub fn all_pending_txs(&self) -> (res: Vec<(TxHash, SignedOps)>)
        ensures
            self@.lists_pending(res@),
    {
        let keys = self.pending.keys();
        let ghost f = self@.inscription_pair();
        let mut res: Vec<(TxHash, SignedOps)> = Vec::new();
        let mut i: usize = 0;
        while i < keys.len()
            invariant
                i <= keys@.len(),
                f == self@.inscription_pair(),
                forall|j: int| 0 <= j < keys@.len() ==> self@.pending.contains_key(#[trigger] keys@[j]),
                res@ == keys@.take(i as int).map_values(f),
            decreases keys@.len() - i,
        {
            assert(self@.pending.contains_key(keys@[i as int]));
            if let Some(pending) = self.pending.get(&keys[i]) {
                res.push((keys[i], pending.signed_tx.clone()));
            }
            assert(res@ =~= keys@.take(i + 1).map_values(f));
            i = i + 1;
        }
        assert(keys@.take(i as int) =~= keys@);
        let ghost inscriptions = res@;
        let order = self.pending_other.keys();
        let ghost g = self@.other_pair();
        let mut k: usize = 0;
        while k < order.len()
            invariant
                k <= order@.len(),
                g == self@.other_pair(),
                forall|j: int|
                    0 <= j < order@.len() ==> self.pending_other@.contains_key(#[trigger] order@[j]),
                res@ == inscriptions + order@.take(k as int).map_values(g),
            decreases order@.len() - k,
        {
            assert(self.pending_other@.contains_key(order@[k as int]));
            if let Some(other) = self.pending_other.get(&order[k]) {
                res.push((order[k], other.signed_tx.clone()));
            }
            assert(res@ =~= inscriptions + order@.take(k + 1).map_values(g));
            k = k + 1;
        }
        assert(order@.take(k as int) =~= order@);
        assert(keys@.no_duplicates());
        res
    }
}

/// Adds the keys of a map to a set.
fn add_keys<V>(set: &mut KeySet<TxHash>, map: &KeyMap<TxHash, V>)
    ensures
        final(set)@ == old(set)@.union(map@.dom()),
{
    let keys = map.keys();
    assert(set@ =~= old(set)@.union(keys@.take(0).to_set()));
    let mut i: usize = 0;
    while i < keys.len()
        invariant
            i <= keys@.len(),
            set@ == old(set)@.union(keys@.take(i as int).to_set()),
        decreases keys@.len() - i,
    {
        proof {
            assert(keys@.take(i + 1) =~= keys@.take(i as int).push(keys@[i as int]));
            keys@.take(i as int).lemma_push_to_set_commute(keys@[i as int]);
        }
        let _ = set.insert(keys[i]);
        assert(set@ =~= old(set)@.union(keys@.take(i + 1).to_set()));
        i = i + 1;
    }
    assert(keys@.take(i as int) =~= keys@);
}

/// Appends copies of a list of entries.
pub fn push_infos(list: &mut Vec<InscriptionInfo>, infos: &[InscriptionInfo])
    ensures
        final(list)@ == old(list)@ + infos@,
{
    let mut i: usize = 0;
    while i < infos.len()
        invariant
            i <= infos@.len(),
            list@ == old(list)@ + infos@.take(i as int),
        decreases infos@.len() - i,
    {
        list.push(infos[i].clone());
        assert(list@ =~= old(list)@ + infos@.take(i + 1));
        i = i + 1;
    }
    assert(infos@.take(i as int) =~= infos@);
}

/// Mapping one more element of a list.
pub proof fn lemma_filter_map_push<A, B>(s: Seq<A>, x: A, f: spec_fn(A) -> Option<B>)
    ensures
        s.push(x).filter_map(f) == match f(x) {
            Some(y) => s.filter_map(f).push(y),
            None => s.filter_map(f),
        },
{
    assert(s.push(x).take(s.len() as int) =~= s);
    assert(s.push(x).take(s.len() as int + 1) =~= s.push(x));
    s.push(x).lemma_filter_map_take_succ(f, s.len() as int);
}

/// The set without a list of hashes. Taking members out one by one keeps what
/// the sets of neighbouring blocks share.
fn without_hashes(set: &SafeSet, hashes: &[TxHash]) -> (res: SafeSet)
    ensures
        res@ == set@.difference(hashes@.to_set()),
{
    let mut res = set.copy();
    assert(res@ =~= set@.difference(hashes@.take(0).to_set()));
    let mut i: usize = 0;
    while i < hashes.len()
        invariant
            i <= hashes@.len(),
            res@ == set@.difference(hashes@.take(i as int).to_set()),
        decreases hashes@.len() - i,
    {
        proof {
            assert(hashes@.take(i + 1) =~= hashes@.take(i as int).push(hashes@[i as int]));
            hashes@.take(i as int).lemma_push_to_set_commute(hashes@[i as int]);
        }
        res = res.remove(&hashes[i]);
        assert(res@ =~= set@.difference(hashes@.take(i + 1).to_set()));
        i = i + 1;
    }
    assert(hashes@.take(i as int) =~= hashes@);
    res
}

proof fn lemma_filter_outside_one<K>(s: Seq<K>, k: K)
    ensures
        s.filter(other_than(k)) == s.filter(outside(set![k])),
{
    lemma_filter_outside_empty(s);
    lemma_filter_outside_insert(s, Set::empty(), k);
}

proof fn lemma_prune_nothing(m: StateModel)
    ensures
        m.prune(Set::empty()) == m,
{
    lemma_filter_outside_empty(m.stored_order);
    lemma_filter_outside_empty(m.wallet.overlay_order);
    assert(m.prune(Set::empty()) =~= m);
}

proof fn lemma_prune_twice(m: StateModel, gone: Set<HeaderId>, block: HeaderId)
    ensures
        m.prune(gone).prune(set![block]) == m.prune(gone.insert(block)),
{
    lemma_filter_outside_insert(m.stored_order, gone, block);
    lemma_filter_outside_one(m.stored_order.filter(outside(gone)), block);
    lemma_filter_outside_insert(m.wallet.overlay_order, gone, block);
    lemma_filter_outside_one(m.wallet.overlay_order.filter(outside(gone)), block);
    assert(m.prune(gone).prune(set![block]) =~= m.prune(gone.insert(block)));
}

/// Once a known block is gone there are fewer known blocks.
proof fn lemma_pruned_below(
    round: StateModel,
    now: StateModel,
    block: HeaderId,
    start: StateModel,
    gone: Set<HeaderId>,
)
    requires
        round.parents.dom().finite(),
        round.parents.contains_key(block),
        now == start.prune(gone),
        gone.contains(block),
        now.parents.dom().subset_of(round.parents.dom()),
    ensures
        now.parents.len() < round.parents.len(),
{
    assert(!now.parents.contains_key(block));
    vstd::set_lib::lemma_len_subset(now.parents.dom(), round.parents.dom().remove(block));
}

} // verus!
