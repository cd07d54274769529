//! What the transaction state holds, and what its operations mean.

use vstd::prelude::*;

use crate::collections::{other_than, outside, sorted_seq};
use crate::ids::{ChannelId, Ed25519PublicKey, HeaderId, MsgId, NoteId, TxHash};
use crate::items::Items;
use crate::mantle::{ChannelTransferOp, Inputs, Inscription, Op, Outputs, SignedOps, Utxo};
use crate::sequencer::channel_tx::{
    configs_of, inscriptions_of, pure_config, transfers_of, BlockChannelTx,
};
use crate::sequencer::channel_wallet::{after_ops, NoteOp, WalletModel};
use crate::sequencer::types::{
    AtomicWithdrawInfo, ChannelNote, ChannelUpdateTx, InscriptionInfo, PendingTx, PinDepositInfo,
    TxSource, WithdrawInfo,
};

verus! {

/// The bundle nature of a pending inscription: what it is reported as.
#[derive(Debug, PartialEq, Eq)]
pub enum PendingBundle {
    /// A plain inscription.
    Plain,
    /// An inscription with withdraws: the withdraw ops in tx order and the
    /// recipient notes released.
    Withdraw { withdraws: Items<WithdrawInfo>, outputs: Outputs },
    /// An inscription with a transfer that pins a deposit: the channel notes
    /// the transfer consumes.
    PinDeposit(Inputs),
}

impl Clone for PendingBundle {
    fn clone(&self) -> (res: Self)
        ensures
            res == *self,
    {
        match self {
            PendingBundle::Plain => PendingBundle::Plain,
            PendingBundle::Withdraw { withdraws, outputs } => PendingBundle::Withdraw {
                withdraws: withdraws.clone(),
                outputs: outputs.clone(),
            },
            PendingBundle::PinDeposit(inputs) => PendingBundle::PinDeposit(inputs.clone()),
        }
    }
}

/// Pending inscription with lineage metadata.
#[derive(Debug, PartialEq, Eq)]
pub struct PendingInscription {
    pub tx_hash: TxHash,
    pub signed_tx: SignedOps,
    pub parent_msg: MsgId,
    pub this_msg: MsgId,
    pub payload: Inscription,
    pub bundle: PendingBundle,
    pub posted: bool,
}

impl Clone for PendingInscription {
    fn clone(&self) -> (res: Self)
        ensures
            res == *self,
    {
        PendingInscription {
            tx_hash: self.tx_hash,
            signed_tx: self.signed_tx.clone(),
            parent_msg: self.parent_msg,
            this_msg: self.this_msg,
            payload: self.payload.clone(),
            bundle: self.bundle.clone(),
            posted: self.posted,
        }
    }
}

/// Who wrote the first inscription of a transaction.
pub open spec fn first_signer(ops: Seq<Op>) -> Option<Ed25519PublicKey>
    decreases ops.len(),
{
    if ops.len() == 0 {
        None
    } else {
        match ops[0] {
            Op::ChannelInscribe(inscribe) => Some(inscribe.signer),
            _ => first_signer(ops.drop_first()),
        }
    }
}

impl PendingInscription {
    /// The lineage entry of a pending inscription.
    pub open spec fn entry(self) -> InscriptionInfo {
        InscriptionInfo {
            tx_hash: self.tx_hash,
            parent_msg: self.parent_msg,
            this_msg: self.this_msg,
            payload: self.payload,
            signer: first_signer(self.signed_tx.ops@),
        }
    }

    /// The reportable form of a pending inscription or bundle.
    pub open spec fn report(self) -> PendingTx {
        match self.bundle {
            PendingBundle::Withdraw { withdraws, outputs } => PendingTx::AtomicWithdraw(
                AtomicWithdrawInfo {
                    tx_hash: self.tx_hash,
                    inscription: self.entry(),
                    withdraws,
                    outputs,
                },
            ),
            PendingBundle::PinDeposit(consumed_notes) => PendingTx::PinDeposit(
                PinDepositInfo {
                    tx_hash: self.tx_hash,
                    inscription: self.entry(),
                    consumed_notes,
                },
            ),
            PendingBundle::Plain => PendingTx::Inscription(self.entry()),
        }
    }
}

/// An opaque pending transaction: one whose shape the sequencer does not
/// produce, or a config.
#[verifier::ext_equal]
pub struct OtherModel {
    pub signed_tx: SignedOps,
    /// Its channel inscriptions, in op order.
    pub infos: Seq<InscriptionInfo>,
    /// Its channel configs, in op order.
    pub config_infos: Seq<InscriptionInfo>,
    /// A single config, funded by at most one transfer.
    pub pure_config: bool,
}

impl OtherModel {
    pub open spec fn of(tx: SignedOps, channel_id: ChannelId) -> OtherModel {
        OtherModel {
            signed_tx: tx,
            infos: inscriptions_of(tx, channel_id),
            config_infos: configs_of(tx, channel_id),
            pure_config: pure_config(tx, channel_id),
        }
    }

    /// Where it attaches to the message lineage.
    pub open spec fn first_parent(self) -> Option<MsgId> {
        if self.infos.len() > 0 {
            Some(self.infos[0].parent_msg)
        } else {
            None
        }
    }

    /// The message tip it leaves behind.
    pub open spec fn last_msg(self) -> Option<MsgId> {
        if self.infos.len() > 0 {
            Some(self.infos.last().this_msg)
        } else {
            None
        }
    }

    /// Where it attaches to the config lineage.
    pub open spec fn config_parent(self) -> Option<MsgId> {
        if self.config_infos.len() > 0 {
            Some(self.config_infos[0].parent_msg)
        } else {
            None
        }
    }

    /// The config tip it leaves behind.
    pub open spec fn last_config(self) -> Option<MsgId> {
        if self.config_infos.len() > 0 {
            Some(self.config_infos.last().this_msg)
        } else {
            None
        }
    }
}

/// One stored block's channel content.
#[verifier::ext_equal]
pub struct StoredModel {
    /// Its channel-touching transactions, classified.
    pub channel_txs: Seq<BlockChannelTx>,
    /// The transactions to mirror from it.
    pub signed_txs: Seq<SignedOps>,
}

impl StoredModel {
    pub open spec fn empty() -> StoredModel {
        StoredModel { channel_txs: Seq::empty(), signed_txs: Seq::empty() }
    }
}

/// The contents of the transaction state.
#[verifier::ext_equal]
pub struct StateModel {
    /// Pending inscriptions by transaction.
    pub pending: Map<TxHash, PendingInscription>,
    /// The one pending transaction that chains from a message.
    pub by_parent: Map<MsgId, TxHash>,
    /// Pending entries displaced by a mined sibling, still to be reported.
    pub displaced: Seq<PendingTx>,
    pub displaced_other: Seq<SignedOps>,
    /// Opaque pending transactions.
    pub other: Map<TxHash, OtherModel>,
    /// The opaque pending transactions in submission order.
    pub other_order: Seq<TxHash>,
    /// Locally accepted transactions, oldest first.
    pub local: Seq<TxHash>,
    /// The transactions mined on the branch up to a block.
    pub safe: Map<HeaderId, Set<TxHash>>,
    /// The parent of a block.
    pub parents: Map<HeaderId, HeaderId>,
    /// The last irreversible block.
    pub lib: HeaderId,
    /// The channel content of blocks, canonical or not.
    pub stored: Map<HeaderId, StoredModel>,
    /// The blocks with channel content, in the order they came in.
    pub stored_order: Seq<HeaderId>,
    /// The finalized message tip.
    pub finalized_msg: MsgId,
    /// The parent of the finalized message, where it is known.
    pub finalized_parent_msg: Option<MsgId>,
    /// The finalized config tip.
    pub finalized_config: MsgId,
    /// The config tip that pending inscriptions were last held against.
    pub observed_config_tip: MsgId,
    /// The channel's notes.
    pub wallet: WalletModel,
}

/// The blocks from `tip` down to `lib`, or down to where the parent is not
/// known; `fuel` bounds the number of steps.
pub open spec fn branch(
    parents: Map<HeaderId, HeaderId>,
    lib: HeaderId,
    tip: HeaderId,
    fuel: nat,
) -> Seq<HeaderId>
    decreases fuel,
{
    if tip == lib || !parents.contains_key(tip) || fuel == 0 {
        seq![tip]
    } else {
        seq![tip] + branch(parents, lib, parents[tip], (fuel - 1) as nat)
    }
}

/// The entry that a block's transactions leave the channel at.
pub open spec fn last_tip(txs: Seq<BlockChannelTx>) -> Option<InscriptionInfo>
    decreases txs.len(),
{
    if txs.len() == 0 {
        None
    } else {
        match txs.last().spec_tip_entry() {
            Some(entry) => Some(entry),
            None => last_tip(txs.drop_last()),
        }
    }
}

/// The entry that a block's transactions leave the config lineage at.
pub open spec fn last_config_tip(txs: Seq<BlockChannelTx>) -> Option<InscriptionInfo>
    decreases txs.len(),
{
    if txs.len() == 0 {
        None
    } else {
        match txs.last().spec_config_tip_entry() {
            Some(entry) => Some(entry),
            None => last_config_tip(txs.drop_last()),
        }
    }
}

pub open spec fn lineage_entries() -> spec_fn(BlockChannelTx) -> Seq<InscriptionInfo> {
    |tx: BlockChannelTx| tx.spec_infos() + tx.spec_config_entries()
}

pub open spec fn hash_of() -> spec_fn(InscriptionInfo) -> TxHash {
    |info: InscriptionInfo| info.tx_hash
}

pub open spec fn msg_of() -> spec_fn(InscriptionInfo) -> MsgId {
    |info: InscriptionInfo| info.this_msg
}

/// The transactions of a list of entries.
pub open spec fn hashes(infos: Seq<InscriptionInfo>) -> Set<TxHash> {
    infos.map_values(hash_of()).to_set()
}

/// The messages and configs of a list of entries.
pub open spec fn msgs(infos: Seq<InscriptionInfo>) -> Set<MsgId> {
    infos.map_values(msg_of()).to_set()
}

/// `lineage` followed by those of `extra` that are not in it yet.
pub open spec fn with_new(lineage: Seq<InscriptionInfo>, extra: Seq<InscriptionInfo>) -> Seq<
    InscriptionInfo,
>
    decreases extra.len(),
{
    if extra.len() == 0 {
        lineage
    } else {
        let so_far = with_new(lineage, extra.drop_last());
        if msgs(so_far).contains(extra.last().this_msg) {
            so_far
        } else {
            so_far.push(extra.last())
        }
    }
}

/// The first entry of each transaction.
pub open spec fn first_of_tx(infos: Seq<InscriptionInfo>) -> Seq<InscriptionInfo>
    decreases infos.len(),
{
    if infos.len() == 0 {
        Seq::empty()
    } else {
        let so_far = first_of_tx(infos.drop_last());
        if hashes(infos.drop_last()).contains(infos.last().tx_hash) {
            so_far
        } else {
            so_far.push(infos.last())
        }
    }
}

/// The messages that `held` entries of a lineage chain on, and the entries
/// themselves.
pub open spec fn known_under(lineage: Seq<InscriptionInfo>, held: Set<TxHash>) -> Set<MsgId>
    decreases lineage.len(),
{
    if lineage.len() == 0 {
        Set::empty()
    } else {
        let known = known_under(lineage.drop_first(), held);
        let info = lineage[0];
        if held.contains(info.tx_hash) || known.contains(info.this_msg) {
            known.insert(info.this_msg).insert(info.parent_msg)
        } else {
            known
        }
    }
}

pub open spec fn msg_in(set: Set<MsgId>) -> spec_fn(InscriptionInfo) -> bool {
    |info: InscriptionInfo| set.contains(info.this_msg)
}

pub open spec fn msg_in_neither(a: Set<MsgId>, b: Set<MsgId>) -> spec_fn(InscriptionInfo) -> bool {
    |info: InscriptionInfo| !a.contains(info.this_msg) && !b.contains(info.this_msg)
}

pub open spec fn msg_not_in(set: Set<MsgId>) -> spec_fn(InscriptionInfo) -> bool {
    |info: InscriptionInfo| !set.contains(info.this_msg)
}

/// The position of the last entry with a message and its parent, before
/// position `n`; -1 where there is none.
pub open spec fn last_position(
    lineage: Seq<InscriptionInfo>,
    n: int,
    matching: spec_fn(InscriptionInfo) -> bool,
) -> int
    decreases n,
{
    if n <= 0 {
        -1
    } else if matching(lineage[n - 1]) {
        n - 1
    } else {
        last_position(lineage, n - 1, matching)
    }
}

/// Whether a block holds a transaction, and where.
pub open spec fn tx_in(txs: Seq<BlockChannelTx>, hash: TxHash) -> Option<BlockChannelTx>
    decreases txs.len(),
{
    if txs.len() == 0 {
        None
    } else if txs[0].spec_tx_hash() == Some(hash) {
        Some(txs[0])
    } else {
        tx_in(txs.drop_first(), hash)
    }
}

/// The first of a list of blocks that holds a transaction.
pub open spec fn block_with(
    blocks: Seq<HeaderId>,
    stored: Map<HeaderId, StoredModel>,
    hash: TxHash,
) -> Option<HeaderId>
    decreases blocks.len(),
{
    if blocks.len() == 0 {
        None
    } else if tx_in(stored[blocks[0]].channel_txs, hash) is Some {
        Some(blocks[0])
    } else {
        block_with(blocks.drop_first(), stored, hash)
    }
}

/// The first of a list of transactions with a hash.
pub open spec fn signed_with(txs: Seq<SignedOps>, hash: TxHash) -> Option<SignedOps>
    decreases txs.len(),
{
    if txs.len() == 0 {
        None
    } else if txs[0].hash == hash {
        Some(txs[0])
    } else {
        signed_with(txs.drop_first(), hash)
    }
}

pub open spec fn has_payload() -> spec_fn(InscriptionInfo) -> bool {
    |info: InscriptionInfo| info.payload@.len() > 0
}

/// How a mined entry is reported; `None` for entries with no payload to apply.
pub open spec fn mined_report(
    block: StoredModel,
    tx: BlockChannelTx,
    info: InscriptionInfo,
) -> Option<ChannelUpdateTx> {
    match tx {
        BlockChannelTx::AtomicWithdraw(a) => Some(ChannelUpdateTx::AtomicWithdraw(a)),
        BlockChannelTx::PinDeposit(a) => Some(ChannelUpdateTx::PinDeposit(a)),
        BlockChannelTx::Inscription(_) => Some(ChannelUpdateTx::Inscription(info)),
        BlockChannelTx::Config(_) => match signed_with(block.signed_txs, info.tx_hash) {
            Some(signed) => Some(ChannelUpdateTx::Config(signed)),
            None => None,
        },
        BlockChannelTx::Custom { tx, message_entries, config_entries } => if message_entries@.any(
            has_payload(),
        ) || config_entries@.len() > 0 {
            Some(ChannelUpdateTx::Custom(tx))
        } else {
            None
        },
    }
}

pub open spec fn not_safe(safe: Set<TxHash>) -> spec_fn(InscriptionInfo) -> bool {
    |info: InscriptionInfo| !safe.contains(info.tx_hash)
}

pub open spec fn hash_not_in(set: Set<TxHash>) -> spec_fn(TxHash) -> bool {
    |hash: TxHash| !set.contains(hash)
}

/// The blocks that hang together with `lib`: every one is `lib`, a child of
/// `lib`, or a child of another of them.
pub open spec fn grounded(
    parents: Map<HeaderId, HeaderId>,
    lib: HeaderId,
    blocks: Set<HeaderId>,
) -> bool {
    forall|id: HeaderId| #[trigger]
        blocks.contains(id) ==> (id == lib || parents[id] == lib || blocks.contains(parents[id]))
}

/// The largest set of known blocks that hang together with `lib`.
pub open spec fn kept_blocks(parents: Map<HeaderId, HeaderId>, lib: HeaderId) -> Set<HeaderId> {
    Set::new(
        |id: HeaderId|
            exists|blocks: Set<HeaderId>|
                {
                    &&& #[trigger] blocks.subset_of(parents.dom())
                    &&& grounded(parents, lib, blocks)
                    &&& blocks.contains(id)
                },
    )
}

/// `block` and the blocks below it, as far as parents are known.
pub open spec fn chain_down(parents: Map<HeaderId, HeaderId>, block: HeaderId) -> Set<HeaderId>
    decreases parents.len(),
    when parents.dom().finite()
{
    if parents.contains_key(block) {
        chain_down(parents.remove(block), parents[block]).insert(block)
    } else {
        set![block]
    }
}

/// The hash of a reported transaction.
pub open spec fn report_hash() -> spec_fn(PendingTx) -> TxHash {
    |tx: PendingTx| tx.spec_tx_hash()
}

pub open spec fn minus(gone: Set<TxHash>) -> spec_fn(Set<TxHash>) -> Set<TxHash> {
    |set: Set<TxHash>| set.difference(gone)
}

/// The notes a list of transfers spends.
pub open spec fn inputs_of() -> spec_fn(ChannelTransferOp) -> Seq<NoteId> {
    |transfer: ChannelTransferOp| transfer.inputs@
}

pub open spec fn utxo_id() -> spec_fn(Utxo) -> NoteId {
    |utxo: Utxo| utxo.id
}

/// The notes a list of transfers creates.
pub open spec fn outputs_of() -> spec_fn(ChannelTransferOp) -> Seq<NoteId> {
    |transfer: ChannelTransferOp| transfer.utxos@.map_values(utxo_id())
}

/// The notes that are there, and the transactions found to be unable to land.
#[verifier::ext_equal]
pub struct InputCheck {
    pub available: Set<NoteId>,
    pub dead: Set<TxHash>,
}

pub open spec fn note_id_of() -> spec_fn(ChannelNote) -> NoteId {
    |note: ChannelNote| note.note_id
}

impl StateModel {
    /// A state that tracks nothing yet.
    pub open spec fn new(lib: HeaderId, finalized_msg: MsgId) -> StateModel {
        StateModel {
            pending: Map::empty(),
            by_parent: Map::empty(),
            displaced: Seq::empty(),
            displaced_other: Seq::empty(),
            other: Map::empty(),
            other_order: Seq::empty(),
            local: Seq::empty(),
            safe: Map::empty().insert(lib, Set::empty()),
            parents: Map::empty(),
            lib,
            stored: Map::empty(),
            stored_order: Seq::empty(),
            finalized_msg,
            finalized_parent_msg: None,
            finalized_config: MsgId::spec_root(),
            observed_config_tip: MsgId::spec_root(),
            wallet: WalletModel::empty(),
        }
    }

    /// What holds of every state: finitely many entries, each under its own
    /// transaction hash, listed once.
    pub open spec fn wf(self) -> bool {
        &&& self.pending.dom().finite()
        &&& self.other.dom().finite()
        &&& self.by_parent.dom().finite()
        &&& self.parents.dom().finite()
        &&& self.other_order.no_duplicates()
        &&& self.other_order.to_set() == self.other.dom()
        &&& self.stored_order.no_duplicates()
        &&& self.stored_order.to_set() == self.stored.dom()
        &&& forall|hash: TxHash| #[trigger]
            self.pending.contains_key(hash) ==> self.pending[hash].tx_hash == hash
        &&& forall|hash: TxHash| #[trigger]
            self.other.contains_key(hash) ==> self.other[hash].signed_tx.hash == hash
    }

    pub open spec fn is_tracked(self, hash: TxHash) -> bool {
        self.pending.contains_key(hash) || self.other.contains_key(hash)
    }

    pub open spec fn held(self) -> Set<TxHash> {
        self.pending.dom().union(self.other.dom())
    }

    // Pending chains.

    /// The message a pending transaction leaves as the channel tip.
    pub open spec fn tip_of(self, hash: TxHash) -> Option<MsgId> {
        if self.pending.contains_key(hash) {
            Some(self.pending[hash].this_msg)
        } else if self.other.contains_key(hash) {
            self.other[hash].last_msg()
        } else {
            None
        }
    }

    /// The pending transaction that chains from a message.
    pub open spec fn child(self, msg: MsgId) -> Option<TxHash> {
        if self.by_parent.contains_key(msg) {
            Some(self.by_parent[msg])
        } else {
            None
        }
    }

    /// The pending chain off `msg`, parents first: inscriptions by their own
    /// entry, opaque transactions by their inscriptions. A message in `visited`
    /// ends it.
    pub open spec fn suffix_from(self, msg: MsgId, visited: Set<MsgId>) -> Seq<InscriptionInfo>
        decreases self.by_parent.dom().difference(visited).len(),
        when self.by_parent.dom().finite()
        via StateModel::suffix_from_shrinks
    {
        if visited.contains(msg) || !self.by_parent.contains_key(msg) {
            Seq::empty()
        } else {
            let hash = self.by_parent[msg];
            if self.pending.contains_key(hash) {
                seq![self.pending[hash].entry()] + self.suffix_from(
                    self.pending[hash].this_msg,
                    visited.insert(msg),
                )
            } else if self.other.contains_key(hash) {
                match self.other[hash].last_msg() {
                    Some(last) => self.other[hash].infos + self.suffix_from(
                        last,
                        visited.insert(msg),
                    ),
                    None => self.other[hash].infos,
                }
            } else {
                Seq::empty()
            }
        }
    }

    #[via_fn]
    proof fn suffix_from_shrinks(self, msg: MsgId, visited: Set<MsgId>) {
        let dom = self.by_parent.dom();
        if !visited.contains(msg) && self.by_parent.contains_key(msg) {
            assert(dom.difference(visited.insert(msg)) =~= dom.difference(visited).remove(msg));
            assert(dom.difference(visited).contains(msg));
        }
    }

    /// The pending chain off `msg`.
    pub open spec fn suffix(self, msg: MsgId) -> Seq<InscriptionInfo> {
        self.suffix_from(msg, Set::empty())
    }

    /// The message that the pending continuation of `msg` leaves as tip, if it
    /// moves the tip.
    pub open spec fn next(self, msg: MsgId) -> Option<MsgId> {
        match self.child(msg) {
            Some(hash) => match self.tip_of(hash) {
                Some(tip) => if tip != msg {
                    Some(tip)
                } else {
                    None
                },
                None => None,
            },
            None => None,
        }
    }

    /// The end of the pending chain off `msg`, after at most `steps` links.
    pub open spec fn tail(self, msg: MsgId, steps: nat) -> MsgId
        decreases steps,
    {
        if steps == 0 {
            msg
        } else {
            match self.next(msg) {
                Some(tip) => self.tail(tip, (steps - 1) as nat),
                None => msg,
            }
        }
    }

    /// More links than the pending population has.
    pub open spec fn chain_bound(self) -> nat {
        self.pending.len() + self.other.len() + 1
    }

    /// What a new publish at `tip` chains on.
    pub open spec fn publish_parent(self, tip: HeaderId) -> MsgId {
        self.tail(self.channel_tip(tip), self.chain_bound())
    }

    pub open spec fn is_posted(self) -> spec_fn(TxHash) -> bool {
        |hash: TxHash| self.pending.contains_key(hash) && self.pending[hash].posted
    }

    /// The pending inscriptions that were posted.
    pub open spec fn posted(self) -> Set<TxHash> {
        Set::new(self.is_posted())
    }

    pub open spec fn source(self, hash: TxHash) -> TxSource {
        if self.local.contains(hash) {
            TxSource::Local
        } else {
            TxSource::Other
        }
    }

    pub open spec fn mark_posted(self, hash: TxHash) -> StateModel {
        if self.pending.contains_key(hash) {
            StateModel {
                pending: self.pending.insert(
                    hash,
                    PendingInscription { posted: true, ..self.pending[hash] },
                ),
                ..self
            }
        } else {
            self
        }
    }

    pub open spec fn inscription_pair(self) -> spec_fn(TxHash) -> (TxHash, SignedOps) {
        |hash: TxHash| (hash, self.pending[hash].signed_tx)
    }

    /// A list of all pending transactions: the inscriptions, each once, then
    /// the opaque ones in submission order.
    pub open spec fn lists_pending(self, list: Seq<(TxHash, SignedOps)>) -> bool {
        exists|order: Seq<TxHash>|
            {
                &&& #[trigger] order.no_duplicates()
                &&& order.to_set() == self.pending.dom()
                &&& list == order.map_values(self.inscription_pair()) + self.other_order.map_values(
                    self.other_pair(),
                )
            }
    }

    // Tracking.

    pub open spec fn track_local(self, hash: TxHash) -> StateModel {
        if self.local.contains(hash) {
            self
        } else {
            StateModel { local: self.local.push(hash), ..self }
        }
    }

    /// The pending transaction other than `hash` that holds the place after
    /// `parent`.
    pub open spec fn taken(self, parent: MsgId, hash: TxHash) -> Option<TxHash> {
        match self.child(parent) {
            Some(by) => if by != hash {
                Some(by)
            } else {
                None
            },
            None => None,
        }
    }

    pub open spec fn put_pending(self, entry: PendingInscription) -> StateModel {
        StateModel {
            by_parent: self.by_parent.insert(entry.parent_msg, entry.tx_hash),
            pending: self.pending.insert(entry.tx_hash, entry),
            ..self
        }
    }

    pub open spec fn put_other(self, tx: SignedOps, channel_id: ChannelId) -> StateModel {
        let entry = OtherModel::of(tx, channel_id);
        StateModel {
            by_parent: match entry.first_parent() {
                Some(parent) => self.by_parent.insert(parent, tx.hash),
                None => self.by_parent,
            },
            other: self.other.insert(tx.hash, entry),
            other_order: self.other_order.filter(other_than(tx.hash)).push(tx.hash),
            ..self
        }
    }

    /// The place in the message lineage that a held transaction holds.
    pub open spec fn parent_of(self, hash: TxHash) -> Option<MsgId> {
        if self.pending.contains_key(hash) {
            Some(self.pending[hash].parent_msg)
        } else if self.other.contains_key(hash) {
            self.other[hash].first_parent()
        } else {
            None
        }
    }

    /// The bytes of a held transaction.
    pub open spec fn signed_of(self, hash: TxHash) -> Option<SignedOps> {
        if self.pending.contains_key(hash) {
            Some(self.pending[hash].signed_tx)
        } else if self.other.contains_key(hash) {
            Some(self.other[hash].signed_tx)
        } else {
            None
        }
    }

    /// The state without a transaction: its entry is gone, and its place in
    /// the lineage is free if it held it.
    pub open spec fn without(self, hash: TxHash) -> StateModel {
        let by_parent = match self.parent_of(hash) {
            Some(parent) => if self.child(parent) == Some(hash) {
                self.by_parent.remove(parent)
            } else {
                self.by_parent
            },
            None => self.by_parent,
        };
        if self.pending.contains_key(hash) {
            StateModel { pending: self.pending.remove(hash), by_parent, ..self }
        } else if self.other.contains_key(hash) {
            StateModel {
                other: self.other.remove(hash),
                other_order: self.other_order.filter(other_than(hash)),
                by_parent,
                ..self
            }
        } else {
            self
        }
    }

    /// The state without a list of transactions.
    pub open spec fn without_all(self, list: Seq<TxHash>) -> StateModel
        decreases list.len(),
    {
        if list.len() == 0 {
            self
        } else {
            self.without_all(list.drop_last()).without(list.last())
        }
    }

    /// The bytes of a list of transactions, as they are taken out one by one.
    pub open spec fn taken_out(self, list: Seq<TxHash>) -> Seq<SignedOps>
        decreases list.len(),
    {
        if list.len() == 0 {
            Seq::empty()
        } else {
            let so_far = self.taken_out(list.drop_last());
            match self.without_all(list.drop_last()).signed_of(list.last()) {
                Some(tx) => so_far.push(tx),
                None => so_far,
            }
        }
    }

    /// The pending transactions at and after `head` moved to the displaced
    /// lists.
    pub open spec fn displace(self, head: TxHash) -> StateModel
        decreases self.pending.len() + self.other.len(),
        when self.pending.dom().finite() && self.other.dom().finite()
    {
        if !self.is_tracked(head) {
            self
        } else {
            let rest = if self.pending.contains_key(head) {
                StateModel {
                    displaced: self.displaced.push(self.pending[head].report()),
                    ..self.without(head)
                }
            } else {
                StateModel {
                    displaced_other: self.displaced_other.push(self.other[head].signed_tx),
                    ..self.without(head)
                }
            };
            match self.tip_of(head) {
                Some(tip) => match self.child(tip) {
                    Some(next) => rest.displace(next),
                    None => rest,
                },
                None => rest,
            }
        }
    }

    /// The state once the place after `parent` is clear.
    pub open spec fn cleared(self, parent: Option<MsgId>) -> StateModel {
        match parent {
            Some(parent) => match self.child(parent) {
                Some(sibling) => self.displace(sibling),
                None => self,
            },
            None => self,
        }
    }

    /// The state once an inscription was seen on the channel.
    pub open spec fn observe_inscription(self, entry: PendingInscription) -> StateModel {
        if self.is_tracked(entry.tx_hash) {
            self
        } else {
            self.cleared(Some(entry.parent_msg)).put_pending(entry)
        }
    }

    /// The state once an opaque transaction was seen on the channel.
    pub open spec fn observe_other(self, tx: SignedOps, channel_id: ChannelId) -> StateModel {
        if self.is_tracked(tx.hash) {
            self
        } else {
            self.cleared(OtherModel::of(tx, channel_id).first_parent()).put_other(tx, channel_id)
        }
    }

    // Blocks.

    /// The blocks from `tip` down to LIB, or down to where the parent is not
    /// known.
    pub open spec fn branch(self, tip: HeaderId) -> Seq<HeaderId> {
        branch(self.parents, self.lib, tip, self.parents.len())
    }

    /// The blocks on `tip`'s branch strictly above LIB, oldest first.
    pub open spec fn branch_above_lib(self, tip: HeaderId) -> Seq<HeaderId> {
        let blocks = self.branch(tip);
        if blocks.last() == self.lib {
            blocks.drop_last().reverse()
        } else {
            blocks.reverse()
        }
    }

    pub open spec fn txs_at(self, block: HeaderId) -> Seq<BlockChannelTx> {
        if self.stored.contains_key(block) {
            self.stored[block].channel_txs
        } else {
            Seq::empty()
        }
    }

    /// The first of a list of blocks that moves the channel gives its tip.
    pub open spec fn tip_entry_in(self, blocks: Seq<HeaderId>) -> Option<InscriptionInfo>
        decreases blocks.len(),
    {
        if blocks.len() == 0 {
            None
        } else {
            match last_tip(self.txs_at(blocks[0])) {
                Some(entry) => Some(entry),
                None => self.tip_entry_in(blocks.drop_first()),
            }
        }
    }

    /// The first of a list of blocks with a config gives the config tip.
    pub open spec fn config_entry_in(self, blocks: Seq<HeaderId>) -> Option<InscriptionInfo>
        decreases blocks.len(),
    {
        if blocks.len() == 0 {
            None
        } else {
            match last_config_tip(self.txs_at(blocks[0])) {
                Some(entry) => Some(entry),
                None => self.config_entry_in(blocks.drop_first()),
            }
        }
    }

    /// The newest message entry on `tip`'s branch.
    pub open spec fn tip_entry(self, tip: HeaderId) -> Option<InscriptionInfo> {
        self.tip_entry_in(self.branch(tip))
    }

    /// The newest config entry on `tip`'s branch.
    pub open spec fn config_entry(self, tip: HeaderId) -> Option<InscriptionInfo> {
        self.config_entry_in(self.branch(tip))
    }

    /// The message tip at a block.
    pub open spec fn channel_tip(self, tip: HeaderId) -> MsgId {
        match self.tip_entry(tip) {
            Some(entry) => entry.this_msg,
            None => self.finalized_msg,
        }
    }

    /// The config tip at a block.
    pub open spec fn config_tip(self, tip: HeaderId) -> MsgId {
        match self.config_entry(tip) {
            Some(entry) => entry.this_msg,
            None => self.finalized_config,
        }
    }

    /// The transactions mined on `tip`'s branch.
    pub open spec fn safe_at(self, tip: HeaderId) -> Set<TxHash> {
        if self.safe.contains_key(tip) {
            self.safe[tip]
        } else {
            Set::empty()
        }
    }

    pub open spec fn entries_at(self) -> spec_fn(HeaderId) -> Seq<InscriptionInfo> {
        |block: HeaderId| self.txs_at(block).flat_map(lineage_entries())
    }

    /// All lineage entries on a branch back to LIB, oldest first.
    pub open spec fn mined(self, tip: HeaderId) -> Seq<InscriptionInfo> {
        self.branch(tip).reverse().flat_map(self.entries_at())
    }

    /// The state with a new block on it.
    pub open spec fn add_block(
        self,
        block_id: HeaderId,
        parent_id: HeaderId,
        our_txs: Seq<TxHash>,
        channel_txs: Seq<BlockChannelTx>,
        note_ops: Seq<NoteOp>,
    ) -> StateModel {
        StateModel {
            parents: self.parents.insert(block_id, parent_id),
            safe: self.safe.insert(block_id, self.safe_at(parent_id).union(our_txs.to_set())),
            stored: if channel_txs.len() == 0 {
                self.stored
            } else {
                self.stored.insert(
                    block_id,
                    StoredModel { channel_txs, ..self.stored_at(block_id) },
                )
            },
            stored_order: if channel_txs.len() == 0 || self.stored.contains_key(block_id) {
                self.stored_order
            } else {
                self.stored_order.push(block_id)
            },
            wallet: WalletModel {
                base: self.wallet.base,
                overlay: if note_ops.len() == 0 {
                    self.wallet.overlay
                } else {
                    self.wallet.overlay.insert(block_id, note_ops)
                },
                overlay_order: if note_ops.len() == 0 || self.wallet.overlay.contains_key(
                    block_id,
                ) {
                    self.wallet.overlay_order
                } else {
                    self.wallet.overlay_order.push(block_id)
                },
            },
            ..self
        }
    }

    pub open spec fn stored_at(self, block: HeaderId) -> StoredModel {
        if self.stored.contains_key(block) {
            self.stored[block]
        } else {
            StoredModel::empty()
        }
    }

    /// The state with a block's signed channel transactions.
    pub open spec fn store_signed(self, block: HeaderId, txs: Seq<SignedOps>) -> StateModel {
        if txs.len() == 0 {
            self
        } else {
            StateModel {
                stored: self.stored.insert(
                    block,
                    StoredModel { signed_txs: txs, ..self.stored_at(block) },
                ),
                stored_order: if self.stored.contains_key(block) {
                    self.stored_order
                } else {
                    self.stored_order.push(block)
                },
                ..self
            }
        }
    }

    /// The state without a set of blocks.
    pub open spec fn prune(self, blocks: Set<HeaderId>) -> StateModel {
        StateModel {
            parents: self.parents.remove_keys(blocks),
            safe: self.safe.remove_keys(blocks),
            stored: self.stored.remove_keys(blocks),
            stored_order: self.stored_order.filter(outside(blocks)),
            wallet: WalletModel {
                base: self.wallet.base,
                overlay: self.wallet.overlay.remove_keys(blocks),
                overlay_order: self.wallet.overlay_order.filter(outside(blocks)),
            },
            ..self
        }
    }

    /// The finalized boundary moved to the tips of both lineages at `lib`.
    pub open spec fn finalize(self, lib: HeaderId) -> StateModel {
        StateModel {
            finalized_msg: match self.tip_entry(lib) {
                Some(entry) => entry.this_msg,
                None => self.finalized_msg,
            },
            finalized_parent_msg: match self.tip_entry(lib) {
                Some(entry) => Some(entry.parent_msg),
                None => self.finalized_parent_msg,
            },
            finalized_config: match self.config_entry(lib) {
                Some(entry) => entry.this_msg,
                None => self.finalized_config,
            },
            ..self
        }
    }

    /// The blocks below `lib`.
    pub open spec fn below(self, lib: HeaderId) -> Set<HeaderId> {
        if self.parents.contains_key(lib) {
            chain_down(self.parents, self.parents[lib])
        } else {
            Set::empty()
        }
    }

    /// The transactions mined up to `lib` that nothing tracks any more.
    pub open spec fn settled(self, lib: HeaderId) -> Set<TxHash> {
        self.safe_at(lib).difference(self.held())
    }

    pub open spec fn without_settled(self, lib: HeaderId) -> StateModel {
        StateModel {
            safe: self.safe.map_values(minus(self.settled(lib))),
            ..self
        }
    }

    /// A known block, other than `lib`, whose parent is neither `lib` nor
    /// known.
    pub open spec fn is_orphan(self, id: HeaderId, lib: HeaderId) -> bool {
        &&& self.parents.contains_key(id)
        &&& id != lib
        &&& self.parents[id] != lib
        &&& !self.parents.contains_key(self.parents[id])
    }

    /// The blocks whose chain no longer reaches `lib`.
    pub open spec fn orphans(self, lib: HeaderId) -> Set<HeaderId> {
        self.parents.dom().difference(kept_blocks(self.parents, lib))
    }

    /// The state once `lib` is irreversible.
    pub open spec fn advance_lib(self, lib: HeaderId) -> StateModel {
        let finalized = self.finalize(lib);
        let trimmed = finalized.prune(finalized.below(lib)).without_settled(lib);
        StateModel { lib, ..trimmed.prune(trimmed.orphans(lib)) }
    }

    pub open spec fn process_block(
        self,
        block_id: HeaderId,
        parent_id: HeaderId,
        lib: HeaderId,
        our_txs: Seq<TxHash>,
        channel_txs: Seq<BlockChannelTx>,
        note_ops: Seq<NoteOp>,
    ) -> StateModel {
        let added = self.add_block(block_id, parent_id, our_txs, channel_txs, note_ops);
        if lib != self.lib {
            added.advance_lib(lib)
        } else {
            added
        }
    }

    // Resubmission.

    pub open spec fn pending_pair(self) -> spec_fn(InscriptionInfo) -> Option<(TxHash, SignedOps)> {
        |info: InscriptionInfo|
            if self.pending.contains_key(info.tx_hash) {
                Some((info.tx_hash, self.pending[info.tx_hash].signed_tx))
            } else {
                None
            }
    }

    pub open spec fn other_pair(self) -> spec_fn(TxHash) -> (TxHash, SignedOps) {
        |hash: TxHash| (hash, self.other[hash].signed_tx)
    }

    /// What to post again at `tip`: the pending inscriptions on the chain off
    /// the channel tip, then the opaque transactions in submission order,
    /// without those mined on the branch.
    pub open spec fn to_post(self, tip: HeaderId) -> Seq<(TxHash, SignedOps)> {
        let safe = self.safe_at(tip);
        self.suffix(self.channel_tip(tip)).filter(not_safe(safe)).filter_map(self.pending_pair())
            + self.other_order.filter(hash_not_in(safe)).map_values(self.other_pair())
    }

    // Shedding.

    /// The pending transactions among `eligible`.
    pub open spec fn pending_in(self, eligible: Set<TxHash>) -> Set<TxHash> {
        self.pending.dom().intersect(eligible)
    }

    /// The messages off which chains of `eligible` start.
    pub open spec fn roots(self, eligible: Set<TxHash>) -> Set<MsgId> {
        Set::new(
            |parent: MsgId|
                exists|hash: TxHash|
                    {
                        &&& #[trigger] self.pending_in(eligible).contains(hash)
                        &&& self.pending[hash].parent_msg == parent
                        &&& !self.made_by(eligible).contains(parent)
                    },
        )
    }

    /// The messages that `eligible` transactions write.
    pub open spec fn made_by(self, eligible: Set<TxHash>) -> Set<MsgId> {
        Set::new(
            |msg: MsgId|
                exists|hash: TxHash|
                    {
                        &&& #[trigger] self.pending_in(eligible).contains(hash)
                        &&& self.pending[hash].this_msg == msg
                    },
        )
    }

    pub open spec fn suffixes(self) -> spec_fn(MsgId) -> Seq<InscriptionInfo> {
        |msg: MsgId| self.suffix(msg)
    }

    /// The reports of the `eligible` transactions of a list of entries, each
    /// once: where it stands last.
    pub open spec fn reports(self, infos: Seq<InscriptionInfo>, eligible: Set<TxHash>) -> Seq<
        PendingTx,
    >
        decreases infos.len(),
    {
        if infos.len() == 0 {
            Seq::empty()
        } else {
            let later = self.reports(infos.drop_first(), eligible);
            let hash = infos[0].tx_hash;
            if eligible.contains(hash) && !hashes(infos.drop_first()).contains(hash)
                && self.pending.contains_key(hash) {
                seq![self.pending[hash].report()] + later
            } else {
                later
            }
        }
    }

    /// The `eligible` pending inscriptions, parents first: chain by chain, the
    /// chains in the order of the messages they start off. Where a chain runs
    /// into another, what they share comes with the later one, behind both.
    pub open spec fn drained(self, eligible: Set<TxHash>) -> Seq<PendingTx> {
        self.reports(sorted_seq(self.roots(eligible)).flat_map(self.suffixes()), eligible)
    }

    /// The state once those are gone.
    pub open spec fn drain(self, eligible: Set<TxHash>) -> StateModel {
        self.without_all(self.drained(eligible).map_values(report_hash()))
    }

    /// Pending inscriptions that neither chain off the channel tip nor are
    /// mined on the branch.
    pub open spec fn off_branch(self, tip: HeaderId) -> Set<TxHash> {
        self.pending.dom().difference(hashes(self.suffix(self.channel_tip(tip)))).difference(
            self.safe_at(tip),
        )
    }

    /// A set of messages closed under landing: an opaque transaction whose
    /// place is in it, or that needs no place, puts its own last message in.
    pub open spec fn closed_under_landing(self, landable: Set<MsgId>) -> bool {
        forall|hash: TxHash| #[trigger]
            self.other.contains_key(hash) ==> (self.other[hash].last_msg() matches Some(last) ==> (
            self.other[hash].first_parent() matches Some(parent) ==> landable.contains(parent))
                ==> landable.contains(last))
    }

    /// The messages that can still become the channel tip from `seeds`.
    pub open spec fn landable(self, seeds: Set<MsgId>) -> Set<MsgId> {
        Set::new(
            |msg: MsgId|
                forall|set: Set<MsgId>| #[trigger]
                    seeds.subset_of(set) && self.closed_under_landing(set) ==> set.contains(msg),
        )
    }

    pub open spec fn landable_at(self, tip: HeaderId) -> Set<MsgId> {
        let channel_tip = self.channel_tip(tip);
        self.landable(msgs(self.suffix(channel_tip)).insert(channel_tip))
    }

    /// Opaque transactions that lost their place in the message lineage.
    pub open spec fn displaced_others(self, tip: HeaderId) -> Set<TxHash> {
        Set::new(
            |hash: TxHash|
                {
                    &&& self.other.contains_key(hash)
                    &&& !self.safe_at(tip).contains(hash)
                    &&& self.other[hash].first_parent() matches Some(parent)
                        && !self.landable_at(tip).contains(parent)
                },
        )
    }

    /// A set of configs closed under landing: an opaque transaction whose
    /// config place is in it puts its own last config in.
    pub open spec fn closed_under_configs(self, landable: Set<MsgId>) -> bool {
        forall|hash: TxHash| #[trigger]
            self.other.contains_key(hash) ==> (self.other[hash].last_config() matches Some(last)
                ==> (self.other[hash].config_parent() matches Some(parent) && landable.contains(
                parent,
            )) ==> landable.contains(last))
    }

    /// The configs that can still become the config tip from `config_tip`.
    pub open spec fn landable_configs(self, config_tip: MsgId) -> Set<MsgId> {
        Set::new(
            |msg: MsgId|
                forall|set: Set<MsgId>| #[trigger]
                    set.contains(config_tip) && self.closed_under_configs(set) ==> set.contains(
                        msg,
                    ),
        )
    }

    /// Config-carrying transactions that lost their place in the config
    /// lineage.
    pub open spec fn stale_configs(self, tip: HeaderId) -> Set<TxHash> {
        let landable = self.landable_configs(self.config_tip(tip));
        Set::new(
            |hash: TxHash|
                {
                    &&& self.other.contains_key(hash)
                    &&& !self.safe_at(tip).contains(hash)
                    &&& !(self.other[hash].last_config() matches Some(last) && landable.contains(
                        last,
                    ))
                    &&& self.other[hash].config_parent() matches Some(parent)
                        && !landable.contains(parent)
                },
        )
    }

    pub open spec fn config_infos_of(self) -> spec_fn(TxHash) -> Seq<InscriptionInfo> {
        |hash: TxHash| self.other[hash].config_infos
    }

    pub open spec fn config_parent_in(self, set: Set<MsgId>) -> spec_fn(TxHash) -> bool {
        |hash: TxHash|
            self.other[hash].config_parent() matches Some(parent) && set.contains(parent)
    }

    /// The pending configs that chain from `config_tip`, in submission order.
    pub open spec fn config_suffix(self, config_tip: MsgId) -> Seq<InscriptionInfo> {
        self.other_order.filter(
            self.config_parent_in(self.landable_configs(config_tip)),
        ).flat_map(self.config_infos_of())
    }

    // Bundles and their inputs.

    pub open spec fn bundle_pair(self) -> spec_fn(InscriptionInfo) -> Option<
        (InscriptionInfo, PendingInscription),
    > {
        |info: InscriptionInfo|
            if self.pending.contains_key(info.tx_hash) && !(
            self.pending[info.tx_hash].bundle is Plain) {
                Some((info, self.pending[info.tx_hash]))
            } else {
                None
            }
    }

    /// The pending bundles off `tip`'s channel tip that are not mined on its
    /// branch, in lineage order.
    pub open spec fn unmined_bundles(self, tip: HeaderId) -> Seq<
        (InscriptionInfo, PendingInscription),
    > {
        self.suffix(self.channel_tip(tip)).filter(not_safe(self.safe_at(tip))).filter_map(
            self.bundle_pair(),
        )
    }

    pub open spec fn spent_by(channel_id: ChannelId) -> spec_fn(
        (InscriptionInfo, PendingInscription),
    ) -> Seq<NoteId> {
        |bundle: (InscriptionInfo, PendingInscription)|
            transfers_of(bundle.1.signed_tx, channel_id).flat_map(inputs_of())
    }

    /// The notes that un-mined pending bundles consume.
    pub open spec fn reserved(self, tip: HeaderId, channel_id: ChannelId) -> Set<NoteId> {
        self.unmined_bundles(tip).flat_map(StateModel::spent_by(channel_id)).to_set()
    }

    /// One bundle held against the notes that are there: it adds its outputs
    /// when all its inputs are there, and else takes everything chained on it
    /// along.
    pub open spec fn check_bundle(
        self,
        check: InputCheck,
        bundle: (InscriptionInfo, PendingInscription),
        channel_id: ChannelId,
    ) -> InputCheck {
        let transfers = transfers_of(bundle.1.signed_tx, channel_id);
        if transfers.flat_map(inputs_of()).to_set().subset_of(check.available) {
            InputCheck {
                available: check.available.union(transfers.flat_map(outputs_of()).to_set()),
                ..check
            }
        } else {
            InputCheck {
                dead: check.dead.insert(bundle.0.tx_hash).union(
                    hashes(self.suffix(bundle.0.this_msg)),
                ),
                ..check
            }
        }
    }

    pub open spec fn check_bundles(
        self,
        available: Set<NoteId>,
        bundles: Seq<(InscriptionInfo, PendingInscription)>,
        channel_id: ChannelId,
    ) -> InputCheck
        decreases bundles.len(),
    {
        if bundles.len() == 0 {
            InputCheck { available, dead: Set::empty() }
        } else {
            self.check_bundle(
                self.check_bundles(available, bundles.drop_last(), channel_id),
                bundles.last(),
                channel_id,
            )
        }
    }

    /// The blocks above LIB at a tip, none where no tip is known.
    pub open spec fn branch_at(self, tip: Option<HeaderId>) -> Seq<HeaderId> {
        match tip {
            Some(tip) => self.branch_above_lib(tip),
            None => Seq::empty(),
        }
    }

    /// The notes that un-mined pending bundles consume at a tip, none where no
    /// tip is known.
    pub open spec fn reserved_at(self, tip: Option<HeaderId>, channel_id: ChannelId) -> Set<NoteId> {
        match tip {
            Some(tip) => self.reserved(tip, channel_id),
            None => Set::empty(),
        }
    }

    /// The state once note changes of finalized blocks are applied.
    pub open spec fn settle_notes(self, ops: Seq<NoteOp>) -> StateModel {
        StateModel {
            wallet: WalletModel { base: after_ops(self.wallet.base, ops), ..self.wallet },
            ..self
        }
    }

    /// The ids of the notes on `tip`'s branch.
    pub open spec fn notes_at(self, tip: HeaderId) -> Set<NoteId> {
        let blocks = self.branch_above_lib(tip);
        self.wallet.finalized_on(blocks).values().map(note_id_of()).union(
            self.wallet.unfinalized_on(blocks).values().map(note_id_of()),
        )
    }

    /// The pending transactions that cannot land on `tip`'s branch for want of
    /// an input.
    pub open spec fn without_inputs(self, tip: HeaderId, channel_id: ChannelId) -> Set<TxHash> {
        self.check_bundles(self.notes_at(tip), self.unmined_bundles(tip), channel_id).dead
    }

    // The channel view.

    /// The channel view at a tip: what is mined on its branch, then the
    /// pending suffixes off the tips of both lineages.
    pub open spec fn lineage(self, tip: HeaderId) -> Seq<InscriptionInfo> {
        with_new(
            self.mined(tip),
            self.suffix(self.channel_tip(tip)) + self.config_suffix(self.config_tip(tip)),
        )
    }

    pub open spec fn is_finalized_msg(self) -> spec_fn(InscriptionInfo) -> bool {
        |info: InscriptionInfo|
            info.this_msg == self.finalized_msg && self.finalized_parent_msg == Some(
                info.parent_msg,
            )
    }

    pub open spec fn is_finalized_config(self) -> spec_fn(InscriptionInfo) -> bool {
        |info: InscriptionInfo| info.this_msg == self.finalized_config
    }

    /// The position of the finalized entry in a lineage: the message or the
    /// config, whichever comes later; -1 where neither is in it.
    pub open spec fn boundary(self, lineage: Seq<InscriptionInfo>) -> int {
        let message = last_position(lineage, lineage.len() as int, self.is_finalized_msg());
        let config = last_position(lineage, lineage.len() as int, self.is_finalized_config());
        if message >= config {
            message
        } else {
            config
        }
    }

    /// The ids of a lineage up to and including the finalized entry.
    pub open spec fn finalized_prefix(self, lineage: Seq<InscriptionInfo>) -> Set<MsgId> {
        msgs(lineage.take(self.boundary(lineage) + 1))
    }

    /// How a lineage entry is reported.
    pub open spec fn update_tx(self, info: InscriptionInfo) -> Option<ChannelUpdateTx> {
        match block_with(self.stored_order, self.stored, info.tx_hash) {
            Some(block) => mined_report(
                self.stored[block],
                tx_in(self.stored[block].channel_txs, info.tx_hash).unwrap(),
                info,
            ),
            None => if self.other.contains_key(info.tx_hash) {
                let other = self.other[info.tx_hash];
                if other.pure_config {
                    Some(ChannelUpdateTx::Config(other.signed_tx))
                } else {
                    Some(ChannelUpdateTx::Custom(other.signed_tx))
                }
            } else if self.pending.contains_key(info.tx_hash) {
                match self.pending[info.tx_hash].bundle {
                    PendingBundle::Withdraw { withdraws, outputs } => Some(
                        ChannelUpdateTx::AtomicWithdraw(
                            AtomicWithdrawInfo {
                                tx_hash: info.tx_hash,
                                inscription: info,
                                withdraws,
                                outputs,
                            },
                        ),
                    ),
                    PendingBundle::PinDeposit(consumed_notes) => Some(
                        ChannelUpdateTx::PinDeposit(
                            PinDepositInfo {
                                tx_hash: info.tx_hash,
                                inscription: info,
                                consumed_notes,
                            },
                        ),
                    ),
                    PendingBundle::Plain => Some(ChannelUpdateTx::Inscription(info)),
                }
            } else {
                Some(ChannelUpdateTx::Inscription(info))
            },
        }
    }

    pub open spec fn as_update_tx(self) -> spec_fn(InscriptionInfo) -> Option<ChannelUpdateTx> {
        |info: InscriptionInfo| self.update_tx(info)
    }

    /// One report per transaction of a list of entries.
    pub open spec fn update_txs(self, infos: Seq<InscriptionInfo>) -> Seq<ChannelUpdateTx> {
        first_of_tx(infos).filter_map(self.as_update_tx())
    }

    /// What two lineages have at or below the finalized boundary.
    pub open spec fn settled_ids(
        self,
        old_lineage: Seq<InscriptionInfo>,
        new_lineage: Seq<InscriptionInfo>,
        finalized_now: Set<MsgId>,
    ) -> Set<MsgId> {
        self.finalized_prefix(old_lineage).union(self.finalized_prefix(new_lineage)).union(
            finalized_now,
        )
    }

    /// The entries that entered the channel view.
    pub open spec fn adopted_infos(
        self,
        old_lineage: Seq<InscriptionInfo>,
        tip: HeaderId,
        finalized_now: Set<MsgId>,
    ) -> Seq<InscriptionInfo> {
        let new_lineage = self.lineage(tip);
        new_lineage.filter(
            msg_in_neither(
                msgs(old_lineage),
                self.settled_ids(old_lineage, new_lineage, finalized_now),
            ),
        )
    }

    /// The entries that left the channel view.
    pub open spec fn orphaned_infos(
        self,
        old_lineage: Seq<InscriptionInfo>,
        tip: HeaderId,
        finalized_now: Set<MsgId>,
    ) -> Seq<InscriptionInfo> {
        let new_lineage = self.lineage(tip);
        old_lineage.filter(
            msg_in_neither(
                msgs(new_lineage),
                self.settled_ids(old_lineage, new_lineage, finalized_now),
            ),
        )
    }

    /// The reportable channel view at a tip above the finalized boundary.
    pub open spec fn view_txs(self, tip: HeaderId, finalized_now: Set<MsgId>) -> Seq<
        ChannelUpdateTx,
    > {
        let lineage = self.lineage(tip);
        self.update_txs(
            lineage.filter(msg_not_in(self.finalized_prefix(lineage).union(finalized_now))),
        )
    }


    pub open spec fn signed_txs_at(self) -> spec_fn(HeaderId) -> Seq<SignedOps> {
        |block: HeaderId| self.stored_at(block).signed_txs
    }

    pub open spec fn is_untracked_tx(self) -> spec_fn(SignedOps) -> bool {
        |tx: SignedOps| !self.is_tracked(tx.hash)
    }

    /// The stored transactions on `tip`'s branch above LIB that nothing
    /// tracks.
    pub open spec fn untracked_on(self, tip: HeaderId) -> Seq<SignedOps> {
        self.branch_above_lib(tip).flat_map(self.signed_txs_at()).filter(self.is_untracked_tx())
    }
}

} // verus!
