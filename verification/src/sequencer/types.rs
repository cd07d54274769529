//! What the sequencer hands to its consumer.

use std::sync::Arc;

use vstd::prelude::*;

use crate::ids::{ChannelId, Ed25519PublicKey, HeaderId, MsgId, NoteId, OpId, TxHash, ZkPublicKey};
use crate::items::Items;
use crate::mantle::{
    ChannelTransferOp, ChannelWithdrawOp, Inputs, Inscription, Outputs, SignedOps, Slot, Value,
};
use crate::time::{Duration, SystemTime};

verus! {

/// Inscription identifier.
pub type InscriptionId = TxHash;

/// A point to resume from.
#[derive(Debug, PartialEq, Eq)]
pub struct SequencerCheckpoint {
    /// Last message id for chain continuity.
    pub last_msg_id: MsgId,
    /// Pending transactions to restore.
    pub pending_txs: Vec<(TxHash, SignedOps)>,
    /// Last known LIB.
    pub lib: HeaderId,
    /// Last known LIB slot (for backfill range queries).
    pub lib_slot: Slot,
    /// The config-lineage tip at LIB.
    pub finalized_config: MsgId,
    /// The channel's notes at LIB.
    pub channel_notes: Vec<ChannelNote>,
}

impl Clone for SequencerCheckpoint {
    fn clone(&self) -> (res: Self)
        ensures
            res.last_msg_id == self.last_msg_id,
            res.pending_txs@ == self.pending_txs@,
            res.lib == self.lib,
            res.lib_slot == self.lib_slot,
            res.finalized_config == self.finalized_config,
            res.channel_notes@ == self.channel_notes@,
    {
        let mut pending_txs: Vec<(TxHash, SignedOps)> = Vec::new();
        let mut i: usize = 0;
        while i < self.pending_txs.len()
            invariant
                i <= self.pending_txs@.len(),
                pending_txs@ == self.pending_txs@.take(i as int),
            decreases self.pending_txs@.len() - i,
        {
            pending_txs.push((self.pending_txs[i].0, self.pending_txs[i].1.clone()));
            assert(pending_txs@ =~= self.pending_txs@.take(i + 1));
            i = i + 1;
        }
        assert(pending_txs@ =~= self.pending_txs@);
        let mut channel_notes: Vec<ChannelNote> = Vec::new();
        let mut i: usize = 0;
        while i < self.channel_notes.len()
            invariant
                i <= self.channel_notes@.len(),
                channel_notes@ == self.channel_notes@.take(i as int),
            decreases self.channel_notes@.len() - i,
        {
            channel_notes.push(self.channel_notes[i]);
            assert(channel_notes@ =~= self.channel_notes@.take(i + 1));
            i = i + 1;
        }
        assert(channel_notes@ =~= self.channel_notes@);
        SequencerCheckpoint {
            last_msg_id: self.last_msg_id,
            pending_txs,
            lib: self.lib,
            lib_slot: self.lib_slot,
            finalized_config: self.finalized_config,
            channel_notes,
        }
    }
}

/// Result of a publish operation.
#[derive(Debug, Clone, Copy, PartialEq, Eq)]
pub struct PublishResult {
    /// The inscription id (transaction hash).
    pub inscription_id: InscriptionId,
}

/// One withdraw to bundle atomically with an inscription: recipients and
/// amounts.
#[derive(Debug, PartialEq, Eq)]
pub struct WithdrawArg {
    pub outputs: Outputs,
}

/// Which channel notes fund a withdrawal.
#[derive(Debug, PartialEq, Eq)]
pub enum WithdrawInputs {
    /// Let the sequencer pick covering notes.
    Auto,
    /// Spend exactly these notes.
    Explicit(Vec<NoteId>),
}

/// Configuration for the zone sequencer.
#[derive(Debug, Clone, Copy, PartialEq, Eq)]
pub struct SequencerConfig {
    pub resubmit_interval: Duration,
    pub reconnect_delay: Duration,
    pub publish_channel_capacity: usize,
    pub slot_duration: Duration,
    pub chain_start_time: Option<SystemTime>,
    pub min_slots_remaining_in_turn: u64,
    pub max_pending_publish_depth: usize,
    /// How many locally accepted transactions are remembered as ours.
    pub max_local_tx_tracking: usize,
}

/// The default of [`SequencerConfig::publish_channel_capacity`].
pub const DEFAULT_PUBLISH_CHANNEL_CAPACITY: usize = 256;

/// The default of [`SequencerConfig::max_pending_publish_depth`].
pub const DEFAULT_MAX_PENDING_PUBLISH_DEPTH: usize = 10;

/// The default of [`SequencerConfig::max_local_tx_tracking`].
pub const DEFAULT_MAX_LOCAL_TX_TRACKING: usize = 4096;

impl SequencerConfig {
    /// The default configuration.
    pub open spec fn spec_default() -> SequencerConfig {
        SequencerConfig {
            resubmit_interval: Duration { nanos: 30_000_000_000 },
            reconnect_delay: Duration { nanos: 5_000_000_000 },
            publish_channel_capacity: 256,
            slot_duration: Duration { nanos: 1_000_000_000 },
            chain_start_time: None,
            min_slots_remaining_in_turn: 1,
            max_pending_publish_depth: 10,
            max_local_tx_tracking: DEFAULT_MAX_LOCAL_TX_TRACKING,
        }
    }
}

impl Default for SequencerConfig {
    fn default() -> (res: Self)
        ensures
            res == SequencerConfig::spec_default(),
    {
        SequencerConfig {
            resubmit_interval: Duration::from_secs(30),
            reconnect_delay: Duration::from_secs(5),
            publish_channel_capacity: DEFAULT_PUBLISH_CHANNEL_CAPACITY,
            slot_duration: Duration::from_secs(1),
            chain_start_time: None,
            min_slots_remaining_in_turn: 1,
            max_pending_publish_depth: DEFAULT_MAX_PENDING_PUBLISH_DEPTH,
            max_local_tx_tracking: DEFAULT_MAX_LOCAL_TX_TRACKING,
        }
    }
}

/// A channel's state at a tip, as the node reports it.
#[derive(Debug, PartialEq, Eq)]
pub struct ChannelState {
    pub accredited_keys: Arc<Vec<Ed25519PublicKey>>,
    pub configuration_threshold: u16,
    pub transfer_threshold: u16,
    /// The number of the channel's next withdraw.
    pub withdrawal_nonce: u32,
    pub tip_message: MsgId,
    pub posting_timeframe: u32,
    pub posting_timeout: u32,
}

impl Clone for ChannelState {
    fn clone(&self) -> (res: Self)
        ensures
            res == *self,
    {
        ChannelState {
            accredited_keys: Arc::clone(&self.accredited_keys),
            configuration_threshold: self.configuration_threshold,
            transfer_threshold: self.transfer_threshold,
            withdrawal_nonce: self.withdrawal_nonce,
            tip_message: self.tip_message,
            posting_timeframe: self.posting_timeframe,
            posting_timeout: self.posting_timeout,
        }
    }
}

/// What the sequencer sees of its channel.
#[derive(Debug, PartialEq, Eq)]
pub struct SequencerChannelView {
    pub channel_id: ChannelId,
    pub channel: Option<ChannelState>,
    pub current_slot: Slot,
    pub own_key_index: Option<u16>,
    pub authorized_key_index: Option<u16>,
    pub our_turn_to_write: bool,
    pub tip_message: MsgId,
    pub pending_publish_txs: usize,
    pub queued_messages: usize,
    pub turn_to_write_slots: Option<u32>,
    pub posting_timeout_slots: Option<u32>,
    pub accredited_key_count: Option<usize>,
}

impl SequencerChannelView {
    /// The view before anything is known of the channel.
    pub fn new(channel_id: ChannelId) -> (res: SequencerChannelView)
        ensures
            res == (SequencerChannelView {
                channel_id,
                channel: None,
                current_slot: 0,
                own_key_index: None,
                authorized_key_index: None,
                our_turn_to_write: false,
                tip_message: MsgId::spec_root(),
                pending_publish_txs: 0,
                queued_messages: 0,
                turn_to_write_slots: None,
                posting_timeout_slots: None,
                accredited_key_count: None,
            }),
    {
        SequencerChannelView {
            channel_id,
            channel: None,
            current_slot: 0,
            own_key_index: None,
            authorized_key_index: None,
            our_turn_to_write: false,
            tip_message: MsgId::root(),
            pending_publish_txs: 0,
            queued_messages: 0,
            turn_to_write_slots: None,
            posting_timeout_slots: None,
            accredited_key_count: None,
        }
    }
}

/// Sequencer errors.
#[derive(Debug, PartialEq, Eq)]
pub enum Error {
    /// The sequencer cannot serve the request now.
    Unavailable { reason: &'static str },
    /// The node failed, or a request cannot be met.
    Network(String),
    /// The channel moved on under a prepared or submitted transaction.
    ChannelStateChanged(String),
    /// Collected signatures would not be accepted.
    InvalidMultiSig(String),
}

impl Error {
    /// The text of an error.
    pub open spec fn text(self) -> Seq<char> {
        match self {
            Error::Unavailable { reason } => "sequencer unavailable: "@ + reason@,
            Error::Network(text) => "network error: "@ + text@,
            Error::ChannelStateChanged(text) => "channel state changed: "@ + text@,
            Error::InvalidMultiSig(text) => "invalid multi-sig: "@ + text@,
        }
    }

    /// A message for humans.
    pub fn message(&self) -> (res: String)
        ensures
            res@ == self.text(),
    {
        match self {
            Error::Unavailable { reason } => "sequencer unavailable: ".to_string().concat(reason),
            Error::Network(text) => "network error: ".to_string().concat(text.as_str()),
            Error::ChannelStateChanged(text) => "channel state changed: ".to_string().concat(
                text.as_str(),
            ),
            Error::InvalidMultiSig(text) => "invalid multi-sig: ".to_string().concat(
                text.as_str(),
            ),
        }
    }
}

/// Information about whose turn it is to post and the current posting
/// timeframe. A slot is absent when the slot clock or the channel's
/// configuration is not known yet.
#[derive(Clone, Copy, Debug, PartialEq, Eq, Structural)]
pub struct TurnNotification {
    /// True if it's currently our turn to write.
    pub our_turn_to_write: bool,
    /// The slot at which the current turn started.
    pub starting_slot: Option<u64>,
    /// The slot at which the current turn ends.
    pub ends_at_slot: Option<u64>,
    /// The number of slots in the current turn.
    pub turn_to_write_slots: Option<u32>,
    /// The slot at the time of the notification.
    pub current_slot: Option<u64>,
}

/// A channel inscription, or a channel config under its config-lineage ids.
#[derive(Debug, PartialEq, Eq)]
pub struct InscriptionInfo {
    /// The transaction hash containing this inscription.
    pub tx_hash: TxHash,
    /// The parent message id this inscription chains from.
    pub parent_msg: MsgId,
    /// The message id of this inscription.
    pub this_msg: MsgId,
    /// The opaque inscription payload.
    pub payload: Inscription,
    /// Who wrote it; absent for a config.
    pub signer: Option<Ed25519PublicKey>,
}

impl Clone for InscriptionInfo {
    fn clone(&self) -> (res: Self)
        ensures
            res == *self,
    {
        InscriptionInfo {
            tx_hash: self.tx_hash,
            parent_msg: self.parent_msg,
            this_msg: self.this_msg,
            payload: self.payload.clone(),
            signer: self.signer,
        }
    }
}

/// A channel withdraw observed on chain or bundled in a pending transaction.
#[derive(Debug, PartialEq, Eq)]
pub struct WithdrawInfo {
    /// The transaction that carries the withdraw.
    pub tx_hash: TxHash,
    pub op: ChannelWithdrawOp,
}

impl Clone for WithdrawInfo {
    fn clone(&self) -> (res: Self)
        ensures
            res == *self,
    {
        WithdrawInfo { tx_hash: self.tx_hash, op: self.op.clone() }
    }
}

/// An inscription bundled atomically with one or more withdraws in a single
/// transaction.
#[derive(Debug, PartialEq, Eq)]
pub struct AtomicWithdrawInfo {
    pub tx_hash: TxHash,
    /// The inscription op carried by the bundle.
    pub inscription: InscriptionInfo,
    /// The withdraw ops carried by the bundle, in tx order.
    pub withdraws: Items<WithdrawInfo>,
    /// The recipient notes; empty for an observed bundle.
    pub outputs: Outputs,
}

impl Clone for AtomicWithdrawInfo {
    fn clone(&self) -> (res: Self)
        ensures
            res == *self,
    {
        AtomicWithdrawInfo {
            tx_hash: self.tx_hash,
            inscription: self.inscription.clone(),
            withdraws: self.withdraws.clone(),
            outputs: self.outputs.clone(),
        }
    }
}

/// An inscription bundled atomically with a transfer that consumes deposited
/// notes.
#[derive(Debug, PartialEq, Eq)]
pub struct PinDepositInfo {
    pub tx_hash: TxHash,
    /// The inscription op carried by the bundle.
    pub inscription: InscriptionInfo,
    /// The channel notes the bundled transfer consumes.
    pub consumed_notes: Inputs,
}

impl Clone for PinDepositInfo {
    fn clone(&self) -> (res: Self)
        ensures
            res == *self,
    {
        PinDepositInfo {
            tx_hash: self.tx_hash,
            inscription: self.inscription.clone(),
            consumed_notes: self.consumed_notes.clone(),
        }
    }
}

/// A channel note re-created by a deposit.
#[derive(Clone, Copy, Debug, PartialEq, Eq, Structural)]
pub struct DepositNote {
    pub note_id: NoteId,
    pub value: Value,
    pub pk: ZkPublicKey,
}

/// A channel deposit observed in a block, with what the block's events say of
/// it.
#[derive(Debug, PartialEq, Eq)]
pub struct DepositInfo {
    /// The transaction hash containing this deposit op.
    pub tx_hash: TxHash,
    /// The id of the deposit op within the transaction.
    pub op_id: OpId,
    /// Target channel.
    pub channel_id: ChannelId,
    /// Notes consumed by the deposit.
    pub inputs: Inputs,
    /// The channel notes it created.
    pub notes: Arc<Vec<DepositNote>>,
    /// Total value deposited.
    pub amount: Value,
    /// Opaque metadata associated with this deposit.
    pub metadata: Arc<Vec<u8>>,
}

impl Clone for DepositInfo {
    fn clone(&self) -> (res: Self)
        ensures
            res == *self,
    {
        DepositInfo {
            tx_hash: self.tx_hash,
            op_id: self.op_id,
            channel_id: self.channel_id,
            inputs: self.inputs.clone(),
            notes: Arc::clone(&self.notes),
            amount: self.amount,
            metadata: Arc::clone(&self.metadata),
        }
    }
}

/// A channel transfer observed in a block.
#[derive(Debug, PartialEq, Eq)]
pub struct ChannelTransferInfo {
    pub tx_hash: TxHash,
    pub op: ChannelTransferOp,
}

/// A single channel-relevant op observed in a block.
#[derive(Debug, PartialEq, Eq)]
pub enum FinalizedOp {
    /// Any inscription on the channel, ours or another sequencer's.
    Inscription(InscriptionInfo),
    /// A channel config, under its config-lineage ids.
    Config(InscriptionInfo),
    Deposit(DepositInfo),
    /// A withdraw, standalone or part of a bundle.
    Withdraw(WithdrawInfo),
    ChannelTransfer(ChannelTransferInfo),
}

/// A finalized transaction that touched our channel, its channel ops in
/// execution order.
#[derive(Debug, PartialEq, Eq)]
pub struct FinalizedTx {
    pub tx_hash: TxHash,
    /// The slot of the block that carries it.
    pub l1_slot: Slot,
    pub ops: Items<FinalizedOp>,
}

impl Clone for FinalizedTx {
    fn clone(&self) -> (res: Self)
        ensures
            res == *self,
    {
        FinalizedTx { tx_hash: self.tx_hash, l1_slot: self.l1_slot, ops: self.ops.clone() }
    }
}

/// A pending inscription or bundle, in reportable form.
#[derive(Debug, PartialEq, Eq)]
pub enum PendingTx {
    Inscription(InscriptionInfo),
    AtomicWithdraw(AtomicWithdrawInfo),
    PinDeposit(PinDepositInfo),
}

impl Clone for PendingTx {
    fn clone(&self) -> (res: Self)
        ensures
            res == *self,
    {
        match self {
            PendingTx::Inscription(i) => PendingTx::Inscription(i.clone()),
            PendingTx::AtomicWithdraw(a) => PendingTx::AtomicWithdraw(a.clone()),
            PendingTx::PinDeposit(a) => PendingTx::PinDeposit(a.clone()),
        }
    }
}

impl PendingTx {
    pub open spec fn spec_tx_hash(self) -> TxHash {
        match self {
            PendingTx::Inscription(i) => i.tx_hash,
            PendingTx::AtomicWithdraw(a) => a.tx_hash,
            PendingTx::PinDeposit(a) => a.tx_hash,
        }
    }

    pub open spec fn spec_inscription(self) -> InscriptionInfo {
        match self {
            PendingTx::Inscription(i) => i,
            PendingTx::AtomicWithdraw(a) => a.inscription,
            PendingTx::PinDeposit(a) => a.inscription,
        }
    }

    /// The hash of the transaction.
    pub fn tx_hash(&self) -> (res: TxHash)
        ensures
            res == self.spec_tx_hash(),
    {
        match self {
            PendingTx::Inscription(i) => i.tx_hash,
            PendingTx::AtomicWithdraw(a) => a.tx_hash,
            PendingTx::PinDeposit(a) => a.tx_hash,
        }
    }

    /// The inscription it carries.
    pub fn inscription(&self) -> (res: &InscriptionInfo)
        ensures
            *res == self.spec_inscription(),
    {
        match self {
            PendingTx::Inscription(i) => i,
            PendingTx::AtomicWithdraw(a) => &a.inscription,
            PendingTx::PinDeposit(a) => &a.inscription,
        }
    }
}

/// A transaction that enters or leaves the channel view.
#[derive(Debug, PartialEq, Eq)]
pub enum ChannelUpdateTx {
    Inscription(InscriptionInfo),
    AtomicWithdraw(AtomicWithdrawInfo),
    PinDeposit(PinDepositInfo),
    /// A transaction that is one channel config.
    Config(SignedOps),
    /// A transaction of any other shape, whole.
    Custom(SignedOps),
}

impl Clone for ChannelUpdateTx {
    fn clone(&self) -> (res: Self)
        ensures
            res == *self,
    {
        match self {
            ChannelUpdateTx::Inscription(i) => ChannelUpdateTx::Inscription(i.clone()),
            ChannelUpdateTx::AtomicWithdraw(a) => ChannelUpdateTx::AtomicWithdraw(a.clone()),
            ChannelUpdateTx::PinDeposit(a) => ChannelUpdateTx::PinDeposit(a.clone()),
            ChannelUpdateTx::Config(tx) => ChannelUpdateTx::Config(tx.clone()),
            ChannelUpdateTx::Custom(tx) => ChannelUpdateTx::Custom(tx.clone()),
        }
    }
}

impl ChannelUpdateTx {
    pub open spec fn spec_tx_hash(self) -> TxHash {
        match self {
            ChannelUpdateTx::Inscription(i) => i.tx_hash,
            ChannelUpdateTx::AtomicWithdraw(a) => a.tx_hash,
            ChannelUpdateTx::PinDeposit(a) => a.tx_hash,
            ChannelUpdateTx::Config(tx) => tx.hash,
            ChannelUpdateTx::Custom(tx) => tx.hash,
        }
    }

    pub open spec fn spec_inscription(self) -> Option<InscriptionInfo> {
        match self {
            ChannelUpdateTx::Inscription(i) => Some(i),
            ChannelUpdateTx::AtomicWithdraw(a) => Some(a.inscription),
            ChannelUpdateTx::PinDeposit(a) => Some(a.inscription),
            ChannelUpdateTx::Config(_) => None,
            ChannelUpdateTx::Custom(_) => None,
        }
    }

    /// The hash of the transaction.
    pub fn tx_hash(&self) -> (res: TxHash)
        ensures
            res == self.spec_tx_hash(),
    {
        match self {
            ChannelUpdateTx::Inscription(i) => i.tx_hash,
            ChannelUpdateTx::AtomicWithdraw(a) => a.tx_hash,
            ChannelUpdateTx::PinDeposit(a) => a.tx_hash,
            ChannelUpdateTx::Config(tx) => tx.hash,
            ChannelUpdateTx::Custom(tx) => tx.hash,
        }
    }

    /// The inscription it carries, where its shape has exactly one.
    pub fn inscription(&self) -> (res: Option<&InscriptionInfo>)
        ensures
            match res {
                Some(info) => self.spec_inscription() == Some(*info),
                None => self.spec_inscription() is None,
            },
    {
        match self {
            ChannelUpdateTx::Inscription(i) => Some(i),
            ChannelUpdateTx::AtomicWithdraw(a) => Some(&a.inscription),
            ChannelUpdateTx::PinDeposit(a) => Some(&a.inscription),
            ChannelUpdateTx::Config(_) => None,
            ChannelUpdateTx::Custom(_) => None,
        }
    }
}

/// How the channel view changed.
#[derive(Debug, PartialEq, Eq)]
pub enum ChannelUpdate {
    /// Nothing left the view: the new view is the old one followed by
    /// `adopted`.
    Extension { adopted: Vec<ChannelUpdateTx> },
    /// `orphaned` left the view; the new view is `common_prefix` with
    /// `adopted`.
    Conflict {
        common_prefix: Vec<ChannelUpdateTx>,
        adopted: Vec<ChannelUpdateTx>,
        orphaned: Vec<ChannelUpdateTx>,
    },
}

impl ChannelUpdate {
    pub open spec fn spec_adopted(self) -> Seq<ChannelUpdateTx> {
        match self {
            ChannelUpdate::Extension { adopted } => adopted@,
            ChannelUpdate::Conflict { adopted, .. } => adopted@,
        }
    }

    pub open spec fn spec_orphaned(self) -> Seq<ChannelUpdateTx> {
        match self {
            ChannelUpdate::Extension { .. } => Seq::empty(),
            ChannelUpdate::Conflict { orphaned, .. } => orphaned@,
        }
    }

    /// What entered the view.
    pub fn adopted(&self) -> (res: &[ChannelUpdateTx])
        ensures
            res@ == self.spec_adopted(),
    {
        match self {
            ChannelUpdate::Extension { adopted } => adopted.as_slice(),
            ChannelUpdate::Conflict { adopted, .. } => adopted.as_slice(),
        }
    }

    /// What left the view; nothing when it was only extended.
    pub fn orphaned(&self) -> (res: &[ChannelUpdateTx])
        ensures
            res@ == self.spec_orphaned(),
    {
        match self {
            ChannelUpdate::Extension { .. } => &[],
            ChannelUpdate::Conflict { orphaned, .. } => orphaned.as_slice(),
        }
    }

    /// The whole view after a conflict: what stayed, then what entered. An
    /// extension does not carry it.
    pub fn canonical_chain(&self) -> (res: Option<Vec<&ChannelUpdateTx>>)
        ensures
            match self {
                ChannelUpdate::Extension { .. } => res is None,
                ChannelUpdate::Conflict { common_prefix, adopted, .. } => res matches Some(chain)
                    && chain@.len() == common_prefix@.len() + adopted@.len() && (forall|i: int|
                    0 <= i < chain@.len() ==> *(#[trigger] chain@[i]) == (common_prefix@
                        + adopted@)[i]),
            },
    {
        let (common_prefix, adopted) = match self {
            ChannelUpdate::Extension { .. } => return None,
            ChannelUpdate::Conflict { common_prefix, adopted, .. } => (common_prefix, adopted),
        };
        let mut chain: Vec<&ChannelUpdateTx> = Vec::new();
        let mut i: usize = 0;
        while i < common_prefix.len()
            invariant
                i <= common_prefix@.len(),
                chain@.len() == i,
                forall|j: int| 0 <= j < i ==> *(#[trigger] chain@[j]) == common_prefix@[j],
            decreases common_prefix@.len() - i,
        {
            chain.push(&common_prefix[i]);
            i = i + 1;
        }
        let mut i: usize = 0;
        while i < adopted.len()
            invariant
                i <= adopted@.len(),
                chain@.len() == common_prefix@.len() + i,
                forall|j: int|
                    0 <= j < chain@.len() ==> *(#[trigger] chain@[j]) == (common_prefix@
                        + adopted@)[j],
            decreases adopted@.len() - i,
        {
            chain.push(&adopted[i]);
            i = i + 1;
        }
        Some(chain)
    }
}

/// A transaction published by this sequencer.
#[derive(Debug, PartialEq, Eq)]
pub enum PublishedTx {
    Inscription(InscriptionInfo),
    AtomicWithdraw(AtomicWithdrawInfo),
}

impl PublishedTx {
    pub open spec fn spec_tx_hash(self) -> TxHash {
        match self {
            PublishedTx::Inscription(i) => i.tx_hash,
            PublishedTx::AtomicWithdraw(a) => a.tx_hash,
        }
    }

    pub open spec fn spec_inscription(self) -> InscriptionInfo {
        match self {
            PublishedTx::Inscription(i) => i,
            PublishedTx::AtomicWithdraw(a) => a.inscription,
        }
    }

    /// What it is reported as once it can no longer land.
    pub open spec fn orphaned(self) -> OrphanedTx {
        match self {
            PublishedTx::Inscription(i) => OrphanedTx::Inscription(i),
            PublishedTx::AtomicWithdraw(a) => OrphanedTx::AtomicWithdraw(a),
        }
    }

    /// The hash of the transaction.
    pub fn tx_hash(&self) -> (res: TxHash)
        ensures
            res == self.spec_tx_hash(),
    {
        match self {
            PublishedTx::Inscription(i) => i.tx_hash,
            PublishedTx::AtomicWithdraw(a) => a.tx_hash,
        }
    }

    /// The inscription it carries.
    pub fn inscription(&self) -> (res: &InscriptionInfo)
        ensures
            *res == self.spec_inscription(),
    {
        match self {
            PublishedTx::Inscription(i) => i,
            PublishedTx::AtomicWithdraw(a) => &a.inscription,
        }
    }

    /// What it is reported as once it can no longer land.
    pub fn into_orphaned(self) -> (res: OrphanedTx)
        ensures
            res == self.orphaned(),
    {
        match self {
            PublishedTx::Inscription(i) => OrphanedTx::Inscription(i),
            PublishedTx::AtomicWithdraw(a) => OrphanedTx::AtomicWithdraw(a),
        }
    }
}

/// A published transaction that can no longer land. It is published again by
/// the call that published it, with what it carries.
#[derive(Debug, PartialEq, Eq)]
pub enum OrphanedTx {
    Inscription(InscriptionInfo),
    AtomicWithdraw(AtomicWithdrawInfo),
}

/// A note the channel holds.
#[derive(Clone, Copy, Debug, PartialEq, Eq, Structural)]
pub struct ChannelNote {
    pub note_id: NoteId,
    pub value: Value,
    pub pk: ZkPublicKey,
    /// The slot of the block that created it.
    pub slot: Slot,
}

/// The channel's notes at a tip.
#[derive(Debug, PartialEq, Eq)]
pub struct ChannelWalletView {
    /// Notes at or below LIB not spent on the branch.
    pub finalized: Vec<ChannelNote>,
    /// Notes created on the branch above LIB and not spent on it.
    pub unfinalized: Vec<ChannelNote>,
}

/// Whether a transaction was accepted by this sequencer.
#[derive(Clone, Copy, Debug, PartialEq, Eq, Structural)]
pub enum TxSource {
    Local,
    Other,
}

/// Where a transaction is in its life.
#[derive(Clone, Copy, Debug, PartialEq, Eq, Structural)]
pub enum TxStatus {
    AcceptedLocally,
    PendingMempool,
    OnChain(TxSource),
    Orphaned(TxSource),
    Finalized(TxSource),
}

/// A change of a transaction's status.
#[derive(Clone, Copy, Debug, PartialEq, Eq, Structural)]
pub struct TxStatusUpdate {
    pub tx_hash: TxHash,
    pub status: TxStatus,
}

} // verus!
