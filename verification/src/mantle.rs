//! Transactions and the channel operations they carry.
//!
//! Identifiers that come out of hashing — message ids, operation ids, output
//! note ids, transaction hashes — are part of the values here: whoever decodes
//! a transaction fills them in. Variable-length contents are shared, so
//! copying a transaction copies no bytes.

use std::sync::Arc;

use vstd::prelude::*;

use crate::ids::{
    Bytes32, ChannelId, Ed25519PublicKey, MsgId, NoteId, OpId, TxHash, ZkPublicKey,
};

verus! {

/// A slot number.
pub type Slot = u64;

/// An amount.
pub type Value = u64;

/// Position of a key in a channel's accredited list.
pub type ChannelKeyIndex = u16;

/// The most inputs a transaction may spend.
pub const MAX_TRANSACTION_INPUTS: usize = 255;

/// The opaque payload of a channel message; nothing is held for an empty one.
#[derive(Debug, PartialEq, Eq)]
pub struct Inscription {
    pub bytes: Option<Arc<Vec<u8>>>,
}

impl View for Inscription {
    type V = Seq<u8>;

    open spec fn view(&self) -> Seq<u8> {
        match self.bytes {
            Some(bytes) => bytes@,
            None => Seq::empty(),
        }
    }
}

impl Inscription {
    pub open spec fn spec_empty() -> Inscription {
        Inscription { bytes: None }
    }

    /// The empty payload.
    #[verifier::when_used_as_spec(spec_empty)]
    pub fn empty() -> (res: Inscription)
        ensures
            res == Inscription::spec_empty(),
    {
        Inscription { bytes: None }
    }

    pub fn new(bytes: Vec<u8>) -> (res: Inscription)
        ensures
            res@ == bytes@,
    {
        if bytes.len() == 0 {
            assert(bytes@ =~= Seq::<u8>::empty());
            Inscription { bytes: None }
        } else {
            Inscription { bytes: Some(Arc::new(bytes)) }
        }
    }

    pub fn is_empty(&self) -> (res: bool)
        ensures
            res == (self@.len() == 0),
    {
        match &self.bytes {
            Some(bytes) => bytes.len() == 0,
            None => true,
        }
    }
}

impl Clone for Inscription {
    fn clone(&self) -> (res: Self)
        ensures
            res == *self,
    {
        match &self.bytes {
            Some(bytes) => Inscription { bytes: Some(Arc::clone(bytes)) },
            None => Inscription { bytes: None },
        }
    }
}

/// The notes an operation spends, in order.
#[derive(Debug, PartialEq, Eq)]
pub struct Inputs {
    pub ids: Arc<Vec<NoteId>>,
}

impl View for Inputs {
    type V = Seq<NoteId>;

    open spec fn view(&self) -> Seq<NoteId> {
        self.ids@
    }
}

impl Inputs {
    pub fn new(ids: Vec<NoteId>) -> (res: Inputs)
        ensures
            res@ == ids@,
    {
        Inputs { ids: Arc::new(ids) }
    }
}

impl Clone for Inputs {
    fn clone(&self) -> (res: Self)
        ensures
            res == *self,
    {
        Inputs { ids: Arc::clone(&self.ids) }
    }
}

/// An amount and the key that owns it.
#[derive(Clone, Copy, Debug, PartialEq, Eq, Structural)]
pub struct Note {
    pub value: Value,
    pub pk: ZkPublicKey,
}

/// The notes an operation pays out, in order; nothing is held where there are
/// none.
#[derive(Debug, PartialEq, Eq)]
pub struct Outputs {
    pub notes: Option<Arc<Vec<Note>>>,
}

impl View for Outputs {
    type V = Seq<Note>;

    open spec fn view(&self) -> Seq<Note> {
        match self.notes {
            Some(notes) => notes@,
            None => Seq::empty(),
        }
    }
}

impl Outputs {
    pub open spec fn spec_empty() -> Outputs {
        Outputs { notes: None }
    }

    pub fn new(notes: Vec<Note>) -> (res: Outputs)
        ensures
            res@ == notes@,
    {
        if notes.len() == 0 {
            assert(notes@ =~= Seq::<Note>::empty());
            Outputs { notes: None }
        } else {
            Outputs { notes: Some(Arc::new(notes)) }
        }
    }

    /// No outputs.
    #[verifier::when_used_as_spec(spec_empty)]
    pub fn empty() -> (res: Outputs)
        ensures
            res == Outputs::spec_empty(),
    {
        Outputs { notes: None }
    }
}

impl Clone for Outputs {
    fn clone(&self) -> (res: Self)
        ensures
            res == *self,
    {
        match &self.notes {
            Some(notes) => Outputs { notes: Some(Arc::clone(notes)) },
            None => Outputs { notes: None },
        }
    }
}

/// A note created by an operation, under its id.
#[derive(Clone, Copy, Debug, PartialEq, Eq, Structural)]
pub struct Utxo {
    pub id: NoteId,
    pub note: Note,
}

/// Writes a message onto a channel.
#[derive(Debug, PartialEq, Eq)]
pub struct InscriptionOp {
    pub channel_id: ChannelId,
    pub inscription: Inscription,
    pub parent: MsgId,
    pub signer: Ed25519PublicKey,
    /// The id of the message.
    pub id: MsgId,
}

impl Clone for InscriptionOp {
    fn clone(&self) -> (res: Self)
        ensures
            res == *self,
    {
        InscriptionOp {
            channel_id: self.channel_id,
            inscription: self.inscription.clone(),
            parent: self.parent,
            signer: self.signer,
            id: self.id,
        }
    }
}

/// Replaces a channel's configuration.
#[derive(Debug, PartialEq, Eq)]
pub struct ChannelConfigOp {
    pub channel: ChannelId,
    pub parent: MsgId,
    pub keys: Arc<Vec<Ed25519PublicKey>>,
    pub posting_timeframe: u32,
    pub posting_timeout: u32,
    pub configuration_threshold: u16,
    pub transfer_threshold: u16,
    /// The id of the configuration.
    pub id: MsgId,
}

impl Clone for ChannelConfigOp {
    fn clone(&self) -> (res: Self)
        ensures
            res == *self,
    {
        ChannelConfigOp {
            channel: self.channel,
            parent: self.parent,
            keys: Arc::clone(&self.keys),
            posting_timeframe: self.posting_timeframe,
            posting_timeout: self.posting_timeout,
            configuration_threshold: self.configuration_threshold,
            transfer_threshold: self.transfer_threshold,
            id: self.id,
        }
    }
}

/// Moves notes into a channel.
#[derive(Debug, PartialEq, Eq)]
pub struct DepositOp {
    pub channel_id: ChannelId,
    pub inputs: Inputs,
    pub metadata: Arc<Vec<u8>>,
    /// The id of the operation.
    pub op_id: OpId,
}

impl Clone for DepositOp {
    fn clone(&self) -> (res: Self)
        ensures
            res == *self,
    {
        DepositOp {
            channel_id: self.channel_id,
            inputs: self.inputs.clone(),
            metadata: Arc::clone(&self.metadata),
            op_id: self.op_id,
        }
    }
}

/// Moves value out of a channel: the channel notes it spends, what it pays out,
/// and its number among the channel's withdraws.
#[derive(Debug, PartialEq, Eq)]
pub struct ChannelWithdrawOp {
    pub channel_id: ChannelId,
    pub inputs: Inputs,
    pub outputs: Outputs,
    pub withdraw_nonce: u32,
}

impl Clone for ChannelWithdrawOp {
    fn clone(&self) -> (res: Self)
        ensures
            res == *self,
    {
        ChannelWithdrawOp {
            channel_id: self.channel_id,
            inputs: self.inputs.clone(),
            outputs: self.outputs.clone(),
            withdraw_nonce: self.withdraw_nonce,
        }
    }
}

/// Spends channel notes and creates others in the same channel.
#[derive(Debug, PartialEq, Eq)]
pub struct ChannelTransferOp {
    pub channel_id: ChannelId,
    pub inputs: Inputs,
    /// The created notes, in output order.
    pub utxos: Arc<Vec<Utxo>>,
}

impl Clone for ChannelTransferOp {
    fn clone(&self) -> (res: Self)
        ensures
            res == *self,
    {
        ChannelTransferOp {
            channel_id: self.channel_id,
            inputs: self.inputs.clone(),
            utxos: Arc::clone(&self.utxos),
        }
    }
}

/// Spends ledger notes and creates others; pays the fee of a funded
/// transaction.
#[derive(Debug, PartialEq, Eq)]
pub struct TransferOp {
    pub inputs: Inputs,
    pub outputs: Outputs,
}

impl Clone for TransferOp {
    fn clone(&self) -> (res: Self)
        ensures
            res == *self,
    {
        TransferOp { inputs: self.inputs.clone(), outputs: self.outputs.clone() }
    }
}

/// One operation of a transaction.
#[derive(Debug, PartialEq, Eq)]
pub enum Op {
    ChannelInscribe(InscriptionOp),
    ChannelConfig(ChannelConfigOp),
    ChannelDeposit(DepositOp),
    ChannelWithdraw(ChannelWithdrawOp),
    ChannelTransfer(ChannelTransferOp),
    Transfer(TransferOp),
    /// An operation that has nothing to do with channels, encoded.
    Other(Arc<Vec<u8>>),
}

impl Clone for Op {
    fn clone(&self) -> (res: Self)
        ensures
            res == *self,
    {
        match self {
            Op::ChannelInscribe(op) => Op::ChannelInscribe(op.clone()),
            Op::ChannelConfig(op) => Op::ChannelConfig(op.clone()),
            Op::ChannelDeposit(op) => Op::ChannelDeposit(op.clone()),
            Op::ChannelWithdraw(op) => Op::ChannelWithdraw(op.clone()),
            Op::ChannelTransfer(op) => Op::ChannelTransfer(op.clone()),
            Op::Transfer(op) => Op::Transfer(op.clone()),
            Op::Other(bytes) => Op::Other(Arc::clone(bytes)),
        }
    }
}

/// An Ed25519 signature.
#[derive(Clone, Copy, Debug, PartialEq, Eq, Structural)]
pub struct Ed25519Signature {
    pub r: Bytes32,
    pub s: Bytes32,
}

/// A signature under the key at a position of the accredited list.
#[derive(Clone, Copy, Debug, PartialEq, Eq, Structural)]
pub struct IndexedSignature {
    pub channel_key_index: ChannelKeyIndex,
    pub signature: Ed25519Signature,
}

/// The authorisation of one operation.
#[derive(Debug, PartialEq, Eq)]
pub enum OpProof {
    Ed25519Sig(Ed25519Signature),
    ChannelMultiSigProof(Arc<Vec<IndexedSignature>>),
    /// Any other proof, encoded.
    Other(Arc<Vec<u8>>),
}

impl Clone for OpProof {
    fn clone(&self) -> (res: Self)
        ensures
            res == *self,
    {
        match self {
            OpProof::Ed25519Sig(sig) => OpProof::Ed25519Sig(*sig),
            OpProof::ChannelMultiSigProof(sigs) => OpProof::ChannelMultiSigProof(Arc::clone(sigs)),
            OpProof::Other(bytes) => OpProof::Other(Arc::clone(bytes)),
        }
    }
}

/// A transaction with one proof per operation, under its hash.
#[derive(Debug, PartialEq, Eq)]
pub struct SignedOps {
    pub hash: TxHash,
    pub ops: Arc<Vec<Op>>,
    pub proofs: Arc<Vec<OpProof>>,
}

impl SignedOps {
    pub fn new(hash: TxHash, ops: Vec<Op>, proofs: Vec<OpProof>) -> (res: SignedOps)
        ensures
            res.hash == hash,
            res.ops@ == ops@,
            res.proofs@ == proofs@,
    {
        SignedOps { hash, ops: Arc::new(ops), proofs: Arc::new(proofs) }
    }
}

impl Clone for SignedOps {
    fn clone(&self) -> (res: Self)
        ensures
            res == *self,
    {
        SignedOps {
            hash: self.hash,
            ops: Arc::clone(&self.ops),
            proofs: Arc::clone(&self.proofs),
        }
    }
}

} // verus!
