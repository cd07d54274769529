//! Reading a transaction's channel operations.

use vstd::prelude::*;

use crate::ids::{ChannelId, MsgId, TxHash};
use crate::items::{law_items_hold, Items};
use crate::mantle::{ChannelTransferOp, Inscription, Op, Outputs, SignedOps};
use crate::sequencer::types::{
    AtomicWithdrawInfo, ChannelUpdateTx, InscriptionInfo, PinDepositInfo, WithdrawInfo,
};

verus! {

/// A channel-touching transaction's content, classified once at block scan and
/// stored per block.
#[derive(Debug, PartialEq, Eq)]
pub enum BlockChannelTx {
    /// A single inscription.
    Inscription(InscriptionInfo),
    /// An inscription with its withdraws.
    AtomicWithdraw(AtomicWithdrawInfo),
    /// An inscription with a transfer that consumes an observed deposited
    /// note.
    PinDeposit(PinDepositInfo),
    /// A single config on the config lineage (`this_msg` is the config id,
    /// `parent_msg` the config parent), which does not advance the message
    /// tip.
    Config(InscriptionInfo),
    /// Any other shape: kept whole, along with its inscriptions and its
    /// configs in op order. The configs sit on the config lineage and never
    /// advance the message tip.
    Custom {
        tx: SignedOps,
        message_entries: Items<InscriptionInfo>,
        config_entries: Items<InscriptionInfo>,
    },
}

impl BlockChannelTx {
    /// The entries that advance the message tip, in op order.
    pub open spec fn spec_infos(self) -> Seq<InscriptionInfo> {
        match self {
            BlockChannelTx::Inscription(i) => seq![i],
            BlockChannelTx::AtomicWithdraw(a) => seq![a.inscription],
            BlockChannelTx::PinDeposit(a) => seq![a.inscription],
            BlockChannelTx::Config(_) => Seq::empty(),
            BlockChannelTx::Custom { message_entries, .. } => message_entries@,
        }
    }

    /// The entries on the config lineage, in op order.
    pub open spec fn spec_config_entries(self) -> Seq<InscriptionInfo> {
        match self {
            BlockChannelTx::Config(c) => seq![c],
            BlockChannelTx::Custom { config_entries, .. } => config_entries@,
            _ => Seq::empty(),
        }
    }

    /// The entry it leaves the channel at.
    pub open spec fn spec_tip_entry(self) -> Option<InscriptionInfo> {
        if self.spec_infos().len() > 0 {
            Some(self.spec_infos().last())
        } else {
            None
        }
    }

    /// The entry it leaves the config lineage at.
    pub open spec fn spec_config_tip_entry(self) -> Option<InscriptionInfo> {
        if self.spec_config_entries().len() > 0 {
            Some(self.spec_config_entries().last())
        } else {
            None
        }
    }

    /// The hash of the transaction, read off its first entry.
    pub open spec fn spec_tx_hash(self) -> Option<TxHash> {
        if self.spec_infos().len() > 0 {
            Some(self.spec_infos()[0].tx_hash)
        } else if self.spec_config_entries().len() > 0 {
            Some(self.spec_config_entries()[0].tx_hash)
        } else {
            None
        }
    }

    /// The tip-advancing entries of this transaction, in op order.
    pub fn infos(&self) -> (res: Vec<InscriptionInfo>)
        ensures
            res@ == self.spec_infos(),
    {
        let mut res: Vec<InscriptionInfo> = Vec::new();
        match self {
            BlockChannelTx::Inscription(i) => {
                res.push(i.clone());
            },
            BlockChannelTx::AtomicWithdraw(a) => {
                res.push(a.inscription.clone());
            },
            BlockChannelTx::PinDeposit(a) => {
                res.push(a.inscription.clone());
            },
            BlockChannelTx::Config(_) => {},
            BlockChannelTx::Custom { message_entries, .. } => {
                return listed(message_entries);
            },
        }
        assert(res@ =~= self.spec_infos());
        res
    }

    /// The config entries this transaction carries, in op order.
    pub fn config_entries(&self) -> (res: Vec<InscriptionInfo>)
        ensures
            res@ == self.spec_config_entries(),
    {
        let mut res: Vec<InscriptionInfo> = Vec::new();
        match self {
            BlockChannelTx::Config(c) => {
                res.push(c.clone());
            },
            BlockChannelTx::Custom { config_entries, .. } => {
                return listed(config_entries);
            },
            _ => {},
        }
        assert(res@ =~= self.spec_config_entries());
        res
    }

    /// The entry this transaction leaves the channel at (its last tip-advancing
    /// op).
    pub fn tip_entry(&self) -> (res: Option<InscriptionInfo>)
        ensures
            res == self.spec_tip_entry(),
    {
        let mut infos = self.infos();
        infos.pop()
    }

    pub fn tx_hash(&self) -> (res: Option<TxHash>)
        ensures
            res == self.spec_tx_hash(),
    {
        let infos = self.infos();
        if infos.len() > 0 {
            Some(infos[0].tx_hash)
        } else {
            let configs = self.config_entries();
            if configs.len() > 0 {
                Some(configs[0].tx_hash)
            } else {
                None
            }
        }
    }
}

impl Clone for BlockChannelTx {
    fn clone(&self) -> (res: Self)
        ensures
            res == *self,
    {
        match self {
            BlockChannelTx::Inscription(i) => BlockChannelTx::Inscription(i.clone()),
            BlockChannelTx::AtomicWithdraw(a) => BlockChannelTx::AtomicWithdraw(a.clone()),
            BlockChannelTx::PinDeposit(a) => BlockChannelTx::PinDeposit(a.clone()),
            BlockChannelTx::Config(c) => BlockChannelTx::Config(c.clone()),
            BlockChannelTx::Custom { tx, message_entries, config_entries } => BlockChannelTx::Custom {
                tx: tx.clone(),
                message_entries: message_entries.clone(),
                config_entries: config_entries.clone(),
            },
        }
    }
}

/// The entries of a list.
pub fn listed(items: &Items<InscriptionInfo>) -> (res: Vec<InscriptionInfo>)
    ensures
        res@ == items@,
{
    let refs = items.refs();
    let mut res: Vec<InscriptionInfo> = Vec::new();
    let mut i: usize = 0;
    while i < refs.len()
        invariant
            i <= refs@.len(),
            refs@.len() == items@.len(),
            forall|j: int| 0 <= j < refs@.len() ==> *(#[trigger] refs@[j]) == items@[j],
            res@ == items@.take(i as int),
        decreases refs@.len() - i,
    {
        res.push(refs[i].clone());
        assert(res@ =~= items@.take(i + 1));
        i = i + 1;
    }
    assert(items@.take(i as int) =~= items@);
    res
}

/// The inscription an operation writes onto the channel, if it does.
pub open spec fn inscription_entry(tx_hash: TxHash, channel_id: ChannelId, op: Op) -> Option<
    InscriptionInfo,
> {
    match op {
        Op::ChannelInscribe(inscribe) => if inscribe.channel_id == channel_id {
            Some(
                InscriptionInfo {
                    tx_hash,
                    parent_msg: inscribe.parent,
                    this_msg: inscribe.id,
                    payload: inscribe.inscription,
                    signer: Some(inscribe.signer),
                },
            )
        } else {
            None
        },
        _ => None,
    }
}

pub open spec fn as_inscription(tx_hash: TxHash, channel_id: ChannelId) -> spec_fn(Op) -> Option<
    InscriptionInfo,
> {
    |op: Op| inscription_entry(tx_hash, channel_id, op)
}

/// A transaction's inscriptions on the channel, in op order.
pub open spec fn inscriptions_of(tx: SignedOps, channel_id: ChannelId) -> Seq<InscriptionInfo> {
    tx.ops@.filter_map(as_inscription(tx.hash, channel_id))
}

/// The config an operation puts on the channel's config lineage, if it does.
pub open spec fn config_entry(tx_hash: TxHash, channel_id: ChannelId, op: Op) -> Option<
    InscriptionInfo,
> {
    match op {
        Op::ChannelConfig(config) => if config.channel == channel_id {
            Some(
                InscriptionInfo {
                    tx_hash,
                    parent_msg: config.parent,
                    this_msg: config.id,
                    payload: Inscription::spec_empty(),
                    signer: None,
                },
            )
        } else {
            None
        },
        _ => None,
    }
}

pub open spec fn as_config(tx_hash: TxHash, channel_id: ChannelId) -> spec_fn(Op) -> Option<
    InscriptionInfo,
> {
    |op: Op| config_entry(tx_hash, channel_id, op)
}

/// A transaction's configs of the channel, in op order.
pub open spec fn configs_of(tx: SignedOps, channel_id: ChannelId) -> Seq<InscriptionInfo> {
    tx.ops@.filter_map(as_config(tx.hash, channel_id))
}

pub open spec fn as_withdraw(tx_hash: TxHash, channel_id: ChannelId) -> spec_fn(Op) -> Option<
    WithdrawInfo,
> {
    |op: Op|
        match op {
            Op::ChannelWithdraw(withdraw) => if withdraw.channel_id == channel_id {
                Some(WithdrawInfo { tx_hash, op: withdraw })
            } else {
                None
            },
            _ => None,
        }
}

/// A transaction's withdraws from the channel, in op order.
pub open spec fn withdraws_of(tx: SignedOps, channel_id: ChannelId) -> Seq<WithdrawInfo> {
    tx.ops@.filter_map(as_withdraw(tx.hash, channel_id))
}

pub open spec fn as_channel_transfer(channel_id: ChannelId) -> spec_fn(Op) -> Option<
    ChannelTransferOp,
> {
    |op: Op|
        match op {
            Op::ChannelTransfer(transfer) => if transfer.channel_id == channel_id {
                Some(transfer)
            } else {
                None
            },
            _ => None,
        }
}

/// A transaction's transfers within the channel, in op order.
pub open spec fn transfers_of(tx: SignedOps, channel_id: ChannelId) -> Seq<ChannelTransferOp> {
    tx.ops@.filter_map(as_channel_transfer(channel_id))
}

pub open spec fn is_transfer() -> spec_fn(Op) -> bool {
    |op: Op| op is Transfer
}

/// How many ledger transfers a transaction carries.
pub open spec fn fee_transfers(ops: Seq<Op>) -> nat {
    ops.filter(is_transfer()).len()
}

/// An operation that no shape the sequencer produces for the channel carries.
pub open spec fn is_foreign(op: Op, channel_id: ChannelId) -> bool {
    match op {
        Op::ChannelInscribe(inscribe) => inscribe.channel_id != channel_id,
        Op::ChannelConfig(config) => config.channel != channel_id,
        Op::ChannelWithdraw(withdraw) => withdraw.channel_id != channel_id,
        Op::ChannelTransfer(transfer) => transfer.channel_id != channel_id,
        Op::Transfer(_) => false,
        Op::ChannelDeposit(_) => true,
        Op::Other(_) => true,
    }
}

/// Only operations the sequencer itself would put in a transaction, with at
/// most one ledger transfer to fund it.
pub open spec fn is_clean(tx: SignedOps, channel_id: ChannelId) -> bool {
    &&& forall|i: int| 0 <= i < tx.ops@.len() ==> !is_foreign(#[trigger] tx.ops@[i], channel_id)
    &&& fee_transfers(tx.ops@) <= 1
}

/// How a transaction is stored; `None` when it moves neither lineage.
pub open spec fn classification(tx: SignedOps, channel_id: ChannelId) -> Option<BlockChannelTx> {
    let inscriptions = inscriptions_of(tx, channel_id);
    let configs = configs_of(tx, channel_id);
    let withdraws = withdraws_of(tx, channel_id);
    let transfers = transfers_of(tx, channel_id);
    if inscriptions.len() == 0 && configs.len() == 0 {
        None
    } else if is_clean(tx, channel_id) && inscriptions.len() == 1 && configs.len() == 0
        && transfers.len() <= 1 {
        if withdraws.len() > 0 {
            Some(
                BlockChannelTx::AtomicWithdraw(
                    AtomicWithdrawInfo {
                        tx_hash: tx.hash,
                        inscription: inscriptions[0],
                        withdraws: Items::of(withdraws),
                        outputs: Outputs::spec_empty(),
                    },
                ),
            )
        } else if transfers.len() == 1 {
            Some(
                BlockChannelTx::PinDeposit(
                    PinDepositInfo {
                        tx_hash: tx.hash,
                        inscription: inscriptions[0],
                        consumed_notes: transfers[0].inputs,
                    },
                ),
            )
        } else {
            Some(BlockChannelTx::Inscription(inscriptions[0]))
        }
    } else if is_clean(tx, channel_id) && configs.len() == 1 && inscriptions.len() == 0
        && withdraws.len() == 0 && transfers.len() == 0 {
        Some(BlockChannelTx::Config(configs[0]))
    } else {
        Some(
            BlockChannelTx::Custom {
                tx,
                message_entries: Items::of(inscriptions),
                config_entries: Items::of(configs),
            },
        )
    }
}

/// The message tip after `ops` ran on a channel at `tip`; an unknown tip stays
/// unknown until a message is written.
pub open spec fn tip_after(ops: Seq<Op>, channel_id: ChannelId, tip: Option<MsgId>) -> Option<MsgId>
    decreases ops.len(),
{
    if ops.len() == 0 {
        tip
    } else {
        match ops.last() {
            Op::ChannelInscribe(inscribe) => if inscribe.channel_id == channel_id {
                Some(inscribe.id)
            } else {
                tip_after(ops.drop_last(), channel_id, tip)
            },
            _ => tip_after(ops.drop_last(), channel_id, tip),
        }
    }
}

/// Every inscription on the channel chains off the message before it, where
/// that is known.
pub open spec fn ops_in_order(ops: Seq<Op>, channel_id: ChannelId, tip: Option<MsgId>) -> bool {
    forall|i: int|
        0 <= i < ops.len() ==> match #[trigger] ops[i] {
            Op::ChannelInscribe(inscribe) => inscribe.channel_id == channel_id ==> (tip_after(
                ops.take(i),
                channel_id,
                tip,
            ) matches Some(prev) ==> inscribe.parent == prev),
            _ => true,
        }
}

/// The message tip after a list of transactions.
pub open spec fn tip_after_txs(txs: Seq<SignedOps>, channel_id: ChannelId) -> Option<MsgId>
    decreases txs.len(),
{
    if txs.len() == 0 {
        None
    } else {
        tip_after(txs.last().ops@, channel_id, tip_after_txs(txs.drop_last(), channel_id))
    }
}

/// A transaction of a block chains off what the ones before it wrote.
pub open spec fn in_order_at(txs: Seq<SignedOps>, channel_id: ChannelId, k: int) -> bool {
    ops_in_order(txs[k].ops@, channel_id, tip_after_txs(txs.take(k), channel_id))
}

/// A block's transactions write the channel's messages in chain order.
pub open spec fn txs_in_order(txs: Seq<SignedOps>, channel_id: ChannelId) -> bool {
    forall|k: int| 0 <= k < txs.len() ==> #[trigger] in_order_at(txs, channel_id, k)
}

/// A transaction's transfers within the channel, in op order.
pub fn channel_transfers(tx: &SignedOps, channel_id: ChannelId) -> (res: Vec<ChannelTransferOp>)
    ensures
        res@ == transfers_of(*tx, channel_id),
{
    let mut res: Vec<ChannelTransferOp> = Vec::new();
    let ghost f = as_channel_transfer(channel_id);
    let mut i: usize = 0;
    while i < tx.ops.len()
        invariant
            i <= tx.ops@.len(),
            f == as_channel_transfer(channel_id),
            res@ == tx.ops@.take(i as int).filter_map(f),
        decreases tx.ops@.len() - i,
    {
        proof {
            tx.ops@.lemma_filter_map_take_succ(f, i as int);
        }
        if let Op::ChannelTransfer(transfer) = &tx.ops[i] {
            if transfer.channel_id == channel_id {
                res.push(transfer.clone());
            }
        }
        i = i + 1;
    }
    assert(tx.ops@.take(i as int) =~= tx.ops@);
    res
}

/// A transaction's channel inscriptions, in op order. Configs are not part of
/// the message lineage and yield no entries.
pub fn channel_inscriptions(tx: &SignedOps, channel_id: ChannelId) -> (res: Vec<InscriptionInfo>)
    ensures
        res@ == inscriptions_of(*tx, channel_id),
{
    let mut res: Vec<InscriptionInfo> = Vec::new();
    let ghost f = as_inscription(tx.hash, channel_id);
    let mut i: usize = 0;
    while i < tx.ops.len()
        invariant
            i <= tx.ops@.len(),
            f == as_inscription(tx.hash, channel_id),
            res@ == tx.ops@.take(i as int).filter_map(f),
        decreases tx.ops@.len() - i,
    {
        proof {
            tx.ops@.lemma_filter_map_take_succ(f, i as int);
        }
        if let Op::ChannelInscribe(inscribe) = &tx.ops[i] {
            if inscribe.channel_id == channel_id {
                res.push(
                    InscriptionInfo {
                        tx_hash: tx.hash,
                        parent_msg: inscribe.parent,
                        this_msg: inscribe.id,
                        payload: inscribe.inscription.clone(),
                        signer: Some(inscribe.signer),
                    },
                );
            }
        }
        i = i + 1;
    }
    assert(tx.ops@.take(i as int) =~= tx.ops@);
    res
}

/// A transaction's config-lineage entries for the channel, in op order.
pub fn channel_configs(tx: &SignedOps, channel_id: ChannelId) -> (res: Vec<InscriptionInfo>)
    ensures
        res@ == configs_of(*tx, channel_id),
{
    let mut res: Vec<InscriptionInfo> = Vec::new();
    let ghost f = as_config(tx.hash, channel_id);
    let mut i: usize = 0;
    while i < tx.ops.len()
        invariant
            i <= tx.ops@.len(),
            f == as_config(tx.hash, channel_id),
            res@ == tx.ops@.take(i as int).filter_map(f),
        decreases tx.ops@.len() - i,
    {
        proof {
            tx.ops@.lemma_filter_map_take_succ(f, i as int);
        }
        if let Op::ChannelConfig(config) = &tx.ops[i] {
            if config.channel == channel_id {
                res.push(
                    InscriptionInfo {
                        tx_hash: tx.hash,
                        parent_msg: config.parent,
                        this_msg: config.id,
                        payload: Inscription::empty(),
                        signer: None,
                    },
                );
            }
        }
        i = i + 1;
    }
    assert(tx.ops@.take(i as int) =~= tx.ops@);
    res
}

/// A transaction that moves the channel's message tip or its config tip.
pub open spec fn touches_tip(tx: SignedOps, channel_id: ChannelId) -> bool {
    exists|i: int|
        0 <= i < tx.ops@.len() && match #[trigger] tx.ops@[i] {
            Op::ChannelInscribe(inscribe) => inscribe.channel_id == channel_id,
            Op::ChannelConfig(config) => config.channel == channel_id,
            _ => false,
        }
}

/// Whether a transaction contains any op that advances one of the channel's
/// tips. Deposits and withdraws move none.
pub fn touches_channel_tip(tx: &SignedOps, channel_id: ChannelId) -> (res: bool)
    ensures
        res == touches_tip(*tx, channel_id),
{
    let mut i: usize = 0;
    while i < tx.ops.len()
        invariant
            i <= tx.ops@.len(),
            forall|j: int|
                0 <= j < i ==> !(match #[trigger] tx.ops@[j] {
                    Op::ChannelInscribe(inscribe) => inscribe.channel_id == channel_id,
                    Op::ChannelConfig(config) => config.channel == channel_id,
                    _ => false,
                }),
        decreases tx.ops@.len() - i,
    {
        let touches: bool = match &tx.ops[i] {
            Op::ChannelInscribe(inscribe) => inscribe.channel_id == channel_id,
            Op::ChannelConfig(config) => config.channel == channel_id,
            _ => false,
        };
        if touches {
            return true;
        }
        i = i + 1;
    }
    false
}

/// Classifies one transaction's channel ops; `None` when it has no
/// tip-advancing op and no config. `block_tip` is the running tip within the
/// block.
pub fn classify_channel_tx(
    tx: &SignedOps,
    channel_id: ChannelId,
    block_tip: &mut Option<MsgId>,
) -> (res: Option<BlockChannelTx>)
    requires
        ops_in_order(tx.ops@, channel_id, *old(block_tip)),
    ensures
        *final(block_tip) == tip_after(tx.ops@, channel_id, *old(block_tip)),
        res == classification(*tx, channel_id),
{
    let mut i: usize = 0;
    while i < tx.ops.len()
        invariant
            i <= tx.ops@.len(),
            *block_tip == tip_after(tx.ops@.take(i as int), channel_id, *old(block_tip)),
        decreases tx.ops@.len() - i,
    {
        proof {
            assert(tx.ops@.take(i + 1).drop_last() =~= tx.ops@.take(i as int));
        }
        if let Op::ChannelInscribe(inscribe) = &tx.ops[i] {
            if inscribe.channel_id == channel_id {
                *block_tip = Some(inscribe.id);
            }
        }
        i = i + 1;
    }
    assert(tx.ops@.take(i as int) =~= tx.ops@);
    classify(tx, channel_id)
}

/// Classifies one transaction's channel ops, wherever it sits in the chain.
pub fn classify(tx: &SignedOps, channel_id: ChannelId) -> (res: Option<BlockChannelTx>)
    ensures
        res == classification(*tx, channel_id),
{
    let entries = channel_inscriptions(tx, channel_id);
    let config_entries = channel_configs(tx, channel_id);
    let channel_transfers = channel_transfers(tx, channel_id);
    let mut withdraws: Vec<WithdrawInfo> = Vec::new();
    let mut transfers: usize = 0;
    let mut foreign_ops: bool = false;
    let ghost f = as_withdraw(tx.hash, channel_id);
    let mut i: usize = 0;
    while i < tx.ops.len()
        invariant
            i <= tx.ops@.len(),
            f == as_withdraw(tx.hash, channel_id),
            withdraws@ == tx.ops@.take(i as int).filter_map(f),
            transfers == fee_transfers(tx.ops@.take(i as int)),
            transfers <= i,
            foreign_ops == !(forall|j: int|
                0 <= j < i ==> !is_foreign(#[trigger] tx.ops@[j], channel_id)),
        decreases tx.ops@.len() - i,
    {
        proof {
            tx.ops@.lemma_filter_map_take_succ(f, i as int);
            let before = tx.ops@.take(i as int);
            assert(tx.ops@.take(i + 1) =~= before.push(tx.ops@[i as int]));
            before.lemma_filter_push(tx.ops@[i as int], is_transfer());
        }
        match &tx.ops[i] {
            Op::ChannelInscribe(inscribe) => {
                if inscribe.channel_id != channel_id {
                    foreign_ops = true;
                }
            },
            Op::ChannelConfig(config) => {
                if config.channel != channel_id {
                    foreign_ops = true;
                }
            },
            Op::ChannelWithdraw(withdraw) => {
                if withdraw.channel_id == channel_id {
                    withdraws.push(WithdrawInfo { tx_hash: tx.hash, op: withdraw.clone() });
                } else {
                    foreign_ops = true;
                }
            },
            Op::ChannelTransfer(transfer) => {
                if transfer.channel_id != channel_id {
                    foreign_ops = true;
                }
            },
            Op::Transfer(_) => {
                transfers = transfers + 1;
            },
            _ => {
                foreign_ops = true;
            },
        }
        i = i + 1;
    }
    assert(tx.ops@.take(i as int) =~= tx.ops@);

    if entries.len() == 0 && config_entries.len() == 0 {
        // Neither a tip-advancing op nor a config: nothing to store.
        return None;
    }
    let clean: bool = !foreign_ops && transfers <= 1;
    if clean && entries.len() == 1 && config_entries.len() == 0 && channel_transfers.len() <= 1 {
        let inscription = entries[0].clone();
        if withdraws.len() > 0 {
            // Only re-issue of our own orphaned bundle needs the outputs; an
            // observed one has none.
            Some(
                BlockChannelTx::AtomicWithdraw(
                    AtomicWithdrawInfo {
                        tx_hash: tx.hash,
                        inscription,
                        withdraws: Items::from_vec(withdraws),
                        outputs: Outputs::empty(),
                    },
                ),
            )
        } else if channel_transfers.len() == 1 {
            Some(
                BlockChannelTx::PinDeposit(
                    PinDepositInfo {
                        tx_hash: tx.hash,
                        inscription,
                        consumed_notes: channel_transfers[0].inputs.clone(),
                    },
                ),
            )
        } else {
            Some(BlockChannelTx::Inscription(inscription))
        }
    } else if clean && config_entries.len() == 1 && entries.len() == 0 && withdraws.len() == 0
        && channel_transfers.len() == 0 {
        Some(BlockChannelTx::Config(config_entries[0].clone()))
    } else {
        Some(
            BlockChannelTx::Custom {
                tx: tx.clone(),
                message_entries: Items::from_vec(entries),
                config_entries: Items::from_vec(config_entries),
            },
        )
    }
}

pub open spec fn as_classified(channel_id: ChannelId) -> spec_fn(SignedOps) -> Option<
    BlockChannelTx,
> {
    |tx: SignedOps| classification(tx, channel_id)
}

/// The channel-touching transactions of a list, classified, in list order.
pub open spec fn classifications(txs: Seq<SignedOps>, channel_id: ChannelId) -> Seq<BlockChannelTx> {
    txs.filter_map(as_classified(channel_id))
}

/// Classifies a block's channel-touching transactions in order.
///
/// The ledger runs operations in order and accepts an inscription only on the
/// channel's tip, so the list order is chain order and the last entry is the
/// tip after the block.
pub fn classify_channel_txs(txs: &[SignedOps], channel_id: ChannelId) -> (res: Vec<BlockChannelTx>)
    requires
        txs_in_order(txs@, channel_id),
    ensures
        res@ == classifications(txs@, channel_id),
{
    let mut block_tip: Option<MsgId> = None;
    let mut res: Vec<BlockChannelTx> = Vec::new();
    let ghost f = as_classified(channel_id);
    let mut i: usize = 0;
    while i < txs.len()
        invariant
            i <= txs@.len(),
            txs_in_order(txs@, channel_id),
            f == as_classified(channel_id),
            block_tip == tip_after_txs(txs@.take(i as int), channel_id),
            res@ == txs@.take(i as int).filter_map(f),
        decreases txs@.len() - i,
    {
        proof {
            txs@.lemma_filter_map_take_succ(f, i as int);
            assert(txs@.take(i + 1).drop_last() =~= txs@.take(i as int));
            assert(in_order_at(txs@, channel_id, i as int));
        }
        match classify_channel_tx(&txs[i], channel_id, &mut block_tip) {
            Some(classified) => {
                res.push(classified);
            },
            None => {},
        }
        i = i + 1;
    }
    assert(txs@.take(i as int) =~= txs@);
    res
}

/// Classifies transactions that need not chain on each other.
pub fn classify_each(txs: &[SignedOps], channel_id: ChannelId) -> (res: Vec<BlockChannelTx>)
    ensures
        res@ == classifications(txs@, channel_id),
{
    let mut res: Vec<BlockChannelTx> = Vec::new();
    let ghost f = as_classified(channel_id);
    let mut i: usize = 0;
    while i < txs.len()
        invariant
            i <= txs@.len(),
            f == as_classified(channel_id),
            res@ == txs@.take(i as int).filter_map(f),
        decreases txs@.len() - i,
    {
        proof {
            txs@.lemma_filter_map_take_succ(f, i as int);
        }
        match classify(&txs[i], channel_id) {
            Some(classified) => {
                res.push(classified);
            },
            None => {},
        }
        i = i + 1;
    }
    assert(txs@.take(i as int) =~= txs@);
    res
}

/// Whether a transaction's inscriptions chain off `tip` and off each other;
/// moves `tip` past them if they do.
fn follow_chain(ops: &[Op], channel_id: ChannelId, tip: &mut Option<MsgId>) -> (res: bool)
    ensures
        res == ops_in_order(ops@, channel_id, *old(tip)),
        res ==> *final(tip) == tip_after(ops@, channel_id, *old(tip)),
{
    let mut i: usize = 0;
    while i < ops.len()
        invariant
            i <= ops@.len(),
            *tip == tip_after(ops@.take(i as int), channel_id, *old(tip)),
            ops_in_order(ops@.take(i as int), channel_id, *old(tip)),
        decreases ops@.len() - i,
    {
        proof {
            let before = ops@.take(i as int);
            let next = ops@.take(i + 1);
            assert(next.drop_last() =~= before);
            assert forall|j: int| 0 <= j < i implies #[trigger] next.take(j) == before.take(j) by {
                assert(next.take(j) =~= before.take(j));
            }
            assert forall|j: int| 0 <= j < i implies #[trigger] next[j] == before[j] by {
            }
            assert(next.take(i as int) =~= before);
            assert(ops@.take(i as int) == before);
        }
        if let Op::ChannelInscribe(inscribe) = &ops[i] {
            if inscribe.channel_id == channel_id {
                if let Some(prev) = *tip {
                    if inscribe.parent != prev {
                        assert(!ops_in_order(ops@, channel_id, *old(tip))) by {
                            assert(ops@[i as int] == Op::ChannelInscribe(*inscribe));
                        }
                        return false;
                    }
                }
                *tip = Some(inscribe.id);
            }
        }
        i = i + 1;
    }
    assert(ops@.take(i as int) =~= ops@);
    true
}

/// Whether a block's transactions write the channel's messages in chain order.
pub fn block_in_order(txs: &[SignedOps], channel_id: ChannelId) -> (res: bool)
    ensures
        res == txs_in_order(txs@, channel_id),
{
    let mut block_tip: Option<MsgId> = None;
    let mut k: usize = 0;
    while k < txs.len()
        invariant
            k <= txs@.len(),
            block_tip == tip_after_txs(txs@.take(k as int), channel_id),
            forall|j: int| 0 <= j < k ==> #[trigger] in_order_at(txs@, channel_id, j),
        decreases txs@.len() - k,
    {
        let follows = follow_chain(txs[k].ops.as_slice(), channel_id, &mut block_tip);
        assert(follows == in_order_at(txs@, channel_id, k as int));
        if !follows {
            return false;
        }
        assert(txs@.take(k + 1).drop_last() =~= txs@.take(k as int));
        k = k + 1;
    }
    true
}

/// A transaction that is a single config, funded by at most one transfer.
pub open spec fn pure_config(tx: SignedOps, channel_id: ChannelId) -> bool {
    &&& configs_of(tx, channel_id).len() == 1
    &&& fee_transfers(tx.ops@) <= 1
    &&& forall|i: int|
        0 <= i < tx.ops@.len() ==> (match #[trigger] tx.ops@[i] {
            Op::ChannelConfig(config) => config.channel == channel_id,
            Op::Transfer(_) => true,
            _ => false,
        })
}

/// Whether `tx` is a clean single-config transaction for the channel, the
/// shape [`classify_channel_tx`] reports as [`BlockChannelTx::Config`].
pub fn is_pure_config(tx: &SignedOps, channel_id: ChannelId) -> (res: bool)
    ensures
        res == pure_config(*tx, channel_id),
{
    let mut configs: usize = 0;
    let mut transfers: usize = 0;
    let ghost f = as_config(tx.hash, channel_id);
    let mut i: usize = 0;
    while i < tx.ops.len()
        invariant
            i <= tx.ops@.len(),
            f == as_config(tx.hash, channel_id),
            configs == tx.ops@.take(i as int).filter_map(f).len(),
            transfers == fee_transfers(tx.ops@.take(i as int)),
            configs <= i,
            transfers <= i,
            forall|j: int|
                0 <= j < i ==> (match #[trigger] tx.ops@[j] {
                    Op::ChannelConfig(config) => config.channel == channel_id,
                    Op::Transfer(_) => true,
                    _ => false,
                }),
        decreases tx.ops@.len() - i,
    {
        proof {
            tx.ops@.lemma_filter_map_take_succ(f, i as int);
            let before = tx.ops@.take(i as int);
            assert(tx.ops@.take(i + 1) =~= before.push(tx.ops@[i as int]));
            before.lemma_filter_push(tx.ops@[i as int], is_transfer());
        }
        match &tx.ops[i] {
            Op::ChannelConfig(config) => {
                if config.channel != channel_id {
                    return false;
                }
                configs = configs + 1;
            },
            Op::Transfer(_) => {
                transfers = transfers + 1;
            },
            _ => {
                return false;
            },
        }
        i = i + 1;
    }
    assert(tx.ops@.take(i as int) =~= tx.ops@);
    configs == 1 && transfers <= 1
}

proof fn lemma_filter_map_none<A, B>(s: Seq<A>, f: spec_fn(A) -> Option<B>)
    requires
        forall|i: int| 0 <= i < s.len() ==> f(#[trigger] s[i]) is None,
    ensures
        s.filter_map(f).len() == 0,
    decreases s.len(),
{
    if s.len() > 0 {
        let rest = s.drop_last();
        assert forall|i: int| 0 <= i < rest.len() implies f(#[trigger] rest[i]) is None by {
            assert(rest[i] == s[i]);
        }
        lemma_filter_map_none(rest, f);
    }
}

proof fn lemma_filter_map_some<A, B>(s: Seq<A>, f: spec_fn(A) -> Option<B>, i: int)
    requires
        0 <= i < s.len(),
        f(s[i]) is Some,
    ensures
        s.filter_map(f).len() > 0,
    decreases s.len(),
{
    if i < s.len() - 1 {
        assert(s.drop_last()[i] == s[i]);
        lemma_filter_map_some(s.drop_last(), f, i);
    }
}

/// A config-only transaction is typed the same whether it is classified on
/// chain or when it is shed.
pub proof fn law_pure_config_is_classified_config(tx: SignedOps, channel_id: ChannelId)
    ensures
        pure_config(tx, channel_id) <==> (classification(tx, channel_id) matches Some(
            BlockChannelTx::Config(_),
        )),
{
    let ops = tx.ops@;
    if pure_config(tx, channel_id) {
        lemma_filter_map_none(ops, as_inscription(tx.hash, channel_id));
        lemma_filter_map_none(ops, as_withdraw(tx.hash, channel_id));
        lemma_filter_map_none(ops, as_channel_transfer(channel_id));
        assert(is_clean(tx, channel_id));
    }
    if classification(tx, channel_id) matches Some(BlockChannelTx::Config(_)) {
        assert forall|i: int| 0 <= i < ops.len() implies (match #[trigger] ops[i] {
            Op::ChannelConfig(config) => config.channel == channel_id,
            Op::Transfer(_) => true,
            _ => false,
        }) by {
            assert(!is_foreign(ops[i], channel_id));
            if as_inscription(tx.hash, channel_id)(ops[i]) is Some {
                lemma_filter_map_some(ops, as_inscription(tx.hash, channel_id), i);
            }
            if as_withdraw(tx.hash, channel_id)(ops[i]) is Some {
                lemma_filter_map_some(ops, as_withdraw(tx.hash, channel_id), i);
            }
            if as_channel_transfer(channel_id)(ops[i]) is Some {
                lemma_filter_map_some(ops, as_channel_transfer(channel_id), i);
            }
        }
    }
}

/// A config never moves the message tip: a transaction stored as a config has
/// no message entry.
pub proof fn law_config_leaves_the_message_tip(tx: SignedOps, channel_id: ChannelId)
    requires
        inscriptions_of(tx, channel_id).len() == 0,
    ensures
        classification(tx, channel_id) matches Some(stored) ==> stored.spec_tip_entry() is None,
{
    broadcast use law_items_hold;

}

/// The entries a stored transaction contributes are those of its operations,
/// and it is stored exactly when it touches one of the two tips.
pub proof fn law_classification_keeps_every_entry(tx: SignedOps, channel_id: ChannelId)
    ensures
        classification(tx, channel_id) is Some <==> touches_tip(tx, channel_id),
        classification(tx, channel_id) matches Some(stored) ==> {
            &&& stored.spec_infos() == inscriptions_of(tx, channel_id)
            &&& stored.spec_config_entries() == configs_of(tx, channel_id)
            &&& stored.spec_tx_hash() == Some(tx.hash)
        },
{
    let ops = tx.ops@;
    let f = as_inscription(tx.hash, channel_id);
    let g = as_config(tx.hash, channel_id);
    if touches_tip(tx, channel_id) {
        let i = choose|i: int|
            0 <= i < ops.len() && match #[trigger] ops[i] {
                Op::ChannelInscribe(inscribe) => inscribe.channel_id == channel_id,
                Op::ChannelConfig(config) => config.channel == channel_id,
                _ => false,
            };
        if f(ops[i]) is Some {
            lemma_filter_map_some(ops, f, i);
        } else {
            lemma_filter_map_some(ops, g, i);
        }
    } else {
        assert forall|i: int| 0 <= i < ops.len() implies f(#[trigger] ops[i]) is None by {
        }
        lemma_filter_map_none(ops, f);
        assert forall|i: int| 0 <= i < ops.len() implies g(#[trigger] ops[i]) is None by {
        }
        lemma_filter_map_none(ops, g);
    }
    broadcast use law_items_hold;
    lemma_entries_carry_the_hash(ops, f, tx.hash);
    lemma_entries_carry_the_hash(ops, g, tx.hash);
    if classification(tx, channel_id) matches Some(stored) {
        if inscriptions_of(tx, channel_id).len() == 1 {
            assert(seq![inscriptions_of(tx, channel_id)[0]] =~= inscriptions_of(tx, channel_id));
        }
        if configs_of(tx, channel_id).len() == 1 {
            assert(seq![configs_of(tx, channel_id)[0]] =~= configs_of(tx, channel_id));
        }
        if configs_of(tx, channel_id).len() == 0 {
            assert(configs_of(tx, channel_id) =~= Seq::<InscriptionInfo>::empty());
        }
        if inscriptions_of(tx, channel_id).len() == 0 {
            assert(inscriptions_of(tx, channel_id) =~= Seq::<InscriptionInfo>::empty());
        }
    }
}

proof fn lemma_entries_carry_the_hash(
    ops: Seq<Op>,
    f: spec_fn(Op) -> Option<InscriptionInfo>,
    hash: TxHash,
)
    requires
        forall|op: Op| #[trigger] f(op) matches Some(info) ==> info.tx_hash == hash,
    ensures
        forall|i: int|
            0 <= i < ops.filter_map(f).len() ==> (#[trigger] ops.filter_map(f)[i]).tx_hash == hash,
    decreases ops.len(),
{
    if ops.len() > 0 {
        lemma_entries_carry_the_hash(ops.drop_last(), f, hash);
    }
}

/// Types a shed pending transaction for orphan reporting: a config-only one as
/// [`ChannelUpdateTx::Config`], anything else as [`ChannelUpdateTx::Custom`].
pub fn classify_shed_other(tx: SignedOps, channel_id: ChannelId) -> (res: ChannelUpdateTx)
    ensures
        res == shed_other_report(tx, channel_id),
{
    if is_pure_config(&tx, channel_id) {
        ChannelUpdateTx::Config(tx)
    } else {
        ChannelUpdateTx::Custom(tx)
    }
}

/// How a shed opaque transaction is reported.
pub open spec fn shed_other_report(tx: SignedOps, channel_id: ChannelId) -> ChannelUpdateTx {
    if pure_config(tx, channel_id) {
        ChannelUpdateTx::Config(tx)
    } else {
        ChannelUpdateTx::Custom(tx)
    }
}

} // verus!
