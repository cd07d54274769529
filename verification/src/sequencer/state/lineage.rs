//! The channel view: which entries are in it, and how it changed.

use vstd::prelude::*;

use super::sheds::{add_msgs, lemma_empty_infos, lemma_hashes_push, lemma_msgs_push};
use super::{lemma_filter_map_push, push_infos, TxState};
use crate::collections::KeySet;
use crate::ids::{HeaderId, Key, MsgId, TxHash};
use crate::mantle::SignedOps;
use crate::sequencer::channel_tx::{listed, BlockChannelTx};
use crate::sequencer::state_model::{
    block_with, first_of_tx, has_payload, hashes, known_under, last_position, lineage_entries,
    msg_in, msg_in_neither, msg_not_in, msgs, signed_with, tx_in, with_new, PendingBundle,
};
use crate::sequencer::types::{AtomicWithdrawInfo, ChannelUpdateTx, InscriptionInfo, PinDepositInfo};

verus! {

/// The difference between two channel views.
///
/// Nothing was orphaned when the new view only extends the old one.
#[derive(Debug, PartialEq, Eq)]
pub struct ChannelUpdateInfo {
    /// Transactions that left the view.
    pub orphaned: Vec<ChannelUpdateTx>,
    /// Transactions that entered the view.
    pub adopted: Vec<ChannelUpdateTx>,
    /// The new channel tip.
    pub new_channel_tip: MsgId,
}

/// The entries of a list whose message passes a test, which is whether it is in
/// none of two sets.
fn outside_both(infos: &[InscriptionInfo], a: &KeySet<MsgId>, b: &KeySet<MsgId>) -> (res: Vec<
    InscriptionInfo,
>)
    ensures
        res@ == infos@.filter(msg_in_neither(a@, b@)),
{
    let ghost keep = msg_in_neither(a@, b@);
    let mut res: Vec<InscriptionInfo> = Vec::new();
    proof {
        reveal(Seq::filter);
        assert(infos@.take(0).filter(keep) =~= Seq::empty());
    }
    let mut i: usize = 0;
    while i < infos.len()
        invariant
            i <= infos@.len(),
            keep == msg_in_neither(a@, b@),
            res@ == infos@.take(i as int).filter(keep),
        decreases infos@.len() - i,
    {
        proof {
            let before = infos@.take(i as int);
            assert(infos@.take(i + 1) =~= before.push(infos@[i as int]));
            before.lemma_filter_push(infos@[i as int], keep);
        }
        if !a.contains(&infos[i].this_msg) && !b.contains(&infos[i].this_msg) {
            res.push(infos[i].clone());
        }
        i = i + 1;
    }
    assert(infos@.take(i as int) =~= infos@);
    res
}

/// The first transaction of a list with a hash.
fn find_signed(txs: &Vec<SignedOps>, hash: &TxHash) -> (res: Option<SignedOps>)
    ensures
        res == signed_with(txs@, *hash),
{
    assert(txs@.skip(0) =~= txs@);
    let mut i: usize = 0;
    while i < txs.len()
        invariant
            i <= txs@.len(),
            signed_with(txs@, *hash) == signed_with(txs@.skip(i as int), *hash),
        decreases txs@.len() - i,
    {
        assert(txs@.skip(i as int).drop_first() =~= txs@.skip(i + 1));
        assert(txs@.skip(i as int)[0] == txs@[i as int]);
        if txs[i].hash.same(hash) {
            return Some(txs[i].clone());
        }
        i = i + 1;
    }
    None
}

/// Whether an entry of a list has a payload.
fn any_payload(infos: &Vec<InscriptionInfo>) -> (res: bool)
    ensures
        res == infos@.any(has_payload()),
{
    let mut i: usize = 0;
    while i < infos.len()
        invariant
            i <= infos@.len(),
            forall|j: int| 0 <= j < i ==> !has_payload()(#[trigger] infos@[j]),
        decreases infos@.len() - i,
    {
        if !infos[i].payload.is_empty() {
            assert(has_payload()(infos@[i as int]));
            assert(infos@.any(has_payload()));
            return true;
        }
        i = i + 1;
    }
    assert(!infos@.any(has_payload()));
    false
}

/// Where a transaction is in a block.
fn find_tx(txs: &Vec<BlockChannelTx>, hash: &TxHash) -> (res: Option<usize>)
    ensures
        match res {
            Some(i) => i < txs@.len() && tx_in(txs@, *hash) == Some(txs@[i as int]),
            None => tx_in(txs@, *hash) is None,
        },
{
    assert(txs@.skip(0) =~= txs@);
    let mut i: usize = 0;
    while i < txs.len()
        invariant
            i <= txs@.len(),
            tx_in(txs@, *hash) == tx_in(txs@.skip(i as int), *hash),
        decreases txs@.len() - i,
    {
        assert(txs@.skip(i as int).drop_first() =~= txs@.skip(i + 1));
        assert(txs@.skip(i as int)[0] == txs@[i as int]);
        if let Some(found) = txs[i].tx_hash() {
            if found.same(hash) {
                return Some(i);
            }
        }
        i = i + 1;
    }
    None
}

impl TxState {
    /// All entries on a branch back to LIB, oldest first: message entries and
    /// config entries, in op order.
    fn infos_on_branch(&self, tip: HeaderId) -> (res: Vec<InscriptionInfo>)
        ensures
            res@ == self@.mined(tip),
    {
        let down = self.branch_of(tip);
        let ghost up = down@.reverse();
        let ghost f = self@.entries_at();
        let mut infos: Vec<InscriptionInfo> = Vec::new();
        assert(up.take(0) =~= Seq::empty());
        let mut k: usize = 0;
        while k < down.len()
            invariant
                k <= down@.len(),
                up == down@.reverse(),
                f == self@.entries_at(),
                infos@ == up.take(k as int).flat_map(f),
            decreases down@.len() - k,
        {
            let block: HeaderId = down[down.len() - 1 - k];
            let ghost before = infos@;
            proof {
                up.lemma_flat_map_take_append(f, k as int);
                assert(up[k as int] == block);
            }
            match self.block_txs.get(&block) {
                Some(stored) => {
                    let txs: &Vec<BlockChannelTx> = &stored.channel_txs;
                    let ghost g = lineage_entries();
                    assert(txs@ == self@.txs_at(block));
                    assert(txs@.take(0) =~= Seq::empty());
                    assert(before + txs@.take(0).flat_map(g) =~= before);
                    let mut i: usize = 0;
                    while i < txs.len()
                        invariant
                            i <= txs@.len(),
                            g == lineage_entries(),
                            infos@ == before + txs@.take(i as int).flat_map(g),
                        decreases txs@.len() - i,
                    {
                        proof {
                            txs@.lemma_flat_map_take_append(g, i as int);
                        }
                        push_infos(&mut infos, txs[i].infos().as_slice());
                        push_infos(&mut infos, txs[i].config_entries().as_slice());
                        assert(infos@ =~= before + txs@.take(i + 1).flat_map(g));
                        i = i + 1;
                    }
                    assert(txs@.take(i as int) =~= txs@);
                },
                None => {
                    assert(self@.txs_at(block) =~= Seq::empty());
                    assert(before + Seq::<InscriptionInfo>::empty() =~= before);
                },
            }
            k = k + 1;
        }
        assert(up.take(k as int) =~= up);
        infos
    }

    /// Pending config entries that chain from `config_tip`, in submission
    /// order.
    fn collect_pending_config_suffix(&self, config_tip: MsgId) -> (res: Vec<InscriptionInfo>)
        ensures
            res@ == self@.config_suffix(config_tip),
    {
        let landable = self.landable_configs(config_tip);
        let order = self.pending_other.keys();
        let ghost keep = self@.config_parent_in(landable@);
        let ghost f = self@.config_infos_of();
        let mut res: Vec<InscriptionInfo> = Vec::new();
        proof {
            reveal(Seq::filter);
            assert(order@.take(0).filter(keep) =~= Seq::empty());
        }
        let mut i: usize = 0;
        while i < order.len()
            invariant
                i <= order@.len(),
                keep == self@.config_parent_in(landable@),
                f == self@.config_infos_of(),
                forall|j: int|
                    0 <= j < order@.len() ==> self.pending_other@.contains_key(#[trigger] order@[j]),
                res@ == order@.take(i as int).filter(keep).flat_map(f),
            decreases order@.len() - i,
        {
            proof {
                let before = order@.take(i as int);
                assert(order@.take(i + 1) =~= before.push(order@[i as int]));
                before.lemma_filter_push(order@[i as int], keep);
                before.filter(keep).lemma_flat_map_push(f, order@[i as int]);
                assert(self.pending_other@.contains_key(order@[i as int]));
            }
            if let Some(other) = self.pending_other.get(&order[i]) {
                if let Some(parent) = other.config_parent() {
                    if landable.contains(&parent) {
                        push_infos(&mut res, other.config_infos.as_slice());
                    }
                }
            }
            i = i + 1;
        }
        assert(order@.take(i as int) =~= order@);
        res
    }

    /// The channel view at a tip: the inscriptions and configs mined on its
    /// branch, then the pending suffixes that chain from the mined tips of both
    /// lineages.
    pub fn channel_lineage(&self, tip: HeaderId) -> (res: Vec<InscriptionInfo>)
        ensures
            res@ == self@.lineage(tip),
    {
        let mut lineage = self.infos_on_branch(tip);
        let mut ids: KeySet<MsgId> = KeySet::new();
        add_msgs(&mut ids, lineage.as_slice());
        assert(ids@ =~= msgs(lineage@));
        let mut extra = self.collect_pending_suffix(self.channel_tip_at(tip));
        let mut configs = self.collect_pending_config_suffix(self.config_tip_at(tip));
        extra.append(&mut configs);
        let ghost mined = lineage@;
        assert(extra@.take(0) =~= Seq::empty());
        let mut i: usize = 0;
        while i < extra.len()
            invariant
                i <= extra@.len(),
                lineage@ == with_new(mined, extra@.take(i as int)),
                ids@ == msgs(lineage@),
            decreases extra@.len() - i,
        {
            proof {
                assert(extra@.take(i + 1).drop_last() =~= extra@.take(i as int));
                assert(extra@.take(i + 1).last() == extra@[i as int]);
                lemma_msgs_push(lineage@, extra@[i as int]);
            }
            if ids.insert(extra[i].this_msg) {
                lineage.push(extra[i].clone());
            } else {
                assert(ids@ =~= msgs(lineage@));
            }
            i = i + 1;
        }
        assert(extra@.take(i as int) =~= extra@);
        lineage
    }

    /// The ids of a lineage up to and including the finalized message or config
    /// entry, whichever comes later; none when both lie below its start. The
    /// message is matched together with its parent, so an unknown parent
    /// matches nothing.
    fn finalized_prefix_ids(&self, lineage: &[InscriptionInfo]) -> (res: KeySet<MsgId>)
        ensures
            res@ == self@.finalized_prefix(lineage@),
    {
        let ghost message = self@.is_finalized_msg();
        let ghost config = self@.is_finalized_config();
        let ghost len = lineage@.len() as int;
        let mut n: usize = lineage.len();
        while n > 0
            invariant_except_break
                n <= lineage@.len(),
                last_position(lineage@, len, message) == last_position(lineage@, n as int, message),
                last_position(lineage@, len, config) == last_position(lineage@, n as int, config),
            invariant
                message == self@.is_finalized_msg(),
                config == self@.is_finalized_config(),
                len == lineage@.len(),
            ensures
                n <= lineage@.len(),
                self@.boundary(lineage@) == n - 1,
            decreases n,
        {
            let entry = &lineage[n - 1];
            let is_message: bool = match self.finalized_parent_msg {
                Some(parent) => entry.this_msg.same(&self.finalized_msg) && entry.parent_msg.same(
                    &parent,
                ),
                None => false,
            };
            proof {
                lemma_last_position_bound(lineage@, n - 1, message);
                lemma_last_position_bound(lineage@, n - 1, config);
                assert(is_message == message(lineage@[n - 1]));
            }
            if is_message || entry.this_msg.same(&self.finalized_config) {
                break;
            }
            n = n - 1;
        }
        let mut ids: KeySet<MsgId> = KeySet::new();
        let mut i: usize = 0;
        proof {
            lemma_empty_infos();
            assert(lineage@.take(0) =~= Seq::empty());
        }
        while i < n
            invariant
                i <= n <= lineage@.len(),
                ids@ == msgs(lineage@.take(i as int)),
            decreases n - i,
        {
            proof {
                assert(lineage@.take(i + 1) =~= lineage@.take(i as int).push(lineage@[i as int]));
                lemma_msgs_push(lineage@.take(i as int), lineage@[i as int]);
            }
            let _ = ids.insert(lineage[i].this_msg);
            i = i + 1;
        }
        ids
    }

    /// How a lineage entry is reported; `None` for entries with no payload to
    /// apply.
    fn to_update_tx(&self, info: &InscriptionInfo) -> (res: Option<ChannelUpdateTx>)
        ensures
            res == self@.update_tx(*info),
    {
        let blocks = self.block_txs.keys();
        assert(blocks@.skip(0) =~= blocks@);
        let mut k: usize = 0;
        while k < blocks.len()
            invariant
                k <= blocks@.len(),
                blocks@ == self@.stored_order,
                forall|j: int|
                    0 <= j < blocks@.len() ==> self.block_txs@.contains_key(#[trigger] blocks@[j]),
                block_with(self@.stored_order, self@.stored, info.tx_hash) == block_with(
                    blocks@.skip(k as int),
                    self@.stored,
                    info.tx_hash,
                ),
            decreases blocks@.len() - k,
        {
            proof {
                assert(blocks@.skip(k as int).drop_first() =~= blocks@.skip(k + 1));
                assert(blocks@.skip(k as int)[0] == blocks@[k as int]);
                assert(self.block_txs@.contains_key(blocks@[k as int]));
            }
            if let Some(block) = self.block_txs.get(&blocks[k]) {
                assert(self@.stored[blocks@[k as int]] == block@);
                if let Some(i) = find_tx(&block.channel_txs, &info.tx_hash) {
                    return match &block.channel_txs[i] {
                        BlockChannelTx::AtomicWithdraw(a) => Some(
                            ChannelUpdateTx::AtomicWithdraw(a.clone()),
                        ),
                        BlockChannelTx::PinDeposit(a) => Some(
                            ChannelUpdateTx::PinDeposit(a.clone()),
                        ),
                        BlockChannelTx::Inscription(_) => Some(
                            ChannelUpdateTx::Inscription(info.clone()),
                        ),
                        BlockChannelTx::Config(_) => match find_signed(
                            &block.signed_txs,
                            &info.tx_hash,
                        ) {
                            Some(tx) => Some(ChannelUpdateTx::Config(tx)),
                            None => None,
                        },
                        BlockChannelTx::Custom { tx, message_entries, config_entries } => {
                            if any_payload(&listed(message_entries)) || !config_entries.is_empty() {
                                Some(ChannelUpdateTx::Custom(tx.clone()))
                            } else {
                                None
                            }
                        },
                    };
                }
            }
            k = k + 1;
        }
        // In no held block: the lineage runs through a pending transaction.
        if let Some(other) = self.pending_other.get(&info.tx_hash) {
            let tx = other.signed_tx.clone();
            return if other.pure_config {
                Some(ChannelUpdateTx::Config(tx))
            } else {
                Some(ChannelUpdateTx::Custom(tx))
            };
        }
        match self.pending.get(&info.tx_hash) {
            Some(pending) => match &pending.bundle {
                PendingBundle::Withdraw { withdraws, outputs } => Some(
                    ChannelUpdateTx::AtomicWithdraw(
                        AtomicWithdrawInfo {
                            tx_hash: info.tx_hash,
                            inscription: info.clone(),
                            withdraws: withdraws.clone(),
                            outputs: outputs.clone(),
                        },
                    ),
                ),
                PendingBundle::PinDeposit(consumed_notes) => Some(
                    ChannelUpdateTx::PinDeposit(
                        PinDepositInfo {
                            tx_hash: info.tx_hash,
                            inscription: info.clone(),
                            consumed_notes: consumed_notes.clone(),
                        },
                    ),
                ),
                PendingBundle::Plain => Some(ChannelUpdateTx::Inscription(info.clone())),
            },
            None => Some(ChannelUpdateTx::Inscription(info.clone())),
        }
    }

    /// One report per transaction: one with several entries is reported once,
    /// whole.
    fn update_txs_from_infos(&self, infos: &Vec<InscriptionInfo>) -> (res: Vec<ChannelUpdateTx>)
        ensures
            res@ == self@.update_txs(infos@),
    {
        let ghost f = self@.as_update_tx();
        let mut seen: KeySet<TxHash> = KeySet::new();
        let mut res: Vec<ChannelUpdateTx> = Vec::new();
        proof {
            lemma_empty_infos();
            assert(infos@.take(0) =~= Seq::empty());
        }
        let mut i: usize = 0;
        while i < infos.len()
            invariant
                i <= infos@.len(),
                f == self@.as_update_tx(),
                seen@ == hashes(infos@.take(i as int)),
                res@ == first_of_tx(infos@.take(i as int)).filter_map(f),
            decreases infos@.len() - i,
        {
            proof {
                let before = infos@.take(i as int);
                assert(infos@.take(i + 1) =~= before.push(infos@[i as int]));
                assert(infos@.take(i + 1).drop_last() =~= before);
                lemma_hashes_push(before, infos@[i as int]);
                lemma_filter_map_push(first_of_tx(before), infos@[i as int], f);
            }
            if seen.insert(infos[i].tx_hash) {
                if let Some(tx) = self.to_update_tx(&infos[i]) {
                    res.push(tx);
                }
            }
            i = i + 1;
        }
        assert(infos@.take(i as int) =~= infos@);
        res
    }

    /// How the channel view changed from `old_lineage`, which has to be
    /// captured before the event's block is stored, to the one at `new_tip`.
    ///
    /// What is at or below the finalized boundary, and what `finalized_now`
    /// names, is left out on both sides. `None` only when the view did not
    /// change at all: a change of entries that are not reported still moves the
    /// tip.
    pub fn detect_channel_update(
        &self,
        old_lineage: &[InscriptionInfo],
        new_tip: HeaderId,
        finalized_now: &KeySet<MsgId>,
    ) -> (res: Option<ChannelUpdateInfo>)
        ensures
            ({
                let adopted = self@.adopted_infos(old_lineage@, new_tip, finalized_now@);
                let orphaned = self@.orphaned_infos(old_lineage@, new_tip, finalized_now@);
                match res {
                    None => adopted.len() == 0 && orphaned.len() == 0,
                    Some(update) => {
                        &&& adopted.len() > 0 || orphaned.len() > 0
                        &&& update.adopted@ == self@.update_txs(adopted)
                        &&& update.orphaned@ == self@.update_txs(orphaned)
                        &&& update.new_channel_tip == self@.channel_tip(new_tip)
                    },
                }
            }),
    {
        let new_channel_tip = self.channel_tip_at(new_tip);
        let new_lineage = self.channel_lineage(new_tip);
        let mut old_ids: KeySet<MsgId> = KeySet::new();
        add_msgs(&mut old_ids, old_lineage);
        assert(old_ids@ =~= msgs(old_lineage@));
        let mut new_ids: KeySet<MsgId> = KeySet::new();
        add_msgs(&mut new_ids, new_lineage.as_slice());
        assert(new_ids@ =~= msgs(new_lineage@));
        // Each lineage stops at the LIB of its capture: what is finalized by
        // now is left out of both, so that a moved floor reads as no change.
        let mut finalized = self.finalized_prefix_ids(old_lineage);
        let new_finalized = self.finalized_prefix_ids(new_lineage.as_slice());
        finalized.extend(&new_finalized);
        finalized.extend(finalized_now);
        assert(finalized@ =~= self@.settled_ids(old_lineage@, new_lineage@, finalized_now@));
        let adopted_infos = outside_both(new_lineage.as_slice(), &old_ids, &finalized);
        let orphaned_infos = outside_both(old_lineage, &new_ids, &finalized);
        if adopted_infos.len() == 0 && orphaned_infos.len() == 0 {
            return None;
        }
        let adopted = self.update_txs_from_infos(&adopted_infos);
        let orphaned = self.update_txs_from_infos(&orphaned_infos);
        Some(ChannelUpdateInfo { orphaned, adopted, new_channel_tip })
    }

    /// The reportable channel view at `tip` above the finalized boundary, in
    /// lineage order.
    pub fn channel_view_txs(&self, tip: HeaderId, finalized_now: &KeySet<MsgId>) -> (res: Vec<
        ChannelUpdateTx,
    >)
        ensures
            res@ == self@.view_txs(tip, finalized_now@),
    {
        let lineage = self.channel_lineage(tip);
        let mut finalized = self.finalized_prefix_ids(lineage.as_slice());
        finalized.extend(finalized_now);
        let none: KeySet<MsgId> = KeySet::new();
        let rest = outside_both(lineage.as_slice(), &none, &finalized);
        proof {
            let a = msg_in_neither(none@, finalized@);
            let b = msg_not_in(self@.finalized_prefix(lineage@).union(finalized_now@));
            assert(a =~= b);
        }
        self.update_txs_from_infos(&rest)
    }

    /// The part of the view at `tip` that entries of `held` transactions chain
    /// on: those entries and every ancestor of theirs above LIB, in lineage
    /// order. A pending entry restored from a checkpoint proves that its
    /// ancestors were the view before the restart.
    pub fn lineage_under(&self, tip: HeaderId, held: &KeySet<TxHash>) -> (res: Vec<InscriptionInfo>)
        ensures
            res@ == self@.lineage(tip).filter(msg_in(known_under(self@.lineage(tip), held@))),
    {
        let lineage = self.channel_lineage(tip);
        let mut known: KeySet<MsgId> = KeySet::new();
        let mut n: usize = lineage.len();
        assert(lineage@.skip(n as int) =~= Seq::empty());
        while n > 0
            invariant
                n <= lineage@.len(),
                known@ == known_under(lineage@.skip(n as int), held@),
            decreases n,
        {
            n = n - 1;
            assert(lineage@.skip(n as int).drop_first() =~= lineage@.skip(n + 1));
            assert(lineage@.skip(n as int)[0] == lineage@[n as int]);
            if held.contains(&lineage[n].tx_hash) || known.contains(&lineage[n].this_msg) {
                let _ = known.insert(lineage[n].this_msg);
                let _ = known.insert(lineage[n].parent_msg);
            }
        }
        assert(lineage@.skip(0) =~= lineage@);
        let ghost keep = msg_in(known@);
        let mut res: Vec<InscriptionInfo> = Vec::new();
        proof {
            reveal(Seq::filter);
            assert(lineage@.take(0).filter(keep) =~= Seq::empty());
        }
        let mut i: usize = 0;
        while i < lineage.len()
            invariant
                i <= lineage@.len(),
                keep == msg_in(known@),
                res@ == lineage@.take(i as int).filter(keep),
            decreases lineage@.len() - i,
        {
            proof {
                let before = lineage@.take(i as int);
                assert(lineage@.take(i + 1) =~= before.push(lineage@[i as int]));
                before.lemma_filter_push(lineage@[i as int], keep);
            }
            if known.contains(&lineage[i].this_msg) {
                res.push(lineage[i].clone());
            }
            i = i + 1;
        }
        assert(lineage@.take(i as int) =~= lineage@);
        res
    }

    /// The stored transactions on `tip`'s branch strictly above LIB that are
    /// not pending.
    pub fn untracked_signed_txs_on_branch(&self, tip: HeaderId) -> (res: Vec<SignedOps>)
        ensures
            res@ == self@.untracked_on(tip),
    {
        let blocks = self.branch_blocks_above_lib(tip);
        let ghost f = self@.signed_txs_at();
        let ghost keep = self@.is_untracked_tx();
        let mut res: Vec<SignedOps> = Vec::new();
        proof {
            reveal(Seq::filter);
            assert(blocks@.take(0) =~= Seq::empty());
            assert(blocks@.take(0).flat_map(f).filter(keep) =~= Seq::empty());
        }
        let mut k: usize = 0;
        while k < blocks.len()
            invariant
                k <= blocks@.len(),
                f == self@.signed_txs_at(),
                keep == self@.is_untracked_tx(),
                res@ == blocks@.take(k as int).flat_map(f).filter(keep),
            decreases blocks@.len() - k,
        {
            let ghost before = blocks@.take(k as int).flat_map(f);
            proof {
                blocks@.lemma_flat_map_take_append(f, k as int);
            }
            match self.block_txs.get(&blocks[k]) {
                Some(stored) => {
                    let txs: &Vec<SignedOps> = &stored.signed_txs;
                    assert(txs@ == f(blocks@[k as int]));
                    assert(before + txs@.take(0) =~= before);
                    let mut i: usize = 0;
                    while i < txs.len()
                        invariant
                            i <= txs@.len(),
                            keep == self@.is_untracked_tx(),
                            res@ == (before + txs@.take(i as int)).filter(keep),
                        decreases txs@.len() - i,
                    {
                        proof {
                            let so_far = before + txs@.take(i as int);
                            assert(before + txs@.take(i + 1) =~= so_far.push(txs@[i as int]));
                            so_far.lemma_filter_push(txs@[i as int], keep);
                        }
                        if !self.is_tracked(&txs[i].hash) {
                            res.push(txs[i].clone());
                        }
                        i = i + 1;
                    }
                    assert(txs@.take(i as int) =~= txs@);
                },
                None => {
                    assert(f(blocks@[k as int]) =~= Seq::empty());
                    assert(before + Seq::<SignedOps>::empty() =~= before);
                },
            }
            k = k + 1;
        }
        assert(blocks@.take(k as int) =~= blocks@);
        res
    }
}

proof fn lemma_last_position_bound(
    lineage: Seq<InscriptionInfo>,
    n: int,
    matching: spec_fn(InscriptionInfo) -> bool,
)
    requires
        n >= 0,
    ensures
        -1 <= last_position(lineage, n, matching) < n || n == 0,
        last_position(lineage, n, matching) < n,
        last_position(lineage, n, matching) >= -1,
    decreases n,
{
    if n > 0 && !matching(lineage[n - 1]) {
        lemma_last_position_bound(lineage, n - 1, matching);
    }
}

} // verus!
