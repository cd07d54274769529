//! Handling a block event.
//!
//! Preparing an event reads what was fetched for it and may fail; applying it
//! changes the state and cannot fail. So a failed event leaves everything as
//! it was, and can be tried again.

use vstd::prelude::*;
use vstd::string::StringExecFns;

use crate::adapter::{
    deposit_lookup, resolve_deposit_events, DepositEvent, DepositOpKey, EventsReply,
};
use crate::collections::KeySet;
use crate::ids::{ChannelId, HeaderId, Key, MsgId, TxHash};
use crate::mantle::{SignedOps, Slot};
use crate::sequencer::block_fetch::{
    all_from, block_channel_deposits, demote_non_identity_pin_deposits, demoted, deposits_of,
    extract_finalized_items, finalized_items, lemma_classified_from, lemma_demoted_from,
    mined_config_entries, mirror, mirror_branch_from_store, mirror_channel_txs, mirrorable,
    mirrorable_txs, ops_of_item, our_hashes, our_txs, remirror, uncovered_config, Block, BlockEvent,
    FetchedBlock,
};
use crate::sequencer::channel_tx::{
    classifications, classify_channel_txs, txs_in_order, BlockChannelTx,
};
use crate::sequencer::channel_wallet::{note_ops_from_txs, note_ops_of, NoteOp};
use crate::sequencer::state::lineage::ChannelUpdateInfo;
use crate::sequencer::state::{lemma_filter_map_push, push_infos, TxState};
use crate::sequencer::state_model::{hashes, known_under, msg_in, StateModel};
use crate::sequencer::types::{
    ChannelUpdateTx, DepositInfo, Error, FinalizedOp, FinalizedTx, InscriptionInfo,
};
use crate::text::{decimal, push_decimal};

verus! {

/// A finalized block, read and ready to be applied.
#[derive(Debug, PartialEq, Eq)]
pub struct PreparedFinalizedBlock {
    pub block_id: HeaderId,
    pub parent_id: HeaderId,
    pub our_txs: Vec<TxHash>,
    pub channel_txs: Vec<BlockChannelTx>,
    pub items: Vec<FinalizedTx>,
    /// Note changes, applied straight to the finalized notes.
    pub note_ops: Vec<NoteOp>,
}

/// A block between the known ones and an event's, read and ready to be applied.
#[derive(Debug, PartialEq, Eq)]
pub struct BackfilledBlock {
    pub block: Block,
    pub note_ops: Vec<NoteOp>,
    /// Channel deposits of the block, in op order.
    pub deposits: Vec<DepositInfo>,
}

/// A block event, read and ready to be applied.
#[derive(Debug, PartialEq, Eq)]
pub struct PreparedBlockEvent {
    pub block: Block,
    pub tip: HeaderId,
    pub lib: HeaderId,
    pub lib_slot: Slot,
    pub lib_advanced: bool,
    pub finalized: Vec<PreparedFinalizedBlock>,
    /// Blocks between the known ones and the event's.
    pub canonical_backfill: Vec<BackfilledBlock>,
    pub our_txs: Vec<TxHash>,
    pub channel_txs: Vec<BlockChannelTx>,
    /// Note changes of the event's block.
    pub note_ops: Vec<NoteOp>,
    pub mined_inscriptions: Vec<InscriptionInfo>,
    pub deposits: Vec<DepositInfo>,
}

/// What came of a block event.
#[derive(Debug, PartialEq, Eq)]
pub struct BlockEventResult {
    /// Finalized channel transactions, in tx-then-op order across blocks.
    pub finalized_items: Vec<FinalizedTx>,
    pub channel_update: Option<ChannelUpdateInfo>,
    /// The view above LIB without what was adopted, in lineage order.
    pub common_prefix: Vec<ChannelUpdateTx>,
    /// Inscriptions that appeared in this block, whether or not they moved the
    /// canonical channel.
    pub mined_inscriptions: Vec<InscriptionInfo>,
    /// Channel deposits of the blocks that were filled in, then of this block,
    /// in op order.
    pub deposits: Vec<DepositInfo>,
}

/// What was fetched and settled in a range of slots.
#[derive(Debug, PartialEq, Eq)]
pub struct FetchedBatch {
    /// The channel's transactions in the range: they are pending no longer.
    pub our_tx_hashes: Vec<TxHash>,
    /// Finalized channel transactions, in block-then-tx order.
    pub items: Vec<FinalizedTx>,
}

/// A state, if there is one.
pub open spec fn state_of(state: Option<TxState>) -> Option<StateModel> {
    match state {
        Some(state) => Some(state@),
        None => None,
    }
}

/// The classified transactions of a finalized block; without a state the notes
/// are not known and nothing is re-typed.
pub open spec fn finalized_channel_txs(
    txs: Seq<SignedOps>,
    channel_id: ChannelId,
    m: Option<StateModel>,
) -> Seq<BlockChannelTx> {
    match m {
        Some(m) => classifications(txs, channel_id).map_values(demoted(m.wallet, txs, channel_id)),
        None => classifications(txs, channel_id),
    }
}

/// What preparing a finalized block gives.
pub open spec fn prepares_finalized(
    prepared: PreparedFinalizedBlock,
    fetched: FetchedBlock,
    channel_id: ChannelId,
    m: Option<StateModel>,
) -> bool {
    let txs = fetched.block.transactions@;
    deposit_lookup(fetched.block.id, txs, channel_id, fetched.events) matches Ok(events) && {
        &&& prepared.block_id == fetched.block.id
        &&& prepared.parent_id == fetched.block.parent_block
        &&& prepared.our_txs@ == our_hashes(txs, channel_id)
        &&& prepared.channel_txs@ == finalized_channel_txs(txs, channel_id, m)
        &&& prepared.items@ == finalized_items(txs, channel_id, fetched.block.slot, events)
        &&& prepared.note_ops@ == note_ops_of(txs, channel_id, events, fetched.block.slot)
    }
}

/// Why a list of fetched blocks cannot be prepared: the first block whose
/// deposits are not known.
pub open spec fn first_failure(fetched: Seq<FetchedBlock>, channel_id: ChannelId) -> Option<
    Seq<char>,
>
    decreases fetched.len(),
{
    if fetched.len() == 0 {
        None
    } else {
        let first = fetched[0];
        match deposit_lookup(first.block.id, first.block.transactions@, channel_id, first.events) {
            Ok(_) => first_failure(fetched.drop_first(), channel_id),
            Err(text) => Some(text),
        }
    }
}

/// The number of leading blocks whose deposits are known.
pub open spec fn usable(fetched: Seq<FetchedBlock>, channel_id: ChannelId) -> nat
    decreases fetched.len(),
{
    if fetched.len() == 0 {
        0
    } else {
        let first = fetched[0];
        match deposit_lookup(first.block.id, first.block.transactions@, channel_id, first.events) {
            Ok(_) => 1 + usable(fetched.drop_first(), channel_id),
            Err(_) => 0,
        }
    }
}

/// Every block writes the channel's messages in chain order.
pub open spec fn all_in_order(fetched: Seq<FetchedBlock>, channel_id: ChannelId) -> bool {
    forall|i: int|
        0 <= i < fetched.len() ==> txs_in_order(
            (#[trigger] fetched[i]).block.transactions@,
            channel_id,
        )
}

fn prepare_finalized_block(
    fetched: &FetchedBlock,
    channel_id: ChannelId,
    state: Option<&TxState>,
) -> (res: Result<PreparedFinalizedBlock, Error>)
    requires
        txs_in_order(fetched.block.transactions@, channel_id),
    ensures
        match res {
            Ok(prepared) => prepares_finalized(
                prepared,
                *fetched,
                channel_id,
                match state {
                    Some(state) => Some(state@),
                    None => None,
                },
            ),
            Err(Error::Network(text)) => deposit_lookup(
                fetched.block.id,
                fetched.block.transactions@,
                channel_id,
                fetched.events,
            ) == Err::<Map<DepositOpKey, DepositEvent>, Seq<char>>(text@),
            Err(_) => false,
        },
{
    let block = &fetched.block;
    let txs = block.transactions.as_slice();
    let our_txs = our_txs(txs, channel_id);
    let mut channel_txs = classify_channel_txs(txs, channel_id);
    proof {
        assert(txs@.take(txs@.len() as int) =~= txs@);
        lemma_classified_from(txs@, channel_id, txs@.len() as int);
    }
    if let Some(state) = state {
        demote_non_identity_pin_deposits(&mut channel_txs, txs, channel_id, state);
    }
    let deposit_events = match resolve_deposit_events(block.id, txs, channel_id, &fetched.events) {
        Ok(events) => events,
        Err(err) => {
            return Err(err);
        },
    };
    let items = extract_finalized_items(txs, channel_id, block.slot, &deposit_events);
    let note_ops = note_ops_from_txs(txs, channel_id, &deposit_events, block.slot);
    Ok(
        PreparedFinalizedBlock {
            block_id: block.id,
            parent_id: block.parent_block,
            our_txs,
            channel_txs,
            items,
            note_ops,
        },
    )
}

/// Prepares the finalized blocks of a slot range, without touching the state.
pub fn prepare_finalized_blocks(
    fetched: &[FetchedBlock],
    channel_id: ChannelId,
    state: Option<&TxState>,
) -> (res: Result<Vec<PreparedFinalizedBlock>, Error>)
    requires
        all_in_order(fetched@, channel_id),
    ensures
        match res {
            Ok(prepared) => {
                &&& first_failure(fetched@, channel_id) is None
                &&& prepared@.len() == fetched@.len()
                &&& forall|i: int|
                    0 <= i < fetched@.len() ==> prepares_finalized(
                        #[trigger] prepared@[i],
                        fetched@[i],
                        channel_id,
                        match state {
                            Some(state) => Some(state@),
                            None => None,
                        },
                    )
            },
            Err(Error::Network(text)) => first_failure(fetched@, channel_id) == Some(text@),
            Err(_) => false,
        },
{
    let mut prepared: Vec<PreparedFinalizedBlock> = Vec::new();
    let ghost m: Option<StateModel> = match state {
        Some(state) => Some(state@),
        None => None,
    };
    assert(fetched@.skip(0) =~= fetched@);
    let mut i: usize = 0;
    while i < fetched.len()
        invariant
            i <= fetched@.len(),
            all_in_order(fetched@, channel_id),
            m == match state {
                Some(state) => Some(state@),
                None => None,
            },
            first_failure(fetched@, channel_id) == first_failure(
                fetched@.skip(i as int),
                channel_id,
            ),
            prepared@.len() == i,
            forall|j: int|
                0 <= j < i ==> prepares_finalized(
                    #[trigger] prepared@[j],
                    fetched@[j],
                    channel_id,
                    m,
                ),
        decreases fetched@.len() - i,
    {
        proof {
            assert(fetched@.skip(i as int).drop_first() =~= fetched@.skip(i + 1));
            assert(fetched@.skip(i as int)[0] == fetched@[i as int]);
            assert(txs_in_order(fetched@[i as int].block.transactions@, channel_id));
        }
        match prepare_finalized_block(&fetched[i], channel_id, state) {
            Ok(block) => {
                prepared.push(block);
            },
            Err(err) => {
                return Err(err);
            },
        }
        i = i + 1;
    }
    Ok(prepared)
}

/// The state once finalized blocks are applied.
pub open spec fn apply_finalized(m: StateModel, blocks: Seq<PreparedFinalizedBlock>) -> StateModel
    decreases blocks.len(),
{
    if blocks.len() == 0 {
        m
    } else {
        let before = apply_finalized(m, blocks.drop_last());
        let block = blocks.last();
        before.settle_notes(block.note_ops@).process_block(
            block.block_id,
            block.parent_id,
            before.lib,
            block.our_txs@,
            block.channel_txs@,
            Seq::empty(),
        )
    }
}

pub open spec fn hashes_of_block() -> spec_fn(PreparedFinalizedBlock) -> Seq<TxHash> {
    |block: PreparedFinalizedBlock| block.our_txs@
}

pub open spec fn items_of_block() -> spec_fn(PreparedFinalizedBlock) -> Seq<FinalizedTx> {
    |block: PreparedFinalizedBlock| block.items@
}

/// Applies finalized blocks: their note changes go straight to the finalized
/// notes, never through the notes of a branch.
pub fn apply_finalized_blocks(state: &mut TxState, blocks: Vec<PreparedFinalizedBlock>) -> (res:
    FetchedBatch)
    ensures
        final(state)@ == apply_finalized(old(state)@, blocks@),
        res.our_tx_hashes@ == blocks@.flat_map(hashes_of_block()),
        res.items@ == blocks@.flat_map(items_of_block()),
{
    let mut our_tx_hashes: Vec<TxHash> = Vec::new();
    let mut items: Vec<FinalizedTx> = Vec::new();
    let ghost f = hashes_of_block();
    let ghost g = items_of_block();
    assert(blocks@.take(0) =~= Seq::empty());
    let mut i: usize = 0;
    while i < blocks.len()
        invariant
            i <= blocks@.len(),
            f == hashes_of_block(),
            g == items_of_block(),
            state@ == apply_finalized(old(state)@, blocks@.take(i as int)),
            our_tx_hashes@ == blocks@.take(i as int).flat_map(f),
            items@ == blocks@.take(i as int).flat_map(g),
        decreases blocks@.len() - i,
    {
        proof {
            assert(blocks@.take(i + 1).drop_last() =~= blocks@.take(i as int));
            assert(blocks@.take(i + 1).last() == blocks@[i as int]);
            blocks@.lemma_flat_map_take_append(f, i as int);
            blocks@.lemma_flat_map_take_append(g, i as int);
        }
        let block = &blocks[i];
        push_hashes(&mut our_tx_hashes, block.our_txs.as_slice());
        push_items(&mut items, block.items.as_slice());
        let lib = state.lib();
        state.apply_finalized_note_ops(copy_note_ops(block.note_ops.as_slice()));
        let none: Vec<NoteOp> = Vec::new();
        assert(none@ =~= Seq::empty());
        state.process_block(
            block.block_id,
            block.parent_id,
            lib,
            block.our_txs.as_slice(),
            copy_classified(block.channel_txs.as_slice()),
            none,
        );
        i = i + 1;
    }
    assert(blocks@.take(i as int) =~= blocks@);
    FetchedBatch { our_tx_hashes, items }
}

fn push_hashes(list: &mut Vec<TxHash>, more: &[TxHash])
    ensures
        final(list)@ == old(list)@ + more@,
{
    let mut i: usize = 0;
    while i < more.len()
        invariant
            i <= more@.len(),
            list@ == old(list)@ + more@.take(i as int),
        decreases more@.len() - i,
    {
        list.push(more[i]);
        assert(list@ =~= old(list)@ + more@.take(i + 1));
        i = i + 1;
    }
    assert(more@.take(i as int) =~= more@);
}

fn push_items(list: &mut Vec<FinalizedTx>, more: &[FinalizedTx])
    ensures
        final(list)@ == old(list)@ + more@,
{
    let mut i: usize = 0;
    while i < more.len()
        invariant
            i <= more@.len(),
            list@ == old(list)@ + more@.take(i as int),
        decreases more@.len() - i,
    {
        list.push(more[i].clone());
        assert(list@ =~= old(list)@ + more@.take(i + 1));
        i = i + 1;
    }
    assert(more@.take(i as int) =~= more@);
}

fn copy_note_ops(ops: &[NoteOp]) -> (res: Vec<NoteOp>)
    ensures
        res@ == ops@,
{
    let mut res: Vec<NoteOp> = Vec::new();
    let mut i: usize = 0;
    while i < ops.len()
        invariant
            i <= ops@.len(),
            res@ == ops@.take(i as int),
        decreases ops@.len() - i,
    {
        res.push(ops[i]);
        assert(res@ =~= ops@.take(i + 1));
        i = i + 1;
    }
    assert(ops@.take(i as int) =~= ops@);
    res
}

fn copy_classified(txs: &[BlockChannelTx]) -> (res: Vec<BlockChannelTx>)
    ensures
        res@ == txs@,
{
    let mut res: Vec<BlockChannelTx> = Vec::new();
    let mut i: usize = 0;
    while i < txs.len()
        invariant
            i <= txs@.len(),
            res@ == txs@.take(i as int),
        decreases txs@.len() - i,
    {
        res.push(txs[i].clone());
        assert(res@ =~= txs@.take(i + 1));
        i = i + 1;
    }
    assert(txs@.take(i as int) =~= txs@);
    res
}

/// Reads a finalized slot range and applies it. On an error the state is as it
/// was.
pub fn fetch_and_process_blocks(
    state: &mut TxState,
    fetched: &[FetchedBlock],
    channel_id: ChannelId,
) -> (res: Result<FetchedBatch, Error>)
    requires
        all_in_order(fetched@, channel_id),
    ensures
        match res {
            Ok(batch) => {
                &&& first_failure(fetched@, channel_id) is None
                &&& exists|blocks: Seq<PreparedFinalizedBlock>|
                    {
                        &&& blocks.len() == fetched@.len()
                        &&& forall|i: int|
                            0 <= i < fetched@.len() ==> prepares_finalized(
                                #[trigger] blocks[i],
                                fetched@[i],
                                channel_id,
                                Some(old(state)@),
                            )
                        &&& final(state)@ == #[trigger] apply_finalized(old(state)@, blocks)
                        &&& batch.our_tx_hashes@ == blocks.flat_map(hashes_of_block())
                        &&& batch.items@ == blocks.flat_map(items_of_block())
                    }
            },
            Err(Error::Network(text)) => first_failure(fetched@, channel_id) == Some(text@)
                && final(state)@ == old(state)@,
            Err(_) => false,
        },
{
    match prepare_finalized_blocks(fetched, channel_id, Some(&*state)) {
        Ok(prepared) => {
            let ghost blocks = prepared@;
            let batch = apply_finalized_blocks(state, prepared);
            assert(state@ == apply_finalized(old(state)@, blocks));
            Ok(batch)
        },
        Err(err) => Err(err),
    }
}

/// The text of a failed request for a range of blocks.
pub open spec fn range_failure_text(from_slot: u64, to_slot: u64, reason: Seq<char>) -> Seq<char> {
    "failed to fetch blocks (slots "@ + decimal(from_slot as nat) + ".."@ + decimal(
        to_slot as nat,
    ) + "): "@ + reason
}

/// The error for a failed request for a range of blocks.
pub fn range_failure(from_slot: u64, to_slot: u64, reason: &str) -> (res: Error)
    ensures
        res matches Error::Network(text) && text@ == range_failure_text(from_slot, to_slot, reason@),
{
    let mut text = "failed to fetch blocks (slots ".to_string();
    push_decimal(&mut text, from_slot);
    text.append("..");
    push_decimal(&mut text, to_slot);
    text.append("): ");
    text.append(reason);
    assert(text@ =~= range_failure_text(from_slot, to_slot, reason@));
    Error::Network(text)
}

/// The finalized slots to fetch for a block event, first and last: those from
/// behind the last settled one up to the event's LIB, when LIB moved.
pub fn finalized_range(state_lib: Option<HeaderId>, lib_slot: Slot, lib: HeaderId, next_lib_slot: Slot) -> (res:
    Option<(u64, u64)>)
    ensures
        res == if state_lib != None::<HeaderId> && state_lib != Some(lib) && lib_slot
            < next_lib_slot {
            Some(((lib_slot + 1) as u64, next_lib_slot))
        } else {
            None
        },
{
    match state_lib {
        Some(state_lib) => if !state_lib.same(&lib) && lib_slot < next_lib_slot {
            Some((lib_slot + 1, next_lib_slot))
        } else {
            None
        },
        None => None,
    }
}

/// A block that needs no fetching: LIB, one that is being settled, or one that
/// there is state for.
pub open spec fn is_known(
    m: Option<StateModel>,
    additionally_known: Set<HeaderId>,
    lib: HeaderId,
    block: HeaderId,
) -> bool {
    ||| block == lib
    ||| additionally_known.contains(block)
    ||| m matches Some(m) && m.safe.contains_key(block)
}

/// Whether a block needs no fetching.
pub fn block_is_known(
    state: Option<&TxState>,
    additionally_known: &KeySet<HeaderId>,
    lib: HeaderId,
    block: HeaderId,
) -> (res: bool)
    ensures
        res == is_known(
            match state {
                Some(state) => Some(state@),
                None => None,
            },
            additionally_known@,
            lib,
            block,
        ),
{
    block.same(&lib) || additionally_known.contains(&block) || match state {
        Some(state) => state.has_block(&block),
        None => false,
    }
}

/// The blocks of a walk back, in the order in which they are applied.
pub open spec fn oldest_first(found: Seq<Block>) -> Seq<Block> {
    found.reverse()
}

/// The blocks of a walk back are applied parent first: where each was the parent
/// of the one found before it, each follows its parent.
pub proof fn law_walked_blocks_come_parent_first(found: Seq<Block>, i: int)
    requires
        forall|k: int|
            0 <= k < found.len() - 1 ==> (#[trigger] found[k]).parent_block == found[k + 1].id,
    ensures
        oldest_first(found).len() == found.len(),
        0 <= i < found.len() - 1 ==> oldest_first(found)[i + 1].parent_block == oldest_first(
            found,
        )[i].id,
        found.len() > 0 ==> oldest_first(found).last() == found[0],
{
    if 0 <= i < found.len() - 1 {
        let k = found.len() - 2 - i;
        assert(found[k].parent_block == found[k + 1].id);
    }
}

/// A walk from a block back to a known one, fetching what lies between.
pub struct WalkBack {
    current: HeaderId,
    fetched: Vec<Block>,
}

impl WalkBack {
    /// The block that the walk has come to.
    pub closed spec fn at(self) -> HeaderId {
        self.current
    }

    /// The blocks fetched so far, newest first.
    pub closed spec fn found(self) -> Seq<Block> {
        self.fetched@
    }

    pub fn start(from: HeaderId) -> (res: WalkBack)
        ensures
            res.at() == from,
            res.found() == Seq::<Block>::empty(),
    {
        WalkBack { current: from, fetched: Vec::new() }
    }

    /// The block to fetch next; none once a known one is reached.
    pub fn next(
        &self,
        state: Option<&TxState>,
        additionally_known: &KeySet<HeaderId>,
        lib: HeaderId,
    ) -> (res: Option<HeaderId>)
        ensures
            res == if is_known(
                match state {
                    Some(state) => Some(state@),
                    None => None,
                },
                additionally_known@,
                lib,
                self.at(),
            ) {
                None
            } else {
                Some(self.at())
            },
    {
        if block_is_known(state, additionally_known, lib, self.current) {
            None
        } else {
            Some(self.current)
        }
    }

    /// Take a fetched block and go on to its parent.
    pub fn fetched(&mut self, block: Block)
        ensures
            final(self).at() == block.parent_block,
            final(self).found() == old(self).found().push(block),
    {
        self.current = block.parent_block;
        self.fetched.push(block);
    }

    /// The fetched blocks, oldest first.
    pub fn finish(self) -> (res: Vec<Block>)
        ensures
            res@ == self.found().reverse(),
            res@ == oldest_first(self.found()),
    {
        let mut rest = self.fetched;
        let ghost all = rest@;
        let mut blocks: Vec<Block> = Vec::new();
        while rest.len() > 0
            invariant
                rest@.len() <= all.len(),
                rest@ == all.take(rest@.len() as int),
                blocks@.len() == all.len() - rest@.len(),
                forall|j: int|
                    0 <= j < blocks@.len() ==> #[trigger] blocks@[j] == all[all.len() - 1 - j],
            decreases rest@.len(),
        {
            if let Some(block) = rest.pop() {
                blocks.push(block);
            }
        }
        assert(blocks@ =~= all.reverse());
        blocks
    }
}

/// The state once a block between the known ones and the event's is applied.
pub open spec fn backfill_one(
    m: StateModel,
    backfilled: BackfilledBlock,
    lib: HeaderId,
    channel_id: ChannelId,
) -> StateModel {
    let block = backfilled.block;
    let txs = block.transactions@;
    let channel_txs = classifications(txs, channel_id).map_values(
        demoted(m.wallet, txs, channel_id),
    );
    mirror(m, channel_txs, txs, channel_id).process_block(
        block.id,
        block.parent_block,
        lib,
        our_hashes(txs, channel_id),
        channel_txs,
        backfilled.note_ops@,
    ).store_signed(block.id, mirrorable(channel_txs, txs))
}

/// The state once all of them are applied, oldest first.
pub open spec fn backfill_all(
    m: StateModel,
    blocks: Seq<BackfilledBlock>,
    lib: HeaderId,
    channel_id: ChannelId,
) -> StateModel
    decreases blocks.len(),
{
    if blocks.len() == 0 {
        m
    } else {
        backfill_one(
            backfill_all(m, blocks.drop_last(), lib, channel_id),
            blocks.last(),
            lib,
            channel_id,
        )
    }
}

/// Applies a block between the known ones and the event's.
pub fn apply_backfilled_block(
    state: &mut TxState,
    backfilled: &BackfilledBlock,
    channel_id: ChannelId,
    lib: HeaderId,
)
    requires
        txs_in_order(backfilled.block.transactions@, channel_id),
    ensures
        final(state)@ == backfill_one(old(state)@, *backfilled, lib, channel_id),
{
    let block = &backfilled.block;
    let txs = block.transactions.as_slice();
    let our_txs = our_txs(txs, channel_id);
    let mut channel_txs = classify_channel_txs(txs, channel_id);
    proof {
        assert(txs@.take(txs@.len() as int) =~= txs@);
        lemma_classified_from(txs@, channel_id, txs@.len() as int);
        lemma_demoted_from(channel_txs@, state@.wallet, txs@, channel_id);
    }
    demote_non_identity_pin_deposits(&mut channel_txs, txs, channel_id, state);
    mirror_channel_txs(state, channel_txs.as_slice(), txs, channel_id);
    let mirrorable = mirrorable_txs(channel_txs.as_slice(), txs);
    state.process_block(
        block.id,
        block.parent_block,
        lib,
        our_txs.as_slice(),
        channel_txs,
        copy_note_ops(backfilled.note_ops.as_slice()),
    );
    state.store_block_signed_txs(block.id, mirrorable);
}

/// The message or config of an operation, if it has one.
pub open spec fn msg_of_op() -> spec_fn(FinalizedOp) -> Option<MsgId> {
    |op: FinalizedOp|
        match op {
            FinalizedOp::Inscription(info) => Some(info.this_msg),
            FinalizedOp::Config(info) => Some(info.this_msg),
            _ => None,
        }
}

/// The messages and configs that a list of items settles.
pub open spec fn settled_msgs(items: Seq<FinalizedTx>) -> Set<MsgId> {
    items.flat_map(ops_of_item()).filter_map(msg_of_op()).to_set()
}

/// Collects the messages and configs that a list of items settles.
fn settled_ids(items: &Vec<FinalizedTx>) -> (res: KeySet<MsgId>)
    ensures
        res@ == settled_msgs(items@),
{
    let ghost f = ops_of_item();
    let ghost g = msg_of_op();
    let mut res: KeySet<MsgId> = KeySet::new();
    proof {
        assert(items@.take(0) =~= Seq::empty());
        assert(res@ =~= items@.take(0).flat_map(f).filter_map(g).to_set());
    }
    let mut k: usize = 0;
    while k < items.len()
        invariant
            k <= items@.len(),
            f == ops_of_item(),
            g == msg_of_op(),
            res@ == items@.take(k as int).flat_map(f).filter_map(g).to_set(),
        decreases items@.len() - k,
    {
        let ops = items[k].ops.refs();
        let ghost before = items@.take(k as int).flat_map(f);
        let ghost all = items@[k as int].ops@;
        assert(before + all.take(0) =~= before);
        let mut i: usize = 0;
        while i < ops.len()
            invariant
                i <= ops@.len(),
                ops@.len() == all.len(),
                forall|j: int| 0 <= j < ops@.len() ==> *(#[trigger] ops@[j]) == all[j],
                g == msg_of_op(),
                res@ == (before + all.take(i as int)).filter_map(g).to_set(),
            decreases ops@.len() - i,
        {
            let ghost so_far = before + all.take(i as int);
            proof {
                assert(before + all.take(i + 1) =~= so_far.push(all[i as int]));
                lemma_filter_map_push(so_far, all[i as int], g);
            }
            match ops[i] {
                FinalizedOp::Inscription(info) => {
                    proof {
                        so_far.filter_map(g).lemma_push_to_set_commute(info.this_msg);
                    }
                    let _ = res.insert(info.this_msg);
                },
                FinalizedOp::Config(info) => {
                    proof {
                        so_far.filter_map(g).lemma_push_to_set_commute(info.this_msg);
                    }
                    let _ = res.insert(info.this_msg);
                },
                _ => {},
            }
            i = i + 1;
        }
        proof {
            assert(all.take(i as int) =~= all);
            items@.lemma_flat_map_take_append(f, k as int);
        }
        k = k + 1;
    }
    assert(items@.take(k as int) =~= items@);
    res
}

/// Why a block event cannot be prepared, if it cannot.
pub open spec fn event_failure(
    event: BlockEvent,
    finalized: Seq<FetchedBlock>,
    live: EventsReply,
    channel_id: ChannelId,
) -> Option<Seq<char>> {
    match first_failure(finalized, channel_id) {
        Some(text) => Some(text),
        None => match deposit_lookup(
            event.block.id,
            event.block.transactions@,
            channel_id,
            live,
        ) {
            Ok(_) => None,
            Err(text) => Some(text),
        },
    }
}

pub open spec fn infos_of_tx() -> spec_fn(BlockChannelTx) -> Seq<InscriptionInfo> {
    |tx: BlockChannelTx| tx.spec_infos()
}

/// The inscriptions of a block, then the configs of the transactions without
/// one.
pub open spec fn mined_entries(txs: Seq<SignedOps>, channel_id: ChannelId) -> Seq<InscriptionInfo> {
    let inscriptions = classifications(txs, channel_id).flat_map(infos_of_tx());
    inscriptions + txs.filter_map(uncovered_config(hashes(inscriptions), channel_id))
}

/// What preparing a block event gives.
pub open spec fn prepares_event(
    prepared: PreparedBlockEvent,
    event: BlockEvent,
    finalized: Seq<FetchedBlock>,
    backfill: Seq<FetchedBlock>,
    live: EventsReply,
    m: Option<StateModel>,
    channel_id: ChannelId,
) -> bool {
    let txs = event.block.transactions@;
    deposit_lookup(event.block.id, txs, channel_id, live) matches Ok(events) && {
        &&& prepared.block == event.block
        &&& prepared.tip == event.tip
        &&& prepared.lib == event.lib
        &&& prepared.lib_slot == event.lib_slot
        &&& prepared.lib_advanced == (m matches Some(m) && m.lib != event.lib)
        &&& prepared.finalized@.len() == finalized.len()
        &&& forall|i: int|
            0 <= i < finalized.len() ==> prepares_finalized(
                #[trigger] prepared.finalized@[i],
                finalized[i],
                channel_id,
                m,
            )
        &&& prepared.canonical_backfill@.len() == usable(backfill, channel_id)
        &&& forall|i: int|
            0 <= i < prepared.canonical_backfill@.len() ==> prepares_backfill(
                #[trigger] prepared.canonical_backfill@[i],
                backfill[i],
                channel_id,
            )
        &&& prepared.our_txs@ == our_hashes(txs, channel_id)
        &&& prepared.channel_txs@ == classifications(txs, channel_id)
        &&& prepared.note_ops@ == note_ops_of(txs, channel_id, events, event.block.slot)
        &&& prepared.mined_inscriptions@ == mined_entries(txs, channel_id)
        &&& prepared.deposits@ == prepared.canonical_backfill@.flat_map(deposits_of_block())
            + deposits_of(txs, channel_id, event.block.slot, events)
    }
}

pub open spec fn deposits_of_block() -> spec_fn(BackfilledBlock) -> Seq<DepositInfo> {
    |block: BackfilledBlock| block.deposits@
}

/// What preparing a block between the known ones and the event's gives.
pub open spec fn prepares_backfill(
    prepared: BackfilledBlock,
    fetched: FetchedBlock,
    channel_id: ChannelId,
) -> bool {
    let txs = fetched.block.transactions@;
    deposit_lookup(fetched.block.id, txs, channel_id, fetched.events) matches Ok(events) && {
        &&& prepared.block == fetched.block
        &&& prepared.note_ops@ == note_ops_of(txs, channel_id, events, fetched.block.slot)
        &&& prepared.deposits@ == deposits_of(txs, channel_id, fetched.block.slot, events)
    }
}

/// What applying a prepared event needs: its transactions are those of its
/// block, and the blocks to fill in are in chain order.
pub open spec fn can_apply(prepared: PreparedBlockEvent, channel_id: ChannelId) -> bool {
    &&& all_from(prepared.channel_txs@, prepared.block.transactions@)
    &&& forall|i: int|
        0 <= i < prepared.canonical_backfill@.len() ==> txs_in_order(
            (#[trigger] prepared.canonical_backfill@[i]).block.transactions@,
            channel_id,
        )
}

/// Reads each block to fill in. Stops at the first whose deposits are not known
/// and keeps what came before it.
pub fn prepare_backfill_note_ops(backfill: Vec<FetchedBlock>, channel_id: ChannelId) -> (res: Vec<
    BackfilledBlock,
>)
    ensures
        res@.len() == usable(backfill@, channel_id),
        forall|i: int|
            0 <= i < res@.len() ==> prepares_backfill(
                #[trigger] res@[i],
                backfill@[i],
                channel_id,
            ),
{
    let ghost all = backfill@;
    let mut rest: Vec<FetchedBlock> = Vec::new();
    let mut backfill = backfill;
    while backfill.len() > 0
        invariant
            backfill@.len() + rest@.len() == all.len(),
            backfill@ == all.take(backfill@.len() as int),
            forall|j: int|
                0 <= j < rest@.len() ==> #[trigger] rest@[j] == all[all.len() - 1 - j],
        decreases backfill@.len(),
    {
        if let Some(fetched) = backfill.pop() {
            rest.push(fetched);
        }
    }
    let mut prepared: Vec<BackfilledBlock> = Vec::new();
    assert(all.skip(0) =~= all);
    while rest.len() > 0
        invariant_except_break
            prepared@.len() + rest@.len() == all.len(),
            forall|j: int|
                0 <= j < rest@.len() ==> #[trigger] rest@[j] == all[all.len() - 1 - j],
            usable(all, channel_id) == prepared@.len() + usable(
                all.skip(prepared@.len() as int),
                channel_id,
            ),
        invariant
            forall|i: int|
                0 <= i < prepared@.len() ==> prepares_backfill(
                    #[trigger] prepared@[i],
                    all[i],
                    channel_id,
                ),
        ensures
            usable(all, channel_id) == prepared@.len(),
        decreases rest@.len(),
    {
        let ghost n = prepared@.len() as int;
        assert(all.skip(n).drop_first() =~= all.skip(n + 1));
        if let Some(fetched) = rest.pop() {
            assert(fetched == all[n]);
            assert(all.skip(n)[0] == fetched);
            let txs = fetched.block.transactions.as_slice();
            match resolve_deposit_events(fetched.block.id, txs, channel_id, &fetched.events) {
                Ok(events) => {
                    let slot = fetched.block.slot;
                    let note_ops = note_ops_from_txs(txs, channel_id, &events, slot);
                    let deposits = block_channel_deposits(txs, channel_id, slot, &events);
                    prepared.push(BackfilledBlock { block: fetched.block, note_ops, deposits });
                },
                Err(_) => {
                    break;
                },
            }
        }
    }
    prepared
}

/// Prepares a block event from what was fetched for it: the finalized blocks of
/// the slots that LIB moved over, the blocks between the known ones and the
/// event's, and the events of the event's block. Touches no state.
pub fn prepare_block_event(
    event: BlockEvent,
    finalized: &[FetchedBlock],
    backfill: Vec<FetchedBlock>,
    live: &EventsReply,
    state: Option<&TxState>,
    channel_id: ChannelId,
) -> (res: Result<PreparedBlockEvent, Error>)
    requires
        txs_in_order(event.block.transactions@, channel_id),
        all_in_order(finalized@, channel_id),
        all_in_order(backfill@, channel_id),
    ensures
        match res {
            Ok(prepared) => {
                &&& event_failure(event, finalized@, *live, channel_id) is None
                &&& prepares_event(
                    prepared,
                    event,
                    finalized@,
                    backfill@,
                    *live,
                    match state {
                        Some(state) => Some(state@),
                        None => None,
                    },
                    channel_id,
                )
                &&& can_apply(prepared, channel_id)
            },
            Err(Error::Network(text)) => event_failure(event, finalized@, *live, channel_id)
                == Some(text@),
            Err(_) => false,
        },
{
    let lib_advanced: bool = match state {
        Some(state) => !state.lib().same(&event.lib),
        None => false,
    };
    let prepared_finalized = match prepare_finalized_blocks(finalized, channel_id, state) {
        Ok(prepared) => prepared,
        Err(err) => {
            return Err(err);
        },
    };
    let canonical_backfill = prepare_backfill_note_ops(backfill, channel_id);
    let txs = event.block.transactions.as_slice();
    let our_txs = our_txs(txs, channel_id);
    let channel_txs = classify_channel_txs(txs, channel_id);
    let mut mined_inscriptions: Vec<InscriptionInfo> = Vec::new();
    let ghost f = infos_of_tx();
    assert(channel_txs@.take(0) =~= Seq::empty());
    let mut i: usize = 0;
    while i < channel_txs.len()
        invariant
            i <= channel_txs@.len(),
            f == infos_of_tx(),
            mined_inscriptions@ == channel_txs@.take(i as int).flat_map(f),
        decreases channel_txs@.len() - i,
    {
        proof {
            channel_txs@.lemma_flat_map_take_append(f, i as int);
        }
        push_infos(&mut mined_inscriptions, channel_txs[i].infos().as_slice());
        i = i + 1;
    }
    assert(channel_txs@.take(i as int) =~= channel_txs@);
    let mut config_entries = mined_config_entries(txs, channel_id, mined_inscriptions.as_slice());
    mined_inscriptions.append(&mut config_entries);
    let deposit_events = match resolve_deposit_events(event.block.id, txs, channel_id, live) {
        Ok(events) => events,
        Err(err) => {
            return Err(err);
        },
    };
    let note_ops = note_ops_from_txs(txs, channel_id, &deposit_events, event.block.slot);
    let mut deposits = gap_deposits(&canonical_backfill);
    let mut live_deposits = block_channel_deposits(
        txs,
        channel_id,
        event.block.slot,
        &deposit_events,
    );
    deposits.append(&mut live_deposits);
    proof {
        assert(txs@.take(txs@.len() as int) =~= txs@);
        lemma_classified_from(txs@, channel_id, txs@.len() as int);
        lemma_usable_bound(backfill@, channel_id);
        assert forall|i: int| 0 <= i < canonical_backfill@.len() implies txs_in_order(
            (#[trigger] canonical_backfill@[i]).block.transactions@,
            channel_id,
        ) by {
            assert(prepares_backfill(canonical_backfill@[i], backfill@[i], channel_id));
            assert(txs_in_order(backfill@[i].block.transactions@, channel_id));
        }
    }
    Ok(
        PreparedBlockEvent {
            block: event.block,
            tip: event.tip,
            lib: event.lib,
            lib_slot: event.lib_slot,
            lib_advanced,
            finalized: prepared_finalized,
            canonical_backfill,
            our_txs,
            channel_txs,
            note_ops,
            mined_inscriptions,
            deposits,
        },
    )
}

/// The deposits of the blocks to fill in, oldest block first.
fn gap_deposits(blocks: &Vec<BackfilledBlock>) -> (res: Vec<DepositInfo>)
    ensures
        res@ == blocks@.flat_map(deposits_of_block()),
{
    let ghost f = deposits_of_block();
    let mut res: Vec<DepositInfo> = Vec::new();
    assert(blocks@.take(0) =~= Seq::empty());
    let mut k: usize = 0;
    while k < blocks.len()
        invariant
            k <= blocks@.len(),
            f == deposits_of_block(),
            res@ == blocks@.take(k as int).flat_map(f),
        decreases blocks@.len() - k,
    {
        let deposits: &Vec<DepositInfo> = &blocks[k].deposits;
        let ghost before = res@;
        assert(before + deposits@.take(0) =~= before);
        let mut i: usize = 0;
        while i < deposits.len()
            invariant
                i <= deposits@.len(),
                res@ == before + deposits@.take(i as int),
            decreases deposits@.len() - i,
        {
            res.push(deposits[i].clone());
            assert(res@ =~= before + deposits@.take(i + 1));
            i = i + 1;
        }
        proof {
            assert(deposits@.take(i as int) =~= deposits@);
            blocks@.lemma_flat_map_take_append(f, k as int);
        }
        k = k + 1;
    }
    assert(blocks@.take(k as int) =~= blocks@);
    res
}

proof fn lemma_usable_bound(fetched: Seq<FetchedBlock>, channel_id: ChannelId)
    ensures
        usable(fetched, channel_id) <= fetched.len(),
    decreases fetched.len(),
{
    if fetched.len() > 0 {
        lemma_usable_bound(fetched.drop_first(), channel_id);
    }
}

/// A change of the channel view.
#[verifier::ext_equal]
pub struct UpdateModel {
    pub orphaned: Seq<ChannelUpdateTx>,
    pub adopted: Seq<ChannelUpdateTx>,
    pub new_channel_tip: MsgId,
}

/// A change of the channel view, if there is one.
pub open spec fn update_of(update: Option<ChannelUpdateInfo>) -> Option<UpdateModel> {
    match update {
        Some(update) => Some(
            UpdateModel {
                orphaned: update.orphaned@,
                adopted: update.adopted@,
                new_channel_tip: update.new_channel_tip,
            },
        ),
        None => None,
    }
}

/// The state an event is applied to; on the first one nothing above its LIB is
/// known.
pub open spec fn event_start(m: Option<StateModel>, lib: HeaderId) -> StateModel {
    match m {
        Some(m) => m,
        None => StateModel::new(lib, MsgId::spec_root()),
    }
}

/// The state once the event's block is stored and processed.
pub open spec fn after_block(
    m: StateModel,
    prepared: PreparedBlockEvent,
    channel_id: ChannelId,
) -> StateModel {
    let block = prepared.block;
    let txs = block.transactions@;
    let channel_txs = prepared.channel_txs@.map_values(demoted(m.wallet, txs, channel_id));
    let mirrored = if block.id == prepared.tip {
        mirror(m, channel_txs, txs, channel_id)
    } else {
        m
    };
    mirrored.store_signed(block.id, mirrorable(channel_txs, txs)).process_block(
        block.id,
        block.parent_block,
        prepared.lib,
        prepared.our_txs@,
        channel_txs,
        prepared.note_ops@,
    )
}

/// The state once an event is applied: the finalized blocks, the blocks to fill
/// in, the event's own block; what became final is pending no longer, and what
/// is stored on the branch is pending again.
pub open spec fn after_event(
    start: StateModel,
    prepared: PreparedBlockEvent,
    channel_id: ChannelId,
) -> StateModel {
    let settled = apply_finalized(start, prepared.finalized@);
    let filled = backfill_all(settled, prepared.canonical_backfill@, settled.lib, channel_id);
    let processed = after_block(filled, prepared, channel_id);
    let cleaned = processed.without_all(prepared.finalized@.flat_map(hashes_of_block()));
    remirror(cleaned, prepared.tip, channel_id)
}

/// The channel view before an event: the one at the old tip, once finalized
/// blocks are applied; on the first event, what restored pending entries chain
/// on.
pub open spec fn view_before(
    start: StateModel,
    old_tip: Option<HeaderId>,
    prepared: PreparedBlockEvent,
    channel_id: ChannelId,
) -> Seq<InscriptionInfo> {
    match old_tip {
        Some(old_tip) => apply_finalized(start, prepared.finalized@).lineage(old_tip),
        None => {
            let lineage = after_event(start, prepared, channel_id).lineage(prepared.tip);
            lineage.filter(msg_in(known_under(lineage, start.held())))
        },
    }
}

pub open spec fn report_not_in(set: Set<TxHash>) -> spec_fn(ChannelUpdateTx) -> bool {
    |tx: ChannelUpdateTx| !set.contains(tx.spec_tx_hash())
}

pub open spec fn report_in(set: Set<TxHash>) -> spec_fn(ChannelUpdateTx) -> bool {
    |tx: ChannelUpdateTx| set.contains(tx.spec_tx_hash())
}

/// How a view changed from `old_lineage`. When nothing was orphaned, what was
/// pending before is not reported as adopted: it landed by the sequencer's own
/// action.
pub open spec fn update_from(
    m: StateModel,
    old_lineage: Seq<InscriptionInfo>,
    tip: HeaderId,
    finalized_now: Set<MsgId>,
    held_before: Set<TxHash>,
) -> Option<UpdateModel> {
    let adopted_infos = m.adopted_infos(old_lineage, tip, finalized_now);
    let orphaned_infos = m.orphaned_infos(old_lineage, tip, finalized_now);
    if adopted_infos.len() == 0 && orphaned_infos.len() == 0 {
        None
    } else {
        let orphaned = m.update_txs(orphaned_infos);
        let adopted = m.update_txs(adopted_infos);
        Some(
            UpdateModel {
                orphaned,
                adopted: if orphaned.len() == 0 {
                    adopted.filter(report_not_in(held_before))
                } else {
                    adopted
                },
                new_channel_tip: m.channel_tip(tip),
            },
        )
    }
}

/// The reports of a list whose transaction is, or is not, in a set.
fn keep_reports(txs: Vec<ChannelUpdateTx>, set: &KeySet<TxHash>, inside: bool) -> (res: Vec<
    ChannelUpdateTx,
>)
    ensures
        inside ==> res@ == txs@.filter(report_in(set@)),
        !inside ==> res@ == txs@.filter(report_not_in(set@)),
{
    let ghost keep = if inside {
        report_in(set@)
    } else {
        report_not_in(set@)
    };
    let mut res: Vec<ChannelUpdateTx> = Vec::new();
    proof {
        reveal(Seq::filter);
        assert(txs@.take(0).filter(keep) =~= Seq::empty());
    }
    let mut i: usize = 0;
    while i < txs.len()
        invariant
            i <= txs@.len(),
            keep == if inside {
                report_in(set@)
            } else {
                report_not_in(set@)
            },
            res@ == txs@.take(i as int).filter(keep),
        decreases txs@.len() - i,
    {
        proof {
            let before = txs@.take(i as int);
            assert(txs@.take(i + 1) =~= before.push(txs@[i as int]));
            before.lemma_filter_push(txs@[i as int], keep);
        }
        if set.contains(&txs[i].tx_hash()) == inside {
            res.push(txs[i].clone());
        }
        i = i + 1;
    }
    assert(txs@.take(i as int) =~= txs@);
    res
}

/// Stores and processes the event's block.
fn apply_live_block(state: &mut TxState, prepared: &PreparedBlockEvent, channel_id: ChannelId)
    requires
        all_from(prepared.channel_txs@, prepared.block.transactions@),
    ensures
        final(state)@ == after_block(old(state)@, *prepared, channel_id),
{
    let block = &prepared.block;
    let txs = block.transactions.as_slice();
    let mut channel_txs = copy_classified(prepared.channel_txs.as_slice());
    proof {
        lemma_demoted_from(channel_txs@, state@.wallet, txs@, channel_id);
    }
    // Before the block is stored or mirrored, so that what is reported and what
    // is pending agree.
    demote_non_identity_pin_deposits(&mut channel_txs, txs, channel_id, state);
    // Only the canonical tip is mirrored: a fork's content joins from the store
    // if its branch wins.
    if block.id.same(&prepared.tip) {
        mirror_channel_txs(state, channel_txs.as_slice(), txs, channel_id);
    }
    let mirrorable = mirrorable_txs(channel_txs.as_slice(), txs);
    state.store_block_signed_txs(block.id, mirrorable);
    state.process_block(
        block.id,
        block.parent_block,
        prepared.lib,
        prepared.our_txs.as_slice(),
        channel_txs,
        copy_note_ops(prepared.note_ops.as_slice()),
    );
}

/// Applies a prepared block event.
pub fn apply_prepared_block_event(
    prepared: PreparedBlockEvent,
    state: &mut Option<TxState>,
    current_tip: &mut Option<HeaderId>,
    lib_slot: &mut Slot,
    channel_id: ChannelId,
) -> (res: BlockEventResult)
    requires
        can_apply(prepared, channel_id),
    ensures
        ({
            let start = event_start(state_of(*old(state)), prepared.lib);
            let m = after_event(start, prepared, channel_id);
            let old_lineage = view_before(start, *old(current_tip), prepared, channel_id);
            let items = prepared.finalized@.flat_map(items_of_block());
            &&& state_of(*final(state)) == Some(m)
            &&& *final(current_tip) == Some(prepared.tip)
            &&& *final(lib_slot) == if prepared.lib_advanced {
                prepared.lib_slot
            } else {
                *old(lib_slot)
            }
            &&& res.finalized_items@ == items
            &&& update_of(res.channel_update) == update_from(
                m,
                old_lineage,
                prepared.tip,
                settled_msgs(items),
                start.held(),
            )
            &&& res.common_prefix@ == m.view_txs(prepared.tip, settled_msgs(items)).filter(
                report_in(hashes(old_lineage)),
            )
            &&& res.mined_inscriptions@ == prepared.mined_inscriptions@
            &&& res.deposits@ == prepared.deposits@
        }),
{
    let mut taken: Option<TxState> = None;
    std::mem::swap(&mut taken, state);
    let mut s = match taken {
        Some(s) => s,
        None => TxState::new(prepared.lib, MsgId::root()),
    };
    let ghost start = event_start(state_of(*old(state)), prepared.lib);
    assert(s@ == start);
    let old_tip = *current_tip;
    // What is pending before the event: on an extension it is not news.
    let held_before = s.tracked_tx_hashes();
    let mut prepared = prepared;
    let ghost whole = prepared;
    let mut finalized: Vec<PreparedFinalizedBlock> = Vec::new();
    std::mem::swap(&mut finalized, &mut prepared.finalized);
    let finalized_batch = apply_finalized_blocks(&mut s, finalized);
    let ghost settled = s@;
    if prepared.lib_advanced {
        *lib_slot = prepared.lib_slot;
    }
    // Before the blocks to fill in are stored: what the store holds belongs to
    // the view before the event.
    let captured: Option<Vec<InscriptionInfo>> = match old_tip {
        Some(old) => Some(s.channel_lineage(old)),
        None => None,
    };
    let current_lib = s.lib();
    assert(prepared.canonical_backfill@.take(0) =~= Seq::empty());
    let mut i: usize = 0;
    while i < prepared.canonical_backfill.len()
        invariant
            i <= prepared.canonical_backfill@.len(),
            can_apply(prepared, channel_id),
            current_lib == settled.lib,
            s@ == backfill_all(
                settled,
                prepared.canonical_backfill@.take(i as int),
                current_lib,
                channel_id,
            ),
        decreases prepared.canonical_backfill@.len() - i,
    {
        let backfilled = &prepared.canonical_backfill[i];
        proof {
            let all = prepared.canonical_backfill@;
            assert(all.take(i + 1).drop_last() =~= all.take(i as int));
            assert(all.take(i + 1).last() == all[i as int]);
            assert(txs_in_order(all[i as int].block.transactions@, channel_id));
        }
        apply_backfilled_block(&mut s, backfilled, channel_id, current_lib);
        i = i + 1;
    }
    assert(prepared.canonical_backfill@.take(i as int) =~= prepared.canonical_backfill@);
    let ghost filled = s@;
    apply_live_block(&mut s, &prepared, channel_id);
    assert(after_block(filled, prepared, channel_id) == after_block(filled, whole, channel_id));
    // What was settled is pending no longer.
    let ghost processed = s@;
    assert(finalized_batch.our_tx_hashes@.take(0) =~= Seq::empty());
    let mut k: usize = 0;
    while k < finalized_batch.our_tx_hashes.len()
        invariant
            k <= finalized_batch.our_tx_hashes@.len(),
            s@ == processed.without_all(finalized_batch.our_tx_hashes@.take(k as int)),
        decreases finalized_batch.our_tx_hashes@.len() - k,
    {
        proof {
            let all = finalized_batch.our_tx_hashes@;
            assert(all.take(k + 1).drop_last() =~= all.take(k as int));
            assert(all.take(k + 1).last() == all[k as int]);
        }
        let _ = s.remove_pending(&finalized_batch.our_tx_hashes[k]);
        k = k + 1;
    }
    assert(finalized_batch.our_tx_hashes@.take(k as int) =~= finalized_batch.our_tx_hashes@);
    let tip = prepared.tip;
    *current_tip = Some(tip);
    mirror_branch_from_store(&mut s, tip, channel_id);
    assert(s@ == after_event(start, whole, channel_id));

    let finalized_now = settled_ids(&finalized_batch.items);
    let old_lineage = match captured {
        Some(lineage) => lineage,
        None => s.lineage_under(tip, &held_before),
    };
    assert(old_lineage@ == view_before(start, old_tip, whole, channel_id));
    let channel_update = match s.detect_channel_update(
        old_lineage.as_slice(),
        tip,
        &finalized_now,
    ) {
        Some(update) => {
            let adopted = if update.orphaned.len() == 0 {
                keep_reports(update.adopted, &held_before, false)
            } else {
                update.adopted
            };
            Some(
                ChannelUpdateInfo {
                    orphaned: update.orphaned,
                    adopted,
                    new_channel_tip: update.new_channel_tip,
                },
            )
        },
        None => None,
    };
    // From LIB to the fork point, then the pending entries that still chain on
    // it: what the view had before the event.
    let old_txs = hash_set(&old_lineage);
    let view = s.channel_view_txs(tip, &finalized_now);
    let common_prefix = keep_reports(view, &old_txs, true);
    *state = Some(s);
    BlockEventResult {
        finalized_items: finalized_batch.items,
        channel_update,
        common_prefix,
        mined_inscriptions: prepared.mined_inscriptions,
        deposits: prepared.deposits,
    }
}

/// The transactions of a list of entries.
fn hash_set(infos: &Vec<InscriptionInfo>) -> (res: KeySet<TxHash>)
    ensures
        res@ == hashes(infos@),
{
    let mut res: KeySet<TxHash> = KeySet::new();
    crate::sequencer::state::sheds::add_hashes(&mut res, infos);
    assert(res@ =~= hashes(infos@));
    res
}

/// What handling a block event makes of the state, the tip and the LIB slot,
/// and what comes of it.
pub open spec fn event_handled(
    event: BlockEvent,
    finalized: Seq<FetchedBlock>,
    backfill: Seq<FetchedBlock>,
    live: EventsReply,
    channel_id: ChannelId,
    before: (Option<StateModel>, Option<HeaderId>, Slot),
    after: (Option<StateModel>, Option<HeaderId>, Slot),
    result: BlockEventResult,
) -> bool {
    exists|prepared: PreparedBlockEvent|
        {
            let start = event_start(before.0, event.lib);
            let m = after_event(start, prepared, channel_id);
            let old_lineage = view_before(start, before.1, prepared, channel_id);
            let items = prepared.finalized@.flat_map(items_of_block());
            &&& #[trigger] prepares_event(
                prepared,
                event,
                finalized,
                backfill,
                live,
                before.0,
                channel_id,
            )
            &&& after.0 == Some(m)
            &&& after.1 == Some(event.tip)
            &&& after.2 == if prepared.lib_advanced {
                event.lib_slot
            } else {
                before.2
            }
            &&& result.finalized_items@ == items
            &&& update_of(result.channel_update) == update_from(
                m,
                old_lineage,
                event.tip,
                settled_msgs(items),
                start.held(),
            )
            &&& result.common_prefix@ == m.view_txs(event.tip, settled_msgs(items)).filter(
                report_in(hashes(old_lineage)),
            )
            &&& result.mined_inscriptions@ == prepared.mined_inscriptions@
            &&& result.deposits@ == prepared.deposits@
        }
}

/// Handles a block event. On an error the state, the tip and the LIB slot are
/// as they were.
pub fn handle_block_event(
    event: BlockEvent,
    finalized: &[FetchedBlock],
    backfill: Vec<FetchedBlock>,
    live: &EventsReply,
    state: &mut Option<TxState>,
    current_tip: &mut Option<HeaderId>,
    lib_slot: &mut Slot,
    channel_id: ChannelId,
) -> (res: Result<BlockEventResult, Error>)
    requires
        txs_in_order(event.block.transactions@, channel_id),
        all_in_order(finalized@, channel_id),
        all_in_order(backfill@, channel_id),
    ensures
        match res {
            Ok(result) => {
                &&& event_failure(event, finalized@, *live, channel_id) is None
                &&& event_handled(
                    event,
                    finalized@,
                    backfill@,
                    *live,
                    channel_id,
                    (state_of(*old(state)), *old(current_tip), *old(lib_slot)),
                    (state_of(*final(state)), *final(current_tip), *final(lib_slot)),
                    result,
                )
            },
            Err(Error::Network(text)) => {
                &&& event_failure(event, finalized@, *live, channel_id) == Some(text@)
                &&& *final(state) == *old(state)
                &&& *final(current_tip) == *old(current_tip)
                &&& *final(lib_slot) == *old(lib_slot)
            },
            Err(_) => false,
        },
{
    let prepared = match prepare_block_event(
        event,
        finalized,
        backfill,
        live,
        state.as_ref(),
        channel_id,
    ) {
        Ok(prepared) => prepared,
        Err(err) => {
            return Err(err);
        },
    };
    Ok(apply_prepared_block_event(prepared, state, current_tip, lib_slot, channel_id))
}

} // verus!
