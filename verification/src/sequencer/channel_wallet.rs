//! Tracks the channel's note set from block data.
//!
//! Two layers: a `base` derived from finalized blocks only, and a per-block
//! `overlay` for blocks above LIB. The view at a tip is the base plus the
//! overlay deltas of the tip's ancestor blocks, so a branch change needs no
//! revert: a different tip walks different blocks.

use vstd::prelude::*;

use crate::adapter::{
    deposit_key, knows_deposits, DepositEvent, DepositEvents, DepositOpKey,
};
use crate::collections::{other_than, KeyMap};
use crate::ids::{ChannelId, HeaderId, Key, NoteId, TxHash};
use crate::mantle::{Op, SignedOps, Slot, Utxo};
use crate::sequencer::types::{ChannelNote, ChannelWalletView, DepositNote};

verus! {

/// One channel-note mutation, in execution order.
#[derive(Clone, Copy, Debug, PartialEq, Eq, Structural)]
pub enum NoteOp {
    Add(ChannelNote),
    Remove(NoteId),
}

/// A note set after one mutation.
pub open spec fn after_op(notes: Map<NoteId, ChannelNote>, op: NoteOp) -> Map<NoteId, ChannelNote> {
    match op {
        NoteOp::Add(note) => notes.insert(note.note_id, note),
        NoteOp::Remove(id) => notes.remove(id),
    }
}

/// A note set after a list of mutations.
pub open spec fn after_ops(notes: Map<NoteId, ChannelNote>, ops: Seq<NoteOp>) -> Map<
    NoteId,
    ChannelNote,
>
    decreases ops.len(),
{
    if ops.len() == 0 {
        notes
    } else {
        after_op(after_ops(notes, ops.drop_last()), ops.last())
    }
}

/// The ids that a list of mutations removes at some point.
pub open spec fn removed_ids(ops: Seq<NoteOp>) -> Set<NoteId> {
    Set::new(|id: NoteId| ops.contains(NoteOp::Remove(id)))
}

/// The contents of a [`ChannelWallet`].
#[verifier::ext_equal]
pub struct WalletModel {
    /// Notes created below LIB and not spent below LIB.
    pub base: Map<NoteId, ChannelNote>,
    /// Note ops per unfinalized block.
    pub overlay: Map<HeaderId, Seq<NoteOp>>,
    /// The blocks of the overlay, in the order the wallet lists them.
    pub overlay_order: Seq<HeaderId>,
}

pub open spec fn ops_at(overlay: Map<HeaderId, Seq<NoteOp>>) -> spec_fn(HeaderId) -> Seq<NoteOp> {
    |block: HeaderId|
        if overlay.contains_key(block) {
            overlay[block]
        } else {
            Seq::empty()
        }
}

/// The first note that a list of mutations adds under an id.
pub open spec fn first_added(ops: Seq<NoteOp>, id: NoteId) -> Option<ChannelNote>
    decreases ops.len(),
{
    if ops.len() == 0 {
        None
    } else {
        match ops[0] {
            NoteOp::Add(note) => if note.note_id == id {
                Some(note)
            } else {
                first_added(ops.drop_first(), id)
            },
            NoteOp::Remove(_) => first_added(ops.drop_first(), id),
        }
    }
}

/// The first note that the overlay of a list of blocks adds under an id.
pub open spec fn first_added_in(
    blocks: Seq<HeaderId>,
    overlay: Map<HeaderId, Seq<NoteOp>>,
    id: NoteId,
) -> Option<ChannelNote>
    decreases blocks.len(),
{
    if blocks.len() == 0 {
        None
    } else {
        match first_added(ops_at(overlay)(blocks[0]), id) {
            Some(note) => Some(note),
            None => first_added_in(blocks.drop_first(), overlay, id),
        }
    }
}

/// Every note is under its own id.
pub open spec fn keyed(notes: Map<NoteId, ChannelNote>) -> bool {
    forall|id: NoteId| #[trigger] notes.contains_key(id) ==> notes[id].note_id == id
}

/// A list of the notes of a set, each once, in no particular order.
pub open spec fn lists_notes(list: Seq<ChannelNote>, notes: Map<NoteId, ChannelNote>) -> bool {
    exists|ids: Seq<NoteId>|
        {
            &&& #[trigger] ids.no_duplicates()
            &&& ids.to_set() == notes.dom()
            &&& list == ids.map_values(|id: NoteId| notes[id])
        }
}

/// The note set that a list spells; a later note of the same id stands.
pub open spec fn notes_from(list: Seq<ChannelNote>) -> Map<NoteId, ChannelNote>
    decreases list.len(),
{
    if list.len() == 0 {
        Map::empty()
    } else {
        notes_from(list.drop_last()).insert(list.last().note_id, list.last())
    }
}

impl WalletModel {
    pub open spec fn empty() -> WalletModel {
        WalletModel {
            base: Map::empty(),
            overlay: Map::empty(),
            overlay_order: Seq::empty(),
        }
    }

    /// Every note at LIB is under its own id.
    pub open spec fn wf(self) -> bool {
        keyed(self.base)
    }

    /// The note ops of a branch, oldest block first.
    pub open spec fn branch_ops(self, blocks: Seq<HeaderId>) -> Seq<NoteOp> {
        blocks.flat_map(ops_at(self.overlay))
    }

    /// The finalized notes that a branch leaves unspent.
    pub open spec fn finalized_on(self, blocks: Seq<HeaderId>) -> Map<NoteId, ChannelNote> {
        self.base.remove_keys(removed_ids(self.branch_ops(blocks)))
    }

    /// The notes that a branch creates and leaves unspent.
    pub open spec fn unfinalized_on(self, blocks: Seq<HeaderId>) -> Map<NoteId, ChannelNote> {
        after_ops(Map::empty(), self.branch_ops(blocks))
    }

    /// The tracked note of an id, from the base or else from the overlay.
    pub open spec fn note(self, id: NoteId) -> Option<ChannelNote> {
        if self.base.contains_key(id) {
            Some(self.base[id])
        } else {
            first_added_in(self.overlay_order, self.overlay, id)
        }
    }
}

/// Channel-note set tracker.
pub struct ChannelWallet {
    base: KeyMap<NoteId, ChannelNote>,
    overlay: KeyMap<HeaderId, Vec<NoteOp>>,
}

pub open spec fn ops_view() -> spec_fn(Vec<NoteOp>) -> Seq<NoteOp> {
    |ops: Vec<NoteOp>| ops@
}

impl View for ChannelWallet {
    type V = WalletModel;

    closed spec fn view(&self) -> WalletModel {
        WalletModel {
            base: self.base@,
            overlay: self.overlay@.map_values(ops_view()),
            overlay_order: self.overlay.order(),
        }
    }
}

/// Lists the notes of a map.
fn note_values(notes: &KeyMap<NoteId, ChannelNote>) -> (res: Vec<ChannelNote>)
    ensures
        lists_notes(res@, notes@),
{
    let ids = notes.keys();
    let mut res: Vec<ChannelNote> = Vec::new();
    let mut i: usize = 0;
    while i < ids.len()
        invariant
            i <= ids@.len(),
            forall|j: int| 0 <= j < ids@.len() ==> notes@.contains_key(#[trigger] ids@[j]),
            res@.len() == i,
            forall|j: int| 0 <= j < i ==> #[trigger] res@[j] == notes@[ids@[j]],
        decreases ids@.len() - i,
    {
        assert(notes@.contains_key(ids@[i as int]));
        if let Some(note) = notes.get(&ids[i]) {
            res.push(*note);
        }
        i = i + 1;
    }
    proof {
        assert(res@ =~= ids@.map_values(|id: NoteId| notes@[id]));
        assert(ids@.no_duplicates());
    }
    res
}

proof fn lemma_removed_push(ops: Seq<NoteOp>, op: NoteOp)
    ensures
        removed_ids(ops.push(op)) == match op {
            NoteOp::Add(_) => removed_ids(ops),
            NoteOp::Remove(id) => removed_ids(ops).insert(id),
        },
{
    let after = removed_ids(ops.push(op));
    assert forall|id: NoteId| after.contains(id) == (removed_ids(ops).contains(id) || op
        == NoteOp::Remove(id)) by {
        let r = NoteOp::Remove(id);
        if ops.push(op).contains(r) {
            let j = ops.push(op).index_of(r);
            if j < ops.len() {
                assert(ops[j] == r);
            }
        }
        if ops.contains(r) {
            let j = ops.index_of(r);
            assert(ops.push(op)[j] == r);
        }
        assert(ops.push(op)[ops.len() as int] == op);
    }
    match op {
        NoteOp::Add(_) => {
            assert(after =~= removed_ids(ops));
        },
        NoteOp::Remove(id) => {
            assert(after =~= removed_ids(ops).insert(id));
        },
    }
}

impl ChannelWallet {
    pub fn new() -> (res: ChannelWallet)
        ensures
            res@ == WalletModel::empty(),
            res@.wf(),
    {
        let res = ChannelWallet { base: KeyMap::new(), overlay: KeyMap::new() };
        assert(res@.overlay =~= Map::<HeaderId, Seq<NoteOp>>::empty());
        res
    }

    /// Apply ops from finalized blocks directly to the base set.
    pub fn apply_finalized(&mut self, ops: Vec<NoteOp>)
        ensures
            final(self)@ == (WalletModel {
                base: after_ops(old(self)@.base, ops@),
                ..old(self)@
            }),
            old(self)@.wf() ==> final(self)@.wf(),
    {
        let mut i: usize = 0;
        while i < ops.len()
            invariant
                i <= ops@.len(),
                self.overlay == old(self).overlay,
                self.base@ == after_ops(old(self).base@, ops@.take(i as int)),
                old(self)@.wf() ==> keyed(self.base@),
            decreases ops@.len() - i,
        {
            assert(ops@.take(i + 1).drop_last() =~= ops@.take(i as int));
            match ops[i] {
                NoteOp::Add(note) => {
                    self.base.insert(note.note_id, note);
                },
                NoteOp::Remove(id) => {
                    let _ = self.base.remove(&id);
                },
            }
            i = i + 1;
        }
        assert(ops@.take(i as int) =~= ops@);
    }

    /// Record the note ops of an unfinalized block.
    pub fn store_overlay(&mut self, block_id: HeaderId, ops: Vec<NoteOp>)
        ensures
            final(self)@.base == old(self)@.base,
            final(self)@.overlay == if ops@.len() == 0 {
                old(self)@.overlay
            } else {
                old(self)@.overlay.insert(block_id, ops@)
            },
            final(self)@.overlay_order == if ops@.len() == 0 || old(self)@.overlay.contains_key(
                block_id,
            ) {
                old(self)@.overlay_order
            } else {
                old(self)@.overlay_order.push(block_id)
            },
    {
        if ops.len() > 0 {
            self.overlay.insert(block_id, ops);
            assert(self@.overlay =~= old(self)@.overlay.insert(block_id, ops@));
        }
    }

    /// Drop a block's overlay entry (block pruned from the store).
    pub fn prune_block(&mut self, block_id: &HeaderId)
        ensures
            final(self)@ == (WalletModel {
                base: old(self)@.base,
                overlay: old(self)@.overlay.remove(*block_id),
                overlay_order: old(self)@.overlay_order.filter(other_than(*block_id)),
            }),
    {
        let _ = self.overlay.remove(block_id);
        assert(self@.overlay =~= old(self)@.overlay.remove(*block_id));
    }

    /// The note set at a branch tip: base plus the overlay ops of
    /// `branch_blocks` (oldest first, LIB excluded: the base already covers
    /// blocks at and below LIB).
    pub fn view_at(&self, branch_blocks: &[HeaderId]) -> (res: ChannelWalletView)
        ensures
            lists_notes(res.finalized@, self@.finalized_on(branch_blocks@)),
            lists_notes(res.unfinalized@, self@.unfinalized_on(branch_blocks@)),
    {
        let mut finalized: KeyMap<NoteId, ChannelNote> = KeyMap::new();
        let base_ids = self.base.keys();
        let mut n: usize = 0;
        while n < base_ids.len()
            invariant
                n <= base_ids@.len(),
                base_ids@.no_duplicates(),
                base_ids@.to_set() == self.base@.dom(),
                finalized@ == self.base@.restrict(base_ids@.take(n as int).to_set()),
            decreases base_ids@.len() - n,
        {
            let id: NoteId = base_ids[n];
            proof {
                assert(base_ids@.to_set().contains(id));
                assert(base_ids@.take(n + 1) =~= base_ids@.take(n as int).push(id));
                base_ids@.take(n as int).lemma_push_to_set_commute(id);
            }
            if let Some(note) = self.base.get(&id) {
                finalized.insert(id, *note);
                assert(finalized@ =~= self.base@.restrict(base_ids@.take(n + 1).to_set()));
            }
            n = n + 1;
        }
        proof {
            assert(base_ids@.take(n as int) =~= base_ids@);
            assert(finalized@ =~= self.base@);
        }
        let mut unfinalized: KeyMap<NoteId, ChannelNote> = KeyMap::new();
        let ghost f = ops_at(self@.overlay);
        proof {
            assert(removed_ids(Seq::empty()) =~= Set::<NoteId>::empty());
            assert(self.base@.remove_keys(Set::empty()) =~= self.base@);
        }
        let mut k: usize = 0;
        while k < branch_blocks.len()
            invariant
                k <= branch_blocks@.len(),
                f == ops_at(self@.overlay),
                finalized@ == self.base@.remove_keys(
                    removed_ids(branch_blocks@.take(k as int).flat_map(f)),
                ),
                unfinalized@ == after_ops(
                    Map::empty(),
                    branch_blocks@.take(k as int).flat_map(f),
                ),
            decreases branch_blocks@.len() - k,
        {
            let ghost before = branch_blocks@.take(k as int).flat_map(f);
            proof {
                branch_blocks@.lemma_flat_map_take_append(f, k as int);
            }
            match self.overlay.get(&branch_blocks[k]) {
                Some(ops) => {
                    assert(f(branch_blocks@[k as int]) == ops@);
                    assert(before + ops@.take(0) =~= before);
                    let mut i: usize = 0;
                    while i < ops.len()
                        invariant
                            i <= ops@.len(),
                            finalized@ == self.base@.remove_keys(
                                removed_ids(before + ops@.take(i as int)),
                            ),
                            unfinalized@ == after_ops(Map::empty(), before + ops@.take(i as int)),
                        decreases ops@.len() - i,
                    {
                        let op: NoteOp = ops[i];
                        proof {
                            let so_far = before + ops@.take(i as int);
                            assert(before + ops@.take(i + 1) =~= so_far.push(op));
                            assert(so_far.push(op).drop_last() =~= so_far);
                            lemma_removed_push(so_far, op);
                        }
                        match op {
                            NoteOp::Add(note) => {
                                unfinalized.insert(note.note_id, note);
                            },
                            NoteOp::Remove(id) => {
                                let _ = finalized.remove(&id);
                                let _ = unfinalized.remove(&id);
                                assert(finalized@ =~= self.base@.remove_keys(
                                    removed_ids(before + ops@.take(i + 1)),
                                ));
                            },
                        }
                        i = i + 1;
                    }
                    assert(ops@.take(i as int) =~= ops@);
                },
                None => {
                    assert(f(branch_blocks@[k as int]) =~= Seq::<NoteOp>::empty());
                    assert(before + Seq::<NoteOp>::empty() =~= before);
                },
            }
            k = k + 1;
        }
        assert(branch_blocks@.take(k as int) =~= branch_blocks@);
        ChannelWalletView {
            finalized: note_values(&finalized),
            unfinalized: note_values(&unfinalized),
        }
    }

    /// Export the base set for checkpointing.
    pub fn export_base(&self) -> (res: Vec<ChannelNote>)
        ensures
            lists_notes(res@, self@.base),
    {
        note_values(&self.base)
    }

    /// Restore the base set from a checkpoint.
    pub fn restore_base(&mut self, notes: Vec<ChannelNote>)
        ensures
            final(self)@ == (WalletModel { base: notes_from(notes@), ..old(self)@ }),
            final(self)@.wf(),
    {
        let mut base: KeyMap<NoteId, ChannelNote> = KeyMap::new();
        let mut i: usize = 0;
        while i < notes.len()
            invariant
                i <= notes@.len(),
                base@ == notes_from(notes@.take(i as int)),
                keyed(base@),
            decreases notes@.len() - i,
        {
            assert(notes@.take(i + 1).drop_last() =~= notes@.take(i as int));
            base.insert(notes[i].note_id, notes[i]);
            i = i + 1;
        }
        assert(notes@.take(i as int) =~= notes@);
        self.base = base;
    }

    /// Find a tracked note by id, anywhere in the wallet (the finalized base or
    /// any unfinalized overlay). A note id commits to the note's value and key,
    /// so any tracked copy gives them, whatever branch it is on.
    pub fn find_note(&self, id: &NoteId) -> (res: Option<ChannelNote>)
        ensures
            res == self@.note(*id),
    {
        if let Some(note) = self.base.get(id) {
            return Some(*note);
        }
        let blocks = self.overlay.keys();
        assert(blocks@.skip(0) =~= blocks@);
        let mut k: usize = 0;
        while k < blocks.len()
            invariant
                k <= blocks@.len(),
                blocks@ == self@.overlay_order,
                forall|j: int| 0 <= j < blocks@.len() ==> self.overlay@.contains_key(#[trigger] blocks@[j]),
                !self@.base.contains_key(*id),
                self@.note(*id) == first_added_in(blocks@.skip(k as int), self@.overlay, *id),
            decreases blocks@.len() - k,
        {
            assert(blocks@.skip(k as int).drop_first() =~= blocks@.skip(k + 1));
            assert(blocks@.skip(k as int)[0] == blocks@[k as int]);
            assert(self.overlay@.contains_key(blocks@[k as int]));
            if let Some(ops) = self.overlay.get(&blocks[k]) {
                let found = find_added(ops.as_slice(), id);
                if found.is_some() {
                    return found;
                }
            }
            k = k + 1;
        }
        None
    }
}

fn find_added(ops: &[NoteOp], id: &NoteId) -> (res: Option<ChannelNote>)
    ensures
        res == first_added(ops@, *id),
{
    assert(ops@.skip(0) =~= ops@);
    let mut i: usize = 0;
    while i < ops.len()
        invariant
            i <= ops@.len(),
            first_added(ops@, *id) == first_added(ops@.skip(i as int), *id),
        decreases ops@.len() - i,
    {
        assert(ops@.skip(i as int).drop_first() =~= ops@.skip(i + 1));
        assert(ops@.skip(i as int)[0] == ops@[i as int]);
        if let NoteOp::Add(note) = ops[i] {
            if note.note_id.same(id) {
                return Some(note);
            }
        }
        i = i + 1;
    }
    None
}

/// The note a deposit event re-creates, as a mutation.
pub open spec fn add_deposited(slot: Slot) -> spec_fn(DepositNote) -> NoteOp {
    |note: DepositNote|
        NoteOp::Add(
            ChannelNote { note_id: note.note_id, value: note.value, pk: note.pk, slot },
        )
}

/// The note a transfer creates, as a mutation.
pub open spec fn add_created(slot: Slot) -> spec_fn(Utxo) -> NoteOp {
    |utxo: Utxo|
        NoteOp::Add(
            ChannelNote {
                note_id: utxo.id,
                value: utxo.note.value,
                pk: utxo.note.pk,
                slot,
            },
        )
}

pub open spec fn remove_spent() -> spec_fn(NoteId) -> NoteOp {
    |id: NoteId| NoteOp::Remove(id)
}

/// The note mutations of one operation: a deposit adds what its event says, a
/// transfer swaps its inputs for its outputs, a withdraw removes its inputs.
pub open spec fn note_ops_of_op(
    tx_hash: TxHash,
    channel_id: ChannelId,
    events: Map<DepositOpKey, DepositEvent>,
    slot: Slot,
    op: Op,
) -> Seq<NoteOp> {
    match op {
        Op::ChannelDeposit(deposit) => if deposit.channel_id == channel_id {
            events[DepositOpKey { tx_hash, op_id: deposit.op_id }].notes@.map_values(
                add_deposited(slot),
            )
        } else {
            Seq::empty()
        },
        Op::ChannelTransfer(transfer) => if transfer.channel_id == channel_id {
            transfer.inputs@.map_values(remove_spent()) + transfer.utxos@.map_values(
                add_created(slot),
            )
        } else {
            Seq::empty()
        },
        Op::ChannelWithdraw(withdraw) => if withdraw.channel_id == channel_id {
            withdraw.inputs@.map_values(remove_spent())
        } else {
            Seq::empty()
        },
        _ => Seq::empty(),
    }
}

pub open spec fn op_note_ops(
    tx_hash: TxHash,
    channel_id: ChannelId,
    events: Map<DepositOpKey, DepositEvent>,
    slot: Slot,
) -> spec_fn(Op) -> Seq<NoteOp> {
    |op: Op| note_ops_of_op(tx_hash, channel_id, events, slot, op)
}

pub open spec fn tx_note_ops(
    channel_id: ChannelId,
    events: Map<DepositOpKey, DepositEvent>,
    slot: Slot,
) -> spec_fn(SignedOps) -> Seq<NoteOp> {
    |tx: SignedOps| tx.ops@.flat_map(op_note_ops(tx.hash, channel_id, events, slot))
}

/// The note mutations of a block's transactions, in tx-then-op order.
pub open spec fn note_ops_of(
    txs: Seq<SignedOps>,
    channel_id: ChannelId,
    events: Map<DepositOpKey, DepositEvent>,
    slot: Slot,
) -> Seq<NoteOp> {
    txs.flat_map(tx_note_ops(channel_id, events, slot))
}

fn push_removed(ops: &mut Vec<NoteOp>, ids: &[NoteId])
    ensures
        final(ops)@ == old(ops)@ + ids@.map_values(remove_spent()),
{
    let mut i: usize = 0;
    while i < ids.len()
        invariant
            i <= ids@.len(),
            ops@ == old(ops)@ + ids@.take(i as int).map_values(remove_spent()),
        decreases ids@.len() - i,
    {
        ops.push(NoteOp::Remove(ids[i]));
        assert(ops@ =~= old(ops)@ + ids@.take(i + 1).map_values(remove_spent()));
        i = i + 1;
    }
    assert(ids@.take(i as int) =~= ids@);
}

fn push_created(ops: &mut Vec<NoteOp>, utxos: &[Utxo], slot: Slot)
    ensures
        final(ops)@ == old(ops)@ + utxos@.map_values(add_created(slot)),
{
    let mut i: usize = 0;
    while i < utxos.len()
        invariant
            i <= utxos@.len(),
            ops@ == old(ops)@ + utxos@.take(i as int).map_values(add_created(slot)),
        decreases utxos@.len() - i,
    {
        ops.push(
            NoteOp::Add(
                ChannelNote {
                    note_id: utxos[i].id,
                    value: utxos[i].note.value,
                    pk: utxos[i].note.pk,
                    slot,
                },
            ),
        );
        assert(ops@ =~= old(ops)@ + utxos@.take(i + 1).map_values(add_created(slot)));
        i = i + 1;
    }
    assert(utxos@.take(i as int) =~= utxos@);
}

fn push_deposited(ops: &mut Vec<NoteOp>, notes: &[DepositNote], slot: Slot)
    ensures
        final(ops)@ == old(ops)@ + notes@.map_values(add_deposited(slot)),
{
    let mut i: usize = 0;
    while i < notes.len()
        invariant
            i <= notes@.len(),
            ops@ == old(ops)@ + notes@.take(i as int).map_values(add_deposited(slot)),
        decreases notes@.len() - i,
    {
        ops.push(
            NoteOp::Add(
                ChannelNote {
                    note_id: notes[i].note_id,
                    value: notes[i].value,
                    pk: notes[i].pk,
                    slot,
                },
            ),
        );
        assert(ops@ =~= old(ops)@ + notes@.take(i + 1).map_values(add_deposited(slot)));
        i = i + 1;
    }
    assert(notes@.take(i as int) =~= notes@);
}

/// Extracts the channel-note ops of a block's transactions, in tx-then-op
/// order. The lookup has to know every deposit into the channel.
pub fn note_ops_from_txs(
    transactions: &[SignedOps],
    channel_id: ChannelId,
    deposit_events: &DepositEvents,
    slot: Slot,
) -> (res: Vec<NoteOp>)
    requires
        knows_deposits(transactions@, channel_id, deposit_events@),
    ensures
        res@ == note_ops_of(transactions@, channel_id, deposit_events@, slot),
{
    let mut ops: Vec<NoteOp> = Vec::new();
    let ghost f = tx_note_ops(channel_id, deposit_events@, slot);
    let mut k: usize = 0;
    while k < transactions.len()
        invariant
            k <= transactions@.len(),
            knows_deposits(transactions@, channel_id, deposit_events@),
            f == tx_note_ops(channel_id, deposit_events@, slot),
            ops@ == transactions@.take(k as int).flat_map(f),
        decreases transactions@.len() - k,
    {
        let tx = &transactions[k];
        let ghost g = op_note_ops(tx.hash, channel_id, deposit_events@, slot);
        let ghost before = ops@;
        assert(before + tx.ops@.take(0).flat_map(g) =~= before);
        let mut i: usize = 0;
        while i < tx.ops.len()
            invariant
                k < transactions@.len(),
                *tx == transactions@[k as int],
                knows_deposits(transactions@, channel_id, deposit_events@),
                i <= tx.ops@.len(),
                g == op_note_ops(tx.hash, channel_id, deposit_events@, slot),
                ops@ == before + tx.ops@.take(i as int).flat_map(g),
            decreases tx.ops@.len() - i,
        {
            let ghost so_far = ops@;
            proof {
                tx.ops@.lemma_flat_map_take_append(g, i as int);
                assert(deposit_key(
                    transactions@[k as int].hash,
                    channel_id,
                    transactions@[k as int].ops@[i as int],
                ) matches Some(key) ==> deposit_events@.contains_key(key));
            }
            match &tx.ops[i] {
                Op::ChannelDeposit(deposit) => {
                    if deposit.channel_id == channel_id {
                        let key = DepositOpKey { tx_hash: tx.hash, op_id: deposit.op_id };
                        if let Some(event) = deposit_events.get(&key) {
                            push_deposited(&mut ops, event.notes.as_slice(), slot);
                        }
                    }
                },
                Op::ChannelTransfer(transfer) => {
                    if transfer.channel_id == channel_id {
                        push_removed(&mut ops, transfer.inputs.ids.as_slice());
                        push_created(&mut ops, transfer.utxos.as_slice(), slot);
                    }
                },
                Op::ChannelWithdraw(withdraw) => {
                    if withdraw.channel_id == channel_id {
                        push_removed(&mut ops, withdraw.inputs.ids.as_slice());
                    }
                },
                _ => {},
            }
            assert(ops@ =~= so_far + g(tx.ops@[i as int]));
            assert(ops@ =~= before + tx.ops@.take(i + 1).flat_map(g));
            i = i + 1;
        }
        proof {
            assert(tx.ops@.take(i as int) =~= tx.ops@);
            transactions@.lemma_flat_map_take_append(f, k as int);
        }
        k = k + 1;
    }
    assert(transactions@.take(k as int) =~= transactions@);
    ops
}

} // verus!
