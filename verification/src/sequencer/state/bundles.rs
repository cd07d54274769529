//! Pending bundles and the channel notes they spend.

use vstd::prelude::*;

use super::sheds::add_hashes;
use super::{lemma_filter_map_push, TxState};
use crate::collections::KeySet;
use crate::ids::{ChannelId, HeaderId, Key, NoteId, TxHash};
use crate::mantle::ChannelTransferOp;
use crate::sequencer::channel_tx::channel_transfers;
use crate::sequencer::channel_wallet::{lists_notes, notes_from, NoteOp, WalletModel};
use crate::sequencer::state_model::{
    inputs_of, not_safe, note_id_of, outputs_of, utxo_id, InputCheck, PendingBundle,
    PendingInscription, StateModel,
};
use crate::sequencer::types::{ChannelNote, ChannelWalletView, InscriptionInfo, PendingTx};

verus! {

/// The test for a note that is not reserved.
pub open spec fn not_reserved(reserved: Set<NoteId>) -> spec_fn(ChannelNote) -> bool {
    |note: ChannelNote| !reserved.contains(note.note_id)
}

/// Adds the notes that a list of transfers spends to a set.
fn add_inputs(set: &mut KeySet<NoteId>, transfers: &Vec<ChannelTransferOp>)
    ensures
        final(set)@ == old(set)@.union(transfers@.flat_map(inputs_of()).to_set()),
{
    let ghost f = inputs_of();
    proof {
        assert(transfers@.take(0) =~= Seq::empty());
        assert(set@ =~= old(set)@.union(transfers@.take(0).flat_map(f).to_set()));
    }
    let mut k: usize = 0;
    while k < transfers.len()
        invariant
            k <= transfers@.len(),
            f == inputs_of(),
            set@ == old(set)@.union(transfers@.take(k as int).flat_map(f).to_set()),
        decreases transfers@.len() - k,
    {
        let ids: &Vec<NoteId> = &transfers[k].inputs.ids;
        let ghost before = transfers@.take(k as int).flat_map(f);
        assert(before + ids@.take(0) =~= before);
        let mut i: usize = 0;
        while i < ids.len()
            invariant
                i <= ids@.len(),
                set@ == old(set)@.union((before + ids@.take(i as int)).to_set()),
            decreases ids@.len() - i,
        {
            proof {
                let so_far = before + ids@.take(i as int);
                assert(before + ids@.take(i + 1) =~= so_far.push(ids@[i as int]));
                so_far.lemma_push_to_set_commute(ids@[i as int]);
            }
            let _ = set.insert(ids[i]);
            assert(set@ =~= old(set)@.union((before + ids@.take(i + 1)).to_set()));
            i = i + 1;
        }
        proof {
            assert(ids@.take(i as int) =~= ids@);
            transfers@.lemma_flat_map_take_append(f, k as int);
        }
        k = k + 1;
    }
    assert(transfers@.take(k as int) =~= transfers@);
}

/// Adds the notes that a list of transfers creates to a set.
fn add_outputs(set: &mut KeySet<NoteId>, transfers: &Vec<ChannelTransferOp>)
    ensures
        final(set)@ == old(set)@.union(transfers@.flat_map(outputs_of()).to_set()),
{
    let ghost f = outputs_of();
    proof {
        assert(transfers@.take(0) =~= Seq::empty());
        assert(set@ =~= old(set)@.union(transfers@.take(0).flat_map(f).to_set()));
    }
    let mut k: usize = 0;
    while k < transfers.len()
        invariant
            k <= transfers@.len(),
            f == outputs_of(),
            set@ == old(set)@.union(transfers@.take(k as int).flat_map(f).to_set()),
        decreases transfers@.len() - k,
    {
        let utxos: &Vec<crate::mantle::Utxo> = &transfers[k].utxos;
        let ghost ids = utxos@.map_values(utxo_id());
        let ghost before = transfers@.take(k as int).flat_map(f);
        assert(before + ids.take(0) =~= before);
        let mut i: usize = 0;
        while i < utxos.len()
            invariant
                i <= utxos@.len(),
                ids == utxos@.map_values(utxo_id()),
                set@ == old(set)@.union((before + ids.take(i as int)).to_set()),
            decreases utxos@.len() - i,
        {
            proof {
                let so_far = before + ids.take(i as int);
                assert(before + ids.take(i + 1) =~= so_far.push(ids[i as int]));
                so_far.lemma_push_to_set_commute(ids[i as int]);
            }
            let _ = set.insert(utxos[i].id);
            assert(set@ =~= old(set)@.union((before + ids.take(i + 1)).to_set()));
            i = i + 1;
        }
        proof {
            assert(ids.take(i as int) =~= ids);
            transfers@.lemma_flat_map_take_append(f, k as int);
        }
        k = k + 1;
    }
    assert(transfers@.take(k as int) =~= transfers@);
}

/// Whether all the notes that a list of transfers spends are in a set.
fn spends_only(available: &KeySet<NoteId>, transfers: &Vec<ChannelTransferOp>) -> (res: bool)
    ensures
        res == transfers@.flat_map(inputs_of()).to_set().subset_of(available@),
{
    let ghost f = inputs_of();
    assert(transfers@.take(0) =~= Seq::empty());
    let mut k: usize = 0;
    while k < transfers.len()
        invariant
            k <= transfers@.len(),
            f == inputs_of(),
            transfers@.take(k as int).flat_map(f).to_set().subset_of(available@),
        decreases transfers@.len() - k,
    {
        let ids: &Vec<NoteId> = &transfers[k].inputs.ids;
        let ghost before = transfers@.take(k as int).flat_map(f);
        proof {
            transfers@.lemma_flat_map_take_append(f, k as int);
        }
        let mut i: usize = 0;
        while i < ids.len()
            invariant
                i <= ids@.len(),
                k < transfers@.len(),
                f == inputs_of(),
                ids@ == f(transfers@[k as int]),
                transfers@.take(k + 1).flat_map(f) == before + ids@,
                forall|j: int| 0 <= j < i ==> available@.contains(#[trigger] ids@[j]),
            decreases ids@.len() - i,
        {
            if !available.contains(&ids[i]) {
                proof {
                    let all = transfers@.flat_map(f);
                    lemma_flat_map_prefix(transfers@, f, k + 1);
                    let at = before.len() + i;
                    assert((before + ids@)[at] == ids@[i as int]);
                    assert(all[at] == ids@[i as int]);
                    assert(all.contains(ids@[i as int]));
                    assert(all.to_set().contains(ids@[i as int]));
                }
                return false;
            }
            i = i + 1;
        }
        proof {
            assert forall|id: NoteId| (before + ids@).to_set().contains(id) implies available@.contains(
            id) by {
                let j = (before + ids@).index_of(id);
                if j < before.len() {
                    assert(before[j] == id);
                    assert(before.to_set().contains(id));
                } else {
                    assert(ids@[j - before.len()] == id);
                }
            }
        }
        k = k + 1;
    }
    assert(transfers@.take(k as int) =~= transfers@);
    true
}

/// What a prefix of a list maps to is a prefix of what the list maps to.
proof fn lemma_flat_map_prefix<A, B>(s: Seq<A>, f: spec_fn(A) -> Seq<B>, n: int)
    requires
        0 <= n <= s.len(),
    ensures
        s.take(n).flat_map(f).len() <= s.flat_map(f).len(),
        forall|i: int|
            0 <= i < s.take(n).flat_map(f).len() ==> #[trigger] s.flat_map(f)[i] == s.take(
                n,
            ).flat_map(f)[i],
    decreases s.len() - n,
{
    if n < s.len() {
        lemma_flat_map_prefix(s, f, n + 1);
        s.lemma_flat_map_take_append(f, n);
    } else {
        assert(s.take(n) =~= s);
    }
}

/// The notes of a list that are not in a set.
fn keep_unreserved(notes: &Vec<ChannelNote>, reserved: &KeySet<NoteId>) -> (res: Vec<ChannelNote>)
    ensures
        res@ == notes@.filter(not_reserved(reserved@)),
{
    let ghost keep = not_reserved(reserved@);
    let mut res: Vec<ChannelNote> = Vec::new();
    proof {
        reveal(Seq::filter);
        assert(notes@.take(0).filter(keep) =~= Seq::empty());
    }
    let mut i: usize = 0;
    while i < notes.len()
        invariant
            i <= notes@.len(),
            keep == not_reserved(reserved@),
            res@ == notes@.take(i as int).filter(keep),
        decreases notes@.len() - i,
    {
        proof {
            let before = notes@.take(i as int);
            assert(notes@.take(i + 1) =~= before.push(notes@[i as int]));
            before.lemma_filter_push(notes@[i as int], keep);
        }
        if !reserved.contains(&notes[i].note_id) {
            res.push(notes[i]);
        }
        i = i + 1;
    }
    assert(notes@.take(i as int) =~= notes@);
    res
}

/// Adds the ids of a list of notes to a set.
fn add_ids(set: &mut KeySet<NoteId>, notes: &Vec<ChannelNote>)
    ensures
        final(set)@ == old(set)@.union(notes@.map_values(note_id_of()).to_set()),
{
    let ghost ids = notes@.map_values(note_id_of());
    assert(set@ =~= old(set)@.union(ids.take(0).to_set()));
    let mut i: usize = 0;
    while i < notes.len()
        invariant
            i <= notes@.len(),
            ids == notes@.map_values(note_id_of()),
            set@ == old(set)@.union(ids.take(i as int).to_set()),
        decreases notes@.len() - i,
    {
        proof {
            assert(ids.take(i + 1) =~= ids.take(i as int).push(ids[i as int]));
            ids.take(i as int).lemma_push_to_set_commute(ids[i as int]);
        }
        let _ = set.insert(notes[i].note_id);
        assert(set@ =~= old(set)@.union(ids.take(i + 1).to_set()));
        i = i + 1;
    }
    assert(ids.take(i as int) =~= ids);
}

/// The ids in a list of notes are those in the set it lists.
proof fn lemma_listed_ids(list: Seq<ChannelNote>, notes: Map<NoteId, ChannelNote>)
    requires
        lists_notes(list, notes),
    ensures
        list.map_values(note_id_of()).to_set() == notes.values().map(note_id_of()),
{
    let ids = choose|ids: Seq<NoteId>|
        {
            &&& #[trigger] ids.no_duplicates()
            &&& ids.to_set() == notes.dom()
            &&& list == ids.map_values(|id: NoteId| notes[id])
        };
    let f = note_id_of();
    let a = list.map_values(f).to_set();
    let b = notes.values().map(f);
    assert forall|id: NoteId| a.contains(id) == b.contains(id) by {
        if a.contains(id) {
            let i = list.map_values(f).index_of(id);
            assert(ids.to_set().contains(ids[i]));
            assert(notes.contains_key(ids[i]));
            assert(notes.values().contains(list[i]));
            assert(f(list[i]) == id);
        }
        if b.contains(id) {
            let note = choose|note: ChannelNote| notes.values().contains(note) && f(note) == id;
            let key = choose|key: NoteId| #[trigger] notes.dom().contains(key) && notes[key] == note;
            assert(ids.to_set().contains(key));
            let i = ids.index_of(key);
            assert(list[i] == note);
            assert(list.map_values(f)[i] == id);
        }
    }
    assert(a =~= b);
}

impl TxState {
    /// Blocks on `tip`'s branch strictly above LIB, oldest first.
    pub(super) fn branch_blocks_above_lib(&self, tip: HeaderId) -> (res: Vec<HeaderId>)
        ensures
            res@ == self@.branch_above_lib(tip),
    {
        let down = self.branch_of(tip);
        let mut n: usize = down.len();
        if down[n - 1].same(&self.current_lib) {
            n = n - 1;
        }
        let ghost kept = down@.take(n as int);
        let mut blocks: Vec<HeaderId> = Vec::new();
        let mut i: usize = n;
        while i > 0
            invariant
                i <= n <= down@.len(),
                kept == down@.take(n as int),
                blocks@.len() == n - i,
                forall|j: int| 0 <= j < blocks@.len() ==> blocks@[j] == kept[n - 1 - j],
            decreases i,
        {
            i = i - 1;
            blocks.push(down[i]);
        }
        proof {
            assert(blocks@ =~= kept.reverse());
            if n < down@.len() {
                assert(kept =~= down@.drop_last());
            } else {
                assert(kept =~= down@);
            }
        }
        blocks
    }

    /// The channel's notes at `tip`, or the finalized ones alone when no tip is
    /// known yet. Blocks at and below LIB reach the finalized notes once they
    /// are backfilled, so the branch is walked down to LIB and not further.
    pub fn channel_wallet_view(&self, tip: Option<HeaderId>) -> (res: ChannelWalletView)
        ensures
            lists_notes(res.finalized@, self@.wallet.finalized_on(self@.branch_at(tip))),
            lists_notes(res.unfinalized@, self@.wallet.unfinalized_on(self@.branch_at(tip))),
    {
        match tip {
            Some(tip) => {
                let blocks = self.branch_blocks_above_lib(tip);
                self.wallet.view_at(blocks.as_slice())
            },
            None => self.wallet.view_at(&[]),
        }
    }

    /// Pending bundles off `tip`'s channel tip that are not mined on its
    /// branch, in lineage order.
    fn unmined_bundles_in_suffix(&self, tip: HeaderId) -> (res: Vec<
        (InscriptionInfo, PendingInscription),
    >)
        ensures
            res@ == self@.unmined_bundles(tip),
    {
        let safe = self.safe_at(tip);
        let suffix = self.collect_pending_suffix(self.channel_tip_at(tip));
        let ghost keep = not_safe(safe@);
        let ghost pair = self@.bundle_pair();
        let mut res: Vec<(InscriptionInfo, PendingInscription)> = Vec::new();
        proof {
            reveal(Seq::filter);
            assert(suffix@.take(0).filter(keep) =~= Seq::empty());
        }
        let mut i: usize = 0;
        while i < suffix.len()
            invariant
                i <= suffix@.len(),
                keep == not_safe(safe@),
                pair == self@.bundle_pair(),
                res@ == suffix@.take(i as int).filter(keep).filter_map(pair),
            decreases suffix@.len() - i,
        {
            proof {
                let before = suffix@.take(i as int);
                assert(suffix@.take(i + 1) =~= before.push(suffix@[i as int]));
                before.lemma_filter_push(suffix@[i as int], keep);
                lemma_filter_map_push(before.filter(keep), suffix@[i as int], pair);
            }
            let hash: TxHash = suffix[i].tx_hash;
            if !safe.contains(&hash) {
                if let Some(pending) = self.pending.get(&hash) {
                    let plain: bool = match &pending.bundle {
                        PendingBundle::Plain => true,
                        _ => false,
                    };
                    if !plain {
                        res.push((suffix[i].clone(), pending.clone()));
                    }
                }
            }
            i = i + 1;
        }
        assert(suffix@.take(i as int) =~= suffix@);
        res
    }

    /// The notes that un-mined pending bundles consume.
    fn reserved_notes(&self, tip: HeaderId, channel_id: ChannelId) -> (res: KeySet<NoteId>)
        ensures
            res@ == self@.reserved(tip, channel_id),
    {
        let bundles = self.unmined_bundles_in_suffix(tip);
        let ghost f = StateModel::spent_by(channel_id);
        let mut reserved: KeySet<NoteId> = KeySet::new();
        proof {
            assert(bundles@.take(0) =~= Seq::empty());
            assert(reserved@ =~= bundles@.take(0).flat_map(f).to_set());
        }
        let mut i: usize = 0;
        while i < bundles.len()
            invariant
                i <= bundles@.len(),
                f == StateModel::spent_by(channel_id),
                reserved@ == bundles@.take(i as int).flat_map(f).to_set(),
            decreases bundles@.len() - i,
        {
            let transfers = channel_transfers(&bundles[i].1.signed_tx, channel_id);
            let ghost before = bundles@.take(i as int).flat_map(f);
            add_inputs(&mut reserved, &transfers);
            proof {
                bundles@.lemma_flat_map_take_append(f, i as int);
                let more = f(bundles@[i as int]);
                assert(more == transfers@.flat_map(inputs_of()));
                lemma_to_set_add(before, more);
            }
            i = i + 1;
        }
        assert(bundles@.take(i as int) =~= bundles@);
        reserved
    }

    /// Notes a new bundle may spend at `tip`: the branch view without what
    /// un-mined pending bundles consume. Their outputs are not offered.
    pub fn spendable_wallet_view(&self, tip: Option<HeaderId>, channel_id: ChannelId) -> (res:
        ChannelWalletView)
        ensures
            exists|finalized: Seq<ChannelNote>, unfinalized: Seq<ChannelNote>|
                {
                    &&& #[trigger] lists_notes(
                        finalized,
                        self@.wallet.finalized_on(self@.branch_at(tip)),
                    )
                    &&& #[trigger] lists_notes(
                        unfinalized,
                        self@.wallet.unfinalized_on(self@.branch_at(tip)),
                    )
                    &&& res.finalized@ == finalized.filter(
                        not_reserved(self@.reserved_at(tip, channel_id)),
                    )
                    &&& res.unfinalized@ == unfinalized.filter(
                        not_reserved(self@.reserved_at(tip, channel_id)),
                    )
                },
    {
        let view = self.channel_wallet_view(tip);
        let reserved = match tip {
            Some(tip) => self.reserved_notes(tip, channel_id),
            None => KeySet::new(),
        };
        assert(reserved@ == self@.reserved_at(tip, channel_id));
        ChannelWalletView {
            finalized: keep_unreserved(&view.finalized, &reserved),
            unfinalized: keep_unreserved(&view.unfinalized, &reserved),
        }
    }

    /// Remove the pending bundles whose transfer inputs are gone from this
    /// branch, together with every pending entry chained on them, parent first:
    /// they can never land.
    pub fn shed_bundles_with_missing_inputs(&mut self, tip: HeaderId, channel_id: ChannelId) -> (res:
        Vec<PendingTx>)
        ensures
            res@ == old(self)@.drained(old(self)@.without_inputs(tip, channel_id)),
            final(self)@ == old(self)@.drain(old(self)@.without_inputs(tip, channel_id)),
    {
        let view = self.channel_wallet_view(Some(tip));
        let mut available: KeySet<NoteId> = KeySet::new();
        add_ids(&mut available, &view.finalized);
        add_ids(&mut available, &view.unfinalized);
        proof {
            let blocks = self@.branch_above_lib(tip);
            lemma_listed_ids(view.finalized@, self@.wallet.finalized_on(blocks));
            lemma_listed_ids(view.unfinalized@, self@.wallet.unfinalized_on(blocks));
            assert(available@ =~= self@.notes_at(tip));
        }
        let bundles = self.unmined_bundles_in_suffix(tip);
        let mut dead: KeySet<TxHash> = KeySet::new();
        let ghost notes = available@;
        assert(bundles@.take(0) =~= Seq::empty());
        let mut i: usize = 0;
        while i < bundles.len()
            invariant
                i <= bundles@.len(),
                self@ == old(self)@,
                (InputCheck { available: available@, dead: dead@ }) == self@.check_bundles(
                    notes,
                    bundles@.take(i as int),
                    channel_id,
                ),
            decreases bundles@.len() - i,
        {
            let transfers = channel_transfers(&bundles[i].1.signed_tx, channel_id);
            proof {
                assert(bundles@.take(i + 1).drop_last() =~= bundles@.take(i as int));
                assert(bundles@.take(i + 1).last() == bundles@[i as int]);
            }
            if spends_only(&available, &transfers) {
                add_outputs(&mut available, &transfers);
            } else {
                let chained = self.collect_pending_suffix(bundles[i].0.this_msg);
                let _ = dead.insert(bundles[i].0.tx_hash);
                add_hashes(&mut dead, &chained);
            }
            i = i + 1;
        }
        assert(bundles@.take(i as int) =~= bundles@);
        self.drain_pending_in_lineage_order(&dead)
    }

    /// Apply channel-note changes from finalized blocks.
    pub fn apply_finalized_note_ops(&mut self, ops: Vec<NoteOp>)
        ensures
            final(self)@ == old(self)@.settle_notes(ops@),
    {
        self.wallet.apply_finalized(ops);
        assert(self@ =~= old(self)@.settle_notes(ops@));
    }

    /// A known channel note by id.
    pub fn find_channel_note(&self, id: &NoteId) -> (res: Option<ChannelNote>)
        ensures
            res == self@.wallet.note(*id),
    {
        self.wallet.find_note(id)
    }

    /// The finalized channel notes, for checkpointing.
    pub fn channel_notes_base(&self) -> (res: Vec<ChannelNote>)
        ensures
            lists_notes(res@, self@.wallet.base),
    {
        self.wallet.export_base()
    }

    /// Restore the finalized channel notes from a checkpoint.
    pub fn restore_channel_notes(&mut self, notes: Vec<ChannelNote>)
        ensures
            final(self)@ == (StateModel {
                wallet: (WalletModel { base: notes_from(notes@), ..old(self)@.wallet }),
                ..old(self)@
            }),
    {
        self.wallet.restore_base(notes);
    }
}

proof fn lemma_to_set_add<A>(a: Seq<A>, b: Seq<A>)
    ensures
        (a + b).to_set() == a.to_set().union(b.to_set()),
{
    assert forall|x: A| (a + b).to_set().contains(x) == (a.to_set().contains(x)
        || b.to_set().contains(x)) by {
        if (a + b).contains(x) {
            let i = (a + b).index_of(x);
            if i < a.len() {
                assert(a[i] == x);
            } else {
                assert(b[i - a.len()] == x);
            }
        }
        if a.contains(x) {
            let i = a.index_of(x);
            assert((a + b)[i] == x);
        }
        if b.contains(x) {
            let i = b.index_of(x);
            assert((a + b)[a.len() + i] == x);
        }
    }
    assert((a + b).to_set() =~= a.to_set().union(b.to_set()));
}

} // verus!
