//! What holds of the channel's notes: their views, their export, and the choice
//! among them.

use vstd::prelude::*;

use crate::adapter::{DepositEvent, DepositOpKey};
use crate::ids::{ChannelId, HeaderId, NoteId, TxHash, ZkPublicKey};
use crate::mantle::{Op, SignedOps, Slot, Value, MAX_TRANSACTION_INPUTS};
use crate::sequencer::channel_wallet::{
    after_ops, keyed, lists_notes, note_ops_of, note_ops_of_op, notes_from, op_note_ops, ops_at,
    removed_ids, tx_note_ops, NoteOp, WalletModel,
};
use crate::sequencer::note_selection::{
    cover, covers, duplicate_text, explicit_value, id_of, inserted, insufficient_text,
    is_loose_dust, law_sorted_is_the_stable_sort, not_owned_by, owned_by, preference,
    preferred_cover, selection, short_text, sorted, swept, too_many_text, total_value,
    untracked_text, value_of, NoteOrder,
};
use crate::sequencer::state_laws::lemma_filter_member;
use crate::sequencer::types::{ChannelNote, WithdrawInputs};

verus! {

// Views.

/// The two views at a tip together are what the notes at LIB become under the
/// ops of the branch.
pub proof fn law_views_are_the_notes_of_the_branch(
    base: Map<NoteId, ChannelNote>,
    ops: Seq<NoteOp>,
)
    ensures
        base.remove_keys(removed_ids(ops)).union_prefer_right(after_ops(Map::empty(), ops))
            == after_ops(base, ops),
    decreases ops.len(),
{
    let none = Map::<NoteId, ChannelNote>::empty();
    if ops.len() == 0 {
        assert(base.remove_keys(removed_ids(ops)).union_prefer_right(none) =~= base);
    } else {
        let front = ops.drop_last();
        law_views_are_the_notes_of_the_branch(base, front);
        let kept = base.remove_keys(removed_ids(front));
        let made = after_ops(none, front);
        assert(front.push(ops.last()) =~= ops);
        match ops.last() {
            NoteOp::Add(note) => {
                assert forall|id: NoteId| removed_ids(ops).contains(id) == removed_ids(
                    front,
                ).contains(id) by {
                    lemma_contains_push(front, ops.last(), NoteOp::Remove(id));
                }
                assert(removed_ids(ops) =~= removed_ids(front));
                assert(kept.union_prefer_right(made.insert(note.note_id, note))
                    =~= kept.union_prefer_right(made).insert(note.note_id, note));
            },
            NoteOp::Remove(gone) => {
                assert forall|id: NoteId| removed_ids(ops).contains(id) == removed_ids(
                    front,
                ).insert(gone).contains(id) by {
                    lemma_contains_push(front, ops.last(), NoteOp::Remove(id));
                }
                assert(removed_ids(ops) =~= removed_ids(front).insert(gone));
                assert(base.remove_keys(removed_ids(ops)) =~= kept.remove(gone));
                assert(kept.remove(gone).union_prefer_right(made.remove(gone))
                    =~= kept.union_prefer_right(made).remove(gone));
            },
        }
    }
}

proof fn lemma_contains_push(ops: Seq<NoteOp>, op: NoteOp, x: NoteOp)
    ensures
        ops.push(op).contains(x) == (ops.contains(x) || x == op),
{
    if ops.contains(x) {
        assert(ops.push(op)[ops.index_of(x)] == x);
    }
    assert(ops.push(op)[ops.len() as int] == op);
    if ops.push(op).contains(x) {
        let i = ops.push(op).index_of(x);
        if i < ops.len() {
            assert(ops[i] == x);
        }
    }
}

/// Settling the first ops of a branch into the notes at LIB changes no note at
/// the tip.
pub proof fn law_settling_moves_no_note(
    base: Map<NoteId, ChannelNote>,
    first: Seq<NoteOp>,
    rest: Seq<NoteOp>,
)
    ensures
        after_ops(after_ops(base, first), rest) == after_ops(base, first + rest),
    decreases rest.len(),
{
    if rest.len() == 0 {
        assert(first + rest =~= first);
    } else {
        law_settling_moves_no_note(base, first, rest.drop_last());
        assert((first + rest).drop_last() =~= first + rest.drop_last());
        assert((first + rest).last() == rest.last());
    }
}

/// Every note stays under its own id.
pub proof fn law_ops_keep_notes_under_their_ids(
    notes: Map<NoteId, ChannelNote>,
    ops: Seq<NoteOp>,
    list: Seq<ChannelNote>,
)
    ensures
        keyed(notes) ==> keyed(after_ops(notes, ops)),
        keyed(notes_from(list)),
    decreases ops.len() + list.len(),
{
    if ops.len() > 0 {
        law_ops_keep_notes_under_their_ids(notes, ops.drop_last(), list);
    } else if list.len() > 0 {
        law_ops_keep_notes_under_their_ids(notes, ops, list.drop_last());
    }
}

/// Notes exported and restored are the same notes, in whatever order they were
/// listed.
pub proof fn law_exported_notes_restore(
    list: Seq<ChannelNote>,
    notes: Map<NoteId, ChannelNote>,
)
    requires
        keyed(notes),
        lists_notes(list, notes),
    ensures
        notes_from(list) == notes,
{
    let ids = choose|ids: Seq<NoteId>|
        {
            &&& #[trigger] ids.no_duplicates()
            &&& ids.to_set() == notes.dom()
            &&& list == ids.map_values(|id: NoteId| notes[id])
        };
    assert forall|i: int| 0 <= i < ids.len() implies notes.contains_key(#[trigger] ids[i]) by {
        assert(ids.to_set().contains(ids[i]));
    }
    lemma_notes_from_ids(ids, list, notes);
    assert(notes_from(list).dom() =~= notes.dom());
    assert(notes_from(list) =~= notes);
}

proof fn lemma_notes_from_ids(
    ids: Seq<NoteId>,
    list: Seq<ChannelNote>,
    notes: Map<NoteId, ChannelNote>,
)
    requires
        keyed(notes),
        list.len() == ids.len(),
        forall|i: int| 0 <= i < ids.len() ==> notes.contains_key(#[trigger] ids[i]),
        forall|i: int| 0 <= i < ids.len() ==> #[trigger] list[i] == notes[ids[i]],
    ensures
        notes_from(list).dom() == ids.to_set(),
        forall|id: NoteId| #[trigger]
            notes_from(list).contains_key(id) ==> notes_from(list)[id] == notes[id],
    decreases ids.len(),
{
    if ids.len() == 0 {
        assert(notes_from(list).dom() =~= ids.to_set());
    } else {
        let front = ids.drop_last();
        let rest = list.drop_last();
        assert forall|i: int| 0 <= i < front.len() implies notes.contains_key(
            #[trigger] front[i],
        ) by {
            assert(front[i] == ids[i]);
        }
        assert forall|i: int| 0 <= i < front.len() implies #[trigger] rest[i] == notes[front[i]] by {
            assert(rest[i] == list[i]);
        }
        lemma_notes_from_ids(front, rest, notes);
        let last = ids[ids.len() - 1];
        assert(list[list.len() - 1] == notes[last]);
        assert(notes.contains_key(last));
        front.lemma_push_to_set_commute(last);
        assert(front.push(last) =~= ids);
        assert(notes_from(list).dom() =~= ids.to_set());
    }
}

/// Folding the oldest block of a branch into the notes at LIB and leaving it
/// out of the walk neither loses nor adds a note: the two views together are
/// as they were.
pub proof fn law_folding_a_block_keeps_the_notes(
    w: WalletModel,
    oldest: HeaderId,
    rest: Seq<HeaderId>,
)
    ensures
        ({
            let branch = seq![oldest] + rest;
            let folded = WalletModel {
                base: after_ops(w.base, ops_at(w.overlay)(oldest)),
                ..w
            };
            &&& folded.finalized_on(rest).union_prefer_right(folded.unfinalized_on(rest))
                == w.finalized_on(branch).union_prefer_right(w.unfinalized_on(branch))
            &&& folded.finalized_on(rest).dom().union(folded.unfinalized_on(rest).dom())
                == w.finalized_on(branch).dom().union(w.unfinalized_on(branch).dom())
        }),
{
    let f = ops_at(w.overlay);
    let branch = seq![oldest] + rest;
    let folded = WalletModel { base: after_ops(w.base, f(oldest)), ..w };
    lemma_flat_map_add(seq![oldest], rest, f);
    lemma_flat_map_one(oldest, f);
    law_views_are_the_notes_of_the_branch(w.base, w.branch_ops(branch));
    law_views_are_the_notes_of_the_branch(folded.base, w.branch_ops(rest));
    law_settling_moves_no_note(w.base, f(oldest), w.branch_ops(rest));
    let after = folded.finalized_on(rest).union_prefer_right(folded.unfinalized_on(rest));
    let before = w.finalized_on(branch).union_prefer_right(w.unfinalized_on(branch));
    assert(after.dom() =~= folded.finalized_on(rest).dom().union(folded.unfinalized_on(rest).dom()));
    assert(before.dom() =~= w.finalized_on(branch).dom().union(w.unfinalized_on(branch).dom()));
}

proof fn lemma_flat_map_one<A, B>(x: A, f: spec_fn(A) -> Seq<B>)
    ensures
        seq![x].flat_map(f) == f(x),
{
    let one = seq![x];
    one.lemma_flat_map_take_append(f, 0);
    assert(one.take(1) =~= one);
    assert(one.take(0).flat_map(f) =~= Seq::empty());
    assert(Seq::<B>::empty() + f(x) =~= f(x));
}

proof fn lemma_flat_map_add<A, B>(a: Seq<A>, b: Seq<A>, f: spec_fn(A) -> Seq<B>)
    ensures
        (a + b).flat_map(f) == a.flat_map(f) + b.flat_map(f),
    decreases b.len(),
{
    if b.len() == 0 {
        assert(a + b =~= a);
        assert(b.flat_map(f) =~= Seq::empty());
        assert(a.flat_map(f) + b.flat_map(f) =~= a.flat_map(f));
    } else {
        let front = b.drop_last();
        let all = a + b;
        lemma_flat_map_add(a, front, f);
        all.lemma_flat_map_take_append(f, all.len() - 1);
        b.lemma_flat_map_take_append(f, b.len() - 1);
        assert(all.take(all.len() - 1) =~= a + front);
        assert(all.take(all.len() as int) =~= all);
        assert(b.take(b.len() - 1) =~= front);
        assert(b.take(b.len() as int) =~= b);
        assert((a.flat_map(f) + front.flat_map(f)) + f(b.last()) =~= a.flat_map(f) + (
        front.flat_map(f) + f(b.last())));
    }
}

/// The note mutations of a list of transactions are those of its parts, one
/// after the other.
pub proof fn law_note_ops_follow_the_transactions(
    a: Seq<SignedOps>,
    b: Seq<SignedOps>,
    channel_id: ChannelId,
    events: Map<DepositOpKey, DepositEvent>,
    slot: Slot,
)
    ensures
        note_ops_of(a + b, channel_id, events, slot) == note_ops_of(a, channel_id, events, slot)
            + note_ops_of(b, channel_id, events, slot),
{
    lemma_flat_map_add(a, b, tx_note_ops(channel_id, events, slot));
}

/// One note operation after another: where an id ends up is decided by the last
/// operation that speaks of it, and untouched ids keep their note.
pub proof fn law_last_mutation_of_an_id_counts(
    notes: Map<NoteId, ChannelNote>,
    ops: Seq<NoteOp>,
    i: int,
    id: NoteId,
)
    requires
        0 <= i < ops.len() ==> speaks_of(ops[i], id),
        forall|j: int| i < j < ops.len() && 0 <= j ==> !speaks_of(#[trigger] ops[j], id),
        -1 <= i < ops.len(),
    ensures
        ({
            let n = after_ops(notes, ops);
            if i == -1 {
                n.contains_key(id) == notes.contains_key(id) && (n.contains_key(id) ==> n[id]
                    == notes[id])
            } else {
                match ops[i] {
                    NoteOp::Add(note) => n.contains_key(id) && n[id] == note,
                    NoteOp::Remove(_) => !n.contains_key(id),
                }
            }
        }),
    decreases ops.len(),
{
    if ops.len() > 0 {
        let front = ops.drop_last();
        assert(ops[ops.len() - 1] == ops.last());
        if i < ops.len() - 1 {
            assert(!speaks_of(ops.last(), id));
            if i >= 0 {
                assert(front[i] == ops[i]);
            }
            assert forall|j: int| i < j < front.len() && 0 <= j implies !speaks_of(
                #[trigger] front[j],
                id,
            ) by {
                assert(front[j] == ops[j]);
            }
            law_last_mutation_of_an_id_counts(notes, front, i, id);
        }
    }
}

/// The operation adds or removes the note of an id.
pub open spec fn speaks_of(op: NoteOp, id: NoteId) -> bool {
    match op {
        NoteOp::Add(note) => note.note_id == id,
        NoteOp::Remove(gone) => gone == id,
    }
}

/// What one operation does to the channel's notes: a deposit adds the notes that
/// its event names, a transfer spends its inputs and then adds what it creates,
/// a withdraw spends its inputs, each in the order given and with the slot of
/// the block; nothing else, and no operation on another channel, moves a note.
pub proof fn law_each_op_moves_its_notes(
    tx_hash: TxHash,
    channel_id: ChannelId,
    events: Map<DepositOpKey, DepositEvent>,
    slot: Slot,
    op: Op,
)
    ensures
        ({
            let moves = note_ops_of_op(tx_hash, channel_id, events, slot, op);
            match op {
                Op::ChannelDeposit(deposit) => if deposit.channel_id == channel_id {
                    let notes = events[DepositOpKey { tx_hash, op_id: deposit.op_id }].notes@;
                    &&& moves.len() == notes.len()
                    &&& forall|i: int|
                        0 <= i < notes.len() ==> ((#[trigger] moves[i]) matches NoteOp::Add(note)
                            && note.note_id == notes[i].note_id && note.value == notes[i].value
                            && note.pk == notes[i].pk && note.slot == slot)
                } else {
                    moves.len() == 0
                },
                Op::ChannelTransfer(transfer) => if transfer.channel_id == channel_id {
                    let spent = transfer.inputs@;
                    let made = transfer.utxos@;
                    &&& moves.len() == spent.len() + made.len()
                    &&& forall|i: int|
                        0 <= i < spent.len() ==> #[trigger] moves[i] == NoteOp::Remove(spent[i])
                    &&& forall|i: int|
                        0 <= i < made.len() ==> (moves[spent.len() + i] matches NoteOp::Add(note)
                            && note.note_id == (#[trigger] made[i]).id && note.value
                            == made[i].note.value && note.pk == made[i].note.pk && note.slot
                            == slot)
                } else {
                    moves.len() == 0
                },
                Op::ChannelWithdraw(withdraw) => if withdraw.channel_id == channel_id {
                    let spent = withdraw.inputs@;
                    &&& moves.len() == spent.len()
                    &&& forall|i: int|
                        0 <= i < spent.len() ==> #[trigger] moves[i] == NoteOp::Remove(spent[i])
                } else {
                    moves.len() == 0
                },
                _ => moves.len() == 0,
            }
        }),
{
}

/// The note mutations of a transaction are those of its operations, one after
/// the other.
pub proof fn law_note_ops_follow_the_operations(
    tx: SignedOps,
    first: SignedOps,
    rest: SignedOps,
    channel_id: ChannelId,
    events: Map<DepositOpKey, DepositEvent>,
    slot: Slot,
)
    requires
        tx.hash == first.hash,
        tx.hash == rest.hash,
        tx.ops@ == first.ops@ + rest.ops@,
    ensures
        note_ops_of(seq![tx], channel_id, events, slot) == note_ops_of(
            seq![first],
            channel_id,
            events,
            slot,
        ) + note_ops_of(seq![rest], channel_id, events, slot),
        first.ops@.len() == 1 ==> note_ops_of(seq![first], channel_id, events, slot)
            == note_ops_of_op(first.hash, channel_id, events, slot, first.ops@[0]),
{
    let f = tx_note_ops(channel_id, events, slot);
    let g = op_note_ops(tx.hash, channel_id, events, slot);
    lemma_flat_map_one(tx, f);
    lemma_flat_map_one(first, f);
    lemma_flat_map_one(rest, f);
    lemma_flat_map_add(first.ops@, rest.ops@, g);
    if first.ops@.len() == 1 {
        assert(first.ops@ =~= seq![first.ops@[0]]);
        lemma_flat_map_one(first.ops@[0], g);
    }
}

/// A list of notes under their own ids names none twice, and holds exactly
/// them.
proof fn lemma_listed(list: Seq<ChannelNote>, notes: Map<NoteId, ChannelNote>)
    requires
        keyed(notes),
        lists_notes(list, notes),
    ensures
        list.no_duplicates(),
        forall|x: ChannelNote| #[trigger]
            list.contains(x) <==> notes.contains_key(x.note_id) && notes[x.note_id] == x,
{
    let ids = choose|ids: Seq<NoteId>|
        {
            &&& #[trigger] ids.no_duplicates()
            &&& ids.to_set() == notes.dom()
            &&& list == ids.map_values(|id: NoteId| notes[id])
        };
    assert forall|i: int| 0 <= i < ids.len() implies notes.contains_key(#[trigger] ids[i])
        && list[i].note_id == ids[i] by {
        assert(ids.to_set().contains(ids[i]));
    }
    assert forall|i: int, j: int|
        0 <= i < list.len() && 0 <= j < list.len() && i != j implies list[i] != list[j] by {
        assert(list[i].note_id == ids[i]);
        assert(list[j].note_id == ids[j]);
    }
    assert forall|x: ChannelNote| #[trigger] list.contains(x) <==> notes.contains_key(x.note_id)
        && notes[x.note_id] == x by {
        if list.contains(x) {
            let i = list.index_of(x);
            assert(notes.contains_key(ids[i]));
        }
        if notes.contains_key(x.note_id) && notes[x.note_id] == x {
            assert(ids.to_set().contains(x.note_id));
            let i = ids.index_of(x.note_id);
            assert(list[i] == x);
        }
    }
}

/// What a wallet exports restores it: a wallet restored from it, whatever notes
/// it had at LIB before, exports a permutation of it, and with no block on top
/// views it as finalized and nothing as unfinalized.
pub proof fn law_restored_wallet_exports_the_same(
    w: WalletModel,
    restored: WalletModel,
    exported: Seq<ChannelNote>,
    again: Seq<ChannelNote>,
)
    requires
        w.wf(),
        lists_notes(exported, w.base),
        restored.base == notes_from(exported),
        lists_notes(again, restored.base),
    ensures
        again.to_multiset() == exported.to_multiset(),
        restored.finalized_on(Seq::empty()) == w.base,
        restored.unfinalized_on(Seq::empty()) == Map::<NoteId, ChannelNote>::empty(),
{
    law_exported_notes_restore(exported, w.base);
    lemma_listed(exported, w.base);
    lemma_listed(again, w.base);
    exported.lemma_multiset_has_no_duplicates();
    again.lemma_multiset_has_no_duplicates();
    exported.to_multiset_ensures();
    again.to_multiset_ensures();
    assert forall|x: ChannelNote| exported.to_multiset().count(x) == again.to_multiset().count(
        x,
    ) by {
        assert(exported.contains(x) <==> again.contains(x));
        assert(exported.to_multiset().contains(x) <==> exported.to_multiset().count(x) > 0);
        assert(again.to_multiset().contains(x) <==> again.to_multiset().count(x) > 0);
    }
    assert(again.to_multiset() =~= exported.to_multiset());
    let none = restored.branch_ops(Seq::empty());
    assert(none =~= Seq::empty());
    assert(removed_ids(none) =~= Set::empty());
    assert(restored.finalized_on(Seq::empty()) =~= w.base);
}

// Selection.

/// No two notes have the same id.
pub open spec fn ids_differ(notes: Seq<ChannelNote>) -> bool {
    forall|i: int, j: int|
        0 <= i < j < notes.len() ==> (#[trigger] notes[i]).note_id != (#[trigger] notes[j]).note_id
}

/// What the notes of a list of ids are worth.
pub open spec fn worth(pool: Seq<ChannelNote>, ids: Seq<NoteId>) -> nat
    decreases ids.len(),
{
    if ids.len() == 0 {
        0
    } else {
        worth(pool, ids.drop_last()) + match value_of(pool, ids.last()) {
            Some(value) => value as nat,
            None => 0,
        }
    }
}

/// A choice that a transaction can spend: different notes of the pool, not more
/// than it has inputs, and worth the amount.
pub open spec fn spendable(pool: Seq<ChannelNote>, ids: Seq<NoteId>, amount: Value) -> bool {
    &&& ids.len() <= MAX_TRANSACTION_INPUTS
    &&& ids.no_duplicates()
    &&& forall|i: int| 0 <= i < ids.len() ==> value_of(pool, #[trigger] ids[i]) is Some
    &&& worth(pool, ids) >= amount
}

proof fn lemma_explicit(pool: Seq<ChannelNote>, ids: Seq<NoteId>, i: int, sum: nat)
    requires
        0 <= i <= ids.len(),
        sum == worth(pool, ids.take(i)),
        ids.take(i).no_duplicates(),
        forall|j: int| 0 <= j < i ==> value_of(pool, #[trigger] ids[j]) is Some,
    ensures
        explicit_value(pool, ids, i, sum) matches Ok(total) ==> {
            &&& total == worth(pool, ids)
            &&& ids.no_duplicates()
            &&& forall|j: int| 0 <= j < ids.len() ==> value_of(pool, #[trigger] ids[j]) is Some
        },
    decreases ids.len() - i,
{
    if i == ids.len() {
        assert(ids.take(i) =~= ids);
    } else if !ids.take(i).contains(ids[i]) {
        if let Some(value) = value_of(pool, ids[i]) {
            let next = ids.take(i + 1);
            assert(next.drop_last() =~= ids.take(i));
            assert(next.last() == ids[i]);
            assert(next.no_duplicates()) by {
                assert forall|a: int, b: int|
                    0 <= a < next.len() && 0 <= b < next.len() && a != b implies next[a]
                    != next[b] by {
                    if a == i {
                        assert(ids.take(i)[b] == next[b]);
                    } else if b == i {
                        assert(ids.take(i)[a] == next[a]);
                    } else {
                        assert(ids.take(i)[a] == next[a] && ids.take(i)[b] == next[b]);
                    }
                }
            }
            if sum + value <= u64::MAX {
                lemma_explicit(pool, ids, i + 1, (sum + value) as nat);
            }
        }
    }
}

proof fn lemma_inserted_members(notes: Seq<ChannelNote>, note: ChannelNote, by: NoteOrder)
    ensures
        forall|x: ChannelNote| #[trigger]
            inserted(notes, note, by).contains(x) <==> notes.contains(x) || x == note,
        ids_differ(notes) && (forall|i: int|
            0 <= i < notes.len() ==> (#[trigger] notes[i]).note_id != note.note_id) ==> ids_differ(
            inserted(notes, note, by),
        ),
    decreases notes.len(),
{
    let res = inserted(notes, note, by);
    if notes.len() == 0 || by.rank(notes.last()) <= by.rank(note) {
        assert forall|x: ChannelNote| #[trigger] res.contains(x) <==> notes.contains(x) || x
            == note by {
            if notes.contains(x) {
                assert(res[notes.index_of(x)] == x);
            }
            assert(res[notes.len() as int] == note);
            if res.contains(x) && res.index_of(x) < notes.len() {
                assert(notes[res.index_of(x)] == x);
            }
        }
    } else {
        let rest = notes.drop_last();
        let last = notes.last();
        lemma_inserted_members(rest, note, by);
        let inner = inserted(rest, note, by);
        assert(res == inner.push(last));
        assert forall|x: ChannelNote| #[trigger] res.contains(x) <==> notes.contains(x) || x
            == note by {
            if res.contains(x) {
                let i = res.index_of(x);
                if i < inner.len() {
                    assert(inner[i] == x);
                    assert(inner.contains(x));
                    if rest.contains(x) {
                        assert(notes[rest.index_of(x)] == x);
                    }
                } else {
                    assert(notes[notes.len() - 1] == x);
                }
            }
            if notes.contains(x) || x == note {
                if x == last {
                    assert(res[inner.len() as int] == x);
                } else {
                    if notes.contains(x) {
                        assert(rest[notes.index_of(x)] == x);
                    }
                    assert(inner.contains(x));
                    assert(res[inner.index_of(x)] == x);
                }
            }
        }
        if ids_differ(notes) && (forall|i: int|
            0 <= i < notes.len() ==> (#[trigger] notes[i]).note_id != note.note_id) {
            assert(ids_differ(rest)) by {
                assert forall|i: int, j: int| 0 <= i < j < rest.len() implies (
                #[trigger] rest[i]).note_id != (#[trigger] rest[j]).note_id by {
                    assert(rest[i] == notes[i] && rest[j] == notes[j]);
                }
            }
            assert forall|i: int| 0 <= i < rest.len() implies (#[trigger] rest[i]).note_id
                != note.note_id by {
                assert(rest[i] == notes[i]);
            }
            assert forall|i: int, j: int| 0 <= i < j < res.len() implies (#[trigger] res[i]).note_id
                != (#[trigger] res[j]).note_id by {
                if j == inner.len() {
                    assert(res[i] == inner[i]);
                    assert(inner.contains(inner[i]));
                    assert(notes[notes.len() - 1] == last);
                    if inner[i] != note {
                        let k = rest.index_of(inner[i]);
                        assert(notes[k] == inner[i]);
                    }
                } else {
                    assert(res[i] == inner[i] && res[j] == inner[j]);
                }
            }
        }
    }
}

/// Sorting keeps the notes and the difference of their ids.
proof fn lemma_sorted_members(notes: Seq<ChannelNote>, by: NoteOrder)
    ensures
        forall|x: ChannelNote| #[trigger] sorted(notes, by).contains(x) <==> notes.contains(x),
        ids_differ(notes) ==> ids_differ(sorted(notes, by)),
    decreases notes.len(),
{
    if notes.len() > 0 {
        let rest = notes.drop_last();
        let last = notes.last();
        lemma_sorted_members(rest, by);
        lemma_inserted_members(sorted(rest, by), last, by);
        assert forall|x: ChannelNote| #[trigger] sorted(notes, by).contains(x) <==> notes.contains(
            x,
        ) by {
            if rest.contains(x) {
                assert(notes[rest.index_of(x)] == x);
            }
            assert(notes[notes.len() - 1] == last);
            if notes.contains(x) && x != last {
                assert(rest[notes.index_of(x)] == x);
            }
        }
        if ids_differ(notes) {
            assert(ids_differ(rest)) by {
                assert forall|i: int, j: int| 0 <= i < j < rest.len() implies (
                #[trigger] rest[i]).note_id != (#[trigger] rest[j]).note_id by {
                    assert(rest[i] == notes[i] && rest[j] == notes[j]);
                }
            }
            let inner = sorted(rest, by);
            assert forall|i: int| 0 <= i < inner.len() implies (#[trigger] inner[i]).note_id
                != last.note_id by {
                assert(inner.contains(inner[i]));
                let k = rest.index_of(inner[i]);
                assert(notes[k] == inner[i]);
                assert(notes[notes.len() - 1] == last);
            }
        }
    }
}

proof fn lemma_filter_ids_differ(notes: Seq<ChannelNote>, keep: spec_fn(ChannelNote) -> bool)
    requires
        ids_differ(notes),
    ensures
        ids_differ(notes.filter(keep)),
    decreases notes.len(),
{
    reveal(Seq::filter);
    if notes.len() > 0 {
        let rest = notes.drop_last();
        let last = notes.last();
        assert(ids_differ(rest)) by {
            assert forall|i: int, j: int| 0 <= i < j < rest.len() implies (
            #[trigger] rest[i]).note_id != (#[trigger] rest[j]).note_id by {
                assert(rest[i] == notes[i] && rest[j] == notes[j]);
            }
        }
        lemma_filter_ids_differ(rest, keep);
        let inner = rest.filter(keep);
        if keep(last) {
            let all = inner.push(last);
            assert(notes.filter(keep) == all);
            assert forall|i: int, j: int| 0 <= i < j < all.len() implies (#[trigger] all[i]).note_id
                != (#[trigger] all[j]).note_id by {
                if j == inner.len() {
                    assert(inner.contains(inner[i]));
                    lemma_filter_member(rest, keep, inner[i]);
                    let k = rest.index_of(inner[i]);
                    assert(notes[k] == inner[i]);
                    assert(notes[notes.len() - 1] == last);
                }
            }
        }
    }
}

/// A list of notes with different ids all of a pool with different ids.
spec fn drawn_from(list: Seq<ChannelNote>, pool: Seq<ChannelNote>) -> bool {
    &&& ids_differ(pool)
    &&& ids_differ(list)
    &&& forall|x: ChannelNote| #[trigger] list.contains(x) ==> pool.contains(x)
}

proof fn lemma_value_of_member(pool: Seq<ChannelNote>, i: int)
    requires
        ids_differ(pool),
        0 <= i < pool.len(),
    ensures
        value_of(pool, pool[i].note_id) == Some(pool[i].value),
    decreases pool.len(),
{
    let rest = pool.drop_last();
    if i < pool.len() - 1 {
        assert(pool[pool.len() - 1].note_id != pool[i].note_id);
        assert(ids_differ(rest)) by {
            assert forall|a: int, b: int| 0 <= a < b < rest.len() implies (
            #[trigger] rest[a]).note_id != (#[trigger] rest[b]).note_id by {
                assert(rest[a] == pool[a] && rest[b] == pool[b]);
            }
        }
        assert(rest[i] == pool[i]);
        lemma_value_of_member(rest, i);
    }
}

/// The ids of drawn notes are different, known, and worth what the notes are.
proof fn lemma_drawn_ids(list: Seq<ChannelNote>, pool: Seq<ChannelNote>)
    requires
        drawn_from(list, pool),
    ensures
        list.map_values(id_of()).no_duplicates(),
        forall|i: int|
            0 <= i < list.len() ==> value_of(pool, #[trigger] list.map_values(id_of())[i]) is Some,
        worth(pool, list.map_values(id_of())) == total_value(list),
    decreases list.len(),
{
    let ids = list.map_values(id_of());
    if list.len() > 0 {
        let front = list.drop_last();
        let last = list.len() - 1;
        assert(drawn_from(front, pool)) by {
            assert forall|i: int, j: int| 0 <= i < j < front.len() implies (
            #[trigger] front[i]).note_id != (#[trigger] front[j]).note_id by {
                assert(front[i] == list[i] && front[j] == list[j]);
            }
            assert forall|x: ChannelNote| #[trigger] front.contains(x) implies pool.contains(x) by {
                assert(list[front.index_of(x)] == x);
                assert(list.contains(x));
            }
        }
        lemma_drawn_ids(front, pool);
        let front_ids = front.map_values(id_of());
        assert(ids.drop_last() =~= front_ids);
        assert(list.contains(list[last]));
        let k = pool.index_of(list[last]);
        lemma_value_of_member(pool, k);
        assert(ids[last] == list[last].note_id);
        assert forall|i: int, j: int|
            0 <= i < ids.len() && 0 <= j < ids.len() && i != j implies ids[i] != ids[j] by {
            if i < j {
                assert(list[i].note_id != list[j].note_id);
            } else {
                assert(list[j].note_id != list[i].note_id);
            }
        }
        assert forall|i: int| 0 <= i < list.len() implies value_of(
            pool,
            #[trigger] ids[i],
        ) is Some by {
            if i < last {
                assert(ids[i] == front_ids[i]);
            }
        }
    }
}

proof fn lemma_worth_add(pool: Seq<ChannelNote>, a: Seq<NoteId>, b: Seq<NoteId>)
    ensures
        worth(pool, a + b) == worth(pool, a) + worth(pool, b),
    decreases b.len(),
{
    if b.len() == 0 {
        assert(a + b =~= a);
    } else {
        assert((a + b).drop_last() =~= a + b.drop_last());
        assert((a + b).last() == b.last());
        lemma_worth_add(pool, a, b.drop_last());
    }
}

proof fn lemma_take_drawn(list: Seq<ChannelNote>, pool: Seq<ChannelNote>, n: int)
    requires
        drawn_from(list, pool),
        0 <= n <= list.len(),
    ensures
        drawn_from(list.take(n), pool),
{
    let part = list.take(n);
    assert forall|i: int, j: int| 0 <= i < j < part.len() implies (#[trigger] part[i]).note_id != (
    #[trigger] part[j]).note_id by {
        assert(part[i] == list[i] && part[j] == list[j]);
    }
    assert forall|x: ChannelNote| #[trigger] part.contains(x) implies pool.contains(x) by {
        assert(list[part.index_of(x)] == x);
        assert(list.contains(x));
    }
}

/// Own and other notes, each sorted, are drawn from the pool.
proof fn lemma_preference_drawn(pool: Seq<ChannelNote>, own_key: ZkPublicKey, by: NoteOrder)
    requires
        ids_differ(pool),
    ensures
        drawn_from(
            preference(pool.filter(owned_by(own_key)), pool.filter(not_owned_by(own_key)), by),
            pool,
        ),
        drawn_from(pool.filter(owned_by(own_key)) + pool.filter(not_owned_by(own_key)), pool),
{
    let own = pool.filter(owned_by(own_key));
    let other = pool.filter(not_owned_by(own_key));
    lemma_filter_ids_differ(pool, owned_by(own_key));
    lemma_filter_ids_differ(pool, not_owned_by(own_key));
    lemma_sorted_members(own, by);
    lemma_sorted_members(other, by);
    assert forall|x: ChannelNote| #[trigger] own.contains(x) implies pool.contains(x) && x.pk
        == own_key by {
        lemma_filter_member(pool, owned_by(own_key), x);
    }
    assert forall|x: ChannelNote| #[trigger] other.contains(x) implies pool.contains(x) && x.pk
        != own_key by {
        lemma_filter_member(pool, not_owned_by(own_key), x);
    }
    lemma_joined_drawn(sorted(own, by), sorted(other, by), own_key, pool);
    lemma_joined_drawn(own, other, own_key, pool);
}

proof fn lemma_joined_drawn(
    a: Seq<ChannelNote>,
    b: Seq<ChannelNote>,
    own_key: ZkPublicKey,
    pool: Seq<ChannelNote>,
)
    requires
        ids_differ(pool),
        ids_differ(a),
        ids_differ(b),
        forall|x: ChannelNote| #[trigger] a.contains(x) ==> pool.contains(x) && x.pk == own_key,
        forall|x: ChannelNote| #[trigger] b.contains(x) ==> pool.contains(x) && x.pk != own_key,
    ensures
        drawn_from(a + b, pool),
{
    let all = a + b;
    assert forall|i: int, j: int| 0 <= i < j < all.len() implies (#[trigger] all[i]).note_id != (
    #[trigger] all[j]).note_id by {
        if j < a.len() {
            assert(all[i] == a[i] && all[j] == a[j]);
        } else if i >= a.len() {
            assert(all[i] == b[i - a.len()] && all[j] == b[j - a.len()]);
        } else {
            let x = a[i];
            let y = b[j - a.len()];
            assert(a.contains(x) && b.contains(y));
            let p = pool.index_of(x);
            let q = pool.index_of(y);
            assert(p != q);
            if p < q {
                assert(pool[p].note_id != pool[q].note_id);
            } else {
                assert(pool[q].note_id != pool[p].note_id);
            }
        }
    }
    assert forall|x: ChannelNote| #[trigger] all.contains(x) implies pool.contains(x) by {
        let i = all.index_of(x);
        if i < a.len() {
            assert(a[i] == x);
            assert(a.contains(x));
        } else {
            assert(b[i - a.len()] == x);
            assert(b.contains(x));
        }
    }
}

proof fn lemma_cover_spendable(list: Seq<ChannelNote>, pool: Seq<ChannelNote>, amount: Value)
    requires
        drawn_from(list, pool),
    ensures
        cover(list, amount) matches Some(ids) ==> spendable(pool, ids, amount),
{
    if exists|n: int| covers(list, amount, n) {
        let n = choose|n: int| covers(list, amount, n);
        lemma_take_drawn(list, pool, n);
        lemma_drawn_ids(list.take(n), pool);
    }
}

proof fn lemma_swept_spendable(
    ids: Seq<NoteId>,
    list: Seq<ChannelNote>,
    pool: Seq<ChannelNote>,
    amount: Value,
)
    requires
        drawn_from(list, pool),
        spendable(pool, ids, amount),
    ensures
        spendable(pool, swept(ids, list, amount), amount),
{
    let keep = is_loose_dust(ids.to_set(), amount);
    let loose = list.filter(keep);
    lemma_filter_ids_differ(list, keep);
    let notes = sorted(loose, NoteOrder::SmallestOldestFirst);
    lemma_sorted_members(loose, NoteOrder::SmallestOldestFirst);
    assert forall|x: ChannelNote| #[trigger] notes.contains(x) implies pool.contains(x)
        && !ids.contains(x.note_id) by {
        assert(loose.contains(x));
        lemma_filter_member(list, keep, x);
        assert(list.contains(x));
        assert(!ids.to_set().contains(x.note_id));
    }
    assert(drawn_from(notes, pool));
    let dust = notes.map_values(id_of());
    let room = MAX_TRANSACTION_INPUTS - ids.len();
    let n = if dust.len() <= room {
        dust.len() as int
    } else {
        room
    };
    let part = notes.take(n);
    lemma_take_drawn(notes, pool, n);
    lemma_drawn_ids(part, pool);
    let added = part.map_values(id_of());
    assert(added =~= dust.take(n));
    let res = swept(ids, list, amount);
    assert(dust.take(dust.len() as int) =~= dust);
    assert(ids + dust.take(0) =~= ids);
    assert(res == ids + added);
    lemma_worth_add(pool, ids, added);
    assert forall|i: int, j: int|
        0 <= i < res.len() && 0 <= j < res.len() && i != j implies res[i] != res[j] by {
        let lo = if i < j {
            i
        } else {
            j
        };
        let hi = if i < j {
            j
        } else {
            i
        };
        if lo < ids.len() && hi >= ids.len() {
            let k = hi - ids.len();
            assert(res[hi] == part[k].note_id);
            assert(notes[k] == part[k]);
            assert(notes.contains(notes[k]));
            assert(ids.contains(ids[lo]));
        } else if lo >= ids.len() {
            assert(added[lo - ids.len()] != added[hi - ids.len()]);
        }
    }
    assert forall|i: int| 0 <= i < res.len() implies value_of(pool, #[trigger] res[i]) is Some by {
        if i >= ids.len() {
            assert(res[i] == added[i - ids.len()]);
        }
    }
}

/// A choice of notes that is made can be spent: different notes of the pool, not
/// more than a transaction has inputs, and worth the amount. The caller's own
/// choice is returned as it is.
pub proof fn law_selection_is_spendable(
    pool: Seq<ChannelNote>,
    own_key: ZkPublicKey,
    amount: Value,
    choice: WithdrawInputs,
)
    requires
        ids_differ(pool),
    ensures
        selection(pool, own_key, amount, choice) matches Ok(ids) ==> spendable(pool, ids, amount)
            && (choice matches WithdrawInputs::Explicit(given) ==> ids == given@),
{
    match choice {
        WithdrawInputs::Explicit(given) => {
            assert(given@.take(0) =~= Seq::empty());
            lemma_explicit(pool, given@, 0, 0);
        },
        WithdrawInputs::Auto => {
            let own = pool.filter(owned_by(own_key));
            let other = pool.filter(not_owned_by(own_key));
            lemma_preference_drawn(pool, own_key, NoteOrder::NewestFirst);
            lemma_preference_drawn(pool, own_key, NoteOrder::LargestFirst);
            lemma_cover_spendable(preference(own, other, NoteOrder::NewestFirst), pool, amount);
            lemma_cover_spendable(preference(own, other, NoteOrder::LargestFirst), pool, amount);
            if let Some(ids) = preferred_cover(own, other, amount) {
                lemma_swept_spendable(ids, own + other, pool, amount);
            }
        },
    }
}

proof fn lemma_worth_without_last(pool: Seq<ChannelNote>, ids: Seq<NoteId>)
    requires
        pool.len() > 0,
        ids.no_duplicates(),
    ensures
        worth(pool, ids) <= worth(pool.drop_last(), ids) + if ids.contains(pool.last().note_id) {
            pool.last().value as nat
        } else {
            0
        },
    decreases ids.len(),
{
    if ids.len() > 0 {
        let front = ids.drop_last();
        let last = ids.last();
        assert forall|i: int, j: int|
            0 <= i < front.len() && 0 <= j < front.len() && i != j implies front[i] != front[j] by {
            assert(front[i] == ids[i] && front[j] == ids[j]);
        }
        lemma_worth_without_last(pool, front);
        assert(ids[ids.len() - 1] == last);
        if front.contains(pool.last().note_id) {
            let k = front.index_of(pool.last().note_id);
            assert(ids[k] == pool.last().note_id);
            assert(last != pool.last().note_id);
        }
        if last == pool.last().note_id {
            assert(ids.contains(last));
        }
    }
}

/// Different notes are worth no more than all.
proof fn lemma_worth_bounded(pool: Seq<ChannelNote>, ids: Seq<NoteId>)
    requires
        ids.no_duplicates(),
    ensures
        worth(pool, ids) <= total_value(pool),
    decreases pool.len(),
{
    if pool.len() == 0 {
        lemma_worth_of_nothing(pool, ids);
    } else {
        lemma_worth_without_last(pool, ids);
        lemma_worth_bounded(pool.drop_last(), ids);
    }
}

proof fn lemma_worth_of_nothing(pool: Seq<ChannelNote>, ids: Seq<NoteId>)
    requires
        pool.len() == 0,
    ensures
        worth(pool, ids) == 0,
    decreases ids.len(),
{
    if ids.len() > 0 {
        lemma_worth_of_nothing(pool, ids.drop_last());
    }
}

proof fn lemma_total_value_add(a: Seq<ChannelNote>, b: Seq<ChannelNote>)
    ensures
        total_value(a + b) == total_value(a) + total_value(b),
    decreases b.len(),
{
    if b.len() == 0 {
        assert(a + b =~= a);
    } else {
        assert((a + b).drop_last() =~= a + b.drop_last());
        lemma_total_value_add(a, b.drop_last());
    }
}

proof fn lemma_tiers_are_the_pool(pool: Seq<ChannelNote>, own_key: ZkPublicKey)
    ensures
        total_value(pool.filter(owned_by(own_key))) + total_value(
            pool.filter(not_owned_by(own_key)),
        ) == total_value(pool),
    decreases pool.len(),
{
    reveal(Seq::filter);
    if pool.len() > 0 {
        let front = pool.drop_last();
        let last = pool.last();
        lemma_tiers_are_the_pool(front, own_key);
        let own = front.filter(owned_by(own_key));
        let other = front.filter(not_owned_by(own_key));
        assert(own.push(last).drop_last() =~= own);
        assert(other.push(last).drop_last() =~= other);
    }
}

proof fn lemma_explicit_accepts(pool: Seq<ChannelNote>, ids: Seq<NoteId>, i: int)
    requires
        0 <= i <= ids.len(),
        ids.no_duplicates(),
        forall|j: int| 0 <= j < ids.len() ==> value_of(pool, #[trigger] ids[j]) is Some,
        worth(pool, ids) <= u64::MAX,
    ensures
        explicit_value(pool, ids, i, worth(pool, ids.take(i))) == Ok::<nat, Seq<char>>(
            worth(pool, ids),
        ),
    decreases ids.len() - i,
{
    if i == ids.len() {
        assert(ids.take(i) =~= ids);
    } else {
        let next = ids.take(i + 1);
        assert(next.drop_last() =~= ids.take(i));
        assert(value_of(pool, ids[i]) is Some);
        if ids.take(i).contains(ids[i]) {
            let k = ids.take(i).index_of(ids[i]);
            assert(ids[k] == ids[i]);
        }
        assert(next + ids.skip(i + 1) =~= ids);
        lemma_worth_add(pool, next, ids.skip(i + 1));
        lemma_explicit_accepts(pool, ids, i + 1);
    }
}

/// The sequencer's own choice is one that a caller could have made: given back
/// as an explicit choice, it is chosen again.
pub proof fn law_automatic_choice_can_be_replayed(
    pool: Seq<ChannelNote>,
    own_key: ZkPublicKey,
    amount: Value,
    chosen: Vec<NoteId>,
)
    requires
        ids_differ(pool),
        selection(pool, own_key, amount, WithdrawInputs::Auto) == Ok::<Seq<NoteId>, Seq<char>>(
            chosen@,
        ),
    ensures
        selection(pool, own_key, amount, WithdrawInputs::Explicit(chosen)) == Ok::<
            Seq<NoteId>,
            Seq<char>,
        >(chosen@),
{
    law_selection_is_spendable(pool, own_key, amount, WithdrawInputs::Auto);
    lemma_total_value_add(pool.filter(owned_by(own_key)), pool.filter(not_owned_by(own_key)));
    lemma_tiers_are_the_pool(pool, own_key);
    lemma_worth_bounded(pool, chosen@);
    lemma_explicit_accepts(pool, chosen@, 0);
    assert(chosen@.take(0) =~= Seq::empty());
}

// What a choice is made of.

/// The value of a list of notes is the sum of theirs.
pub proof fn law_total_value_sums(a: Seq<ChannelNote>, b: Seq<ChannelNote>, note: ChannelNote)
    ensures
        total_value(Seq::empty()) == 0,
        total_value(seq![note]) == note.value,
        total_value(a + b) == total_value(a) + total_value(b),
{
    assert(seq![note].drop_last() =~= Seq::empty());
    assert(seq![note].last() == note);
    assert(total_value(seq![note].drop_last()) == 0);
    lemma_total_value_add(a, b);
}

proof fn lemma_value_of_none(pool: Seq<ChannelNote>, id: NoteId)
    ensures
        value_of(pool, id) is None <==> forall|k: int|
            0 <= k < pool.len() ==> (#[trigger] pool[k]).note_id != id,
    decreases pool.len(),
{
    if pool.len() > 0 {
        let front = pool.drop_last();
        lemma_value_of_none(front, id);
        assert(pool[pool.len() - 1] == pool.last());
        if pool.last().note_id != id {
            if value_of(front, id) is None {
                assert forall|k: int| 0 <= k < pool.len() implies (#[trigger] pool[k]).note_id
                    != id by {
                    if k < front.len() {
                        assert(front[k] == pool[k]);
                    }
                }
            } else {
                let k = choose|k: int|
                    0 <= k < front.len() && (#[trigger] front[k]).note_id == id;
                assert(pool[k] == front[k]);
            }
        }
    }
}

/// The pool gives an id the value of its note, and none where it has no such
/// note.
pub proof fn law_value_is_that_of_the_note(pool: Seq<ChannelNote>, id: NoteId, value: Value)
    requires
        ids_differ(pool),
    ensures
        value_of(pool, id) == Some(value) <==> exists|k: int|
            0 <= k < pool.len() && (#[trigger] pool[k]).note_id == id && pool[k].value == value,
        value_of(pool, id) is None <==> forall|k: int|
            0 <= k < pool.len() ==> (#[trigger] pool[k]).note_id != id,
{
    lemma_value_of_none(pool, id);
    if exists|k: int|
        0 <= k < pool.len() && (#[trigger] pool[k]).note_id == id && pool[k].value == value {
        let k = choose|k: int|
            0 <= k < pool.len() && (#[trigger] pool[k]).note_id == id && pool[k].value == value;
        lemma_value_of_member(pool, k);
    }
    if value_of(pool, id) is Some {
        let k = choose|k: int| 0 <= k < pool.len() && (#[trigger] pool[k]).note_id == id;
        lemma_value_of_member(pool, k);
    }
}

proof fn lemma_inserted_multiset(notes: Seq<ChannelNote>, note: ChannelNote, by: NoteOrder)
    ensures
        inserted(notes, note, by).to_multiset() == notes.to_multiset().insert(note),
    decreases notes.len(),
{
    notes.to_multiset_ensures();
    if !(notes.len() == 0 || by.rank(notes.last()) <= by.rank(note)) {
        let front = notes.drop_last();
        lemma_inserted_multiset(front, note, by);
        let inner = inserted(front, note, by);
        inner.to_multiset_ensures();
        front.to_multiset_ensures();
        assert(front.push(notes.last()) =~= notes);
        assert(inner.push(notes.last()).to_multiset() =~= notes.to_multiset().insert(note));
    }
}

proof fn lemma_sorted_multiset(notes: Seq<ChannelNote>, by: NoteOrder)
    ensures
        sorted(notes, by).to_multiset() == notes.to_multiset(),
    decreases notes.len(),
{
    if notes.len() == 0 {
        assert(notes =~= Seq::empty());
    } else {
        let front = notes.drop_last();
        lemma_sorted_multiset(front, by);
        lemma_inserted_multiset(sorted(front, by), notes.last(), by);
        front.to_multiset_ensures();
        assert(front.push(notes.last()) =~= notes);
    }
}

proof fn lemma_tiers_multiset(pool: Seq<ChannelNote>, own_key: ZkPublicKey)
    ensures
        pool.filter(owned_by(own_key)).to_multiset().add(
            pool.filter(not_owned_by(own_key)).to_multiset(),
        ) == pool.to_multiset(),
    decreases pool.len(),
{
    reveal(Seq::filter);
    let own = pool.filter(owned_by(own_key));
    let other = pool.filter(not_owned_by(own_key));
    if pool.len() == 0 {
        assert(pool =~= Seq::empty());
        assert(own =~= pool && other =~= pool);
        pool.to_multiset_ensures();
        assert(pool.to_multiset().add(pool.to_multiset()) =~= pool.to_multiset());
    } else {
        let front = pool.drop_last();
        let last = pool.last();
        lemma_tiers_multiset(front, own_key);
        let a = front.filter(owned_by(own_key));
        let b = front.filter(not_owned_by(own_key));
        a.to_multiset_ensures();
        b.to_multiset_ensures();
        front.to_multiset_ensures();
        assert(front.push(last) =~= pool);
        assert(own.to_multiset().add(other.to_multiset()) =~= pool.to_multiset());
    }
}

/// Whether one note may stand before another in an order.
pub open spec fn may_precede(a: ChannelNote, b: ChannelNote, by: NoteOrder) -> bool {
    match by {
        NoteOrder::NewestFirst => a.slot >= b.slot,
        NoteOrder::LargestFirst => a.value >= b.value,
        NoteOrder::SmallestOldestFirst => a.value < b.value || (a.value == b.value && a.slot
            <= b.slot),
    }
}

proof fn lemma_rank_precedes(a: ChannelNote, b: ChannelNote, by: NoteOrder)
    requires
        by.rank(a) <= by.rank(b),
    ensures
        may_precede(a, b, by),
{
}

proof fn lemma_sorted_precedes(notes: Seq<ChannelNote>, by: NoteOrder, i: int, j: int)
    requires
        0 <= i < j < notes.len(),
    ensures
        sorted(notes, by).len() == notes.len(),
        may_precede(sorted(notes, by)[i], sorted(notes, by)[j], by),
{
    law_sorted_is_the_stable_sort(notes, by, 0);
    lemma_rank_precedes(sorted(notes, by)[i], sorted(notes, by)[j], by);
}

/// The two tiers in their order are the notes of the pool, each as often as it
/// has it; every own note comes before every other one, and among the own and
/// among the others the newest, the largest or the smallest come first.
pub proof fn law_own_notes_come_first(pool: Seq<ChannelNote>, own_key: ZkPublicKey, by: NoteOrder)
    ensures
        ({
            let list = preference(
                pool.filter(owned_by(own_key)),
                pool.filter(not_owned_by(own_key)),
                by,
            );
            &&& list.to_multiset() == pool.to_multiset()
            &&& list.len() == pool.len()
            &&& forall|i: int, j: int|
                0 <= i < j < list.len() ==> {
                    &&& (#[trigger] list[j]).pk == own_key ==> (#[trigger] list[i]).pk == own_key
                    &&& (list[i].pk == own_key) == (list[j].pk == own_key) ==> may_precede(
                        list[i],
                        list[j],
                        by,
                    )
                }
        }),
{
    let own = pool.filter(owned_by(own_key));
    let other = pool.filter(not_owned_by(own_key));
    let a = sorted(own, by);
    let b = sorted(other, by);
    let list = preference(own, other, by);
    lemma_sorted_multiset(own, by);
    lemma_sorted_multiset(other, by);
    lemma_tiers_multiset(pool, own_key);
    vstd::seq_lib::lemma_multiset_commutative(a, b);
    a.to_multiset_ensures();
    b.to_multiset_ensures();
    list.to_multiset_ensures();
    pool.to_multiset_ensures();
    lemma_sorted_members(own, by);
    lemma_sorted_members(other, by);
    law_sorted_is_the_stable_sort(own, by, 0);
    law_sorted_is_the_stable_sort(other, by, 0);
    assert forall|i: int| 0 <= i < list.len() implies ((#[trigger] list[i]).pk == own_key <==> i
        < a.len()) by {
        if i < a.len() {
            assert(a.contains(a[i]));
            lemma_filter_member(pool, owned_by(own_key), a[i]);
        } else {
            assert(b.contains(b[i - a.len()]));
            lemma_filter_member(pool, not_owned_by(own_key), b[i - a.len()]);
        }
    }
    assert forall|i: int, j: int| 0 <= i < j < list.len() implies {
        &&& (#[trigger] list[j]).pk == own_key ==> (#[trigger] list[i]).pk == own_key
        &&& (list[i].pk == own_key) == (list[j].pk == own_key) ==> may_precede(
            list[i],
            list[j],
            by,
        )
    } by {
        if j < a.len() {
            lemma_sorted_precedes(own, by, i, j);
        } else if i >= a.len() {
            lemma_sorted_precedes(other, by, i - a.len(), j - a.len());
        }
    }
}

/// Some notes from the front of a list, no more than a transaction has inputs,
/// are worth the amount.
pub open spec fn some_run_covers(notes: Seq<ChannelNote>, amount: Value) -> bool {
    exists|n: int|
        0 <= n <= notes.len() && n <= MAX_TRANSACTION_INPUTS && total_value(
            #[trigger] notes.take(n),
        ) >= amount
}

/// The shortest covering run lies within any other.
proof fn lemma_least_cover(notes: Seq<ChannelNote>, amount: Value, n: int) -> (m: int)
    requires
        0 <= n <= notes.len(),
        n <= MAX_TRANSACTION_INPUTS,
        total_value(notes.take(n)) >= amount,
    ensures
        covers(notes, amount, m),
    decreases n,
{
    if exists|k: int| 0 <= k < n && total_value(#[trigger] notes.take(k)) >= amount {
        let k = choose|k: int| 0 <= k < n && total_value(#[trigger] notes.take(k)) >= amount;
        lemma_least_cover(notes, amount, k)
    } else {
        n
    }
}

proof fn lemma_cover_iff(notes: Seq<ChannelNote>, amount: Value)
    ensures
        cover(notes, amount) is Some <==> some_run_covers(notes, amount),
        cover(notes, amount) matches Some(ids) ==> exists|n: int| #[trigger]
            covers(notes, amount, n) && ids == notes.take(n).map_values(id_of()),
{
    if some_run_covers(notes, amount) {
        let n = choose|n: int|
            0 <= n <= notes.len() && n <= MAX_TRANSACTION_INPUTS && total_value(
                #[trigger] notes.take(n),
            ) >= amount;
        let m = lemma_least_cover(notes, amount, n);
        assert(covers(notes, amount, m));
    }
    if exists|n: int| covers(notes, amount, n) {
        let n = choose|n: int| covers(notes, amount, n);
        assert(total_value(notes.take(n)) >= amount);
    }
}

proof fn lemma_same_notes_same_value(a: Seq<ChannelNote>, b: Seq<ChannelNote>)
    requires
        a.to_multiset() == b.to_multiset(),
    ensures
        total_value(a) == total_value(b),
    decreases a.len(),
{
    a.to_multiset_ensures();
    b.to_multiset_ensures();
    if a.len() > 0 {
        let last = a.last();
        assert(a[a.len() - 1] == last);
        assert(a.contains(last));
        assert(a.to_multiset().count(last) > 0);
        assert(b.to_multiset().count(last) > 0);
        assert(b.contains(last));
        let k = b.index_of(last);
        let front = a.drop_last();
        let rest = b.take(k) + b.skip(k + 1);
        front.to_multiset_ensures();
        rest.to_multiset_ensures();
        assert(b =~= b.take(k) + (seq![last] + b.skip(k + 1)));
        vstd::seq_lib::lemma_multiset_commutative(b.take(k), seq![last] + b.skip(k + 1));
        vstd::seq_lib::lemma_multiset_commutative(seq![last], b.skip(k + 1));
        vstd::seq_lib::lemma_multiset_commutative(b.take(k), b.skip(k + 1));
        assert(front.push(last) =~= a);
        assert(seq![last] =~= Seq::empty().push(last));
        Seq::<ChannelNote>::empty().to_multiset_ensures();
        assert(front.to_multiset() =~= rest.to_multiset()) by {
            assert(a.to_multiset() =~= front.to_multiset().insert(last));
            assert(b.to_multiset() =~= rest.to_multiset().insert(last));
            assert(front.to_multiset() =~= front.to_multiset().insert(last).remove(last));
            assert(rest.to_multiset() =~= rest.to_multiset().insert(last).remove(last));
        }
        lemma_same_notes_same_value(front, rest);
        law_total_value_sums(b.take(k), seq![last] + b.skip(k + 1), last);
        law_total_value_sums(seq![last], b.skip(k + 1), last);
        law_total_value_sums(b.take(k), b.skip(k + 1), last);
    } else {
        assert(b.len() == 0);
    }
}

/// The sequencer's choice is made from the whole pool, own notes and others. It
/// fails for want of funds exactly where all notes together are worth less than
/// the amount, and tells what they are worth; where they are worth enough, and
/// sixty-four bits hold it, it succeeds exactly where some run of one of the
/// two orders covers the amount within the inputs of a transaction. That is so
/// of every such pool with no more notes than a transaction has inputs.
pub proof fn law_auto_draws_on_the_whole_pool(
    pool: Seq<ChannelNote>,
    own_key: ZkPublicKey,
    amount: Value,
)
    ensures
        ({
            let res = selection(pool, own_key, amount, WithdrawInputs::Auto);
            let own = pool.filter(owned_by(own_key));
            let other = pool.filter(not_owned_by(own_key));
            let total = total_value(pool);
            &&& total > u64::MAX ==> res == Err::<Seq<NoteId>, Seq<char>>(
                "channel note value overflow"@,
            )
            &&& total < amount ==> res == Err::<Seq<NoteId>, Seq<char>>(
                insufficient_text(total, amount),
            )
            &&& amount <= total <= u64::MAX ==> {
                &&& res is Ok <==> some_run_covers(
                    preference(own, other, NoteOrder::NewestFirst),
                    amount,
                ) || some_run_covers(preference(own, other, NoteOrder::LargestFirst), amount)
                &&& res is Err ==> res == Err::<Seq<NoteId>, Seq<char>>(
                    "cannot cover withdrawal under the 255-input limit"@,
                )
                &&& pool.len() <= MAX_TRANSACTION_INPUTS ==> res is Ok
            }
        }),
{
    let own = pool.filter(owned_by(own_key));
    let other = pool.filter(not_owned_by(own_key));
    let newest = preference(own, other, NoteOrder::NewestFirst);
    let largest = preference(own, other, NoteOrder::LargestFirst);
    lemma_total_value_add(own, other);
    lemma_tiers_are_the_pool(pool, own_key);
    lemma_cover_iff(newest, amount);
    lemma_cover_iff(largest, amount);
    law_own_notes_come_first(pool, own_key, NoteOrder::NewestFirst);
    lemma_same_notes_same_value(newest, pool);
    assert(newest.take(newest.len() as int) =~= newest);
}

/// A choice as it is made: a run of the notes in an order, the shortest that
/// covers the amount, then `dust`.
pub open spec fn made_of(
    pool: Seq<ChannelNote>,
    amount: Value,
    ids: Seq<NoteId>,
    run: Seq<ChannelNote>,
    dust: Seq<ChannelNote>,
) -> bool {
    &&& ids.len() == run.len() + dust.len() <= MAX_TRANSACTION_INPUTS
    &&& forall|i: int| 0 <= i < run.len() ==> #[trigger] ids[i] == run[i].note_id
    &&& forall|i: int|
        0 <= i < dust.len() ==> #[trigger] dust[i].note_id == ids[run.len() + i]
    &&& total_value(run) >= amount
    &&& run.len() > 0 ==> total_value(run.drop_last()) < amount
    &&& forall|i: int|
        0 <= i < dust.len() ==> pool.contains(#[trigger] dust[i]) && dust[i].value * 255 < amount
            && forall|j: int|
            0 <= j < run.len() ==> (#[trigger] run[j]).note_id != dust[i].note_id
    &&& forall|i: int, j: int|
        0 <= i < j < dust.len() ==> may_precede(
            #[trigger] dust[i],
            #[trigger] dust[j],
            NoteOrder::SmallestOldestFirst,
        )
    &&& forall|k: int|
        0 <= k < pool.len() && (#[trigger] pool[k]).value * 255 < amount && (forall|j: int|
            0 <= j < run.len() ==> (#[trigger] run[j]).note_id != pool[k].note_id)
            ==> dust.contains(pool[k]) || (ids.len() == MAX_TRANSACTION_INPUTS && forall|i: int|
            0 <= i < dust.len() ==> may_precede(
                #[trigger] dust[i],
                pool[k],
                NoteOrder::SmallestOldestFirst,
            ))
}

proof fn lemma_swept_made_of(
    pool: Seq<ChannelNote>,
    own_key: ZkPublicKey,
    amount: Value,
    run: Seq<ChannelNote>,
) -> (dust: Seq<ChannelNote>)
    requires
        run.len() <= MAX_TRANSACTION_INPUTS,
        total_value(run) >= amount,
        run.len() > 0 ==> total_value(run.drop_last()) < amount,
    ensures
        made_of(
            pool,
            amount,
            swept(
                run.map_values(id_of()),
                pool.filter(owned_by(own_key)) + pool.filter(not_owned_by(own_key)),
                amount,
            ),
            run,
            dust,
        ),
{
    let own = pool.filter(owned_by(own_key));
    let other = pool.filter(not_owned_by(own_key));
    let tiers = own + other;
    let ids = run.map_values(id_of());
    let loose = is_loose_dust(ids.to_set(), amount);
    let by = NoteOrder::SmallestOldestFirst;
    let found = tiers.filter(loose);
    let all = sorted(found, by);
    let res = swept(ids, tiers, amount);
    law_sorted_is_the_stable_sort(found, by, 0);
    lemma_sorted_members(found, by);
    let n = if ids.len() + all.len() <= MAX_TRANSACTION_INPUTS {
        all.len() as int
    } else {
        MAX_TRANSACTION_INPUTS - ids.len()
    };
    let dust = all.take(n);
    assert(all.map_values(id_of()).take(n) =~= dust.map_values(id_of()));
    assert(all.map_values(id_of()).take(all.len() as int) =~= all.map_values(id_of()));
    assert(res =~= ids + dust.map_values(id_of()));
    assert forall|i: int| 0 <= i < all.len() implies pool.contains(#[trigger] all[i])
        && loose(all[i]) by {
        assert(all.contains(all[i]));
        lemma_filter_member(tiers, loose, all[i]);
        let k = tiers.index_of(all[i]);
        if k < own.len() {
            assert(own.contains(own[k]));
            lemma_filter_member(pool, owned_by(own_key), all[i]);
        } else {
            assert(other.contains(other[k - own.len()]));
            lemma_filter_member(pool, not_owned_by(own_key), all[i]);
        }
    }
    assert forall|i: int, j: int| 0 <= i < dust.len() && 0 <= j < run.len() implies (
    #[trigger] run[j]).note_id != (#[trigger] dust[i]).note_id by {
        assert(all[i] == dust[i]);
        assert(ids[j] == run[j].note_id);
        assert(ids.contains(ids[j]));
        assert(loose(all[i]));
    }
    assert forall|i: int| 0 <= i < dust.len() implies pool.contains(#[trigger] dust[i])
        && dust[i].value * 255 < amount by {
        assert(all[i] == dust[i]);
        assert(loose(all[i]));
    }
    assert forall|i: int, j: int| 0 <= i < j < dust.len() implies may_precede(
        #[trigger] dust[i],
        #[trigger] dust[j],
        by,
    ) by {
        lemma_sorted_precedes(found, by, i, j);
    }
    assert forall|k: int|
        0 <= k < pool.len() && (#[trigger] pool[k]).value * 255 < amount && (forall|j: int|
            0 <= j < run.len() ==> (#[trigger] run[j]).note_id
                != pool[k].note_id) implies dust.contains(pool[k]) || (res.len()
        == MAX_TRANSACTION_INPUTS && forall|i: int|
        0 <= i < dust.len() ==> may_precede(#[trigger] dust[i], pool[k], by)) by {
        let x = pool[k];
        assert(pool.contains(x));
        lemma_filter_member(pool, owned_by(own_key), x);
        lemma_filter_member(pool, not_owned_by(own_key), x);
        if own.contains(x) {
            assert(tiers[own.index_of(x)] == x);
        } else {
            assert(tiers[own.len() + other.index_of(x)] == x);
        }
        assert(!ids.to_set().contains(x.note_id)) by {
            if ids.contains(x.note_id) {
                let j = ids.index_of(x.note_id);
                assert(run[j].note_id == x.note_id);
            }
        }
        assert(loose(x));
        assert(tiers.contains(x));
        lemma_filter_member(tiers, loose, x);
        assert(all.contains(x));
        let at = all.index_of(x);
        if at < n {
            assert(dust[at] == x);
        } else {
            assert forall|i: int| 0 <= i < dust.len() implies may_precede(
                #[trigger] dust[i],
                x,
                by,
            ) by {
                lemma_sorted_precedes(found, by, i, at);
            }
        }
    }
    dust
}

/// A choice is a covering run of the notes in an order, and dust.
pub open spec fn starts_with_a_run(
    pool: Seq<ChannelNote>,
    amount: Value,
    ids: Seq<NoteId>,
    order: Seq<ChannelNote>,
) -> bool {
    exists|n: int, dust: Seq<ChannelNote>|
        0 <= n <= order.len() && #[trigger] made_of(pool, amount, ids, order.take(n), dust)
}

/// The sequencer's choice is the shortest run of the notes in order that covers
/// the amount: own notes first, the newest first, or the largest first where
/// the newest cannot cover it within the inputs of a transaction. Behind the run
/// stand the notes that could not cover the amount even in a full transaction
/// of their kind, the smallest and then the oldest first, as many as fit.
pub proof fn law_auto_takes_the_shortest_run_then_dust(
    pool: Seq<ChannelNote>,
    own_key: ZkPublicKey,
    amount: Value,
)
    ensures
        selection(pool, own_key, amount, WithdrawInputs::Auto) matches Ok(ids) ==> ({
            let own = pool.filter(owned_by(own_key));
            let other = pool.filter(not_owned_by(own_key));
            let newest = preference(own, other, NoteOrder::NewestFirst);
            let largest = preference(own, other, NoteOrder::LargestFirst);
            if some_run_covers(newest, amount) {
                starts_with_a_run(pool, amount, ids, newest)
            } else {
                starts_with_a_run(pool, amount, ids, largest)
            }
        }),
{
    if let Ok(ids) = selection(pool, own_key, amount, WithdrawInputs::Auto) {
        let own = pool.filter(owned_by(own_key));
        let other = pool.filter(not_owned_by(own_key));
        let newest = preference(own, other, NoteOrder::NewestFirst);
        let largest = preference(own, other, NoteOrder::LargestFirst);
        lemma_cover_iff(newest, amount);
        lemma_cover_iff(largest, amount);
        let order = if some_run_covers(newest, amount) {
            newest
        } else {
            largest
        };
        let cover_ids = cover(order, amount)->0;
        let n = choose|n: int| #[trigger]
            covers(order, amount, n) && cover_ids == order.take(n).map_values(id_of());
        let run = order.take(n);
        if n > 0 {
            assert(run.drop_last() =~= order.take(n - 1));
        }
        let dust = lemma_swept_made_of(pool, own_key, amount, run);
        assert(made_of(pool, amount, ids, order.take(n), dust));
    }
}

/// The caller's own choice is taken exactly where it can be spent and sixty-four
/// bits hold its worth. A choice that is too long, and one that is not worth
/// the amount, are refused as such; otherwise the first id that is there
/// already, or that the pool does not have, is the reason.
pub proof fn law_explicit_choice_is_taken_where_spendable(
    pool: Seq<ChannelNote>,
    own_key: ZkPublicKey,
    amount: Value,
    chosen: Vec<NoteId>,
    i: int,
)
    ensures
        ({
            let res = selection(pool, own_key, amount, WithdrawInputs::Explicit(chosen));
            let ids = chosen@;
            &&& res is Ok <==> spendable(pool, ids, amount) && worth(pool, ids) <= u64::MAX
            &&& ids.len() > MAX_TRANSACTION_INPUTS ==> res == Err::<Seq<NoteId>, Seq<char>>(
                too_many_text(ids.len()),
            )
            &&& ids.len() <= MAX_TRANSACTION_INPUTS && ids.no_duplicates() && (forall|j: int|
                0 <= j < ids.len() ==> value_of(pool, #[trigger] ids[j]) is Some) && worth(
                pool,
                ids,
            ) < amount ==> res == Err::<Seq<NoteId>, Seq<char>>(
                short_text(worth(pool, ids), amount),
            )
            &&& 0 <= i < ids.len() <= MAX_TRANSACTION_INPUTS && ids.take(i).no_duplicates() && (
            forall|j: int|
                0 <= j < i ==> value_of(pool, #[trigger] ids[j]) is Some) && worth(
                pool,
                ids.take(i),
            ) <= u64::MAX ==> {
                &&& ids.take(i).contains(ids[i]) ==> res == Err::<Seq<NoteId>, Seq<char>>(
                    duplicate_text(ids[i]),
                )
                &&& !ids.take(i).contains(ids[i]) && value_of(pool, ids[i]) is None ==> res
                    == Err::<Seq<NoteId>, Seq<char>>(untracked_text(ids[i]))
            }
        }),
{
    let ids = chosen@;
    assert(ids.take(0) =~= Seq::empty());
    lemma_explicit(pool, ids, 0, 0);
    if ids.no_duplicates() && (forall|j: int|
        0 <= j < ids.len() ==> value_of(pool, #[trigger] ids[j]) is Some) && worth(pool, ids)
        <= u64::MAX {
        lemma_explicit_accepts(pool, ids, 0);
    }
    if explicit_value(pool, ids, 0, 0) is Ok {
        lemma_explicit_fits(pool, ids, 0, 0);
    }
    if 0 <= i < ids.len() && ids.take(i).no_duplicates() && (forall|j: int|
        0 <= j < i ==> value_of(pool, #[trigger] ids[j]) is Some) && worth(pool, ids.take(i))
        <= u64::MAX {
        lemma_explicit_reaches(pool, ids, 0, i);
    }
}

proof fn lemma_explicit_fits(pool: Seq<ChannelNote>, ids: Seq<NoteId>, i: int, sum: nat)
    requires
        0 <= i <= ids.len(),
        sum <= u64::MAX,
        explicit_value(pool, ids, i, sum) is Ok,
    ensures
        explicit_value(pool, ids, i, sum)->Ok_0 <= u64::MAX,
    decreases ids.len() - i,
{
    if i < ids.len() {
        let value = value_of(pool, ids[i])->0;
        lemma_explicit_fits(pool, ids, i + 1, (sum + value) as nat);
    }
}

/// Ids that can be spent so far let the test go on behind them.
proof fn lemma_explicit_reaches(pool: Seq<ChannelNote>, ids: Seq<NoteId>, k: int, i: int)
    requires
        0 <= k <= i < ids.len(),
        ids.take(i).no_duplicates(),
        forall|j: int| 0 <= j < i ==> value_of(pool, #[trigger] ids[j]) is Some,
        worth(pool, ids.take(i)) <= u64::MAX,
    ensures
        explicit_value(pool, ids, k, worth(pool, ids.take(k))) == explicit_value(
            pool,
            ids,
            i,
            worth(pool, ids.take(i)),
        ),
    decreases i - k,
{
    if k < i {
        let next = ids.take(k + 1);
        assert(next.drop_last() =~= ids.take(k));
        assert(value_of(pool, ids[k]) is Some);
        if ids.take(k).contains(ids[k]) {
            let at = ids.take(k).index_of(ids[k]);
            assert(ids.take(i)[at] == ids.take(i)[k]);
        }
        assert(next + ids.subrange(k + 1, i) =~= ids.take(i));
        lemma_worth_add(pool, next, ids.subrange(k + 1, i));
        lemma_explicit_reaches(pool, ids, k + 1, i);
    }
}

} // verus!
