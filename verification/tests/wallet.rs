use std::sync::Arc;

use zone_sdk::adapter::{DepositEvent, DepositEvents, DepositOpKey};
use zone_sdk::collections::KeyMap;
use zone_sdk::ids::{ChannelId, HeaderId, NoteId, OpId, TxHash, ZkPublicKey};
use zone_sdk::mantle::{
    ChannelTransferOp, ChannelWithdrawOp, DepositOp, Inputs, Note, Op, Outputs, SignedOps, Utxo,
    Value, MAX_TRANSACTION_INPUTS,
};
use zone_sdk::sequencer::channel_wallet::{note_ops_from_txs, ChannelWallet, NoteOp};
use zone_sdk::sequencer::note_selection::{cover_from, ordered, select_channel_notes, NoteOrder};
use zone_sdk::sequencer::types::{
    ChannelNote, ChannelWalletView, DepositNote, Error, WithdrawInputs,
};

fn seeded(n: u64) -> [u8; 32] {
    let mut bytes = [0u8; 32];
    bytes[24..].copy_from_slice(&n.to_be_bytes());
    bytes
}

fn header_id(n: u8) -> HeaderId {
    HeaderId::from_bytes(seeded(n as u64))
}

fn note_id(seed: u64) -> NoteId {
    NoteId::from_bytes(seeded(seed))
}

fn zk_pk(seed: u64) -> ZkPublicKey {
    ZkPublicKey::from_bytes(seeded(seed))
}

fn tx_of(ops: Vec<Op>) -> SignedOps {
    SignedOps::new(TxHash::from_bytes([3u8; 32]), ops, vec![])
}

fn deposit_op(channel_id: ChannelId, input_seed: u64) -> DepositOp {
    DepositOp {
        channel_id,
        inputs: Inputs::new(vec![note_id(input_seed)]),
        metadata: Arc::new(b"m".to_vec()),
        op_id: OpId::from_bytes(seeded(input_seed)),
    }
}

fn dep_note(seed: u64, value: Value) -> DepositNote {
    DepositNote { note_id: note_id(seed), value, pk: zk_pk(seed) }
}

fn deposit_events_for(
    tx: &SignedOps,
    op: &DepositOp,
    amount: Value,
    notes: Vec<DepositNote>,
) -> DepositEvents {
    let mut events = KeyMap::new();
    events.insert(
        DepositOpKey { tx_hash: tx.hash, op_id: op.op_id },
        DepositEvent { amount, notes: Arc::new(notes) },
    );
    events
}

fn added(ops: &[NoteOp]) -> Vec<&ChannelNote> {
    ops.iter()
        .filter_map(|op| match op {
            NoteOp::Add(n) => Some(n),
            NoteOp::Remove(_) => None,
        })
        .collect()
}

fn removed(ops: &[NoteOp]) -> Vec<NoteId> {
    ops.iter()
        .filter_map(|op| match op {
            NoteOp::Remove(id) => Some(*id),
            NoteOp::Add(_) => None,
        })
        .collect()
}

#[test]
fn single_input_deposit_yields_exact_value_note() {
    let channel_id = ChannelId::from_bytes([1u8; 32]);
    let op = deposit_op(channel_id, 1);
    let tx = tx_of(vec![Op::ChannelDeposit(op.clone())]);
    let events = deposit_events_for(&tx, &op, 50, vec![dep_note(10, 50)]);

    let ops = note_ops_from_txs(
        std::slice::from_ref(&tx),
        channel_id,
        &events,
        9,
    );

    let adds = added(&ops);
    assert_eq!(adds.len(), 1);
    assert_eq!(adds[0].note_id, note_id(10));
    assert_eq!(adds[0].value, 50);
    assert_eq!(adds[0].pk, zk_pk(10));
    assert_eq!(adds[0].slot, 9);
    assert!(removed(&ops).is_empty());
}

#[test]
fn multi_input_deposit_yields_exact_per_note_values() {
    let channel_id = ChannelId::from_bytes([1u8; 32]);
    let op = DepositOp {
        channel_id,
        inputs: Inputs::new(vec![note_id(1), note_id(2)]),
        metadata: Arc::new(b"m".to_vec()),
        op_id: OpId::from_bytes([5u8; 32]),
    };
    let tx = tx_of(vec![Op::ChannelDeposit(op.clone())]);
    let events = deposit_events_for(&tx, &op, 70, vec![dep_note(10, 30), dep_note(11, 40)]);

    let ops = note_ops_from_txs(
        std::slice::from_ref(&tx),
        channel_id,
        &events,
        9,
    );

    let adds = added(&ops);
    assert_eq!(adds.len(), 2);
    assert_eq!(adds[0].note_id, note_id(10));
    assert_eq!(adds[0].value, 30);
    assert_eq!(adds[0].pk, zk_pk(10));
    assert_eq!(adds[0].slot, 9);
    assert_eq!(adds[1].note_id, note_id(11));
    assert_eq!(adds[1].value, 40);
    assert_eq!(adds[1].pk, zk_pk(11));
    assert_eq!(adds[1].slot, 9);
}

#[test]
fn transfer_swaps_inputs_for_exact_outputs() {
    let channel_id = ChannelId::from_bytes([1u8; 32]);
    let op = ChannelTransferOp {
        channel_id,
        inputs: Inputs::new(vec![note_id(10)]),
        utxos: Arc::new(vec![
            Utxo { id: note_id(90), note: Note { value: 30, pk: zk_pk(7) } },
            Utxo { id: note_id(91), note: Note { value: 20, pk: zk_pk(8) } },
        ]),
    };
    let expected_ids: Vec<NoteId> = op.utxos.iter().map(|u| u.id).collect();
    let tx = tx_of(vec![Op::ChannelTransfer(op)]);

    let ops = note_ops_from_txs(
        std::slice::from_ref(&tx),
        channel_id,
        &KeyMap::new(),
        9,
    );

    assert_eq!(removed(&ops), vec![note_id(10)]);
    let adds = added(&ops);
    assert_eq!(adds.len(), 2);
    assert_eq!(adds[0].note_id, expected_ids[0]);
    assert_eq!(adds[0].value, 30);
    assert_eq!(adds[0].pk, zk_pk(7));
    assert_eq!(adds[0].slot, 9);
    assert_eq!(adds[1].value, 20);
}

#[test]
fn withdraw_removes_inputs_and_foreign_channels_are_ignored() {
    let channel_id = ChannelId::from_bytes([1u8; 32]);
    let other = ChannelId::from_bytes([2u8; 32]);
    let withdraw = ChannelWithdrawOp {
        channel_id,
        inputs: Inputs::new(vec![note_id(10)]),
        outputs: Outputs::empty(),
        withdraw_nonce: 0,
    };
    let foreign = ChannelWithdrawOp {
        channel_id: other,
        inputs: Inputs::new(vec![note_id(11)]),
        outputs: Outputs::empty(),
        withdraw_nonce: 0,
    };
    let tx = tx_of(vec![
        Op::ChannelWithdraw(withdraw),
        Op::ChannelWithdraw(foreign),
    ]);

    let ops = note_ops_from_txs(
        std::slice::from_ref(&tx),
        channel_id,
        &KeyMap::new(),
        9,
    );

    assert_eq!(removed(&ops), vec![note_id(10)]);
    assert!(added(&ops).is_empty());
}

fn add(seed: u64, value: Value) -> NoteOp {
    NoteOp::Add(ChannelNote {
        note_id: note_id(seed),
        value,
        pk: zk_pk(seed),
        slot: 1,
    })
}

#[test]
fn view_layers_overlay_over_base_per_branch() {
    let mut wallet = ChannelWallet::new();
    wallet.apply_finalized(vec![add(1, 10)]);
    // Branch A spends the base note and adds a new one; branch B adds a
    // different note and leaves the base untouched.
    wallet.store_overlay(header_id(1), vec![NoteOp::Remove(note_id(1)), add(2, 20)]);
    wallet.store_overlay(header_id(2), vec![add(3, 30)]);

    let at_a = wallet.view_at(&[header_id(1)]);
    assert!(at_a.finalized.is_empty(), "base note spent on branch A");
    assert_eq!(at_a.unfinalized.len(), 1);
    assert_eq!(at_a.unfinalized[0].note_id, note_id(2));

    let at_b = wallet.view_at(&[header_id(2)]);
    assert_eq!(at_b.finalized.len(), 1);
    assert_eq!(at_b.finalized[0].note_id, note_id(1));
    assert_eq!(at_b.unfinalized.len(), 1);
    assert_eq!(at_b.unfinalized[0].note_id, note_id(3));
}

#[test]
fn unfinalized_note_spent_within_the_branch_never_surfaces() {
    let mut wallet = ChannelWallet::new();
    wallet.store_overlay(header_id(1), vec![add(1, 10)]);
    wallet.store_overlay(header_id(2), vec![NoteOp::Remove(note_id(1))]);

    let view = wallet.view_at(&[header_id(1), header_id(2)]);
    assert!(view.finalized.is_empty());
    assert!(view.unfinalized.is_empty());
}

#[test]
fn export_restore_roundtrip() {
    let mut wallet = ChannelWallet::new();
    wallet.apply_finalized(vec![add(1, 10), add(2, 20)]);
    let mut exported = wallet.export_base();
    exported.sort_by_key(|n| n.note_id);

    let mut restored = ChannelWallet::new();
    restored.restore_base(exported.clone());
    let mut roundtripped = restored.export_base();
    roundtripped.sort_by_key(|n| n.note_id);
    assert_eq!(exported, roundtripped);
}

fn note(seed: u64, value: Value, pk: ZkPublicKey) -> ChannelNote {
    note_at(seed, value, pk, 1)
}

fn note_at(seed: u64, value: Value, pk: ZkPublicKey, slot: u64) -> ChannelNote {
    ChannelNote {
        note_id: note_id(seed),
        value,
        pk,
        slot: slot,
    }
}

#[test]
fn auto_covers_with_the_newest_note_and_preserves_the_aged_one() {
    let own = zk_pk(1);
    // Two notes that each cover the amount: one aged (slot 1), one recent
    // (slot 9). Auto spends the recent note and leaves the aged, matured
    // position — the one carrying live stake — intact.
    let view = ChannelWalletView {
        finalized: vec![note_at(1, 10_000, own, 1), note_at(2, 10_000, own, 9)],
        unfinalized: Vec::new(),
    };

    let selected = select_channel_notes(&view, own, 10_000, &WithdrawInputs::Auto).unwrap();

    assert_eq!(selected, vec![note_id(2)]);
}

#[test]
fn auto_covers_with_multiple_newest_notes_when_no_single_note_covers() {
    let own = zk_pk(1);
    // No single note covers 700; newest-first takes the two most recent and
    // leaves the oldest note untouched.
    let view = ChannelWalletView {
        finalized: vec![
            note_at(1, 400, own, 3), // newest
            note_at(2, 400, own, 2),
            note_at(3, 400, own, 1), // oldest — preserved
        ],
        unfinalized: Vec::new(),
    };

    let selected = select_channel_notes(&view, own, 700, &WithdrawInputs::Auto).unwrap();

    assert_eq!(selected, vec![note_id(1), note_id(2)]);
}

#[test]
fn auto_sweeps_dust_around_a_covering_note_up_to_the_input_bound() {
    let own = zk_pk(1);
    // A covering note plus a flood of newer dust. Auto covers with the big
    // note and sweeps dust into the remaining slots, filling to the
    // 255-input bound (1 cover + 254 dust) rather than leaving dust unspent.
    let mut finalized = vec![note_at(1, 10_000, own, 1)];
    finalized.extend((0..300).map(|i| note_at(1000 + i, 1, own, 2)));
    let view = ChannelWalletView {
        finalized,
        unfinalized: Vec::new(),
    };

    let selected = select_channel_notes(&view, own, 10_000, &WithdrawInputs::Auto).unwrap();

    assert_eq!(selected.len(), MAX_TRANSACTION_INPUTS);
    assert!(selected.contains(&note_id(1)));
    // Every other slot is a swept dust note.
    assert_eq!(
        selected.iter().filter(|id| **id != note_id(1)).count(),
        MAX_TRANSACTION_INPUTS - 1
    );
}

#[test]
fn auto_falls_back_to_largest_first_when_newest_notes_cannot_cover() {
    let own = zk_pk(1);
    // The newest notes are a dust flood that cannot cover the amount within
    // 255 inputs; the covering value sits in an older large note. Newest-
    // first would exhaust its budget on dust, so Auto falls back to
    // largest-first, spends the large note, then sweeps dust.
    let mut finalized = vec![note_at(1, 1_000, own, 1)]; // old, covers
    finalized.extend((0..300).map(|i| note_at(1000 + i, 1, own, 5))); // newer dust
    let view = ChannelWalletView {
        finalized,
        unfinalized: Vec::new(),
    };

    let selected = select_channel_notes(&view, own, 500, &WithdrawInputs::Auto).unwrap();

    assert!(selected.contains(&note_id(1)));
    assert_eq!(selected.len(), MAX_TRANSACTION_INPUTS);
}

#[test]
fn auto_errors_when_coverage_needs_more_than_the_input_bound() {
    let own = zk_pk(1);
    // The funds exist (300 total) but covering 256 needs 256 value-1 inputs,
    // over the 255-input limit. Auto reports the limit error rather than
    // returning an over-limit selection.
    let finalized: Vec<ChannelNote> = (0..300).map(|i| note_at(1000 + i, 1, own, 1)).collect();
    let view = ChannelWalletView {
        finalized,
        unfinalized: Vec::new(),
    };

    let err = select_channel_notes(&view, own, 256, &WithdrawInputs::Auto).unwrap_err();

    assert!(matches!(err, Error::Network(_)));
}

#[test]
fn explicit_selection_returns_the_chosen_ids_in_order() {
    let own = zk_pk(1);
    let view = ChannelWalletView {
        finalized: vec![note(1, 40, own), note(2, 60, own), note(3, 5, own)],
        unfinalized: Vec::new(),
    };
    let ids = vec![note_id(2), note_id(1)];

    let selected =
        select_channel_notes(&view, own, 100, &WithdrawInputs::Explicit(ids.clone())).unwrap();

    assert_eq!(selected, ids);
}

#[test]
fn explicit_selection_rejects_over_the_input_limit() {
    let own = zk_pk(1);
    let view = ChannelWalletView {
        finalized: Vec::new(),
        unfinalized: Vec::new(),
    };
    let ids: Vec<NoteId> = (0..=(MAX_TRANSACTION_INPUTS as u64)).map(note_id).collect();
    assert!(ids.len() > MAX_TRANSACTION_INPUTS);

    let err = select_channel_notes(&view, own, 1, &WithdrawInputs::Explicit(ids)).unwrap_err();

    assert!(matches!(err, Error::Network(_)));
}

#[test]
fn explicit_selection_rejects_duplicate_ids() {
    let own = zk_pk(1);
    let view = ChannelWalletView {
        finalized: vec![note(1, 100, own), note(2, 100, own)],
        unfinalized: Vec::new(),
    };

    let ids = vec![note_id(1), note_id(1)];
    let err =
        select_channel_notes(&view, own, 100, &WithdrawInputs::Explicit(ids)).unwrap_err();

    assert!(matches!(err, Error::Network(_)));
}

#[test]
fn explicit_selection_rejects_untracked_ids() {
    let own = zk_pk(1);
    let view = ChannelWalletView {
        finalized: vec![note(1, 100, own)],
        unfinalized: Vec::new(),
    };

    // `note_id(99)` is not in the tracked note set.
    let ids = vec![note_id(99)];
    let err =
        select_channel_notes(&view, own, 100, &WithdrawInputs::Explicit(ids)).unwrap_err();

    assert!(matches!(err, Error::Network(_)));
}

#[test]
fn explicit_selection_rejects_insufficient_coverage() {
    let own = zk_pk(1);
    let view = ChannelWalletView {
        finalized: vec![note(1, 40, own), note(2, 30, own)],
        unfinalized: Vec::new(),
    };

    // 40 + 30 = 70 < 100.
    let ids = vec![note_id(1), note_id(2)];
    let err =
        select_channel_notes(&view, own, 100, &WithdrawInputs::Explicit(ids)).unwrap_err();

    assert!(matches!(err, Error::Network(_)));
}

#[test]
fn explicit_reproduces_a_prior_selection_exactly() {
    // A republish that wants the identical transfer inputs passes the
    // previously resolved ids as `Explicit`; selection returns exactly them,
    // in order. Reproduction is a caller choice — the inscription lineage,
    // not the input set, is what prevents a double-withdraw.
    let own = zk_pk(1);
    let view = ChannelWalletView {
        finalized: vec![note(1, 60, own), note(2, 40, own), note(3, 5, own)],
        unfinalized: Vec::new(),
    };

    let prior = vec![note_id(2), note_id(1)];
    let selected =
        select_channel_notes(&view, own, 100, &WithdrawInputs::Explicit(prior.clone()))
            .unwrap();

    assert_eq!(selected, prior);
}

fn network_text(err: Error) -> String {
    match err {
        Error::Network(text) => text,
        other => panic!("not a network error: {other:?}"),
    }
}

#[test]
fn finalized_notes_are_found_by_id_and_pruned_overlays_are_not_seen() {
    let mut wallet = ChannelWallet::new();
    wallet.apply_finalized(vec![add(1, 10), add(2, 20), NoteOp::Remove(note_id(1))]);
    wallet.store_overlay(header_id(1), vec![add(3, 30)]);
    assert_eq!(wallet.find_note(&note_id(1)), None);
    assert_eq!(wallet.find_note(&note_id(2)).map(|n| n.value), Some(20));
    assert_eq!(wallet.find_note(&note_id(3)).map(|n| n.value), Some(30));
    wallet.prune_block(&header_id(1));
    assert_eq!(wallet.find_note(&note_id(3)), None);
    assert!(wallet.view_at(&[header_id(1)]).unfinalized.is_empty());
}

/// Settling a branch moves its notes from the unfinalized to the finalized ones
/// and changes nothing else.
#[test]
fn settling_a_block_keeps_the_notes() {
    let mut wallet = ChannelWallet::new();
    wallet.apply_finalized(vec![add(1, 10)]);
    let ops = vec![NoteOp::Remove(note_id(1)), add(2, 20)];
    wallet.store_overlay(header_id(1), ops.clone());
    let before = wallet.view_at(&[header_id(1)]);
    wallet.apply_finalized(ops);
    wallet.prune_block(&header_id(1));
    let after = wallet.view_at(&[]);
    assert_eq!(before.unfinalized, after.finalized);
    assert!(before.finalized.is_empty() && after.unfinalized.is_empty());
}

#[test]
fn orders_put_own_notes_first() {
    let (own, other) = (zk_pk(1), zk_pk(2));
    let mine = [note_at(1, 5, own, 1), note_at(2, 7, own, 3), note_at(3, 6, own, 2)];
    let theirs = [note_at(4, 9, other, 9)];
    let ids = |by| {
        ordered(&mine, &theirs, by).iter().map(|n| n.note_id).collect::<Vec<NoteId>>()
    };
    assert_eq!(ids(NoteOrder::NewestFirst), vec![note_id(2), note_id(3), note_id(1), note_id(4)]);
    assert_eq!(ids(NoteOrder::LargestFirst), vec![note_id(2), note_id(3), note_id(1), note_id(4)]);
    assert_eq!(
        ids(NoteOrder::SmallestOldestFirst),
        vec![note_id(1), note_id(3), note_id(2), note_id(4)]
    );
}

#[test]
fn covering_takes_no_more_than_is_needed() {
    let own = zk_pk(1);
    let notes = [note(1, 5, own), note(2, 5, own), note(3, 5, own)];
    assert_eq!(cover_from(&notes, 6), Some(vec![note_id(1), note_id(2)]));
    assert_eq!(cover_from(&notes, 15), Some(vec![note_id(1), note_id(2), note_id(3)]));
    assert_eq!(cover_from(&notes, 16), None);
    let large = [note_at(1, 1, zk_pk(1), 1), note_at(2, u64::MAX, zk_pk(1), 1)];
    assert_eq!(cover_from(&large, 2), Some(vec![note_id(1), note_id(2)]), "worth more than an amount");
}

/// A selection is made of distinct notes of the pool, within the limit, and
/// worth the amount.
#[test]
fn a_selection_is_spendable() {
    let own = zk_pk(1);
    let finalized: Vec<ChannelNote> = (0..40).map(|i| note_at(i, i % 7 + 1, own, i % 5)).collect();
    let view = ChannelWalletView { finalized, unfinalized: vec![note_at(99, 50, zk_pk(2), 9)] };
    for amount in [1u64, 10, 60, 150] {
        let ids = select_channel_notes(&view, own, amount, &WithdrawInputs::Auto).unwrap();
        assert!(ids.len() <= MAX_TRANSACTION_INPUTS);
        let mut distinct = ids.clone();
        distinct.sort();
        distinct.dedup();
        assert_eq!(distinct.len(), ids.len());
        let total: u64 = ids
            .iter()
            .map(|id| {
                view.finalized
                    .iter()
                    .chain(view.unfinalized.iter())
                    .find(|n| n.note_id == *id)
                    .unwrap()
                    .value
            })
            .sum();
        assert!(total >= amount);
    }
}

#[test]
fn selection_failures_say_what_is_missing() {
    let own = zk_pk(1);
    let view = ChannelWalletView { finalized: vec![note(1, 40, own)], unfinalized: Vec::new() };
    let unknown = select_channel_notes(&view, own, 1, &WithdrawInputs::Explicit(vec![note_id(0xab)]));
    assert!(network_text(unknown.unwrap_err()).contains("00ab"));
    let short = select_channel_notes(&view, own, 41, &WithdrawInputs::Auto);
    assert!(network_text(short.unwrap_err()).contains("41"));
}

/// Restoring replaces the notes at LIB, and views what was exported as
/// finalized.
#[test]
fn restored_notes_replace_the_base() {
    let mut wallet = ChannelWallet::new();
    wallet.apply_finalized(vec![add(1, 10), add(2, 20)]);
    let mut restored = ChannelWallet::new();
    restored.apply_finalized(vec![add(9, 90)]);
    restored.restore_base(wallet.export_base());
    let view = restored.view_at(&[]);
    let mut ids: Vec<NoteId> = view.finalized.iter().map(|n| n.note_id).collect();
    ids.sort();
    assert_eq!(ids, vec![note_id(1), note_id(2)]);
    assert!(view.unfinalized.is_empty());
}

/// The mutations of two lists of transactions one after the other are those of
/// the lists joined.
#[test]
fn note_ops_follow_the_transactions() {
    let channel_id = ChannelId::from_bytes([1u8; 32]);
    let withdraw = |n: u64| {
        tx_of(vec![Op::ChannelWithdraw(ChannelWithdrawOp {
            channel_id,
            inputs: Inputs::new(vec![note_id(n)]),
            outputs: Outputs::empty(),
            withdraw_nonce: 0,
        })])
    };
    let events: DepositEvents = KeyMap::new();
    let ops = |txs: &[SignedOps]| note_ops_from_txs(txs, channel_id, &events, 4);
    let mut parts = ops(&[withdraw(1)]);
    parts.extend(ops(&[withdraw(2)]));
    assert_eq!(ops(&[withdraw(1), withdraw(2)]), parts);
    assert_eq!(parts, vec![NoteOp::Remove(note_id(1)), NoteOp::Remove(note_id(2))]);
}
