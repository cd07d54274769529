use std::sync::Arc;

use zone_sdk::adapter::{BlockDepositEvent, DepositEvent, DepositEvents, DepositOpKey, EventsReply};
use zone_sdk::collections::{KeyMap, KeySet};
use zone_sdk::ids::{
    ChannelId, Ed25519PublicKey, HeaderId, MsgId, NoteId, OpId, TxHash, ZkPublicKey,
};
use zone_sdk::mantle::{
    ChannelConfigOp, ChannelTransferOp, ChannelWithdrawOp, DepositOp, Inputs, Inscription,
    InscriptionOp, Note, Op, Outputs, SignedOps, Utxo,
};
use zone_sdk::sequencer::block_event::{
    finalized_range, handle_block_event, BlockEventResult, WalkBack,
};
use zone_sdk::sequencer::block_fetch::{
    demote_non_identity_pin_deposits, extract_finalized_items, mirror_channel_txs,
    orphan_from_shed, Block, BlockEvent, FetchedBlock,
};
use zone_sdk::sequencer::channel_tx::{
    block_in_order, channel_inscriptions, classify_channel_txs, classify_shed_other, BlockChannelTx,
};
use zone_sdk::sequencer::channel_wallet::NoteOp;
use zone_sdk::sequencer::state::TxState;
use zone_sdk::sequencer::types::{
    ChannelNote, ChannelUpdateTx, ChannelWalletView, DepositInfo, DepositNote, Error, FinalizedOp,
    PendingTx, TxSource,
};

fn digest(parts: &[&[u8]]) -> [u8; 32] {
    let mut acc: u64 = 0xcbf2_9ce4_8422_2325;
    for part in parts {
        for byte in *part {
            acc = (acc ^ u64::from(*byte)).wrapping_mul(0x100_0000_01b3);
        }
        acc = acc.rotate_left(7) ^ part.len() as u64;
    }
    let mut out = [0u8; 32];
    for i in 0..4 {
        acc = acc.wrapping_mul(6_364_136_223_846_793_005).wrapping_add(1_442_695_040_888_963_407);
        out[i * 8..i * 8 + 8].copy_from_slice(&acc.to_be_bytes());
    }
    out
}

fn tagged(n: u8) -> [u8; 32] {
    let mut bytes = [0u8; 32];
    bytes[0] = n;
    bytes
}

fn header_id(n: u8) -> HeaderId {
    HeaderId::from_bytes(tagged(n))
}

fn channel(n: u8) -> ChannelId {
    ChannelId::from_bytes([n; 32])
}

fn note_id(n: u64) -> NoteId {
    NoteId::from_bytes(digest(&[b"note", &n.to_be_bytes()]))
}

fn zk_key(n: u64) -> ZkPublicKey {
    ZkPublicKey::from_bytes(digest(&[b"zk", &n.to_be_bytes()]))
}

fn inscribe_op(channel_id: ChannelId, parent: MsgId, payload: &[u8]) -> InscriptionOp {
    let id = MsgId::from_bytes(
        digest(&[b"inscribe", &channel_id.0.to_bytes(), &parent.0.to_bytes(), payload]),
    );
    InscriptionOp {
        channel_id,
        inscription: Inscription::new(payload.to_vec()),
        parent,
        signer: Ed25519PublicKey::from_bytes([0u8; 32]),
        id,
    }
}

fn channel_config(channel_id: ChannelId, parent: MsgId) -> ChannelConfigOp {
    let id = MsgId::from_bytes(
        digest(&[b"config", &channel_id.0.to_bytes(), &parent.0.to_bytes()]),
    );
    ChannelConfigOp {
        channel: channel_id,
        parent,
        keys: Arc::new(vec![Ed25519PublicKey::from_bytes([0u8; 32])]),
        posting_timeframe: 0,
        posting_timeout: 0,
        configuration_threshold: 1,
        transfer_threshold: 1,
        id,
    }
}

fn deposit_op(channel_id: ChannelId, input_seed: u64, metadata: &[u8]) -> DepositOp {
    DepositOp {
        channel_id,
        inputs: Inputs::new(vec![note_id(input_seed)]),
        metadata: Arc::new(metadata.to_vec()),
        op_id: OpId::from_bytes(
            digest(&[b"deposit", &channel_id.0.to_bytes(), &input_seed.to_be_bytes(), metadata]),
        ),
    }
}

fn transfer_op(channel_id: ChannelId, input: NoteId, value: u64, pk: ZkPublicKey) -> ChannelTransferOp {
    let id = NoteId::from_bytes(
        digest(&[b"utxo", &input.0.to_bytes(), &value.to_be_bytes(), &pk.0.to_bytes()]),
    );
    ChannelTransferOp {
        channel_id,
        inputs: Inputs::new(vec![input]),
        utxos: Arc::new(vec![Utxo { id, note: Note { value, pk } }]),
    }
}

fn op_bytes(op: &Op) -> Vec<u8> {
    match op {
        Op::ChannelInscribe(op) => op.id.0.to_bytes(),
        Op::ChannelConfig(op) => op.id.0.to_bytes(),
        Op::ChannelDeposit(op) => op.op_id.0.to_bytes(),
        Op::ChannelWithdraw(op) => {
            let inputs = op.inputs.ids.iter().flat_map(|id| id.0.to_bytes());
            inputs.chain(op.withdraw_nonce.to_be_bytes()).collect()
        },
        Op::ChannelTransfer(op) => op.utxos[0].id.0.to_bytes(),
        _ => Vec::new(),
    }
}

fn tx_of(ops: Vec<Op>) -> SignedOps {
    let ids: Vec<Vec<u8>> = ops.iter().map(op_bytes).collect();
    let parts: Vec<&[u8]> = ids.iter().map(|id| id.as_slice()).collect();
    SignedOps::new(TxHash::from_bytes(digest(&parts)), ops, vec![])
}

fn dummy_pending_tx(seed: u8) -> SignedOps {
    tx_of(vec![Op::ChannelInscribe(inscribe_op(channel(0), MsgId::root(), &[seed]))])
}

fn deposit_event_entry(tx_hash: TxHash, op_id: OpId, amount: u64) -> (DepositOpKey, DepositEvent) {
    (DepositOpKey { tx_hash, op_id }, DepositEvent { amount, notes: Arc::new(vec![]) })
}

fn events_of(entries: Vec<(DepositOpKey, DepositEvent)>) -> DepositEvents {
    let mut events = KeyMap::new();
    for (key, event) in entries {
        events.insert(key, event);
    }
    events
}

fn extract_deposits_for_test(
    transactions: &[SignedOps],
    channel_id: ChannelId,
    deposit_events: &DepositEvents,
) -> Vec<DepositInfo> {
    extract_finalized_items(transactions, channel_id, 0, deposit_events)
        .iter()
        .flat_map(|t| t.ops.refs().into_iter())
        .filter_map(|op| match op {
            FinalizedOp::Deposit(d) => Some(d.clone()),
            _ => None,
        })
        .collect()
}

#[derive(Clone)]
struct ApiBlock {
    id: HeaderId,
    parent: HeaderId,
    slot: u64,
    transactions: Vec<SignedOps>,
}

impl ApiBlock {
    fn read(&self) -> Block {
        Block {
            id: self.id,
            parent_block: self.parent,
            slot: self.slot,
            transactions: self.transactions.clone(),
        }
    }
}

fn api_block(id: u8, parent: u8, slot: u64, transactions: Vec<SignedOps>) -> ApiBlock {
    ApiBlock { id: header_id(id), parent: header_id(parent), slot, transactions }
}

#[derive(Clone)]
struct Event {
    block: ApiBlock,
    tip: HeaderId,
    tip_slot: u64,
    lib: HeaderId,
    lib_slot: u64,
}

/// A block at the tip, with LIB at genesis.
fn live_event(block: &ApiBlock) -> Event {
    fork_event(block, block)
}

/// A block beside the tip.
fn fork_event(block: &ApiBlock, tip: &ApiBlock) -> Event {
    Event {
        block: block.clone(),
        tip: tip.id,
        tip_slot: tip.slot,
        lib: header_id(0),
        lib_slot: 0,
    }
}

#[derive(Clone)]
struct DepositRow {
    key: DepositOpKey,
    amount: u64,
    notes: Vec<DepositNote>,
}

fn deposit_event(tx: &SignedOps, op: &DepositOp, amount: u64, notes: Vec<DepositNote>) -> Vec<DepositRow> {
    vec![DepositRow { key: DepositOpKey { tx_hash: tx.hash, op_id: op.op_id }, amount, notes }]
}

#[derive(Default)]
struct MockNode {
    blocks: Vec<ApiBlock>,
    immutable: Vec<ApiBlock>,
    events: Vec<(HeaderId, Vec<DepositRow>)>,
}

impl MockNode {
    fn events_of(&self, id: HeaderId) -> EventsReply {
        match self.events.iter().find(|(block, _)| *block == id) {
            Some((_, rows)) => EventsReply::Events(
                rows.iter()
                    .map(|row| BlockDepositEvent {
                        key: row.key,
                        amount: row.amount,
                        notes: Arc::new(row.notes.clone()),
                    })
                    .collect(),
            ),
            None => EventsReply::Absent,
        }
    }

    fn fetched(&self, block: &ApiBlock) -> FetchedBlock {
        FetchedBlock { block: block.read(), events: self.events_of(block.id) }
    }
}

/// Fetches what the event asks for and hands it over.
fn deliver(
    event: &Event,
    state: &mut Option<TxState>,
    current_tip: &mut Option<HeaderId>,
    lib_slot: &mut u64,
    channel_id: ChannelId,
    node: &MockNode,
) -> Result<BlockEventResult, Error> {
    let state_lib = state.as_ref().map(|s| s.lib());
    let finalized: Vec<FetchedBlock> =
        match finalized_range(state_lib, *lib_slot, event.lib, event.lib_slot) {
            Some((from, to)) => node
                .immutable
                .iter()
                .filter(|b| from <= b.slot && b.slot <= to)
                .map(|b| node.fetched(b))
                .collect(),
            None => Vec::new(),
        };
    let mut settled = KeySet::new();
    for block in &finalized {
        settled.insert(block.block.id);
    }
    let lib = state_lib.unwrap_or(event.lib);
    let mut walk = WalkBack::start(event.block.parent);
    while let Some(id) = walk.next(state.as_ref(), &settled, lib) {
        let block = node.blocks.iter().find(|b| b.id == id).expect("the node has the block");
        walk.fetched(block.read());
    }
    let backfill: Vec<FetchedBlock> = walk
        .finish()
        .into_iter()
        .map(|block| {
            let events = node.events_of(block.id);
            FetchedBlock { block, events }
        })
        .collect();
    assert!(block_in_order(&event.block.transactions, channel_id));
    handle_block_event(
        BlockEvent {
            block: event.block.read(),
            tip: event.tip,
            tip_slot: event.tip_slot,
            lib: event.lib,
            lib_slot: event.lib_slot,
        },
        &finalized,
        backfill,
        &node.events_of(event.block.id),
        state,
        current_tip,
        lib_slot,
        channel_id,
    )
}

/// An inscription and its message.
fn ins(channel_id: ChannelId, parent: MsgId, payload: &[u8]) -> (MsgId, SignedOps) {
    let op = inscribe_op(channel_id, parent, payload);
    (op.id, tx_of(vec![Op::ChannelInscribe(op)]))
}

/// Two chained inscriptions in one transaction, and the last message.
fn custom(channel_id: ChannelId, parent: MsgId, payload: &[u8]) -> (MsgId, SignedOps) {
    let first = inscribe_op(channel_id, parent, payload);
    let second = inscribe_op(channel_id, first.id, payload);
    (second.id, tx_of(vec![Op::ChannelInscribe(first), Op::ChannelInscribe(second)]))
}

/// One delivered event: its result, and what the sheds took out.
struct Driven {
    result: BlockEventResult,
    shed: Vec<PendingTx>,
    shed_other: Vec<SignedOps>,
}

fn drive(state: &mut Option<TxState>, channel_id: ChannelId, events: &[Event]) -> Vec<Driven> {
    drive_with(&MockNode::default(), state, channel_id, events)
}

fn drive_with(
    node: &MockNode,
    state: &mut Option<TxState>,
    channel_id: ChannelId,
    events: &[Event],
) -> Vec<Driven> {
    let mut current_tip = None;
    let mut lib_slot = 0;
    let mut driven = Vec::new();
    for event in events {
        let result =
            deliver(event, state, &mut current_tip, &mut lib_slot, channel_id, node).unwrap();
        let s = state.as_mut().unwrap();
        let tip = current_tip.unwrap();
        let mut shed = s.shed_bundles_with_missing_inputs(tip, channel_id);
        shed.extend(s.shed_off_branch_pending(tip));
        let shed_other = s.shed_off_branch_pending_other(tip);
        driven.push(Driven { result, shed, shed_other });
    }
    driven
}

/// A deposit re-created as `recreated`, our pending pin of it, and a node that
/// serves the deposit's event for block 1.
struct PinFixture {
    dep_tx: SignedOps,
    pin_tx: SignedOps,
    pin_id: MsgId,
    recreated: NoteId,
    node: MockNode,
    state: TxState,
}

fn pin_fixture(ch: ChannelId) -> PinFixture {
    let recreated = note_id(1010);
    let pk = zk_key(7);
    let dep = deposit_op(ch, 1, b"d");
    let dep_tx = tx_of(vec![Op::ChannelDeposit(dep.clone())]);
    let pin_op = inscribe_op(ch, MsgId::root(), b"pin");
    let pin_id = pin_op.id;
    let pin_tx = tx_of(vec![
        Op::ChannelInscribe(pin_op.clone()),
        Op::ChannelTransfer(transfer_op(ch, recreated, 50, pk)),
    ]);
    let note = DepositNote { note_id: recreated, value: 50, pk };
    let node = MockNode {
        events: vec![(header_id(1), deposit_event(&dep_tx, &dep, 50, vec![note]))],
        ..MockNode::default()
    };
    let mut state = TxState::new(header_id(0), MsgId::root());
    state
        .submit_pin_deposit(
            pin_tx.clone(),
            MsgId::root(),
            pin_id,
            pin_op.inscription,
            Inputs::new(vec![recreated]),
        )
        .unwrap();
    PinFixture { dep_tx, pin_tx, pin_id, recreated, node, state }
}

#[test]
fn extract_deposits_returns_matching_amount() {
    let channel_id = channel(0);
    let other_channel = channel(1);

    let deposit_for_us = deposit_op(channel_id, 1, b"to Alice");
    let deposit_other_channel = deposit_op(other_channel, 2, b"to Bob");
    let our_op_id = deposit_for_us.op_id;

    let tx = tx_of(vec![
        Op::ChannelDeposit(deposit_for_us.clone()),
        Op::ChannelDeposit(deposit_other_channel),
    ]);
    let tx_hash = tx.hash;

    let amounts = events_of(vec![deposit_event_entry(tx_hash, our_op_id, 1234)]);

    let deposits = extract_deposits_for_test(std::slice::from_ref(&tx), channel_id, &amounts);
    assert_eq!(
        deposits.len(),
        1,
        "only deposit on our channel is extracted"
    );
    let d = &deposits[0];
    assert_eq!(d.channel_id, channel_id);
    assert_eq!(d.tx_hash, tx_hash);
    assert_eq!(d.op_id, our_op_id);
    assert_eq!(d.amount, 1234);
    assert_eq!(d.metadata, Arc::new(b"to Alice".to_vec()));
    assert_eq!(d.inputs, deposit_for_us.inputs);
}

#[test]
fn extract_deposits_preserves_tx_and_op_order() {
    let channel_id = channel(0);
    let d1 = deposit_op(channel_id, 1, b"first");
    let d2 = deposit_op(channel_id, 2, b"second");
    let d3 = deposit_op(channel_id, 3, b"third");
    let id1 = d1.op_id;
    let id2 = d2.op_id;
    let id3 = d3.op_id;

    // tx_a carries d1 then d2 (in op order); tx_b carries d3.
    let tx_a = tx_of(vec![Op::ChannelDeposit(d1), Op::ChannelDeposit(d2)]);
    let tx_b = tx_of(vec![Op::ChannelDeposit(d3)]);
    let hash_a = tx_a.hash;
    let hash_b = tx_b.hash;

    let amounts = events_of(vec![
        deposit_event_entry(hash_a, id1, 10),
        deposit_event_entry(hash_a, id2, 20),
        deposit_event_entry(hash_b, id3, 30),
    ]);

    let deposits = extract_deposits_for_test(&[tx_a, tx_b], channel_id, &amounts);
    let metadata_in_order: Vec<&[u8]> =
        deposits.iter().map(|d| d.metadata.as_slice()).collect();
    assert_eq!(
        metadata_in_order,
        vec![b"first" as &[u8], b"second", b"third"],
        "deposits emitted in tx/op order across transactions"
    );
}

#[test]
fn extract_finalized_items_interleaves_deposit_then_inscription_in_same_tx() {
    // The atomic deposit+inscription pattern: one Mantle tx with
    // [ChannelDeposit, ChannelInscribe]. The bridge use case requires the
    // deposit to be emitted BEFORE the inscription so that consumers
    // can validate references from the inscription back to
    // the just-finalized deposit.
    let channel_id = channel(0);
    let dep = deposit_op(channel_id, 1, b"deposit-meta");
    let dep_op_id = dep.op_id;
    let inscribe = inscribe_op(channel_id, MsgId::root(), b"");

    let tx =
        tx_of(vec![Op::ChannelDeposit(dep), Op::ChannelInscribe(inscribe)]);
    let tx_hash = tx.hash;

    let amounts = events_of(vec![deposit_event_entry(tx_hash, dep_op_id, 500)]);

    let items = extract_finalized_items(
        std::slice::from_ref(&tx),
        channel_id,
        42,
        &amounts,
    );

    assert_eq!(items.len(), 1, "one FinalizedTx for the single Mantle tx");
    assert_eq!(items[0].tx_hash, tx_hash);
    assert_eq!(items[0].l1_slot, 42);
    assert_eq!(items[0].ops.refs().len(), 2);
    assert!(matches!(items[0].ops.refs()[0], FinalizedOp::Deposit(_)));
    assert!(matches!(items[0].ops.refs()[1], FinalizedOp::Inscription(_)));
}

#[test]
fn deposit_plus_inscription_is_adopted_as_custom() {
    // The atomic bridge pattern: [ChannelDeposit, ChannelInscribe] in
    // one tx. The SDK cannot rebuild a deposit, so the tx classifies as
    // `Custom`: its payload still reaches the consumer via `adopted`
    // (typed so it isn't republished as a bare message, which could
    // race and invalidate the author's deposit), and it is not mirrored
    // for retry — its author recovers it.
    let channel_id = channel(0);
    let dep = deposit_op(channel_id, 1, b"deposit-meta");
    let inscribe = inscribe_op(channel_id, MsgId::root(), b"bridge");
    let msg_id = inscribe.id;
    let tx =
        tx_of(vec![Op::ChannelDeposit(dep), Op::ChannelInscribe(inscribe)]);
    let tx_hash = tx.hash;

    let classified = classify_channel_txs(std::slice::from_ref(&tx), channel_id);
    assert_eq!(classified.len(), 1);
    assert!(
        matches!(&classified[0], BlockChannelTx::Custom { message_entries, .. } if message_entries.refs().len() == 1)
    );

    let genesis = header_id(0);
    let block = header_id(1);
    let mut state = TxState::new(genesis, MsgId::root());
    let old_lineage = state.channel_lineage(genesis);
    mirror_channel_txs(
        &mut state,
        &classified,
        std::slice::from_ref(&tx),
        channel_id,
    );
    state.process_block(
        block,
        genesis,
        genesis,
        &[tx_hash],
        classified,
        Vec::new(),
    );

    assert!(
        state.is_tracked(&tx_hash),
        "custom tx is mirrored for retry"
    );
    assert_eq!(state.tx_source(&tx_hash), TxSource::Other);
    let update = state
        .detect_channel_update(&old_lineage, block, &KeySet::new())
        .expect("update");
    assert_eq!(update.new_channel_tip, msg_id);
    assert_eq!(update.adopted.len(), 1);
    match &update.adopted[0] {
        ChannelUpdateTx::Custom(adopted_tx) => {
            assert_eq!(
                adopted_tx.hash,
                tx_hash,
                "the whole tx is handed over"
            );
            let inscriptions = channel_inscriptions(adopted_tx, channel_id);
            assert_eq!(inscriptions.len(), 1);
            assert_eq!(inscriptions[0].this_msg, msg_id);
        }
        other => panic!("expected Custom, got {other:?}"),
    }
}

/// An `[inscribe, channel_transfer]` whose transfer re-creates its inputs
/// unchanged is a sound `PinDeposit`.
#[test]
fn inscribe_plus_identity_transfer_is_pin_deposit() {
    let channel_id = channel(0);
    let pk = zk_key(7);
    let input_id = note_id(42);

    let inscribe = inscribe_op(channel_id, MsgId::root(), b"pin");
    let msg_id = inscribe.id;
    let transfer = transfer_op(channel_id, input_id, 50, pk);
    let tx = tx_of(vec![
        Op::ChannelInscribe(inscribe),
        Op::ChannelTransfer(transfer),
    ]);
    let tx_hash = tx.hash;

    let genesis = header_id(0);
    let block = header_id(1);
    let mut state = TxState::new(genesis, MsgId::root());
    state.apply_finalized_note_ops(vec![NoteOp::Add(ChannelNote {
        note_id: input_id,
        value: 50,
        pk,
        slot: 0,
    })]);
    let old_lineage = state.channel_lineage(genesis);

    let mut classified = classify_channel_txs(std::slice::from_ref(&tx), channel_id);
    demote_non_identity_pin_deposits(
        &mut classified,
        std::slice::from_ref(&tx),
        channel_id,
        &state,
    );
    assert!(matches!(&classified[0], BlockChannelTx::PinDeposit(_)));

    mirror_channel_txs(
        &mut state,
        &classified,
        std::slice::from_ref(&tx),
        channel_id,
    );
    state.process_block(
        block,
        genesis,
        genesis,
        &[tx_hash],
        classified,
        Vec::new(),
    );

    let update = state
        .detect_channel_update(&old_lineage, block, &KeySet::new())
        .expect("update");
    assert_eq!(update.new_channel_tip, msg_id);
    assert_eq!(update.adopted.len(), 1);
    match &update.adopted[0] {
        ChannelUpdateTx::PinDeposit(a) => {
            assert_eq!(a.consumed_notes, Inputs::new(vec![input_id]));
        }
        other => panic!("expected PinDeposit, got {other:?}"),
    }
}

/// A re-keying transfer (balance-preserving, but not an identity
/// re-creation) falls to `Custom` — its payload still reaches the consumer
/// via `adopted`, and it is not mirrored for retry.
#[test]
fn inscribe_plus_non_identity_transfer_is_custom() {
    let channel_id = channel(0);
    let pk = zk_key(7);
    let rekeyed = zk_key(8);
    let input_id = note_id(42);

    let inscribe = inscribe_op(channel_id, MsgId::root(), b"pin");
    let msg_id = inscribe.id;
    let transfer = transfer_op(channel_id, input_id, 50, rekeyed);
    let tx = tx_of(vec![
        Op::ChannelInscribe(inscribe),
        Op::ChannelTransfer(transfer),
    ]);
    let tx_hash = tx.hash;

    let genesis = header_id(0);
    let block = header_id(1);
    let mut state = TxState::new(genesis, MsgId::root());
    state.apply_finalized_note_ops(vec![NoteOp::Add(ChannelNote {
        note_id: input_id,
        value: 50,
        pk,
        slot: 0,
    })]);
    let old_lineage = state.channel_lineage(genesis);

    let mut classified = classify_channel_txs(std::slice::from_ref(&tx), channel_id);
    demote_non_identity_pin_deposits(
        &mut classified,
        std::slice::from_ref(&tx),
        channel_id,
        &state,
    );
    assert!(
        matches!(&classified[0], BlockChannelTx::Custom { message_entries, .. } if message_entries.refs().len() == 1)
    );

    mirror_channel_txs(
        &mut state,
        &classified,
        std::slice::from_ref(&tx),
        channel_id,
    );
    state.process_block(
        block,
        genesis,
        genesis,
        &[tx_hash],
        classified,
        Vec::new(),
    );

    assert!(
        state.is_tracked(&tx_hash),
        "non-identity bundle is mirrored for retry"
    );
    assert_eq!(state.tx_source(&tx_hash), TxSource::Other);
    let update = state
        .detect_channel_update(&old_lineage, block, &KeySet::new())
        .expect("update");
    assert_eq!(update.new_channel_tip, msg_id);
    assert_eq!(update.adopted.len(), 1);
    match &update.adopted[0] {
        ChannelUpdateTx::Custom(adopted_tx) => {
            assert_eq!(adopted_tx.hash, tx_hash);
        }
        other => panic!("expected Custom, got {other:?}"),
    }
}

#[test]
fn classify_shed_other_types_config_only_as_config_and_the_rest_as_custom() {
    let channel_id = channel(0);

    // A config-only tx is typed Config.
    let config_tx = tx_of(vec![Op::ChannelConfig(channel_config(
        channel_id,
        MsgId::root(),
    ))]);
    let config_hash = config_tx.hash;
    match classify_shed_other(config_tx, channel_id) {
        ChannelUpdateTx::Config(tx) => assert_eq!(tx.hash, config_hash),
        other => panic!("expected Config, got {other:?}"),
    }

    // A config bundled with an inscription is not config-only → Custom.
    let mixed = tx_of(vec![
        Op::ChannelConfig(channel_config(channel_id, MsgId::root())),
        Op::ChannelInscribe(inscribe_op(channel_id, MsgId::root(), b"m")),
    ]);
    assert!(matches!(
        classify_shed_other(mixed, channel_id),
        ChannelUpdateTx::Custom(_)
    ));

    // A tx with no config → Custom.
    let no_config = tx_of(vec![Op::ChannelInscribe(inscribe_op(
        channel_id,
        MsgId::root(),
        b"x",
    ))]);
    assert!(matches!(
        classify_shed_other(no_config, channel_id),
        ChannelUpdateTx::Custom(_)
    ));
}

/// A mixed tx (a `ChannelConfig` bundled with another channel op) stays
/// `Custom`, but its config is retained in `config_entries`, and once mined
/// `config_tip_at` resolves it — configs inside custom txs still advance
/// the config lineage.
#[test]
fn mixed_config_tx_is_custom_but_advances_the_config_tip() {
    let channel_id = channel(0);

    let config = channel_config(channel_id, MsgId::root());
    let config_id = config.id;
    let tx = tx_of(vec![
        Op::ChannelConfig(config),
        Op::ChannelInscribe(inscribe_op(channel_id, MsgId::root(), b"m")),
    ]);
    let tx_hash = tx.hash;

    // Classification keeps the config in `config_entries`.
    let classified = classify_channel_txs(std::slice::from_ref(&tx), channel_id);
    assert_eq!(classified.len(), 1);
    match &classified[0] {
        BlockChannelTx::Custom { config_entries, .. } => {
            assert_eq!(config_entries.refs().len(), 1);
            assert_eq!(config_entries.refs()[0].this_msg, config_id);
        }
        other => panic!("expected Custom carrying a config entry, got {other:?}"),
    }

    // Once mined, the config-tip walk resolves the config the mixed tx
    // carried — it is not lost to the `Custom` shape.
    let genesis = header_id(0);
    let block = header_id(1);
    let mut state = TxState::new(genesis, MsgId::root());
    state.process_block(
        block,
        genesis,
        genesis,
        &[tx_hash],
        classified,
        Vec::new(),
    );
    assert_eq!(state.config_tip_at(block), config_id);
}

#[test]
fn multi_inscribe_tx_advances_tip_and_delivers_adopted_entries() {
    // A valid tx can chain several inscriptions internally (each parents
    // the previous). It cannot be mirrored for retry, but every payload
    // that advanced the canonical tip must still reach the consumer via
    // `adopted` — otherwise consumer state falls behind the reported
    // `new_channel_tip` until finalization.
    let channel_id = channel(0);
    let first = inscribe_op(channel_id, MsgId::root(), b"first");
    let second = inscribe_op(channel_id, first.id, b"second");
    let (first_msg, second_msg) = (first.id, second.id);
    let tx = tx_of(vec![
        Op::ChannelInscribe(first),
        Op::ChannelInscribe(second),
    ]);
    let tx_hash = tx.hash;

    let classified = classify_channel_txs(std::slice::from_ref(&tx), channel_id);
    assert_eq!(classified.len(), 1);
    assert!(
        matches!(&classified[0], BlockChannelTx::Custom { message_entries, .. } if message_entries.refs().len() == 2)
    );

    let genesis = header_id(0);
    let block = header_id(1);
    let mut state = TxState::new(genesis, MsgId::root());
    let old_lineage = state.channel_lineage(genesis);
    mirror_channel_txs(
        &mut state,
        &classified,
        std::slice::from_ref(&tx),
        channel_id,
    );
    state.process_block(
        block,
        genesis,
        genesis,
        &[tx_hash],
        classified,
        Vec::new(),
    );

    assert!(
        state.is_tracked(&tx_hash),
        "multi-inscribe is mirrored for retry"
    );
    assert_eq!(state.tx_source(&tx_hash), TxSource::Other);
    let update = state
        .detect_channel_update(&old_lineage, block, &KeySet::new())
        .expect("update");
    assert_eq!(update.new_channel_tip, second_msg, "tip stays ledger-true");
    // The tx is reported once, whole; its payloads are recoverable via
    // the public helper.
    assert_eq!(update.adopted.len(), 1);
    match &update.adopted[0] {
        ChannelUpdateTx::Custom(adopted_tx) => {
            let adopted_msgs: Vec<MsgId> = channel_inscriptions(adopted_tx, channel_id)
                .iter()
                .map(|i| i.this_msg)
                .collect();
            assert_eq!(
                adopted_msgs,
                vec![first_msg, second_msg],
                "every tip-advancing payload is delivered"
            );
        }
        other => panic!("expected Custom, got {other:?}"),
    }
}

#[test]
fn adopted_bundle_carries_its_withdraws() {
    // An inscription+withdraw bundle observed on chain surfaces in
    // `adopted` as a typed bundle, withdraws included.
    let channel_id = channel(0);
    let inscribe = inscribe_op(channel_id, MsgId::root(), b"bundle");
    let msg_id = inscribe.id;
    let withdrawn_note = note_id(3);
    let withdraw = ChannelWithdrawOp {
        channel_id,
        inputs: Inputs::new(vec![withdrawn_note]),
        outputs: Outputs::empty(),
        withdraw_nonce: 0,
    };
    let tx = tx_of(vec![
        Op::ChannelInscribe(inscribe),
        Op::ChannelWithdraw(withdraw),
    ]);
    let tx_hash = tx.hash;

    let classified = classify_channel_txs(std::slice::from_ref(&tx), channel_id);
    assert!(matches!(classified[0], BlockChannelTx::AtomicWithdraw(_)));

    let genesis = header_id(0);
    let block = header_id(1);
    let mut state = TxState::new(genesis, MsgId::root());
    let old_lineage = state.channel_lineage(genesis);
    mirror_channel_txs(
        &mut state,
        &classified,
        std::slice::from_ref(&tx),
        channel_id,
    );
    state.process_block(
        block,
        genesis,
        genesis,
        &[tx_hash],
        classified,
        Vec::new(),
    );

    let update = state
        .detect_channel_update(&old_lineage, block, &KeySet::new())
        .expect("update");
    assert_eq!(update.adopted.len(), 1);
    match &update.adopted[0] {
        ChannelUpdateTx::AtomicWithdraw(a) => {
            assert_eq!(a.inscription.this_msg, msg_id);
            assert_eq!(a.withdraws.refs().len(), 1);
            assert_eq!(a.withdraws.refs()[0].op.inputs, Inputs::new(vec![withdrawn_note]));
        }
        other => panic!("expected AtomicWithdraw, got {other:?}"),
    }
}

#[test]
fn extract_finalized_items_surfaces_standalone_withdraw() {
    // A ChannelWithdraw not bundled with an inscription (e.g. from
    // another sequencer or future multi-sig) should still surface as
    // a FinalizedOp::Withdraw — the sequencer stream is the complete
    // finalized view, not a "what we tracked locally" view.
    let channel_id = channel(0);
    let other_channel = channel(9);
    let withdraw_for_us = ChannelWithdrawOp {
        channel_id,
        inputs: Inputs::new(vec![note_id(7)]),
        outputs: Outputs::empty(),
        withdraw_nonce: 0,
    };
    let withdraw_other = ChannelWithdrawOp {
        channel_id: other_channel,
        inputs: Inputs::new(vec![note_id(0)]),
        outputs: Outputs::empty(),
        withdraw_nonce: 0,
    };

    let tx = tx_of(vec![
        Op::ChannelWithdraw(withdraw_for_us),
        Op::ChannelWithdraw(withdraw_other),
    ]);
    let tx_hash = tx.hash;

    let items = extract_finalized_items(
        std::slice::from_ref(&tx),
        channel_id,
        7,
        &KeyMap::new(),
    );

    assert_eq!(items.len(), 1);
    assert_eq!(items[0].tx_hash, tx_hash);
    assert_eq!(items[0].l1_slot, 7);
    assert_eq!(items[0].ops.refs().len(), 1, "only our channel's withdraw");
    match &items[0].ops.refs()[0] {
        FinalizedOp::Withdraw(w) => {
            assert_eq!(w.tx_hash, tx_hash);
            assert_eq!(w.op.channel_id, channel_id);
            assert_eq!(w.op.inputs, Inputs::new(vec![note_id(7)]));
        }
        other => panic!("expected Withdraw, got {other:?}"),
    }
}

#[test]
fn config_in_block_does_not_advance_channel_tip() {
    // Block layout: [Inscribe I1 (parent=root), ChannelConfig X
    //                (parent=root), Inscribe I2 (parent=I1)]. The config
    //                moves only the config lineage, so I2 chains off I1
    //                and the block's channel tip is I2.
    let channel_id = channel(0);
    let config = channel_config(channel_id, MsgId::root());
    let i1 = inscribe_op(channel_id, MsgId::root(), b"i1");
    let i1_id = i1.id;
    let i2 = inscribe_op(channel_id, i1_id, b"i2");
    let i2_id = i2.id;

    let tx = tx_of(vec![
        Op::ChannelInscribe(i1),
        Op::ChannelConfig(config),
        Op::ChannelInscribe(i2),
    ]);
    let tx_hash = tx.hash;

    // Stage pending inscriptions BEFORE driving the block through.
    let genesis = header_id(0);
    let block = header_id(1);
    let mut state = TxState::new(genesis, MsgId::root());

    // Pending chained from I1 — its position is taken by the mined I2.
    let pending_stale = dummy_pending_tx(1);
    let pending_stale_hash = pending_stale.hash;
    state
        .submit_inscription(
            pending_stale,
            i1_id,
            MsgId::from_bytes([99u8; 32]),
            Inscription::new(b"chained-from-i1".to_vec()),
        )
        .unwrap();

    // Pending chained from the block tip — should remain on-branch.
    let pending_live = dummy_pending_tx(2);
    let pending_live_hash = pending_live.hash;
    state
        .submit_inscription(
            pending_live,
            i2_id,
            MsgId::from_bytes([88u8; 32]),
            Inscription::new(b"chained-from-i2".to_vec()),
        )
        .unwrap();

    let extracted = classify_channel_txs(std::slice::from_ref(&tx), channel_id);
    state.process_block(
        block,
        genesis,
        genesis,
        &[tx_hash],
        extracted,
        Vec::new(),
    );

    assert_eq!(
        state.channel_tip_at(block),
        i2_id,
        "the config must not advance the channel tip"
    );

    // shed_off_branch_pending should drop the stale one but not the live one.
    let shed = state.shed_off_branch_pending(block);
    let shed_hashes: Vec<TxHash> = shed.iter().map(|tx| tx.tx_hash()).collect();
    assert!(
        shed_hashes.contains(&pending_stale_hash),
        "pending chained from I1 lost its position to the mined I2"
    );
    assert!(
        !shed_hashes.contains(&pending_live_hash),
        "pending chained from the block tip must remain on-branch"
    );
}

#[test]
fn extract_finalized_items_surfaces_configs_with_their_own_parent() {
    let channel_id = channel(0);
    let parent = MsgId::from_bytes([7u8; 32]);
    let config = channel_config(channel_id, parent);
    let config_id = config.id;
    let tx = tx_of(vec![Op::ChannelConfig(config)]);
    let tx_hash = tx.hash;

    let items = extract_finalized_items(
        std::slice::from_ref(&tx),
        channel_id,
        7,
        &KeyMap::new(),
    );

    assert_eq!(items.len(), 1);
    assert_eq!(items[0].ops.refs().len(), 1);
    match &items[0].ops.refs()[0] {
        FinalizedOp::Config(info) => {
            assert_eq!(info.tx_hash, tx_hash);
            assert_eq!(info.parent_msg, parent);
            assert_eq!(info.this_msg, config_id);
            assert!(info.payload.is_empty());
        }
        other => panic!("expected Config, got {other:?}"),
    }
}

#[test]
fn canonical_backfill_gap_inscriptions_surface_as_adopted() {
    // A sequencer whose block stream skipped a block self-heals via
    // backfill_canonical. Inscriptions mined in the gap block are new to
    // this sequencer's canonical view, so they must be reported as
    // `adopted` — otherwise no consumer learns they landed until
    // finalization.
    //
    // Chain: G(0) <- B1 <- B2 <- B3
    //   B1 carries inscription A (parent = root), delivered live
    //   B2 carries inscription Y (parent = A), MISSED by the stream
    //   B3 is empty, delivered live with B2's parent missing
    let channel_id = channel(0);

    let a = inscribe_op(channel_id, MsgId::root(), b"a");
    let a_id = a.id;
    let y = inscribe_op(channel_id, a_id, b"y");
    let y_id = y.id;

    let b1 = api_block(
        1,
        0,
        1,
        vec![tx_of(vec![Op::ChannelInscribe(a)])],
    );
    let b2 = api_block(
        2,
        1,
        2,
        vec![tx_of(vec![Op::ChannelInscribe(y)])],
    );
    let b3 = api_block(3, 2, 3, Vec::new());

    let node = MockNode {
        blocks: vec![b2],
        ..MockNode::default()
    };
    let mut state = None;
    let mut current_tip = None;
    let mut lib_slot = 0;

    // First live event: B1 arrives normally and adopts A.
    let first = deliver(
        &live_event(&b1),
        &mut state,
        &mut current_tip,
        &mut lib_slot,
        channel_id,
        &node,
    )
    .expect("processing B1 succeeds");
    let update = first.channel_update.expect("B1 adopts inscription A");
    assert!(
        update
            .adopted
            .iter()
            .any(|t| t.inscription().is_some_and(|i| i.this_msg == a_id)),
        "sanity: A is adopted on the first event"
    );

    // Second live event: B3 arrives with its parent B2 missing, so the
    // canonical backfill fetches B2 (carrying Y). Y is newly canonical
    // from this sequencer's perspective and was never surfaced before,
    // so this event's channel update must report it as adopted.
    let second = deliver(
        &live_event(&b3),
        &mut state,
        &mut current_tip,
        &mut lib_slot,
        channel_id,
        &node,
    )
    .expect("processing B3 succeeds");
    let update = second
        .channel_update
        .expect("the backfilled gap advanced the channel tip; expected a channel update");
    assert!(
        update
            .adopted
            .iter()
            .any(|t| t.inscription().is_some_and(|i| i.this_msg == y_id)),
        "inscription mined in the backfilled gap block must be reported as adopted; \
         got adopted={:?}, orphaned={:?}",
        update.adopted,
        update.orphaned,
    );
}

// ---- channel-view scenarios: chain diagram + what the consumer sees ----

fn msg_ids(txs: &[ChannelUpdateTx]) -> Vec<MsgId> {
    txs.iter()
        .filter_map(|t| t.inscription().map(|i| i.this_msg))
        .collect()
}

/// A fork block's inscription is not in
/// the view until its branch is canonical; then it is adopted.
#[test]
fn fork_block_inscription_is_adopted_on_the_switch() {
    // G <- F(a) canonical; G <- C(a, y) fork; C <- E empty: C wins.
    let ch = channel(0);
    let (a_id, a_tx) = ins(ch, MsgId::root(), b"a");
    let (y_id, y_tx) = ins(ch, a_id, b"y");
    let bf = api_block(1, 0, 1, vec![a_tx.clone()]);
    let bc = api_block(2, 0, 2, vec![a_tx, y_tx]);
    let be = api_block(3, 2, 3, Vec::new());

    let mut state = None;
    let r = drive(
        &mut state,
        ch,
        &[live_event(&bf), fork_event(&bc, &bf), live_event(&be)],
    );

    assert!(
        r[0].result.channel_update.is_some(),
        "a adopted on the first event"
    );
    assert!(
        r[1].result.channel_update.is_none(),
        "fork block: not in the view"
    );
    let u = r[2]
        .result
        .channel_update
        .as_ref()
        .expect("y canonical on the switch");
    assert_eq!(msg_ids(&u.adopted), vec![y_id]);
    assert!(u.orphaned.is_empty());
    assert_eq!(u.new_channel_tip, y_id);
    // The re-mirrored y is mined on the new branch: the shed must keep it,
    // and it must not be offered for resubmission.
    assert!(
        r[2].shed.is_empty(),
        "re-mirrored fork tx shed as off-branch: {:?}",
        r[2].shed
    );
    let s = state.as_ref().unwrap();
    assert_eq!(s.pending_publish_count(), 2, "a and y mirrored");
    assert!(
        s.pending_txs(be.id).is_empty(),
        "nothing to resubmit: both are safe at the tip"
    );
}

/// Pending suffix vs. forks: a bare un-mine keeps it, a fork competitor
/// changes nothing, the fork winning replaces it in one report.
#[test]
fn pending_suffix_survives_forks_until_a_competitor_is_canonical() {
    // G <- B1(i1, i2) <- B2(i3, i4); B1 <- B3 empty (tip: i3, i4 pending);
    // B1 <- B4(i3') fork; B4 <- B5(i4') canonical: B4's branch wins.
    let ch = channel(0);
    let (i1_id, i1_tx) = ins(ch, MsgId::root(), b"i1");
    let (i2_id, i2_tx) = ins(ch, i1_id, b"i2");
    let (i3_id, i3_tx) = ins(ch, i2_id, b"i3");
    let (i4_id, i4_tx) = ins(ch, i3_id, b"i4");
    let (i3a_id, i3a_tx) = ins(ch, i2_id, b"i3'");
    let (i4a_id, i4a_tx) = ins(ch, i3a_id, b"i4'");
    let (i3_hash, i4_hash) = (i3_tx.hash, i4_tx.hash);
    let b1 = api_block(1, 0, 1, vec![i1_tx, i2_tx]);
    let b2 = api_block(2, 1, 2, vec![i3_tx, i4_tx]);
    let b3 = api_block(3, 1, 3, Vec::new());
    let b4 = api_block(4, 1, 4, vec![i3a_tx]);
    let b5 = api_block(5, 4, 5, vec![i4a_tx]);

    let mut state = None;
    let r = drive(
        &mut state,
        ch,
        &[
            live_event(&b1),
            live_event(&b2),
            live_event(&b3),
            fork_event(&b4, &b3),
            live_event(&b5),
        ],
    );

    assert!(
        r[2].result.channel_update.is_none(),
        "bare un-mine keeps i3, i4"
    );
    assert!(
        r[3].result.channel_update.is_none(),
        "fork competitor: nothing decided"
    );
    let u = r[4].result.channel_update.as_ref().expect("the switch");
    assert_eq!(msg_ids(&u.orphaned), vec![i3_id, i4_id]);
    assert_eq!(msg_ids(&u.adopted), vec![i3a_id, i4a_id]);
    assert_eq!(u.new_channel_tip, i4a_id);
    // Only the displaced suffix is shed; the re-mirrored i3', i4' read as
    // mined on the new branch.
    assert!(r[2].shed.is_empty() && r[3].shed.is_empty());
    let shed: Vec<TxHash> = r[4].shed.iter().map(|tx| tx.tx_hash()).collect();
    assert_eq!(shed, vec![i3_hash, i4_hash]);
    let s = state.as_ref().unwrap();
    assert_eq!(s.pending_publish_count(), 4, "i1, i2, i3', i4' mirrored");
    assert!(s.pending_txs(b5.id).is_empty());
}

/// Our opaque (custom-shaped) pending tx is part of the view like any
/// pending inscription: a bare un-mine keeps it, a mined competitor
/// displaces it, reported whole as `Custom`.
#[test]
fn opaque_pending_tx_stays_in_the_view_across_a_bare_unmine() {
    // G <- B0 empty; B0 <- B1(custom [x1, x2]); B0 <- B2 empty (tip);
    // B2 <- B3(y, parent root).
    let ch = channel(0);
    let x1 = inscribe_op(ch, MsgId::root(), b"x1");
    let x2 = inscribe_op(ch, x1.id, b"x2");
    let (x1_id, x2_id) = (x1.id, x2.id);
    let custom = tx_of(vec![Op::ChannelInscribe(x1), Op::ChannelInscribe(x2)]);
    let custom_hash = custom.hash;
    let (y_id, y_tx) = ins(ch, MsgId::root(), b"y");
    let b0 = api_block(1, 0, 1, Vec::new());
    let b1 = api_block(2, 1, 2, vec![custom.clone()]);
    let b2 = api_block(3, 1, 3, Vec::new());
    let b3 = api_block(4, 3, 4, vec![y_tx]);

    let mut tx_state = TxState::new(header_id(0), MsgId::root());
    tx_state.submit_other(custom, ch).unwrap();
    let mut state = Some(tx_state);
    let r = drive(
        &mut state,
        ch,
        &[
            live_event(&b0),
            live_event(&b1),
            live_event(&b2),
            live_event(&b3),
        ],
    );

    assert!(
        r[1].result
            .channel_update
            .as_ref()
            .is_none_or(|u| u.adopted.is_empty() && u.orphaned.is_empty()),
        "own pending landing is not a view change"
    );
    assert!(
        r[2].result.channel_update.is_none(),
        "bare un-mine keeps it"
    );
    let u = r[3].result.channel_update.as_ref().expect("y displaced it");
    let [ChannelUpdateTx::Custom(orphaned_tx)] = &u.orphaned[..] else {
        panic!("one Custom orphan, got {:?}", u.orphaned);
    };
    let orphaned: Vec<MsgId> = channel_inscriptions(orphaned_tx, ch)
        .iter()
        .map(|i| i.this_msg)
        .collect();
    assert_eq!(orphaned, vec![x1_id, x2_id]);
    assert_eq!(msg_ids(&u.adopted), vec![y_id]);
    assert!(r[1].shed_other.is_empty() && r[2].shed_other.is_empty());
    let shed: Vec<TxHash> = r[3].shed_other.iter().map(|tx| tx.hash).collect();
    assert_eq!(shed, vec![custom_hash]);
}

/// A reorg dropping the deposit with the pin leaves the pin unlandable:
/// shed it and its pending child, parent first.
#[test]
fn bundle_whose_inputs_left_the_branch_is_shed_with_its_children() {
    // G <- B1(deposit, pin) canonical; G <- B2 empty sibling: B2 wins.
    let ch = channel(0);
    let f = pin_fixture(ch);
    let (x_id, x_tx) = ins(ch, f.pin_id, b"x");
    let (pin_hash, x_hash) = (f.pin_tx.hash, x_tx.hash);
    let b1 = api_block(1, 0, 1, vec![f.dep_tx.clone(), f.pin_tx.clone()]);
    let b2 = api_block(2, 0, 2, Vec::new());

    let mut state = f.state;
    state
        .submit_inscription(
            x_tx,
            f.pin_id,
            x_id,
            Inscription::new(b"x".to_vec()),
        )
        .unwrap();
    let mut state = Some(state);
    let r = drive_with(&f.node, &mut state, ch, &[live_event(&b1), live_event(&b2)]);

    assert!(r[0].shed.is_empty());
    let shed: Vec<TxHash> = r[1].shed.iter().map(|tx| tx.tx_hash()).collect();
    assert_eq!(shed, vec![pin_hash, x_hash], "pin first, then its child");
    assert!(matches!(r[1].shed[0], PendingTx::PinDeposit(_)));
    assert!(matches!(r[1].shed[1], PendingTx::Inscription(_)));
    assert_eq!(state.as_ref().unwrap().pending_publish_count(), 0);
}

/// A custom tx is mirrored like any channel tx: a bare un-mine keeps it
/// in the view, silent; a competitor on its parent displaces it and it
/// is reported orphaned.
#[test]
fn foreign_custom_tx_is_kept_through_un_mine_and_orphaned_by_a_competitor() {
    // G <- A(c) tip; G <- X, X <- Y forks; Y <- Z tip: A un-mined bare;
    // Z <- R(i') tip: i' takes the parent c chained on.
    let ch = channel(0);
    let (c_id, c_tx) = custom(ch, MsgId::root(), b"c");
    let (i_id, i_tx) = ins(ch, MsgId::root(), b"i'");
    let (c_hash, i_hash) = (c_tx.hash, i_tx.hash);
    let ba = api_block(1, 0, 1, vec![c_tx]);
    let bx = api_block(2, 0, 2, Vec::new());
    let by = api_block(3, 2, 3, Vec::new());
    let bz = api_block(4, 3, 4, Vec::new());
    let br = api_block(5, 4, 5, vec![i_tx]);

    let mut state = None;
    let r = drive(
        &mut state,
        ch,
        &[
            live_event(&ba),
            fork_event(&bx, &ba),
            fork_event(&by, &ba),
            live_event(&bz),
            live_event(&br),
        ],
    );

    let u = r[0].result.channel_update.as_ref().expect("c is adopted");
    assert!(
        matches!(u.adopted.as_slice(), [ChannelUpdateTx::Custom(tx)] if tx.hash == c_hash)
    );
    assert_eq!(u.new_channel_tip, c_id);
    assert!(
        r[3].result.channel_update.is_none(),
        "bare un-mine is silent"
    );
    assert!(r[3].shed_other.is_empty());
    let u = r[4].result.channel_update.as_ref().expect("i' wins");
    let orphaned: Vec<TxHash> = u.orphaned.iter().map(|tx| tx.tx_hash()).collect();
    let adopted: Vec<TxHash> = u.adopted.iter().map(|tx| tx.tx_hash()).collect();
    assert_eq!(orphaned, vec![c_hash]);
    assert_eq!(adopted, vec![i_hash]);
    assert_eq!(u.new_channel_tip, i_id);
    let shed: Vec<TxHash> = r[4].shed_other.iter().map(|tx| tx.hash).collect();
    assert_eq!(shed, vec![c_hash]);
}

/// A config is reported like any channel tx: adopted when mined, kept
/// silently through a bare un-mine, orphaned when a rival supersedes it.
#[test]
fn foreign_config_is_adopted_kept_through_un_mine_and_orphaned_by_a_rival() {
    // G <- A(cfg) tip; G <- X, X <- Y forks; Y <- Z tip: A un-mined bare;
    // Z <- R(cfg') tip: cfg' takes the config slot cfg chained on.
    let ch = channel(0);
    let cfg =
        tx_of(vec![Op::ChannelConfig(channel_config(ch, MsgId::root()))]);
    let mut rival_op = channel_config(ch, MsgId::root());
    rival_op.posting_timeframe = 1;
    rival_op.id = MsgId::from_bytes(digest(&[b"rival config"]));
    let rival = tx_of(vec![Op::ChannelConfig(rival_op)]);
    let (cfg_hash, rival_hash) = (cfg.hash, rival.hash);
    let ba = api_block(1, 0, 1, vec![cfg]);
    let bx = api_block(2, 0, 2, Vec::new());
    let by = api_block(3, 2, 3, Vec::new());
    let bz = api_block(4, 3, 4, Vec::new());
    let br = api_block(5, 4, 5, vec![rival]);

    let mut state = None;
    let r = drive(
        &mut state,
        ch,
        &[
            live_event(&ba),
            fork_event(&bx, &ba),
            fork_event(&by, &ba),
            live_event(&bz),
            live_event(&br),
        ],
    );

    let u = r[0].result.channel_update.as_ref().expect("cfg is adopted");
    assert!(u.orphaned.is_empty());
    assert!(
        matches!(u.adopted.as_slice(), [ChannelUpdateTx::Config(tx)] if tx.hash == cfg_hash)
    );
    assert_eq!(
        u.new_channel_tip,
        MsgId::root(),
        "configs never move the message tip"
    );
    assert!(
        r[3].result.channel_update.is_none(),
        "bare un-mine is silent"
    );
    let s = state.as_ref().unwrap();
    assert!(s.is_tracked(&cfg_hash));
    assert!(
        s.pending_txs(bz.id)
            .iter()
            .any(|(h, _)| *h == cfg_hash),
        "un-mined, it is re-posted"
    );
    let u = r[4]
        .result
        .channel_update
        .as_ref()
        .expect("cfg' supersedes cfg");
    let orphaned: Vec<TxHash> = u.orphaned.iter().map(|tx| tx.tx_hash()).collect();
    let adopted: Vec<TxHash> = u.adopted.iter().map(|tx| tx.tx_hash()).collect();
    assert_eq!(orphaned, vec![cfg_hash]);
    assert_eq!(adopted, vec![rival_hash]);
}

/// After a checkpoint restore the first event's view carries the restored
/// pending publish, which `adopted` never echoes.
#[test]
fn first_event_after_restore_keeps_restored_pending_in_the_prefix() {
    let ch = channel(0);
    let (p_id, p_tx) = ins(ch, MsgId::root(), b"p");
    let p_hash = p_tx.hash;
    let mut state = TxState::new(header_id(0), MsgId::root());
    state
        .submit_inscription(
            p_tx,
            MsgId::root(),
            p_id,
            Inscription::new(b"p".to_vec()),
        )
        .unwrap();
    let b1 = api_block(1, 0, 1, Vec::new());

    let r = drive(&mut Some(state), ch, &[live_event(&b1)]);

    let prefix: Vec<TxHash> = r[0]
        .result
        .common_prefix
        .iter()
        .map(|tx| tx.tx_hash())
        .collect();
    assert_eq!(prefix, vec![p_hash]);
    assert!(
        r[0].result
            .channel_update
            .as_ref()
            .is_none_or(|u| u.adopted.is_empty())
    );
}

/// `common_prefix ++ adopted` keeps each lineage in order; the message and
/// config lineages are not interleaved with each other.
#[test]
fn view_split_keeps_each_lineage_in_order() {
    // Pending config C in the view; B1 adopts M1 <- M2.
    let ch = channel(0);
    let cfg =
        tx_of(vec![Op::ChannelConfig(channel_config(ch, MsgId::root()))]);
    let cfg_hash = cfg.hash;
    let mut state = TxState::new(header_id(0), MsgId::root());
    state.submit_other(cfg, ch).unwrap();
    let (m1_id, m1) = ins(ch, MsgId::root(), b"m1");
    let (m2_id, m2) = ins(ch, m1_id, b"m2");
    let b1 = api_block(1, 0, 1, vec![m1, m2]);

    let r = drive(&mut Some(state), ch, &[live_event(&b1)]);

    let prefix: Vec<TxHash> = r[0]
        .result
        .common_prefix
        .iter()
        .map(|tx| tx.tx_hash())
        .collect();
    assert_eq!(prefix, vec![cfg_hash]);
    let u = r[0].result.channel_update.as_ref().expect("M1, M2 adopted");
    assert_eq!(msg_ids(&u.adopted), vec![m1_id, m2_id]);
}

/// After a restore, a pending P whose unfinalized parent M is rediscovered
/// on the first event: P proves M was the view before the restart, so
/// nothing is adopted, shed or orphaned; the view is M <- P, and P lands
/// next.
#[test]
fn restored_pending_survives_its_parent_being_rediscovered() {
    let ch = channel(0);
    let (m_id, m_tx) = ins(ch, MsgId::root(), b"m");
    let (p_id, p_tx) = ins(ch, m_id, b"p");
    let (m_hash, p_hash) = (m_tx.hash, p_tx.hash);
    let mut restored = TxState::new(header_id(0), MsgId::root());
    restored
        .submit_inscription(
            p_tx.clone(),
            m_id,
            p_id,
            Inscription::new(b"p".to_vec()),
        )
        .unwrap();
    let b1 = api_block(1, 0, 1, vec![m_tx]);
    let b2 = api_block(2, 1, 2, vec![p_tx]);

    let r = drive(&mut Some(restored), ch, &[live_event(&b1), live_event(&b2)]);

    assert!(r[0].shed.is_empty(), "P chains on M, so it stays pending");
    assert!(
        r[0].result.channel_update.is_none(),
        "M was the view P chained on: nothing changed"
    );
    assert_eq!(
        hashes(&r[0].result.common_prefix),
        vec![m_hash, p_hash],
        "the view in lineage order"
    );

    // P lands on its parent: an own publish is not echoed as adopted, so
    // no update; the view is now M <- P, both mined.
    assert!(r[1].shed.is_empty());
    assert!(
        r[1].result.channel_update.is_none(),
        "nothing new to report"
    );
    assert_eq!(hashes(&r[1].result.common_prefix), vec![m_hash, p_hash]);
}

/// After a restore, a pending P whose parent M is never mined is shed the
/// moment a rival takes M's slot: a conflict, P is orphaned and not in
/// the prefix.
#[test]
fn restored_pending_is_orphaned_when_a_rival_takes_its_parents_slot() {
    let ch = channel(0);
    let (m_id, _m_tx) = ins(ch, MsgId::root(), b"m");
    let (p_id, p_tx) = ins(ch, m_id, b"p");
    let (_rival_id, rival_tx) = ins(ch, MsgId::root(), b"rival");
    let (p_hash, rival_hash) = (p_tx.hash, rival_tx.hash);
    let mut restored = TxState::new(header_id(0), MsgId::root());
    restored
        .submit_inscription(p_tx, m_id, p_id, Inscription::new(b"p".to_vec()))
        .unwrap();
    let b1 = api_block(1, 0, 1, vec![rival_tx]);

    let r = drive(&mut Some(restored), ch, &[live_event(&b1)]);

    // The actor reports the shed as orphaned (`build_channel_update`).
    let shed: Vec<ChannelUpdateTx> =
        r[0].shed.iter().map(|tx| orphan_from_shed(tx.clone())).collect();
    assert_eq!(hashes(&shed), vec![p_hash], "P no longer chains on the tip");
    let u = r[0]
        .result
        .channel_update
        .as_ref()
        .expect("rival is adopted");
    assert!(u.orphaned.is_empty(), "nothing mined was dropped");
    assert_eq!(hashes(&u.adopted), vec![rival_hash]);
    assert!(r[0].result.common_prefix.is_empty());
}

fn hashes(txs: &[ChannelUpdateTx]) -> Vec<TxHash> {
    txs.iter().map(|tx| tx.tx_hash()).collect()
}

/// On an extension the new view is the previous view followed by
/// `adopted`: across a checkpoint restore with a pending publish P on the
/// finalized tip M, an empty block, the block that mines P (which
/// `adopted` never echoes), and a block that mines N on top.
#[test]
fn extension_appends_adopted_to_the_previous_view() {
    let ch = channel(0);
    let (m_id, _) = ins(ch, MsgId::root(), b"m");
    let (p_id, p_tx) = ins(ch, m_id, b"p");
    let (_, n_tx) = ins(ch, p_id, b"n");
    let mut restored = TxState::new(header_id(0), m_id);
    restored
        .submit_inscription(
            p_tx.clone(),
            m_id,
            p_id,
            Inscription::new(b"p".to_vec()),
        )
        .unwrap();
    let blocks = [
        api_block(1, 0, 1, Vec::new()),
        api_block(2, 1, 2, vec![p_tx]),
        api_block(3, 2, 3, vec![n_tx]),
    ];

    let node = MockNode::default();
    let mut state = Some(restored);
    let mut current_tip = None;
    let mut lib_slot = 0;
    let mut view = hashes(
        &state
            .as_ref()
            .unwrap()
            .channel_view_txs(header_id(0), &KeySet::new()),
    );
    for block in &blocks {
        let result = deliver(
            &live_event(block),
            &mut state,
            &mut current_tip,
            &mut lib_slot,
            ch,
            &node,
        )
        .unwrap();
        let adopted = result.channel_update.as_ref().map_or_else(Vec::new, |u| {
            assert!(u.orphaned.is_empty(), "an extension");
            hashes(&u.adopted)
        });
        let tip = current_tip.expect("processed");
        let new_view = hashes(
            &state
                .as_ref()
                .unwrap()
                .channel_view_txs(tip, &KeySet::new()),
        );
        assert_eq!(new_view, [view.clone(), adopted].concat());
        view = new_view;
    }
    assert_eq!(view.len(), 2, "P then N");
}

/// A shed bundle the consumer was told to revert can still land: its bytes
/// stay in the L1 mempool. When it does, on a pure extension, it must be
/// reported adopted — the shed removed it from pending, so the consumer
/// no longer holds it. "Ours" is not "already applied".
#[test]
fn shed_bundle_that_lands_anyway_is_reported_adopted() {
    // G <- B1(deposit, pin) canonical; G <- B2 empty: B2 wins, pin shed;
    // B2 <- B3(deposit, pin): both re-mined from the mempool.
    let ch = channel(0);
    let mut f = pin_fixture(ch);
    let pin_hash = f.pin_tx.hash;
    let b1 = api_block(1, 0, 1, vec![f.dep_tx.clone(), f.pin_tx.clone()]);
    let b2 = api_block(2, 0, 2, Vec::new());
    let b3 = api_block(3, 2, 3, vec![f.dep_tx.clone(), f.pin_tx.clone()]);
    let dep_event = f.node.events[0].1.clone();
    f.node.events.push((header_id(3), dep_event));

    let mut state = Some(f.state);
    let r = drive_with(
        &f.node,
        &mut state,
        ch,
        &[live_event(&b1), live_event(&b2), live_event(&b3)],
    );

    let shed: Vec<TxHash> = r[1].shed.iter().map(|tx| tx.tx_hash()).collect();
    assert_eq!(shed, vec![pin_hash], "sanity: the pin is shed when B2 wins");
    let u = r[2]
        .result
        .channel_update
        .as_ref()
        .expect("the pin landing moves the channel tip");
    assert!(u.orphaned.is_empty());
    let adopted: Vec<TxHash> = u.adopted.iter().map(|tx| tx.tx_hash()).collect();
    assert_eq!(
        adopted,
        vec![pin_hash],
        "a shed own bundle that lands anyway must be reported adopted"
    );
    assert_eq!(u.new_channel_tip, f.pin_id);
    assert!(r[2].shed.is_empty(), "it is mined on this branch");
}

/// The pin un-mined alone stays pending and silent; its note is back in
/// the wallet view but reserved for it, so selection must not offer it.
#[test]
fn bundle_whose_inputs_stayed_on_the_branch_is_kept_and_its_notes_reserved() {
    // G <- B1(deposit) <- B2(pin) canonical; B1 <- B3 empty: B3 wins.
    let ch = channel(0);
    let f = pin_fixture(ch);
    let b1 = api_block(1, 0, 1, vec![f.dep_tx.clone()]);
    let b2 = api_block(2, 1, 2, vec![f.pin_tx.clone()]);
    let b3 = api_block(3, 1, 3, Vec::new());

    let mut state = Some(f.state);
    let r = drive_with(
        &f.node,
        &mut state,
        ch,
        &[live_event(&b1), live_event(&b2), live_event(&b3)],
    );

    assert!(r[2].shed.is_empty());
    assert!(
        r[2].result.channel_update.is_none(),
        "bare un-mine is silent"
    );
    let s = state.as_ref().unwrap();
    assert_eq!(s.pending_publish_count(), 1);
    let has = |v: &ChannelWalletView| {
        v.finalized
            .iter()
            .chain(v.unfinalized.iter())
            .any(|n| n.note_id == f.recreated)
    };
    assert!(has(&s.channel_wallet_view(Some(header_id(3)))));
    assert!(
        !has(&s.spendable_wallet_view(Some(header_id(3)), ch)),
        "reserved"
    );
}

/// Flip-flop reorg: B wins, loses to B', wins back. Its entry was shed on
/// the loss and must be re-mirrored from the store on the win, so a later
/// bare un-mine keeps it in the view. Also covers a fork block (B')
/// becoming canonical.
#[test]
fn flip_flop_reorg_re_mirrors_the_readopted_block() {
    // G <- A(i1); A <- B(i2); A <- B'(i2') fork; B' <- C' empty (tip);
    // B <- C fork; C <- D empty (tip); A <- X, X <- Y forks; Y <- Z empty (tip).
    let ch = channel(0);
    let (i1_id, i1_tx) = ins(ch, MsgId::root(), b"i1");
    let (i2_id, i2_tx) = ins(ch, i1_id, b"i2");
    let (i2a_id, i2a_tx) = ins(ch, i1_id, b"i2'");
    let (i2_hash, i2a_hash) = (i2_tx.hash, i2a_tx.hash);
    let ba = api_block(1, 0, 1, vec![i1_tx]);
    let bb = api_block(2, 1, 2, vec![i2_tx]);
    let bba = api_block(3, 1, 3, vec![i2a_tx]);
    let bca = api_block(4, 3, 4, Vec::new());
    let bc = api_block(5, 2, 5, Vec::new());
    let bd = api_block(6, 5, 6, Vec::new());
    let bx = api_block(7, 1, 7, Vec::new());
    let by = api_block(8, 7, 8, Vec::new());
    let bz = api_block(9, 8, 9, Vec::new());

    let mut state = None;
    let r = drive(
        &mut state,
        ch,
        &[
            live_event(&ba),
            live_event(&bb),
            fork_event(&bba, &bb),
            live_event(&bca),
            fork_event(&bc, &bca),
            live_event(&bd),
            fork_event(&bx, &bd),
            fork_event(&by, &bd),
            live_event(&bz),
        ],
    );

    let u = r[3].result.channel_update.as_ref().expect("B' wins");
    assert_eq!(msg_ids(&u.orphaned), vec![i2_id]);
    assert_eq!(msg_ids(&u.adopted), vec![i2a_id]);
    let u = r[5].result.channel_update.as_ref().expect("B wins back");
    assert_eq!(msg_ids(&u.orphaned), vec![i2a_id]);
    assert_eq!(msg_ids(&u.adopted), vec![i2_id]);
    assert!(
        r[8].result.channel_update.is_none(),
        "bare un-mine of B: i2 is pending again"
    );
    // `common_prefix ++ adopted` is the view above LIB on every event.
    assert!(r[0].result.common_prefix.is_empty());
    assert_eq!(msg_ids(&r[1].result.common_prefix), vec![i1_id]);
    assert_eq!(msg_ids(&r[3].result.common_prefix), vec![i1_id]);
    assert_eq!(msg_ids(&r[8].result.common_prefix), vec![i1_id, i2_id]);
    // Each switch sheds only the loser; the winner, re-mirrored from the
    // store, reads as mined on its branch.
    let shed: Vec<TxHash> = r[3].shed.iter().map(|tx| tx.tx_hash()).collect();
    assert_eq!(shed, vec![i2_hash]);
    let shed: Vec<TxHash> = r[5].shed.iter().map(|tx| tx.tx_hash()).collect();
    assert_eq!(shed, vec![i2a_hash]);
    assert!(r[8].shed.is_empty());
    let s = state.as_ref().unwrap();
    let resubmit: Vec<TxHash> = s
        .pending_txs(bz.id)
        .iter()
        .map(|(hash, _)| *hash)
        .collect();
    assert_eq!(
        resubmit,
        vec![i2_hash],
        "i2 is unmined at Z and goes back out"
    );
}

/// An L1 branch change served by the canonical backfill: the new branch
/// re-mines the old branch's inscription A and adds Y on top. Only Y is
/// news to the consumer — A must be neither re-adopted (it was already
/// reported) nor orphaned (its position is intact on the new branch).
#[test]
fn reorg_backfill_reports_only_new_inscriptions_as_adopted() {
    // Chain: G(0) <- B1            (old branch, delivered live)
    //        G(0) <- C1 <- C2 <- C3 (new branch, C1/C2 via backfill)
    //   B1 and C1 both carry inscription A (same tx, re-mined)
    //   C2 carries inscription Y (parent = A)
    //   C3 is empty, delivered live with C2/C1 missing
    let channel_id = channel(0);

    let a = inscribe_op(channel_id, MsgId::root(), b"a");
    let a_id = a.id;
    let y = inscribe_op(channel_id, a_id, b"y");
    let y_id = y.id;
    let a_tx = tx_of(vec![Op::ChannelInscribe(a)]);
    let y_tx = tx_of(vec![Op::ChannelInscribe(y)]);

    let b1 = api_block(1, 0, 1, vec![a_tx.clone()]);
    let c1 = api_block(4, 0, 2, vec![a_tx]);
    let c2 = api_block(5, 4, 3, vec![y_tx]);
    let c3 = api_block(6, 5, 4, Vec::new());

    let node = MockNode {
        blocks: vec![c1, c2],
        ..MockNode::default()
    };
    let mut state = None;
    let mut current_tip = None;
    let mut lib_slot = 0;

    let first = deliver(
        &live_event(&b1),
        &mut state,
        &mut current_tip,
        &mut lib_slot,
        channel_id,
        &node,
    )
    .expect("processing B1 succeeds");
    assert!(
        first.channel_update.is_some(),
        "sanity: A is adopted on the first event"
    );

    let second = deliver(
        &live_event(&c3),
        &mut state,
        &mut current_tip,
        &mut lib_slot,
        channel_id,
        &node,
    )
    .expect("processing C3 succeeds");
    let update = second
        .channel_update
        .expect("the backfilled branch added Y; expected a channel update");
    assert!(
        update
            .adopted
            .iter()
            .any(|t| t.inscription().is_some_and(|i| i.this_msg == y_id)),
        "inscription mined on the backfilled branch must be reported as adopted; \
         got adopted={:?}, orphaned={:?}",
        update.adopted,
        update.orphaned,
    );
    assert!(
        !update
            .adopted
            .iter()
            .any(|t| t.inscription().is_some_and(|i| i.this_msg == a_id)),
        "re-mined A was already reported adopted and must not echo"
    );
    assert!(
        update.orphaned.is_empty(),
        "A's position is intact on the new branch; nothing is orphaned, got {:?}",
        update.orphaned,
    );
    assert_eq!(update.new_channel_tip, y_id);
}

/// Blocks pulled in by the LIB backfill surface exclusively through
/// `finalized`: not double-reported as adopted, not misreported as
/// orphaned.
#[test]
fn lib_backfilled_blocks_surface_as_finalized_not_adopted() {
    // Chain: G(0) <- B1 <- B2 <- B3, LIB advances to B2 on the second
    // event.
    //   B1 carries inscription A (parent = root), delivered live
    //   B2 carries inscription Y (parent = A), never seen live; reaches
    //      state only through the LIB backfill of slots 1..=2
    //   B3 is empty, delivered live with LIB at B2
    let channel_id = channel(0);

    let a = inscribe_op(channel_id, MsgId::root(), b"a");
    let a_id = a.id;
    let y = inscribe_op(channel_id, a_id, b"y");
    let y_id = y.id;

    let b1 = api_block(
        1,
        0,
        1,
        vec![tx_of(vec![Op::ChannelInscribe(a)])],
    );
    let b2 = api_block(
        2,
        1,
        2,
        vec![tx_of(vec![Op::ChannelInscribe(y)])],
    );
    let b3 = api_block(3, 2, 3, Vec::new());

    let node = MockNode {
        immutable: vec![b1.clone(), b2],
        ..MockNode::default()
    };
    let mut state = None;
    let mut current_tip = None;
    let mut lib_slot = 0;

    let first = deliver(
        &live_event(&b1),
        &mut state,
        &mut current_tip,
        &mut lib_slot,
        channel_id,
        &node,
    )
    .expect("processing B1 succeeds");
    assert!(
        first.channel_update.is_some(),
        "sanity: A is adopted on the first event"
    );

    let event = Event {
        block: b3,
        tip: header_id(3),
        tip_slot: 3,
        lib: header_id(2),
        lib_slot: 2,
    };
    let second = deliver(
        &event,
        &mut state,
        &mut current_tip,
        &mut lib_slot,
        channel_id,
        &node,
    )
    .expect("processing B3 succeeds");

    let finalized_msgs: Vec<MsgId> = second
        .finalized_items
        .iter()
        .flat_map(|t| t.ops.refs().into_iter())
        .filter_map(|op| match op {
            FinalizedOp::Inscription(i) => Some(i.this_msg),
            _ => None,
        })
        .collect();
    assert!(
        finalized_msgs.contains(&a_id) && finalized_msgs.contains(&y_id),
        "both inscriptions finalize via the LIB backfill; got {finalized_msgs:?}"
    );

    if let Some(update) = second.channel_update {
        assert!(
            !update
                .adopted
                .iter()
                .any(|t| t.inscription().is_some_and(|i| i.this_msg == y_id)),
            "LIB-backfilled Y reaches the consumer as finalized and must not \
             double-report as adopted"
        );
        assert!(
            update.orphaned.is_empty(),
            "content finalized by this event must not be misreported as orphaned; \
             got {:?}",
            update.orphaned,
        );
    }
}

/// A finalized inscription must never be reported `orphaned`: LIB
/// advancing past its block (steady state, no reorg) removes it from
/// the lineage walk's range but not from the channel.
#[test]
fn finalized_inscription_is_not_reported_orphaned() {
    // Chain: G(0) <- B1(A) <- B2 <- B3, all delivered live; LIB advances
    // one block per event: genesis, B1, B2.
    let channel_id = channel(0);
    let a = inscribe_op(channel_id, MsgId::root(), b"a");
    let b1 = api_block(
        1,
        0,
        1,
        vec![tx_of(vec![Op::ChannelInscribe(a)])],
    );
    let b2 = api_block(2, 1, 2, Vec::new());
    let b3 = api_block(3, 2, 3, Vec::new());

    let node = MockNode {
        immutable: vec![b1.clone(), b2.clone()],
        ..MockNode::default()
    };
    let mut state = None;
    let mut current_tip = None;
    let mut lib_slot = 0;

    deliver(
        &live_event(&b1),
        &mut state,
        &mut current_tip,
        &mut lib_slot,
        channel_id,
        &node,
    )
    .expect("processing B1 succeeds");

    // LIB advances to B1 — the block carrying A. A finalizes here.
    let e2 = Event {
        block: b2,
        tip: header_id(2),
        tip_slot: 2,
        lib: header_id(1),
        lib_slot: 1,
    };
    let second = deliver(
        &e2,
        &mut state,
        &mut current_tip,
        &mut lib_slot,
        channel_id,
        &node,
    )
    .expect("processing B2 succeeds");
    assert!(
        second
            .channel_update
            .as_ref()
            .is_none_or(|u| u.orphaned.is_empty()),
        "nothing is orphaned when A's block becomes LIB; got {:?}",
        second.channel_update,
    );
    assert_eq!(
        state.as_ref().unwrap().pending_publish_count(),
        0,
        "A finalized: it leaves pending and must not be re-mirrored from its (LIB) block"
    );

    // LIB advances to B2 — A's block is now strictly below LIB and its
    // store entry is pruned.
    let e3 = Event {
        block: b3,
        tip: header_id(3),
        tip_slot: 3,
        lib: header_id(2),
        lib_slot: 2,
    };
    let third = deliver(
        &e3,
        &mut state,
        &mut current_tip,
        &mut lib_slot,
        channel_id,
        &node,
    )
    .expect("processing B3 succeeds");
    assert!(
        third
            .channel_update
            .as_ref()
            .is_none_or(|u| u.orphaned.is_empty()),
        "a finalized inscription must never be reported orphaned; got {:?}",
        third.channel_update,
    );
    let s = state.as_mut().unwrap();
    assert_eq!(s.pending_publish_count(), 0);
    assert!(
        s.shed_off_branch_pending(header_id(3)).is_empty(),
        "nothing pending to shed: a resurrected finalized entry would be reported orphaned here"
    );
}

/// End-to-end wallet tracking through the live + finalized paths: a live
/// deposit surfaces as an unfinalized note, a live transfer re-keys it,
/// and the LIB backfill folds the result into the finalized base without
/// double-counting.
#[test]
fn wallet_tracks_deposit_and_transfer_through_finalization() {
    let channel_id = channel(0);
    let recreated = note_id(1010);
    let out_pk = zk_key(7);

    let dep = deposit_op(channel_id, 1, b"d");
    let dep_tx = tx_of(vec![Op::ChannelDeposit(dep.clone())]);
    let b1 = api_block(1, 0, 1, vec![dep_tx.clone()]);

    let transfer = transfer_op(channel_id, recreated, 50, out_pk);
    let out_id = transfer.utxos[0].id;
    let transfer_tx = tx_of(vec![Op::ChannelTransfer(transfer)]);
    let b2 = api_block(2, 1, 2, vec![transfer_tx]);
    let b3 = api_block(3, 2, 3, Vec::new());

    let recreated_note = DepositNote {
        note_id: recreated,
        value: 50,
        pk: out_pk,
    };
    let node = MockNode {
        immutable: vec![b1.clone(), b2.clone()],
        events: vec![(
            header_id(1),
            deposit_event(&dep_tx, &dep, 50, vec![recreated_note]),
        )],
        ..MockNode::default()
    };
    let mut state = None;
    let mut current_tip = None;
    let mut lib_slot = 0;

    deliver(
        &live_event(&b1),
        &mut state,
        &mut current_tip,
        &mut lib_slot,
        channel_id,
        &node,
    )
    .expect("processing B1 succeeds");
    let view = state
        .as_ref()
        .unwrap()
        .channel_wallet_view(Some(header_id(1)));
    assert!(view.finalized.is_empty());
    assert_eq!(view.unfinalized.len(), 1);
    assert_eq!(view.unfinalized[0].note_id, recreated);
    assert_eq!(view.unfinalized[0].value, 50);

    deliver(
        &live_event(&b2),
        &mut state,
        &mut current_tip,
        &mut lib_slot,
        channel_id,
        &node,
    )
    .expect("processing B2 succeeds");
    let view = state
        .as_ref()
        .unwrap()
        .channel_wallet_view(Some(header_id(2)));
    assert_eq!(view.unfinalized.len(), 1, "transfer re-keys the note");
    assert_eq!(view.unfinalized[0].note_id, out_id);
    assert_eq!(view.unfinalized[0].pk, out_pk);

    // LIB advances to B2: the immutable range folds into the base.
    let event = Event {
        block: b3,
        tip: header_id(3),
        tip_slot: 3,
        lib: header_id(2),
        lib_slot: 2,
    };
    let result = deliver(
        &event,
        &mut state,
        &mut current_tip,
        &mut lib_slot,
        channel_id,
        &node,
    )
    .expect("processing B3 succeeds");

    let view = state
        .as_ref()
        .unwrap()
        .channel_wallet_view(Some(header_id(3)));
    assert_eq!(view.finalized.len(), 1);
    assert_eq!(view.finalized[0].note_id, out_id);
    assert!(
        view.unfinalized.is_empty(),
        "folded overlay entries must not double-count"
    );

    // The finalized stream surfaces the transfer op to consumers.
    assert!(
        result
            .finalized_items
            .iter()
            .flat_map(|t| t.ops.refs().into_iter())
            .any(|op| matches!(op, FinalizedOp::ChannelTransfer(t) if t.op.channel_id == channel_id)),
        "finalized items carry the channel transfer"
    );
}

/// A block whose deposits the node does not know fails the event and changes
/// nothing.
#[test]
fn unknown_deposits_fail_the_event_without_a_trace() {
    let ch = channel(0);
    let dep = deposit_op(ch, 1, b"d");
    let dep_tx = tx_of(vec![Op::ChannelDeposit(dep)]);
    let b1 = api_block(1, 0, 1, vec![dep_tx]);
    let mut state = None;
    let mut current_tip = None;
    let mut lib_slot = 0;
    let failed = deliver(
        &live_event(&b1),
        &mut state,
        &mut current_tip,
        &mut lib_slot,
        ch,
        &MockNode::default(),
    );
    assert!(matches!(failed, Err(Error::Network(_))), "got {failed:?}");
    assert!(state.is_none());
    assert_eq!(current_tip, None);
    assert_eq!(lib_slot, 0);
}

/// Filled-in blocks are kept up to the first whose deposits are not known.
#[test]
fn a_gap_is_filled_up_to_the_first_unknown_deposit() {
    let ch = channel(0);
    let (a_id, a_tx) = ins(ch, MsgId::root(), b"a");
    let dep_tx = tx_of(vec![Op::ChannelDeposit(deposit_op(ch, 1, b"d"))]);
    let b1 = api_block(1, 0, 1, Vec::new());
    let b2 = api_block(2, 1, 2, vec![a_tx]);
    let b3 = api_block(3, 2, 3, vec![dep_tx]);
    let b4 = api_block(4, 3, 4, Vec::new());
    let node = MockNode { blocks: vec![b2, b3], ..MockNode::default() };
    let mut state = None;
    let r = drive_with(&node, &mut state, ch, &[live_event(&b1), live_event(&b4)]);
    assert!(r[1].result.deposits.is_empty());
    let s = state.as_ref().unwrap();
    assert!(s.has_block(&header_id(2)));
    assert!(!s.has_block(&header_id(3)));
    assert_eq!(s.channel_tip_at(header_id(2)), a_id);
}

/// Deposits come out in order: those of the filled-in blocks first.
#[test]
fn gap_deposits_come_before_the_live_ones() {
    let ch = channel(0);
    let (d2, d3) = (deposit_op(ch, 2, b"2"), deposit_op(ch, 3, b"3"));
    let (id2, id3) = (d2.op_id, d3.op_id);
    let tx2 = tx_of(vec![Op::ChannelDeposit(d2.clone())]);
    let tx3 = tx_of(vec![Op::ChannelDeposit(d3.clone())]);
    let node = MockNode {
        blocks: vec![api_block(2, 1, 2, vec![tx2.clone()])],
        events: vec![
            (header_id(2), deposit_event(&tx2, &d2, 5, vec![])),
            (header_id(3), deposit_event(&tx3, &d3, 6, vec![])),
        ],
        ..MockNode::default()
    };
    let b1 = api_block(1, 0, 1, Vec::new());
    let b3 = api_block(3, 2, 3, vec![tx3]);
    let r = drive_with(&node, &mut None, ch, &[live_event(&b1), live_event(&b3)]);
    let seen: Vec<OpId> = r[1].result.deposits.iter().map(|d| d.op_id).collect();
    assert_eq!(seen, vec![id2, id3]);
    let amounts: Vec<u64> = r[1].result.deposits.iter().map(|d| d.amount).collect();
    assert_eq!(amounts, vec![5, 6]);
}

/// Inscriptions that do not chain inside a block are not in order.
#[test]
fn a_block_out_of_order_is_told() {
    let ch = channel(0);
    let (a_id, a) = ins(ch, MsgId::root(), b"a");
    let (_, b) = ins(ch, a_id, b"b");
    let (_, stray) = ins(ch, MsgId::root(), b"stray");
    assert!(block_in_order(&[a.clone(), b.clone()], ch));
    assert!(!block_in_order(&[b, a.clone()], ch));
    assert!(!block_in_order(&[a.clone(), stray.clone()], ch));
    assert!(block_in_order(&[a, stray], channel(9)));
}

#[test]
fn sequencer_extract_deposits_returns_matching_amount() {
    let channel_id = channel(0);
    let other_channel = channel(1);

    let deposit_for_us = deposit_op(channel_id, 1, b"to Alice");
    let deposit_other_channel = deposit_op(other_channel, 2, b"to Bob");
    let our_op_id = deposit_for_us.op_id;

    let tx = tx_of(vec![
        Op::ChannelDeposit(deposit_for_us.clone()),
        Op::ChannelDeposit(deposit_other_channel),
    ]);
    let tx_hash = tx.hash;

    let amounts = events_of(vec![deposit_event_entry(tx_hash, our_op_id, 1234)]);

    let deposits = extract_deposits_for_test(std::slice::from_ref(&tx), channel_id, &amounts);
    assert_eq!(
        deposits.len(),
        1,
        "only deposit on our channel is extracted"
    );
    let d = &deposits[0];
    assert_eq!(d.channel_id, channel_id);
    assert_eq!(d.tx_hash, tx_hash);
    assert_eq!(d.op_id, our_op_id);
    assert_eq!(d.amount, 1234);
    assert_eq!(d.metadata, Arc::new(b"to Alice".to_vec()));
    assert_eq!(d.inputs, deposit_for_us.inputs);
}

#[test]
fn sequencer_extract_deposits_preserves_tx_and_op_order() {
    let channel_id = channel(0);
    let d1 = deposit_op(channel_id, 1, b"first");
    let d2 = deposit_op(channel_id, 2, b"second");
    let d3 = deposit_op(channel_id, 3, b"third");
    let id1 = d1.op_id;
    let id2 = d2.op_id;
    let id3 = d3.op_id;

    let tx_a = tx_of(vec![Op::ChannelDeposit(d1), Op::ChannelDeposit(d2)]);
    let tx_b = tx_of(vec![Op::ChannelDeposit(d3)]);
    let hash_a = tx_a.hash;
    let hash_b = tx_b.hash;

    let amounts = events_of(vec![
        deposit_event_entry(hash_a, id1, 10),
        deposit_event_entry(hash_a, id2, 20),
        deposit_event_entry(hash_b, id3, 30),
    ]);

    let deposits = extract_deposits_for_test(&[tx_a, tx_b], channel_id, &amounts);
    let metadata_in_order: Vec<&[u8]> =
        deposits.iter().map(|d| d.metadata.as_slice()).collect();
    assert_eq!(
        metadata_in_order,
        vec![b"first" as &[u8], b"second", b"third"],
        "deposits emitted in tx/op order across transactions"
    );
}

#[test]
fn sequencer_extract_finalized_items_interleaves_deposit_then_inscription_in_same_tx() {
    let channel_id = channel(0);
    let dep = deposit_op(channel_id, 1, b"deposit-meta");
    let dep_op_id = dep.op_id;
    let inscribe = inscribe_op(channel_id, MsgId::root(), b"");

    let tx =
        tx_of(vec![Op::ChannelDeposit(dep), Op::ChannelInscribe(inscribe)]);
    let tx_hash = tx.hash;

    let amounts = events_of(vec![deposit_event_entry(tx_hash, dep_op_id, 500)]);

    let items = extract_finalized_items(
        std::slice::from_ref(&tx),
        channel_id,
        42,
        &amounts,
    );

    assert_eq!(items.len(), 1, "one FinalizedTx for the single Mantle tx");
    assert_eq!(items[0].tx_hash, tx_hash);
    assert_eq!(items[0].ops.refs().len(), 2);
    assert!(matches!(items[0].ops.refs()[0], FinalizedOp::Deposit(_)));
    assert!(matches!(items[0].ops.refs()[1], FinalizedOp::Inscription(_)));
}

#[test]
fn sequencer_extract_finalized_items_surfaces_standalone_withdraw() {
    let channel_id = channel(0);
    let other_channel = channel(9);
    let outputs =
        Outputs::new(vec![Note { value: 42, pk: ZkPublicKey::from_bytes([0u8; 32]) }]);
    let withdraw_for_us = ChannelWithdrawOp {
        channel_id,
        inputs: Inputs::new(Vec::new()),
        outputs: outputs.clone(),
        withdraw_nonce: 7,
    };
    let withdraw_other = ChannelWithdrawOp {
        channel_id: other_channel,
        inputs: Inputs::new(Vec::new()),
        outputs,
        withdraw_nonce: 0,
    };

    let tx = tx_of(vec![
        Op::ChannelWithdraw(withdraw_for_us),
        Op::ChannelWithdraw(withdraw_other),
    ]);
    let tx_hash = tx.hash;

    let items = extract_finalized_items(
        std::slice::from_ref(&tx),
        channel_id,
        7,
        &KeyMap::new(),
    );

    assert_eq!(items.len(), 1);
    assert_eq!(items[0].tx_hash, tx_hash);
    assert_eq!(items[0].ops.refs().len(), 1, "only our channel's withdraw");
    match &items[0].ops.refs()[0] {
        FinalizedOp::Withdraw(w) => {
            assert_eq!(w.tx_hash, tx_hash);
            assert_eq!(w.op.channel_id, channel_id);
            assert_eq!(w.op.withdraw_nonce, 7);
        }
        other => panic!("expected Withdraw, got {other:?}"),
    }
}

/// The first bundle without its inputs goes, and all that is chained behind it;
/// what stands before it stays, and a second pass finds nothing.
#[test]
fn a_bundle_without_inputs_takes_the_rest_of_the_chain() {
    let ch = channel(0);
    let genesis = header_id(0);
    let mut state = TxState::new(genesis, MsgId::root());
    let (a_id, a_tx) = ins(ch, MsgId::root(), b"a");
    let pin_op = inscribe_op(ch, a_id, b"pin");
    let gone = note_id(77);
    let pin_tx = tx_of(vec![
        Op::ChannelInscribe(pin_op.clone()),
        Op::ChannelTransfer(transfer_op(ch, gone, 50, zk_key(7))),
    ]);
    let (c_id, c_tx) = ins(ch, pin_op.id, b"c");
    let text = |s: &[u8]| Inscription::new(s.to_vec());
    state.submit_inscription(a_tx.clone(), MsgId::root(), a_id, text(b"a")).unwrap();
    state
        .submit_pin_deposit(
            pin_tx.clone(),
            a_id,
            pin_op.id,
            pin_op.inscription,
            Inputs::new(vec![gone]),
        )
        .unwrap();
    state.submit_inscription(c_tx.clone(), pin_op.id, c_id, text(b"c")).unwrap();
    let shed: Vec<TxHash> = state
        .shed_bundles_with_missing_inputs(genesis, ch)
        .iter()
        .map(|tx| tx.tx_hash())
        .collect();
    assert_eq!(shed, vec![pin_tx.hash, c_tx.hash]);
    assert!(state.is_tracked(&a_tx.hash));
    assert!(!state.is_tracked(&pin_tx.hash) && !state.is_tracked(&c_tx.hash));
    assert!(state.shed_bundles_with_missing_inputs(genesis, ch).is_empty());
}
