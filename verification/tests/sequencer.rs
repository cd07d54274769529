use std::sync::Arc;

use zone_sdk::adapter::{BlockDepositEvent, DepositOpKey, EventsReply};
use zone_sdk::collections::KeySet;
use zone_sdk::ids::{
    ChannelId, Ed25519PublicKey, HeaderId, MsgId, NoteId, OpId, TxHash, ZkPublicKey,
};
use zone_sdk::mantle::{
    ChannelConfigOp, ChannelWithdrawOp, DepositOp, Inputs, Inscription, InscriptionOp, Note, Op,
    Outputs, SignedOps,
};
use zone_sdk::sequencer::backfill::BackfillStep;
use zone_sdk::sequencer::block_event::{finalized_range, WalkBack};
use zone_sdk::sequencer::block_fetch::{Block, BlockEvent, FetchedBlock};
use zone_sdk::sequencer::checkpoint::{
    build_checkpoint, restore_pending_tx, restored_pending_channel_tip, track_pending_tx,
};
use zone_sdk::sequencer::events::Event;
use zone_sdk::sequencer::publish::{admission_of, Admission, PublishReceipt, Request};
use zone_sdk::sequencer::drive::Step;
use zone_sdk::sequencer::requests::{ActorRequest, Answer, ChannelSettings, Made};
use zone_sdk::sequencer::resubmit::batch_results;
use zone_sdk::sequencer::state::lineage::ChannelUpdateInfo;
use zone_sdk::sequencer::state::TxState;
use zone_sdk::sequencer::state_model::PendingBundle;
use zone_sdk::sequencer::turn::{Moment, Rotation};
use zone_sdk::sequencer::tx_builder::{assemble_channel_config_tx, prepare_tx, sign_prepared};
use zone_sdk::sequencer::types::{
    ChannelState, ChannelUpdate, ChannelUpdateTx, DepositNote, Error, FinalizedOp, FinalizedTx,
    InscriptionInfo, PublishedTx, SequencerConfig, TxSource, TxStatus, WithdrawArg,
};
use zone_sdk::sequencer::zone_sequencer::ZoneSequencer;
use zone_sdk::mantle::{Ed25519Signature, OpProof};
use zone_sdk::ids::Bytes32;
use zone_sdk::time::{Duration, Instant, SystemTime};

fn digest(parts: &[&[u8]]) -> [u8; 32] {
    let mut acc: u64 = 0xcbf2_9ce4_8422_2325;
    for part in parts {
        for byte in *part {
            acc = (acc ^ u64::from(*byte)).wrapping_mul(0x100_0000_01b3);
        }
        acc = acc.rotate_left(7) ^ part.len() as u64;
    }
    let mut out = [0u8; 32];
    for i in 0..4 {
        acc = acc.wrapping_mul(6_364_136_223_846_793_005).wrapping_add(1_442_695_040_888_963_407);
        out[i * 8..i * 8 + 8].copy_from_slice(&acc.to_be_bytes());
    }
    out
}

fn tagged(n: u8) -> [u8; 32] {
    let mut bytes = [0u8; 32];
    bytes[0] = n;
    bytes
}

fn header_id(n: u8) -> HeaderId {
    HeaderId::from_bytes(tagged(n))
}

fn channel(n: u8) -> ChannelId {
    ChannelId::from_bytes([n; 32])
}

fn key(n: u8) -> Ed25519PublicKey {
    Ed25519PublicKey::from_bytes([n; 32])
}

fn note_id(n: u64) -> NoteId {
    NoteId::from_bytes(digest(&[b"note", &n.to_be_bytes()]))
}

fn inscribe_op(channel_id: ChannelId, parent: MsgId, payload: &[u8]) -> InscriptionOp {
    let id = MsgId::from_bytes(
        digest(&[b"inscribe", &channel_id.0.to_bytes(), &parent.0.to_bytes(), payload]),
    );
    InscriptionOp {
        channel_id,
        inscription: Inscription::new(payload.to_vec()),
        parent,
        signer: key(0),
        id,
    }
}

fn config_op(channel_id: ChannelId, parent: MsgId, timeframe: u32) -> ChannelConfigOp {
    let id = MsgId::from_bytes(
        digest(&[b"config", &parent.0.to_bytes(), &timeframe.to_be_bytes()]),
    );
    ChannelConfigOp {
        channel: channel_id,
        parent,
        keys: Arc::new(vec![key(0)]),
        posting_timeframe: timeframe,
        posting_timeout: 0,
        configuration_threshold: 1,
        transfer_threshold: 1,
        id,
    }
}

fn op_bytes(op: &Op) -> Vec<u8> {
    match op {
        Op::ChannelInscribe(op) => op.id.0.to_bytes(),
        Op::ChannelConfig(op) => op.id.0.to_bytes(),
        Op::ChannelDeposit(op) => op.op_id.0.to_bytes(),
        Op::ChannelWithdraw(op) => {
            let inputs = op.inputs.ids.iter().flat_map(|id| id.0.to_bytes());
            inputs.chain(op.withdraw_nonce.to_be_bytes()).collect()
        },
        _ => Vec::new(),
    }
}

fn tx_of(ops: Vec<Op>) -> SignedOps {
    let ids: Vec<Vec<u8>> = ops.iter().map(op_bytes).collect();
    let parts: Vec<&[u8]> = ids.iter().map(|id| id.as_slice()).collect();
    SignedOps::new(TxHash::from_bytes(digest(&parts)), ops, vec![])
}

fn inscribe_tx(channel_id: ChannelId, parent: MsgId, payload: &[u8]) -> (MsgId, SignedOps) {
    let op = inscribe_op(channel_id, parent, payload);
    (op.id, tx_of(vec![Op::ChannelInscribe(op)]))
}

#[derive(Clone)]
struct ApiBlock {
    id: HeaderId,
    parent: HeaderId,
    slot: u64,
    transactions: Vec<SignedOps>,
}

impl ApiBlock {
    fn read(&self) -> Block {
        Block {
            id: self.id,
            parent_block: self.parent,
            slot: self.slot,
            transactions: self.transactions.clone(),
        }
    }
}

fn api_block(id: u8, parent: u8, slot: u64, transactions: Vec<SignedOps>) -> ApiBlock {
    ApiBlock { id: header_id(id), parent: header_id(parent), slot, transactions }
}

/// The node, the clock and the drive loop around a sequencer.
struct Driver {
    sequencer: ZoneSequencer,
    channel_state: Option<ChannelState>,
    blocks: Vec<ApiBlock>,
    immutable: Vec<ApiBlock>,
    events: Vec<(HeaderId, DepositOpKey, DepositNote)>,
    lib: HeaderId,
    lib_slot: u64,
    slot: u64,
    posted: Vec<TxHash>,
    seen: Vec<Event>,
}

fn single_key_channel_state() -> ChannelState {
    ChannelState {
        accredited_keys: Arc::new(vec![key(0)]),
        configuration_threshold: 1,
        transfer_threshold: 1,
        withdrawal_nonce: 7,
        tip_message: MsgId::root(),
        posting_timeframe: 0,
        posting_timeout: 0,
    }
}

const SLOT_NANOS: i128 = 1_000_000_000;

impl Driver {
    fn new(sequencer: ZoneSequencer, channel_state: Option<ChannelState>) -> Driver {
        Driver {
            sequencer,
            channel_state,
            blocks: Vec::new(),
            immutable: Vec::new(),
            events: Vec::new(),
            lib: header_id(0),
            lib_slot: 0,
            slot: 0,
            posted: Vec::new(),
            seen: Vec::new(),
        }
    }

    fn now(&self) -> Instant {
        Instant { nanos: self.slot as i128 * SLOT_NANOS }
    }

    fn system_now(&self) -> SystemTime {
        SystemTime { nanos: self.slot as i128 * SLOT_NANOS }
    }

    /// Rotates the keys by the timeframe; a single fixed key without one.
    fn moment(&self) -> Moment {
        let slot = self.sequencer.current_slot(self.system_now(), self.now());
        let rotation = match (&self.sequencer.channel_state, slot) {
            (Some(channel), Some(slot)) => {
                let frame = channel.posting_timeframe as u64;
                if frame == 0 {
                    Some(Rotation {
                        authorized_key_index: 0,
                        turn_start: 0,
                        next_boundary: None,
                    })
                } else {
                    let turn = slot / frame;
                    Some(Rotation {
                        authorized_key_index: (turn % channel.accredited_keys.len() as u64) as u16,
                        turn_start: turn * frame,
                        next_boundary: Some((turn + 1) * frame),
                    })
                }
            },
            _ => None,
        };
        Moment { current_slot: slot, rotation }
    }

    fn replies(&self, id: HeaderId) -> EventsReply {
        let events: Vec<BlockDepositEvent> = self
            .events
            .iter()
            .filter(|(block, _, _)| *block == id)
            .map(|(_, key, note)| BlockDepositEvent {
                key: *key,
                amount: note.value,
                notes: Arc::new(vec![*note]),
            })
            .collect();
        if events.is_empty() {
            EventsReply::Absent
        } else {
            EventsReply::Events(events)
        }
    }

    fn fetched(&self, from: u64, to: u64) -> Vec<FetchedBlock> {
        self.immutable
            .iter()
            .filter(|b| from <= b.slot && b.slot <= to)
            .map(|b| FetchedBlock { block: b.read(), events: self.replies(b.id) })
            .collect()
    }

    fn post(&mut self, batch: Vec<(TxHash, SignedOps)>) {
        if batch.is_empty() {
            return;
        }
        self.posted.extend(batch.iter().map(|(hash, _)| *hash));
        let results = batch_results(&batch, batch.len());
        self.sequencer.posts_completed(&results, true);
    }

    fn connect(&mut self) {
        if self.sequencer.slot_clock.is_none() {
            let (system_now, now) = (self.system_now(), self.now());
            self.sequencer.init_state(
                self.lib,
                self.channel_state.clone(),
                self.slot,
                system_now,
                now,
            );
            let moment = self.moment();
            let batch = self.sequencer.publish_channel_view(&moment);
            self.post(batch);
        }
        self.sequencer.setup_backfill_range(self.lib_slot);
        self.backfill();
    }

    fn backfill(&mut self) {
        loop {
            match self.sequencer.next_backfill() {
                BackfillStep::Fetch { from, to } => {
                    let fetched = self.fetched(from, to);
                    self.drain();
                    let event = self.sequencer.process_incremental_backfill(&fetched, to).unwrap();
                    self.seen.push(event);
                },
                _ => return,
            }
        }
    }

    fn drain(&mut self) {
        while let Some(event) = self.sequencer.pop_event() {
            self.seen.push(event);
        }
    }

    /// Delivers a block at the tip; a missing ancestor drops the stream.
    fn deliver(&mut self, block: &ApiBlock) -> Result<(), ()> {
        self.slot = self.slot.max(block.slot);
        let event = BlockEvent {
            block: block.read(),
            tip: block.id,
            tip_slot: block.slot,
            lib: self.lib,
            lib_slot: self.lib_slot,
        };
        let state_lib = self.sequencer.state.as_ref().map(|s| s.lib());
        let finalized =
            match finalized_range(state_lib, self.sequencer.lib_slot, self.lib, self.lib_slot) {
                Some((from, to)) => self.fetched(from, to),
                None => Vec::new(),
            };
        let mut settled = KeySet::new();
        for b in &finalized {
            settled.insert(b.block.id);
        }
        let lib = state_lib.unwrap_or(self.lib);
        let mut walk = WalkBack::start(block.parent);
        while let Some(id) = walk.next(self.sequencer.state.as_ref(), &settled, lib) {
            match self.blocks.iter().find(|b| b.id == id) {
                Some(b) => walk.fetched(b.read()),
                None => {
                    let moment = self.moment();
                    self.sequencer.handle_stream_drop(&moment);
                    self.drain();
                    return Err(());
                },
            }
        }
        let backfill: Vec<FetchedBlock> = walk
            .finish()
            .into_iter()
            .map(|block| {
                let events = self.replies(block.id);
                FetchedBlock { block, events }
            })
            .collect();
        let live = self.replies(block.id);
        let now = self.now();
        let result = self
            .sequencer
            .process_block_event(
                event,
                &finalized,
                backfill,
                &live,
                self.channel_state.clone(),
                now,
            )
            .unwrap();
        let moment = self.moment();
        let (event, batch) = self.sequencer.finish_block_processing(result, &moment);
        self.seen.extend(event);
        self.post(batch);
        self.drain();
        Ok(())
    }

    fn drop_stream(&mut self) {
        let moment = self.moment();
        self.sequencer.handle_stream_drop(&moment);
        self.drain();
    }

    fn publish(&mut self, payload: &[u8]) -> Result<(MsgId, TxHash, PublishReceipt), Error> {
        self.sequencer.require_connected()?;
        let parent = self.sequencer.publish_parent();
        let (id, tx) = inscribe_tx(self.sequencer.channel_id, parent, payload);
        let hash = tx.hash;
        let moment = self.moment();
        let receipt = self.sequencer.accept_inscription(
            tx,
            parent,
            id,
            Inscription::new(payload.to_vec()),
            &moment,
        )?;
        if receipt.post {
            self.posted.push(hash);
            self.sequencer.posts_completed(&vec![(hash, true)], false);
        }
        Ok((id, hash, receipt))
    }

    fn last_update(&self) -> &ChannelUpdate {
        self.seen
            .iter()
            .rev()
            .find_map(|event| match event {
                Event::BlocksProcessed { channel_update, .. } => Some(channel_update),
                _ => None,
            })
            .unwrap()
    }

    fn last_checkpoint(&self) -> zone_sdk::sequencer::types::SequencerCheckpoint {
        self.sequencer.checkpoint().unwrap()
    }
}

/// Connected, caught up, and one empty block in.
fn ready_driver(channel_state: Option<ChannelState>, own: Ed25519PublicKey) -> Driver {
    let mut driver = Driver::new(ZoneSequencer::init(channel(0), own, None), channel_state);
    driver.connect();
    driver.deliver(&api_block(1, 0, 1, Vec::new())).unwrap();
    assert!(driver.sequencer.is_ready());
    driver
}

fn msg_ids(txs: &[ChannelUpdateTx]) -> Vec<MsgId> {
    txs.iter().filter_map(|tx| tx.inscription().map(|info| info.this_msg)).collect()
}

fn hashes(txs: &[ChannelUpdateTx]) -> Vec<TxHash> {
    txs.iter().map(|tx| tx.tx_hash()).collect()
}

fn kinds(events: &[Event]) -> Vec<&'static str> {
    events
        .iter()
        .map(|event| match event {
            Event::Ready => "ready",
            Event::BlocksProcessed { .. } => "block",
            Event::TurnNotification { notification } if notification.our_turn_to_write => {
                "our turn"
            },
            Event::TurnNotification { .. } => "not our turn",
            Event::MempoolPending(_) => "mempool",
        })
        .collect()
}

#[test]
fn actor_prepare_submit_deposit_and_inscription() {
    let channel_id = channel(0);
    let mut driver = ready_driver(Some(single_key_channel_state()), key(0));
    let deposit = Op::ChannelDeposit(DepositOp {
        channel_id,
        inputs: Inputs::new(vec![note_id(1)]),
        metadata: Arc::new(b"to Alice".to_vec()),
        op_id: OpId::from_bytes([8u8; 32]),
    });
    let parent = driver.sequencer.publish_parent();
    let msg_id = inscribe_op(channel_id, parent, b"Mint 10 to Alice").id;
    let ops = prepare_tx(
        vec![deposit.clone()],
        channel_id,
        key(0),
        Inscription::new(b"Mint 10 to Alice".to_vec()),
        parent,
        msg_id,
    );
    assert_eq!(ops.len(), 2);
    assert_eq!(ops[0], deposit);
    assert!(matches!(ops[1], Op::ChannelInscribe(_)));

    let signed_tx = tx_of(ops);
    let receipt = driver.sequencer.submit_signed_tx(signed_tx.clone(), msg_id).unwrap();
    assert_eq!(receipt.inscription_id, signed_tx.hash);
    assert_eq!(receipt.checkpoint.last_msg_id, msg_id);
    assert!(receipt.post);
}

/// A prepared transaction pins the parent; a publish in between takes that
/// position, so the stale one is refused.
#[test]
fn submit_signed_tx_refuses_a_parent_with_a_pending_child() {
    let mut driver = ready_driver(Some(single_key_channel_state()), key(0));
    let parent = driver.sequencer.publish_parent();
    let (msg_id, prepared) = inscribe_tx(channel(0), parent, b"prepared first");
    driver.publish(b"published in between").unwrap();
    let result = driver.sequencer.submit_signed_tx(prepared, msg_id);
    assert!(
        matches!(result, Err(Error::ChannelStateChanged(_))),
        "stale parent must be refused, got {result:?}"
    );
    assert_eq!(driver.sequencer.state.as_ref().unwrap().pending_publish_count(), 1);
}

/// A gap block's deposit surfaces once, in order, even when the first backfill
/// failed and the chain switched to another fork and back.
#[test]
fn gap_deposits_surface_after_a_failed_backfill_and_a_fork_switch() {
    // G(0) <- B1(A) <- B2(Y, D2) <- B3(D3)   canonical in the end
    //             \- C(Z)                    canonical in between
    let ch = channel(0);
    let deposit = |n: u8| {
        let op = DepositOp {
            channel_id: ch,
            inputs: Inputs::new(vec![note_id(n as u64)]),
            metadata: Arc::new(vec![n]),
            op_id: OpId::from_bytes(digest(&[b"deposit", &[n]])),
        };
        let op_id = op.op_id;
        let tx = tx_of(vec![Op::ChannelDeposit(op)]);
        let key = DepositOpKey { tx_hash: tx.hash, op_id };
        let note = DepositNote {
            note_id: note_id(1000 + n as u64),
            value: 50,
            pk: ZkPublicKey::from_bytes([7u8; 32]),
        };
        (op_id, tx, key, note)
    };
    let (a_id, a) = inscribe_tx(ch, MsgId::root(), b"a");
    let (y_id, y) = inscribe_tx(ch, a_id, b"y");
    let (z_id, z) = inscribe_tx(ch, a_id, b"z");
    let (d2, d2_tx, d2_key, d2_note) = deposit(2);
    let (d3, d3_tx, d3_key, d3_note) = deposit(3);
    let b1 = api_block(1, 0, 1, vec![a]);
    let b2 = api_block(2, 1, 2, vec![y, d2_tx]);
    let c = api_block(9, 1, 2, vec![z]);
    let b3 = api_block(3, 2, 3, vec![d3_tx]);

    let mut driver = Driver::new(ZoneSequencer::init(ch, key(0), None), None);
    driver.events = vec![(header_id(2), d2_key, d2_note), (header_id(3), d3_key, d3_note)];
    driver.connect();
    driver.deliver(&b1).unwrap();
    driver.deliver(&b3).unwrap_err();
    assert!(driver.seen.iter().all(|event| match event {
        Event::BlocksProcessed { channel_update, .. } => {
            !msg_ids(channel_update.adopted()).contains(&y_id)
        },
        _ => true,
    }));
    driver.connect();
    driver.deliver(&c).unwrap();
    assert_eq!(msg_ids(driver.last_update().adopted()), vec![z_id]);
    driver.blocks = vec![b2];
    driver.deliver(&b3).unwrap();

    assert_eq!(driver.sequencer.current_tip, Some(header_id(3)));
    let mut before = Vec::new();
    let mut gap = None;
    for event in &driver.seen {
        let Event::BlocksProcessed { channel_update, deposits, .. } = event else {
            continue;
        };
        if deposits.iter().any(|d| d.op_id == d2) {
            assert!(gap.is_none(), "the gap's deposit surfaces once");
            gap = Some((channel_update, deposits));
        } else if gap.is_none() {
            before.push(channel_update);
        }
    }
    let (update, deposits) = gap.expect("B3 lands after the reconnect and the fork switch");
    assert!(
        before.iter().all(|u| !msg_ids(u.adopted()).contains(&y_id)),
        "Y is only adopted with the gap"
    );
    let switched_to_fork = before.last().expect("C was processed before B3");
    assert_eq!(msg_ids(switched_to_fork.adopted()), vec![z_id]);
    let observed: Vec<OpId> = deposits.iter().map(|d| d.op_id).collect();
    assert_eq!(observed, vec![d2, d3], "gap deposit first, then the live block's");
    assert_eq!(msg_ids(update.adopted()), vec![y_id]);
    assert_eq!(msg_ids(update.orphaned()), vec![z_id]);
}

/// While the node is down a publish fails fast; once a block came in again it
/// is accepted and posted.
#[test]
fn client_publish_fails_fast_during_reconnect_and_recovers() {
    let mut driver = ready_driver(Some(single_key_channel_state()), key(0));
    assert!(driver.sequencer.turn.our_turn_to_write, "single key: our turn after Ready");
    driver.drop_stream();
    assert!(!driver.sequencer.turn.our_turn_to_write);
    assert!(driver.sequencer.is_ready(), "readiness is latched");
    let result = driver.publish(b"during-reconnect");
    assert_eq!(result, Err(Error::Unavailable { reason: "node disconnected" }));

    driver.connect();
    driver.seen.clear();
    driver.deliver(&api_block(2, 1, 2, Vec::new())).unwrap();
    assert_eq!(kinds(&driver.seen), vec!["ready", "block", "our turn"]);
    let (_, hash, _) = driver.publish(b"after-reconnect").unwrap();
    assert_eq!(driver.posted, vec![hash]);
}

/// The turn is told once, after the block that changed it.
#[test]
fn next_event_yields_turn_notifications() {
    let mut driver = ready_driver(Some(single_key_channel_state()), key(0));
    assert_eq!(
        kinds(&driver.seen),
        vec!["not our turn", "block", "ready", "block", "our turn"]
    );
    driver.seen.clear();
    driver.drop_stream();
    assert_eq!(kinds(&driver.seen), vec!["not our turn"]);
}

/// Two keys that rotate every slot alternate, with no block in between.
#[test]
fn turn_notification_fires_on_timeframe_boundary_without_blocks() {
    let mut state = single_key_channel_state();
    state.accredited_keys = Arc::new(vec![key(0), key(1)]);
    state.posting_timeframe = 1;
    let mut driver = ready_driver(Some(state), key(0));
    driver.seen.clear();
    let mut turns = Vec::new();
    while turns.len() < 4 {
        driver.slot = driver.sequencer.turn_boundary.expect("rotation has a boundary");
        let moment = driver.moment();
        driver.sequencer.publish_channel_view(&moment);
        driver.drain();
        for event in driver.seen.drain(..) {
            if let Event::TurnNotification { notification } = event {
                turns.push(notification.our_turn_to_write);
            }
        }
    }
    assert!(turns.windows(2).all(|pair| pair[0] != pair[1]), "alternates: {turns:?}");
}

/// With a publish margin the turn closes before the rotation, at the slot at
/// which publishing is refused.
#[test]
fn turn_notification_closes_with_the_publish_margin() {
    let mut state = single_key_channel_state();
    state.posting_timeframe = 4;
    let config = SequencerConfig { min_slots_remaining_in_turn: 3, ..SequencerConfig::default() };
    let sequencer = ZoneSequencer::init_with_config(channel(0), key(0), config, None);
    let mut driver = Driver::new(sequencer, Some(state));
    driver.connect();
    driver.deliver(&api_block(1, 0, 1, Vec::new())).unwrap();
    driver.seen.clear();
    let mut seen = 0;
    while seen < 4 {
        driver.slot = driver.sequencer.turn_boundary.unwrap();
        let moment = driver.moment();
        driver.sequencer.publish_channel_view(&moment);
        driver.drain();
        for event in std::mem::take(&mut driver.seen) {
            let Event::TurnNotification { notification } = event else {
                continue;
            };
            assert_eq!(
                notification.our_turn_to_write,
                driver.sequencer.can_publish_inscription_now(&driver.moment())
            );
            let current = notification.current_slot.unwrap();
            let expected = if notification.our_turn_to_write {
                notification.starting_slot.unwrap()
            } else {
                notification.ends_at_slot.unwrap() - 3 + 1
            };
            assert_eq!(current, expected, "flipped at the wrong slot: {notification:?}");
            seen += 1;
        }
    }
}

/// A bundle chains the next publish off its last inscription.
#[test]
fn publish_after_bundle_chains_on_the_bundle_inscription_tip() {
    let mut driver = ready_driver(None, key(0));
    let inscribe = inscribe_op(channel(0), MsgId::root(), b"bundle");
    let inscribe_msg = inscribe.id;
    let bundle = tx_of(vec![
        Op::ChannelInscribe(inscribe),
        Op::ChannelConfig(config_op(channel(0), MsgId::root(), 0)),
    ]);
    driver.sequencer.submit_signed_tx(bundle, inscribe_msg).unwrap();
    assert_eq!(driver.sequencer.publish_parent(), inscribe_msg);
    let (_, hash, _) = driver.publish(b"after-bundle").unwrap();
    let pending = driver.sequencer.state.as_ref().unwrap().pending_inscription(&hash).unwrap();
    assert_eq!(pending.parent_msg, inscribe_msg);
}

#[test]
fn config_only_block_orphans_pending_inscription_but_keeps_message_tip() {
    let mut driver = ready_driver(None, key(0));
    let (_, p_hash, _) = driver.publish(b"survives-config").unwrap();
    let config_tx = tx_of(vec![Op::ChannelConfig(config_op(channel(0), MsgId::root(), 0))]);
    let config_hash = config_tx.hash;
    driver.sequencer.take_statuses();
    driver.deliver(&api_block(2, 1, 2, vec![config_tx])).unwrap();
    let statuses = driver.sequencer.take_statuses();
    assert!(statuses
        .iter()
        .any(|s| s.tx_hash == config_hash && s.status == TxStatus::OnChain(TxSource::Other)));
    assert!(statuses
        .iter()
        .any(|s| s.tx_hash == p_hash && s.status == TxStatus::Orphaned(TxSource::Local)));

    let update = driver.last_update();
    assert!(update.orphaned().iter().any(|tx| tx.tx_hash() == p_hash));
    assert!(update
        .canonical_chain()
        .is_some_and(|chain| chain.iter().all(|tx| tx.tx_hash() != p_hash)));
    let checkpoint = driver.last_checkpoint();
    assert!(checkpoint.pending_txs.iter().all(|(h, _)| *h != p_hash));
    assert_eq!(checkpoint.last_msg_id, MsgId::root(), "the pointer resets to the message tip");
}

fn withdraw_bundle(channel_id: ChannelId) -> (ChannelWithdrawOp, SignedOps) {
    let withdraw_op = ChannelWithdrawOp {
        channel_id,
        inputs: Inputs::new(vec![note_id(0)]),
        outputs: Outputs::empty(),
        withdraw_nonce: 0,
    };
    let tx = tx_of(vec![
        Op::ChannelWithdraw(withdraw_op.clone()),
        Op::ChannelInscribe(inscribe_op(channel_id, MsgId::root(), b"hello")),
    ]);
    (withdraw_op, tx)
}

#[test]
fn track_pending_tx_classifies_atomic_bundle_with_withdraws() {
    let channel_id = channel(1);
    let (withdraw_op, tx) = withdraw_bundle(channel_id);
    let tx_hash = tx.hash;
    let mut state = TxState::new(header_id(0), MsgId::root());
    track_pending_tx(&mut state, tx, channel_id).unwrap();

    let pending = state.pending_inscription(&tx_hash).expect("bundle is pending");
    let PendingBundle::Withdraw { withdraws, .. } = &pending.bundle else {
        panic!("bundle should be a withdraw bundle");
    };
    assert_eq!(withdraws.refs().len(), 1, "bundle should carry one withdraw");
    assert_eq!(withdraws.refs()[0].op, withdraw_op);
    assert!(!state.pending_other_contains(&tx_hash), "bundle should not be opaque");
}

#[test]
fn track_pending_tx_classifies_plain_inscription_with_none_withdraws() {
    let channel_id = channel(2);
    let (_, tx) = inscribe_tx(channel_id, MsgId::root(), b"hello");
    let tx_hash = tx.hash;
    let mut state = TxState::new(header_id(0), MsgId::root());
    track_pending_tx(&mut state, tx, channel_id).unwrap();
    let pending = state.pending_inscription(&tx_hash).expect("plain inscription is pending");
    assert!(matches!(pending.bundle, PendingBundle::Plain));
}

#[test]
fn track_pending_tx_falls_back_to_other_when_no_inscribe_for_channel() {
    let (_, tx) = inscribe_tx(channel(4), MsgId::root(), b"hello");
    let tx_hash = tx.hash;
    let mut state = TxState::new(header_id(0), MsgId::root());
    track_pending_tx(&mut state, tx, channel(3)).unwrap();
    assert!(state.pending_inscription(&tx_hash).is_none());
    assert!(state.pending_other_contains(&tx_hash));
}

#[test]
fn restore_pending_tx_classifies_atomic_bundle_with_withdraws() {
    let channel_id = channel(1);
    let (withdraw_op, tx) = withdraw_bundle(channel_id);
    let tx_hash = tx.hash;
    let mut state = TxState::new(header_id(0), MsgId::root());
    restore_pending_tx(&mut state, tx, channel_id);

    let pending = state.pending_inscription(&tx_hash).expect("bundle is pending");
    let PendingBundle::Withdraw { withdraws, .. } = &pending.bundle else {
        panic!("bundle should be a withdraw bundle");
    };
    assert_eq!(withdraws.refs().len(), 1, "bundle should carry one withdraw");
    assert_eq!(withdraws.refs()[0].op, withdraw_op);
    assert!(!state.pending_other_contains(&tx_hash), "bundle should not be opaque");
}

#[test]
fn restore_pending_tx_classifies_plain_inscription_with_none_withdraws() {
    let channel_id = channel(2);
    let (_, tx) = inscribe_tx(channel_id, MsgId::root(), b"hello");
    let tx_hash = tx.hash;
    let mut state = TxState::new(header_id(0), MsgId::root());
    restore_pending_tx(&mut state, tx, channel_id);
    let pending = state.pending_inscription(&tx_hash).expect("plain inscription is pending");
    assert!(matches!(pending.bundle, PendingBundle::Plain));
}

#[test]
fn restore_pending_tx_falls_back_to_other_when_no_inscribe_for_channel() {
    let (_, tx) = inscribe_tx(channel(4), MsgId::root(), b"hello");
    let tx_hash = tx.hash;
    let mut state = TxState::new(header_id(0), MsgId::root());
    restore_pending_tx(&mut state, tx, channel(3));
    assert!(state.pending_inscription(&tx_hash).is_none());
    assert!(state.pending_other_contains(&tx_hash));
}

/// A cold start includes the genesis slot in the first backfill.
#[test]
fn actor_cold_start_backfills_genesis_slot() {
    let ch = channel(7);
    let (expected_msg_id, genesis_tx) = inscribe_tx(ch, MsgId::root(), b"");
    let genesis_tx_hash = genesis_tx.hash;
    let genesis_block = api_block(1, 0, 0, vec![genesis_tx]);

    let mut driver = Driver::new(ZoneSequencer::init(ch, key(0), None), None);
    driver.lib = genesis_block.id;
    driver.immutable = vec![genesis_block];
    driver.connect();
    driver.deliver(&api_block(2, 1, 1, Vec::new())).unwrap();
    assert!(driver.sequencer.is_ready());

    let finalized: Vec<&FinalizedTx> = driver
        .seen
        .iter()
        .flat_map(|event| match event {
            Event::BlocksProcessed { finalized, .. } => finalized.iter().collect::<Vec<_>>(),
            _ => Vec::new(),
        })
        .collect();
    assert_eq!(finalized.len(), 1, "exactly one finalized tx from the genesis backfill");
    assert_eq!(finalized[0].tx_hash, genesis_tx_hash);
    let ops = finalized[0].ops.refs();
    assert_eq!(ops.len(), 1);
    match ops[0] {
        FinalizedOp::Inscription(info) => {
            assert_eq!(info.tx_hash, genesis_tx_hash);
            assert_eq!(info.parent_msg, MsgId::root());
            assert_eq!(info.this_msg, expected_msg_id);
        },
        other => panic!("expected Inscription, got {other:?}"),
    }
}

#[test]
fn finalized_config_survives_checkpoint_persistence_and_resume() {
    let finalized_config = MsgId::from_bytes([9; 32]);
    let mut state = TxState::new(header_id(0), MsgId::root());
    state.set_finalized_config(finalized_config);
    let checkpoint = build_checkpoint(&state, MsgId::root(), 0);
    assert_eq!(checkpoint.finalized_config, finalized_config);

    let mut driver =
        Driver::new(ZoneSequencer::init(channel(0), key(0), Some(checkpoint)), None);
    driver.connect();
    driver.deliver(&api_block(1, 0, 1, Vec::new())).unwrap();
    assert_eq!(driver.last_checkpoint().finalized_config, finalized_config);
}

#[test]
fn resume_backfill_refines_finalized_config_from_a_replayed_config() {
    let config = config_op(channel(0), MsgId::root(), 0);
    let config_id = config.id;
    let config_block = api_block(1, 0, 1, vec![tx_of(vec![Op::ChannelConfig(config)])]);
    let mut state = TxState::new(header_id(0), MsgId::root());
    state.set_finalized_config(MsgId::from_bytes([1; 32]));
    let checkpoint = build_checkpoint(&state, MsgId::root(), 0);

    let mut driver =
        Driver::new(ZoneSequencer::init(channel(0), key(0), Some(checkpoint)), None);
    driver.lib = header_id(1);
    driver.lib_slot = 1;
    driver.immutable = vec![config_block];
    driver.connect();
    let first = driver.seen.iter().find_map(|event| match event {
        Event::BlocksProcessed { checkpoint, .. } => Some(checkpoint.finalized_config),
        _ => None,
    });
    assert_eq!(first, Some(config_id), "the replayed config moves the finalized one");
    driver.deliver(&api_block(2, 1, 2, Vec::new())).unwrap();
    assert_eq!(driver.last_checkpoint().finalized_config, config_id);
}

/// What was mined while the stream was down is adopted with the first block
/// after it.
#[test]
fn stream_gap_surfaces_backfilled_inscriptions_as_adopted() {
    let ch = channel(0);
    let (a_id, a) = inscribe_tx(ch, MsgId::root(), b"a");
    let (y_id, y) = inscribe_tx(ch, a_id, b"y");
    let mut driver = Driver::new(ZoneSequencer::init(ch, key(0), None), None);
    driver.connect();
    driver.deliver(&api_block(1, 0, 1, vec![a])).unwrap();
    assert!(msg_ids(driver.last_update().adopted()).contains(&a_id));
    driver.drop_stream();
    driver.connect();
    driver.blocks = vec![api_block(2, 1, 2, vec![y])];
    driver.deliver(&api_block(3, 2, 3, Vec::new())).unwrap();
    assert!(msg_ids(driver.last_update().adopted()).contains(&y_id));
}

/// Nothing orphaned is an extension, otherwise a conflict whose prefix excludes
/// the orphaned entries.
#[test]
fn update_variant_follows_orphaned() {
    let mut driver = ready_driver(None, key(0));
    let entry = |n: u8| {
        let (_, tx) = inscribe_tx(channel(0), MsgId::root(), &[n]);
        ChannelUpdateTx::Inscription(InscriptionInfo {
            tx_hash: tx.hash,
            parent_msg: MsgId::root(),
            this_msg: MsgId::root(),
            payload: Inscription::new(vec![n]),
            signer: Some(key(0)),
        })
    };
    let update = |adopted: Vec<ChannelUpdateTx>, orphaned: Vec<ChannelUpdateTx>| {
        Some(ChannelUpdateInfo { orphaned, adopted, new_channel_tip: MsgId::root() })
    };
    let extension = driver
        .sequencer
        .apply_block_result(update(vec![entry(3)], Vec::new()), vec![entry(1), entry(2)]);
    assert!(matches!(extension, ChannelUpdate::Extension { adopted } if adopted.len() == 1));

    let conflict = driver
        .sequencer
        .apply_block_result(update(vec![entry(3)], vec![entry(2)]), vec![entry(1), entry(2)]);
    let ChannelUpdate::Conflict { common_prefix, adopted, orphaned } = conflict else {
        panic!("an orphaned entry makes a conflict")
    };
    assert_eq!(hashes(&common_prefix), hashes(&[entry(1)]));
    assert_eq!(hashes(&adopted), hashes(&[entry(3)]));
    assert_eq!(hashes(&orphaned), hashes(&[entry(2)]));
}

fn signature(n: u8) -> Ed25519Signature {
    Ed25519Signature { r: Bytes32::from_bytes([n; 32]), s: Bytes32::from_bytes([n; 32]) }
}

/// The config is signed with our index in the current accredited list.
#[test]
fn channel_config_signs_with_own_current_accredited_index() {
    let own = key(7);
    let state =
        ChannelState { accredited_keys: Arc::new(vec![key(0), own]), ..single_key_channel_state() };
    let driver = ready_driver(Some(state.clone()), own);
    let plan = driver.sequencer.plan_channel_config().unwrap();
    assert_eq!(plan.parent, MsgId::root(), "parent must equal the channel's config tip");
    assert_eq!(plan.signer, Some(1));
    let indexed = sign_prepared(own, &state.accredited_keys, signature(7)).unwrap();
    let config = config_op(channel(0), plan.parent, 0);
    let signed = assemble_channel_config_tx(
        TxHash::from_bytes([5; 32]),
        vec![Op::ChannelConfig(config)],
        None,
        vec![indexed],
    )
    .unwrap();
    match &signed.proofs[0] {
        OpProof::ChannelMultiSigProof(sigs) => {
            assert_eq!(sigs.len(), 1);
            assert_eq!(sigs[0].channel_key_index, 1);
            assert_eq!(sigs[0].signature, signature(7));
        },
        other => panic!("config op must carry a multi-sig proof, got {other:?}"),
    }
}

/// Claiming a channel needs no signature.
#[test]
fn channel_config_on_unclaimed_channel_carries_empty_proof() {
    let driver = ready_driver(None, key(7));
    let plan = driver.sequencer.plan_channel_config().unwrap();
    assert_eq!(plan.signer, None);
    assert_eq!(plan.parent, MsgId::root(), "claiming must be rooted at zero");
    let config = config_op(channel(0), plan.parent, 0);
    let signed = assemble_channel_config_tx(
        TxHash::from_bytes([5; 32]),
        vec![Op::ChannelConfig(config)],
        None,
        Vec::new(),
    )
    .unwrap();
    assert_eq!(*signed.proofs, vec![OpProof::ChannelMultiSigProof(Arc::new(Vec::new()))]);
}

#[test]
fn channel_config_fails_when_not_accredited() {
    let driver = ready_driver(Some(single_key_channel_state()), key(7));
    let error = driver.sequencer.plan_channel_config().unwrap_err();
    assert!(error.message().contains("accredited"), "unexpected error: {error:?}");
}

#[test]
fn channel_config_rejects_multi_sig_threshold() {
    let own = key(7);
    let state = ChannelState {
        accredited_keys: Arc::new(vec![own, key(0)]),
        configuration_threshold: 2,
        ..single_key_channel_state()
    };
    let driver = ready_driver(Some(state), own);
    let error = driver.sequencer.plan_channel_config().unwrap_err();
    assert!(error.message().contains("single-signer"), "unexpected error: {error:?}");
}

/// A config in flight does not become the parent of the next one.
#[test]
fn consecutive_channel_configs_claim_the_mined_config_tip() {
    let mut driver = ready_driver(None, key(7));
    let first = driver.sequencer.plan_channel_config().unwrap();
    assert_eq!(first.parent, MsgId::root(), "claiming must be rooted at zero");
    let tx = tx_of(vec![Op::ChannelConfig(config_op(channel(0), first.parent, 0))]);
    let pointer = driver.sequencer.last_msg_id;
    let receipt = driver.sequencer.submit_channel_config(tx).unwrap();
    assert_eq!(receipt.checkpoint.last_msg_id, pointer, "a config leaves the message pointer");
    let second = driver.sequencer.plan_channel_config().unwrap();
    assert_eq!(second.parent, first.parent);
}

#[test]
fn before_readiness_nothing_is_served() {
    for request in [Request::PrepareTx, Request::SignTx, Request::SubmitSignedTx, Request::ChannelConfig] {
        assert_eq!(
            admission_of(false, request),
            Admission::Reject(Error::Unavailable { reason: "sequencer not yet ready" })
        );
        assert_eq!(admission_of(true, request), Admission::Serve);
    }
    assert_eq!(admission_of(false, Request::PublishMessage), Admission::Drop);
    assert_eq!(admission_of(false, Request::PublishAtomicWithdraw), Admission::Drop);
    let sequencer = ZoneSequencer::init(channel(0), key(0), None);
    assert!(sequencer.require_ready().is_err());
    assert_eq!(
        sequencer.require_connected(),
        Err(Error::Unavailable { reason: "sequencer not yet ready" })
    );
}

/// A first post that went through is told once; failed posts come again.
#[test]
fn posts_are_settled_one_by_one() {
    let mut driver = ready_driver(Some(single_key_channel_state()), key(0));
    let moment = driver.moment();
    let parent = driver.sequencer.publish_parent();
    let (id, tx) = inscribe_tx(channel(0), parent, b"x");
    let hash = tx.hash;
    let receipt = driver
        .sequencer
        .accept_inscription(tx, parent, id, Inscription::new(b"x".to_vec()), &moment)
        .unwrap();
    assert!(receipt.post);
    assert!(driver.sequencer.posting.contains(&hash));
    assert!(driver.sequencer.resubmit_pending(&moment).is_empty(), "it is being posted");
    driver.sequencer.posts_completed(&vec![(hash, false)], false);
    assert!(!driver.sequencer.posting.contains(&hash));
    let batch = driver.sequencer.resubmit_pending(&moment);
    assert_eq!(batch.iter().map(|(h, _)| *h).collect::<Vec<_>>(), vec![hash]);
    assert!(driver.sequencer.resubmit_pending(&moment).is_empty(), "one sweep at a time");
    driver.sequencer.posts_completed(&vec![(hash, true)], true);
    assert!(!driver.sequencer.resubmit_active);
    driver.seen.clear();
    driver.drain();
    assert_eq!(kinds(&driver.seen), vec!["mempool"]);
    driver.sequencer.posts_completed(&vec![(hash, true)], false);
    assert_eq!(driver.sequencer.pop_event(), None);
}

/// A failed batch counts as failed from the first refused transaction on.
#[test]
fn a_batch_stops_at_the_first_failure() {
    let (_, a) = inscribe_tx(channel(0), MsgId::root(), b"a");
    let (_, b) = inscribe_tx(channel(0), MsgId::root(), b"b");
    let batch = vec![(a.hash, a.clone()), (b.hash, b.clone())];
    assert_eq!(batch_results(&batch, 1), vec![(a.hash, true), (b.hash, false)]);
    assert_eq!(batch_results(&batch, 0), vec![(a.hash, false), (b.hash, false)]);
}

/// First posts are bounded by the publish depth.
#[test]
fn the_publish_depth_bounds_first_posts() {
    let config = SequencerConfig { max_pending_publish_depth: 2, ..SequencerConfig::default() };
    let sequencer = ZoneSequencer::init_with_config(channel(0), key(0), config, None);
    let mut driver = Driver::new(sequencer, Some(single_key_channel_state()));
    driver.connect();
    driver.deliver(&api_block(1, 0, 1, Vec::new())).unwrap();
    let posts: Vec<bool> = (0..4u8).map(|n| driver.publish(&[n]).unwrap().2.post).collect();
    assert_eq!(posts, vec![true, true, false, false]);
    let moment = driver.moment();
    let batch = driver.sequencer.resubmit_pending(&moment);
    assert_eq!(batch.len(), 2, "only what was posted before is posted again");
}

/// Statuses of a block: mined ones are on chain, settled ones final.
#[test]
fn statuses_follow_a_transaction_to_the_end() {
    let mut driver = ready_driver(Some(single_key_channel_state()), key(0));
    driver.sequencer.take_statuses();
    let parent = driver.sequencer.publish_parent();
    let (_, tx) = inscribe_tx(channel(0), parent, b"x");
    let (_, hash, _) = driver.publish(b"x").unwrap();
    assert_eq!(hash, tx.hash);
    let block = api_block(2, 1, 2, vec![tx]);
    driver.deliver(&block).unwrap();
    driver.immutable = vec![api_block(1, 0, 1, Vec::new()), block];
    driver.lib = header_id(2);
    driver.lib_slot = 2;
    driver.deliver(&api_block(3, 2, 3, Vec::new())).unwrap();
    let statuses: Vec<TxStatus> = driver
        .sequencer
        .take_statuses()
        .iter()
        .filter(|s| s.tx_hash == hash)
        .map(|s| s.status)
        .collect();
    assert_eq!(
        statuses,
        vec![
            TxStatus::AcceptedLocally,
            TxStatus::PendingMempool,
            TxStatus::OnChain(TxSource::Local),
            TxStatus::Finalized(TxSource::Local),
        ]
    );
    assert_eq!(driver.sequencer.state.as_ref().unwrap().unfinalized_count(), 0);
}

/// A checkpoint brings back what was pending, and the publish parent with it.
#[test]
fn a_checkpoint_resumes_the_pending_chain() {
    let mut driver = ready_driver(Some(single_key_channel_state()), key(0));
    driver.publish(b"one").unwrap();
    let (two, _, receipt) = driver.publish(b"two").unwrap();
    let checkpoint = receipt.checkpoint;
    assert_eq!(checkpoint.pending_txs.len(), 2);
    assert_eq!(checkpoint.last_msg_id, two);
    assert_eq!(
        restored_pending_channel_tip(&checkpoint.pending_txs, channel(0)),
        Some(MsgId::root())
    );
    let resumed = ZoneSequencer::init(channel(0), key(0), Some(checkpoint));
    assert_eq!(resumed.publish_parent(), two);
    assert_eq!(resumed.state.as_ref().unwrap().pending_publish_count(), 2);
    assert!(!resumed.is_ready());
}

/// A resumed sequencer does not replay its LIB slot; one that is behind
/// backfills in batches.
#[test]
fn backfill_runs_in_batches_from_behind_the_checkpoint() {
    let state = TxState::new(header_id(0), MsgId::root());
    let checkpoint = build_checkpoint(&state, MsgId::root(), 10);
    let mut sequencer = ZoneSequencer::init(channel(0), key(0), Some(checkpoint));
    assert!(sequencer.setup_backfill_range(10), "caught up");
    assert_eq!(sequencer.next_backfill(), BackfillStep::Inactive);
    assert!(!sequencer.setup_backfill_range(150));
    assert_eq!(sequencer.next_backfill(), BackfillStep::Fetch { from: 11, to: 111 });
    sequencer.process_incremental_backfill(&[], 111).unwrap();
    assert_eq!(sequencer.next_backfill(), BackfillStep::Fetch { from: 112, to: 150 });
    sequencer.process_incremental_backfill(&[], 150).unwrap();
    assert_eq!(sequencer.next_backfill(), BackfillStep::Exhausted);
    assert_eq!(sequencer.next_backfill(), BackfillStep::Inactive);
    assert_eq!(sequencer.lib_slot, 150);
}

/// A batch whose deposits are not known is not settled.
#[test]
fn a_failed_batch_comes_again() {
    let op = DepositOp {
        channel_id: channel(0),
        inputs: Inputs::new(vec![note_id(1)]),
        metadata: Arc::new(Vec::new()),
        op_id: OpId::from_bytes([8u8; 32]),
    };
    let state = TxState::new(header_id(0), MsgId::root());
    let checkpoint = build_checkpoint(&state, MsgId::root(), 0);
    let mut sequencer = ZoneSequencer::init(channel(0), key(0), Some(checkpoint));
    sequencer.setup_backfill_range(5);
    let block = api_block(1, 0, 1, vec![tx_of(vec![Op::ChannelDeposit(op)])]);
    for reply in [EventsReply::Absent, EventsReply::Failed("down".to_string())] {
        let fetched = [FetchedBlock { block: block.read(), events: reply }];
        let failed = sequencer.process_incremental_backfill(&fetched, 5);
        assert!(matches!(failed, Err(Error::Network(_))), "{failed:?}");
        assert_eq!(sequencer.next_backfill(), BackfillStep::Fetch { from: 1, to: 5 });
    }
}

/// Bundles are accepted like inscriptions and refused like them.
#[test]
fn bundles_chain_and_are_refused_like_inscriptions() {
    let mut driver = ready_driver(Some(single_key_channel_state()), key(0));
    let moment = driver.moment();
    let (w_id, w_tx) = inscribe_tx(channel(0), MsgId::root(), b"w");
    let (p_id, p_tx) = inscribe_tx(channel(0), w_id, b"p");
    driver
        .sequencer
        .accept_atomic_withdraw(
            w_tx.clone(),
            MsgId::root(),
            w_id,
            Inscription::new(b"w".to_vec()),
            Vec::new(),
            Outputs::empty(),
            &moment,
        )
        .unwrap();
    driver
        .sequencer
        .accept_pin_deposit(
            p_tx,
            w_id,
            p_id,
            Inscription::new(b"p".to_vec()),
            Inputs::new(vec![note_id(1)]),
            &moment,
        )
        .unwrap();
    assert_eq!(driver.sequencer.publish_parent(), p_id);
    let (q_id, q_tx) = inscribe_tx(channel(0), MsgId::root(), b"q");
    let refused = driver.sequencer.accept_atomic_withdraw(
        q_tx,
        MsgId::root(),
        q_id,
        Inscription::new(b"q".to_vec()),
        Vec::new(),
        Outputs::empty(),
        &moment,
    );
    assert!(matches!(refused, Err(Error::ChannelStateChanged(_))), "{refused:?}");
}

#[test]
fn the_view_tells_the_channel() {
    let mut state = single_key_channel_state();
    state.posting_timeframe = 5;
    state.tip_message = MsgId::from_bytes([4; 32]);
    let driver = ready_driver(Some(state), key(0));
    let view = &driver.sequencer.channel_view;
    assert!(view.our_turn_to_write);
    assert_eq!(view.own_key_index, Some(0));
    assert_eq!(view.authorized_key_index, Some(0));
    assert_eq!(view.tip_message, MsgId::from_bytes([4; 32]));
    assert_eq!(view.turn_to_write_slots, Some(5));
    assert_eq!(view.accredited_key_count, Some(1));
    assert!(driver.sequencer.channel_wallet().finalized.is_empty());
    assert_eq!(driver.sequencer.config.resubmit_interval, Duration::from_secs(30));
}

fn made(n: u8) -> Made {
    Made {
        tx_hash: TxHash::from_bytes([n; 32]),
        msg_id: MsgId::from_bytes([n; 32]),
        signature: signature(n),
    }
}

fn settings() -> ChannelSettings {
    ChannelSettings {
        keys: Arc::new(vec![key(0)]),
        posting_timeframe: 3,
        posting_timeout: 4,
        configuration_threshold: 1,
        transfer_threshold: 1,
    }
}

fn withdraw_request(channel: ChannelState, withdraws: Vec<WithdrawArg>, n: u8) -> ActorRequest {
    ActorRequest::PublishAtomicWithdraw {
        inscribe: Inscription::new(b"w".to_vec()),
        withdraws,
        channel: Ok(channel),
        made: made(n),
    }
}

#[test]
fn requests_before_readiness_change_nothing() {
    let mut driver = Driver::new(ZoneSequencer::init(channel(0), key(0), None), None);
    let moment = driver.moment();
    let publish =
        ActorRequest::PublishMessage { data: Inscription::new(b"m".to_vec()), made: made(1) };
    assert_eq!(driver.sequencer.handle_request(publish, &moment), Answer::Dropped);
    let bundle = withdraw_request(single_key_channel_state(), Vec::new(), 1);
    assert_eq!(driver.sequencer.handle_request(bundle, &moment), Answer::Dropped);
    let sign = ActorRequest::SignTx { signature: signature(1) };
    assert_eq!(
        driver.sequencer.handle_request(sign, &moment),
        Answer::Rejected(Error::Unavailable { reason: "sequencer not yet ready" })
    );
    assert!(driver.sequencer.state.is_none());
}

#[test]
fn published_messages_chain_on_each_other() {
    let mut driver = ready_driver(Some(single_key_channel_state()), key(0));
    let moment = driver.moment();
    let mut parent = MsgId::root();
    for n in 1..=3u8 {
        let request =
            ActorRequest::PublishMessage { data: Inscription::new(vec![n]), made: made(n) };
        let Answer::Published(Ok(published)) = driver.sequencer.handle_request(request, &moment)
        else {
            panic!("a message is published");
        };
        assert_eq!(published.signed_tx.hash, made(n).tx_hash);
        assert_eq!(*published.signed_tx.proofs, vec![OpProof::Ed25519Sig(signature(n))]);
        match &published.signed_tx.ops[0] {
            Op::ChannelInscribe(op) => assert_eq!((op.parent, op.id), (parent, made(n).msg_id)),
            other => panic!("expected an inscription, got {other:?}"),
        }
        match &published.tx {
            PublishedTx::Inscription(info) => assert_eq!(info.parent_msg, parent),
            other => panic!("expected an inscription, got {other:?}"),
        }
        assert_eq!(published.receipt.checkpoint.last_msg_id, made(n).msg_id);
        parent = made(n).msg_id;
    }
}

#[test]
fn preparing_and_signing_leave_the_sequencer_alone() {
    let mut driver = ready_driver(Some(single_key_channel_state()), key(0));
    let moment = driver.moment();
    let request = ActorRequest::PrepareTx {
        ops: Vec::new(),
        msg: Inscription::new(b"p".to_vec()),
        id: MsgId::from_bytes([9; 32]),
    };
    match driver.sequencer.handle_request(request, &moment) {
        Answer::Prepared(ops) => {
            assert_eq!(ops.len(), 1);
            assert!(matches!(&ops[0], Op::ChannelInscribe(op) if op.parent == MsgId::root()));
        },
        other => panic!("expected the prepared ops, got {other:?}"),
    }
    let sign = ActorRequest::SignTx { signature: signature(4) };
    assert_eq!(driver.sequencer.handle_request(sign, &moment), Answer::Signed(signature(4)));
    assert_eq!(driver.sequencer.publish_parent(), MsgId::root());
    assert_eq!(driver.sequencer.state.as_ref().unwrap().unfinalized_count(), 0);
}

#[test]
fn a_submitted_transaction_moves_the_pointer() {
    let mut driver = ready_driver(Some(single_key_channel_state()), key(0));
    let moment = driver.moment();
    let (msg_id, tx) = inscribe_tx(channel(0), MsgId::root(), b"s");
    let request = ActorRequest::SubmitSignedTx { tx, msg_id };
    let Answer::Submitted(Ok(receipt)) = driver.sequencer.handle_request(request, &moment) else {
        panic!("a signed transaction is accepted");
    };
    assert_eq!(receipt.checkpoint.last_msg_id, msg_id);
    assert_eq!(driver.sequencer.publish_parent(), msg_id);
}

#[test]
fn a_config_request_is_signed_at_our_index() {
    let own = key(7);
    let state =
        ChannelState { accredited_keys: Arc::new(vec![key(0), own]), ..single_key_channel_state() };
    let mut driver = ready_driver(Some(state), own);
    let moment = driver.moment();
    let request = ActorRequest::ChannelConfig { settings: settings(), made: made(5) };
    let Answer::Configured(Ok((tx, receipt))) = driver.sequencer.handle_request(request, &moment)
    else {
        panic!("the config is accepted");
    };
    match (&tx.ops[0], &tx.proofs[0]) {
        (Op::ChannelConfig(op), OpProof::ChannelMultiSigProof(sigs)) => {
            assert_eq!((op.parent, op.posting_timeframe, op.posting_timeout), (MsgId::root(), 3, 4));
            assert_eq!(sigs.len(), 1);
            assert_eq!(sigs[0].channel_key_index, 1);
        },
        other => panic!("expected a config with its proof, got {other:?}"),
    }
    assert_eq!(receipt.inscription_id, made(5).tx_hash);
    assert!(driver.sequencer.state.as_ref().unwrap().pending_other_contains(&made(5).tx_hash));
}

#[test]
fn a_withdraw_bundle_is_built_signed_and_pending() {
    let own = key(7);
    let state =
        ChannelState { accredited_keys: Arc::new(vec![key(0), own]), ..single_key_channel_state() };
    let mut driver = ready_driver(Some(state.clone()), own);
    let moment = driver.moment();
    let paid = |value: u64| {
        let pk = ZkPublicKey::from_bytes([1u8; 32]);
        WithdrawArg { outputs: Outputs::new(vec![Note { value, pk }]) }
    };
    let text = |answer: Answer| match answer {
        Answer::Published(Err(Error::Network(text))) => text,
        other => panic!("expected a failure, got {other:?}"),
    };
    let none = withdraw_request(state.clone(), Vec::new(), 6);
    assert!(text(driver.sequencer.handle_request(none, &moment)).contains("at least one withdraw"));
    let many = ChannelState { transfer_threshold: 2, ..state.clone() };
    let multi = withdraw_request(many, vec![paid(5)], 6);
    assert!(text(driver.sequencer.handle_request(multi, &moment)).ends_with("got 2"));
    let outsider = withdraw_request(single_key_channel_state(), vec![paid(5)], 6);
    assert!(text(driver.sequencer.handle_request(outsider, &moment)).contains("accredited_keys"));
    let spent = ChannelState { withdrawal_nonce: u32::MAX, ..state.clone() };
    let overflow = withdraw_request(spent, vec![paid(5)], 6);
    assert_eq!(text(driver.sequencer.handle_request(overflow, &moment)), "withdraw nonce overflow");
    let unknown = ActorRequest::PublishAtomicWithdraw {
        inscribe: Inscription::new(b"w".to_vec()),
        withdraws: vec![paid(5)],
        channel: Err("node is down".to_string()),
        made: made(6),
    };
    assert_eq!(
        text(driver.sequencer.handle_request(unknown, &moment)),
        "channel_state query failed: node is down"
    );
    let before = driver.sequencer.last_msg_id;
    assert!(!driver.sequencer.state.as_ref().unwrap().is_tracked(&made(6).tx_hash));

    let request = withdraw_request(state, vec![paid(5), paid(9)], 6);
    let Answer::Published(Ok(published)) = driver.sequencer.handle_request(request, &moment) else {
        panic!("the bundle is published");
    };
    assert_eq!(published.signed_tx.ops.len(), 3);
    for (i, value) in [(0usize, 5u64), (1, 9)] {
        let expected = ChannelWithdrawOp {
            channel_id: channel(0),
            inputs: Inputs::new(Vec::new()),
            outputs: paid(value).outputs,
            withdraw_nonce: 7 + i as u32,
        };
        assert_eq!(published.signed_tx.ops[i], Op::ChannelWithdraw(expected));
    }
    assert_ne!(driver.sequencer.last_msg_id, before);
    assert_eq!(driver.sequencer.last_msg_id, made(6).msg_id);
    assert!(matches!(published.signed_tx.ops[2], Op::ChannelInscribe(_)));
    match &published.signed_tx.proofs[1] {
        OpProof::ChannelMultiSigProof(sigs) => assert_eq!(sigs[0].channel_key_index, 1),
        other => panic!("expected a multi-sig proof, got {other:?}"),
    }
    assert_eq!(published.signed_tx.proofs[2], OpProof::Ed25519Sig(signature(6)));
    match &published.tx {
        PublishedTx::AtomicWithdraw(bundle) => {
            assert_eq!(bundle.withdraws.refs().len(), 2);
            assert_eq!(bundle.outputs.notes.as_ref().unwrap().len(), 2);
            assert_eq!(bundle.inscription.this_msg, made(6).msg_id);
        },
        other => panic!("expected a bundle, got {other:?}"),
    }
    let pending = driver.sequencer.state.as_ref().unwrap();
    assert!(matches!(
        pending.pending_inscription(&made(6).tx_hash).unwrap().bundle,
        PendingBundle::Withdraw { .. }
    ));
}

/// Events first, then history, then a block in hand, then the connection.
#[test]
fn the_drive_loop_takes_its_steps_in_order() {
    let mut driver = Driver::new(ZoneSequencer::init(channel(0), key(0), None), None);
    assert_eq!(driver.sequencer.next_step(false, false), Step::Initialize);
    let (system_now, now) = (driver.system_now(), driver.now());
    driver.sequencer.init_state(header_id(0), None, 0, system_now, now);
    assert_eq!(driver.sequencer.next_step(false, false), Step::OpenStream);
    driver.sequencer.setup_backfill_range(0);
    assert_eq!(driver.sequencer.next_step(true, true), Step::Backfill { from: 0, to: 0 });
    driver.sequencer.process_incremental_backfill(&[], 0).unwrap();
    assert_eq!(driver.sequencer.next_step(true, true), Step::ProcessBlock);
    assert_eq!(driver.sequencer.next_step(false, true), Step::Wait);
    assert_eq!(driver.sequencer.backfill_from, None, "done history is dropped");
    let moment = driver.moment();
    driver.sequencer.publish_channel_view(&moment);
    driver.sequencer.handle_stream_drop(&moment);
    driver.deliver(&api_block(1, 0, 1, Vec::new())).unwrap();
    driver.sequencer.handle_stream_drop(&driver.moment());
    assert!(matches!(
        driver.sequencer.next_step(true, true),
        Step::Emit(Event::TurnNotification { .. })
    ));
}

/// There is no checkpoint before the first block, not even after a restart
/// from one.
#[test]
fn a_checkpoint_comes_with_the_first_block() {
    let mut driver = Driver::new(ZoneSequencer::init(channel(0), key(0), None), None);
    assert!(driver.sequencer.checkpoint().is_none());
    driver.connect();
    driver.deliver(&api_block(1, 0, 1, Vec::new())).unwrap();
    let checkpoint = driver.last_checkpoint();

    let resumed = ZoneSequencer::init(channel(0), key(0), Some(checkpoint));
    assert!(resumed.state.is_some());
    assert!(resumed.checkpoint().is_none());
    let mut driver = Driver::new(resumed, None);
    driver.connect();
    driver.deliver(&api_block(1, 0, 1, Vec::new())).unwrap();
    assert!(driver.sequencer.checkpoint().is_some());
}

/// The slot clock starts from the configured chain start; without one, it goes
/// by the observed slot alone.
#[test]
fn the_slot_clock_starts_from_what_is_known() {
    let start = SystemTime { nanos: 5 };
    let (system_now, now) = (SystemTime { nanos: 100 * SLOT_NANOS }, Instant { nanos: 7 });
    for chain_start_time in [None, Some(start)] {
        let config = SequencerConfig { chain_start_time, ..SequencerConfig::default() };
        let mut sequencer = ZoneSequencer::init_with_config(channel(0), key(0), config, None);
        sequencer.init_state(header_id(0), None, 3, system_now, now);
        let clock = sequencer.slot_clock.unwrap();
        assert_eq!(clock.chain_start_time, chain_start_time);
        assert_eq!(clock.last_observed_slot, 3);
        assert_eq!(clock.last_observed_at, now);
        assert_eq!(clock.current_slot(system_now, now) == 3, chain_start_time.is_none());
    }
}
