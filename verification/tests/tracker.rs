use zone_sdk::collections::KeySet;
use zone_sdk::ids::{ChannelId, Ed25519PublicKey, HeaderId, MsgId, NoteId, TxHash, ZkPublicKey};
use zone_sdk::items::Items;
use zone_sdk::mantle::{
    ChannelConfigOp, Inscription, InscriptionOp, Inputs, Op, Outputs, SignedOps,
};
use zone_sdk::sequencer::channel_tx::{channel_inscriptions, BlockChannelTx};
use zone_sdk::sequencer::channel_wallet::NoteOp;
use zone_sdk::sequencer::state::{ParentTaken, TxState};
use zone_sdk::sequencer::state_model::PendingBundle;
use zone_sdk::sequencer::types::{
    ChannelNote, ChannelUpdateTx, InscriptionInfo, PendingTx, TxSource, WithdrawInfo,
};
use std::sync::Arc;

fn digest(parts: &[&[u8]]) -> [u8; 32] {
    let mut acc: u64 = 0xcbf2_9ce4_8422_2325;
    for part in parts {
        for byte in *part {
            acc = (acc ^ u64::from(*byte)).wrapping_mul(0x100_0000_01b3);
        }
        acc = acc.rotate_left(7) ^ part.len() as u64;
    }
    let mut out = [0u8; 32];
    for i in 0..4 {
        acc = acc.wrapping_mul(6_364_136_223_846_793_005).wrapping_add(1_442_695_040_888_963_407);
        out[i * 8..i * 8 + 8].copy_from_slice(&acc.to_be_bytes());
    }
    out
}

fn tagged(n: u8) -> [u8; 32] {
    let mut bytes = [0u8; 32];
    bytes[0] = n;
    bytes
}

fn header_id(n: u8) -> HeaderId {
    HeaderId::from_bytes(tagged(n))
}

fn msg_id(n: u8) -> MsgId {
    MsgId::from_bytes(tagged(n))
}

fn channel() -> ChannelId {
    ChannelId::from_bytes([0u8; 32])
}

fn test_signer() -> Ed25519PublicKey {
    Ed25519PublicKey::from_bytes([0u8; 32])
}

fn payload(data: u8) -> Inscription {
    Inscription::new(vec![data])
}

fn inscribe_op(parent: MsgId, data: u8) -> InscriptionOp {
    let id = MsgId::from_bytes(digest(&[b"inscribe", &parent.0.to_bytes(), &[data]]));
    InscriptionOp {
        channel_id: channel(),
        inscription: payload(data),
        parent,
        signer: test_signer(),
        id,
    }
}

fn config_op(parent: MsgId, timeframe: u32) -> ChannelConfigOp {
    let id = MsgId::from_bytes(
        digest(&[b"config", &parent.0.to_bytes(), &timeframe.to_be_bytes()]),
    );
    ChannelConfigOp {
        channel: channel(),
        parent,
        keys: Arc::new(vec![Ed25519PublicKey::from_bytes([1u8; 32])]),
        posting_timeframe: timeframe,
        posting_timeout: 0,
        configuration_threshold: 1,
        transfer_threshold: 1,
        id,
    }
}

fn op_id_bytes(op: &Op) -> Vec<u8> {
    match op {
        Op::ChannelInscribe(op) => op.id.0.to_bytes(),
        Op::ChannelConfig(op) => op.id.0.to_bytes(),
        _ => Vec::new(),
    }
}

fn tx_of(ops: Vec<Op>) -> SignedOps {
    let ids: Vec<Vec<u8>> = ops.iter().map(op_id_bytes).collect();
    let parts: Vec<&[u8]> = ids.iter().map(|id| id.as_slice()).collect();
    SignedOps::new(TxHash::from_bytes(digest(&parts)), ops, vec![])
}

fn make_dummy_tx(data: u8) -> SignedOps {
    make_dummy_tx_on(MsgId::root(), data)
}

fn make_dummy_tx_on(parent: MsgId, data: u8) -> SignedOps {
    tx_of(vec![Op::ChannelInscribe(inscribe_op(parent, data))])
}

fn dummy_tx_msg(tx: &SignedOps) -> MsgId {
    channel_inscriptions(tx, channel())[0].this_msg
}

/// An `[inscribe(parent), config]` bundle.
fn bundle_tx(parent: MsgId, data: u8) -> (SignedOps, MsgId, MsgId) {
    let inscribe = inscribe_op(parent, data);
    let config = config_op(MsgId::root(), 0);
    let (inscribe_msg, config_msg) = (inscribe.id, config.id);
    let tx = tx_of(vec![Op::ChannelInscribe(inscribe), Op::ChannelConfig(config)]);
    (tx, inscribe_msg, config_msg)
}

/// A pure `[config]` transaction; `data` varies its id.
fn config_tx(parent: MsgId, data: u32) -> (SignedOps, MsgId) {
    let config = config_op(parent, data);
    let config_msg = config.id;
    (tx_of(vec![Op::ChannelConfig(config)]), config_msg)
}

/// A pure config as it is classified when mined.
fn config_block_tx(tx: &SignedOps, this_msg: MsgId, parent: MsgId) -> BlockChannelTx {
    BlockChannelTx::Config(InscriptionInfo {
        tx_hash: tx.hash,
        parent_msg: parent,
        this_msg,
        payload: Inscription::empty(),
        signer: None,
    })
}

fn wallet_note(seed: u8, value: u64) -> NoteOp {
    NoteOp::Add(ChannelNote {
        note_id: wallet_note_id(seed),
        value,
        pk: ZkPublicKey::from_bytes(tagged(seed)),
        slot: 1,
    })
}

fn wallet_note_id(seed: u8) -> NoteId {
    NoteId::from_bytes(tagged(seed))
}

#[test]
fn submit_and_query_pending() {
    let genesis = header_id(0);
    let mut state = TxState::new(genesis, MsgId::root());
    let tx = make_dummy_tx(1);

    state.submit_other(tx, channel()).unwrap();
    assert_eq!(state.unfinalized_count(), 1);
}

#[test]
fn block_includes_tx() {
    let genesis = header_id(0);
    let b1 = header_id(1);
    let mut state = TxState::new(genesis, MsgId::root());

    let tx = make_dummy_tx(1);
    let hash = tx.hash;
    state.submit_other(tx, channel()).unwrap();

    // Process block containing our tx, lib stays at genesis
    state.process_block(b1, genesis, genesis, &[hash], vec![], Vec::new());

    // Tx is still pending (not finalized yet, lib hasn't advanced)
    assert_eq!(state.unfinalized_count(), 1);

    // But pending_txs at b1 excludes it (it's in the safe set)
    assert!(state.pending_txs(b1).is_empty());
}

#[test]
fn lib_advance_finalizes() {
    let genesis = header_id(0);
    let b1 = header_id(1);
    let b2 = header_id(2);
    let mut state = TxState::new(genesis, MsgId::root());

    let tx = make_dummy_tx(1);
    let hash = tx.hash;
    state.submit_other(tx, channel()).unwrap();

    // b1 with our tx
    state.process_block(b1, genesis, genesis, &[hash], vec![], Vec::new());
    assert_eq!(state.unfinalized_count(), 1);

    // b2, lib advances to b1 — process_block does not remove from
    // pending (that's done by backfill ground truth)
    state.process_block(b2, b1, b1, &[], vec![], Vec::new());
    assert_eq!(
        state.unfinalized_count(),
        1,
        "tx still in pending until backfill confirms"
    );

    // Simulate backfill confirming the tx
    assert!(state.remove_pending(&hash).is_some());
    assert_eq!(state.unfinalized_count(), 0);
}

#[test]
fn pending_txs_excludes_safe() {
    let genesis = header_id(0);
    let b1 = header_id(1);
    let mut state = TxState::new(genesis, MsgId::root());

    let tx1 = make_dummy_tx(1);
    let tx2 = make_dummy_tx_on(dummy_tx_msg(&tx1), 2);
    let hash1 = tx1.hash;
    let hash2 = tx2.hash;

    state.submit_other(tx1, channel()).unwrap();
    state.submit_other(tx2, channel()).unwrap();

    // b1 contains only tx1
    state.process_block(b1, genesis, genesis, &[hash1], vec![], Vec::new());

    // pending_txs at b1 should only return tx2
    let pending: Vec<_> = state.pending_txs(b1).into_iter().map(|(h, _)| h).collect();
    assert_eq!(pending.len(), 1);
    assert!(pending.contains(&hash2));
}

#[test]
fn reorg_changes_pending_status() {
    // G -> b1 (has tx)
    //   -> b2 (no tx)
    let genesis = header_id(0);
    let b1 = header_id(1);
    let b2 = header_id(2);
    let mut state = TxState::new(genesis, MsgId::root());

    let tx = make_dummy_tx(1);
    let hash = tx.hash;
    state.submit_other(tx, channel()).unwrap();

    // b1 has our tx
    state.process_block(b1, genesis, genesis, &[hash], vec![], Vec::new());

    // At b1 tip, tx is in safe set (not in pending_txs)
    assert!(state.pending_txs(b1).is_empty());

    // b2 forks from genesis, no tx
    state.process_block(b2, genesis, genesis, &[], vec![], Vec::new());

    // At b2 tip, tx is back in pending_txs (different branch)
    assert!(state.pending_txs(b2).iter().any(|(h, _)| *h == hash));
}

#[test]
fn wallet_view_follows_branch() {
    // G <- a1 (adds n1)
    //   <- b1 (adds n2)
    let genesis = header_id(0);
    let a1 = header_id(1);
    let b1 = header_id(2);
    let mut state = TxState::new(genesis, MsgId::root());

    state.process_block(
        a1,
        genesis,
        genesis,
        &[],
        vec![],
        vec![wallet_note(1, 10)],
    );
    state.process_block(
        b1,
        genesis,
        genesis,
        &[],
        vec![],
        vec![wallet_note(2, 20)],
    );

    let at_a = state.channel_wallet_view(Some(a1));
    assert_eq!(at_a.unfinalized.len(), 1);
    assert_eq!(at_a.unfinalized[0].note_id, wallet_note_id(1));

    let at_b = state.channel_wallet_view(Some(b1));
    assert_eq!(at_b.unfinalized.len(), 1);
    assert_eq!(at_b.unfinalized[0].note_id, wallet_note_id(2));
}

#[test]
fn wallet_lib_advance_excludes_folded_overlay() {
    // G <- a1 (adds n1) <- a2; LIB advances to a1. The finalized-backfill
    // path applies a1's ops to the base; the branch walk from a2 must
    // exclude a1's overlay entry so the note is not double-counted.
    let genesis = header_id(0);
    let a1 = header_id(1);
    let a2 = header_id(2);
    let mut state = TxState::new(genesis, MsgId::root());

    state.process_block(
        a1,
        genesis,
        genesis,
        &[],
        vec![],
        vec![wallet_note(1, 10)],
    );
    // What `fetch_and_process_blocks` does when a1's range finalizes:
    state.apply_finalized_note_ops(vec![wallet_note(1, 10)]);
    state.process_block(a2, a1, a1, &[], vec![], Vec::new());

    let view = state.channel_wallet_view(Some(a2));
    assert_eq!(view.finalized.len(), 1);
    assert_eq!(view.finalized[0].note_id, wallet_note_id(1));
    assert!(
        view.unfinalized.is_empty(),
        "a1's overlay entry must not double-count the finalized note"
    );
}

/// A pending `submit_signed_tx` bundle must participate in publish-parent
/// chaining: the next publish chains off the bundle's last inscription,
/// not the pre-bundle tip — otherwise the two txs race for the same
/// channel position and one is permanently invalidated. The config moves
/// only the config lineage.
#[test]
fn publish_parent_chains_through_pending_bundle() {
    let genesis = header_id(0);
    let tip = header_id(1);
    let channel_id = channel();
    let mut state = TxState::new(genesis, MsgId::root());
    state.process_block(tip, genesis, genesis, &[], vec![], Vec::new());

    let (bundle, inscribe_msg, _config_msg) = bundle_tx(MsgId::root(), 1);
    let derived = state.submit_other(bundle, channel_id).unwrap();
    assert_eq!(derived, Some(inscribe_msg), "bundle tip is its inscription");

    assert_eq!(
        state.publish_parent(tip),
        inscribe_msg,
        "next publish must chain after the pending bundle"
    );
}

#[test]
fn wallet_prunes_orphaned_branch_entries() {
    // G <- a1 <- a2 (lib advances to a1); b1 forks from G with a note.
    // After the lib advance b1 is pruned, so its note is unreachable
    // even if a stale tip were queried.
    let genesis = header_id(0);
    let a1 = header_id(1);
    let b1 = header_id(2);
    let a2 = header_id(3);
    let mut state = TxState::new(genesis, MsgId::root());

    state.process_block(a1, genesis, genesis, &[], vec![], Vec::new());
    state.process_block(
        b1,
        genesis,
        genesis,
        &[],
        vec![],
        vec![wallet_note(2, 20)],
    );
    state.process_block(a2, a1, a1, &[], vec![], Vec::new());

    let view = state.channel_wallet_view(Some(b1));
    assert!(view.unfinalized.is_empty(), "orphaned branch entry pruned");
}

#[test]
fn wallet_checkpoint_roundtrip() {
    let genesis = header_id(0);
    let mut state = TxState::new(genesis, MsgId::root());
    state.apply_finalized_note_ops(vec![wallet_note(1, 10), wallet_note(2, 20)]);

    let mut exported = state.channel_notes_base();
    exported.sort_by_key(|n| n.note_id);

    let mut restored = TxState::new(genesis, MsgId::root());
    restored.restore_channel_notes(exported.clone());
    let mut base = restored.channel_notes_base();
    base.sort_by_key(|n| n.note_id);
    assert_eq!(exported, base);

    let view = restored.channel_wallet_view(None);
    assert_eq!(view.finalized.len(), 2);
    assert!(view.unfinalized.is_empty());
}

#[test]
fn pending_txs_orders_chained_bundles_parent_before_child() {
    let genesis = header_id(0);
    let tip = header_id(1);
    let channel_id = channel();
    let mut state = TxState::new(genesis, MsgId::root());
    state.process_block(tip, genesis, genesis, &[], vec![], Vec::new());

    let mut parent = MsgId::root();
    let mut hashes = Vec::new();
    for data in 1..=6u8 {
        let (bundle, inscribe_msg, _config_msg) = bundle_tx(parent, data);
        hashes.push(bundle.hash);
        state.submit_other(bundle, channel_id).unwrap();
        parent = inscribe_msg;
    }

    let resubmit: Vec<TxHash> = state.pending_txs(tip).iter().map(|(h, _)| *h).collect();
    assert_eq!(
        resubmit, hashes,
        "resubmission must return chained bundles parent-before-child"
    );
    let checkpoint: Vec<TxHash> = state.all_pending_txs().iter().map(|(h, _)| *h).collect();
    assert_eq!(
        checkpoint, hashes,
        "checkpoint serialization must preserve bundle submission order"
    );
}

/// The chain walk composes across kinds: pending inscription, then a
/// bundle chained on it, then another pending inscription on the bundle's
/// inscription tip.
#[test]
fn publish_parent_walks_mixed_pending_chain() {
    let genesis = header_id(0);
    let tip = header_id(1);
    let channel_id = channel();
    let mut state = TxState::new(genesis, MsgId::root());
    state.process_block(tip, genesis, genesis, &[], vec![], Vec::new());

    state
        .submit_inscription(make_dummy_tx(1), MsgId::root(), msg_id(10), payload(1))
        .unwrap();
    let (bundle, inscribe_msg, _config_msg) = bundle_tx(msg_id(10), 2);
    state.submit_other(bundle, channel_id).unwrap();
    state
        .submit_inscription(make_dummy_tx(3), inscribe_msg, msg_id(30), payload(3))
        .unwrap();

    assert_eq!(state.publish_parent(tip), msg_id(30));
}

#[test]
fn opaque_tx_on_a_taken_parent_is_refused() {
    let genesis = header_id(0);
    let tip = header_id(1);
    let channel_id = channel();
    let mut state = TxState::new(genesis, MsgId::root());
    state.process_block(tip, genesis, genesis, &[], vec![], Vec::new());

    let first = make_dummy_tx(1);
    let first_hash = first.hash;
    state
        .submit_inscription(first, MsgId::root(), msg_id(10), payload(1))
        .unwrap();
    let (bundle, _i, _c) = bundle_tx(MsgId::root(), 2);
    assert_eq!(
        state.submit_other(bundle, channel_id),
        Err(ParentTaken {
            parent: MsgId::root(),
            by: first_hash
        })
    );
    assert_eq!(state.publish_parent(tip), msg_id(10));
}

/// A pure config cut (no inscription in the tx) is NOT chained: it lands
/// whenever it lands and orphans what it cut off — publishes keep
/// chaining on the existing pending chain meanwhile.
#[test]
fn publish_parent_ignores_pending_pure_config_cut() {
    let genesis = header_id(0);
    let tip = header_id(1);
    let channel_id = channel();
    let mut state = TxState::new(genesis, MsgId::root());
    state.process_block(tip, genesis, genesis, &[], vec![], Vec::new());

    state
        .submit_inscription(make_dummy_tx(1), MsgId::root(), msg_id(10), payload(1))
        .unwrap();

    let (config_tx, _) = config_tx(MsgId::root(), 0);
    state.submit_other(config_tx, channel_id).unwrap();

    assert_eq!(
        state.publish_parent(tip),
        msg_id(10),
        "a pure config must not divert the publish chain"
    );
}

#[test]
fn lib_advance_prunes_ancestors_and_orphans() {
    // Chain: genesis <- a1 <- a2 <- a3 (lib) <- a4 <- a5 <- a6
    //                    |
    //                   b1 <- b2 (fork from a1)
    let genesis = header_id(0);
    let a1 = header_id(1);
    let a2 = header_id(2);
    let a3 = header_id(3);
    let a4 = header_id(4);
    let a5 = header_id(5);
    let a6 = header_id(6);
    let b1 = header_id(10);
    let b2 = header_id(11);

    let mut state = TxState::new(genesis, MsgId::root());

    // Build main chain up to a1
    state.process_block(a1, genesis, genesis, &[], vec![], Vec::new());

    // Build fork from a1 (before lib advances past a1)
    state.process_block(b1, a1, genesis, &[], vec![], Vec::new());
    state.process_block(b2, b1, genesis, &[], vec![], Vec::new());

    // Verify fork blocks exist before lib advances
    assert!(state.has_block(&b1));
    assert!(state.has_block(&b2));

    // Continue main chain, lib advances to a3
    state.process_block(a2, a1, genesis, &[], vec![], Vec::new());
    state.process_block(a3, a2, a3, &[], vec![], Vec::new()); // lib advances to a3

    // After lib advances to a3:
    // - genesis, a1, a2 should be pruned (ancestors up to and including old lib)
    // - b1, b2 should be GC'd (orphans - their ancestor a1 was pruned)
    // - a3 (new lib) should exist

    assert!(
        !state.has_block(&genesis),
        "genesis (old lib) should be pruned"
    );
    assert!(!state.has_block(&a1), "a1 should be pruned");
    assert!(!state.has_block(&a2), "a2 should be pruned");
    assert!(
        !state.has_block(&b1),
        "orphan b1 should be pruned"
    );
    assert!(
        !state.has_block(&b2),
        "orphan b2 should be pruned"
    );

    assert!(state.has_block(&a3), "lib should exist");

    // Continue and verify pruning continues working
    state.process_block(a4, a3, a3, &[], vec![], Vec::new());
    state.process_block(a5, a4, a5, &[], vec![], Vec::new()); // lib advances to a5
    state.process_block(a6, a5, a5, &[], vec![], Vec::new());

    assert!(
        !state.has_block(&a3),
        "old lib should be pruned"
    );
    assert!(!state.has_block(&a4), "a4 should be pruned");
    assert!(state.has_block(&a5), "new lib should exist");
    assert!(state.has_block(&a6), "tip should exist");
}

/// Submit a fake pending inscription with lineage metadata.
fn submit_fake_inscription(
    state: &mut TxState,
    data: u8,
    parent_msg: MsgId,
    this_msg: MsgId,
) -> TxHash {
    let tx = make_dummy_tx(data);
    let hash = tx.hash;
    state
        .submit_inscription(tx, parent_msg, this_msg, payload(data))
        .unwrap();
    hash
}

/// Once a rival config lands on-branch and moves the config tip, our
/// pending config chained on the superseded parent is shed.
#[test]
fn shed_stale_pending_configs_removes_superseded_config() {
    let genesis = header_id(0);
    let b1 = header_id(1);
    let b2 = header_id(2);
    let channel_id = channel();
    let mut state = TxState::new(genesis, MsgId::root());

    // Our pending config chains on the (root) config tip.
    let (stale, _) = config_tx(MsgId::root(), 1);
    let stale_hash = stale.hash;
    state.submit_other(stale, channel_id).unwrap();

    // No config has landed yet — the local config tip is root, so ours is
    // still viable.
    state.process_block(b1, genesis, genesis, &[], vec![], Vec::new());
    assert!(state.shed_stale_pending_configs(b1).is_empty());
    assert!(state.pending_other_contains(&stale_hash));

    // A rival config (also chaining on root) lands on-branch and moves the
    // config tip: our pending config's parent is now superseded → shed.
    let (rival, rival_msg) = config_tx(MsgId::root(), 2);
    state.process_block(
        b2,
        b1,
        genesis,
        &[],
        vec![config_block_tx(&rival, rival_msg, MsgId::root())],
        Vec::new(),
    );

    let shed = state.shed_stale_pending_configs(b2);
    assert_eq!(shed.len(), 1);
    assert_eq!(shed[0].hash, stale_hash);
    assert!(!state.pending_other_contains(&stale_hash));
}

#[test]
fn finalized_prefix_masks_every_config_in_the_lib_block() {
    let genesis = header_id(0);
    let b1 = header_id(1);
    let b2 = header_id(2);
    let mut state = TxState::new(genesis, MsgId::root());
    let (c1_tx, c1) = config_tx(MsgId::root(), 1);
    let (c2_tx, c2) = config_tx(c1, 2);
    state.process_block(
        b1,
        genesis,
        genesis,
        &[],
        vec![
            config_block_tx(&c1_tx, c1, MsgId::root()),
            config_block_tx(&c2_tx, c2, c1),
        ],
        Vec::new(),
    );
    state.process_block(b2, b1, b1, &[], vec![], Vec::new());
    assert_eq!(state.finalized_config(), c2);
    assert!(
        state
            .detect_channel_update(&[], b2, &KeySet::new())
            .is_none(),
        "finalized configs are not reported"
    );
}

#[test]
fn finalized_configs_are_not_reported_orphaned_on_lib_advance() {
    let genesis = header_id(0);
    let b1 = header_id(1);
    let b2 = header_id(2);
    let b3 = header_id(3);
    let mut state = TxState::new(genesis, MsgId::root());
    let (c1_tx, c1) = config_tx(MsgId::root(), 1);
    let (c2_tx, c2) = config_tx(c1, 2);
    state.process_block(
        b1,
        genesis,
        genesis,
        &[],
        vec![config_block_tx(&c1_tx, c1, MsgId::root())],
        Vec::new(),
    );
    state.process_block(
        b2,
        b1,
        genesis,
        &[],
        vec![config_block_tx(&c2_tx, c2, c1)],
        Vec::new(),
    );
    let old_lineage = state.channel_lineage(b2);
    state.process_block(b3, b2, b2, &[], vec![], Vec::new());
    assert!(
        state
            .detect_channel_update(&old_lineage, b3, &KeySet::new())
            .is_none()
    );
}

#[test]
fn custom_tx_advancing_only_the_config_lineage_is_reported_as_custom() {
    let genesis = header_id(0);
    let b1 = header_id(1);
    let mut state = TxState::new(genesis, MsgId::root());
    let (tx, _) = config_tx(MsgId::root(), 1);
    let config_entry = |parent: MsgId, this_msg: MsgId| InscriptionInfo {
        tx_hash: tx.hash,
        parent_msg: parent,
        this_msg,
        payload: Inscription::empty(),
        signer: None,
    };
    let custom = BlockChannelTx::Custom {
        tx: tx.clone(),
        message_entries: Items::from_vec(Vec::new()),
        config_entries: Items::from_vec(vec![
            config_entry(MsgId::root(), msg_id(1)),
            config_entry(msg_id(1), msg_id(2)),
        ]),
    };
    state.process_block(b1, genesis, genesis, &[], vec![custom], Vec::new());
    let update = state
        .detect_channel_update(&[], b1, &KeySet::new())
        .expect("configs enter the view");
    assert!(
        matches!(update.adopted.as_slice(), [ChannelUpdateTx::Custom(t)] if t.hash == tx.hash)
    );
}

/// The finalized config tip must survive a warm restart. It lives only in
/// `finalized_config` once its block prunes below LIB, so a checkpoint has
/// to carry it — otherwise `config_tip_at` falls back to `root` after
/// restart and a later config would chain on a stale parent.
#[test]
fn finalized_config_survives_checkpoint_restore() {
    let genesis = header_id(0);
    let config = msg_id(7);

    // A config finalized at/below LIB; the checkpoint captures its tip.
    let mut state = TxState::new(genesis, MsgId::root());
    state.set_finalized_config(config);
    assert_eq!(state.finalized_config(), config);

    // Warm restart without restoring it: `config_tip_at` falls back to root
    // (the bug — a new config would chain on the wrong parent).
    let mut restored = TxState::new(genesis, MsgId::root());
    assert_eq!(restored.config_tip_at(genesis), MsgId::root());

    // Restored from the checkpoint's `finalized_config`, the tip resolves.
    restored.set_finalized_config(state.finalized_config());
    assert_eq!(restored.config_tip_at(genesis), config);
}

/// Restoring a finalized config tip must also seed `observed_config_tip`,
/// so the config-driven shed does not treat the already-finalized
/// config as a fresh landing and orphan the pending tail on the first
/// block after a resume/backfill.
#[test]
fn restored_finalized_config_does_not_spuriously_shed_pending() {
    let genesis = header_id(0);
    let mut state = TxState::new(genesis, MsgId::root());

    // A resume/backfill hands us the finalized config tip...
    state.set_finalized_config(msg_id(7));
    // ...and a pending inscription is in flight (observed or our own).
    submit_fake_inscription(&mut state, 1, MsgId::root(), msg_id(1));

    // The first shed at a tip resolving to that already-finalized config
    // must be a no-op — without seeding `observed_config_tip` it would fire
    // (`config_tip != root`) and orphan the pending tail.
    assert!(
        state
            .shed_pending_inscriptions_on_config(genesis)
            .is_empty(),
        "an already-finalized config must not orphan pending on resume"
    );
}

/// Many configs can land in one block as a chain (`root → C1 → C2`). The
/// config walk must resolve the *tip* of that chain, not the first entry,
/// so the shed evaluates pending configs against the correct parent.
#[test]
fn config_chain_in_one_block_resolves_tip_and_sheds_superseded() {
    let genesis = header_id(0);
    let b1 = header_id(1);
    let channel_id = channel();
    let mut state = TxState::new(genesis, MsgId::root());

    // Two chained configs land in a single block: C1 on root, C2 on C1.
    let (c1, c1_msg) = config_tx(MsgId::root(), 1);
    let (c2, c2_msg) = config_tx(c1_msg, 2);

    // One pending config chains on the now-superseded root; another chains
    // on the chain tip C2.
    let (stale, _) = config_tx(MsgId::root(), 3);
    let stale_hash = stale.hash;
    let (on_tip, _) = config_tx(c2_msg, 4);
    let on_tip_hash = on_tip.hash;
    state.submit_other(stale, channel_id).unwrap();
    state.submit_other(on_tip, channel_id).unwrap();

    state.process_block(
        b1,
        genesis,
        genesis,
        &[],
        vec![
            config_block_tx(&c1, c1_msg, MsgId::root()),
            config_block_tx(&c2, c2_msg, c1_msg),
        ],
        Vec::new(),
    );

    // The walk resolves the chain tip (C2), not C1 or root.
    assert_eq!(
        state.config_tip_at(b1),
        c2_msg,
        "config_tip_at must resolve the last config in the block's chain"
    );

    // The shed evaluates against that tip: the root-parented config is
    // superseded and shed; the C2-parented one still chains on the tip and
    // is kept.
    let shed = state.shed_stale_pending_configs(b1);
    assert_eq!(shed.len(), 1);
    assert_eq!(shed[0].hash, stale_hash);
    assert!(!state.pending_other_contains(&stale_hash));
    assert!(state.pending_other_contains(&on_tip_hash));
}

/// A pending config mined on the current branch sits in the tip's safe set
/// and is not shed.
#[test]
fn shed_stale_pending_configs_keeps_safe_on_branch_config() {
    let genesis = header_id(0);
    let tip = header_id(1);
    let channel_id = channel();
    let mut state = TxState::new(genesis, MsgId::root());

    let (config, config_msg) = config_tx(MsgId::root(), 1);
    let config_hash = config.hash;
    // Build the block entry before `submit_other` moves the tx.
    let block_tx = config_block_tx(&config, config_msg, MsgId::root());
    state.submit_other(config, channel_id).unwrap();

    // The config lands on-branch: in the block's safe set and on the config
    // lineage.
    state.process_block(
        tip,
        genesis,
        genesis,
        &[config_hash],
        vec![block_tx],
        Vec::new(),
    );

    assert!(state.shed_stale_pending_configs(tip).is_empty());
    assert!(state.pending_other_contains(&config_hash));
}

/// A pending config that merely extends our local
/// config tip must survive while its own block is still unprocessed — even
/// though the node may report a further-ahead config tip. We seed from the
/// local tip, so an ahead-of-us node tip never sheds it.
#[test]
fn shed_stale_pending_configs_keeps_pending_extending_local_tip() {
    let genesis = header_id(0);
    let b1 = header_id(1);
    let channel_id = channel();
    let mut state = TxState::new(genesis, MsgId::root());

    // Config B lands on-branch → the local config tip is B.
    let (b_config, b_msg) = config_tx(MsgId::root(), 1);
    state.process_block(
        b1,
        genesis,
        genesis,
        &[],
        vec![config_block_tx(&b_config, b_msg, MsgId::root())],
        Vec::new(),
    );

    // Our config C chains on B and is pending; its block hasn't arrived, so
    // it is in no safe set.
    let (c_config, _c_msg) = config_tx(b_msg, 2);
    let c_hash = c_config.hash;
    state.submit_other(c_config, channel_id).unwrap();

    // C extends the local tip B, so it survives.
    assert!(state.shed_stale_pending_configs(b1).is_empty());
    assert!(state.pending_other_contains(&c_hash));
}

/// A config landing sheds only the not-yet-mined pending tail; an
/// inscription already mined on this branch is kept (re-posting an on-chain
/// entry would duplicate). Same config tip on a later block sheds nothing.
#[test]
fn config_land_sheds_pending_tail_but_keeps_mined_inscription() {
    let genesis = header_id(0);
    let b1 = header_id(1);
    let mut state = TxState::new(genesis, MsgId::root());

    // p1 is published and mined on-branch — it enters the block's safe set.
    let p1 = submit_fake_inscription(&mut state, 1, MsgId::root(), msg_id(1));
    let m1 = InscriptionInfo {
        tx_hash: p1,
        parent_msg: MsgId::root(),
        this_msg: msg_id(1),
        payload: payload(1),
        signer: Some(test_signer()),
    };
    state.process_block(
        b1,
        genesis,
        genesis,
        &[p1],
        vec![BlockChannelTx::Inscription(m1)],
        Vec::new(),
    );

    // p2, p3 chain on the mined tip but are not yet mined (pending).
    let p2 = submit_fake_inscription(&mut state, 2, msg_id(1), msg_id(2));
    let p3 = submit_fake_inscription(&mut state, 3, msg_id(2), msg_id(3));

    // No config has landed → the config tip is unchanged → nothing shed.
    assert!(state.shed_pending_inscriptions_on_config(b1).is_empty());

    // A config lands, moving the config tip.
    let (cfg, cfg_msg) = config_tx(MsgId::root(), 9);
    let b2 = header_id(2);
    state.process_block(
        b2,
        b1,
        genesis,
        &[],
        vec![config_block_tx(&cfg, cfg_msg, MsgId::root())],
        Vec::new(),
    );

    // Only the not-yet-mined tail is shed, parent-first; the mined p1 is on
    // chain and must not be orphaned (re-posting it would duplicate).
    let shed: Vec<TxHash> = state
        .shed_pending_inscriptions_on_config(b2)
        .iter()
        .map(|t| t.tx_hash())
        .collect();
    assert_eq!(shed, vec![p2, p3], "shed only the not-yet-mined tail");
    assert!(
        state.pending_inscription(&p1).is_some(),
        "the mined inscription must not be orphaned"
    );

    // Same config tip on the next call → nothing more to shed.
    assert!(state.shed_pending_inscriptions_on_config(b2).is_empty());
}

/// A config-only block does not touch the message lineage: no update is
/// reported, the channel tip stays, and pending inscriptions survive.
#[test]
fn config_only_block_does_not_shed_pending_inscription() {
    let genesis = header_id(0);
    let b1 = header_id(1);
    let b2 = header_id(2);
    let mut state = TxState::new(genesis, MsgId::root());

    // Mined inscription M establishes channel tip m.
    let m_info = InscriptionInfo {
        tx_hash: make_dummy_tx(1).hash,
        parent_msg: MsgId::root(),
        this_msg: msg_id(1),
        payload: payload(1),
        signer: Some(test_signer()),
    };
    state.process_block(
        b1,
        genesis,
        genesis,
        &[],
        vec![BlockChannelTx::Inscription(m_info)],
        Vec::new(),
    );

    // Local pending inscription P chained on m (published, not mined).
    let p_hash = submit_fake_inscription(&mut state, 2, msg_id(1), msg_id(2));

    let old_lineage = state.channel_lineage(b1);

    // A config-only block classifies to no channel txs at all.
    state.process_block(b2, b1, genesis, &[], vec![], Vec::new());

    assert!(
        state
            .detect_channel_update(&old_lineage, b2, &KeySet::new())
            .is_none(),
        "a config-only block does not change the message lineage"
    );
    assert_eq!(state.channel_tip_at(b2), msg_id(1));
    assert!(state.pending_txs(b2).iter().any(|(h, _)| *h == p_hash));
    assert!(state.shed_off_branch_pending(b2).is_empty());
}

#[test]
fn extension_with_competing_inscription_orphans_displaced_local_pending() {
    // Scenario: local pending b1→b2→b3 from root, so the view is
    // b1,b2,b3. Competing c1 lands on chain consuming root as parent:
    // the view becomes c1, so the diff reports b1,b2,b3 orphaned and c1
    // adopted (the shed reports the same entries; the actor dedups).
    let genesis = header_id(0);
    let block1 = header_id(1);
    let block2 = header_id(2);
    let mut state = TxState::new(genesis, MsgId::root());

    let b1_msg = msg_id(10);
    let b2_msg = msg_id(11);
    let b3_msg = msg_id(12);
    submit_fake_inscription(&mut state, 1, MsgId::root(), b1_msg);
    submit_fake_inscription(&mut state, 2, b1_msg, b2_msg);
    submit_fake_inscription(&mut state, 3, b2_msg, b3_msg);
    assert_eq!(state.pending_publish_count(), 3);

    state.process_block(block1, genesis, genesis, &[], vec![], Vec::new());

    // Capture the old lineage before inserting block2, mirroring the real
    // caller; computing it after would let c1 bridge into the "before" view.
    let old_lineage = state.channel_lineage(block1);

    let c1_msg = msg_id(20);
    let c1_tx = make_dummy_tx(99);
    let c1_tx_hash = c1_tx.hash;
    let c1_inscription = InscriptionInfo {
        tx_hash: c1_tx_hash,
        parent_msg: MsgId::root(),
        this_msg: c1_msg,
        payload: payload(99),
        signer: Some(test_signer()),
    };
    // Mirror the observed inscription into pending before the safe-set
    // build, as `handle_block_event` does — the pending set reflects the
    // channel view, so c1 is retried too if it later reorgs out.
    state.observe_channel_inscription(
        c1_tx,
        MsgId::root(),
        c1_msg,
        payload(99),
        PendingBundle::Plain,
    );
    state.process_block(
        block2,
        block1,
        genesis,
        &[c1_tx_hash],
        vec![BlockChannelTx::Inscription(c1_inscription)],
        Vec::new(),
    );

    let update = state
        .detect_channel_update(&old_lineage, block2, &KeySet::new())
        .expect("should detect channel update");

    let orphaned: Vec<MsgId> = update
        .orphaned
        .iter()
        .filter_map(|t| t.inscription().map(|i| i.this_msg))
        .collect();
    assert_eq!(
        orphaned,
        vec![b1_msg, b2_msg, b3_msg],
        "displaced pending suffix"
    );
    assert_eq!(update.adopted.len(), 1);
    assert_eq!(update.adopted[0].inscription().unwrap().this_msg, c1_msg);
    // The mined c1 took root's position: b1 and its chain are displaced
    // and come out of the shed pass parents first; c1 is tracked
    // (already `posted`, excluded from re-posting while its block is
    // on-branch via the safe set).
    assert_eq!(state.pending_publish_count(), 1);
    let shed: Vec<MsgId> = state
        .shed_off_branch_pending(block2)
        .iter()
        .map(|t| t.inscription().this_msg)
        .collect();
    assert_eq!(shed, vec![b1_msg, b2_msg, b3_msg]);
    assert!(state.is_tracked(&c1_tx_hash));
    assert!(
        state
            .pending_txs(block2)
            .iter()
            .all(|(hash, _)| *hash != c1_tx_hash),
        "on-branch observed entry must not be re-posted"
    );
}

#[test]
fn second_pending_child_of_a_parent_is_refused() {
    let genesis = header_id(0);
    let block1 = header_id(1);
    let mut state = TxState::new(genesis, MsgId::root());
    state.process_block(block1, genesis, genesis, &[], vec![], Vec::new());

    let b1_msg = msg_id(10);
    let b1_hash = submit_fake_inscription(&mut state, 1, MsgId::root(), b1_msg);
    let refused =
        state.submit_inscription(make_dummy_tx(4), MsgId::root(), msg_id(30), payload(4));
    assert_eq!(
        refused,
        Err(ParentTaken {
            parent: MsgId::root(),
            by: b1_hash
        })
    );
    assert_eq!(state.pending_publish_count(), 1);
    assert_eq!(state.publish_parent(block1), b1_msg);
}

#[test]
fn linear_pending_suffix_extends_from_tail() {
    // Linear pending chain: root → b1 → b2.
    // publish_parent should return b2 (the tail).
    let genesis = header_id(0);
    let block1 = header_id(1);
    let mut state = TxState::new(genesis, MsgId::root());

    let b1_msg = msg_id(10);
    let b2_msg = msg_id(11);
    submit_fake_inscription(&mut state, 1, MsgId::root(), b1_msg);
    submit_fake_inscription(&mut state, 2, b1_msg, b2_msg);

    state.process_block(block1, genesis, genesis, &[], vec![], Vec::new());

    assert_eq!(state.publish_parent(block1), b2_msg);
}

#[test]
fn stale_pending_tail_not_reused_for_publish() {
    // Local pending b1 from root. c1 lands consuming root.
    // publish_parent should return c1 (canonical tip), not b1.
    let genesis = header_id(0);
    let block1 = header_id(1);
    let block2 = header_id(2);
    let mut state = TxState::new(genesis, MsgId::root());

    let b1_msg = msg_id(10);
    submit_fake_inscription(&mut state, 1, MsgId::root(), b1_msg);

    state.process_block(block1, genesis, genesis, &[], vec![], Vec::new());

    // c1 lands, consuming root
    let c1_msg = msg_id(20);
    let c1_inscription = InscriptionInfo {
        tx_hash: make_dummy_tx(99).hash,
        parent_msg: MsgId::root(),
        this_msg: c1_msg,
        payload: payload(99),
        signer: Some(test_signer()),
    };
    state.process_block(
        block2,
        block1,
        genesis,
        &[],
        vec![BlockChannelTx::Inscription(c1_inscription)],
        Vec::new(),
    );

    // b1 is stale — publish_parent should return canonical tip (c1)
    assert_eq!(state.publish_parent(block2), c1_msg);
}

#[test]
fn multi_block_lib_advance_finalizes_intermediate() {
    // When LIB advances multiple blocks at once, all intermediate txs must finalize
    // genesis <- b1 (tx1) <- b2 (tx2) <- b3
    //                                     ^
    //                                    LIB jumps here
    let genesis = header_id(0);
    let b1 = header_id(1);
    let b2 = header_id(2);
    let b3 = header_id(3);
    let mut state = TxState::new(genesis, MsgId::root());

    let tx1 = make_dummy_tx(1);
    let tx2 = make_dummy_tx_on(dummy_tx_msg(&tx1), 2);
    let hash1 = tx1.hash;
    let hash2 = tx2.hash;

    state.submit_other(tx1, channel()).unwrap();
    state.submit_other(tx2, channel()).unwrap();

    // b1 has tx1
    state.process_block(b1, genesis, genesis, &[hash1], vec![], Vec::new());
    // b2 has tx2
    state.process_block(b2, b1, genesis, &[hash2], vec![], Vec::new());
    // b3, lib jumps from genesis to b2 (skipping b1)
    state.process_block(b3, b2, b2, &[], vec![], Vec::new());
    assert_eq!(
        state.unfinalized_count(),
        2,
        "txs still pending until backfill"
    );

    // Simulate backfill confirming both txs
    assert!(state.remove_pending(&hash1).is_some());
    assert!(state.remove_pending(&hash2).is_some());
    assert_eq!(state.unfinalized_count(), 0);
}

fn info_of(tx_hash: TxHash, parent_msg: MsgId, this_msg: MsgId, data: u8) -> InscriptionInfo {
    InscriptionInfo { tx_hash, parent_msg, this_msg, payload: payload(data), signer: Some(test_signer()) }
}

/// A transaction that was taken out again leaves the tracker as it was.
#[test]
fn removal_undoes_a_submission() {
    let mut state = TxState::new(header_id(0), MsgId::root());
    let hash = submit_fake_inscription(&mut state, 1, MsgId::root(), msg_id(1));
    assert!(state.is_tracked(&hash));
    assert_eq!(state.remove_pending(&hash).map(|tx| tx.hash), Some(hash));
    assert!(!state.is_tracked(&hash));
    assert_eq!(state.unfinalized_count(), 0);
    let again = submit_fake_inscription(&mut state, 1, MsgId::root(), msg_id(1));
    assert_eq!(again, hash);
}

/// What the tracker names as the publish parent is never taken.
#[test]
fn the_publish_parent_is_free() {
    let genesis = header_id(0);
    let mut state = TxState::new(genesis, MsgId::root());
    let mut parent = MsgId::root();
    for data in 1..=4u8 {
        assert_eq!(state.publish_parent(genesis), parent);
        submit_fake_inscription(&mut state, data, parent, msg_id(data));
        parent = msg_id(data);
    }
    assert_eq!(state.pending_publish_count(), 4);
}

#[test]
fn submissions_are_local_and_observations_are_not() {
    let mut state = TxState::new(header_id(0), MsgId::root());
    let ours = submit_fake_inscription(&mut state, 1, MsgId::root(), msg_id(1));
    let theirs = make_dummy_tx_on(msg_id(1), 2);
    let hash = theirs.hash;
    state.observe_channel_inscription(theirs, msg_id(1), msg_id(2), payload(2), PendingBundle::Plain);
    assert_eq!(state.tx_source(&ours), TxSource::Local);
    assert_eq!(state.tx_source(&hash), TxSource::Other);
    state.remove_local_tx(&ours);
    assert_eq!(state.tx_source(&ours), TxSource::Other);
}

#[test]
fn local_tracking_keeps_the_newest() {
    let mut state = TxState::new(header_id(0), MsgId::root());
    let first = submit_fake_inscription(&mut state, 1, MsgId::root(), msg_id(1));
    let second = submit_fake_inscription(&mut state, 2, msg_id(1), msg_id(2));
    let third = submit_fake_inscription(&mut state, 3, msg_id(2), msg_id(3));
    state.remove_pending(&first);
    state.prune_local_tx_tracking(2);
    assert_eq!(state.tx_source(&second), TxSource::Local);
    assert_eq!(state.tx_source(&third), TxSource::Local);
}

#[test]
fn observing_a_pending_transaction_changes_nothing() {
    let mut state = TxState::new(header_id(0), MsgId::root());
    let hash = submit_fake_inscription(&mut state, 1, MsgId::root(), msg_id(1));
    state.observe_channel_inscription(
        make_dummy_tx(1),
        MsgId::root(),
        msg_id(1),
        payload(1),
        PendingBundle::Plain,
    );
    assert_eq!(state.pending_publish_count(), 1);
    assert!(!state.pending_inscription(&hash).unwrap().posted);
}

#[test]
fn posting_is_counted_once() {
    let mut state = TxState::new(header_id(0), MsgId::root());
    let hash = submit_fake_inscription(&mut state, 1, MsgId::root(), msg_id(1));
    assert_eq!(state.posted_pending_publish_count(), 0);
    assert!(state.mark_pending_inscription_posted(&hash));
    assert!(!state.mark_pending_inscription_posted(&hash));
    assert!(!state.mark_pending_inscription_posted(&make_dummy_tx(9).hash));
    assert_eq!(state.posted_pending_publish_count(), 1);
}

#[test]
fn bundles_are_reported_by_their_kind() {
    let mut state = TxState::new(header_id(0), MsgId::root());
    let withdraw = make_dummy_tx(1);
    let withdraw_hash = withdraw.hash;
    state
        .submit_atomic_withdraw(
            withdraw,
            MsgId::root(),
            msg_id(1),
            payload(1),
            Vec::<WithdrawInfo>::new(),
            Outputs::empty(),
        )
        .unwrap();
    let pin = make_dummy_tx(2);
    let pin_hash = pin.hash;
    state
        .submit_pin_deposit(
            pin,
            msg_id(1),
            msg_id(2),
            payload(2),
            Inputs::new(vec![wallet_note_id(5)]),
        )
        .unwrap();
    assert!(matches!(
        state.pending_inscription(&withdraw_hash).unwrap().reported(),
        PendingTx::AtomicWithdraw(_)
    ));
    match state.pending_inscription(&pin_hash).unwrap().reported() {
        PendingTx::PinDeposit(pin) => {
            assert_eq!(pin.consumed_notes, Inputs::new(vec![wallet_note_id(5)]));
            assert_eq!(pin.inscription.this_msg, msg_id(2));
        },
        other => panic!("not a pin deposit: {other:?}"),
    }
    assert_eq!(state.publish_parent(header_id(0)), msg_id(2));
}

#[test]
fn a_taken_parent_names_both_transactions() {
    let taken = ParentTaken { parent: msg_id(0xab), by: TxHash::from_bytes(tagged(0xcd)) };
    let message = taken.message();
    assert!(message.contains("ab00"), "{message}");
    assert!(message.contains("cd00"), "{message}");
}

/// The same two views differ in nothing, and what differs is reported once.
#[test]
fn a_view_against_itself_is_no_update() {
    let (genesis, b1) = (header_id(0), header_id(1));
    let mut state = TxState::new(genesis, MsgId::root());
    let hash = submit_fake_inscription(&mut state, 1, MsgId::root(), msg_id(1));
    state.process_block(
        b1,
        genesis,
        genesis,
        &[hash],
        vec![BlockChannelTx::Inscription(info_of(hash, MsgId::root(), msg_id(1), 1))],
        Vec::new(),
    );
    let lineage = state.channel_lineage(b1);
    assert!(state.detect_channel_update(&lineage, b1, &KeySet::new()).is_none());
    assert_eq!(state.channel_view_txs(b1, &KeySet::new()).len(), 1);
}

/// A transaction mined on the branch is not posted again there, and is on a
/// branch that does not carry it.
#[test]
fn safety_belongs_to_the_branch() {
    let (genesis, a1, a2, b1) = (header_id(0), header_id(1), header_id(2), header_id(3));
    let mut state = TxState::new(genesis, MsgId::root());
    let hash = submit_fake_inscription(&mut state, 1, MsgId::root(), msg_id(1));
    state.process_block(
        a1,
        genesis,
        genesis,
        &[hash],
        vec![BlockChannelTx::Inscription(info_of(hash, MsgId::root(), msg_id(1), 1))],
        Vec::new(),
    );
    state.process_block(a2, a1, genesis, &[], vec![], Vec::new());
    state.process_block(b1, genesis, genesis, &[], vec![], Vec::new());
    assert!(state.pending_txs(a2).is_empty());
    assert_eq!(state.pending_txs(b1).len(), 1);
}

#[test]
fn lib_advance_takes_the_tips_over() {
    let (genesis, b1, b2) = (header_id(0), header_id(1), header_id(2));
    let mut state = TxState::new(genesis, MsgId::root());
    let (cfg, cfg_msg) = config_tx(MsgId::root(), 9);
    state.process_block(
        b1,
        genesis,
        genesis,
        &[],
        vec![
            BlockChannelTx::Inscription(info_of(make_dummy_tx(1).hash, MsgId::root(), msg_id(1), 1)),
            config_block_tx(&cfg, cfg_msg, MsgId::root()),
        ],
        Vec::new(),
    );
    state.process_block(b2, b1, b1, &[], vec![], Vec::new());
    assert_eq!(state.lib(), b1);
    assert_eq!(state.channel_tip_at(b2), msg_id(1));
    assert_eq!(state.config_tip_at(b2), cfg_msg);
    assert_eq!(state.finalized_config(), cfg_msg);
}

/// A transaction with no place in either lineage survives both a rival message
/// and a rival config, and stays among what is posted.
#[test]
fn a_transaction_without_a_place_is_never_shed() {
    let (genesis, b1) = (header_id(0), header_id(1));
    let elsewhere = ChannelId::from_bytes(tagged(0x77));
    let mut state = TxState::new(genesis, MsgId::root());
    let tx = make_dummy_tx(1);
    let hash = tx.hash;
    state.submit_other(tx, elsewhere).unwrap();
    let rival = make_dummy_tx(2);
    let rival_msg = dummy_tx_msg(&rival);
    let (config, config_msg) = config_tx(MsgId::root(), 3);
    state.process_block(
        b1,
        genesis,
        genesis,
        &[],
        vec![
            BlockChannelTx::Inscription(info_of(rival.hash, MsgId::root(), rival_msg, 2)),
            config_block_tx(&config, config_msg, MsgId::root()),
        ],
        Vec::new(),
    );
    assert!(state.shed_off_branch_pending_other(b1).is_empty());
    assert!(state.shed_stale_pending_configs(b1).is_empty());
    assert!(state.pending_other_contains(&hash));
    let posted: Vec<TxHash> = state.pending_txs(b1).iter().map(|(hash, _)| *hash).collect();
    assert_eq!(posted, vec![hash]);
}

/// Shed entries come parent first, also where an opaque transaction stands
/// between them, and a second pass finds nothing.
#[test]
fn shed_entries_come_parent_first_through_an_opaque_one() {
    let genesis = header_id(0);
    let mut state = TxState::new(genesis, MsgId::root());
    let first = submit_fake_inscription(&mut state, 1, msg_id(5), msg_id(6));
    let between = InscriptionOp { id: msg_id(2), ..inscribe_op(msg_id(6), 2) };
    state.submit_other(tx_of(vec![Op::ChannelInscribe(between)]), channel()).unwrap();
    let last = submit_fake_inscription(&mut state, 3, msg_id(2), msg_id(7));
    let shed: Vec<TxHash> =
        state.shed_off_branch_pending(genesis).iter().map(|tx| tx.tx_hash()).collect();
    assert_eq!(shed, vec![first, last]);
    assert!(!state.is_tracked(&first) && !state.is_tracked(&last));
    assert!(state.shed_off_branch_pending(genesis).is_empty());
}

/// An advance of LIB keeps what descends from it, tips included, and nothing
/// else.
#[test]
fn lib_advance_keeps_the_tips_of_what_is_left() {
    let ids: Vec<HeaderId> = (0..5).map(header_id).collect();
    let run = |lib: HeaderId| {
        let mut state = TxState::new(ids[0], MsgId::root());
        let tx = |n: u8| TxHash::from_bytes(tagged(100 + n));
        let info = |n: u8, parent: MsgId| {
            vec![BlockChannelTx::Inscription(info_of(tx(n), parent, msg_id(n), n))]
        };
        state.process_block(ids[1], ids[0], ids[0], &[], info(1, MsgId::root()), Vec::new());
        state.process_block(ids[4], ids[0], ids[0], &[], info(4, MsgId::root()), Vec::new());
        state.process_block(ids[2], ids[1], ids[0], &[], Vec::new(), Vec::new());
        state.process_block(ids[3], ids[2], lib, &[], info(3, msg_id(1)), Vec::new());
        state
    };
    let (stayed, moved) = (run(ids[0]), run(ids[2]));
    for id in [ids[2], ids[3]] {
        assert!(moved.has_block(&id));
        assert_eq!(moved.channel_tip_at(id), stayed.channel_tip_at(id));
    }
    assert_eq!(moved.channel_tip_at(ids[2]), msg_id(1));
    assert!(!moved.has_block(&ids[1]) && !moved.has_block(&ids[4]));
}

/// A genesis that is its own parent does not stand in the way of an advance.
#[test]
fn lib_advances_past_a_block_that_is_its_own_parent() {
    let ids: Vec<HeaderId> = (0..3).map(header_id).collect();
    let mut state = TxState::new(ids[0], MsgId::root());
    state.process_block(ids[0], ids[0], ids[0], &[], Vec::new(), Vec::new());
    let tx = TxHash::from_bytes(tagged(101));
    let mined = vec![BlockChannelTx::Inscription(info_of(tx, MsgId::root(), msg_id(1), 1))];
    state.process_block(ids[1], ids[0], ids[0], &[], mined, Vec::new());
    state.process_block(ids[2], ids[1], ids[1], &[], Vec::new(), Vec::new());
    assert!(!state.has_block(&ids[0]));
    assert!(state.has_block(&ids[1]) && state.has_block(&ids[2]));
    assert_eq!(state.channel_tip_at(ids[2]), msg_id(1));
}
