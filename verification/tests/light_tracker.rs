use zone_sdk::ids::{ChannelId, Ed25519PublicKey, HeaderId, MsgId, TxHash};
use zone_sdk::mantle::{Inscription, InscriptionOp, Op, SignedOps};
use zone_sdk::sequencer::types::InscriptionInfo;
use zone_sdk::state::TxState;

fn tagged(n: u8) -> [u8; 32] {
    let mut bytes = [0u8; 32];
    bytes[0] = n;
    bytes
}

fn header_id(n: u8) -> HeaderId {
    HeaderId::from_bytes(tagged(n))
}

fn msg_id(n: u8) -> MsgId {
    MsgId::from_bytes(tagged(n))
}

fn make_dummy_tx(data: u8) -> SignedOps {
    SignedOps::new(TxHash::from_bytes(tagged(data)), vec![], vec![])
}

fn inscribe_tx(data: u8, parent: MsgId, id: MsgId) -> SignedOps {
    SignedOps::new(
        TxHash::from_bytes(tagged(data)),
        vec![Op::ChannelInscribe(InscriptionOp {
            channel_id: ChannelId::from_bytes([0u8; 32]),
            inscription: Inscription::new(vec![data]),
            parent,
            signer: Ed25519PublicKey::from_bytes([0u8; 32]),
            id,
        })],
        vec![],
    )
}

fn info(data: u8, parent: MsgId, id: MsgId) -> InscriptionInfo {
    InscriptionInfo {
        tx_hash: TxHash::from_bytes(tagged(data)),
        parent_msg: parent,
        this_msg: id,
        payload: Inscription::new(vec![data]),
        signer: Some(Ed25519PublicKey::from_bytes([0u8; 32])),
    }
}

fn messages(infos: &[InscriptionInfo]) -> Vec<MsgId> {
    infos.iter().map(|i| i.this_msg).collect()
}

#[test]
fn state_submit_and_query_pending() {
    let genesis = header_id(0);
    let mut state = TxState::new(genesis, MsgId::root());
    let tx = make_dummy_tx(1);
    let hash = tx.hash;

    state.submit(hash, tx);
    assert_eq!(state.pending_count(), 1);
}

#[test]
fn state_block_includes_tx() {
    let genesis = header_id(0);
    let b1 = header_id(1);
    let mut state = TxState::new(genesis, MsgId::root());

    let tx = make_dummy_tx(1);
    let hash = tx.hash;
    state.submit(hash, tx);

    state.process_block(b1, genesis, genesis, vec![hash], vec![]);

    // Not irreversible yet, so still pending ...
    assert_eq!(state.pending_count(), 1);

    // ... but mined on this branch.
    assert!(state.pending_txs(b1).is_empty());
}

#[test]
fn state_lib_advance_finalizes() {
    let genesis = header_id(0);
    let b1 = header_id(1);
    let b2 = header_id(2);
    let mut state = TxState::new(genesis, MsgId::root());

    let tx = make_dummy_tx(1);
    let hash = tx.hash;
    state.submit(hash, tx);

    state.process_block(b1, genesis, genesis, vec![hash], vec![]);
    assert_eq!(state.pending_count(), 1);

    let finalized = state.process_block(b2, b1, b1, vec![], vec![]);
    assert_eq!(finalized, vec![hash]);
    assert_eq!(state.pending_count(), 0);
}

#[test]
fn state_pending_txs_excludes_safe() {
    let genesis = header_id(0);
    let b1 = header_id(1);
    let mut state = TxState::new(genesis, MsgId::root());

    let tx1 = make_dummy_tx(1);
    let tx2 = make_dummy_tx(2);
    let hash1 = tx1.hash;
    let hash2 = tx2.hash;

    state.submit(hash1, tx1);
    state.submit(hash2, tx2);

    state.process_block(b1, genesis, genesis, vec![hash1], vec![]);

    let pending: Vec<TxHash> = state.pending_txs(b1).iter().map(|(h, _)| *h).collect();
    assert_eq!(pending.len(), 1);
    assert!(pending.contains(&hash2));
}

#[test]
fn state_reorg_changes_pending_status() {
    // G -> b1 (has tx)
    //   -> b2 (no tx)
    let genesis = header_id(0);
    let b1 = header_id(1);
    let b2 = header_id(2);
    let mut state = TxState::new(genesis, MsgId::root());

    let tx = make_dummy_tx(1);
    let hash = tx.hash;
    state.submit(hash, tx);

    state.process_block(b1, genesis, genesis, vec![hash], vec![]);
    assert!(state.pending_txs(b1).is_empty());

    state.process_block(b2, genesis, genesis, vec![], vec![]);
    assert!(state.pending_txs(b2).iter().any(|(h, _)| *h == hash));
}

#[test]
fn state_lib_advance_prunes_ancestors_and_orphans() {
    // Chain: genesis <- a1 <- a2 <- a3 (lib) <- a4 <- a5 <- a6
    //                    |
    //                   b1 <- b2 (fork from a1)
    let genesis = header_id(0);
    let a1 = header_id(1);
    let a2 = header_id(2);
    let a3 = header_id(3);
    let a4 = header_id(4);
    let a5 = header_id(5);
    let a6 = header_id(6);
    let b1 = header_id(10);
    let b2 = header_id(11);

    let mut state = TxState::new(genesis, MsgId::root());

    state.process_block(a1, genesis, genesis, vec![], vec![]);

    state.process_block(b1, a1, genesis, vec![], vec![]);
    state.process_block(b2, b1, genesis, vec![], vec![]);

    assert!(state.has_block(&b1));
    assert!(state.has_block(&b2));

    state.process_block(a2, a1, genesis, vec![], vec![]);
    state.process_block(a3, a2, a3, vec![], vec![]);

    assert!(!state.has_block(&genesis), "genesis (old lib) should be pruned");
    assert!(!state.has_block(&a1), "a1 should be pruned");
    assert!(!state.has_block(&a2), "a2 should be pruned");
    assert!(!state.has_block(&b1), "orphan b1 should be pruned");
    assert!(!state.has_block(&b2), "orphan b2 should be pruned");
    assert!(state.has_block(&a3), "lib should exist");

    state.process_block(a4, a3, a3, vec![], vec![]);
    state.process_block(a5, a4, a5, vec![], vec![]);
    state.process_block(a6, a5, a5, vec![], vec![]);

    assert!(!state.has_block(&a3), "old lib should be pruned");
    assert!(!state.has_block(&a4), "a4 should be pruned");
    assert!(state.has_block(&a5), "new lib should exist");
    assert!(state.has_block(&a6), "tip should exist");
}

#[test]
fn state_multi_block_lib_advance_finalizes_intermediate() {
    // genesis <- b1 (tx1) <- b2 (tx2) <- b3
    //                        ^
    //                        LIB jumps here
    let genesis = header_id(0);
    let b1 = header_id(1);
    let b2 = header_id(2);
    let b3 = header_id(3);
    let mut state = TxState::new(genesis, MsgId::root());

    let tx1 = make_dummy_tx(1);
    let tx2 = make_dummy_tx(2);
    let hash1 = tx1.hash;
    let hash2 = tx2.hash;

    state.submit(hash1, tx1);
    state.submit(hash2, tx2);

    state.process_block(b1, genesis, genesis, vec![hash1], vec![]);
    state.process_block(b2, b1, genesis, vec![hash2], vec![]);
    let finalized = state.process_block(b3, b2, b2, vec![], vec![]);

    assert!(finalized.contains(&hash1));
    assert!(finalized.contains(&hash2));
    assert_eq!(finalized.len(), 2);
    assert_eq!(state.pending_count(), 0);
}

#[test]
fn light_only_the_finalized_leaves_pending() {
    let (genesis, b1, b2) = (header_id(0), header_id(1), header_id(2));
    let mut state = TxState::new(genesis, MsgId::root());
    state.submit(make_dummy_tx(1).hash, make_dummy_tx(1));
    state.submit(make_dummy_tx(2).hash, make_dummy_tx(2));
    state.process_block(b1, genesis, genesis, vec![make_dummy_tx(1).hash], vec![info(
        9,
        MsgId::root(),
        msg_id(9),
    )]);
    state.process_block(b2, b1, b1, vec![], vec![]);
    let left: Vec<TxHash> = state.all_pending_txs().iter().map(|(h, _)| *h).collect();
    assert_eq!(left, vec![make_dummy_tx(2).hash]);
    assert_eq!(state.finalized_msg(), msg_id(9));
    assert_eq!(state.lib(), b1);
}

#[test]
fn light_safety_is_inherited() {
    let (genesis, b1, b2) = (header_id(0), header_id(1), header_id(2));
    let mut state = TxState::new(genesis, MsgId::root());
    state.submit(make_dummy_tx(1).hash, make_dummy_tx(1));
    state.process_block(b1, genesis, genesis, vec![make_dummy_tx(1).hash], vec![]);
    state.process_block(b2, b1, genesis, vec![], vec![]);
    assert!(state.pending_txs(b2).is_empty());
    assert_eq!(state.pending_txs(genesis).len(), 1);
}

#[test]
fn light_a_block_that_carries_a_foreign_hash_makes_nothing_safe() {
    let (genesis, b1) = (header_id(0), header_id(1));
    let mut state = TxState::new(genesis, MsgId::root());
    state.process_block(b1, genesis, genesis, vec![make_dummy_tx(1).hash], vec![]);
    state.submit(make_dummy_tx(1).hash, make_dummy_tx(1));
    assert_eq!(state.pending_txs(b1).len(), 1);
}

#[test]
fn light_removal_undoes_a_submission() {
    let mut state = TxState::new(header_id(0), MsgId::root());
    let tx = make_dummy_tx(1);
    let hash = tx.hash;
    state.submit(hash, tx.clone());
    assert_eq!(state.remove_pending(&hash), Some(tx));
    assert_eq!(state.pending_count(), 0);
    assert_eq!(state.remove_pending(&hash), None);
}

#[test]
fn light_inscriptions_are_told_from_plain_transactions() {
    let mut state = TxState::new(header_id(0), MsgId::root());
    state.submit(make_dummy_tx(1).hash, make_dummy_tx(1));
    assert!(!state.has_pending_inscriptions());
    let tx = inscribe_tx(2, MsgId::root(), msg_id(2));
    state.submit(tx.hash, tx);
    assert!(state.has_pending_inscriptions());
}

#[test]
fn light_branch_and_tip_follow_the_blocks() {
    let (genesis, b1, b2) = (header_id(0), header_id(1), header_id(2));
    let mut state = TxState::new(genesis, MsgId::root());
    state.process_block(b1, genesis, genesis, vec![], vec![info(1, MsgId::root(), msg_id(1))]);
    state.process_block(
        b2,
        b1,
        genesis,
        vec![],
        vec![info(2, msg_id(1), msg_id(2)), info(3, msg_id(2), msg_id(3))],
    );
    assert_eq!(
        messages(&state.collect_inscriptions_on_branch(b2)),
        vec![msg_id(1), msg_id(2), msg_id(3)]
    );
    assert_eq!(state.channel_tip_at(b2), msg_id(3));
    assert_eq!(state.channel_tip_at(b1), msg_id(1));
    assert_eq!(state.channel_tip_at(genesis), MsgId::root());
}

#[test]
fn light_same_tip_is_no_update() {
    let (genesis, b1) = (header_id(0), header_id(1));
    let mut state = TxState::new(genesis, MsgId::root());
    state.process_block(b1, genesis, genesis, vec![], vec![info(1, MsgId::root(), msg_id(1))]);
    assert!(state.detect_channel_update(b1, b1).is_none());
}

#[test]
fn light_extension_is_adopted_without_conflict() {
    let (genesis, b1, b2) = (header_id(0), header_id(1), header_id(2));
    let mut state = TxState::new(genesis, MsgId::root());
    state.process_block(b1, genesis, genesis, vec![], vec![info(1, MsgId::root(), msg_id(1))]);
    state.process_block(b2, b1, genesis, vec![], vec![info(2, msg_id(1), msg_id(2))]);
    let update = state.detect_channel_update(b1, b2).unwrap();
    assert!(!update.is_conflict());
    assert_eq!(messages(&update.adopted), vec![msg_id(2)]);
    assert_eq!(update.new_channel_tip, msg_id(2));
}

#[test]
fn light_rival_branch_is_a_conflict() {
    let (genesis, a1, b1, b2) = (header_id(0), header_id(1), header_id(2), header_id(3));
    let mut state = TxState::new(genesis, MsgId::root());
    let ours = inscribe_tx(1, MsgId::root(), msg_id(1));
    state.submit(ours.hash, ours);
    let pending = inscribe_tx(7, msg_id(1), msg_id(7));
    state.submit(pending.hash, pending);
    state.process_block(a1, genesis, genesis, vec![], vec![info(1, MsgId::root(), msg_id(1))]);
    state.process_block(b1, genesis, genesis, vec![], vec![]);
    state.process_block(b2, b1, genesis, vec![], vec![info(2, MsgId::root(), msg_id(2))]);
    assert_eq!(messages(&state.collect_pending_suffix(msg_id(1))), vec![msg_id(7)]);
    let update = state.detect_channel_update(a1, b2).unwrap();
    assert!(update.is_conflict());
    assert_eq!(messages(&update.invalidated), vec![msg_id(1), msg_id(7)]);
    assert_eq!(messages(&update.adopted), vec![msg_id(2)]);
    assert_eq!(update.new_channel_tip, msg_id(2));
}

/// The pending suffix lists each inscription once, behind what it chains from,
/// in whatever order they were submitted.
#[test]
fn light_pending_suffix_comes_parents_first() {
    let mut state = TxState::new(header_id(0), MsgId::root());
    for (data, parent, id) in [
        (1, msg_id(12), msg_id(13)),
        (2, msg_id(11), msg_id(12)),
        (9, MsgId::root(), msg_id(11)),
        (3, msg_id(11), msg_id(14)),
        (4, msg_id(50), msg_id(51)),
    ] {
        let tx = inscribe_tx(data, parent, id);
        state.submit(tx.hash, tx);
    }
    let suffix = state.collect_pending_suffix(MsgId::root());
    let mut ids = messages(&suffix);
    for (i, info) in suffix.iter().enumerate() {
        assert!(
            info.parent_msg == MsgId::root() || ids[..i].contains(&info.parent_msg),
            "{info:?} stands before its parent"
        );
    }
    ids.sort();
    assert_eq!(ids, vec![msg_id(11), msg_id(12), msg_id(13), msg_id(14)]);
}
