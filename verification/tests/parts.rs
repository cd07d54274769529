use std::sync::Arc;

use zone_sdk::adapter::{
    build_deposit_events, expected_deposits, resolve_deposit_events, BlockDepositEvent,
    DepositOpKey, EventsReply,
};
use zone_sdk::block_tree::{blocks_below, branch_blocks, orphan_blocks};
use zone_sdk::collections::{insert_sorted, KeyMap, KeySet};
use zone_sdk::ids::{
    Bytes32, ChannelId, Ed25519PublicKey, HeaderId, Key, MsgId, NoteId, OpId, OrderedKey, TxHash,
};
use zone_sdk::indexer::ZoneIndexer;
use zone_sdk::inscriptions::{extract_inscriptions, matches_channel};
use zone_sdk::items::Items;
use zone_sdk::mantle::{
    ChannelConfigOp, DepositOp, Inputs, Inscription, InscriptionOp, Op, Outputs, SignedOps,
    TransferOp,
};
use zone_sdk::messages::{Deposit, Withdraw, ZoneBlock, ZoneMessage};
use zone_sdk::safe_set::SafeSet;
use zone_sdk::sequencer::channel_tx::{
    channel_configs, channel_inscriptions, channel_transfers, classify, is_pure_config,
    touches_channel_tip, BlockChannelTx,
};
use zone_sdk::sequencer::types::{
    AtomicWithdrawInfo, ChannelUpdate, ChannelUpdateTx, Error, InscriptionInfo, OrphanedTx,
    PendingTx, PinDepositInfo, PublishedTx, SequencerChannelView, SequencerConfig,
};
use zone_sdk::text::push_decimal;
use zone_sdk::time::{Duration, Instant, SystemTime, EARLIEST_NANOS, LATEST_NANOS};

fn tagged(n: u8) -> [u8; 32] {
    let mut bytes = [0u8; 32];
    bytes[0] = n;
    bytes
}

fn header_id(n: u8) -> HeaderId {
    HeaderId::from_bytes(tagged(n))
}

fn msg_id(n: u8) -> MsgId {
    MsgId::from_bytes(tagged(n))
}

fn tx_hash(n: u8) -> TxHash {
    TxHash::from_bytes(tagged(n))
}

fn channel(n: u8) -> ChannelId {
    ChannelId::from_bytes([n; 32])
}

fn inscribe(channel_id: ChannelId, parent: MsgId, id: MsgId, payload: &[u8]) -> Op {
    Op::ChannelInscribe(InscriptionOp {
        channel_id,
        inscription: Inscription::new(payload.to_vec()),
        parent,
        signer: Ed25519PublicKey::from_bytes([1u8; 32]),
        id,
    })
}

fn config(channel: ChannelId, parent: MsgId, id: MsgId) -> Op {
    Op::ChannelConfig(ChannelConfigOp {
        channel,
        parent,
        keys: Arc::new(vec![]),
        posting_timeframe: 0,
        posting_timeout: 0,
        configuration_threshold: 1,
        transfer_threshold: 1,
        id,
    })
}

fn transfer() -> Op {
    Op::Transfer(TransferOp { inputs: Inputs::new(vec![]), outputs: Outputs::empty() })
}

fn tx(n: u8, ops: Vec<Op>) -> SignedOps {
    SignedOps::new(tx_hash(n), ops, vec![])
}

fn info(n: u8) -> InscriptionInfo {
    InscriptionInfo {
        tx_hash: tx_hash(n),
        parent_msg: MsgId::root(),
        this_msg: msg_id(n),
        payload: Inscription::empty(),
        signer: None,
    }
}

#[test]
fn root_is_zero() {
    assert_eq!(MsgId::root(), MsgId::from_bytes([0u8; 32]));
    assert_ne!(MsgId::root(), msg_id(1));
}

#[test]
fn ids_keep_their_bytes_and_their_order() {
    let mut bytes = [0u8; 32];
    for (i, byte) in bytes.iter_mut().enumerate() {
        *byte = (i * 7) as u8;
    }
    let id = Bytes32::from_bytes(bytes);
    assert_eq!(id.to_bytes(), bytes.to_vec());
    assert!(tx_hash(1).precedes(&tx_hash(2)));
    assert!(!tx_hash(2).precedes(&tx_hash(1)));
    assert!(!tx_hash(2).precedes(&tx_hash(2)));
    assert!(tx_hash(2).same(&tx_hash(2)));
    let (mut low, mut high) = ([0u8; 32], [0u8; 32]);
    low[31] = 255;
    high[16] = 1;
    assert!(NoteId::from_bytes(low).precedes(&NoteId::from_bytes(high)));
}

#[test]
fn numbers_are_spelled_in_decimal() {
    for n in [0u64, 9, 10, 4096, u64::MAX] {
        let mut text = "n=".to_string();
        push_decimal(&mut text, n);
        assert_eq!(text, format!("n={n}"));
    }
}

#[test]
fn errors_read_as_text() {
    assert_eq!(
        Error::Unavailable { reason: "starting" }.message(),
        "sequencer unavailable: starting"
    );
    assert_eq!(Error::Network("down".to_string()).message(), "network error: down");
    assert!(Error::ChannelStateChanged("moved".to_string()).message().ends_with("moved"));
    assert!(Error::InvalidMultiSig("few".to_string()).message().ends_with("few"));
}

#[test]
fn the_default_configuration() {
    let config = SequencerConfig::default();
    assert_eq!(config.resubmit_interval, Duration::from_secs(30));
    assert_eq!(config.publish_channel_capacity, 256);
    assert_eq!(config.max_pending_publish_depth, 10);
    assert_eq!(config.chain_start_time, None);
    assert_eq!(config.min_slots_remaining_in_turn, 1);
    assert_eq!(config.slot_duration, Duration::from_secs(1));
}

#[test]
fn a_new_view_knows_nothing() {
    let view = SequencerChannelView::new(channel(1));
    assert_eq!(view.channel_id, channel(1));
    assert_eq!(view.channel, None);
    assert!(!view.our_turn_to_write);
    assert_eq!(view.tip_message, MsgId::root());
}

#[test]
fn times_add_up_to_what_the_clock_holds() {
    let second = Duration::from_secs(1);
    assert_eq!(second, Duration::from_millis(1000));
    assert_eq!(second, Duration::from_nanos(1_000_000_000));
    assert_eq!(
        SystemTime { nanos: 5 }.checked_add(second),
        Some(SystemTime { nanos: 1_000_000_005 })
    );
    assert_eq!(SystemTime { nanos: LATEST_NANOS }.checked_add(second), None);
    assert_eq!(
        Instant { nanos: EARLIEST_NANOS }.checked_add(Duration::from_nanos(0)),
        Some(Instant { nanos: EARLIEST_NANOS })
    );
    assert_eq!(Instant { nanos: LATEST_NANOS }.checked_add(Duration::from_nanos(1)), None);
}

#[test]
fn maps_and_sets_hold_each_key_once() {
    let mut map = KeyMap::new();
    map.insert(tx_hash(1), 10u64);
    map.insert(tx_hash(2), 20u64);
    map.insert(tx_hash(1), 11u64);
    assert_eq!(map.len(), 2);
    assert_eq!(map.get(&tx_hash(1)), Some(&11));
    assert_eq!(map.keys(), vec![tx_hash(1), tx_hash(2)]);
    assert_eq!(map.remove(&tx_hash(1)), Some(11));
    assert_eq!(map.remove(&tx_hash(1)), None);
    assert!(!map.is_empty());

    let mut set = KeySet::new();
    assert!(set.insert(tx_hash(1)));
    assert!(!set.insert(tx_hash(1)));
    let mut more = KeySet::new();
    more.insert(tx_hash(2));
    set.extend(&more);
    assert!(set.contains(&tx_hash(2)));
    assert!(set.remove(&tx_hash(2)));
    assert!(!set.remove(&tx_hash(2)));
}

#[test]
fn sorted_insertion_keeps_the_order() {
    let mut list = Vec::new();
    for n in [3u8, 1, 2, 1] {
        insert_sorted(&mut list, tx_hash(n));
    }
    assert_eq!(list, vec![tx_hash(1), tx_hash(2), tx_hash(3)]);
}

/// The persistent set: a change makes a new set and leaves the old one.
#[test]
fn safe_sets_are_persistent() {
    let empty = SafeSet::new();
    let one = empty.insert(tx_hash(1));
    let two = one.insert(tx_hash(2));
    let copy = two.copy();
    let less = two.remove(&tx_hash(1));
    assert!(!empty.contains(&tx_hash(1)));
    assert!(one.contains(&tx_hash(1)) && !one.contains(&tx_hash(2)));
    assert!(two.contains(&tx_hash(1)) && two.contains(&tx_hash(2)));
    assert!(!less.contains(&tx_hash(1)) && less.contains(&tx_hash(2)));
    let mut listed = copy.to_vec();
    listed.sort();
    assert_eq!(listed, vec![tx_hash(1), tx_hash(2)]);
    assert!(empty.to_vec().is_empty());
}

#[test]
fn items_hand_out_what_they_hold() {
    let items = Items::from_vec(vec![1u64, 2, 3]);
    let copy = items.clone();
    assert_eq!(copy.refs(), vec![&1u64, &2, &3]);
    assert_eq!(copy, items);
    assert!(!items.is_empty());
    assert!(Items::<u64>::from_vec(vec![]).is_empty());
}

#[test]
fn branches_run_from_lib_to_the_tip() {
    // 0 (LIB) <- 1 <- 2; 1 <- 3; 9 <- 8
    let mut parents = KeyMap::new();
    parents.insert(header_id(1), header_id(0));
    parents.insert(header_id(2), header_id(1));
    parents.insert(header_id(3), header_id(1));
    parents.insert(header_id(8), header_id(9));
    let branch = branch_blocks(&parents, header_id(0), header_id(2));
    assert!(branch.contains(&header_id(2)) && branch.contains(&header_id(1)));
    assert!(!branch.contains(&header_id(3)));
    let below = blocks_below(&parents, header_id(2));
    assert!(below.contains(&header_id(1)) && below.contains(&header_id(0)));
    let orphans = orphan_blocks(&parents, header_id(0));
    assert_eq!(orphans, vec![header_id(8)]);
}

fn deposit(n: u8, channel_id: ChannelId) -> Op {
    Op::ChannelDeposit(DepositOp {
        channel_id,
        inputs: Inputs::new(vec![]),
        metadata: Arc::new(vec![n]),
        op_id: OpId::from_bytes(tagged(n)),
    })
}

fn event(tx: u8, op: u8, amount: u64) -> BlockDepositEvent {
    BlockDepositEvent {
        key: DepositOpKey { tx_hash: tx_hash(tx), op_id: OpId::from_bytes(tagged(op)) },
        amount,
        notes: Arc::new(vec![]),
    }
}

#[test]
fn deposits_are_resolved_completely_or_not_at_all() {
    let txs = [tx(1, vec![deposit(5, channel(0)), deposit(6, channel(9))])];
    let keys = expected_deposits(&txs, channel(0));
    assert_eq!(keys.len(), 1);
    assert_eq!(keys[0].op_id, OpId::from_bytes(tagged(5)));

    let events = EventsReply::Events(vec![event(1, 5, 70), event(2, 5, 80)]);
    let resolved = resolve_deposit_events(header_id(3), &txs, channel(0), &events).unwrap();
    assert_eq!(resolved.get(&keys[0]).unwrap().amount, 70);

    let text = |reply: &EventsReply| {
        match resolve_deposit_events(header_id(0xab), &txs, channel(0), reply) {
            Err(Error::Network(text)) => text,
            _ => panic!("resolved"),
        }
    };
    let block = format!("ab{}", "0".repeat(62));
    assert_eq!(
        text(&EventsReply::Absent),
        format!("no events for block {block} containing channel deposits")
    );
    assert_eq!(
        text(&EventsReply::Failed("down".to_string())),
        format!("failed to fetch events for block {block}: down")
    );
    assert!(text(&EventsReply::Events(vec![event(2, 5, 80)])).contains("missing deposit entry"));
    let none = resolve_deposit_events(header_id(1), &txs, channel(7), &EventsReply::Absent);
    assert!(none.unwrap().is_empty(), "nothing to resolve, so the reply does not matter");
    assert_eq!(build_deposit_events(&[event(1, 5, 1), event(1, 5, 2)]).len(), 1);
}

#[test]
fn inscriptions_come_out_in_chain_order() {
    let ch = channel(0);
    let a = tx(1, vec![inscribe(ch, MsgId::root(), msg_id(1), b"a")]);
    let b = tx(2, vec![inscribe(ch, msg_id(1), msg_id(2), b"b")]);
    let c = tx(3, vec![config(ch, msg_id(2), msg_id(3))]);
    let foreign = tx(4, vec![inscribe(channel(9), MsgId::root(), msg_id(4), b"f")]);
    let ids = |txs: &[SignedOps]| {
        extract_inscriptions(txs, ch).iter().map(|i| i.this_msg).collect::<Vec<MsgId>>()
    };
    assert_eq!(ids(&[foreign.clone(), b.clone(), a.clone()]), vec![msg_id(1), msg_id(2)]);
    assert_eq!(ids(&[a.clone(), b.clone(), c.clone()]), vec![msg_id(1), msg_id(2), msg_id(3)]);
    let d = tx(5, vec![inscribe(ch, msg_id(2), msg_id(5), b"d")]);
    assert_eq!(ids(&[d, b, a.clone()]), vec![msg_id(1), msg_id(2), msg_id(5)]);
    assert!(matches_channel(&a, ch));
    assert!(matches_channel(&c, ch));
    assert!(!matches_channel(&foreign, ch));
    assert!(extract_inscriptions(&[foreign], ch).is_empty());
}

#[test]
fn the_indexer_yields_the_channels_blocks() {
    let indexer = ZoneIndexer::new(channel(0));
    let txs = [
        tx(1, vec![inscribe(channel(0), MsgId::root(), msg_id(1), b"a"), transfer()]),
        tx(2, vec![inscribe(channel(9), MsgId::root(), msg_id(2), b"x")]),
        tx(3, vec![inscribe(channel(0), msg_id(1), msg_id(3), b"b")]),
    ];
    let blocks = indexer.follow(&txs);
    assert_eq!(
        blocks,
        vec![
            ZoneBlock { id: msg_id(1), data: Inscription::new(b"a".to_vec()) },
            ZoneBlock { id: msg_id(3), data: Inscription::new(b"b".to_vec()) },
        ]
    );
}

#[test]
fn messages_carry_their_parts() {
    let deposit = Deposit {
        inputs: Inputs::new(vec![]),
        amount: 5,
        metadata: Arc::new(b"meta".to_vec()),
    };
    assert_eq!(deposit.metadata(), b"meta");
    let message = ZoneMessage::Withdraw(Withdraw { outputs: Outputs::empty() });
    assert_ne!(message, ZoneMessage::Deposit(deposit));
}

#[test]
fn transactions_are_classified_by_their_channel_ops() {
    let ch = channel(0);
    let plain = tx(1, vec![inscribe(ch, MsgId::root(), msg_id(1), b"a"), transfer()]);
    assert!(matches!(classify(&plain, ch), Some(BlockChannelTx::Inscription(i)) if i.this_msg == msg_id(1)));
    let cfg = tx(2, vec![config(ch, MsgId::root(), msg_id(2))]);
    assert!(matches!(classify(&cfg, ch), Some(BlockChannelTx::Config(i)) if i.this_msg == msg_id(2)));
    let both = tx(3, vec![config(ch, MsgId::root(), msg_id(2)), inscribe(ch, MsgId::root(), msg_id(1), b"a")]);
    let custom = classify(&both, ch).unwrap();
    assert_eq!(custom.tx_hash(), Some(tx_hash(3)));
    assert_eq!(custom.infos().len(), 1);
    assert_eq!(custom.config_entries().len(), 1);
    assert_eq!(custom.tip_entry().map(|i| i.this_msg), Some(msg_id(1)));
    let two_transfers = tx(4, vec![inscribe(ch, MsgId::root(), msg_id(1), b"a"), transfer(), transfer()]);
    assert!(matches!(classify(&two_transfers, ch), Some(BlockChannelTx::Custom { .. })));
    assert_eq!(classify(&plain, channel(9)), None);
    assert!(is_pure_config(&cfg, ch) && !is_pure_config(&both, ch));
    assert!(touches_channel_tip(&cfg, ch) && !touches_channel_tip(&cfg, channel(9)));
    assert_eq!(channel_inscriptions(&both, ch)[0].payload, Inscription::new(b"a".to_vec()));
    assert!(channel_configs(&both, ch)[0].payload.is_empty());
    assert!(channel_transfers(&both, ch).is_empty());
}

#[test]
fn updates_tell_their_parts() {
    let one = || ChannelUpdateTx::Inscription(info(1));
    let extension = ChannelUpdate::Extension { adopted: vec![one()] };
    assert_eq!(extension.adopted().len(), 1);
    assert!(extension.orphaned().is_empty());
    assert_eq!(extension.canonical_chain(), None);
    let conflict = ChannelUpdate::Conflict {
        common_prefix: vec![ChannelUpdateTx::Inscription(info(2))],
        adopted: vec![one()],
        orphaned: vec![ChannelUpdateTx::Custom(tx(3, vec![]))],
    };
    let chain: Vec<TxHash> =
        conflict.canonical_chain().unwrap().iter().map(|tx| tx.tx_hash()).collect();
    assert_eq!(chain, vec![tx_hash(2), tx_hash(1)]);
    assert_eq!(conflict.orphaned()[0].tx_hash(), tx_hash(3));
    assert_eq!(conflict.orphaned()[0].inscription(), None);
}

#[test]
fn pending_and_published_transactions_name_their_inscription() {
    let bundle = AtomicWithdrawInfo {
        tx_hash: tx_hash(2),
        inscription: info(2),
        withdraws: Items::from_vec(vec![]),
        outputs: Outputs::empty(),
    };
    let pin = PinDepositInfo {
        tx_hash: tx_hash(3),
        inscription: info(3),
        consumed_notes: Inputs::new(vec![]),
    };
    assert_eq!(PendingTx::AtomicWithdraw(bundle.clone()).inscription().this_msg, msg_id(2));
    assert_eq!(PendingTx::PinDeposit(pin).tx_hash(), tx_hash(3));
    let published = PublishedTx::AtomicWithdraw(bundle.clone());
    assert_eq!(published.tx_hash(), tx_hash(2));
    assert_eq!(published.inscription().this_msg, msg_id(2));
    assert_eq!(published.into_orphaned(), OrphanedTx::AtomicWithdraw(bundle));
    assert_eq!(
        PublishedTx::Inscription(info(1)).into_orphaned(),
        OrphanedTx::Inscription(info(1))
    );
}
