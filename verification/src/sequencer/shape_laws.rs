//! What a transaction is read as, in terms of its operations.

use vstd::prelude::*;

use crate::adapter::{
    as_deposit_key, deposit_key, deposit_keys, deposit_keys_of, deposit_lookup, events_map,
    first_unknown, knows_deposits, lemma_known_keys, BlockDepositEvent, DepositEvent, DepositOpKey,
    EventsReply,
};
use crate::ids::{ChannelId, HeaderId};
use crate::items::law_items_hold;
use crate::mantle::{Op, Outputs, SignedOps, Slot};
use crate::sequencer::block_fetch::{
    as_deposit, deposits_of, finalized_item, finalized_items, finalized_op, ops_of_item,
};
use crate::sequencer::channel_tx::{
    as_channel_transfer, as_config, as_inscription, as_withdraw, classification, configs_of,
    inscriptions_of, is_clean, is_foreign, is_transfer, transfers_of, withdraws_of, BlockChannelTx,
};
use crate::sequencer::types::{DepositInfo, FinalizedOp, FinalizedTx};

verus! {

/// The operation writes a message onto the channel.
pub open spec fn writes(channel_id: ChannelId) -> spec_fn(Op) -> bool {
    |op: Op| op matches Op::ChannelInscribe(inscribe) && inscribe.channel_id == channel_id
}

/// The operation configures the channel.
pub open spec fn configures(channel_id: ChannelId) -> spec_fn(Op) -> bool {
    |op: Op| op matches Op::ChannelConfig(config) && config.channel == channel_id
}

/// The operation withdraws from the channel.
pub open spec fn withdraws(channel_id: ChannelId) -> spec_fn(Op) -> bool {
    |op: Op| op matches Op::ChannelWithdraw(withdraw) && withdraw.channel_id == channel_id
}

/// The operation moves notes within the channel.
pub open spec fn moves_notes(channel_id: ChannelId) -> spec_fn(Op) -> bool {
    |op: Op| op matches Op::ChannelTransfer(transfer) && transfer.channel_id == channel_id
}

/// The operation is one of those, or a ledger transfer.
pub open spec fn is_ours(op: Op, channel_id: ChannelId) -> bool {
    writes(channel_id)(op) || configures(channel_id)(op) || withdraws(channel_id)(op)
        || moves_notes(channel_id)(op) || op is Transfer
}

/// How many of a list pass a test.
pub open spec fn count<A>(list: Seq<A>, test: spec_fn(A) -> bool) -> nat {
    list.filter(test).len()
}

/// Reading what of a list passes a test gives one entry for each, at the place
/// that the ones before it leave.
pub proof fn lemma_read<A, B>(ops: Seq<A>, test: spec_fn(A) -> bool, f: spec_fn(A) -> Option<B>)
    requires
        forall|op: A| #[trigger] f(op) is Some <==> test(op),
    ensures
        ops.filter_map(f).len() == count(ops, test),
        forall|p: int|
            0 <= p < ops.len() && test(#[trigger] ops[p]) ==> {
                let at = count(ops.take(p), test);
                at < ops.filter_map(f).len() && f(ops[p]) == Some(ops.filter_map(f)[at as int])
            },
    decreases ops.len(),
{
    reveal(Seq::filter);
    reveal(Seq::filter_map);
    if ops.len() > 0 {
        let front = ops.drop_last();
        let last = ops.last();
        lemma_read(front, test, f);
        assert(f(last) is Some <==> test(last));
        assert forall|p: int| 0 <= p < ops.len() && test(#[trigger] ops[p]) implies {
            let at = count(ops.take(p), test);
            at < ops.filter_map(f).len() && f(ops[p]) == Some(ops.filter_map(f)[at as int])
        } by {
            if p < front.len() {
                assert(front[p] == ops[p]);
                assert(front.take(p) =~= ops.take(p));
            } else {
                assert(ops.take(p) =~= front);
            }
        }
    }
}

/// A transaction's messages, configs, withdraws and channel transfers are those
/// of its operations, each at its place, with what the operation says.
pub proof fn law_entries_are_read_off_the_ops(tx: SignedOps, channel_id: ChannelId, p: int)
    requires
        0 <= p < tx.ops@.len(),
    ensures
        ({
            let ops = tx.ops@;
            let before = ops.take(p);
            &&& inscriptions_of(tx, channel_id).len() == count(ops, writes(channel_id))
            &&& configs_of(tx, channel_id).len() == count(ops, configures(channel_id))
            &&& withdraws_of(tx, channel_id).len() == count(ops, withdraws(channel_id))
            &&& transfers_of(tx, channel_id).len() == count(ops, moves_notes(channel_id))
            &&& match ops[p] {
                Op::ChannelInscribe(inscribe) => inscribe.channel_id == channel_id ==> {
                    let at = count(before, writes(channel_id)) as int;
                    let entry = inscriptions_of(tx, channel_id)[at];
                    &&& at < inscriptions_of(tx, channel_id).len()
                    &&& entry.tx_hash == tx.hash
                    &&& entry.parent_msg == inscribe.parent
                    &&& entry.this_msg == inscribe.id
                    &&& entry.payload == inscribe.inscription
                    &&& entry.signer == Some(inscribe.signer)
                },
                Op::ChannelConfig(config) => config.channel == channel_id ==> {
                    let at = count(before, configures(channel_id)) as int;
                    let entry = configs_of(tx, channel_id)[at];
                    &&& at < configs_of(tx, channel_id).len()
                    &&& entry.tx_hash == tx.hash
                    &&& entry.parent_msg == config.parent
                    &&& entry.this_msg == config.id
                    &&& entry.signer is None
                },
                Op::ChannelWithdraw(withdraw) => withdraw.channel_id == channel_id ==> {
                    let at = count(before, withdraws(channel_id)) as int;
                    let entry = withdraws_of(tx, channel_id)[at];
                    &&& at < withdraws_of(tx, channel_id).len()
                    &&& entry.tx_hash == tx.hash
                    &&& entry.op == withdraw
                },
                Op::ChannelTransfer(transfer) => transfer.channel_id == channel_id ==> {
                    let at = count(before, moves_notes(channel_id)) as int;
                    &&& at < transfers_of(tx, channel_id).len()
                    &&& transfers_of(tx, channel_id)[at] == transfer
                },
                _ => true,
            }
        }),
{
    let ops = tx.ops@;
    lemma_read(ops, writes(channel_id), as_inscription(tx.hash, channel_id));
    lemma_read(ops, configures(channel_id), as_config(tx.hash, channel_id));
    lemma_read(ops, withdraws(channel_id), as_withdraw(tx.hash, channel_id));
    lemma_read(ops, moves_notes(channel_id), as_channel_transfer(channel_id));
    assert(ops[p] == ops[p]);
}

/// A transaction of ours: only operations on the channel, and at most one
/// ledger transfer to fund it.
pub open spec fn sendable(tx: SignedOps, channel_id: ChannelId) -> bool {
    &&& forall|i: int| 0 <= i < tx.ops@.len() ==> is_ours(#[trigger] tx.ops@[i], channel_id)
    &&& count(tx.ops@, is_transfer()) <= 1
}

/// What a transaction is stored as follows from its operations: nothing without
/// a message or a config; a bundle, a pinned deposit or a message on its own
/// where one message comes with withdraws, with one channel transfer, or with
/// neither; a config where it stands alone; and whole otherwise. What is stored
/// has its messages, its withdraws and the notes it consumes.
pub proof fn law_shape_follows_the_ops(tx: SignedOps, channel_id: ChannelId)
    ensures
        ({
            let messages = count(tx.ops@, writes(channel_id));
            let configs = count(tx.ops@, configures(channel_id));
            let taken = count(tx.ops@, withdraws(channel_id));
            let moved = count(tx.ops@, moves_notes(channel_id));
            let one_message = sendable(tx, channel_id) && messages == 1 && configs == 0;
            match classification(tx, channel_id) {
                None => messages == 0 && configs == 0,
                Some(BlockChannelTx::AtomicWithdraw(bundle)) => {
                    &&& one_message && taken > 0 && moved <= 1
                    &&& bundle.tx_hash == tx.hash
                    &&& bundle.inscription == inscriptions_of(tx, channel_id)[0]
                    &&& bundle.withdraws@ == withdraws_of(tx, channel_id)
                    &&& bundle.outputs == Outputs::spec_empty()
                },
                Some(BlockChannelTx::PinDeposit(pin)) => {
                    &&& one_message && taken == 0 && moved == 1
                    &&& pin.tx_hash == tx.hash
                    &&& pin.inscription == inscriptions_of(tx, channel_id)[0]
                    &&& forall|p: int|
                        0 <= p < tx.ops@.len() ==> ((#[trigger] tx.ops@[p]) matches
                            Op::ChannelTransfer(transfer) ==> pin.consumed_notes == transfer.inputs)
                },
                Some(BlockChannelTx::Inscription(info)) => {
                    &&& one_message && taken == 0 && moved == 0
                    &&& info == inscriptions_of(tx, channel_id)[0]
                },
                Some(BlockChannelTx::Config(info)) => {
                    &&& sendable(tx, channel_id) && messages == 0 && configs == 1
                    &&& taken == 0 && moved == 0
                    &&& info == configs_of(tx, channel_id)[0]
                },
                Some(BlockChannelTx::Custom { tx: whole, message_entries, config_entries }) => {
                    &&& messages > 0 || configs > 0
                    &&& !(one_message && moved <= 1)
                    &&& !(sendable(tx, channel_id) && messages == 0 && configs == 1 && taken == 0
                        && moved == 0)
                    &&& whole == tx
                    &&& message_entries@ == inscriptions_of(tx, channel_id)
                    &&& config_entries@ == configs_of(tx, channel_id)
                },
            }
        }),
{
    broadcast use law_items_hold;

    let ops = tx.ops@;
    lemma_read(ops, writes(channel_id), as_inscription(tx.hash, channel_id));
    lemma_read(ops, configures(channel_id), as_config(tx.hash, channel_id));
    lemma_read(ops, withdraws(channel_id), as_withdraw(tx.hash, channel_id));
    lemma_read(ops, moves_notes(channel_id), as_channel_transfer(channel_id));
    assert forall|i: int| 0 <= i < ops.len() implies (is_ours(#[trigger] ops[i], channel_id)
        <==> !is_foreign(ops[i], channel_id)) by {
    }
    assert(is_clean(tx, channel_id) <==> sendable(tx, channel_id));
    if let Some(BlockChannelTx::PinDeposit(pin)) = classification(tx, channel_id) {
        assert forall|p: int| 0 <= p < ops.len() && (#[trigger] ops[p]) is ChannelTransfer implies (
        ops[p] matches Op::ChannelTransfer(transfer) ==> pin.consumed_notes == transfer.inputs) by {
            assert(is_ours(ops[p], channel_id));
            assert(moves_notes(channel_id)(ops[p]));
        }
    }
}

// Finalized operations.

/// The operation deposits into the channel.
pub open spec fn deposits_into(channel_id: ChannelId) -> spec_fn(Op) -> bool {
    |op: Op| op matches Op::ChannelDeposit(deposit) && deposit.channel_id == channel_id
}

/// The operation does something to the channel.
pub open spec fn acts_on(channel_id: ChannelId) -> spec_fn(Op) -> bool {
    |op: Op|
        writes(channel_id)(op) || configures(channel_id)(op) || withdraws(channel_id)(op)
            || moves_notes(channel_id)(op) || deposits_into(channel_id)(op)
}

/// The transaction does something to the channel.
pub open spec fn touches(channel_id: ChannelId) -> spec_fn(SignedOps) -> bool {
    |tx: SignedOps| count(tx.ops@, acts_on(channel_id)) > 0
}

/// A deposit as it is told: what the operation says, and what the events say of
/// it.
pub open spec fn tells_deposit(
    info: DepositInfo,
    tx: SignedOps,
    p: int,
    channel_id: ChannelId,
    events: Map<DepositOpKey, DepositEvent>,
) -> bool {
    tx.ops@[p] matches Op::ChannelDeposit(deposit) && {
        let event = events[DepositOpKey { tx_hash: tx.hash, op_id: deposit.op_id }];
        &&& info.tx_hash == tx.hash
        &&& info.op_id == deposit.op_id
        &&& info.channel_id == channel_id
        &&& info.inputs == deposit.inputs
        &&& info.metadata == deposit.metadata
        &&& info.amount == event.amount
        &&& info.notes == event.notes
    }
}

/// A finalized transaction that does something to the channel lists each of its
/// operations that does, at its place, with what the operation says; one that
/// does nothing to it is left out.
pub proof fn law_finalized_item_lists_the_ops(
    tx: SignedOps,
    channel_id: ChannelId,
    l1_slot: Slot,
    events: Map<DepositOpKey, DepositEvent>,
    p: int,
)
    ensures
        match finalized_item(channel_id, l1_slot, events)(tx) {
            None => !touches(channel_id)(tx),
            Some(item) => {
                &&& touches(channel_id)(tx)
                &&& item.tx_hash == tx.hash
                &&& item.l1_slot == l1_slot
                &&& item.ops@.len() == count(tx.ops@, acts_on(channel_id))
                &&& 0 <= p < tx.ops@.len() && acts_on(channel_id)(tx.ops@[p]) ==> {
                    let at = count(tx.ops@.take(p), acts_on(channel_id)) as int;
                    &&& at < item.ops@.len()
                    &&& match tx.ops@[p] {
                        Op::ChannelInscribe(inscribe) => item.ops@[at] matches
                            FinalizedOp::Inscription(info) && info.tx_hash == tx.hash
                            && info.parent_msg == inscribe.parent && info.this_msg == inscribe.id
                            && info.payload == inscribe.inscription && info.signer == Some(
                            inscribe.signer,
                        ),
                        Op::ChannelConfig(config) => item.ops@[at] matches FinalizedOp::Config(info)
                            && info.tx_hash == tx.hash && info.parent_msg == config.parent
                            && info.this_msg == config.id && info.signer is None,
                        Op::ChannelWithdraw(withdraw) => item.ops@[at] matches
                            FinalizedOp::Withdraw(info) && info.tx_hash == tx.hash && info.op
                            == withdraw,
                        Op::ChannelTransfer(transfer) => item.ops@[at] matches
                            FinalizedOp::ChannelTransfer(info) && info.tx_hash == tx.hash
                            && info.op == transfer,
                        Op::ChannelDeposit(_) => item.ops@[at] matches FinalizedOp::Deposit(info)
                            && tells_deposit(info, tx, p, channel_id, events),
                        _ => false,
                    }
                }
            },
        },
{
    broadcast use law_items_hold;

    lemma_read(tx.ops@, acts_on(channel_id), finalized_op(tx.hash, channel_id, events));
    if 0 <= p < tx.ops@.len() {
        assert(tx.ops@[p] == tx.ops@[p]);
    }
}

/// The finalized transactions of a block are those that do something to the
/// channel, in the block's order.
pub proof fn law_finalized_items_keep_the_order(
    txs: Seq<SignedOps>,
    channel_id: ChannelId,
    l1_slot: Slot,
    events: Map<DepositOpKey, DepositEvent>,
    k: int,
)
    ensures
        ({
            let items = finalized_items(txs, channel_id, l1_slot, events);
            &&& items.len() == count(txs, touches(channel_id))
            &&& 0 <= k < txs.len() && touches(channel_id)(txs[k]) ==> {
                let at = count(txs.take(k), touches(channel_id)) as int;
                at < items.len() && finalized_item(channel_id, l1_slot, events)(txs[k]) == Some(
                    items[at],
                )
            }
        }),
{
    let f = finalized_item(channel_id, l1_slot, events);
    assert forall|tx: SignedOps| #[trigger] f(tx) is Some <==> touches(channel_id)(tx) by {
        law_finalized_item_lists_the_ops(tx, channel_id, l1_slot, events, 0);
    }
    lemma_read(txs, touches(channel_id), f);
    if 0 <= k < txs.len() {
        assert(txs[k] == txs[k]);
    }
}

pub proof fn lemma_filter_map_add<A, B>(a: Seq<A>, b: Seq<A>, f: spec_fn(A) -> Option<B>)
    ensures
        (a + b).filter_map(f) == a.filter_map(f) + b.filter_map(f),
    decreases b.len(),
{
    reveal(Seq::filter_map);
    if b.len() == 0 {
        assert(a + b =~= a);
        assert(a.filter_map(f) + b.filter_map(f) =~= a.filter_map(f));
    } else {
        let front = b.drop_last();
        lemma_filter_map_add(a, front, f);
        assert((a + b).drop_last() =~= a + front);
        assert((a + b).last() == b.last());
        if let Some(x) = f(b.last()) {
            assert(a.filter_map(f) + front.filter_map(f) + seq![x] =~= a.filter_map(f) + (
            front.filter_map(f) + seq![x]));
        }
    }
}

pub proof fn lemma_flat_map_add<A, B>(a: Seq<A>, b: Seq<A>, f: spec_fn(A) -> Seq<B>)
    ensures
        (a + b).flat_map(f) == a.flat_map(f) + b.flat_map(f),
    decreases b.len(),
{
    if b.len() == 0 {
        assert(a + b =~= a);
        assert(b =~= Seq::empty());
        assert(a.flat_map(f) + b.flat_map(f) =~= a.flat_map(f)) by {
            lemma_flat_map_empty(b, f);
        }
    } else {
        let front = b.drop_last();
        lemma_flat_map_add(a, front, f);
        assert(front.push(b.last()) =~= b);
        front.lemma_flat_map_push(f, b.last());
        assert((a + front).push(b.last()) =~= a + b);
        (a + front).lemma_flat_map_push(f, b.last());
        assert((a.flat_map(f) + front.flat_map(f)) + f(b.last()) =~= a.flat_map(f) + (
        front.flat_map(f) + f(b.last())));
    }
}

pub proof fn lemma_flat_map_empty<A, B>(s: Seq<A>, f: spec_fn(A) -> Seq<B>)
    requires
        s.len() == 0,
    ensures
        s.flat_map(f) == Seq::<B>::empty(),
{
    reveal(Seq::flat_map);
}

/// The deposits of a block are those of its transactions one after the other,
/// and of a transaction each of its operations that deposits into the channel,
/// at its place.
pub proof fn law_deposits_are_listed_in_order(
    front: Seq<SignedOps>,
    back: Seq<SignedOps>,
    tx: SignedOps,
    channel_id: ChannelId,
    l1_slot: Slot,
    events: Map<DepositOpKey, DepositEvent>,
    p: int,
)
    ensures
        deposits_of(front + back, channel_id, l1_slot, events) == deposits_of(
            front,
            channel_id,
            l1_slot,
            events,
        ) + deposits_of(back, channel_id, l1_slot, events),
        ({
            let told = deposits_of(seq![tx], channel_id, l1_slot, events);
            &&& told.len() == count(tx.ops@, deposits_into(channel_id))
            &&& 0 <= p < tx.ops@.len() && deposits_into(channel_id)(tx.ops@[p]) ==> {
                let at = count(tx.ops@.take(p), deposits_into(channel_id)) as int;
                at < told.len() && tells_deposit(told[at], tx, p, channel_id, events)
            }
        }),
{
    let f = finalized_item(channel_id, l1_slot, events);
    let g = ops_of_item();
    let d = as_deposit();
    lemma_filter_map_add(front, back, f);
    lemma_flat_map_add(front.filter_map(f), back.filter_map(f), g);
    lemma_filter_map_add(
        front.filter_map(f).flat_map(g),
        back.filter_map(f).flat_map(g),
        d,
    );
    let h = finalized_op(tx.hash, channel_id, events);
    let ops = tx.ops@.filter_map(h);
    lemma_deposits_of_one(tx, channel_id, l1_slot, events);
    let both = |op: Op|
        match h(op) {
            Some(op) => d(op),
            None => None,
        };
    lemma_filter_map_twice(tx.ops@, h, d, both);
    lemma_read(tx.ops@, deposits_into(channel_id), both);
    if 0 <= p < tx.ops@.len() {
        assert(tx.ops@[p] == tx.ops@[p]);
    }
}

proof fn lemma_deposits_of_one(
    tx: SignedOps,
    channel_id: ChannelId,
    l1_slot: Slot,
    events: Map<DepositOpKey, DepositEvent>,
)
    ensures
        deposits_of(seq![tx], channel_id, l1_slot, events) == tx.ops@.filter_map(
            finalized_op(tx.hash, channel_id, events),
        ).filter_map(as_deposit()),
{
    broadcast use law_items_hold;

    reveal(Seq::filter_map);
    let f = finalized_item(channel_id, l1_slot, events);
    let g = ops_of_item();
    let ops = tx.ops@.filter_map(finalized_op(tx.hash, channel_id, events));
    let none = Seq::<FinalizedTx>::empty();
    assert(seq![tx].drop_last() =~= Seq::empty());
    assert(seq![tx].last() == tx);
    assert(seq![tx].drop_last().filter_map(f) =~= none);
    lemma_flat_map_empty(none, g);
    if let Some(item) = f(tx) {
        assert(seq![tx].filter_map(f) =~= none.push(item));
        none.lemma_flat_map_push(g, item);
        assert(none.flat_map(g) + item.ops@ =~= ops);
    } else {
        assert(seq![tx].filter_map(f) =~= none);
        assert(ops =~= Seq::empty());
    }
}

proof fn lemma_filter_map_twice<A, B, C>(
    s: Seq<A>,
    f: spec_fn(A) -> Option<B>,
    g: spec_fn(B) -> Option<C>,
    both: spec_fn(A) -> Option<C>,
)
    requires
        forall|a: A| #[trigger]
            both(a) == match f(a) {
                Some(b) => g(b),
                None => None,
            },
    ensures
        s.filter_map(f).filter_map(g) == s.filter_map(both),
    decreases s.len(),
{
    reveal(Seq::filter_map);
    if s.len() > 0 {
        let front = s.drop_last();
        lemma_filter_map_twice(front, f, g, both);
        assert(both(s.last()) == match f(s.last()) {
            Some(b) => g(b),
            None => None,
        });
        if let Some(b) = f(s.last()) {
            let so_far = front.filter_map(f);
            assert((so_far + seq![b]).drop_last() =~= so_far);
            assert((so_far + seq![b]).last() == b);
        }
    }
}

// Deposit events.

/// The events of a block are looked up by their key; the last one of a key
/// counts.
pub proof fn law_last_event_of_a_key_counts(events: Seq<BlockDepositEvent>, i: int, key: DepositOpKey)
    ensures
        events_map(events).contains_key(key) <==> exists|j: int|
            0 <= j < events.len() && (#[trigger] events[j]).key == key,
        0 <= i < events.len() && (forall|j: int|
            i < j < events.len() ==> (#[trigger] events[j]).key != events[i].key) ==> {
            let found = events_map(events)[events[i].key];
            found.amount == events[i].amount && found.notes == events[i].notes
        },
    decreases events.len(),
{
    if events.len() > 0 {
        let front = events.drop_last();
        law_last_event_of_a_key_counts(front, i, key);
        assert(events[events.len() - 1] == events.last());
        if events_map(front).contains_key(key) {
            let j = choose|j: int| 0 <= j < front.len() && (#[trigger] front[j]).key == key;
            assert(events[j] == front[j]);
        }
        if exists|j: int| 0 <= j < events.len() && (#[trigger] events[j]).key == key {
            let j = choose|j: int| 0 <= j < events.len() && (#[trigger] events[j]).key == key;
            if j < front.len() {
                assert(front[j] == events[j]);
            }
        }
        if 0 <= i < front.len() && (forall|j: int|
            i < j < events.len() ==> (#[trigger] events[j]).key != events[i].key) {
            assert forall|j: int| i < j < front.len() implies (#[trigger] front[j]).key
                != front[i].key by {
                assert(events[j] == front[j]);
            }
            assert(events.last().key != events[i].key);
        }
    }
}

proof fn lemma_first_unknown(keys: Seq<DepositOpKey>, events: Map<DepositOpKey, DepositEvent>)
    ensures
        match first_unknown(keys, events) {
            None => forall|j: int| 0 <= j < keys.len() ==> events.contains_key(#[trigger] keys[j]),
            Some(key) => !events.contains_key(key) && keys.contains(key),
        },
    decreases keys.len(),
{
    if keys.len() > 0 {
        let rest = keys.drop_first();
        lemma_first_unknown(rest, events);
        if events.contains_key(keys[0]) {
            match first_unknown(keys, events) {
                None => {
                    assert forall|j: int| 0 <= j < keys.len() implies events.contains_key(
                        #[trigger] keys[j],
                    ) by {
                        if j > 0 {
                            assert(rest[j - 1] == keys[j]);
                        }
                    }
                },
                Some(key) => {
                    assert(keys[rest.index_of(key) + 1] == key);
                },
            }
        }
    }
}

proof fn lemma_key_of_a_deposit(txs: Seq<SignedOps>, channel_id: ChannelId, key: DepositOpKey)
    requires
        deposit_keys(txs, channel_id).contains(key),
    ensures
        exists|k: int, i: int|
            0 <= k < txs.len() && 0 <= i < txs[k].ops@.len() && deposit_key(
                txs[k].hash,
                channel_id,
                #[trigger] txs[k].ops@[i],
            ) == Some(key),
    decreases txs.len(),
{
    let f = deposit_keys_of(channel_id);
    if txs.len() == 0 {
        lemma_flat_map_empty(txs, f);
    } else {
        let front = txs.drop_last();
        let last = txs.last();
        assert(front.push(last) =~= txs);
        front.lemma_flat_map_push(f, last);
        let head = front.flat_map(f);
        let tail = f(last);
        let at = deposit_keys(txs, channel_id).index_of(key);
        if at < head.len() {
            assert(head[at] == key);
            lemma_key_of_a_deposit(front, channel_id, key);
            let (k, i) = choose|k: int, i: int|
                0 <= k < front.len() && 0 <= i < front[k].ops@.len() && deposit_key(
                    front[k].hash,
                    channel_id,
                    #[trigger] front[k].ops@[i],
                ) == Some(key);
            assert(txs[k].ops@[i] == front[k].ops@[i]);
        } else {
            assert(tail[at - head.len()] == key);
            lemma_filter_map_source(last.ops@, as_deposit_key(last.hash, channel_id), key);
            let i = choose|i: int|
                0 <= i < last.ops@.len() && as_deposit_key(last.hash, channel_id)(
                    #[trigger] last.ops@[i],
                ) == Some(key);
            assert(txs[txs.len() - 1].ops@[i] == last.ops@[i]);
        }
    }
}

pub proof fn lemma_filter_map_source<A, B>(s: Seq<A>, f: spec_fn(A) -> Option<B>, x: B)
    requires
        s.filter_map(f).contains(x),
    ensures
        exists|i: int| 0 <= i < s.len() && f(#[trigger] s[i]) == Some(x),
    decreases s.len(),
{
    reveal(Seq::filter_map);
    if s.len() > 0 {
        let front = s.drop_last();
        if f(s.last()) == Some(x) {
            assert(s[s.len() - 1] == s.last());
        } else {
            let at = s.filter_map(f).index_of(x);
            assert(front.filter_map(f)[at] == x);
            lemma_filter_map_source(front, f, x);
            let i = choose|i: int| 0 <= i < front.len() && f(#[trigger] front[i]) == Some(x);
            assert(s[i] == front[i]);
        }
    }
}

/// The lookup of a block's deposits is complete or there is none: it is had
/// exactly where the block deposits nothing into the channel, or the node
/// delivered an event for every such deposit.
pub proof fn law_lookup_is_complete_or_refused(
    block_id: HeaderId,
    txs: Seq<SignedOps>,
    channel_id: ChannelId,
    reply: EventsReply,
)
    ensures
        ({
            let silent = forall|k: int, i: int|
                0 <= k < txs.len() && 0 <= i < txs[k].ops@.len() ==> !deposits_into(channel_id)(
                    #[trigger] txs[k].ops@[i],
                );
            let res = deposit_lookup(block_id, txs, channel_id, reply);
            &&& silent ==> res == Ok::<Map<DepositOpKey, DepositEvent>, Seq<char>>(Map::empty())
            &&& !silent ==> match reply {
                EventsReply::Events(delivered) => {
                    let events = events_map(delivered@);
                    &&& res is Ok <==> knows_deposits(txs, channel_id, events)
                    &&& res matches Ok(found) ==> found == events
                },
                _ => res is Err,
            }
        }),
{
    let keys = deposit_keys(txs, channel_id);
    let silent = forall|k: int, i: int|
        0 <= k < txs.len() && 0 <= i < txs[k].ops@.len() ==> !deposits_into(channel_id)(
            #[trigger] txs[k].ops@[i],
        );
    if keys.len() > 0 {
        assert(keys.contains(keys[0]));
        lemma_key_of_a_deposit(txs, channel_id, keys[0]);
        let (k, i) = choose|k: int, i: int|
            0 <= k < txs.len() && 0 <= i < txs[k].ops@.len() && deposit_key(
                txs[k].hash,
                channel_id,
                #[trigger] txs[k].ops@[i],
            ) == Some(keys[0]);
        assert(deposits_into(channel_id)(txs[k].ops@[i]));
    } else {
        let none = Map::<DepositOpKey, DepositEvent>::empty();
        lemma_known_keys(txs, channel_id, none);
        assert forall|k: int, i: int|
            0 <= k < txs.len() && 0 <= i < txs[k].ops@.len() implies !deposits_into(channel_id)(
            #[trigger] txs[k].ops@[i],
        ) by {
            if let Some(key) = deposit_key(txs[k].hash, channel_id, txs[k].ops@[i]) {
                assert(none.contains_key(key));
            }
        }
    }
    if let EventsReply::Events(delivered) = reply {
        let events = events_map(delivered@);
        lemma_first_unknown(keys, events);
        match first_unknown(keys, events) {
            None => {
                lemma_known_keys(txs, channel_id, events);
            },
            Some(key) => {
                lemma_key_of_a_deposit(txs, channel_id, key);
                let (k, i) = choose|k: int, i: int|
                    0 <= k < txs.len() && 0 <= i < txs[k].ops@.len() && deposit_key(
                        txs[k].hash,
                        channel_id,
                        #[trigger] txs[k].ops@[i],
                    ) == Some(key);
                assert(txs[k].ops@[i] == txs[k].ops@[i]);
            },
        }
    }
}

} // verus!
