//! A block's channel entries as one chain of messages and configs.
//!
//! Transactions need not stand in a block in the order of their messages, so
//! the entries are put in chain order: the last one is where the block leaves
//! the channel.

use vstd::prelude::*;

use crate::collections::KeySet;
use crate::ids::{ChannelId, Key, MsgId, TxHash};
use crate::mantle::{Inscription, Op, SignedOps};
use crate::sequencer::state::sheds::add_msgs;
use crate::sequencer::state_model::msgs;
use crate::sequencer::types::InscriptionInfo;

verus! {

/// An inscription or a config on the channel.
pub open spec fn is_entry(op: Op, channel_id: ChannelId) -> bool {
    match op {
        Op::ChannelInscribe(op) => op.channel_id == channel_id,
        Op::ChannelConfig(op) => op.channel == channel_id,
        _ => false,
    }
}

/// Whether a transaction moves the channel's tip.
pub fn matches_channel(tx: &SignedOps, channel_id: ChannelId) -> (res: bool)
    ensures
        res == exists|i: int| 0 <= i < tx.ops@.len() && is_entry(#[trigger] tx.ops@[i], channel_id),
{
    let ops: &Vec<Op> = &tx.ops;
    let mut i: usize = 0;
    while i < ops.len()
        invariant
            i <= ops@.len(),
            ops@ == tx.ops@,
            forall|j: int| 0 <= j < i ==> !is_entry(#[trigger] ops@[j], channel_id),
        decreases ops@.len() - i,
    {
        let found = match &ops[i] {
            Op::ChannelInscribe(op) => op.channel_id == channel_id,
            Op::ChannelConfig(op) => op.channel == channel_id,
            _ => false,
        };
        if found {
            return true;
        }
        i = i + 1;
    }
    false
}

/// Where a list of entries leaves the channel; the root where it is empty.
pub open spec fn tip_of(entries: Seq<InscriptionInfo>) -> MsgId {
    if entries.len() == 0 {
        MsgId::spec_root()
    } else {
        entries.last().this_msg
    }
}

/// The entry that an op adds behind others. A config carries no payload and
/// chains from whatever stands before it in the block.
pub open spec fn entry_after(
    before: Seq<InscriptionInfo>,
    tx_hash: TxHash,
    op: Op,
    channel_id: ChannelId,
) -> Seq<InscriptionInfo> {
    match op {
        Op::ChannelInscribe(op) => if op.channel_id == channel_id {
            before.push(
                InscriptionInfo {
                    tx_hash,
                    parent_msg: op.parent,
                    this_msg: op.id,
                    payload: op.inscription,
                    signer: Some(op.signer),
                },
            )
        } else {
            before
        },
        Op::ChannelConfig(op) => if op.channel == channel_id {
            before.push(
                InscriptionInfo {
                    tx_hash,
                    parent_msg: tip_of(before),
                    this_msg: op.id,
                    payload: Inscription::spec_empty(),
                    signer: None,
                },
            )
        } else {
            before
        },
        _ => before,
    }
}

pub open spec fn entries_after_ops(
    before: Seq<InscriptionInfo>,
    tx_hash: TxHash,
    ops: Seq<Op>,
    channel_id: ChannelId,
) -> Seq<InscriptionInfo>
    decreases ops.len(),
{
    if ops.len() == 0 {
        before
    } else {
        entry_after(
            entries_after_ops(before, tx_hash, ops.drop_last(), channel_id),
            tx_hash,
            ops.last(),
            channel_id,
        )
    }
}

/// The channel's entries of a block, in block order.
pub open spec fn block_entries(txs: Seq<SignedOps>, channel_id: ChannelId) -> Seq<InscriptionInfo>
    decreases txs.len(),
{
    if txs.len() == 0 {
        Seq::empty()
    } else {
        entries_after_ops(
            block_entries(txs.drop_last(), channel_id),
            txs.last().hash,
            txs.last().ops@,
            channel_id,
        )
    }
}

fn push_entry(list: &mut Vec<InscriptionInfo>, tx_hash: TxHash, op: &Op, channel_id: ChannelId)
    ensures
        final(list)@ == entry_after(old(list)@, tx_hash, *op, channel_id),
{
    match op {
        Op::ChannelInscribe(op) => {
            if op.channel_id == channel_id {
                list.push(
                    InscriptionInfo {
                        tx_hash,
                        parent_msg: op.parent,
                        this_msg: op.id,
                        payload: op.inscription.clone(),
                        signer: Some(op.signer),
                    },
                );
            }
        },
        Op::ChannelConfig(op) => {
            if op.channel == channel_id {
                let parent_msg = if list.len() == 0 {
                    MsgId::root()
                } else {
                    list[list.len() - 1].this_msg
                };
                list.push(
                    InscriptionInfo {
                        tx_hash,
                        parent_msg,
                        this_msg: op.id,
                        payload: Inscription::empty(),
                        signer: None,
                    },
                );
            }
        },
        _ => {},
    }
}

fn collect_entries(txs: &[SignedOps], channel_id: ChannelId) -> (res: Vec<InscriptionInfo>)
    ensures
        res@ == block_entries(txs@, channel_id),
{
    let mut res: Vec<InscriptionInfo> = Vec::new();
    let mut k: usize = 0;
    while k < txs.len()
        invariant
            k <= txs@.len(),
            res@ == block_entries(txs@.take(k as int), channel_id),
        decreases txs@.len() - k,
    {
        let ops: &Vec<Op> = &txs[k].ops;
        let ghost before = res@;
        assert(txs@.take(k + 1).drop_last() =~= txs@.take(k as int));
        let mut i: usize = 0;
        while i < ops.len()
            invariant
                i <= ops@.len(),
                k < txs@.len(),
                ops@ == txs@[k as int].ops@,
                res@ == entries_after_ops(
                    before,
                    txs@[k as int].hash,
                    ops@.take(i as int),
                    channel_id,
                ),
            decreases ops@.len() - i,
        {
            assert(ops@.take(i + 1).drop_last() =~= ops@.take(i as int));
            push_entry(&mut res, txs[k].hash, &ops[i], channel_id);
            i = i + 1;
        }
        assert(ops@.take(i as int) =~= ops@);
        k = k + 1;
    }
    assert(txs@.take(k as int) =~= txs@);
    res
}

/// The first entry whose parent no entry of the block makes.
pub open spec fn root_position(entries: Seq<InscriptionInfo>, made: Set<MsgId>) -> Option<int>
    decreases entries.len(),
{
    if entries.len() == 0 {
        None
    } else {
        match root_position(entries.drop_last(), made) {
            Some(i) => Some(i),
            None => if made.contains(entries.last().parent_msg) {
                None
            } else {
                Some(entries.len() - 1)
            },
        }
    }
}

/// The last entry that chains from `msg`.
pub open spec fn child_of(entries: Seq<InscriptionInfo>, msg: MsgId) -> Option<InscriptionInfo>
    decreases entries.len(),
{
    if entries.len() == 0 {
        None
    } else if entries.last().parent_msg == msg {
        Some(entries.last())
    } else {
        child_of(entries.drop_last(), msg)
    }
}

/// The entries that follow a message, one from another.
pub open spec fn followers(entries: Seq<InscriptionInfo>, msg: MsgId, fuel: nat) -> Seq<
    InscriptionInfo,
>
    decreases fuel,
{
    match child_of(entries, msg) {
        Some(next) => if fuel == 0 {
            Seq::empty()
        } else {
            seq![next] + followers(entries, next.this_msg, (fuel - 1) as nat)
        },
        None => Seq::empty(),
    }
}

/// Following a message comes to an end.
pub open spec fn follows_to_an_end(entries: Seq<InscriptionInfo>, msg: MsgId, fuel: nat) -> bool
    decreases fuel,
{
    match child_of(entries, msg) {
        Some(next) => fuel > 0 && follows_to_an_end(entries, next.this_msg, (fuel - 1) as nat),
        None => true,
    }
}

/// The entries form one chain: there is one to start from, and following it
/// ends and goes through them all.
pub open spec fn form_a_chain(entries: Seq<InscriptionInfo>) -> bool {
    entries.len() <= 1 || {
        &&& root_position(entries, msgs(entries)) is Some
        &&& follows_to_an_end(
            entries,
            entries[root_position(entries, msgs(entries))->0].this_msg,
            entries.len(),
        )
        &&& in_chain_order(entries).len() == entries.len()
    }
}

/// The entries in chain order.
pub open spec fn in_chain_order(entries: Seq<InscriptionInfo>) -> Seq<InscriptionInfo> {
    if entries.len() <= 1 {
        entries
    } else {
        let root = entries[root_position(entries, msgs(entries))->0];
        seq![root] + followers(entries, root.this_msg, entries.len())
    }
}

fn find_root(entries: &Vec<InscriptionInfo>) -> (res: usize)
    requires
        root_position(entries@, msgs(entries@)) is Some,
    ensures
        root_position(entries@, msgs(entries@)) == Some(res as int),
        res < entries@.len(),
{
    let mut made: KeySet<MsgId> = KeySet::new();
    add_msgs(&mut made, entries.as_slice());
    assert(made@ =~= msgs(entries@));
    let mut i: usize = 0;
    while i < entries.len()
        invariant
            i <= entries@.len(),
            made@ == msgs(entries@),
            root_position(entries@.take(i as int), made@) is None,
            root_position(entries@, made@) is Some,
        decreases entries@.len() - i,
    {
        assert(entries@.take(i + 1).drop_last() =~= entries@.take(i as int));
        if !made.contains(&entries[i].parent_msg) {
            proof {
                lemma_root_stays(entries@, made@, i + 1);
            }
            return i;
        }
        i = i + 1;
    }
    assert(entries@.take(i as int) =~= entries@);
    0
}

proof fn lemma_root_stays(entries: Seq<InscriptionInfo>, made: Set<MsgId>, n: int)
    requires
        0 <= n <= entries.len(),
        root_position(entries.take(n), made) is Some,
    ensures
        root_position(entries, made) == root_position(entries.take(n), made),
    decreases entries.len() - n,
{
    if n == entries.len() {
        assert(entries.take(n) =~= entries);
    } else {
        assert(entries.take(n + 1).drop_last() =~= entries.take(n));
        lemma_root_stays(entries, made, n + 1);
    }
}

fn find_child(entries: &Vec<InscriptionInfo>, msg: MsgId) -> (res: Option<InscriptionInfo>)
    ensures
        res == child_of(entries@, msg),
{
    let mut n: usize = entries.len();
    assert(entries@.take(n as int) =~= entries@);
    while n > 0
        invariant
            n <= entries@.len(),
            child_of(entries@, msg) == child_of(entries@.take(n as int), msg),
        decreases n,
    {
        assert(entries@.take(n as int).drop_last() =~= entries@.take(n - 1));
        assert(entries@.take(n as int).last() == entries@[n - 1]);
        if entries[n - 1].parent_msg.same(&msg) {
            return Some(entries[n - 1].clone());
        }
        n = n - 1;
    }
    None
}

/// The channel's entries of a block in chain order. Asks that they form one
/// chain, as the protocol has it.
pub fn extract_inscriptions(txs: &[SignedOps], channel_id: ChannelId) -> (res: Vec<
    InscriptionInfo,
>)
    requires
        form_a_chain(block_entries(txs@, channel_id)),
    ensures
        res@ == in_chain_order(block_entries(txs@, channel_id)),
{
    let entries = collect_entries(txs, channel_id);
    if entries.len() <= 1 {
        return entries;
    }
    let root: usize = find_root(&entries);
    let mut sorted: Vec<InscriptionInfo> = Vec::new();
    sorted.push(entries[root].clone());
    let ghost start = entries@[root as int].this_msg;
    let ghost whole = followers(entries@, start, entries@.len());
    let mut current: MsgId = entries[root].this_msg;
    let mut fuel: usize = entries.len();
    let mut next = find_child(&entries, current);
    assert(sorted@ =~= seq![entries@[root as int]]);
    assert(sorted@ + whole =~= seq![entries@[root as int]] + whole);
    while next.is_some()
        invariant
            next == child_of(entries@, current),
            follows_to_an_end(entries@, current, fuel as nat),
            seq![entries@[root as int]] + whole == sorted@ + followers(
                entries@,
                current,
                fuel as nat,
            ),
        decreases fuel,
    {
        let info = next.unwrap();
        let ghost before = sorted@;
        current = info.this_msg;
        sorted.push(info);
        fuel = fuel - 1;
        proof {
            let rest = followers(entries@, current, fuel as nat);
            assert(before + (seq![info] + rest) =~= sorted@ + rest);
        }
        next = find_child(&entries, current);
    }
    assert(sorted@ + Seq::empty() =~= sorted@);
    sorted
}

proof fn lemma_child_links(entries: Seq<InscriptionInfo>, msg: MsgId)
    ensures
        child_of(entries, msg) matches Some(next) ==> next.parent_msg == msg,
    decreases entries.len(),
{
    if entries.len() > 0 {
        lemma_child_links(entries.drop_last(), msg);
    }
}

proof fn lemma_followers_linked(entries: Seq<InscriptionInfo>, msg: MsgId, fuel: nat)
    ensures
        ({
            let list = followers(entries, msg, fuel);
            &&& list.len() > 0 ==> list[0].parent_msg == msg
            &&& forall|i: int|
                0 < i < list.len() ==> (#[trigger] list[i]).parent_msg == list[i - 1].this_msg
        }),
    decreases fuel,
{
    lemma_child_links(entries, msg);
    if let Some(next) = child_of(entries, msg) {
        if fuel > 0 {
            lemma_followers_linked(entries, next.this_msg, (fuel - 1) as nat);
            let rest = followers(entries, next.this_msg, (fuel - 1) as nat);
            let list = followers(entries, msg, fuel);
            assert(list == seq![next] + rest);
            assert forall|i: int| 0 < i < list.len() implies (#[trigger] list[i]).parent_msg
                == list[i - 1].this_msg by {
                assert(list[i] == rest[i - 1]);
                if i > 1 {
                    assert(list[i - 1] == rest[i - 2]);
                }
            }
        }
    }
}

/// In chain order, each entry chains from the one before it.
pub proof fn law_chain_order_is_linked(entries: Seq<InscriptionInfo>)
    ensures
        ({
            let list = in_chain_order(entries);
            forall|i: int|
                0 < i < list.len() ==> (#[trigger] list[i]).parent_msg == list[i - 1].this_msg
        }),
{
    if entries.len() > 1 {
        let root = entries[root_position(entries, msgs(entries))->0];
        lemma_followers_linked(entries, root.this_msg, entries.len());
        let rest = followers(entries, root.this_msg, entries.len());
        let list = in_chain_order(entries);
        assert forall|i: int| 0 < i < list.len() implies (#[trigger] list[i]).parent_msg
            == list[i - 1].this_msg by {
            assert(list[i] == rest[i - 1]);
            if i > 1 {
                assert(list[i - 1] == rest[i - 2]);
            }
        }
    }
}

proof fn lemma_root_in_range(entries: Seq<InscriptionInfo>, made: Set<MsgId>)
    ensures
        root_position(entries, made) matches Some(i) ==> 0 <= i < entries.len(),
    decreases entries.len(),
{
    if entries.len() > 0 {
        lemma_root_in_range(entries.drop_last(), made);
    }
}

proof fn lemma_child_is_listed(entries: Seq<InscriptionInfo>, msg: MsgId)
    ensures
        child_of(entries, msg) matches Some(next) ==> entries.contains(next),
    decreases entries.len(),
{
    if entries.len() > 0 {
        let front = entries.drop_last();
        lemma_child_is_listed(front, msg);
        if let Some(next) = child_of(entries, msg) {
            if entries.last().parent_msg == msg {
                assert(entries[entries.len() - 1] == next);
            } else {
                assert(entries[front.index_of(next)] == next);
            }
        }
    }
}

/// How much fuel is left over does not matter where the end is reached.
proof fn lemma_same_followers(entries: Seq<InscriptionInfo>, msg: MsgId, a: nat, b: nat)
    requires
        follows_to_an_end(entries, msg, a),
        follows_to_an_end(entries, msg, b),
    ensures
        followers(entries, msg, a) == followers(entries, msg, b),
    decreases a,
{
    if let Some(next) = child_of(entries, msg) {
        lemma_same_followers(entries, next.this_msg, (a - 1) as nat, (b - 1) as nat);
    }
}

/// What follows a follower is what is left of the list behind it.
proof fn lemma_rest_of_followers(
    entries: Seq<InscriptionInfo>,
    msg: MsgId,
    fuel: nat,
    i: int,
)
    requires
        follows_to_an_end(entries, msg, fuel),
        0 <= i < followers(entries, msg, fuel).len(),
    ensures
        ({
            let list = followers(entries, msg, fuel);
            &&& i < fuel
            &&& entries.contains(list[i])
            &&& follows_to_an_end(entries, list[i].this_msg, (fuel - 1 - i) as nat)
            &&& followers(entries, list[i].this_msg, (fuel - 1 - i) as nat).len() == list.len() - 1
                - i
        }),
    decreases fuel,
{
    lemma_child_is_listed(entries, msg);
    if let Some(next) = child_of(entries, msg) {
        let rest = followers(entries, next.this_msg, (fuel - 1) as nat);
        let list = followers(entries, msg, fuel);
        assert(list == seq![next] + rest);
        if i > 0 {
            assert(list[i] == rest[i - 1]);
            lemma_rest_of_followers(entries, next.this_msg, (fuel - 1) as nat, i - 1);
        }
    }
}

proof fn lemma_chain_order_differs(entries: Seq<InscriptionInfo>)
    requires
        form_a_chain(entries),
    ensures
        in_chain_order(entries).no_duplicates(),
        forall|i: int|
            0 <= i < in_chain_order(entries).len() ==> entries.contains(
                #[trigger] in_chain_order(entries)[i],
            ),
{
    let list = in_chain_order(entries);
    if entries.len() <= 1 {
        assert forall|i: int| 0 <= i < list.len() implies entries.contains(#[trigger] list[i]) by {
            assert(entries[i] == list[i]);
        }
    } else {
        lemma_root_in_range(entries, msgs(entries));
        let n = entries.len();
        let root = entries[root_position(entries, msgs(entries))->0];
        let rest = followers(entries, root.this_msg, n);
        assert(list == seq![root] + rest);
        assert forall|i: int| 0 <= i < list.len() implies entries.contains(#[trigger] list[i]) by {
            if i > 0 {
                assert(list[i] == rest[i - 1]);
                lemma_rest_of_followers(entries, root.this_msg, n, i - 1);
            }
        }
        assert forall|i: int, j: int| 0 <= i < j < list.len() implies list[i] != list[j] by {
            assert(list[j] == rest[j - 1]);
            lemma_rest_of_followers(entries, root.this_msg, n, j - 1);
            let behind_j = (n - j) as nat;
            if i == 0 {
                if list[i] == list[j] {
                    lemma_same_followers(entries, root.this_msg, n, behind_j);
                }
            } else {
                assert(list[i] == rest[i - 1]);
                lemma_rest_of_followers(entries, root.this_msg, n, i - 1);
                if list[i] == list[j] {
                    lemma_same_followers(entries, list[i].this_msg, (n - i) as nat, behind_j);
                }
            }
        }
    }
}

/// Putting a block's entries in chain order loses none and repeats none.
pub proof fn law_chain_order_keeps_the_entries(entries: Seq<InscriptionInfo>)
    requires
        form_a_chain(entries),
    ensures
        in_chain_order(entries).to_multiset() == entries.to_multiset(),
{
    let list = in_chain_order(entries);
    if entries.len() > 1 {
        lemma_chain_order_differs(entries);
        list.unique_seq_to_set();
        entries.lemma_cardinality_of_set();
        let few = list.to_set();
        let many = entries.to_set();
        assert forall|x: InscriptionInfo| #[trigger] few.contains(x) implies many.contains(x) by {
            let i = list.index_of(x);
            assert(list[i] == x);
        }
        vstd::set_lib::lemma_len_subset(few, many);
        vstd::set_lib::lemma_subset_equality(few, many);
        entries.lemma_no_dup_set_cardinality();
        list.lemma_multiset_has_no_duplicates();
        entries.lemma_multiset_has_no_duplicates();
        list.to_multiset_ensures();
        entries.to_multiset_ensures();
        assert forall|x: InscriptionInfo| list.to_multiset().count(x) == entries.to_multiset().count(
            x,
        ) by {
            assert(list.contains(x) <==> few.contains(x));
            assert(entries.contains(x) <==> many.contains(x));
        }
        assert(list.to_multiset() =~= entries.to_multiset());
    }
}

} // verus!
