//! Catching up with finalized history, one batch of slots at a time.

use vstd::prelude::*;

use crate::ids::{MsgId, TxHash};
use crate::mantle::Slot;
use crate::sequencer::block_event::FetchedBatch;
use crate::sequencer::block_fetch::ops_of_item;
use crate::sequencer::state::TxState;
use crate::sequencer::state_model::StateModel;
use crate::sequencer::types::{FinalizedOp, FinalizedTx, InscriptionInfo};

verus! {

/// How many slots a batch reaches beyond its first.
pub const BACKFILL_BATCH_SIZE: u64 = 100;

/// What a backfill does next.
#[derive(Clone, Copy, Debug, PartialEq, Eq, Structural)]
pub enum BackfillStep {
    /// No backfill is under way.
    Inactive,
    /// The range is done.
    Exhausted,
    /// These slots come next, first and last.
    Fetch { from: Slot, to: Slot },
}

pub open spec fn backfill_step(from: Option<Slot>, to: Option<Slot>) -> BackfillStep {
    match (from, to) {
        (Some(from), Some(to)) => if from > to {
            BackfillStep::Exhausted
        } else {
            BackfillStep::Fetch {
                from,
                to: if from + BACKFILL_BATCH_SIZE <= to {
                    (from + BACKFILL_BATCH_SIZE) as u64
                } else {
                    to
                },
            }
        },
        _ => BackfillStep::Inactive,
    }
}

/// The next batch of a backfill over the slots from `from` to `to`.
pub fn next_backfill_step(from: Option<Slot>, to: Option<Slot>) -> (res: BackfillStep)
    ensures
        res == backfill_step(from, to),
{
    match (from, to) {
        (Some(from), Some(to)) => if from > to {
            BackfillStep::Exhausted
        } else if to - from >= BACKFILL_BATCH_SIZE {
            BackfillStep::Fetch { from, to: from + BACKFILL_BATCH_SIZE }
        } else {
            BackfillStep::Fetch { from, to }
        },
        _ => BackfillStep::Inactive,
    }
}

/// The slots of a range in batches, each behind the one before it.
pub open spec fn batches(from: int, to: int) -> Seq<(int, int)>
    decreases to - from + 1,
{
    if from > to {
        Seq::empty()
    } else {
        let end = if from + BACKFILL_BATCH_SIZE <= to {
            from + BACKFILL_BATCH_SIZE
        } else {
            to
        };
        seq![(from, end)] + batches(end + 1, to)
    }
}

/// The batches of a range cover each of its slots exactly once.
pub proof fn law_batches_cover_the_range(from: int, to: int, slot: int)
    ensures
        ({
            let all = batches(from, to);
            &&& from <= slot <= to <==> exists|i: int|
                0 <= i < all.len() && (#[trigger] all[i]).0 <= slot <= all[i].1
            &&& forall|i: int, j: int|
                0 <= i < j < all.len() ==> (#[trigger] all[i]).1 < (#[trigger] all[j]).0
            &&& forall|i: int|
                0 <= i < all.len() ==> from <= (#[trigger] all[i]).0 <= all[i].1 <= to
        }),
    decreases to - from + 1,
{
    if from <= to {
        let end = if from + BACKFILL_BATCH_SIZE <= to {
            from + BACKFILL_BATCH_SIZE
        } else {
            to
        };
        let rest = batches(end + 1, to);
        let all = batches(from, to);
        law_batches_cover_the_range(end + 1, to, slot);
        assert(all == seq![(from, end)] + rest);
        assert(all[0] == (from, end));
        assert forall|i: int| 0 < i < all.len() implies #[trigger] all[i] == rest[i - 1] by {}
        if from <= slot <= to && slot > end {
            let k = choose|i: int| 0 <= i < rest.len() && (#[trigger] rest[i]).0 <= slot <= rest[i].1;
            assert(all[k + 1].0 <= slot <= all[k + 1].1);
        }
        if exists|i: int| 0 <= i < all.len() && (#[trigger] all[i]).0 <= slot <= all[i].1 {
            let k = choose|i: int| 0 <= i < all.len() && (#[trigger] all[i]).0 <= slot <= all[i].1;
            if k > 0 {
                assert(rest[k - 1].0 <= slot <= rest[k - 1].1);
            }
        }
    }
}

/// The first slot of a backfill up to the network's LIB, and whether one is
/// needed. On a cold start the first slot itself is included, so that a channel
/// inscribed at genesis is found; otherwise the slot was settled before.
pub fn backfill_range(from_genesis: bool, lib_slot: Slot, network_lib_slot: Slot) -> (res: Option<
    (Slot, Slot),
>)
    ensures
        res == if from_genesis {
            Some((lib_slot, network_lib_slot))
        } else if lib_slot < network_lib_slot {
            Some(((lib_slot + 1) as u64, network_lib_slot))
        } else {
            None
        },
{
    if from_genesis {
        Some((lib_slot, network_lib_slot))
    } else if lib_slot < network_lib_slot {
        Some((lib_slot + 1, network_lib_slot))
    } else {
        None
    }
}

/// The last inscription of a list of ops.
pub open spec fn last_inscription(ops: Seq<FinalizedOp>) -> Option<InscriptionInfo>
    decreases ops.len(),
{
    if ops.len() == 0 {
        None
    } else {
        match ops.last() {
            FinalizedOp::Inscription(info) => Some(info),
            _ => last_inscription(ops.drop_last()),
        }
    }
}

/// The last config of a list of ops.
pub open spec fn last_config(ops: Seq<FinalizedOp>) -> Option<InscriptionInfo>
    decreases ops.len(),
{
    if ops.len() == 0 {
        None
    } else {
        match ops.last() {
            FinalizedOp::Config(info) => Some(info),
            _ => last_config(ops.drop_last()),
        }
    }
}

/// A step of a backfill goes on where the one before it ended: it starts at the
/// first slot that is not settled, ends inside the range, and reaches a whole
/// batch unless the range ends first. A range is done once its first slot lies
/// behind its last one, and not before.
pub proof fn law_step_takes_the_next_batch(from: Option<Slot>, to: Option<Slot>)
    ensures
        backfill_step(from, to) is Inactive <==> from is None || to is None,
        backfill_step(from, to) is Exhausted <==> (from matches Some(first) && (to matches Some(
            last,
        ) && first > last)),
        backfill_step(from, to) matches BackfillStep::Fetch { from: first, to: end } ==> {
            &&& from == Some(first)
            &&& to matches Some(last) && first <= end <= last && end - first <= 100 && (end == last
                || end - first == 100)
            &&& batches(from->0 as int, to->0 as int)[0] == (first as int, end as int)
            &&& batches(from->0 as int, to->0 as int).drop_first() == batches(
                end + 1,
                to->0 as int,
            )
        },
{
    if let BackfillStep::Fetch { from: first, to: end } = backfill_step(from, to) {
        let rest = batches(end + 1, to->0 as int);
        assert((seq![(first as int, end as int)] + rest).drop_first() =~= rest);
    }
}

proof fn lemma_last_of_parts(a: Seq<FinalizedOp>, b: Seq<FinalizedOp>)
    ensures
        last_inscription(a + b) == match last_inscription(b) {
            Some(info) => Some(info),
            None => last_inscription(a),
        },
        last_config(a + b) == match last_config(b) {
            Some(info) => Some(info),
            None => last_config(a),
        },
    decreases b.len(),
{
    if b.len() == 0 {
        assert(a + b =~= a);
    } else {
        assert((a + b).drop_last() =~= a + b.drop_last());
        lemma_last_of_parts(a, b.drop_last());
    }
}

/// The last inscription or config of a list of ops is the one behind which none
/// stands.
proof fn lemma_last_stands_behind(ops: Seq<FinalizedOp>, i: int)
    requires
        0 <= i < ops.len(),
    ensures
        (forall|j: int| i < j < ops.len() ==> !((#[trigger] ops[j]) is Inscription)) ==> (
        ops[i] matches FinalizedOp::Inscription(info) ==> last_inscription(ops) == Some(info)),
        (forall|j: int| i < j < ops.len() ==> !((#[trigger] ops[j]) is Config)) ==> (
        ops[i] matches FinalizedOp::Config(info) ==> last_config(ops) == Some(info)),
    decreases ops.len(),
{
    if i < ops.len() - 1 {
        let front = ops.drop_last();
        assert(ops[ops.len() - 1] == ops.last());
        assert forall|j: int| i < j < front.len() implies front[j] == #[trigger] ops[j] by {}
        lemma_last_stands_behind(front, i);
    }
}

proof fn lemma_none_is_last(ops: Seq<FinalizedOp>)
    ensures
        (forall|j: int| 0 <= j < ops.len() ==> !((#[trigger] ops[j]) is Inscription))
            ==> last_inscription(ops) is None,
        (forall|j: int| 0 <= j < ops.len() ==> !((#[trigger] ops[j]) is Config)) ==> last_config(
            ops,
        ) is None,
    decreases ops.len(),
{
    if ops.len() > 0 {
        let front = ops.drop_last();
        assert(ops[ops.len() - 1] == ops.last());
        assert forall|j: int| 0 <= j < front.len() implies front[j] == #[trigger] ops[j] by {}
        lemma_none_is_last(front);
    }
}

/// The op at place `b` of transaction `a` of a batch.
pub open spec fn op_at(items: Seq<FinalizedTx>, a: int, b: int) -> FinalizedOp {
    items[a].ops@[b]
}

/// There is an op at place `b` of transaction `a` of a batch.
pub open spec fn is_place(items: Seq<FinalizedTx>, a: int, b: int) -> bool {
    0 <= a < items.len() && 0 <= b < items[a].ops@.len()
}

/// An op stands behind another: in a later transaction, or later in the same
/// one.
pub open spec fn behind(a: int, b: int, c: int, d: int) -> bool {
    a < c || a == c && b < d
}

proof fn lemma_last_in_batch(items: Seq<FinalizedTx>, a: int, b: int)
    requires
        is_place(items, a, b),
    ensures
        (forall|c: int, d: int|
            is_place(items, c, d) && behind(a, b, c, d) ==> !((#[trigger] op_at(
                items,
                c,
                d,
            )) is Inscription)) ==> (op_at(items, a, b) matches FinalizedOp::Inscription(info)
            ==> last_inscription(items.flat_map(ops_of_item())) == Some(info)),
        (forall|c: int, d: int|
            is_place(items, c, d) && behind(a, b, c, d) ==> !((#[trigger] op_at(
                items,
                c,
                d,
            )) is Config)) ==> (op_at(items, a, b) matches FinalizedOp::Config(info)
            ==> last_config(items.flat_map(ops_of_item())) == Some(info)),
    decreases items.len(),
{
    let f = ops_of_item();
    let front = items.drop_last();
    let last = items.last().ops@;
    let n = items.len() - 1;
    items.lemma_flat_map_take_append(f, n);
    assert(items.take(items.len() as int) =~= items);
    assert(items.take(n) =~= front);
    assert(f(items[n]) =~= last);
    lemma_last_of_parts(front.flat_map(f), last);
    assert forall|c: int, d: int| is_place(front, c, d) implies is_place(items, c, d) && op_at(
        items,
        c,
        d,
    ) == #[trigger] op_at(front, c, d) by {}
    assert forall|d: int| 0 <= d < last.len() implies is_place(items, n, d) && op_at(items, n, d)
        == #[trigger] last[d] by {}
    if a == n {
        lemma_last_stands_behind(last, b);
    } else {
        lemma_none_is_last(last);
        lemma_last_in_batch(front, a, b);
    }
}

proof fn lemma_none_in_batch(items: Seq<FinalizedTx>)
    ensures
        (forall|c: int, d: int|
            is_place(items, c, d) ==> !((#[trigger] op_at(items, c, d)) is Inscription))
            ==> last_inscription(items.flat_map(ops_of_item())) is None,
        (forall|c: int, d: int|
            is_place(items, c, d) ==> !((#[trigger] op_at(items, c, d)) is Config)) ==> last_config(
            items.flat_map(ops_of_item()),
        ) is None,
    decreases items.len(),
{
    let f = ops_of_item();
    if items.len() == 0 {
        assert(items.flat_map(f) =~= Seq::empty());
    } else {
        let front = items.drop_last();
        let last = items.last().ops@;
        let n = items.len() - 1;
        items.lemma_flat_map_take_append(f, n);
        assert(items.take(items.len() as int) =~= items);
        assert(items.take(n) =~= front);
        assert(f(items[n]) =~= last);
        lemma_last_of_parts(front.flat_map(f), last);
        assert forall|c: int, d: int| is_place(front, c, d) implies is_place(items, c, d) && op_at(
            items,
            c,
            d,
        ) == #[trigger] op_at(front, c, d) by {}
        assert forall|d: int| 0 <= d < last.len() implies is_place(items, n, d) && op_at(items, n, d)
            == #[trigger] last[d] by {}
        lemma_none_is_last(last);
        lemma_none_in_batch(front);
    }
}

/// A batch leaves the channel at its last inscription: where the op at place
/// `b` of transaction `a` is an inscription and none stands behind it, the
/// chaining pointer and the finalized message are its message, and the finalized
/// parent the message it chains from. A batch without one moves neither.
pub proof fn law_batch_ends_at_its_last_inscription(
    m: StateModel,
    hashes: Seq<TxHash>,
    items: Seq<FinalizedTx>,
    last_msg_id: MsgId,
    a: int,
    b: int,
)
    ensures
        ({
            let n = settle_batch(m, hashes, items);
            let pointer = pointer_after(last_msg_id, items);
            &&& is_place(items, a, b) && (forall|c: int, d: int|
                is_place(items, c, d) && behind(a, b, c, d) ==> !((#[trigger] op_at(
                    items,
                    c,
                    d,
                )) is Inscription)) ==> (op_at(items, a, b) matches FinalizedOp::Inscription(info)
                ==> pointer == info.this_msg && n.finalized_msg == info.this_msg
                && n.finalized_parent_msg == Some(info.parent_msg))
            &&& (forall|c: int, d: int|
                is_place(items, c, d) ==> !((#[trigger] op_at(items, c, d)) is Inscription))
                ==> pointer == last_msg_id && n.finalized_msg == m.finalized_msg
                && n.finalized_parent_msg == m.finalized_parent_msg
        }),
{
    if is_place(items, a, b) {
        lemma_last_in_batch(items, a, b);
    }
    lemma_none_in_batch(items);
    lemma_settled_tips(m, hashes, items);
}

/// A batch leaves the config lineage at its last config, which pending
/// inscriptions are not held against again; without one it moves nothing.
pub proof fn law_batch_ends_at_its_last_config(
    m: StateModel,
    hashes: Seq<TxHash>,
    items: Seq<FinalizedTx>,
    a: int,
    b: int,
)
    ensures
        ({
            let n = settle_batch(m, hashes, items);
            &&& is_place(items, a, b) && (forall|c: int, d: int|
                is_place(items, c, d) && behind(a, b, c, d) ==> !((#[trigger] op_at(
                    items,
                    c,
                    d,
                )) is Config)) ==> (op_at(items, a, b) matches FinalizedOp::Config(info)
                ==> n.finalized_config == info.this_msg && n.observed_config_tip == info.this_msg)
            &&& (forall|c: int, d: int|
                is_place(items, c, d) ==> !((#[trigger] op_at(items, c, d)) is Config))
                ==> n.finalized_config == m.finalized_config && n.observed_config_tip
                == m.observed_config_tip
        }),
{
    if is_place(items, a, b) {
        lemma_last_in_batch(items, a, b);
    }
    lemma_none_in_batch(items);
    lemma_settled_tips(m, hashes, items);
}

proof fn lemma_settled_tips(m: StateModel, hashes: Seq<TxHash>, items: Seq<FinalizedTx>)
    ensures
        ({
            let ops = items.flat_map(ops_of_item());
            let n = settle_batch(m, hashes, items);
            &&& last_inscription(ops) matches Some(info) ==> n.finalized_msg == info.this_msg
                && n.finalized_parent_msg == Some(info.parent_msg)
            &&& last_inscription(ops) is None ==> n.finalized_msg == m.finalized_msg
                && n.finalized_parent_msg == m.finalized_parent_msg
            &&& last_config(ops) matches Some(info) ==> n.finalized_config == info.this_msg
                && n.observed_config_tip == info.this_msg
            &&& last_config(ops) is None ==> n.finalized_config == m.finalized_config
                && n.observed_config_tip == m.observed_config_tip
        }),
{
    let ops = items.flat_map(ops_of_item());
    let m1 = match last_inscription(ops) {
        Some(info) => StateModel {
            finalized_msg: info.this_msg,
            finalized_parent_msg: Some(info.parent_msg),
            ..m
        },
        None => m,
    };
    let m2 = match last_config(ops) {
        Some(info) => StateModel {
            finalized_config: info.this_msg,
            observed_config_tip: info.this_msg,
            ..m1
        },
        None => m1,
    };
    lemma_removal_keeps_tips(m2, hashes);
}

proof fn lemma_removal_keeps_tips(m: StateModel, list: Seq<TxHash>)
    ensures
        ({
            let n = m.without_all(list);
            &&& n.finalized_msg == m.finalized_msg
            &&& n.finalized_parent_msg == m.finalized_parent_msg
            &&& n.finalized_config == m.finalized_config
            &&& n.observed_config_tip == m.observed_config_tip
            &&& n.displaced == m.displaced
            &&& n.displaced_other == m.displaced_other
            &&& n.local == m.local
            &&& n.safe == m.safe
            &&& n.parents == m.parents
            &&& n.lib == m.lib
            &&& n.stored == m.stored
            &&& n.stored_order == m.stored_order
            &&& n.wallet == m.wallet
        }),
    decreases list.len(),
{
    if list.len() > 0 {
        lemma_removal_keeps_tips(m, list.drop_last());
    }
}

proof fn lemma_removal_is_exact(m: StateModel, list: Seq<TxHash>, hash: TxHash)
    requires
        forall|h: TxHash| !(m.pending.contains_key(h) && #[trigger] m.other.contains_key(h)),
    ensures
        ({
            let n = m.without_all(list);
            &&& n.pending.contains_key(hash) <==> m.pending.contains_key(hash) && !list.contains(
                hash,
            )
            &&& n.other.contains_key(hash) <==> m.other.contains_key(hash) && !list.contains(hash)
            &&& n.pending.contains_key(hash) ==> n.pending[hash] == m.pending[hash]
            &&& n.other.contains_key(hash) ==> n.other[hash] == m.other[hash]
            &&& forall|h: TxHash| !(n.pending.contains_key(h) && #[trigger] n.other.contains_key(h))
        }),
    decreases list.len(),
{
    if list.len() > 0 {
        let front = list.drop_last();
        lemma_removal_is_exact(m, front, hash);
        assert(list[list.len() - 1] == list.last());
        if front.contains(hash) {
            assert(list[front.index_of(hash)] == hash);
        }
        if list.contains(hash) && hash != list.last() {
            assert(front[list.index_of(hash)] == hash);
        }
    }
}

/// A batch settles exactly its own transactions: none of them is held
/// afterwards, everything else is held as it was, and nothing but the finalized
/// tips changes besides.
pub proof fn law_batch_settles_its_transactions(
    m: StateModel,
    hashes: Seq<TxHash>,
    items: Seq<FinalizedTx>,
    hash: TxHash,
)
    requires
        forall|h: TxHash| !(m.pending.contains_key(h) && #[trigger] m.other.contains_key(h)),
    ensures
        ({
            let n = settle_batch(m, hashes, items);
            &&& hashes.contains(hash) ==> !n.pending.contains_key(hash) && !n.other.contains_key(
                hash,
            )
            &&& !hashes.contains(hash) ==> {
                &&& n.pending.contains_key(hash) <==> m.pending.contains_key(hash)
                &&& n.pending.contains_key(hash) ==> n.pending[hash] == m.pending[hash]
                &&& n.other.contains_key(hash) <==> m.other.contains_key(hash)
                &&& n.other.contains_key(hash) ==> n.other[hash] == m.other[hash]
            }
            &&& n.displaced == m.displaced
            &&& n.displaced_other == m.displaced_other
            &&& n.local == m.local
            &&& n.safe == m.safe
            &&& n.parents == m.parents
            &&& n.lib == m.lib
            &&& n.stored == m.stored
            &&& n.stored_order == m.stored_order
            &&& n.wallet == m.wallet
        }),
{
    let ops = items.flat_map(ops_of_item());
    let m1 = match last_inscription(ops) {
        Some(info) => StateModel {
            finalized_msg: info.this_msg,
            finalized_parent_msg: Some(info.parent_msg),
            ..m
        },
        None => m,
    };
    let m2 = match last_config(ops) {
        Some(info) => StateModel {
            finalized_config: info.this_msg,
            observed_config_tip: info.this_msg,
            ..m1
        },
        None => m1,
    };
    lemma_removal_keeps_tips(m2, hashes);
    lemma_removal_is_exact(m2, hashes, hash);
}

/// The last inscription and the last config of a batch.
fn last_of(items: &Vec<FinalizedTx>) -> (res: (Option<InscriptionInfo>, Option<InscriptionInfo>))
    ensures
        res.0 == last_inscription(items@.flat_map(ops_of_item())),
        res.1 == last_config(items@.flat_map(ops_of_item())),
{
    let ghost f = ops_of_item();
    let mut inscription: Option<InscriptionInfo> = None;
    let mut config: Option<InscriptionInfo> = None;
    let mut i: usize = 0;
    assert(items@.take(0) =~= Seq::empty());
    while i < items.len()
        invariant
            i <= items@.len(),
            f == ops_of_item(),
            inscription == last_inscription(items@.take(i as int).flat_map(f)),
            config == last_config(items@.take(i as int).flat_map(f)),
        decreases items@.len() - i,
    {
        let ghost before = items@.take(i as int).flat_map(f);
        let ghost ops = items@[i as int].ops@;
        let refs = items[i].ops.refs();
        assert(before + ops.take(0) =~= before);
        let mut j: usize = 0;
        while j < refs.len()
            invariant
                j <= refs@.len(),
                refs@.len() == ops.len(),
                forall|k: int| 0 <= k < ops.len() ==> *(#[trigger] refs@[k]) == ops[k],
                inscription == last_inscription(before + ops.take(j as int)),
                config == last_config(before + ops.take(j as int)),
            decreases refs@.len() - j,
        {
            let ghost grown = before + ops.take(j + 1);
            assert(grown.drop_last() =~= before + ops.take(j as int));
            assert(grown.last() == ops[j as int]);
            match refs[j] {
                FinalizedOp::Inscription(info) => {
                    inscription = Some(info.clone());
                },
                FinalizedOp::Config(info) => {
                    config = Some(info.clone());
                },
                _ => {},
            }
            j = j + 1;
        }
        proof {
            assert(ops.take(j as int) =~= ops);
            items@.lemma_flat_map_take_append(f, i as int);
        }
        i = i + 1;
    }
    assert(items@.take(i as int) =~= items@);
    (inscription, config)
}

/// The state with the finalized tips of a batch, and without its transactions
/// among the pending ones.
pub open spec fn settle_batch(m: StateModel, hashes: Seq<TxHash>, items: Seq<FinalizedTx>) -> StateModel {
    let ops = items.flat_map(ops_of_item());
    let m1 = match last_inscription(ops) {
        Some(info) => StateModel {
            finalized_msg: info.this_msg,
            finalized_parent_msg: Some(info.parent_msg),
            ..m
        },
        None => m,
    };
    let m2 = match last_config(ops) {
        Some(info) => StateModel {
            finalized_config: info.this_msg,
            observed_config_tip: info.this_msg,
            ..m1
        },
        None => m1,
    };
    m2.without_all(hashes)
}

/// The chaining pointer after a batch: its last inscription, if it has one.
pub open spec fn pointer_after(last_msg_id: MsgId, items: Seq<FinalizedTx>) -> MsgId {
    match last_inscription(items.flat_map(ops_of_item())) {
        Some(info) => info.this_msg,
        None => last_msg_id,
    }
}

/// Settles a batch: moves the finalized tips to its last inscription and its
/// last config, and drops its transactions from the pending ones. Returns the
/// new chaining pointer.
pub fn apply_backfill_batch(state: &mut TxState, last_msg_id: MsgId, batch: &FetchedBatch) -> (res:
    MsgId)
    ensures
        final(state)@ == settle_batch(old(state)@, batch.our_tx_hashes@, batch.items@),
        res == pointer_after(last_msg_id, batch.items@),
{
    let (inscription, config) = last_of(&batch.items);
    let mut pointer = last_msg_id;
    if let Some(info) = inscription {
        pointer = info.this_msg;
        state.set_finalized_msg(info.this_msg, Some(info.parent_msg));
    }
    if let Some(info) = config {
        state.set_finalized_config(info.this_msg);
    }
    let ghost start = state@;
    let hashes: &Vec<TxHash> = &batch.our_tx_hashes;
    let mut i: usize = 0;
    while i < hashes.len()
        invariant
            i <= hashes@.len(),
            state@ == start.without_all(hashes@.take(i as int)),
        decreases hashes@.len() - i,
    {
        assert(hashes@.take(i + 1).drop_last() =~= hashes@.take(i as int));
        let _ = state.remove_pending(&hashes[i]);
        i = i + 1;
    }
    assert(hashes@.take(i as int) =~= hashes@);
    pointer
}

} // verus!
