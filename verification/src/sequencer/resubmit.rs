//! Which pending transactions are posted again.

use vstd::prelude::*;

use crate::collections::KeySet;
use crate::ids::{HeaderId, TxHash};
use crate::mantle::SignedOps;
use crate::sequencer::state::TxState;
use crate::sequencer::state_laws::{lemma_filter_map_from, lemma_filter_member};
use crate::sequencer::state_model::{hash_not_in, not_safe, StateModel};

verus! {

/// A pending inscription that was never handed to the mempool.
pub open spec fn is_first_post(m: StateModel, hash: TxHash) -> bool {
    m.pending.contains_key(hash) && !m.pending[hash].posted
}

/// Nothing to do for this one now: a post of it is under way, or it is an
/// inscription and it is not our turn.
pub open spec fn is_skipped(
    m: StateModel,
    hash: TxHash,
    posting: Set<TxHash>,
    can_publish: bool,
) -> bool {
    posting.contains(hash) || (m.pending.contains_key(hash) && !can_publish)
}

/// What of a list is posted, with `active` inscriptions posted and not mined
/// yet: everything that is not skipped, up to the first inscription whose first
/// post would exceed `depth` active ones.
pub open spec fn picked(
    m: StateModel,
    list: Seq<(TxHash, SignedOps)>,
    posting: Set<TxHash>,
    can_publish: bool,
    depth: nat,
    active: nat,
) -> Seq<(TxHash, SignedOps)>
    decreases list.len(),
{
    if list.len() == 0 {
        Seq::empty()
    } else {
        let hash = list[0].0;
        let rest = list.drop_first();
        if is_skipped(m, hash, posting, can_publish) {
            picked(m, rest, posting, can_publish, depth, active)
        } else if is_first_post(m, hash) && active >= depth {
            Seq::empty()
        } else {
            seq![list[0]] + picked(
                m,
                rest,
                posting,
                can_publish,
                depth,
                if is_first_post(m, hash) {
                    active + 1
                } else {
                    active
                },
            )
        }
    }
}

/// At least one publish may be active.
pub open spec fn depth_of(max_depth: usize) -> nat {
    if max_depth == 0 {
        1
    } else {
        max_depth as nat
    }
}

/// What a sweep posts at a tip.
pub open spec fn sweep(
    m: StateModel,
    tip: HeaderId,
    posting: Set<TxHash>,
    can_publish: bool,
    max_depth: usize,
) -> Seq<(TxHash, SignedOps)> {
    picked(m, m.to_post(tip), posting, can_publish, depth_of(max_depth), m.posted().len())
}

/// Picks the pending transactions to post at a tip: those not mined on its
/// branch and not being posted. Inscriptions wait for our turn, and first posts
/// are bounded by `max_depth` publishes that are posted and not mined yet.
pub fn select_resubmits(
    state: &TxState,
    tip: HeaderId,
    posting: &KeySet<TxHash>,
    can_publish: bool,
    max_depth: usize,
) -> (res: Vec<(TxHash, SignedOps)>)
    ensures
        res@ == sweep(state@, tip, posting@, can_publish, max_depth),
{
    let ghost m = state@;
    let pending = state.pending_txs(tip);
    let depth: usize = if max_depth == 0 {
        1
    } else {
        max_depth
    };
    let mut active: usize = state.posted_pending_publish_count();
    let mut res: Vec<(TxHash, SignedOps)> = Vec::new();
    let ghost goal = sweep(m, tip, posting@, can_publish, max_depth);
    let mut i: usize = 0;
    assert(pending@.skip(0) =~= pending@);
    assert(res@ + goal =~= goal);
    while i < pending.len()
        invariant
            i <= pending@.len(),
            m == state@,
            depth == depth_of(max_depth),
            goal == res@ + picked(
                m,
                pending@.skip(i as int),
                posting@,
                can_publish,
                depth as nat,
                active as nat,
            ),
            goal == sweep(m, tip, posting@, can_publish, max_depth),
        decreases pending@.len() - i,
    {
        let hash = pending[i].0;
        let ghost rest = pending@.skip(i as int);
        proof {
            assert(rest[0] == pending@[i as int]);
            assert(rest.drop_first() =~= pending@.skip(i + 1));
        }
        let (is_inscription, first) = match state.pending_inscription(&hash) {
            Some(entry) => (true, !entry.posted),
            None => (false, false),
        };
        if posting.contains(&hash) || (is_inscription && !can_publish) {
            i = i + 1;
            continue ;
        }
        if first && active >= depth {
            assert(res@ + Seq::empty() =~= res@);
            return res;
        }
        let ghost before = res@;
        if first {
            active = active + 1;
        }
        res.push((hash, pending[i].1.clone()));
        proof {
            let tail = picked(
                m,
                pending@.skip(i + 1),
                posting@,
                can_publish,
                depth as nat,
                active as nat,
            );
            assert(before + (seq![rest[0]] + tail) =~= res@ + tail);
        }
        i = i + 1;
    }
    proof {
        assert(pending@.skip(i as int) =~= Seq::empty());
        assert(res@ + Seq::empty() =~= res@);
    }
    res
}

pub open spec fn first_post_in(m: StateModel) -> spec_fn((TxHash, SignedOps)) -> bool {
    |pair: (TxHash, SignedOps)| is_first_post(m, pair.0)
}

/// A sweep hands out only what it was given and does not skip, and never more
/// first posts than the depth leaves room for.
pub proof fn law_sweep_is_bounded(
    m: StateModel,
    list: Seq<(TxHash, SignedOps)>,
    posting: Set<TxHash>,
    can_publish: bool,
    depth: nat,
    active: nat,
)
    ensures
        ({
            let out = picked(m, list, posting, can_publish, depth, active);
            &&& forall|i: int|
                0 <= i < out.len() ==> list.contains(#[trigger] out[i]) && !is_skipped(
                    m,
                    out[i].0,
                    posting,
                    can_publish,
                )
            &&& out.filter(first_post_in(m)).len() + active <= if active > depth {
                active
            } else {
                depth
            }
        }),
    decreases list.len(),
{
    reveal(Seq::filter);
    let out = picked(m, list, posting, can_publish, depth, active);
    let keep = first_post_in(m);
    if list.len() > 0 {
        let hash = list[0].0;
        let rest = list.drop_first();
        if is_skipped(m, hash, posting, can_publish) {
            law_sweep_is_bounded(m, rest, posting, can_publish, depth, active);
            assert forall|i: int| 0 <= i < out.len() implies list.contains(#[trigger] out[i]) by {
                let k = rest.index_of(out[i]);
                assert(list[k + 1] == out[i]);
            }
        } else if !(is_first_post(m, hash) && active >= depth) {
            let next = if is_first_post(m, hash) {
                active + 1
            } else {
                active
            };
            let tail = picked(m, rest, posting, can_publish, depth, next);
            law_sweep_is_bounded(m, rest, posting, can_publish, depth, next);
            assert(out == seq![list[0]] + tail);
            assert forall|i: int| 0 <= i < out.len() implies list.contains(#[trigger] out[i])
                && !is_skipped(m, out[i].0, posting, can_publish) by {
                if i > 0 {
                    assert(out[i] == tail[i - 1]);
                    let k = rest.index_of(out[i]);
                    assert(list[k + 1] == out[i]);
                }
            }
            Seq::filter_distributes_over_add(seq![list[0]], tail, keep);
            assert(seq![list[0]].filter(keep).len() == if is_first_post(m, hash) {
                1nat
            } else {
                0nat
            }) by {
                assert(seq![list[0]] =~= Seq::empty().push(list[0]));
                Seq::lemma_filter_push(Seq::empty(), list[0], keep);
            }
        }
    }
}

/// A transaction is due: no post of it is under way, and it is our turn if it is
/// a pending inscription.
pub open spec fn due(m: StateModel, posting: Set<TxHash>, can_publish: bool) -> spec_fn(
    (TxHash, SignedOps),
) -> bool {
    |pair: (TxHash, SignedOps)|
        !posting.contains(pair.0) && (can_publish || !m.pending.contains_key(pair.0))
}

/// A pending inscription waits for its first post.
pub open spec fn waits(m: StateModel) -> spec_fn((TxHash, SignedOps)) -> bool {
    |pair: (TxHash, SignedOps)| m.pending.contains_key(pair.0) && !m.pending[pair.0].posted
}

/// The first `n` of a list are what a sweep goes through: all that is due of them
/// is posted, with no more first posts than there is room for; and it stops
/// before the end of the list only at an inscription that is due and waits for
/// its first post where no room is left.
pub open spec fn goes_through(
    m: StateModel,
    list: Seq<(TxHash, SignedOps)>,
    posting: Set<TxHash>,
    can_publish: bool,
    depth: nat,
    active: nat,
    out: Seq<(TxHash, SignedOps)>,
    n: int,
) -> bool {
    let firsts = out.filter(waits(m)).len();
    &&& 0 <= n <= list.len()
    &&& out == list.take(n).filter(due(m, posting, can_publish))
    &&& firsts > 0 ==> active + firsts <= depth
    &&& n < list.len() ==> due(m, posting, can_publish)(list[n]) && waits(m)(list[n]) && active
        + firsts >= depth
}

proof fn lemma_picked_goes_through(
    m: StateModel,
    list: Seq<(TxHash, SignedOps)>,
    posting: Set<TxHash>,
    can_publish: bool,
    depth: nat,
    active: nat,
) -> (n: int)
    ensures
        goes_through(
            m,
            list,
            posting,
            can_publish,
            depth,
            active,
            picked(m, list, posting, can_publish, depth, active),
            n,
        ),
    decreases list.len(),
{
    reveal(Seq::filter);
    let keep = due(m, posting, can_publish);
    let first = waits(m);
    let out = picked(m, list, posting, can_publish, depth, active);
    if list.len() == 0 {
        assert(list.take(0) =~= Seq::empty());
        0
    } else {
        let hash = list[0].0;
        let rest = list.drop_first();
        let head = seq![list[0]];
        assert(head =~= Seq::empty().push(list[0]));
        Seq::lemma_filter_push(Seq::empty(), list[0], keep);
        Seq::lemma_filter_push(Seq::empty(), list[0], first);
        assert(Seq::<(TxHash, SignedOps)>::empty().filter(keep) =~= Seq::empty());
        assert(Seq::<(TxHash, SignedOps)>::empty().filter(first) =~= Seq::empty());
        if is_skipped(m, hash, posting, can_publish) {
            let k = lemma_picked_goes_through(m, rest, posting, can_publish, depth, active);
            assert(list.take(k + 1) =~= head + rest.take(k));
            Seq::filter_distributes_over_add(head, rest.take(k), keep);
            assert(head.filter(keep) + rest.take(k).filter(keep) =~= rest.take(k).filter(keep));
            if k < rest.len() {
                assert(rest[k] == list[k + 1]);
            }
            k + 1
        } else if is_first_post(m, hash) && active >= depth {
            assert(list.take(0) =~= Seq::empty());
            0
        } else {
            let next = if is_first_post(m, hash) {
                active + 1
            } else {
                active
            };
            let k = lemma_picked_goes_through(m, rest, posting, can_publish, depth, next);
            let tail = picked(m, rest, posting, can_publish, depth, next);
            assert(list.take(k + 1) =~= head + rest.take(k));
            Seq::filter_distributes_over_add(head, rest.take(k), keep);
            assert(head.filter(keep) =~= head);
            assert(out == head + tail);
            Seq::filter_distributes_over_add(head, tail, first);
            if k < rest.len() {
                assert(rest[k] == list[k + 1]);
            }
            k + 1
        }
    }
}

/// A sweep posts all that is due of what is to be posted at the tip, in its
/// order, up to the first inscription whose first post would exceed the depth;
/// nothing else holds anything back. The depth is the configured one, and at
/// least one; the inscriptions posted before and not mined yet count against it.
pub proof fn law_sweep_posts_all_that_is_due(
    m: StateModel,
    tip: HeaderId,
    posting: Set<TxHash>,
    can_publish: bool,
    max_depth: usize,
) -> (n: int)
    ensures
        goes_through(
            m,
            m.to_post(tip),
            posting,
            can_publish,
            if max_depth == 0 {
                1
            } else {
                max_depth as nat
            },
            m.pending.dom().filter(|hash: TxHash| m.pending[hash].posted).len(),
            sweep(m, tip, posting, can_publish, max_depth),
            n,
        ),
{
    assert(m.posted() =~= m.pending.dom().filter(|hash: TxHash| m.pending[hash].posted));
    lemma_picked_goes_through(
        m,
        m.to_post(tip),
        posting,
        can_publish,
        depth_of(max_depth),
        m.posted().len(),
    )
}

/// No pending transaction is forgotten: one that is not mined on the branch of
/// the tip and that no post is under way of is in the sweep, if it is opaque, or
/// if it is an inscription on the chain off the channel tip and it is our turn;
/// unless some inscription waits for its first post with the depth used up.
pub proof fn law_sweep_forgets_nothing(
    m: StateModel,
    tip: HeaderId,
    posting: Set<TxHash>,
    can_publish: bool,
    max_depth: usize,
    hash: TxHash,
)
    requires
        m.wf(),
        !m.safe_at(tip).contains(hash),
        !posting.contains(hash),
        m.other.contains_key(hash) && !m.pending.contains_key(hash) || m.pending.contains_key(hash)
            && can_publish && exists|i: int|
            0 <= i < m.suffix(m.channel_tip(tip)).len() && (#[trigger] m.suffix(
                m.channel_tip(tip),
            )[i]).tx_hash == hash,
    ensures
        ({
            let out = sweep(m, tip, posting, can_publish, max_depth);
            let signed = if m.pending.contains_key(hash) {
                m.pending[hash].signed_tx
            } else {
                m.other[hash].signed_tx
            };
            ||| out.contains((hash, signed))
            ||| can_publish && m.pending.dom().filter(|h: TxHash| m.pending[h].posted).len()
                + out.filter(waits(m)).len() >= max_depth && exists|waiting: TxHash|
                #![trigger m.pending.contains_key(waiting)]
                m.pending.contains_key(waiting) && !m.pending[waiting].posted && !posting.contains(
                    waiting,
                ) && !m.safe_at(tip).contains(waiting)
        }),
{
    let list = m.to_post(tip);
    let safe = m.safe_at(tip);
    let signed = if m.pending.contains_key(hash) {
        m.pending[hash].signed_tx
    } else {
        m.other[hash].signed_tx
    };
    let pair = (hash, signed);
    let keep = due(m, posting, can_publish);
    let n = law_sweep_posts_all_that_is_due(m, tip, posting, can_publish, max_depth);
    lemma_to_post_lists(m, tip, hash);
    let i = list.index_of(pair);
    if i < n {
        assert(list.take(n)[i] == pair);
        lemma_filter_member(list.take(n), keep, pair);
    } else {
        let waiting = list[n].0;
        assert(keep(list[n]) && waits(m)(list[n]));
        lemma_to_post_is_not_mined(m, tip, n);
        assert(m.pending.contains_key(waiting));
    }
}

/// What is to be posted at a tip lists every opaque transaction that is not
/// mined there, and every such inscription on the chain off the channel tip.
proof fn lemma_to_post_lists(m: StateModel, tip: HeaderId, hash: TxHash)
    requires
        m.wf(),
        !m.safe_at(tip).contains(hash),
        m.other.contains_key(hash) && !m.pending.contains_key(hash) || m.pending.contains_key(hash)
            && exists|i: int|
            0 <= i < m.suffix(m.channel_tip(tip)).len() && (#[trigger] m.suffix(
                m.channel_tip(tip),
            )[i]).tx_hash == hash,
    ensures
        m.to_post(tip).contains(
            (
                hash,
                if m.pending.contains_key(hash) {
                    m.pending[hash].signed_tx
                } else {
                    m.other[hash].signed_tx
                },
            ),
        ),
{
    let safe = m.safe_at(tip);
    let chain = m.suffix(m.channel_tip(tip));
    let kept = chain.filter(not_safe(safe));
    let first = kept.filter_map(m.pending_pair());
    let others = m.other_order.filter(hash_not_in(safe));
    let rest = others.map_values(m.other_pair());
    if m.pending.contains_key(hash) {
        let i = choose|i: int| 0 <= i < chain.len() && (#[trigger] chain[i]).tx_hash == hash;
        assert(chain.contains(chain[i]));
        lemma_filter_member(chain, not_safe(safe), chain[i]);
        let k = kept.index_of(chain[i]);
        assert(kept[k] == chain[i]);
        lemma_filter_map_member(kept, m.pending_pair(), k);
        let j = first.index_of((hash, m.pending[hash].signed_tx));
        assert((first + rest)[j] == first[j]);
    } else {
        assert(m.other_order.to_set().contains(hash));
        lemma_filter_member(m.other_order, hash_not_in(safe), hash);
        let k = others.index_of(hash);
        assert(rest[k] == (hash, m.other[hash].signed_tx));
        assert((first + rest)[first.len() + k] == rest[k]);
    }
}

proof fn lemma_filter_map_member<A, B>(s: Seq<A>, f: spec_fn(A) -> Option<B>, k: int)
    requires
        0 <= k < s.len(),
        f(s[k]) is Some,
    ensures
        s.filter_map(f).contains(f(s[k])->0),
    decreases s.len(),
{
    reveal(Seq::filter_map);
    let front = s.drop_last();
    let got = front.filter_map(f);
    if k < front.len() {
        lemma_filter_map_member(front, f, k);
        let j = got.index_of(f(s[k])->0);
        assert(s.filter_map(f)[j] == got[j]);
    } else {
        assert(s.filter_map(f) == got + seq![f(s[k])->0]);
        assert(s.filter_map(f)[got.len() as int] == f(s[k])->0);
    }
}

/// Nothing that is mined on the branch is to be posted.
proof fn lemma_to_post_is_not_mined(m: StateModel, tip: HeaderId, i: int)
    requires
        0 <= i < m.to_post(tip).len(),
    ensures
        !m.safe_at(tip).contains(m.to_post(tip)[i].0),
{
    let safe = m.safe_at(tip);
    let kept = m.suffix(m.channel_tip(tip)).filter(not_safe(safe));
    let first = kept.filter_map(m.pending_pair());
    let others = m.other_order.filter(hash_not_in(safe));
    if i < first.len() {
        lemma_filter_map_from(kept, m.pending_pair(), i);
        let k = choose|k: int|
            0 <= k < kept.len() && m.pending_pair()(#[trigger] kept[k]) == Some(first[i]);
        assert(kept.contains(kept[k]));
        lemma_filter_member(m.suffix(m.channel_tip(tip)), not_safe(safe), kept[k]);
    } else {
        let k = i - first.len();
        assert(others.contains(others[k]));
        lemma_filter_member(m.other_order, hash_not_in(safe), others[k]);
    }
}

/// The outcome of posting a batch in order, stopped at the first failure: the
/// first `posted` went through, the rest are as good as not tried.
pub fn batch_results(batch: &Vec<(TxHash, SignedOps)>, posted: usize) -> (res: Vec<(TxHash, bool)>)
    ensures
        res@ == Seq::new(batch@.len(), |i: int| (batch@[i].0, i < posted)),
{
    let mut res: Vec<(TxHash, bool)> = Vec::new();
    let mut i: usize = 0;
    while i < batch.len()
        invariant
            i <= batch@.len(),
            res@.len() == i,
            forall|j: int| 0 <= j < i ==> #[trigger] res@[j] == (batch@[j].0, j < posted),
        decreases batch@.len() - i,
    {
        res.push((batch[i].0, i < posted));
        i = i + 1;
    }
    assert(res@ =~= Seq::new(batch@.len(), |i: int| (batch@[i].0, i < posted)));
    res
}

} // verus!
