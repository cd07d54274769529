//! What holds of giving up on pending transactions: the order of the reports,
//! and what is left.

use vstd::prelude::*;

use crate::collections::sorted_seq;
use crate::ids::{ChannelId, HeaderId, MsgId, NoteId, TxHash};
use crate::mantle::SignedOps;
use crate::sequencer::channel_tx::{as_inscription, transfers_of};
use crate::sequencer::consistency_laws::{
    consistent, held_once, lemma_in_order, lemma_in_order_of, lemma_loop_free_in, lemma_same_pending,
    lemma_same_stored, loop_free, loop_free_in, ranked_in,
};
use crate::sequencer::state_laws::{
    law_every_shed_inscription_is_reported, law_only_the_eligible_are_shed, lemma_eligible_is_listed,
    lemma_filter_map_from, lemma_reported_where_listed, lemma_same_blocks,
    lemma_without_all_keeps_blocks, lemma_without_all_wf, linked, orderly, orderly_in,
};
use crate::sequencer::state_model::{
    hash_of, hashes, inputs_of, not_safe, outputs_of, report_hash, StateModel,
};
use crate::sequencer::types::{InscriptionInfo, PendingTx};

verus! {

// The order of what is shed.

/// `later` comes after `earlier` on the pending chain, whatever opaque
/// transactions stand between them.
pub open spec fn reached_from(m: StateModel, earlier: TxHash, later: TxHash) -> bool {
    m.suffix(m.pending[earlier].this_msg).contains(m.pending[later].entry())
}

/// Where a list of entries has a transaction at position `i`, and another
/// behind it and nowhere before, the reports have them in that order.
proof fn lemma_reports_in_order(
    m: StateModel,
    infos: Seq<InscriptionInfo>,
    eligible: Set<TxHash>,
    earlier: TxHash,
    later: TxHash,
) -> (res: (int, int))
    requires
        m.wf(),
        earlier != later,
        m.pending_in(eligible).contains(earlier),
        m.pending_in(eligible).contains(later),
        hashes(infos).contains(earlier),
        forall|i: int|
            0 <= i < infos.len() && (#[trigger] infos[i]).tx_hash == earlier ==> exists|j: int|
                i < j < infos.len() && (#[trigger] infos[j]).tx_hash == later,
    ensures
        0 <= res.0 < res.1 < m.reports(infos, eligible).len(),
        m.reports(infos, eligible)[res.0] == m.pending[earlier].report(),
        m.reports(infos, eligible)[res.1] == m.pending[later].report(),
    decreases infos.len(),
{
    let rest = infos.drop_first();
    let all = m.reports(infos, eligible);
    let told = m.reports(rest, eligible);
    let shift = all.len() - told.len();
    if hashes(rest).contains(earlier) {
        assert forall|i: int| 0 <= i < rest.len() && (#[trigger] rest[i]).tx_hash
            == earlier implies exists|j: int|
            i < j < rest.len() && (#[trigger] rest[j]).tx_hash == later by {
            assert(infos[i + 1].tx_hash == earlier);
            let j = choose|j: int|
                i + 1 < j < infos.len() && (#[trigger] infos[j]).tx_hash == later;
            assert(rest[j - 1].tx_hash == later);
        }
        let (a, b) = lemma_reports_in_order(m, rest, eligible, earlier, later);
        assert(all[a + shift] == told[a]);
        assert(all[b + shift] == told[b]);
        (a + shift, b + shift)
    } else {
        let ids = infos.map_values(hash_of());
        let i = ids.index_of(earlier);
        assert(ids.contains(earlier));
        assert(ids[i] == earlier);
        if i > 0 {
            let rest_ids = rest.map_values(hash_of());
            assert(rest_ids[i - 1] == earlier);
            assert(rest_ids.to_set().contains(earlier));
        }
        assert(infos[0].tx_hash == earlier);
        let j = choose|j: int| 0 < j < infos.len() && (#[trigger] infos[j]).tx_hash == later;
        let rest_ids = rest.map_values(hash_of());
        assert(rest_ids[j - 1] == later);
        assert(rest_ids.to_set().contains(later));
        lemma_reported_where_listed(m, rest, eligible, later);
        let b = told.index_of(m.pending[later].report());
        assert(all == seq![m.pending[earlier].report()] + told);
        assert(all[b + 1] == told[b]);
        (0, b + 1)
    }
}

/// Messages of a lower rank do not end a chain.
pub proof fn lemma_low_ranks_do_not_matter(
    m: StateModel,
    rank: spec_fn(MsgId) -> nat,
    eligible: Set<TxHash>,
    msg: MsgId,
    a: Set<MsgId>,
    b: Set<MsgId>,
)
    requires
        m.wf(),
        orderly_in(m, eligible, rank),
        forall|v: MsgId| rank(v) >= rank(msg) ==> (#[trigger] a.contains(v) <==> b.contains(v)),
    ensures
        m.suffix_from(msg, a) == m.suffix_from(msg, b),
    decreases m.by_parent.dom().difference(a).len(),
{
    assert(a.contains(msg) <==> b.contains(msg));
    if !a.contains(msg) && m.by_parent.contains_key(msg) {
        let hash = m.by_parent[msg];
        assert(m.by_parent.dom().difference(a.insert(msg)) =~= m.by_parent.dom().difference(
            a,
        ).remove(msg));
        assert(m.by_parent.dom().difference(a).contains(msg));
        if let Some(tip) = m.tip_of(hash) {
            assert forall|v: MsgId| rank(v) >= rank(tip) implies (#[trigger] a.insert(msg).contains(
                v,
            ) <==> b.insert(msg).contains(v)) by {
                assert(a.contains(v) <==> b.contains(v));
            }
            lemma_low_ranks_do_not_matter(m, rank, eligible, tip, a.insert(msg), b.insert(msg));
        }
    }
}

/// Wherever a chain lists a pending inscription, what is reached from it stands
/// behind.
proof fn lemma_suffix_lists_behind(
    m: StateModel,
    rank: spec_fn(MsgId) -> nat,
    eligible: Set<TxHash>,
    msg: MsgId,
    visited: Set<MsgId>,
    earlier: TxHash,
    later: TxHash,
    i: int,
) -> (j: int)
    requires
        m.wf(),
        orderly_in(m, eligible, rank),
        linked(m),
        held_once(m),
        opaque_entries_carry_their_hash(m),
        m.pending_in(eligible).contains(earlier),
        m.pending.contains_key(later),
        reached_from(m, earlier, later),
        forall|v: MsgId| #[trigger] visited.contains(v) ==> rank(v) <= rank(msg),
        0 <= i < m.suffix_from(msg, visited).len(),
        m.suffix_from(msg, visited)[i].tx_hash == earlier,
    ensures
        i < j < m.suffix_from(msg, visited).len(),
        m.suffix_from(msg, visited)[j].tx_hash == later,
    decreases m.by_parent.dom().difference(visited).len(),
{
    let list = m.suffix_from(msg, visited);
    assert(m.by_parent.contains_key(msg) && !visited.contains(msg));
    let hash = m.by_parent[msg];
    assert(m.by_parent.dom().difference(visited.insert(msg)) =~= m.by_parent.dom().difference(
        visited,
    ).remove(msg));
    assert(m.by_parent.dom().difference(visited).contains(msg));
    let tip = m.tip_of(hash)->0;
    let rest = m.suffix_from(tip, visited.insert(msg));
    if m.pending.contains_key(hash) {
        let first = m.pending[hash].entry();
        assert(list == seq![first] + rest);
        if i == 0 {
            assert(hash == earlier);
            lemma_low_ranks_do_not_matter(
                m,
                rank,
                eligible,
                tip,
                visited.insert(msg),
                Set::empty(),
            );
            let entry = m.pending[later].entry();
            let k = rest.index_of(entry);
            assert(rest.contains(entry));
            assert(list[k + 1] == rest[k]);
            k + 1
        } else {
            assert(list[i] == rest[i - 1]);
            let k = lemma_suffix_lists_behind(
                m,
                rank,
                eligible,
                tip,
                visited.insert(msg),
                earlier,
                later,
                i - 1,
            );
            assert(list[k + 1] == rest[k]);
            k + 1
        }
    } else {
        let infos = m.other[hash].infos;
        assert(m.other.contains_key(hash));
        assert(list == infos + rest);
        if i < infos.len() {
            assert(infos[i].tx_hash == hash);
            assert(m.other.contains_key(earlier));
        }
        let k = lemma_suffix_lists_behind(
            m,
            rank,
            eligible,
            tip,
            visited.insert(msg),
            earlier,
            later,
            i - infos.len(),
        );
        assert(list[k + infos.len()] == rest[k]);
        k + infos.len() as int
    }
}

/// The entries of an opaque transaction carry its hash.
pub open spec fn opaque_entries_carry_their_hash(m: StateModel) -> bool {
    forall|hash: TxHash, i: int|
        m.other.contains_key(hash) && 0 <= i < m.other[hash].infos.len() ==> (
        #[trigger] m.other[hash].infos[i]).tx_hash == hash
}

/// Holding and giving up opaque transactions keeps their entries under their
/// hash.
pub proof fn law_opaque_entries_stay_under_their_hash(
    m: StateModel,
    tx: SignedOps,
    channel_id: ChannelId,
    gone: TxHash,
)
    requires
        opaque_entries_carry_their_hash(m),
    ensures
        opaque_entries_carry_their_hash(m.put_other(tx, channel_id)),
        opaque_entries_carry_their_hash(m.without(gone)),
{
    let f = as_inscription(tx.hash, channel_id);
    let n = m.put_other(tx, channel_id);
    assert forall|hash: TxHash, i: int|
        n.other.contains_key(hash) && 0 <= i < n.other[hash].infos.len() implies (
    #[trigger] n.other[hash].infos[i]).tx_hash == hash by {
        if hash == tx.hash {
            lemma_filter_map_from(tx.ops@, f, i);
        } else {
            assert(m.other[hash].infos[i].tx_hash == hash);
        }
    }
    let less = m.without(gone);
    assert forall|hash: TxHash, i: int|
        less.other.contains_key(hash) && 0 <= i < less.other[hash].infos.len() implies (
    #[trigger] less.other[hash].infos[i]).tx_hash == hash by {
        assert(m.other[hash].infos[i].tx_hash == hash);
    }
}

proof fn lemma_behind_in_chains(
    m: StateModel,
    rank: spec_fn(MsgId) -> nat,
    eligible: Set<TxHash>,
    starts: Seq<MsgId>,
    earlier: TxHash,
    later: TxHash,
    i: int,
) -> (j: int)
    requires
        m.wf(),
        orderly_in(m, eligible, rank),
        linked(m),
        held_once(m),
        opaque_entries_carry_their_hash(m),
        m.pending_in(eligible).contains(earlier),
        m.pending.contains_key(later),
        reached_from(m, earlier, later),
        0 <= i < starts.flat_map(m.suffixes()).len(),
        starts.flat_map(m.suffixes())[i].tx_hash == earlier,
    ensures
        i < j < starts.flat_map(m.suffixes()).len(),
        starts.flat_map(m.suffixes())[j].tx_hash == later,
    decreases starts.len(),
{
    let f = m.suffixes();
    let list = starts.flat_map(f);
    if starts.len() == 0 {
        assert(list =~= Seq::empty());
        0
    } else {
        let first = m.suffix(starts[0]);
        let rest = starts.drop_first().flat_map(f);
        assert(starts.map_values(f).drop_first() =~= starts.drop_first().map_values(f));
        assert(starts.map_values(f)[0] == first);
        assert(list =~= first + rest);
        if i < first.len() {
            let k = lemma_suffix_lists_behind(
                m,
                rank,
                eligible,
                starts[0],
                Set::empty(),
                earlier,
                later,
                i,
            );
            assert(list[k] == first[k]);
            k
        } else {
            assert(list[i] == rest[i - first.len()]);
            let k = lemma_behind_in_chains(
                m,
                rank,
                eligible,
                starts.drop_first(),
                earlier,
                later,
                i - first.len(),
            );
            assert(list[k + first.len()] == rest[k]);
            k + first.len() as int
        }
    }
}

/// What is shed is reported parent first: an inscription that is reached from
/// another along the pending chain, opaque transactions between them or not,
/// comes after it, so that whoever publishes them again in that order rebuilds
/// the chain.
pub proof fn law_shed_comes_parent_first(
    m: StateModel,
    eligible: Set<TxHash>,
    earlier: TxHash,
    later: TxHash,
) -> (res: (int, int))
    requires
        consistent(m),
        loop_free_in(m, eligible),
        m.pending_in(eligible).contains(earlier),
        m.pending_in(eligible).contains(later),
        earlier != later,
        reached_from(m, earlier, later),
    ensures
        0 <= res.0 < res.1 < m.drained(eligible).len(),
        m.drained(eligible)[res.0] == m.pending[earlier].report(),
        m.drained(eligible)[res.1] == m.pending[later].report(),
{
    let rank = lemma_in_order_of(m, eligible);
    let starts = sorted_seq(m.roots(eligible));
    let infos = starts.flat_map(m.suffixes());
    lemma_eligible_is_listed(m, rank, eligible, earlier);
    assert forall|i: int| 0 <= i < infos.len() && (#[trigger] infos[i]).tx_hash
        == earlier implies exists|j: int|
        i < j < infos.len() && (#[trigger] infos[j]).tx_hash == later by {
        let j = lemma_behind_in_chains(m, rank, eligible, starts, earlier, later, i);
        assert(infos[j].tx_hash == later);
    }
    lemma_reports_in_order(m, infos, eligible, earlier, later)
}

proof fn lemma_reports_are_listed(
    m: StateModel,
    infos: Seq<InscriptionInfo>,
    eligible: Set<TxHash>,
    i: int,
)
    requires
        m.wf(),
        0 <= i < m.reports(infos, eligible).len(),
    ensures
        hashes(infos).contains(m.reports(infos, eligible)[i].spec_tx_hash()),
    decreases infos.len(),
{
    let rest = infos.drop_first();
    let later = m.reports(rest, eligible);
    let all = m.reports(infos, eligible);
    let ids = infos.map_values(hash_of());
    let shift = all.len() - later.len();
    if i >= shift {
        lemma_reports_are_listed(m, rest, eligible, i - shift);
        assert(all[i] == later[i - shift]);
        let rest_ids = rest.map_values(hash_of());
        let k = rest_ids.index_of(all[i].spec_tx_hash());
        assert(rest_ids.contains(all[i].spec_tx_hash()));
        assert(ids[k + 1] == all[i].spec_tx_hash());
        assert(ids.to_set().contains(all[i].spec_tx_hash()));
    } else {
        assert(ids[0] == infos[0].tx_hash);
        assert(ids.to_set().contains(infos[0].tx_hash));
    }
}

/// A shed pass reports nothing twice.
pub proof fn law_nothing_is_shed_twice(m: StateModel, eligible: Set<TxHash>)
    requires
        m.wf(),
    ensures
        m.drained(eligible).map_values(report_hash()).no_duplicates(),
{
    lemma_reports_differ(
        m,
        sorted_seq(m.roots(eligible)).flat_map(m.suffixes()),
        eligible,
    );
}

proof fn lemma_reports_differ(m: StateModel, infos: Seq<InscriptionInfo>, eligible: Set<TxHash>)
    requires
        m.wf(),
    ensures
        m.reports(infos, eligible).map_values(report_hash()).no_duplicates(),
    decreases infos.len(),
{
    if infos.len() > 0 {
        let rest = infos.drop_first();
        let later = m.reports(rest, eligible);
        let all = m.reports(infos, eligible);
        lemma_reports_differ(m, rest, eligible);
        let ids = all.map_values(report_hash());
        let later_ids = later.map_values(report_hash());
        let shift = all.len() - later.len();
        assert forall|i: int, j: int|
            0 <= i < j < ids.len() implies ids[i] != ids[j] by {
            if i >= shift {
                assert(ids[i] == later_ids[i - shift]);
                assert(ids[j] == later_ids[j - shift]);
            } else {
                lemma_reports_are_listed(m, rest, eligible, j - 1);
                assert(all[j] == later[j - 1]);
            }
        }
    }
}

// Shedding again.

/// Taking out a pending inscription that a chain does not list leaves the
/// chain.
proof fn lemma_chain_stays(m: StateModel, msg: MsgId, visited: Set<MsgId>, hash: TxHash)
    requires
        m.wf(),
        m.pending.contains_key(hash),
        !hashes(m.suffix_from(msg, visited)).contains(hash),
    ensures
        m.without(hash).suffix_from(msg, visited) == m.suffix_from(msg, visited),
    decreases m.by_parent.dom().difference(visited).len(),
{
    let n = m.without(hash);
    let list = m.suffix_from(msg, visited);
    let ids = list.map_values(hash_of());
    if !visited.contains(msg) && m.by_parent.contains_key(msg) {
        let next = m.by_parent[msg];
        assert(m.by_parent.dom().difference(visited.insert(msg)) =~= m.by_parent.dom().difference(
            visited,
        ).remove(msg));
        assert(m.by_parent.dom().difference(visited).contains(msg));
        if next == hash {
            assert(ids[0] == hash);
            assert(ids.to_set().contains(hash));
        }
        if m.is_tracked(next) {
            if let Some(tip) = m.tip_of(next) {
                let rest = m.suffix_from(tip, visited.insert(msg));
                let before = list.len() - rest.len();
                if hashes(rest).contains(hash) {
                    let rest_ids = rest.map_values(hash_of());
                    let k = rest_ids.index_of(hash);
                    assert(rest_ids.contains(hash));
                    assert(rest_ids[k] == hash);
                    assert(list[k + before] == rest[k]);
                    assert(ids[k + before] == hash);
                    assert(ids.to_set().contains(hash));
                }
                lemma_chain_stays(m, tip, visited.insert(msg), hash);
            }
        }
    }
}

proof fn lemma_chain_stays_all(m: StateModel, msg: MsgId, list: Seq<TxHash>)
    requires
        m.wf(),
        list.no_duplicates(),
        forall|i: int|
            0 <= i < list.len() ==> m.pending.contains_key(#[trigger] list[i]) && !hashes(
                m.suffix(msg),
            ).contains(list[i]),
    ensures
        m.without_all(list).suffix(msg) == m.suffix(msg),
        m.without_all(list).wf(),
        forall|h: TxHash| #[trigger]
            m.without_all(list).pending.contains_key(h) <==> m.pending.contains_key(h)
                && !list.contains(h),
    decreases list.len(),
{
    lemma_without_all_wf(m, list);
    if list.len() > 0 {
        let front = list.drop_last();
        let last = list.last();
        assert forall|i: int, j: int|
            0 <= i < front.len() && 0 <= j < front.len() && i != j implies front[i] != front[j] by {
            assert(front[i] == list[i] && front[j] == list[j]);
        }
        assert forall|i: int| 0 <= i < front.len() implies m.pending.contains_key(
            #[trigger] front[i],
        ) && !hashes(m.suffix(msg)).contains(front[i]) by {
            assert(front[i] == list[i]);
        }
        lemma_chain_stays_all(m, msg, front);
        assert(list[list.len() - 1] == last);
        if front.contains(last) {
            let k = front.index_of(last);
            assert(list[k] == last);
        }
        lemma_chain_stays(m.without_all(front), msg, Set::empty(), last);
        assert forall|h: TxHash| #[trigger] m.without_all(list).pending.contains_key(h)
            <==> m.pending.contains_key(h) && !list.contains(h) by {
            if list.contains(h) && h != last {
                assert(front[list.index_of(h)] == h);
            }
            if front.contains(h) {
                assert(list[front.index_of(h)] == h);
            }
        }
    } else {
        assert(m.without_all(list) == m);
    }
}

/// Shedding twice at one tip sheds nothing the second time.
pub proof fn law_shedding_again_gives_nothing(m: StateModel, tip: HeaderId)
    requires
        consistent(m),
        loop_free_in(m, m.off_branch(tip)),
    ensures
        ({
            let rest = StateModel { displaced: Seq::empty(), ..m };
            let after = rest.drain(rest.off_branch(tip));
            after.displaced + after.drained(after.off_branch(tip)) == Seq::<PendingTx>::empty()
        }),
{
    let rest = StateModel { displaced: Seq::empty(), ..m };
    let eligible = rest.off_branch(tip);
    let list = rest.drained(eligible).map_values(report_hash());
    let after = rest.drain(eligible);
    let channel_tip = rest.channel_tip(tip);
    lemma_without_displaced(m, tip);
    law_nothing_is_shed_twice(rest, eligible);
    assert forall|i: int| 0 <= i < list.len() implies rest.pending.contains_key(#[trigger] list[i])
        && !hashes(rest.suffix(channel_tip)).contains(list[i]) by {
        law_only_the_eligible_are_shed(rest, eligible, i);
    }
    lemma_chain_stays_all(rest, channel_tip, list);
    lemma_without_all_keeps_blocks(rest, list);
    lemma_same_blocks(rest, after, tip);
    assert(after.displaced == rest.displaced) by {
        lemma_without_all_keeps_displaced(rest, list);
    }
    let again = after.off_branch(tip);
    assert forall|hash: TxHash| !again.contains(hash) by {
        if again.contains(hash) {
            assert(after.pending.contains_key(hash));
            assert(rest.pending.contains_key(hash) && !list.contains(hash));
            assert(eligible.contains(hash));
            law_every_shed_inscription_is_reported(rest, eligible, hash);
            let k = rest.drained(eligible).index_of(rest.pending[hash].report());
            assert(list[k] == hash);
        }
    }
    if after.drained(again).len() > 0 {
        law_only_the_eligible_are_shed(after, again, 0);
    }
    assert(after.displaced + after.drained(again) =~= Seq::empty());
}

proof fn lemma_without_all_keeps_displaced(m: StateModel, list: Seq<TxHash>)
    ensures
        m.without_all(list).displaced == m.displaced,
    decreases list.len(),
{
    if list.len() > 0 {
        lemma_without_all_keeps_displaced(m, list.drop_last());
    }
}

/// What was displaced does not matter to what is pending.
proof fn lemma_without_displaced(m: StateModel, tip: HeaderId)
    requires
        consistent(m),
        loop_free_in(m, m.off_branch(tip)),
    ensures
        ({
            let rest = StateModel { displaced: Seq::empty(), ..m };
            &&& consistent(rest)
            &&& rest.off_branch(tip) == m.off_branch(tip)
            &&& loop_free_in(rest, rest.off_branch(tip))
        }),
{
    let rest = StateModel { displaced: Seq::empty(), ..m };
    let eligible = m.off_branch(tip);
    lemma_same_stored(m, rest);
    lemma_same_pending(m, rest);
    lemma_same_blocks(m, rest, tip);
    lemma_same_suffix(m, rest, m.channel_tip(tip), Set::empty());
    assert(rest.off_branch(tip) =~= eligible);
    let rank = choose|rank: spec_fn(MsgId) -> nat| ranked_in(m, eligible, rank);
    assert(ranked_in(rest, eligible, rank)) by {
        assert forall|parent: MsgId| #[trigger] rest.by_parent.contains_key(parent) implies (
        rest.tip_of(rest.by_parent[parent]) matches Some(tip) ==> {
            &&& rank(tip) >= rank(parent)
            &&& rest.pending_in(eligible).contains(rest.by_parent[parent]) ==> rank(tip) > rank(
                parent,
            )
        }) by {
            assert(m.by_parent.contains_key(parent));
        }
    }
}

/// What shedding at a tip gives: what a mined sibling displaced, then exactly
/// the pending inscriptions and bundles that neither are mined on the branch nor
/// chain off its channel tip, each once, parents first and typed. None of them
/// is held afterwards, everything else still is, and shedding again gives
/// nothing.
pub proof fn law_off_branch_shed(m: StateModel, tip: HeaderId)
    requires
        consistent(m),
        loop_free_in(m, m.off_branch(tip)),
    ensures
        ({
            let rest = StateModel { displaced: Seq::empty(), ..m };
            let eligible = m.off_branch(tip);
            let shed = rest.drained(eligible);
            let after = rest.drain(eligible);
            &&& rest.off_branch(tip) == eligible
            &&& shed.map_values(report_hash()).no_duplicates()
            &&& forall|report: PendingTx| #[trigger]
                shed.contains(report) <==> eligible.contains(report.spec_tx_hash()) && report
                    == m.pending[report.spec_tx_hash()].report()
            &&& forall|earlier: TxHash, later: TxHash|
                eligible.contains(earlier) && eligible.contains(later) && earlier != later
                    && #[trigger] reached_from(m, earlier, later) ==> shed.index_of(
                    m.pending[earlier].report(),
                ) < shed.index_of(m.pending[later].report())
            &&& after.pending == m.pending.remove_keys(eligible)
            &&& after.other == m.other
            &&& after.other_order == m.other_order
            &&& after.displaced + after.drained(after.off_branch(tip)) == Seq::<PendingTx>::empty()
        }),
{
    let rest = StateModel { displaced: Seq::empty(), ..m };
    let eligible = m.off_branch(tip);
    let shed = rest.drained(eligible);
    lemma_without_displaced(m, tip);
    law_nothing_is_shed_twice(rest, eligible);
    lemma_distinct_by_hash(shed);
    law_shed_leaves_the_rest(rest, eligible);
    law_shedding_again_gives_nothing(m, tip);
    assert forall|report: PendingTx| #[trigger] shed.contains(report) <==> eligible.contains(
        report.spec_tx_hash(),
    ) && report == m.pending[report.spec_tx_hash()].report() by {
        let hash = report.spec_tx_hash();
        lemma_reported_from(
            rest,
            sorted_seq(rest.roots(eligible)).flat_map(rest.suffixes()),
            eligible,
            report,
        );
        if eligible.contains(hash) {
            law_every_shed_inscription_is_reported(rest, eligible, hash);
        }
    }
    assert forall|earlier: TxHash, later: TxHash|
        eligible.contains(earlier) && eligible.contains(later) && earlier != later
            && #[trigger] reached_from(m, earlier, later) implies shed.index_of(
        m.pending[earlier].report(),
    ) < shed.index_of(m.pending[later].report()) by {
        lemma_same_suffix(m, rest, m.pending[earlier].this_msg, Set::empty());
        assert(rest.pending_in(eligible).contains(earlier));
        assert(rest.pending_in(eligible).contains(later));
        let (i, j) = law_shed_comes_parent_first(rest, eligible, earlier, later);
        assert(shed[i] == m.pending[earlier].report());
        assert(shed[j] == m.pending[later].report());
        assert(shed.contains(shed[i]) && shed.contains(shed[j]));
        assert(shed[shed.index_of(shed[i])] == shed[i]);
        assert(shed[shed.index_of(shed[j])] == shed[j]);
    }
}

proof fn lemma_same_suffix(m: StateModel, n: StateModel, msg: MsgId, visited: Set<MsgId>)
    requires
        m.wf(),
        n.pending == m.pending,
        n.other == m.other,
        n.by_parent == m.by_parent,
    ensures
        n.suffix_from(msg, visited) == m.suffix_from(msg, visited),
    decreases m.by_parent.dom().difference(visited).len(),
{
    if !visited.contains(msg) && m.by_parent.contains_key(msg) {
        assert(m.by_parent.dom().difference(visited.insert(msg)) =~= m.by_parent.dom().difference(
            visited,
        ).remove(msg));
        assert(m.by_parent.dom().difference(visited).contains(msg));
        let hash = m.by_parent[msg];
        if let Some(tip) = m.tip_of(hash) {
            lemma_same_suffix(m, n, tip, visited.insert(msg));
        }
    }
}

// What is left.

proof fn lemma_without_all_pending(m: StateModel, list: Seq<TxHash>)
    requires
        list.no_duplicates(),
        forall|i: int| 0 <= i < list.len() ==> m.pending.contains_key(#[trigger] list[i]),
    ensures
        m.without_all(list).pending == m.pending.remove_keys(list.to_set()),
        m.without_all(list).other == m.other,
        m.without_all(list).other_order == m.other_order,
    decreases list.len(),
{
    if list.len() == 0 {
        assert(list.to_set() =~= Set::empty());
        assert(m.pending.remove_keys(list.to_set()) =~= m.pending);
    } else {
        let front = list.drop_last();
        let last = list.last();
        assert forall|i: int, j: int|
            0 <= i < front.len() && 0 <= j < front.len() && i != j implies front[i] != front[j] by {
            assert(front[i] == list[i] && front[j] == list[j]);
        }
        assert forall|i: int| 0 <= i < front.len() implies m.pending.contains_key(
            #[trigger] front[i],
        ) by {
            assert(front[i] == list[i]);
        }
        lemma_without_all_pending(m, front);
        assert(list[list.len() - 1] == last);
        if front.contains(last) {
            let k = front.index_of(last);
            assert(list[k] == last);
        }
        front.lemma_push_to_set_commute(last);
        assert(front.push(last) =~= list);
        assert(m.without_all(list).pending =~= m.pending.remove_keys(list.to_set()));
    }
}

/// A shed pass takes out exactly what it was to give up; everything else that
/// is pending stays as it is.
pub proof fn law_shed_leaves_the_rest(m: StateModel, eligible: Set<TxHash>)
    requires
        consistent(m),
        loop_free_in(m, eligible),
    ensures
        m.drain(eligible).pending == m.pending.remove_keys(eligible),
        m.drain(eligible).other == m.other,
        m.drain(eligible).other_order == m.other_order,
{
    let list = m.drained(eligible).map_values(report_hash());
    law_nothing_is_shed_twice(m, eligible);
    assert forall|i: int| 0 <= i < list.len() implies m.pending.contains_key(#[trigger] list[i])
        && eligible.contains(list[i]) by {
        law_only_the_eligible_are_shed(m, eligible, i);
    }
    lemma_without_all_pending(m, list);
    assert forall|hash: TxHash| m.pending.contains_key(hash) implies (list.to_set().contains(hash)
        <==> eligible.contains(hash)) by {
        if eligible.contains(hash) {
            law_every_shed_inscription_is_reported(m, eligible, hash);
            let k = m.drained(eligible).index_of(m.pending[hash].report());
            assert(list[k] == hash);
            assert(list.contains(hash));
        }
        if list.contains(hash) {
            let k = list.index_of(hash);
            assert(list[k] == hash);
        }
    }
    assert(m.drain(eligible).pending =~= m.pending.remove_keys(eligible));
}

// Bundles whose inputs are gone.

/// Behind a pending inscription, a chain is the chain off what it wrote.
proof fn lemma_chain_behind(
    m: StateModel,
    rank: spec_fn(MsgId) -> nat,
    msg: MsgId,
    visited: Set<MsgId>,
    i: int,
)
    requires
        m.wf(),
        orderly(m, rank),
        held_once(m),
        opaque_entries_carry_their_hash(m),
        forall|v: MsgId| #[trigger] visited.contains(v) ==> rank(v) < rank(msg),
        0 <= i < m.suffix_from(msg, visited).len(),
        m.pending.contains_key(m.suffix_from(msg, visited)[i].tx_hash),
    ensures
        ({
            let list = m.suffix_from(msg, visited);
            let pending = m.pending[list[i].tx_hash];
            &&& list[i] == pending.entry()
            &&& list.skip(i + 1) == m.suffix(pending.this_msg)
        }),
    decreases m.by_parent.dom().difference(visited).len(),
{
    let list = m.suffix_from(msg, visited);
    assert(m.by_parent.contains_key(msg) && !visited.contains(msg));
    let hash = m.by_parent[msg];
    assert(m.by_parent.dom().difference(visited.insert(msg)) =~= m.by_parent.dom().difference(
        visited,
    ).remove(msg));
    assert(m.by_parent.dom().difference(visited).contains(msg));
    let tip = m.tip_of(hash)->0;
    let rest = m.suffix_from(tip, visited.insert(msg));
    if m.pending.contains_key(hash) {
        assert(list == seq![m.pending[hash].entry()] + rest);
        if i == 0 {
            assert(orderly_in(m, Set::empty(), rank));
            lemma_low_ranks_do_not_matter(
                m,
                rank,
                Set::empty(),
                tip,
                visited.insert(msg),
                Set::empty(),
            );
            assert(list.skip(1) =~= rest);
        } else {
            assert(list[i] == rest[i - 1]);
            lemma_chain_behind(m, rank, tip, visited.insert(msg), i - 1);
            assert(list.skip(i + 1) =~= rest.skip(i));
        }
    } else {
        let infos = m.other[hash].infos;
        assert(m.other.contains_key(hash));
        assert(list == infos + rest);
        if i < infos.len() {
            assert(infos[i].tx_hash == hash);
        }
        assert(list[i] == rest[i - infos.len()]);
        lemma_chain_behind(m, rank, tip, visited.insert(msg), i - infos.len());
        assert(list.skip(i + 1) =~= rest.skip(i - infos.len() + 1));
    }
}

/// Where what is kept and mapped of a list comes from.
proof fn lemma_source<A, B>(
    s: Seq<A>,
    keep: spec_fn(A) -> bool,
    f: spec_fn(A) -> Option<B>,
    i: int,
) -> (p: int)
    requires
        0 <= i < s.filter(keep).filter_map(f).len(),
    ensures
        0 <= p < s.len(),
        f(s[p]) == Some(s.filter(keep).filter_map(f)[i]),
    decreases s.len(),
{
    reveal(Seq::filter);
    reveal(Seq::filter_map);
    let front = s.drop_last();
    let last = s.last();
    let kept = front.filter(keep);
    assert(kept.push(last).drop_last() =~= kept);
    if i < kept.filter_map(f).len() {
        lemma_source(front, keep, f, i)
    } else {
        assert(keep(last) && f(last) is Some);
        assert(s[s.len() - 1] == last);
        s.len() - 1
    }
}

/// What is kept and mapped of a list comes in its order.
proof fn lemma_sources<A, B>(
    s: Seq<A>,
    keep: spec_fn(A) -> bool,
    f: spec_fn(A) -> Option<B>,
    i: int,
    j: int,
) -> (p: (int, int))
    requires
        0 <= i < j < s.filter(keep).filter_map(f).len(),
    ensures
        0 <= p.0 < p.1 < s.len(),
        f(s[p.0]) == Some(s.filter(keep).filter_map(f)[i]),
        f(s[p.1]) == Some(s.filter(keep).filter_map(f)[j]),
    decreases s.len(),
{
    reveal(Seq::filter);
    reveal(Seq::filter_map);
    let front = s.drop_last();
    let last = s.last();
    let kept = front.filter(keep);
    assert(kept.push(last).drop_last() =~= kept);
    if j < kept.filter_map(f).len() {
        lemma_sources(front, keep, f, i, j)
    } else {
        assert(keep(last) && f(last) is Some);
        assert(s[s.len() - 1] == last);
        let p = lemma_source(front, keep, f, i);
        assert(s[p] == front[p]);
        (p, s.len() - 1)
    }
}

/// The inputs of the `k`th un-mined bundle are there: on the branch, or made by
/// a bundle before it that lands.
pub open spec fn lands(m: StateModel, tip: HeaderId, channel_id: ChannelId, k: int) -> bool {
    let bundles = m.unmined_bundles(tip);
    transfers_of(bundles[k].1.signed_tx, channel_id).flat_map(inputs_of()).to_set().subset_of(
        m.check_bundles(m.notes_at(tip), bundles.take(k), channel_id).available,
    )
}

/// The pending chain from the `k`th un-mined bundle on.
pub open spec fn chain_from(m: StateModel, tip: HeaderId, k: int) -> Seq<InscriptionInfo> {
    let first = m.unmined_bundles(tip)[k].0;
    seq![first] + m.suffix(first.this_msg)
}

/// A note is there for the `k`th un-mined bundle: on the branch, or made by one
/// before it that lands.
pub open spec fn is_there(
    m: StateModel,
    tip: HeaderId,
    channel_id: ChannelId,
    k: int,
    note: NoteId,
) -> bool {
    m.notes_at(tip).contains(note) || exists|j: int|
        0 <= j < k && #[trigger] lands(m, tip, channel_id, j) && transfers_of(
            m.unmined_bundles(tip)[j].1.signed_tx,
            channel_id,
        ).flat_map(outputs_of()).contains(note)
}

proof fn lemma_available(m: StateModel, tip: HeaderId, channel_id: ChannelId, k: int, note: NoteId)
    requires
        0 <= k <= m.unmined_bundles(tip).len(),
    ensures
        m.check_bundles(
            m.notes_at(tip),
            m.unmined_bundles(tip).take(k),
            channel_id,
        ).available.contains(note) <==> is_there(m, tip, channel_id, k, note),
    decreases k,
{
    let bundles = m.unmined_bundles(tip);
    if k > 0 {
        lemma_available(m, tip, channel_id, k - 1, note);
        assert(bundles.take(k).drop_last() =~= bundles.take(k - 1));
        assert(bundles.take(k).last() == bundles[k - 1]);
        let made = transfers_of(bundles[k - 1].1.signed_tx, channel_id).flat_map(outputs_of());
        if lands(m, tip, channel_id, k - 1) {
            if made.contains(note) {
                assert(made.to_set().contains(note));
            }
        }
        if is_there(m, tip, channel_id, k - 1, note) && !m.notes_at(tip).contains(note) {
            let j = choose|j: int|
                0 <= j < k - 1 && #[trigger] lands(m, tip, channel_id, j) && transfers_of(
                    m.unmined_bundles(tip)[j].1.signed_tx,
                    channel_id,
                ).flat_map(outputs_of()).contains(note);
            assert(lands(m, tip, channel_id, j));
        }
        if is_there(m, tip, channel_id, k, note) && !m.notes_at(tip).contains(note) {
            let j = choose|j: int|
                0 <= j < k && #[trigger] lands(m, tip, channel_id, j) && transfers_of(
                    m.unmined_bundles(tip)[j].1.signed_tx,
                    channel_id,
                ).flat_map(outputs_of()).contains(note);
            if j == k - 1 {
                assert(made.to_set().contains(note));
            } else {
                assert(is_there(m, tip, channel_id, k - 1, note));
            }
        }
    } else {
        assert(bundles.take(0) =~= Seq::empty());
    }
}

/// An un-mined bundle lands exactly where each note that its channel transfers
/// spend is on the branch, or is made by a bundle before it that lands.
pub proof fn law_bundle_lands_where_its_notes_are_there(
    m: StateModel,
    tip: HeaderId,
    channel_id: ChannelId,
    k: int,
)
    requires
        0 <= k < m.unmined_bundles(tip).len(),
    ensures
        lands(m, tip, channel_id, k) <==> forall|note: NoteId|
            transfers_of(m.unmined_bundles(tip)[k].1.signed_tx, channel_id).flat_map(
                inputs_of(),
            ).contains(note) ==> #[trigger] is_there(m, tip, channel_id, k, note),
{
    let bundles = m.unmined_bundles(tip);
    let spent = transfers_of(bundles[k].1.signed_tx, channel_id).flat_map(inputs_of());
    let available = m.check_bundles(m.notes_at(tip), bundles.take(k), channel_id).available;
    assert forall|note: NoteId| #[trigger] is_there(m, tip, channel_id, k, note)
        <==> available.contains(note) by {
        lemma_available(m, tip, channel_id, k, note);
    }
    if lands(m, tip, channel_id, k) {
        assert forall|note: NoteId| spent.contains(note) implies #[trigger] is_there(
            m,
            tip,
            channel_id,
            k,
            note,
        ) by {
            assert(spent.to_set().contains(note));
        }
    }
    if forall|note: NoteId|
        spent.contains(note) ==> #[trigger] is_there(m, tip, channel_id, k, note) {
        assert forall|note: NoteId| spent.to_set().contains(note) implies available.contains(
            note,
        ) by {
            assert(is_there(m, tip, channel_id, k, note));
        }
    }
}

proof fn lemma_none_dead(m: StateModel, tip: HeaderId, channel_id: ChannelId, n: int)
    requires
        0 <= n <= m.unmined_bundles(tip).len(),
        forall|j: int| 0 <= j < n ==> #[trigger] lands(m, tip, channel_id, j),
    ensures
        m.check_bundles(m.notes_at(tip), m.unmined_bundles(tip).take(n), channel_id).dead
            == Set::<TxHash>::empty(),
    decreases n,
{
    let bundles = m.unmined_bundles(tip);
    if n > 0 {
        lemma_none_dead(m, tip, channel_id, n - 1);
        assert(lands(m, tip, channel_id, n - 1));
        assert(bundles.take(n).drop_last() =~= bundles.take(n - 1));
        assert(bundles.take(n).last() == bundles[n - 1]);
    }
}

/// A bundle behind another lies on the chain from it, and so does its chain.
proof fn lemma_later_bundle(
    m: StateModel,
    rank: spec_fn(MsgId) -> nat,
    tip: HeaderId,
    k: int,
    n: int,
)
    requires
        m.wf(),
        orderly(m, rank),
        held_once(m),
        opaque_entries_carry_their_hash(m),
        0 <= k < n < m.unmined_bundles(tip).len(),
    ensures
        hashes(chain_from(m, tip, n)).subset_of(hashes(chain_from(m, tip, k))),
{
    let bundles = m.unmined_bundles(tip);
    let start = m.channel_tip(tip);
    let list = m.suffix(start);
    let keep = not_safe(m.safe_at(tip));
    let f = m.bundle_pair();
    let (p, q) = lemma_sources(list, keep, f, k, n);
    assert(bundles[k].0 == list[p]);
    assert(bundles[n].0 == list[q]);
    lemma_chain_behind(m, rank, start, Set::empty(), p);
    lemma_chain_behind(m, rank, start, Set::empty(), q);
    let long = chain_from(m, tip, k);
    let short = chain_from(m, tip, n);
    assert(long =~= list.skip(p));
    assert(short =~= list.skip(q));
    let long_ids = long.map_values(hash_of());
    let short_ids = short.map_values(hash_of());
    assert forall|hash: TxHash| #[trigger] hashes(short).contains(hash) implies hashes(
        long,
    ).contains(hash) by {
        assert(short_ids.contains(hash));
        let i = short_ids.index_of(hash);
        assert(short_ids[i] == hash);
        assert(long_ids[i + q - p] == hash);
        assert(long_ids.contains(hash));
    }
}

proof fn lemma_hashes_of_chain(first: InscriptionInfo, rest: Seq<InscriptionInfo>)
    ensures
        hashes(seq![first] + rest) == hashes(rest).insert(first.tx_hash),
{
    let all = (seq![first] + rest).map_values(hash_of());
    let ids = rest.map_values(hash_of());
    assert(all =~= seq![first.tx_hash] + ids);
    assert forall|hash: TxHash| all.to_set().contains(hash) <==> ids.to_set().insert(
        first.tx_hash,
    ).contains(hash) by {
        if all.contains(hash) {
            let i = all.index_of(hash);
            if i > 0 {
                assert(ids[i - 1] == hash);
            }
        }
        assert(all[0] == first.tx_hash);
        if ids.contains(hash) {
            assert(all[ids.index_of(hash) + 1] == hash);
        }
    }
    assert(all.to_set() =~= ids.to_set().insert(first.tx_hash));
}

proof fn lemma_dead_from(
    m: StateModel,
    rank: spec_fn(MsgId) -> nat,
    tip: HeaderId,
    channel_id: ChannelId,
    k: int,
    n: int,
)
    requires
        m.wf(),
        orderly(m, rank),
        held_once(m),
        opaque_entries_carry_their_hash(m),
        0 <= k < n <= m.unmined_bundles(tip).len(),
        forall|j: int| 0 <= j < k ==> #[trigger] lands(m, tip, channel_id, j),
        !lands(m, tip, channel_id, k),
    ensures
        m.check_bundles(m.notes_at(tip), m.unmined_bundles(tip).take(n), channel_id).dead == hashes(
            chain_from(m, tip, k),
        ),
    decreases n,
{
    let bundles = m.unmined_bundles(tip);
    let first = bundles[k].0;
    assert(bundles.take(n).drop_last() =~= bundles.take(n - 1));
    assert(bundles.take(n).last() == bundles[n - 1]);
    let dead = m.check_bundles(m.notes_at(tip), bundles.take(n), channel_id).dead;
    lemma_hashes_of_chain(bundles[n - 1].0, m.suffix(bundles[n - 1].0.this_msg));
    if n == k + 1 {
        lemma_none_dead(m, tip, channel_id, k);
        assert(dead =~= hashes(chain_from(m, tip, k)));
    } else {
        lemma_dead_from(m, rank, tip, channel_id, k, n - 1);
        lemma_later_bundle(m, rank, tip, k, n - 1);
        assert(dead =~= hashes(chain_from(m, tip, k)));
    }
}

/// Two lists of the same different things are the same list where one keeps
/// the order of the other.
proof fn lemma_same_list<A>(a: Seq<A>, b: Seq<A>)
    requires
        a.no_duplicates(),
        b.no_duplicates(),
        forall|x: A| #[trigger] a.contains(x) <==> b.contains(x),
        forall|i: int, j: int|
            #![trigger b[i], b[j]]
            0 <= i < j < b.len() ==> a.index_of(b[i]) < a.index_of(b[j]),
    ensures
        a == b,
{
    lemma_same_len(a, b);
    assert forall|i: int| 0 <= i < b.len() implies #[trigger] a[i] == b[i] by {
        lemma_same_at(a, b, i);
    }
    assert(a =~= b);
}

proof fn lemma_same_len<A>(a: Seq<A>, b: Seq<A>)
    requires
        a.no_duplicates(),
        b.no_duplicates(),
        forall|x: A| #[trigger] a.contains(x) <==> b.contains(x),
    ensures
        a.len() == b.len(),
{
    a.unique_seq_to_set();
    b.unique_seq_to_set();
    assert(a.to_set() =~= b.to_set());
}

proof fn lemma_index_at_least<A>(a: Seq<A>, b: Seq<A>, i: int)
    requires
        forall|x: A| #[trigger] a.contains(x) <==> b.contains(x),
        forall|i: int, j: int|
            #![trigger b[i], b[j]]
            0 <= i < j < b.len() ==> a.index_of(b[i]) < a.index_of(b[j]),
        0 <= i < b.len(),
    ensures
        i <= a.index_of(b[i]) < a.len(),
        a[a.index_of(b[i])] == b[i],
    decreases i,
{
    assert(b.contains(b[i]));
    assert(a.contains(b[i]));
    if i > 0 {
        lemma_index_at_least(a, b, i - 1);
        assert(a.index_of(b[i - 1]) < a.index_of(b[i]));
    }
}

proof fn lemma_index_at_most<A>(a: Seq<A>, b: Seq<A>, i: int)
    requires
        a.len() == b.len(),
        forall|x: A| #[trigger] a.contains(x) <==> b.contains(x),
        forall|i: int, j: int|
            #![trigger b[i], b[j]]
            0 <= i < j < b.len() ==> a.index_of(b[i]) < a.index_of(b[j]),
        0 <= i < b.len(),
    ensures
        a.index_of(b[i]) <= i,
    decreases b.len() - i,
{
    lemma_index_at_least(a, b, i);
    if i < b.len() - 1 {
        lemma_index_at_most(a, b, i + 1);
        assert(a.index_of(b[i]) < a.index_of(b[i + 1]));
    }
}

proof fn lemma_same_at<A>(a: Seq<A>, b: Seq<A>, i: int)
    requires
        a.no_duplicates(),
        b.no_duplicates(),
        a.len() == b.len(),
        forall|x: A| #[trigger] a.contains(x) <==> b.contains(x),
        forall|i: int, j: int|
            #![trigger b[i], b[j]]
            0 <= i < j < b.len() ==> a.index_of(b[i]) < a.index_of(b[j]),
        0 <= i < b.len(),
    ensures
        a[i] == b[i],
{
    lemma_index_at_least(a, b, i);
    lemma_index_at_most(a, b, i);
}

/// The reports of a list are those of its pending transactions.
proof fn lemma_reported_from(
    m: StateModel,
    infos: Seq<InscriptionInfo>,
    eligible: Set<TxHash>,
    report: PendingTx,
)
    requires
        m.wf(),
    ensures
        m.reports(infos, eligible).contains(report) <==> {
            let hash = report.spec_tx_hash();
            hashes(infos).contains(hash) && eligible.contains(hash) && m.pending.contains_key(hash)
                && report == m.pending[hash].report()
        },
    decreases infos.len(),
{
    let hash = report.spec_tx_hash();
    let all = m.reports(infos, eligible);
    if hashes(infos).contains(hash) && eligible.contains(hash) && m.pending.contains_key(hash)
        && report == m.pending[hash].report() {
        lemma_reported_where_listed(m, infos, eligible, hash);
    }
    if all.contains(report) {
        let i = all.index_of(report);
        lemma_reports_are_listed(m, infos, eligible, i);
        lemma_report_is_of_its_hash(m, infos, eligible, i);
    }
}

proof fn lemma_report_is_of_its_hash(
    m: StateModel,
    infos: Seq<InscriptionInfo>,
    eligible: Set<TxHash>,
    i: int,
)
    requires
        m.wf(),
        0 <= i < m.reports(infos, eligible).len(),
    ensures
        ({
            let report = m.reports(infos, eligible)[i];
            let hash = report.spec_tx_hash();
            eligible.contains(hash) && m.pending.contains_key(hash) && report
                == m.pending[hash].report()
        }),
    decreases infos.len(),
{
    let rest = infos.drop_first();
    let later = m.reports(rest, eligible);
    let all = m.reports(infos, eligible);
    let shift = all.len() - later.len();
    if i >= shift {
        lemma_report_is_of_its_hash(m, rest, eligible, i - shift);
        assert(all[i] == later[i - shift]);
    }
}

/// On a chain, a later report is of what is reached from an earlier one.
proof fn lemma_reports_follow_the_chain(
    m: StateModel,
    rank: spec_fn(MsgId) -> nat,
    msg: MsgId,
    infos: Seq<InscriptionInfo>,
    from: int,
    eligible: Set<TxHash>,
    i: int,
    j: int,
)
    requires
        m.wf(),
        orderly(m, rank),
        held_once(m),
        opaque_entries_carry_their_hash(m),
        0 <= from <= m.suffix(msg).len(),
        infos == m.suffix(msg).skip(from),
        0 <= i < j < m.reports(infos, eligible).len(),
    ensures
        reached_from(
            m,
            m.reports(infos, eligible)[i].spec_tx_hash(),
            m.reports(infos, eligible)[j].spec_tx_hash(),
        ),
    decreases infos.len(),
{
    let list = m.suffix(msg);
    let rest = infos.drop_first();
    let later = m.reports(rest, eligible);
    let all = m.reports(infos, eligible);
    let shift = all.len() - later.len();
    assert(rest =~= list.skip(from + 1));
    if i >= shift {
        lemma_reports_follow_the_chain(m, rank, msg, rest, from + 1, eligible, i - shift, j - shift);
        assert(all[i] == later[i - shift] && all[j] == later[j - shift]);
    } else {
        let first = infos[0].tx_hash;
        assert(infos[0] == list[from]);
        assert(all == seq![m.pending[first].report()] + later);
        assert(all[0].spec_tx_hash() == first);
        lemma_chain_behind(m, rank, msg, Set::empty(), from);
        assert(rest == m.suffix(m.pending[first].this_msg));
        assert(all[j] == later[j - 1]);
        lemma_reports_are_listed(m, rest, eligible, j - 1);
        lemma_report_is_of_its_hash(m, rest, eligible, j - 1);
        let hash = all[j].spec_tx_hash();
        let ids = rest.map_values(hash_of());
        assert(ids.contains(hash));
        let k = ids.index_of(hash);
        assert(rest[k].tx_hash == hash);
        lemma_chain_behind(m, rank, m.pending[first].this_msg, Set::empty(), k);
        assert(rest[k] == m.pending[hash].entry());
        assert(rest.contains(m.pending[hash].entry()));
    }
}

/// Where every un-mined bundle can land, none is shed. Otherwise the first that
/// cannot is, with every pending inscription and bundle behind it on the chain,
/// parent first.
pub proof fn law_missing_inputs_take_the_rest_of_the_chain(
    m: StateModel,
    tip: HeaderId,
    channel_id: ChannelId,
)
    requires
        consistent(m),
        loop_free(m),
    ensures
        (forall|j: int|
            0 <= j < m.unmined_bundles(tip).len() ==> #[trigger] lands(m, tip, channel_id, j))
            ==> m.drained(m.without_inputs(tip, channel_id)) == Seq::<PendingTx>::empty(),
        forall|k: int|
            0 <= k < m.unmined_bundles(tip).len() && !(#[trigger] lands(m, tip, channel_id, k)) && (
            forall|j: int| 0 <= j < k ==> #[trigger] lands(m, tip, channel_id, j)) ==> m.drained(
                m.without_inputs(tip, channel_id),
            ) == m.reports(chain_from(m, tip, k), m.pending.dom()),
{
    let rank = lemma_in_order(m);
    let bundles = m.unmined_bundles(tip);
    let dead = m.without_inputs(tip, channel_id);
    assert(bundles.take(bundles.len() as int) =~= bundles);
    if forall|j: int| 0 <= j < bundles.len() ==> #[trigger] lands(m, tip, channel_id, j) {
        lemma_none_dead(m, tip, channel_id, bundles.len() as int);
        if m.drained(dead).len() > 0 {
            law_only_the_eligible_are_shed(m, dead, 0);
        }
        assert(m.drained(dead) =~= Seq::empty());
    }
    assert forall|k: int|
        0 <= k < bundles.len() && !(#[trigger] lands(m, tip, channel_id, k)) && (forall|j: int|
            0 <= j < k ==> #[trigger] lands(m, tip, channel_id, j)) implies m.drained(dead)
        == m.reports(chain_from(m, tip, k), m.pending.dom()) by {
        lemma_dead_from(m, rank, tip, channel_id, k, bundles.len() as int);
        lemma_drained_chain(m, rank, tip, k, dead);
    }
}

proof fn lemma_drained_chain(
    m: StateModel,
    rank: spec_fn(MsgId) -> nat,
    tip: HeaderId,
    k: int,
    dead: Set<TxHash>,
)
    requires
        consistent(m),
        loop_free(m),
        orderly(m, rank),
        0 <= k < m.unmined_bundles(tip).len(),
        dead == hashes(chain_from(m, tip, k)),
    ensures
        m.drained(dead) == m.reports(chain_from(m, tip, k), m.pending.dom()),
{
    let start = m.channel_tip(tip);
    let list = m.suffix(start);
    let p = lemma_source(list, not_safe(m.safe_at(tip)), m.bundle_pair(), k);
    assert(m.unmined_bundles(tip)[k].0 == list[p]);
    lemma_chain_behind(m, rank, start, Set::empty(), p);
    let infos = chain_from(m, tip, k);
    assert(infos =~= list.skip(p));
    let all = m.pending.dom();
    let a = m.drained(dead);
    let b = m.reports(infos, all);
    let chains = sorted_seq(m.roots(dead)).flat_map(m.suffixes());
    lemma_reports_differ(m, infos, all);
    lemma_loop_free_in(m, dead);
    assert(orderly_in(m, dead, rank));
    law_nothing_is_shed_twice(m, dead);
    lemma_distinct_by_hash(a);
    lemma_distinct_by_hash(b);
    assert forall|report: PendingTx| #[trigger] a.contains(report) <==> b.contains(report) by {
        lemma_reported_from(m, infos, all, report);
        lemma_reported_from(m, chains, dead, report);
        let hash = report.spec_tx_hash();
        if dead.contains(hash) && m.pending.contains_key(hash) {
            assert(m.pending_in(dead).contains(hash));
            lemma_eligible_is_listed(m, rank, dead, hash);
        }
    }
    assert forall|i: int, j: int|
        #![trigger b[i], b[j]]
        0 <= i < j < b.len() implies a.index_of(b[i]) < a.index_of(b[j]) by {
        lemma_reports_follow_the_chain(m, rank, start, infos, p, all, i, j);
        lemma_report_is_of_its_hash(m, infos, all, i);
        lemma_report_is_of_its_hash(m, infos, all, j);
        lemma_reports_are_listed(m, infos, all, i);
        lemma_reports_are_listed(m, infos, all, j);
        let earlier = b[i].spec_tx_hash();
        let later = b[j].spec_tx_hash();
        let ids = b.map_values(report_hash());
        assert(ids[i] == earlier && ids[j] == later);
        let (x, y) = law_shed_comes_parent_first(m, dead, earlier, later);
        assert(a[x] == b[i] && a[y] == b[j]);
        assert(a.contains(b[i]) && a.contains(b[j]));
        assert(a[a.index_of(b[i])] == a[x]);
        assert(a[a.index_of(b[j])] == a[y]);
    }
    lemma_same_list(a, b);
}

proof fn lemma_distinct_by_hash(txs: Seq<PendingTx>)
    requires
        txs.map_values(report_hash()).no_duplicates(),
    ensures
        txs.no_duplicates(),
{
    let ids = txs.map_values(report_hash());
    assert forall|i: int, j: int|
        0 <= i < txs.len() && 0 <= j < txs.len() && i != j implies txs[i] != txs[j] by {
        assert(ids[i] != ids[j]);
    }
}

} // verus!
