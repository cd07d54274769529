//! Giving up on pending transactions that can no longer land.

use vstd::prelude::*;

use super::TxState;
use crate::collections::{
    ascending, insert_sorted, lemma_sorted_seq_is, sorted_seq, KeySet,
};
use crate::ids::{HeaderId, Key, MsgId, TxHash};
use crate::mantle::SignedOps;
use crate::sequencer::state_model::{hashes, msgs, report_hash, StateModel};
use crate::sequencer::types::{InscriptionInfo, PendingTx};

verus! {

/// One step along a lineage: from the parent of a transaction's first entry to
/// its last entry.
struct Link {
    parent: MsgId,
    last: MsgId,
}

/// A set that every link starting in it also ends in.
spec fn links_closed(links: Seq<Link>, set: Set<MsgId>) -> bool {
    forall|i: int|
        0 <= i < links.len() ==> set.contains((#[trigger] links[i]).parent) ==> set.contains(
            links[i].last,
        )
}

/// How many links end outside a set.
spec fn open_links(links: Seq<Link>, set: Set<MsgId>) -> nat
    decreases links.len(),
{
    if links.len() == 0 {
        0
    } else {
        open_links(links.drop_last(), set) + if set.contains(links.last().last) {
            0nat
        } else {
            1nat
        }
    }
}

proof fn lemma_open_links_shrink(links: Seq<Link>, a: Set<MsgId>, b: Set<MsgId>)
    requires
        a.subset_of(b),
    ensures
        open_links(links, b) <= open_links(links, a),
        (exists|i: int|
            0 <= i < links.len() && !a.contains((#[trigger] links[i]).last) && b.contains(
                links[i].last,
            )) ==> open_links(links, b) < open_links(links, a),
    decreases links.len(),
{
    if links.len() > 0 {
        let rest = links.drop_last();
        lemma_open_links_shrink(rest, a, b);
        if exists|i: int|
            0 <= i < links.len() && !a.contains((#[trigger] links[i]).last) && b.contains(
                links[i].last,
            ) {
            let i = choose|i: int|
                0 <= i < links.len() && !a.contains((#[trigger] links[i]).last) && b.contains(
                    links[i].last,
                );
            if i < links.len() - 1 {
                assert(rest[i] == links[i]);
            }
        }
    }
}

/// Everything that links lead to from `seeds`.
fn reachable(seeds: KeySet<MsgId>, links: &Vec<Link>) -> (res: KeySet<MsgId>)
    ensures
        seeds@.subset_of(res@),
        links_closed(links@, res@),
        forall|set: Set<MsgId>|
            seeds@.subset_of(set) && #[trigger] links_closed(links@, set) ==> res@.subset_of(set),
{
    let mut reached = seeds;
    let mut changed: bool = true;
    while changed
        invariant
            seeds@.subset_of(reached@),
            !changed ==> links_closed(links@, reached@),
            forall|set: Set<MsgId>|
                seeds@.subset_of(set) && #[trigger] links_closed(links@, set)
                    ==> reached@.subset_of(set),
        decreases open_links(links@, reached@), changed as int,
    {
        changed = false;
        let ghost before = reached@;
        let mut i: usize = 0;
        while i < links.len()
            invariant
                i <= links@.len(),
                seeds@.subset_of(before),
                before.subset_of(reached@),
                !changed ==> reached@ == before,
                !changed ==> forall|j: int|
                    0 <= j < i ==> before.contains((#[trigger] links@[j]).parent)
                        ==> before.contains(links@[j].last),
                changed ==> exists|j: int|
                    0 <= j < links@.len() && !before.contains((#[trigger] links@[j]).last)
                        && reached@.contains(links@[j].last),
                forall|set: Set<MsgId>|
                    seeds@.subset_of(set) && #[trigger] links_closed(links@, set)
                        ==> reached@.subset_of(set),
            decreases links@.len() - i,
        {
            if reached.contains(&links[i].parent) {
                let ghost prior = reached@;
                assert forall|set: Set<MsgId>|
                    seeds@.subset_of(set) && #[trigger] links_closed(links@, set) implies prior.insert(
                    links@[i as int].last,
                ).subset_of(set) by {
                    assert(set.contains(links@[i as int].parent));
                }
                if reached.insert(links[i].last) {
                    assert(!before.contains(links@[i as int].last));
                    changed = true;
                } else {
                    assert(reached@ =~= prior);
                }
            }
            i = i + 1;
        }
        proof {
            lemma_open_links_shrink(links@, before, reached@);
        }
    }
    reached
}

pub proof fn lemma_hashes_push(infos: Seq<InscriptionInfo>, info: InscriptionInfo)
    ensures
        hashes(infos.push(info)) == hashes(infos).insert(info.tx_hash),
{
    let f = crate::sequencer::state_model::hash_of();
    assert(infos.push(info).map_values(f) =~= infos.map_values(f).push(info.tx_hash));
    infos.map_values(f).lemma_push_to_set_commute(info.tx_hash);
}

proof fn lemma_hashes_prepend(info: InscriptionInfo, infos: Seq<InscriptionInfo>)
    ensures
        hashes(seq![info] + infos) == hashes(infos).insert(info.tx_hash),
{
    let f = crate::sequencer::state_model::hash_of();
    let ids = infos.map_values(f);
    let all = (seq![info] + infos).map_values(f);
    assert(all =~= seq![info.tx_hash] + ids);
    assert forall|hash: TxHash| all.to_set().contains(hash) <==> ids.to_set().insert(
        info.tx_hash,
    ).contains(hash) by {
        if all.contains(hash) {
            let i = all.index_of(hash);
            if i > 0 {
                assert(ids[i - 1] == hash);
            }
        }
        assert(all[0] == info.tx_hash);
        if ids.contains(hash) {
            assert(all[ids.index_of(hash) + 1] == hash);
        }
    }
    assert(all.to_set() =~= ids.to_set().insert(info.tx_hash));
}

pub proof fn lemma_msgs_push(infos: Seq<InscriptionInfo>, info: InscriptionInfo)
    ensures
        msgs(infos.push(info)) == msgs(infos).insert(info.this_msg),
{
    let f = crate::sequencer::state_model::msg_of();
    assert(infos.push(info).map_values(f) =~= infos.map_values(f).push(info.this_msg));
    infos.map_values(f).lemma_push_to_set_commute(info.this_msg);
}

pub proof fn lemma_empty_infos()
    ensures
        hashes(Seq::empty()) == Set::<TxHash>::empty(),
        msgs(Seq::empty()) == Set::<MsgId>::empty(),
{
    assert(hashes(Seq::empty()) =~= Set::<TxHash>::empty());
    assert(msgs(Seq::empty()) =~= Set::<MsgId>::empty());
}

/// Adds the transactions of a list of entries to a set.
pub fn add_hashes(set: &mut KeySet<TxHash>, infos: &Vec<InscriptionInfo>)
    ensures
        final(set)@ == old(set)@.union(hashes(infos@)),
{
    proof {
        lemma_empty_infos();
        assert(infos@.take(0) =~= Seq::empty());
        assert(set@ =~= old(set)@.union(hashes(infos@.take(0))));
    }
    let mut i: usize = 0;
    while i < infos.len()
        invariant
            i <= infos@.len(),
            set@ == old(set)@.union(hashes(infos@.take(i as int))),
        decreases infos@.len() - i,
    {
        proof {
            assert(infos@.take(i + 1) =~= infos@.take(i as int).push(infos@[i as int]));
            lemma_hashes_push(infos@.take(i as int), infos@[i as int]);
        }
        let _ = set.insert(infos[i].tx_hash);
        assert(set@ =~= old(set)@.union(hashes(infos@.take(i + 1))));
        i = i + 1;
    }
    assert(infos@.take(i as int) =~= infos@);
}

/// Adds the messages of a list of entries to a set.
pub fn add_msgs(set: &mut KeySet<MsgId>, infos: &[InscriptionInfo])
    ensures
        final(set)@ == old(set)@.union(msgs(infos@)),
{
    proof {
        lemma_empty_infos();
        assert(infos@.take(0) =~= Seq::empty());
        assert(set@ =~= old(set)@.union(msgs(infos@.take(0))));
    }
    let mut i: usize = 0;
    while i < infos.len()
        invariant
            i <= infos@.len(),
            set@ == old(set)@.union(msgs(infos@.take(i as int))),
        decreases infos@.len() - i,
    {
        proof {
            assert(infos@.take(i + 1) =~= infos@.take(i as int).push(infos@[i as int]));
            lemma_msgs_push(infos@.take(i as int), infos@[i as int]);
        }
        let _ = set.insert(infos[i].this_msg);
        assert(set@ =~= old(set)@.union(msgs(infos@.take(i + 1))));
        i = i + 1;
    }
    assert(infos@.take(i as int) =~= infos@);
}

impl TxState {
    /// The messages that `eligible` pending inscriptions write.
    fn messages_of(&self, eligible: &KeySet<TxHash>) -> (res: KeySet<MsgId>)
        ensures
            res@ == self@.made_by(eligible@),
    {
        let keys = self.pending.keys();
        let mut res: KeySet<MsgId> = KeySet::new();
        let mut i: usize = 0;
        while i < keys.len()
            invariant
                i <= keys@.len(),
                forall|j: int| 0 <= j < keys@.len() ==> self@.pending.contains_key(#[trigger] keys@[j]),
                forall|msg: MsgId| #[trigger]
                    res@.contains(msg) <==> exists|j: int|
                        0 <= j < i && eligible@.contains(#[trigger] keys@[j])
                            && self@.pending[keys@[j]].this_msg == msg,
            decreases keys@.len() - i,
        {
            let hash: TxHash = keys[i];
            let ghost before = res@;
            assert(self@.pending.contains_key(keys@[i as int]));
            if eligible.contains(&hash) {
                if let Some(pending) = self.pending.get(&hash) {
                    let _ = res.insert(pending.this_msg);
                }
            }
            proof {
                assert forall|msg: MsgId| #[trigger] res@.contains(msg) <==> exists|j: int|
                    0 <= j < i + 1 && eligible@.contains(#[trigger] keys@[j])
                        && self@.pending[keys@[j]].this_msg == msg by {
                    if before.contains(msg) {
                        let j = choose|j: int|
                            0 <= j < i && eligible@.contains(#[trigger] keys@[j])
                                && self@.pending[keys@[j]].this_msg == msg;
                        assert(0 <= j < i + 1 && eligible@.contains(keys@[j]));
                    }
                    if res@.contains(msg) && !before.contains(msg) {
                        assert(eligible@.contains(keys@[i as int]));
                    }
                }
            }
            i = i + 1;
        }
        proof {
            assert forall|msg: MsgId| res@.contains(msg) == self@.made_by(eligible@).contains(msg) by {
                if res@.contains(msg) {
                    let j = choose|j: int|
                        0 <= j < i && eligible@.contains(#[trigger] keys@[j])
                            && self@.pending[keys@[j]].this_msg == msg;
                    assert(self@.pending.contains_key(keys@[j]));
                    assert(self@.pending_in(eligible@).contains(keys@[j]));
                }
                if self@.made_by(eligible@).contains(msg) {
                    let hash = choose|hash: TxHash|
                        {
                            &&& #[trigger] self@.pending_in(eligible@).contains(hash)
                            &&& self@.pending[hash].this_msg == msg
                        };
                    assert(keys@.to_set().contains(hash));
                    let j = keys@.index_of(hash);
                    assert(eligible@.contains(keys@[j]));
                }
            }
            assert(res@ =~= self@.made_by(eligible@));
        }
        res
    }

    /// The messages off which chains of `eligible` start, sorted.
    fn root_parents(&self, eligible: &KeySet<TxHash>) -> (res: Vec<MsgId>)
        ensures
            res@ == sorted_seq(self@.roots(eligible@)),
    {
        let made = self.messages_of(eligible);
        let keys = self.pending.keys();
        let mut res: Vec<MsgId> = Vec::new();
        assert(res@.to_set() =~= Set::empty());
        let mut i: usize = 0;
        while i < keys.len()
            invariant
                i <= keys@.len(),
                made@ == self@.made_by(eligible@),
                ascending(res@),
                forall|j: int| 0 <= j < keys@.len() ==> self@.pending.contains_key(#[trigger] keys@[j]),
                forall|msg: MsgId| #[trigger]
                    res@.to_set().contains(msg) <==> !made@.contains(msg) && exists|j: int|
                        0 <= j < i && eligible@.contains(#[trigger] keys@[j])
                            && self@.pending[keys@[j]].parent_msg == msg,
            decreases keys@.len() - i,
        {
            let hash: TxHash = keys[i];
            let ghost before = res@.to_set();
            assert(self@.pending.contains_key(keys@[i as int]));
            if eligible.contains(&hash) {
                if let Some(pending) = self.pending.get(&hash) {
                    if !made.contains(&pending.parent_msg) {
                        insert_sorted(&mut res, pending.parent_msg);
                    }
                }
            }
            proof {
                assert forall|msg: MsgId| #[trigger] res@.to_set().contains(msg) <==> !made@.contains(
                    msg,
                ) && exists|j: int|
                    0 <= j < i + 1 && eligible@.contains(#[trigger] keys@[j])
                        && self@.pending[keys@[j]].parent_msg == msg by {
                    if before.contains(msg) {
                        let j = choose|j: int|
                            0 <= j < i && eligible@.contains(#[trigger] keys@[j])
                                && self@.pending[keys@[j]].parent_msg == msg;
                        assert(0 <= j < i + 1 && eligible@.contains(keys@[j]));
                    }
                    if res@.to_set().contains(msg) && !before.contains(msg) {
                        assert(eligible@.contains(keys@[i as int]));
                    }
                }
            }
            i = i + 1;
        }
        proof {
            let roots = self@.roots(eligible@);
            assert forall|msg: MsgId| res@.to_set().contains(msg) == roots.contains(msg) by {
                if res@.to_set().contains(msg) {
                    let j = choose|j: int|
                        0 <= j < i && eligible@.contains(#[trigger] keys@[j])
                            && self@.pending[keys@[j]].parent_msg == msg;
                    assert(self@.pending.contains_key(keys@[j]));
                    assert(self@.pending_in(eligible@).contains(keys@[j]));
                }
                if roots.contains(msg) {
                    let hash = choose|hash: TxHash|
                        {
                            &&& #[trigger] self@.pending_in(eligible@).contains(hash)
                            &&& self@.pending[hash].parent_msg == msg
                            &&& !self@.made_by(eligible@).contains(msg)
                        };
                    assert(keys@.to_set().contains(hash));
                    let j = keys@.index_of(hash);
                    assert(eligible@.contains(keys@[j]));
                }
            }
            assert(res@.to_set() =~= roots);
            lemma_sorted_seq_is(res@);
        }
        res
    }

    /// The `eligible` pending inscriptions and bundles, parents first.
    fn in_lineage_order(&self, eligible: &KeySet<TxHash>) -> (res: Vec<PendingTx>)
        ensures
            res@ == self@.drained(eligible@),
    {
        let roots = self.root_parents(eligible);
        let mut backwards: Vec<PendingTx> = Vec::new();
        let mut seen: KeySet<TxHash> = KeySet::new();
        let ghost f = self@.suffixes();
        proof {
            lemma_empty_infos();
            assert(roots@.skip(roots@.len() as int) =~= Seq::empty());
            assert(roots@.skip(roots@.len() as int).flat_map(f) =~= Seq::empty());
            assert(seen@ =~= hashes(Seq::empty()).intersect(eligible@));
            assert(backwards@.reverse() =~= Seq::empty());
        }
        let mut r: usize = roots.len();
        while r > 0
            invariant
                r <= roots@.len(),
                f == self@.suffixes(),
                backwards@.reverse() == self@.reports(
                    roots@.skip(r as int).flat_map(f),
                    eligible@,
                ),
                seen@ == hashes(roots@.skip(r as int).flat_map(f)).intersect(eligible@),
            decreases r,
        {
            let ghost behind = roots@.skip(r as int).flat_map(f);
            r = r - 1;
            let infos = self.collect_pending_suffix(roots[r]);
            let mut i: usize = infos.len();
            assert(infos@.skip(i as int) + behind =~= behind);
            while i > 0
                invariant
                    i <= infos@.len(),
                    backwards@.reverse() == self@.reports(
                        infos@.skip(i as int) + behind,
                        eligible@,
                    ),
                    seen@ == hashes(infos@.skip(i as int) + behind).intersect(eligible@),
                decreases i,
            {
                let ghost later = infos@.skip(i as int) + behind;
                let ghost told = backwards@;
                i = i - 1;
                let hash: TxHash = infos[i].tx_hash;
                let ghost next = infos@.skip(i as int) + behind;
                proof {
                    assert(next =~= seq![infos@[i as int]] + later);
                    assert(next.drop_first() =~= later);
                    lemma_hashes_prepend(infos@[i as int], later);
                }
                if eligible.contains(&hash) {
                    if seen.insert(hash) {
                        if let Some(entry) = self.pending_tx_of(&hash) {
                            backwards.push(entry);
                            assert(backwards@.reverse() =~= seq![entry] + told.reverse());
                        }
                    }
                }
                assert(seen@ =~= hashes(next).intersect(eligible@));
            }
            proof {
                let tail = roots@.skip(r as int);
                assert(infos@.skip(0) =~= infos@);
                assert(tail.map_values(f).drop_first() =~= roots@.skip(r + 1).map_values(f));
                assert(tail.map_values(f)[0] == infos@);
                assert(tail.flat_map(f) =~= infos@ + behind);
            }
        }
        assert(roots@.skip(0) =~= roots@);
        let ghost all = backwards@;
        let mut ordered: Vec<PendingTx> = Vec::new();
        assert(ordered@ + backwards@.reverse() =~= all.reverse());
        while backwards.len() > 0
            invariant
                ordered@ + backwards@.reverse() == all.reverse(),
            decreases backwards@.len(),
        {
            let ghost left = backwards@;
            let ghost done = ordered@;
            if let Some(entry) = backwards.pop() {
                ordered.push(entry);
                assert(done + left.reverse() =~= ordered@ + backwards@.reverse());
            }
        }
        assert(ordered@ =~= all.reverse());
        ordered
    }

    /// Remove the given pending inscriptions and bundles in parent-first
    /// lineage order, returning them for orphan reporting.
    pub(super) fn drain_pending_in_lineage_order(&mut self, eligible: &KeySet<TxHash>) -> (res: Vec<PendingTx>)
        ensures
            res@ == old(self)@.drained(eligible@),
            final(self)@ == old(self)@.drain(eligible@),
    {
        let ordered = self.in_lineage_order(eligible);
        let ghost list = ordered@.map_values(report_hash());
        assert(list.take(0) =~= Seq::empty());
        let mut i: usize = 0;
        while i < ordered.len()
            invariant
                i <= ordered@.len(),
                list == ordered@.map_values(report_hash()),
                self@ == old(self)@.without_all(list.take(i as int)),
            decreases ordered@.len() - i,
        {
            assert(list.take(i + 1).drop_last() =~= list.take(i as int));
            assert(list.take(i + 1).last() == list[i as int]);
            let _ = self.remove_pending(&ordered[i].tx_hash());
            i = i + 1;
        }
        assert(list.take(i as int) =~= list);
        ordered
    }

    /// The pending inscriptions that are neither mined on the branch nor among
    /// `kept`.
    fn pending_except(&self, tip: HeaderId, kept: &KeySet<TxHash>) -> (res: KeySet<TxHash>)
        ensures
            res@ == self@.pending.dom().difference(kept@).difference(self@.safe_at(tip)),
    {
        let safe = self.safe_at(tip);
        let keys = self.pending.keys();
        let ghost rest = self@.pending.dom().difference(kept@).difference(safe@);
        let mut res: KeySet<TxHash> = KeySet::new();
        assert(res@ =~= rest.intersect(keys@.take(0).to_set()));
        let mut i: usize = 0;
        while i < keys.len()
            invariant
                i <= keys@.len(),
                forall|j: int| 0 <= j < keys@.len() ==> self@.pending.contains_key(#[trigger] keys@[j]),
                rest == self@.pending.dom().difference(kept@).difference(safe@),
                res@ == rest.intersect(keys@.take(i as int).to_set()),
            decreases keys@.len() - i,
        {
            let hash: TxHash = keys[i];
            proof {
                assert(self@.pending.contains_key(keys@[i as int]));
                assert(keys@.take(i + 1) =~= keys@.take(i as int).push(hash));
                keys@.take(i as int).lemma_push_to_set_commute(hash);
            }
            if !kept.contains(&hash) && !safe.contains(&hash) {
                let _ = res.insert(hash);
            }
            assert(res@ =~= rest.intersect(keys@.take(i + 1).to_set()));
            i = i + 1;
        }
        proof {
            assert(keys@.take(i as int) =~= keys@);
            assert(res@ =~= rest);
        }
        res
    }

    /// Remove the pending inscriptions whose lineage does not reach the channel
    /// tip and that are not in a block on this branch, along with entries a
    /// mined sibling displaced. They come back parent first, so that whoever
    /// publishes them again in that order rebuilds the chain.
    pub fn shed_off_branch_pending(&mut self, tip: HeaderId) -> (res: Vec<PendingTx>)
        ensures
            ({
                let rest = StateModel { displaced: Seq::empty(), ..old(self)@ };
                &&& res@ == old(self)@.displaced + rest.drained(rest.off_branch(tip))
                &&& final(self)@ == rest.drain(rest.off_branch(tip))
            }),
    {
        let mut shed: Vec<PendingTx> = Vec::new();
        std::mem::swap(&mut shed, &mut self.displaced);
        let ghost rest = StateModel { displaced: Seq::empty(), ..old(self)@ };
        assert(self@ =~= rest);
        let on_branch = self.collect_pending_suffix(self.channel_tip_at(tip));
        let mut kept: KeySet<TxHash> = KeySet::new();
        add_hashes(&mut kept, &on_branch);
        assert(kept@ =~= hashes(on_branch@));
        let eligible = self.pending_except(tip, &kept);
        let mut drained = self.drain_pending_in_lineage_order(&eligible);
        shed.append(&mut drained);
        shed
    }

    /// When the config tip changed, remove the pending inscriptions that are
    /// not mined on the branch: a config may have invalidated them. A mined one
    /// stays, since no config invalidates it and posting it again would
    /// duplicate it.
    pub fn shed_pending_inscriptions_on_config(&mut self, tip: HeaderId) -> (res: Vec<PendingTx>)
        ensures
            ({
                let config_tip = old(self)@.config_tip(tip);
                let rest = StateModel { observed_config_tip: config_tip, ..old(self)@ };
                let eligible = rest.pending.dom().difference(rest.safe_at(tip));
                if config_tip == old(self)@.observed_config_tip {
                    res@ == Seq::<PendingTx>::empty() && final(self)@ == old(self)@
                } else {
                    res@ == rest.drained(eligible) && final(self)@ == rest.drain(eligible)
                }
            }),
    {
        let config_tip = self.config_tip_at(tip);
        if config_tip.same(&self.observed_config_tip) {
            return Vec::new();
        }
        self.observed_config_tip = config_tip;
        let kept: KeySet<TxHash> = KeySet::new();
        let eligible = self.pending_except(tip, &kept);
        assert(eligible@ =~= self@.pending.dom().difference(self@.safe_at(tip)));
        self.drain_pending_in_lineage_order(&eligible)
    }

    /// Take a list of transactions out one by one.
    fn take_all(&mut self, list: &Vec<TxHash>) -> (res: Vec<SignedOps>)
        ensures
            res@ == old(self)@.taken_out(list@),
            final(self)@ == old(self)@.without_all(list@),
    {
        let mut res: Vec<SignedOps> = Vec::new();
        assert(list@.take(0) =~= Seq::empty());
        let mut i: usize = 0;
        while i < list.len()
            invariant
                i <= list@.len(),
                res@ == old(self)@.taken_out(list@.take(i as int)),
                self@ == old(self)@.without_all(list@.take(i as int)),
            decreases list@.len() - i,
        {
            assert(list@.take(i + 1).drop_last() =~= list@.take(i as int));
            assert(list@.take(i + 1).last() == list@[i as int]);
            if let Some(tx) = self.remove_pending(&list[i]) {
                res.push(tx);
            }
            i = i + 1;
        }
        assert(list@.take(i as int) =~= list@);
        res
    }

    /// The links of the opaque pending transactions in the message lineage.
    fn message_links(&self) -> (res: Vec<Link>)
        ensures
            forall|set: Set<MsgId>|
                #![trigger links_closed(res@, set)]
                #![trigger self@.closed_under_landing(set)]
                links_closed(res@, set) == self@.closed_under_landing(set),
    {
        let keys = self.pending_other.keys();
        let mut res: Vec<Link> = Vec::new();
        let mut i: usize = 0;
        while i < keys.len()
            invariant
                i <= keys@.len(),
                forall|j: int| 0 <= j < keys@.len() ==> self@.other.contains_key(#[trigger] keys@[j]),
                forall|n: int|
                    0 <= n < res@.len() ==> exists|hash: TxHash|
                        {
                            &&& #[trigger] self@.other.contains_key(hash)
                            &&& self@.other[hash].first_parent() == Some(res@[n].parent)
                            &&& self@.other[hash].last_msg() == Some((#[trigger] res@[n]).last)
                        },
                forall|j: int|
                    0 <= j < i ==> (self@.other[#[trigger] keys@[j]].last_msg() is Some ==> exists|
                        n: int,
                    |
                        {
                            &&& 0 <= n < res@.len()
                            &&& self@.other[keys@[j]].first_parent() == Some(
                                (#[trigger] res@[n]).parent,
                            )
                            &&& self@.other[keys@[j]].last_msg() == Some(res@[n].last)
                        }),
            decreases keys@.len() - i,
        {
            let hash: TxHash = keys[i];
            assert(self@.other.contains_key(keys@[i as int]));
            let ghost before = res@;
            if let Some(other) = self.pending_other.get(&hash) {
                if let Some(parent) = other.first_parent() {
                    if let Some(last) = other.last_msg() {
                        res.push(Link { parent, last });
                        proof {
                            assert(res@[before.len() as int] == Link { parent, last });
                            assert forall|n: int| 0 <= n < before.len() implies res@[n]
                                == #[trigger] before[n] by {
                            }
                        }
                    }
                }
            }
            proof {
                assert forall|j: int|
                    0 <= j < i + 1 && self@.other[#[trigger] keys@[j]].last_msg() is Some implies exists|
                    n: int,
                |
                    {
                        &&& 0 <= n < res@.len()
                        &&& self@.other[keys@[j]].first_parent() == Some((#[trigger] res@[n]).parent)
                        &&& self@.other[keys@[j]].last_msg() == Some(res@[n].last)
                    } by {
                    if j < i {
                        let n = choose|n: int|
                            {
                                &&& 0 <= n < before.len()
                                &&& self@.other[keys@[j]].first_parent() == Some(
                                    (#[trigger] before[n]).parent,
                                )
                                &&& self@.other[keys@[j]].last_msg() == Some(before[n].last)
                            };
                        assert(res@[n] == before[n]);
                    } else {
                        assert(res@[before.len() as int].last
                            == self@.other[keys@[j]].last_msg().unwrap());
                    }
                }
            }
            i = i + 1;
        }
        proof {
            assert forall|set: Set<MsgId>|
                #![trigger links_closed(res@, set)]
                #![trigger self@.closed_under_landing(set)]
                links_closed(res@, set) == self@.closed_under_landing(set) by {
                if links_closed(res@, set) {
                    assert forall|hash: TxHash| #[trigger] self@.other.contains_key(hash) implies (
                    self@.other[hash].last_msg() matches Some(last) ==> (
                    self@.other[hash].first_parent() matches Some(parent) ==> set.contains(parent))
                        ==> set.contains(last)) by {
                        assert(self.pending_other@.dom() =~= self@.other.dom());
                        assert(keys@.to_set().contains(hash));
                        let j = keys@.index_of(hash);
                        assert(keys@[j] == hash);
                        if self@.other[hash].last_msg() is Some {
                            let n = choose|n: int|
                                {
                                    &&& 0 <= n < res@.len()
                                    &&& self@.other[keys@[j]].first_parent() == Some(
                                        (#[trigger] res@[n]).parent,
                                    )
                                    &&& self@.other[keys@[j]].last_msg() == Some(res@[n].last)
                                };
                            assert(set.contains(res@[n].parent) ==> set.contains(res@[n].last));
                        }
                    }
                }
                if self@.closed_under_landing(set) {
                    assert forall|n: int|
                        0 <= n < res@.len() && set.contains((#[trigger] res@[n]).parent) implies set.contains(
                    res@[n].last) by {
                        let hash = choose|hash: TxHash|
                            {
                                &&& #[trigger] self@.other.contains_key(hash)
                                &&& self@.other[hash].first_parent() == Some(res@[n].parent)
                                &&& self@.other[hash].last_msg() == Some(res@[n].last)
                            };
                        assert(self@.other.contains_key(hash));
                    }
                }
            }
        }
        res
    }

    /// The links of the opaque pending transactions in the config lineage.
    fn config_links(&self) -> (res: Vec<Link>)
        ensures
            forall|set: Set<MsgId>|
                #![trigger links_closed(res@, set)]
                #![trigger self@.closed_under_configs(set)]
                links_closed(res@, set) == self@.closed_under_configs(set),
    {
        let keys = self.pending_other.keys();
        let mut res: Vec<Link> = Vec::new();
        let mut i: usize = 0;
        while i < keys.len()
            invariant
                i <= keys@.len(),
                forall|j: int| 0 <= j < keys@.len() ==> self@.other.contains_key(#[trigger] keys@[j]),
                forall|n: int|
                    0 <= n < res@.len() ==> exists|hash: TxHash|
                        {
                            &&& #[trigger] self@.other.contains_key(hash)
                            &&& self@.other[hash].config_parent() == Some(res@[n].parent)
                            &&& self@.other[hash].last_config() == Some((#[trigger] res@[n]).last)
                        },
                forall|j: int|
                    0 <= j < i ==> (self@.other[#[trigger] keys@[j]].last_config() is Some ==> exists|
                        n: int,
                    |
                        {
                            &&& 0 <= n < res@.len()
                            &&& self@.other[keys@[j]].config_parent() == Some(
                                (#[trigger] res@[n]).parent,
                            )
                            &&& self@.other[keys@[j]].last_config() == Some(res@[n].last)
                        }),
            decreases keys@.len() - i,
        {
            let hash: TxHash = keys[i];
            assert(self@.other.contains_key(keys@[i as int]));
            let ghost before = res@;
            if let Some(other) = self.pending_other.get(&hash) {
                if let Some(parent) = other.config_parent() {
                    if let Some(last) = other.last_config() {
                        res.push(Link { parent, last });
                        proof {
                            assert(res@[before.len() as int] == Link { parent, last });
                            assert forall|n: int| 0 <= n < before.len() implies res@[n]
                                == #[trigger] before[n] by {
                            }
                        }
                    }
                }
            }
            proof {
                assert forall|j: int|
                    0 <= j < i + 1 && self@.other[#[trigger] keys@[j]].last_config() is Some implies exists|
                    n: int,
                |
                    {
                        &&& 0 <= n < res@.len()
                        &&& self@.other[keys@[j]].config_parent() == Some(
                            (#[trigger] res@[n]).parent,
                        )
                        &&& self@.other[keys@[j]].last_config() == Some(res@[n].last)
                    } by {
                    if j < i {
                        let n = choose|n: int|
                            {
                                &&& 0 <= n < before.len()
                                &&& self@.other[keys@[j]].config_parent() == Some(
                                    (#[trigger] before[n]).parent,
                                )
                                &&& self@.other[keys@[j]].last_config() == Some(before[n].last)
                            };
                        assert(res@[n] == before[n]);
                    } else {
                        assert(res@[before.len() as int].last
                            == self@.other[keys@[j]].last_config().unwrap());
                    }
                }
            }
            i = i + 1;
        }
        proof {
            assert forall|set: Set<MsgId>|
                #![trigger links_closed(res@, set)]
                #![trigger self@.closed_under_configs(set)]
                links_closed(res@, set) == self@.closed_under_configs(set) by {
                if links_closed(res@, set) {
                    assert forall|hash: TxHash| #[trigger] self@.other.contains_key(hash) implies (
                    self@.other[hash].last_config() matches Some(last) ==> (
                    self@.other[hash].config_parent() matches Some(parent) && set.contains(parent))
                        ==> set.contains(last)) by {
                        assert(self.pending_other@.dom() =~= self@.other.dom());
                        assert(keys@.to_set().contains(hash));
                        let j = keys@.index_of(hash);
                        assert(keys@[j] == hash);
                        if self@.other[hash].last_config() is Some {
                            let n = choose|n: int|
                                {
                                    &&& 0 <= n < res@.len()
                                    &&& self@.other[keys@[j]].config_parent() == Some(
                                        (#[trigger] res@[n]).parent,
                                    )
                                    &&& self@.other[keys@[j]].last_config() == Some(res@[n].last)
                                };
                            assert(set.contains(res@[n].parent) ==> set.contains(res@[n].last));
                        }
                    }
                }
                if self@.closed_under_configs(set) {
                    assert forall|n: int|
                        0 <= n < res@.len() && set.contains((#[trigger] res@[n]).parent) implies set.contains(
                    res@[n].last) by {
                        let hash = choose|hash: TxHash|
                            {
                                &&& #[trigger] self@.other.contains_key(hash)
                                &&& self@.other[hash].config_parent() == Some(res@[n].parent)
                                &&& self@.other[hash].last_config() == Some(res@[n].last)
                            };
                        assert(self@.other.contains_key(hash));
                    }
                }
            }
        }
        res
    }

    /// The messages that can still become the channel tip at `tip`.
    fn landable_messages(&self, tip: HeaderId) -> (res: KeySet<MsgId>)
        ensures
            res@ == self@.landable_at(tip),
    {
        let channel_tip = self.channel_tip_at(tip);
        let suffix = self.collect_pending_suffix(channel_tip);
        let mut seeds: KeySet<MsgId> = KeySet::new();
        add_msgs(&mut seeds, suffix.as_slice());
        let _ = seeds.insert(channel_tip);
        let ghost from = msgs(suffix@).insert(channel_tip);
        assert(seeds@ =~= from);
        let links = self.message_links();
        let res = reachable(seeds, &links);
        proof {
            assert(self@.closed_under_landing(res@));
            assert forall|msg: MsgId| res@.contains(msg) == self@.landable(from).contains(msg) by {
                if self@.landable(from).contains(msg) {
                    assert(from.subset_of(res@) && self@.closed_under_landing(res@));
                    assert(res@.contains(msg));
                }
                if res@.contains(msg) {
                    assert forall|set: Set<MsgId>| #[trigger]
                        from.subset_of(set) && self@.closed_under_landing(set) implies set.contains(
                    msg) by {
                        assert(links_closed(links@, set));
                        assert(res@.subset_of(set));
                    }
                }
            }
            assert(res@ =~= self@.landable(from));
        }
        res
    }

    /// Config ids reachable from `config_tip` through pending opaque
    /// transactions: a viable entry makes its own last config landable, so
    /// entries chained on it are viable too.
    pub(super) fn landable_configs(&self, config_tip: MsgId) -> (res: KeySet<MsgId>)
        ensures
            res@ == self@.landable_configs(config_tip),
    {
        let mut seeds: KeySet<MsgId> = KeySet::new();
        let _ = seeds.insert(config_tip);
        let links = self.config_links();
        let res = reachable(seeds, &links);
        proof {
            assert(self@.closed_under_configs(res@));
            assert(seeds@.contains(config_tip));
            assert forall|msg: MsgId| res@.contains(msg) == self@.landable_configs(
                config_tip,
            ).contains(msg) by {
                if self@.landable_configs(config_tip).contains(msg) {
                    assert(res@.contains(config_tip) && self@.closed_under_configs(res@));
                    assert(res@.contains(msg));
                }
                if res@.contains(msg) {
                    assert forall|set: Set<MsgId>| #[trigger]
                        set.contains(config_tip) && self@.closed_under_configs(set) implies set.contains(
                    msg) by {
                        assert(links_closed(links@, set));
                        assert(seeds@.subset_of(set));
                        assert(res@.subset_of(set));
                    }
                }
            }
            assert(res@ =~= self@.landable_configs(config_tip));
        }
        res
    }

    /// Remove the opaque transactions whose place in the message lineage was
    /// taken, and return them whole, along with displaced ones.
    pub fn shed_off_branch_pending_other(&mut self, tip: HeaderId) -> (res: Vec<SignedOps>)
        ensures
            ({
                let rest = StateModel { displaced_other: Seq::empty(), ..old(self)@ };
                let shed = sorted_seq(rest.displaced_others(tip));
                &&& res@ == old(self)@.displaced_other + rest.taken_out(shed)
                &&& final(self)@ == rest.without_all(shed)
            }),
    {
        let mut displaced: Vec<SignedOps> = Vec::new();
        std::mem::swap(&mut displaced, &mut self.displaced_other);
        let ghost rest = StateModel { displaced_other: Seq::empty(), ..old(self)@ };
        assert(self@ =~= rest);
        let landable = self.landable_messages(tip);
        let safe = self.safe_at(tip);
        let keys = self.pending_other.keys();
        let ghost all = rest.displaced_others(tip);
        let mut shed: Vec<TxHash> = Vec::new();
        assert(shed@.to_set() =~= all.intersect(keys@.take(0).to_set()));
        let mut i: usize = 0;
        while i < keys.len()
            invariant
                i <= keys@.len(),
                self@ == rest,
                all == rest.displaced_others(tip),
                landable@ == rest.landable_at(tip),
                safe@ == rest.safe_at(tip),
                forall|j: int| 0 <= j < keys@.len() ==> self@.other.contains_key(#[trigger] keys@[j]),
                ascending(shed@),
                shed@.to_set() == all.intersect(keys@.take(i as int).to_set()),
            decreases keys@.len() - i,
        {
            let hash: TxHash = keys[i];
            proof {
                assert(self@.other.contains_key(keys@[i as int]));
                assert(keys@.take(i + 1) =~= keys@.take(i as int).push(hash));
                keys@.take(i as int).lemma_push_to_set_commute(hash);
            }
            let mut lost: bool = false;
            if let Some(other) = self.pending_other.get(&hash) {
                if let Some(parent) = other.first_parent() {
                    lost = !safe.contains(&hash) && !landable.contains(&parent);
                }
            }
            assert(lost == all.contains(hash));
            if lost {
                insert_sorted(&mut shed, hash);
            }
            assert(shed@.to_set() =~= all.intersect(keys@.take(i + 1).to_set()));
            i = i + 1;
        }
        proof {
            assert(keys@.take(i as int) =~= keys@);
            assert(self.pending_other@.dom() =~= self@.other.dom());
            assert(shed@.to_set() =~= all);
            lemma_sorted_seq_is(shed@);
        }
        let mut taken = self.take_all(&shed);
        displaced.append(&mut taken);
        displaced
    }

    /// Remove the config-carrying transactions whose config parent can no
    /// longer reach the config tip, and return them whole. One whose own config
    /// landed on this branch stays.
    pub fn shed_stale_pending_configs(&mut self, tip: HeaderId) -> (res: Vec<SignedOps>)
        ensures
            res@ == old(self)@.taken_out(sorted_seq(old(self)@.stale_configs(tip))),
            final(self)@ == old(self)@.without_all(sorted_seq(old(self)@.stale_configs(tip))),
    {
        let landable = self.landable_configs(self.config_tip_at(tip));
        let safe = self.safe_at(tip);
        let keys = self.pending_other.keys();
        let ghost rest = self@;
        let ghost all = rest.stale_configs(tip);
        let mut shed: Vec<TxHash> = Vec::new();
        assert(shed@.to_set() =~= all.intersect(keys@.take(0).to_set()));
        let mut i: usize = 0;
        while i < keys.len()
            invariant
                i <= keys@.len(),
                self@ == rest,
                all == rest.stale_configs(tip),
                landable@ == rest.landable_configs(rest.config_tip(tip)),
                safe@ == rest.safe_at(tip),
                forall|j: int| 0 <= j < keys@.len() ==> self@.other.contains_key(#[trigger] keys@[j]),
                ascending(shed@),
                shed@.to_set() == all.intersect(keys@.take(i as int).to_set()),
            decreases keys@.len() - i,
        {
            let hash: TxHash = keys[i];
            proof {
                assert(self@.other.contains_key(keys@[i as int]));
                assert(keys@.take(i + 1) =~= keys@.take(i as int).push(hash));
                keys@.take(i as int).lemma_push_to_set_commute(hash);
            }
            let mut lost: bool = false;
            if let Some(other) = self.pending_other.get(&hash) {
                let landed: bool = match other.last_config() {
                    Some(last_config) => landable.contains(&last_config),
                    None => false,
                };
                if let Some(parent) = other.config_parent() {
                    lost = !safe.contains(&hash) && !landed && !landable.contains(&parent);
                }
            }
            assert(lost == all.contains(hash));
            if lost {
                insert_sorted(&mut shed, hash);
            }
            assert(shed@.to_set() =~= all.intersect(keys@.take(i + 1).to_set()));
            i = i + 1;
        }
        proof {
            assert(keys@.take(i as int) =~= keys@);
            assert(self.pending_other@.dom() =~= self@.other.dom());
            assert(shed@.to_set() =~= all);
            lemma_sorted_seq_is(shed@);
        }
        self.take_all(&shed)
    }
}

} // verus!
