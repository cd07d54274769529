//! From a processed block to the channel update its consumer sees: the shed
//! passes, merged into what the chain orphaned.

use vstd::prelude::*;

use crate::collections::{sorted_seq, KeySet};
use crate::ids::{ChannelId, HeaderId, MsgId, TxHash};
use crate::mantle::SignedOps;
use crate::sequencer::block_event::{report_not_in, update_of, UpdateModel};
use crate::sequencer::block_fetch::{orphan_from_shed, orphan_report};
use crate::sequencer::channel_tx::{classify_shed_other, shed_other_report};
use crate::sequencer::events::ViewChange;
use crate::sequencer::state::lineage::ChannelUpdateInfo;
use crate::sequencer::state::TxState;
use crate::sequencer::state_model::StateModel;
use crate::sequencer::types::{ChannelUpdate, ChannelUpdateTx, PendingTx};

verus! {

pub open spec fn hash_of_report() -> spec_fn(ChannelUpdateTx) -> TxHash {
    |tx: ChannelUpdateTx| tx.spec_tx_hash()
}

/// The transactions that reports are about.
pub open spec fn reported(txs: Seq<ChannelUpdateTx>) -> Set<TxHash> {
    txs.map_values(hash_of_report()).to_set()
}

/// `more` appended to `first`, each transaction reported once.
pub open spec fn merged(first: Seq<ChannelUpdateTx>, more: Seq<ChannelUpdateTx>) -> Seq<
    ChannelUpdateTx,
>
    decreases more.len(),
{
    if more.len() == 0 {
        first
    } else {
        let list = merged(first, more.drop_last());
        if reported(list).contains(more.last().spec_tx_hash()) {
            list
        } else {
            list.push(more.last())
        }
    }
}

/// A merge reports no transaction of `more` twice, and leaves none of either
/// list out.
pub proof fn law_merged_reports_all(first: Seq<ChannelUpdateTx>, more: Seq<ChannelUpdateTx>)
    ensures
        reported(merged(first, more)) == reported(first).union(reported(more)),
        first.map_values(hash_of_report()).no_duplicates() ==> merged(first, more).map_values(
            hash_of_report(),
        ).no_duplicates(),
    decreases more.len(),
{
    let f = hash_of_report();
    if more.len() == 0 {
        assert(reported(more) =~= Set::empty());
        assert(reported(first).union(reported(more)) =~= reported(first));
    } else {
        law_merged_reports_all(first, more.drop_last());
        let list = merged(first, more.drop_last());
        let last = more.last();
        lemma_reported_push(more.drop_last(), last);
        assert(more.drop_last().push(last) =~= more);
        lemma_reported_push(list, last);
        assert(reported(merged(first, more)) =~= reported(first).union(reported(more)));
        if first.map_values(f).no_duplicates() && !reported(list).contains(last.spec_tx_hash()) {
            assert(list.push(last).map_values(f) =~= list.map_values(f).push(last.spec_tx_hash()));
            assert forall|i: int, j: int|
                0 <= i < j < list.push(last).map_values(f).len() implies list.push(last).map_values(
                f,
            )[i] != list.push(last).map_values(f)[j] by {
                if j == list.len() {
                    assert(list.map_values(f).to_set().contains(list.map_values(f)[i]));
                }
            }
        }
    }
}

pub proof fn lemma_reported_push(txs: Seq<ChannelUpdateTx>, tx: ChannelUpdateTx)
    ensures
        reported(txs.push(tx)) == reported(txs).insert(tx.spec_tx_hash()),
{
    let f = hash_of_report();
    assert(txs.push(tx).map_values(f) =~= txs.map_values(f).push(tx.spec_tx_hash()));
    txs.map_values(f).lemma_push_to_set_commute(tx.spec_tx_hash());
}

fn reported_hashes(txs: &Vec<ChannelUpdateTx>) -> (res: KeySet<TxHash>)
    ensures
        res@ == reported(txs@),
{
    let mut res: KeySet<TxHash> = KeySet::new();
    let mut i: usize = 0;
    assert(txs@.take(0).map_values(hash_of_report()) =~= Seq::empty());
    assert(res@ =~= reported(txs@.take(0)));
    while i < txs.len()
        invariant
            i <= txs@.len(),
            res@ == reported(txs@.take(i as int)),
        decreases txs@.len() - i,
    {
        proof {
            lemma_reported_push(txs@.take(i as int), txs@[i as int]);
            assert(txs@.take(i + 1) =~= txs@.take(i as int).push(txs@[i as int]));
        }
        let _ = res.insert(txs[i].tx_hash());
        i = i + 1;
    }
    assert(txs@.take(i as int) =~= txs@);
    res
}

fn push_unreported(list: &mut Vec<ChannelUpdateTx>, more: Vec<ChannelUpdateTx>)
    ensures
        final(list)@ == merged(old(list)@, more@),
{
    let ghost first = list@;
    let mut seen = reported_hashes(list);
    let mut i: usize = 0;
    while i < more.len()
        invariant
            i <= more@.len(),
            list@ == merged(first, more@.take(i as int)),
            seen@ == reported(list@),
        decreases more@.len() - i,
    {
        proof {
            assert(more@.take(i + 1).drop_last() =~= more@.take(i as int));
            lemma_reported_push(list@, more@[i as int]);
        }
        if seen.insert(more[i].tx_hash()) {
            list.push(more[i].clone());
        }
        i = i + 1;
    }
    assert(more@.take(i as int) =~= more@);
}

pub open spec fn report_of_other(channel_id: ChannelId) -> spec_fn(SignedOps) -> ChannelUpdateTx {
    |tx: SignedOps| shed_other_report(tx, channel_id)
}

fn reports_of_shed(shed: Vec<PendingTx>) -> (res: Vec<ChannelUpdateTx>)
    ensures
        res@ == shed@.map_values(orphan_report()),
{
    let mut res: Vec<ChannelUpdateTx> = Vec::new();
    let mut i: usize = 0;
    while i < shed.len()
        invariant
            i <= shed@.len(),
            res@.len() == i,
            forall|j: int| 0 <= j < i ==> #[trigger] res@[j] == orphan_report()(shed@[j]),
        decreases shed@.len() - i,
    {
        res.push(orphan_from_shed(shed[i].clone()));
        i = i + 1;
    }
    assert(res@ =~= shed@.map_values(orphan_report()));
    res
}

fn reports_of_others(shed: Vec<SignedOps>, channel_id: ChannelId) -> (res: Vec<ChannelUpdateTx>)
    ensures
        res@ == shed@.map_values(report_of_other(channel_id)),
{
    let mut res: Vec<ChannelUpdateTx> = Vec::new();
    let mut i: usize = 0;
    while i < shed.len()
        invariant
            i <= shed@.len(),
            res@.len() == i,
            forall|j: int|
                0 <= j < i ==> #[trigger] res@[j] == shed_other_report(shed@[j], channel_id),
        decreases shed@.len() - i,
    {
        res.push(classify_shed_other(shed[i].clone(), channel_id));
        i = i + 1;
    }
    assert(res@ =~= shed@.map_values(report_of_other(channel_id)));
    res
}

/// A state after a shed pass, and what the pass gave up.
#[verifier::ext_equal]
pub struct Shed {
    pub state: StateModel,
    pub orphaned: Seq<ChannelUpdateTx>,
}

/// The shed passes of a changed view, each on what the one before it left:
/// bundles whose inputs left the branch with their children, inscriptions
/// whose lineage no longer reaches the tip, and opaque transactions the same
/// way.
pub open spec fn shed_passes(m: StateModel, tip: HeaderId, channel_id: ChannelId) -> Shed {
    let lost = m.without_inputs(tip, channel_id);
    let m1 = m.drain(lost);
    let rest1 = StateModel { displaced: Seq::empty(), ..m1 };
    let m2 = rest1.drain(rest1.off_branch(tip));
    let rest2 = StateModel { displaced_other: Seq::empty(), ..m2 };
    let others = sorted_seq(rest2.displaced_others(tip));
    Shed {
        state: rest2.without_all(others),
        orphaned: (m.drained(lost) + (m1.displaced + rest1.drained(
            rest1.off_branch(tip),
        ))).map_values(orphan_report()) + (m2.displaced_other + rest2.taken_out(
            others,
        )).map_values(report_of_other(channel_id)),
    }
}

/// What the shed passes give up and what the chain orphaned, each transaction
/// once. The passes come first.
pub open spec fn orphans_of(shed: Shed, on_chain: Seq<ChannelUpdateTx>) -> Seq<ChannelUpdateTx> {
    merged(merged(Seq::empty(), shed.orphaned), on_chain)
}

/// Merges the shed passes into what the chain orphaned, each transaction once.
/// The passes come first.
pub fn shed_orphans(
    state: &mut TxState,
    tip: HeaderId,
    channel_id: ChannelId,
    on_chain: Vec<ChannelUpdateTx>,
) -> (res: Vec<ChannelUpdateTx>)
    ensures
        final(state)@ == shed_passes(old(state)@, tip, channel_id).state,
        res@ == orphans_of(shed_passes(old(state)@, tip, channel_id), on_chain@),
{
    let ghost m = state@;
    let mut shed = state.shed_bundles_with_missing_inputs(tip, channel_id);
    let mut off_branch = state.shed_off_branch_pending(tip);
    shed.append(&mut off_branch);
    let others = state.shed_off_branch_pending_other(tip);
    let mut given_up = reports_of_shed(shed);
    let mut other_reports = reports_of_others(others, channel_id);
    given_up.append(&mut other_reports);
    assert(given_up@ =~= shed_passes(m, tip, channel_id).orphaned);
    let mut orphaned: Vec<ChannelUpdateTx> = Vec::new();
    push_unreported(&mut orphaned, given_up);
    push_unreported(&mut orphaned, on_chain);
    orphaned
}

/// The state and the chaining pointer after a block, and the change of the
/// view that its consumer is told of.
#[verifier::ext_equal]
pub struct Outcome {
    pub state: StateModel,
    pub last_msg_id: MsgId,
    pub change: ViewChange,
}

/// An extension when nothing left the view; otherwise a conflict, whose prefix
/// is what of the old view is not orphaned.
pub open spec fn change_of(
    common_prefix: Seq<ChannelUpdateTx>,
    adopted: Seq<ChannelUpdateTx>,
    orphaned: Seq<ChannelUpdateTx>,
) -> ViewChange {
    if orphaned.len() == 0 {
        ViewChange::Extension { adopted }
    } else {
        ViewChange::Conflict {
            common_prefix: common_prefix.filter(report_not_in(reported(orphaned))),
            adopted,
            orphaned,
        }
    }
}

/// What of an update is adopted; nothing without one.
pub open spec fn adopted_of(update: Option<UpdateModel>) -> Seq<ChannelUpdateTx> {
    match update {
        Some(update) => update.adopted,
        None => Seq::empty(),
    }
}

/// The shed passes on an update of the view, and the new chaining pointer: the
/// channel tip with our pending tail. Without an update nothing happens.
pub open spec fn shed_on_update(
    m: StateModel,
    tip: HeaderId,
    last_msg_id: MsgId,
    channel_id: ChannelId,
    update: Option<UpdateModel>,
) -> (Shed, MsgId) {
    match update {
        None => (Shed { state: m, orphaned: Seq::empty() }, last_msg_id),
        Some(update) => {
            let shed = shed_passes(m, tip, channel_id);
            (
                Shed { state: shed.state, orphaned: orphans_of(shed, update.orphaned) },
                shed.state.publish_parent(tip),
            )
        },
    }
}

/// The pending configs superseded on the config lineage go too.
pub open spec fn shed_configs(shed: Shed, tip: HeaderId, channel_id: ChannelId) -> Shed {
    let stale = sorted_seq(shed.state.stale_configs(tip));
    Shed {
        state: shed.state.without_all(stale),
        orphaned: merged(
            shed.orphaned,
            shed.state.taken_out(stale).map_values(report_of_other(channel_id)),
        ),
    }
}

/// Whether the config tip moved since pending inscriptions were last held
/// against it.
pub open spec fn config_moved(m: StateModel, tip: HeaderId) -> bool {
    m.config_tip(tip) != m.observed_config_tip
}

/// What a moved config tip sheds: the pending inscriptions that are not mined
/// on the branch.
pub open spec fn shed_by_config(m: StateModel, tip: HeaderId) -> Seq<PendingTx> {
    if config_moved(m, tip) {
        let rest = StateModel { observed_config_tip: m.config_tip(tip), ..m };
        rest.drained(rest.pending.dom().difference(rest.safe_at(tip)))
    } else {
        Seq::empty()
    }
}

pub open spec fn after_config(m: StateModel, tip: HeaderId) -> StateModel {
    if config_moved(m, tip) {
        let rest = StateModel { observed_config_tip: m.config_tip(tip), ..m };
        rest.drain(rest.pending.dom().difference(rest.safe_at(tip)))
    } else {
        m
    }
}

/// What becomes of a processed block. Where a moved config shed anything, the
/// chaining pointer goes back to the message tip.
pub open spec fn outcome(
    m: StateModel,
    tip: HeaderId,
    last_msg_id: MsgId,
    channel_id: ChannelId,
    update: Option<UpdateModel>,
    common_prefix: Seq<ChannelUpdateTx>,
) -> Outcome {
    let (updated, pointer) = shed_on_update(m, tip, last_msg_id, channel_id, update);
    let configured = shed_configs(updated, tip, channel_id);
    let config_shed = shed_by_config(configured.state, tip);
    let state = after_config(configured.state, tip);
    let orphaned = merged(configured.orphaned, config_shed.map_values(orphan_report()));
    Outcome {
        state,
        last_msg_id: if config_shed.len() > 0 {
            state.channel_tip(tip)
        } else {
            pointer
        },
        change: change_of(common_prefix, adopted_of(update), orphaned),
    }
}

fn retain_unreported(txs: Vec<ChannelUpdateTx>, gone: &KeySet<TxHash>) -> (res: Vec<
    ChannelUpdateTx,
>)
    ensures
        res@ == txs@.filter(report_not_in(gone@)),
{
    let ghost keep = report_not_in(gone@);
    let mut res: Vec<ChannelUpdateTx> = Vec::new();
    let mut i: usize = 0;
    assert(txs@.take(0).filter(keep) =~= Seq::empty()) by {
        reveal(Seq::filter);
        assert(txs@.take(0) =~= Seq::empty());
    }
    while i < txs.len()
        invariant
            i <= txs@.len(),
            keep == report_not_in(gone@),
            res@ == txs@.take(i as int).filter(keep),
        decreases txs@.len() - i,
    {
        proof {
            assert(txs@.take(i + 1) =~= txs@.take(i as int).push(txs@[i as int]));
            Seq::lemma_filter_push(txs@.take(i as int), txs@[i as int], keep);
        }
        if !gone.contains(&txs[i].tx_hash()) {
            res.push(txs[i].clone());
        }
        i = i + 1;
    }
    assert(txs@.take(i as int) =~= txs@);
    res
}

fn channel_update_of(
    common_prefix: Vec<ChannelUpdateTx>,
    adopted: Vec<ChannelUpdateTx>,
    orphaned: Vec<ChannelUpdateTx>,
) -> (res: ChannelUpdate)
    ensures
        res@ == change_of(common_prefix@, adopted@, orphaned@),
{
    if orphaned.len() == 0 {
        ChannelUpdate::Extension { adopted }
    } else {
        let gone = reported_hashes(&orphaned);
        let common_prefix = retain_unreported(common_prefix, &gone);
        ChannelUpdate::Conflict { common_prefix, adopted, orphaned }
    }
}

/// Turns a processed block into the consumer's channel update: merges the shed
/// passes into what the chain orphaned, and moves the chaining pointer. The
/// update is an extension when nothing left the view and a conflict otherwise.
pub fn apply_block_result(
    state: &mut TxState,
    tip: HeaderId,
    last_msg_id: MsgId,
    channel_id: ChannelId,
    update: Option<ChannelUpdateInfo>,
    common_prefix: Vec<ChannelUpdateTx>,
) -> (res: (ChannelUpdate, MsgId))
    ensures
        ({
            let o = outcome(
                old(state)@,
                tip,
                last_msg_id,
                channel_id,
                update_of(update),
                common_prefix@,
            );
            &&& final(state)@ == o.state
            &&& res.0@ == o.change
            &&& res.1 == o.last_msg_id
        }),
        res.0@ matches ViewChange::Conflict { orphaned, .. } ==> orphaned.map_values(
            hash_of_report(),
        ).no_duplicates(),
{
    let ghost m = state@;
    let ghost model = update_of(update);
    let mut pointer = last_msg_id;
    let (adopted, orphaned) = match update {
        Some(update) => {
            let orphaned = shed_orphans(state, tip, channel_id, update.orphaned);
            pointer = state.publish_parent(tip);
            (update.adopted, orphaned)
        },
        None => (Vec::new(), Vec::new()),
    };
    let mut orphaned = orphaned;
    let ghost updated = shed_on_update(m, tip, last_msg_id, channel_id, model).0;
    assert(adopted@ =~= adopted_of(model));
    assert(orphaned@ =~= updated.orphaned && state@ == updated.state);

    let stale = state.shed_stale_pending_configs(tip);
    push_unreported(&mut orphaned, reports_of_others(stale, channel_id));
    let ghost configured = shed_configs(updated, tip, channel_id);
    assert(orphaned@ =~= configured.orphaned && state@ == configured.state);

    let config_shed = state.shed_pending_inscriptions_on_config(tip);
    assert(config_shed@ == shed_by_config(configured.state, tip));
    assert(state@ == after_config(configured.state, tip));
    let config_shed_any = config_shed.len() > 0;
    push_unreported(&mut orphaned, reports_of_shed(config_shed));
    if config_shed_any {
        pointer = state.channel_tip_at(tip);
    }
    proof {
        law_no_orphan_is_told_twice(m, tip, last_msg_id, channel_id, model, common_prefix@);
    }
    (channel_update_of(common_prefix, adopted, orphaned), pointer)
}

/// What a processed block orphans is told once each.
pub proof fn law_no_orphan_is_told_twice(
    m: StateModel,
    tip: HeaderId,
    last_msg_id: MsgId,
    channel_id: ChannelId,
    update: Option<UpdateModel>,
    common_prefix: Seq<ChannelUpdateTx>,
)
    ensures
        outcome(m, tip, last_msg_id, channel_id, update, common_prefix).change matches
            ViewChange::Conflict { orphaned, .. } ==> orphaned.map_values(
            hash_of_report(),
        ).no_duplicates(),
{
    let updated = shed_on_update(m, tip, last_msg_id, channel_id, update).0;
    let configured = shed_configs(updated, tip, channel_id);
    let stale = sorted_seq(updated.state.stale_configs(tip));
    let none = Seq::<ChannelUpdateTx>::empty();
    assert(none.map_values(hash_of_report()).no_duplicates());
    if let Some(update) = update {
        let shed = shed_passes(m, tip, channel_id);
        law_merged_reports_all(none, shed.orphaned);
        law_merged_reports_all(merged(none, shed.orphaned), update.orphaned);
    }
    law_merged_reports_all(
        updated.orphaned,
        updated.state.taken_out(stale).map_values(report_of_other(channel_id)),
    );
    law_merged_reports_all(
        configured.orphaned,
        shed_by_config(configured.state, tip).map_values(orphan_report()),
    );
}

/// The change of the view where there is no state to shed from.
pub fn change_without_state(
    update: Option<ChannelUpdateInfo>,
    common_prefix: Vec<ChannelUpdateTx>,
) -> (res: ChannelUpdate)
    ensures
        res@ == change_of(
            common_prefix@,
            adopted_of(update_of(update)),
            merged(
                Seq::empty(),
                match update_of(update) {
                    Some(update) => update.orphaned,
                    None => Seq::empty(),
                },
            ),
        ),
{
    let mut orphaned: Vec<ChannelUpdateTx> = Vec::new();
    let ghost none = orphaned@;
    assert(none =~= Seq::empty());
    match update {
        Some(update) => {
            push_unreported(&mut orphaned, update.orphaned);
            channel_update_of(common_prefix, update.adopted, orphaned)
        },
        None => {
            let adopted: Vec<ChannelUpdateTx> = Vec::new();
            assert(adopted@ =~= Seq::empty());
            channel_update_of(common_prefix, adopted, orphaned)
        },
    }
}

/// Nothing that left the view is in the prefix of a conflict.
pub proof fn law_prefix_holds_no_orphan(
    common_prefix: Seq<ChannelUpdateTx>,
    adopted: Seq<ChannelUpdateTx>,
    orphaned: Seq<ChannelUpdateTx>,
)
    ensures
        change_of(common_prefix, adopted, orphaned) is Extension <==> orphaned.len() == 0,
        change_of(common_prefix, adopted, orphaned) matches ViewChange::Conflict {
            common_prefix: prefix,
            ..
        } ==> forall|i: int|
            0 <= i < prefix.len() ==> !reported(orphaned).contains(
                (#[trigger] prefix[i]).spec_tx_hash(),
            ),
{
    if orphaned.len() > 0 {
        let keep = report_not_in(reported(orphaned));
        let prefix = common_prefix.filter(keep);
        assert forall|i: int| 0 <= i < prefix.len() implies !reported(orphaned).contains(
            (#[trigger] prefix[i]).spec_tx_hash(),
        ) by {
            broadcast use vstd::seq_lib::group_filter_ensures;

            assert(keep(prefix[i]));
        }
    }
}

/// The transaction of a report is told in a list.
pub open spec fn told_among(tx: ChannelUpdateTx, list: Seq<ChannelUpdateTx>) -> bool {
    exists|j: int| 0 <= j < list.len() && (#[trigger] list[j]).spec_tx_hash() == tx.spec_tx_hash()
}

/// A processed block tells its consumer everything that its update adopted, in
/// the update's order, and nothing else as adopted; without an update nothing.
/// All that the update orphaned is told as orphaned, and then it is a conflict.
pub proof fn law_consumer_is_told_all_that_was_adopted(
    m: StateModel,
    tip: HeaderId,
    last_msg_id: MsgId,
    channel_id: ChannelId,
    update: Option<UpdateModel>,
    common_prefix: Seq<ChannelUpdateTx>,
)
    ensures
        ({
            let change = outcome(m, tip, last_msg_id, channel_id, update, common_prefix).change;
            let told = match change {
                ViewChange::Extension { adopted } => adopted,
                ViewChange::Conflict { adopted, .. } => adopted,
            };
            match update {
                Some(update) => {
                    &&& told == update.adopted
                    &&& update.orphaned.len() > 0 ==> change is Conflict
                    &&& forall|i: int|
                        0 <= i < update.orphaned.len() ==> told_among(
                            #[trigger] update.orphaned[i],
                            change->orphaned,
                        )
                },
                None => told == Seq::<ChannelUpdateTx>::empty(),
            }
        }),
{
    let o = outcome(m, tip, last_msg_id, channel_id, update, common_prefix);
    if let Some(update) = update {
        let shed = shed_passes(m, tip, channel_id);
        let passes = merged(Seq::empty(), shed.orphaned);
        let updated = shed_on_update(m, tip, last_msg_id, channel_id, Some(update)).0;
        let configured = shed_configs(updated, tip, channel_id);
        let stale = sorted_seq(updated.state.stale_configs(tip));
        let others = updated.state.taken_out(stale).map_values(report_of_other(channel_id));
        let config_shed = shed_by_config(configured.state, tip).map_values(orphan_report());
        let all = merged(configured.orphaned, config_shed);
        law_merged_reports_all(passes, update.orphaned);
        law_merged_reports_all(updated.orphaned, others);
        law_merged_reports_all(configured.orphaned, config_shed);
        assert forall|i: int| 0 <= i < update.orphaned.len() implies o.change is Conflict
            && told_among(#[trigger] update.orphaned[i], o.change->orphaned) by {
            let hash = update.orphaned[i].spec_tx_hash();
            assert(update.orphaned.map_values(hash_of_report())[i] == hash);
            assert(reported(update.orphaned).contains(hash));
            assert(reported(all).contains(hash));
            let ids = all.map_values(hash_of_report());
            let j = ids.index_of(hash);
            assert(all[j].spec_tx_hash() == hash);
        }
        if update.orphaned.len() > 0 {
            assert(update.orphaned[0] == update.orphaned[0]);
        }
    }
}

/// What is left of the prefix in a processed block's conflict.
pub proof fn lemma_prefix_of_outcome(
    m: StateModel,
    tip: HeaderId,
    last_msg_id: MsgId,
    channel_id: ChannelId,
    update: Option<UpdateModel>,
    common_prefix: Seq<ChannelUpdateTx>,
)
    ensures
        outcome(m, tip, last_msg_id, channel_id, update, common_prefix).change matches
            ViewChange::Conflict { common_prefix: left, orphaned, .. } ==> left
            == common_prefix.filter(report_not_in(reported(orphaned))),
{
}

/// What is left of the prefix in a conflict is each report of it that is not of
/// an orphaned transaction, as often and in the order it had: a prefix in two
/// parts leaves what the parts leave, one after the other, and a report on its
/// own is left or not by its transaction alone. The lists of adopted and of
/// orphaned transactions are told as they are.
pub proof fn law_prefix_keeps_the_rest_in_order(
    front: Seq<ChannelUpdateTx>,
    back: Seq<ChannelUpdateTx>,
    tx: ChannelUpdateTx,
    adopted: Seq<ChannelUpdateTx>,
    orphaned: Seq<ChannelUpdateTx>,
)
    requires
        orphaned.len() > 0,
    ensures
        ({
            let whole = change_of(front + back, adopted, orphaned);
            let first = change_of(front, adopted, orphaned);
            let second = change_of(back, adopted, orphaned);
            let one = change_of(seq![tx], adopted, orphaned);
            let none = change_of(Seq::empty(), adopted, orphaned);
            &&& whole is Conflict && first is Conflict && second is Conflict && one is Conflict
                && none is Conflict
            &&& whole->Conflict_adopted == adopted && whole->orphaned == orphaned
            &&& whole->common_prefix == first->common_prefix + second->common_prefix
            &&& none->common_prefix == Seq::<ChannelUpdateTx>::empty()
            &&& one->common_prefix == if told_among(tx, orphaned) {
                Seq::empty()
            } else {
                seq![tx]
            }
        }),
{
    reveal(Seq::filter);
    let keep = report_not_in(reported(orphaned));
    Seq::filter_distributes_over_add(front, back, keep);
    let ids = orphaned.map_values(hash_of_report());
    let empty = Seq::<ChannelUpdateTx>::empty();
    assert(empty.filter(keep) =~= empty);
    assert(seq![tx].drop_last() =~= empty);
    assert(seq![tx].last() == tx);
    assert(empty.push(tx) =~= seq![tx]);
    if reported(orphaned).contains(tx.spec_tx_hash()) {
        let j = ids.index_of(tx.spec_tx_hash());
        assert(orphaned[j].spec_tx_hash() == tx.spec_tx_hash());
    } else {
        assert forall|j: int| 0 <= j < orphaned.len() implies (
        #[trigger] orphaned[j]).spec_tx_hash() != tx.spec_tx_hash() by {
            assert(ids[j] == orphaned[j].spec_tx_hash());
            assert(ids.contains(ids[j]));
        }
    }
}

/// A block that neither changes the view, nor leaves a stale config, nor moves
/// the config tip leaves the state and the chaining pointer as they are.
pub proof fn law_quiet_block_changes_nothing(
    m: StateModel,
    tip: HeaderId,
    last_msg_id: MsgId,
    channel_id: ChannelId,
    common_prefix: Seq<ChannelUpdateTx>,
)
    requires
        m.stale_configs(tip) == Set::<TxHash>::empty(),
        !config_moved(m, tip),
    ensures
        ({
            let o = outcome(m, tip, last_msg_id, channel_id, None, common_prefix);
            &&& o.state == m
            &&& o.last_msg_id == last_msg_id
            &&& o.change == ViewChange::Extension { adopted: Seq::empty() }
        }),
{
    let empty = Seq::<TxHash>::empty();
    assert(empty.to_set() =~= m.stale_configs(tip));
    crate::collections::lemma_sorted_seq_is::<TxHash>(empty);
    assert(m.taken_out(empty) =~= Seq::empty());
    assert(m.taken_out(empty).map_values(report_of_other(channel_id)) =~= Seq::empty());
    let keep = report_not_in(reported(Seq::<ChannelUpdateTx>::empty()));
    assert(Seq::<ChannelUpdateTx>::empty().filter(keep) =~= Seq::empty()) by {
        reveal(Seq::filter);
    }
    let updated = Shed { state: m, orphaned: Seq::<ChannelUpdateTx>::empty() };
    assert(shed_configs(updated, tip, channel_id) =~= updated);
    assert(Seq::<PendingTx>::empty().map_values(orphan_report()) =~= Seq::empty());
}

} // verus!
