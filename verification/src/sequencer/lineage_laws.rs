//! What the branch of a tip, the tips of both lineages and the channel view are
//! made of.

use vstd::prelude::*;

use crate::ids::{HeaderId, MsgId, NoteId, TxHash};
use crate::sequencer::channel_tx::BlockChannelTx;
use crate::sequencer::channel_wallet::{after_ops, keyed};
use crate::sequencer::state_laws::{lemma_filter_member, lemma_without_wf};
use crate::sequencer::state_model::{
    branch, last_config_tip, last_position, last_tip, lineage_entries, msg_in_neither, msg_of, msgs,
    note_id_of, with_new, StateModel,
};
use crate::sequencer::types::{ChannelNote, InscriptionInfo};
use crate::sequencer::wallet_laws::{
    law_ops_keep_notes_under_their_ids, law_views_are_the_notes_of_the_branch,
};

verus! {

// Branches.

proof fn lemma_branch(parents: Map<HeaderId, HeaderId>, lib: HeaderId, tip: HeaderId, fuel: nat)
    ensures
        ({
            let blocks = branch(parents, lib, tip, fuel);
            &&& 1 <= blocks.len() <= fuel + 1
            &&& blocks[0] == tip
            &&& forall|i: int|
                0 <= i < blocks.len() - 1 ==> {
                    &&& #[trigger] blocks[i] != lib
                    &&& parents.contains_key(blocks[i])
                    &&& blocks[i + 1] == parents[blocks[i]]
                }
            &&& blocks.len() <= fuel ==> blocks.last() == lib || !parents.contains_key(
                blocks.last(),
            )
        }),
    decreases fuel,
{
    if !(tip == lib || !parents.contains_key(tip) || fuel == 0) {
        let rest = branch(parents, lib, parents[tip], (fuel - 1) as nat);
        lemma_branch(parents, lib, parents[tip], (fuel - 1) as nat);
        let blocks = branch(parents, lib, tip, fuel);
        assert(blocks == seq![tip] + rest);
        assert forall|i: int| 0 <= i < blocks.len() - 1 implies {
            &&& #[trigger] blocks[i] != lib
            &&& parents.contains_key(blocks[i])
            &&& blocks[i + 1] == parents[blocks[i]]
        } by {
            if i > 0 {
                assert(blocks[i] == rest[i - 1]);
                assert(blocks[i + 1] == rest[i]);
            }
        }
        assert(blocks.last() == rest.last());
    }
}

/// A branch starts at the tip, goes from each block to its parent, and ends at
/// LIB or where no parent is known; only a loop among the known blocks cuts it
/// off. What of it is above LIB is the same blocks, oldest first, without LIB.
pub proof fn law_branch_follows_the_parents(m: StateModel, tip: HeaderId)
    ensures
        ({
            let blocks = m.branch(tip);
            let above = m.branch_above_lib(tip);
            &&& blocks.len() > 0 && blocks[0] == tip
            &&& forall|i: int|
                0 <= i < blocks.len() - 1 ==> {
                    &&& #[trigger] blocks[i] != m.lib
                    &&& m.parents.contains_key(blocks[i])
                    &&& blocks[i + 1] == m.parents[blocks[i]]
                }
            &&& blocks.last() == m.lib || !m.parents.contains_key(blocks.last()) || blocks.len()
                == m.parents.len() + 1
            &&& above.len() == if blocks.last() == m.lib {
                blocks.len() - 1
            } else {
                blocks.len() as int
            }
            &&& forall|i: int|
                0 <= i < above.len() ==> {
                    &&& #[trigger] above[i] == blocks[above.len() - 1 - i]
                    &&& above[i] != m.lib
                }
        }),
{
    lemma_branch(m.parents, m.lib, tip, m.parents.len());
    let blocks = m.branch(tip);
    let above = m.branch_above_lib(tip);
    assert forall|i: int| 0 <= i < above.len() implies {
        &&& #[trigger] above[i] == blocks[above.len() - 1 - i]
        &&& above[i] != m.lib
    } by {
        let k = above.len() - 1 - i;
        if k < blocks.len() - 1 {
            assert(blocks[k] != m.lib);
        }
    }
}

proof fn lemma_branch_fuel(
    parents: Map<HeaderId, HeaderId>,
    lib: HeaderId,
    tip: HeaderId,
    fuel: nat,
    more: nat,
)
    requires
        branch(parents, lib, tip, fuel).len() <= fuel,
        fuel <= more,
    ensures
        branch(parents, lib, tip, more) == branch(parents, lib, tip, fuel),
    decreases fuel,
{
    if !(tip == lib || !parents.contains_key(tip) || fuel == 0) {
        lemma_branch_fuel(parents, lib, parents[tip], (fuel - 1) as nat, (more - 1) as nat);
    }
}

/// What is mined on a branch is what is mined up to the parent of the tip,
/// followed by the entries of the tip's block: those of its transactions one
/// after the other, of each the messages and then the configs.
pub proof fn law_mined_grows_block_by_block(m: StateModel, tip: HeaderId, i: int)
    requires
        m.branch(tip).len() <= m.parents.len(),
        tip != m.lib,
        m.parents.contains_key(tip),
    ensures
        m.mined(tip) == m.mined(m.parents[tip]) + m.txs_at(tip).flat_map(lineage_entries()),
        0 <= i < m.txs_at(tip).len() ==> m.txs_at(tip).take(i + 1).flat_map(lineage_entries())
            == m.txs_at(tip).take(i).flat_map(lineage_entries()) + m.txs_at(tip)[i].spec_infos()
            + m.txs_at(tip)[i].spec_config_entries(),
{
    let n = m.parents.len();
    let f = m.entries_at();
    let rest = branch(m.parents, m.lib, m.parents[tip], (n - 1) as nat);
    assert(m.branch(tip) == seq![tip] + rest);
    lemma_branch_fuel(m.parents, m.lib, m.parents[tip], (n - 1) as nat, n);
    assert(m.branch(tip).reverse() =~= rest.reverse().push(tip));
    rest.reverse().lemma_flat_map_push(f, tip);
    if 0 <= i < m.txs_at(tip).len() {
        m.txs_at(tip).lemma_flat_map_take_append(lineage_entries(), i);
        let head = m.txs_at(tip).take(i).flat_map(lineage_entries());
        let tx = m.txs_at(tip)[i];
        assert(head + (tx.spec_infos() + tx.spec_config_entries()) =~= head + tx.spec_infos()
            + tx.spec_config_entries());
    }
}

// Tips.

proof fn lemma_last_tip(txs: Seq<BlockChannelTx>, t: int)
    ensures
        (forall|k: int| 0 <= k < txs.len() ==> (#[trigger] txs[k]).spec_infos().len() == 0)
            ==> last_tip(txs) is None,
        0 <= t < txs.len() && txs[t].spec_infos().len() > 0 && (forall|k: int|
            t < k < txs.len() ==> (#[trigger] txs[k]).spec_infos().len() == 0) ==> last_tip(txs)
            == Some(txs[t].spec_infos().last()),
    decreases txs.len(),
{
    if txs.len() > 0 {
        let front = txs.drop_last();
        lemma_last_tip(front, t);
        assert(txs[txs.len() - 1] == txs.last());
        assert forall|k: int| 0 <= k < front.len() implies front[k] == #[trigger] txs[k] by {
        }
    }
}

proof fn lemma_last_config_tip(txs: Seq<BlockChannelTx>, t: int)
    ensures
        (forall|k: int|
            0 <= k < txs.len() ==> (#[trigger] txs[k]).spec_config_entries().len() == 0)
            ==> last_config_tip(txs) is None,
        0 <= t < txs.len() && txs[t].spec_config_entries().len() > 0 && (forall|k: int|
            t < k < txs.len() ==> (#[trigger] txs[k]).spec_config_entries().len() == 0)
            ==> last_config_tip(txs) == Some(txs[t].spec_config_entries().last()),
    decreases txs.len(),
{
    if txs.len() > 0 {
        let front = txs.drop_last();
        lemma_last_config_tip(front, t);
        assert(txs[txs.len() - 1] == txs.last());
        assert forall|k: int| 0 <= k < front.len() implies front[k] == #[trigger] txs[k] by {
        }
    }
}

/// A block has no transaction that writes a message.
pub open spec fn writes_nothing(m: StateModel, block: HeaderId) -> bool {
    forall|k: int|
        0 <= k < m.txs_at(block).len() ==> (#[trigger] m.txs_at(block)[k]).spec_infos().len() == 0
}

/// A block has no transaction with a config.
pub open spec fn configures_nothing(m: StateModel, block: HeaderId) -> bool {
    forall|k: int|
        0 <= k < m.txs_at(block).len() ==> (
        #[trigger] m.txs_at(block)[k]).spec_config_entries().len() == 0
}

proof fn lemma_tip_entry_in(m: StateModel, blocks: Seq<HeaderId>, b: int, t: int)
    ensures
        (forall|k: int| 0 <= k < blocks.len() ==> writes_nothing(m, #[trigger] blocks[k]))
            ==> m.tip_entry_in(blocks) is None,
        0 <= b < blocks.len() && 0 <= t < m.txs_at(blocks[b]).len() && m.txs_at(
            blocks[b],
        )[t].spec_infos().len() > 0 && (forall|k: int|
            0 <= k < b ==> writes_nothing(m, #[trigger] blocks[k])) && (forall|k: int|
            t < k < m.txs_at(blocks[b]).len() ==> (
            #[trigger] m.txs_at(blocks[b])[k]).spec_infos().len() == 0) ==> m.tip_entry_in(blocks)
            == Some(m.txs_at(blocks[b])[t].spec_infos().last()),
    decreases blocks.len(),
{
    if blocks.len() > 0 {
        let rest = blocks.drop_first();
        lemma_tip_entry_in(m, rest, b - 1, t);
        lemma_last_tip(m.txs_at(blocks[0]), t);
        assert forall|k: int| 0 <= k < rest.len() implies #[trigger] rest[k] == blocks[k + 1] by {
        }
        if b > 0 && b < blocks.len() {
            assert(rest[b - 1] == blocks[b]);
        }
    }
}

proof fn lemma_config_entry_in(m: StateModel, blocks: Seq<HeaderId>, b: int, t: int)
    ensures
        (forall|k: int| 0 <= k < blocks.len() ==> configures_nothing(m, #[trigger] blocks[k]))
            ==> m.config_entry_in(blocks) is None,
        0 <= b < blocks.len() && 0 <= t < m.txs_at(blocks[b]).len() && m.txs_at(
            blocks[b],
        )[t].spec_config_entries().len() > 0 && (forall|k: int|
            0 <= k < b ==> configures_nothing(m, #[trigger] blocks[k])) && (forall|k: int|
            t < k < m.txs_at(blocks[b]).len() ==> (
            #[trigger] m.txs_at(blocks[b])[k]).spec_config_entries().len() == 0)
            ==> m.config_entry_in(blocks) == Some(
            m.txs_at(blocks[b])[t].spec_config_entries().last(),
        ),
    decreases blocks.len(),
{
    if blocks.len() > 0 {
        let rest = blocks.drop_first();
        lemma_config_entry_in(m, rest, b - 1, t);
        lemma_last_config_tip(m.txs_at(blocks[0]), t);
        assert forall|k: int| 0 <= k < rest.len() implies #[trigger] rest[k] == blocks[k + 1] by {
        }
        if b > 0 && b < blocks.len() {
            assert(rest[b - 1] == blocks[b]);
        }
    }
}

/// The channel tip is the last message of the last transaction that writes one
/// in the newest block of the branch that has one; the finalized message where
/// none has.
pub proof fn law_channel_tip_is_the_newest_message(m: StateModel, tip: HeaderId, b: int, t: int)
    ensures
        ({
            let blocks = m.branch(tip);
            &&& (forall|k: int| 0 <= k < blocks.len() ==> writes_nothing(m, #[trigger] blocks[k]))
                ==> m.channel_tip(tip) == m.finalized_msg
            &&& 0 <= b < blocks.len() && 0 <= t < m.txs_at(blocks[b]).len() && m.txs_at(
                blocks[b],
            )[t].spec_infos().len() > 0 && (forall|k: int|
                0 <= k < b ==> writes_nothing(m, #[trigger] blocks[k])) && (forall|k: int|
                t < k < m.txs_at(blocks[b]).len() ==> (
                #[trigger] m.txs_at(blocks[b])[k]).spec_infos().len() == 0) ==> m.channel_tip(tip)
                == m.txs_at(blocks[b])[t].spec_infos().last().this_msg
        }),
{
    lemma_tip_entry_in(m, m.branch(tip), b, t);
}

/// The config tip is the last config of the last transaction with one in the
/// newest block of the branch that has one; the finalized config where none
/// has.
pub proof fn law_config_tip_is_the_newest_config(m: StateModel, tip: HeaderId, b: int, t: int)
    ensures
        ({
            let blocks = m.branch(tip);
            &&& (forall|k: int|
                0 <= k < blocks.len() ==> configures_nothing(m, #[trigger] blocks[k]))
                ==> m.config_tip(tip) == m.finalized_config
            &&& 0 <= b < blocks.len() && 0 <= t < m.txs_at(blocks[b]).len() && m.txs_at(
                blocks[b],
            )[t].spec_config_entries().len() > 0 && (forall|k: int|
                0 <= k < b ==> configures_nothing(m, #[trigger] blocks[k])) && (forall|k: int|
                t < k < m.txs_at(blocks[b]).len() ==> (
                #[trigger] m.txs_at(blocks[b])[k]).spec_config_entries().len() == 0)
                ==> m.config_tip(tip) == m.txs_at(
                blocks[b],
            )[t].spec_config_entries().last().this_msg
        }),
{
    lemma_config_entry_in(m, m.branch(tip), b, t);
}

/// When LIB moves, the finalized message and config are the tips at the new
/// LIB, and the parent of the finalized message is kept with it.
pub proof fn law_finalized_tips_are_those_at_lib(m: StateModel, lib: HeaderId)
    ensures
        ({
            let n = m.advance_lib(lib);
            &&& n.lib == lib
            &&& n.finalized_msg == m.channel_tip(lib)
            &&& n.finalized_config == m.config_tip(lib)
            &&& match m.tip_entry(lib) {
                Some(entry) => n.finalized_msg == entry.this_msg && n.finalized_parent_msg == Some(
                    entry.parent_msg,
                ),
                None => n.finalized_parent_msg == m.finalized_parent_msg,
            }
            &&& n.pending == m.pending && n.other == m.other && n.by_parent == m.by_parent
            &&& n.wallet.base == m.wallet.base
        }),
{
}

// The view.

proof fn lemma_msgs_push(infos: Seq<InscriptionInfo>, info: InscriptionInfo)
    ensures
        msgs(infos.push(info)) == msgs(infos).insert(info.this_msg),
{
    assert(infos.push(info).map_values(msg_of()) =~= infos.map_values(msg_of()).push(
        info.this_msg,
    ));
    infos.map_values(msg_of()).lemma_push_to_set_commute(info.this_msg);
}

/// Putting entries behind a lineage keeps the lineage in front, adds each entry
/// whose message is not there yet and no other, and takes them in order.
pub proof fn law_new_entries_go_behind(
    lineage: Seq<InscriptionInfo>,
    first: Seq<InscriptionInfo>,
    rest: Seq<InscriptionInfo>,
    info: InscriptionInfo,
)
    ensures
        with_new(lineage, first + rest) == with_new(with_new(lineage, first), rest),
        with_new(lineage, seq![info]) == if msgs(lineage).contains(info.this_msg) {
            lineage
        } else {
            lineage.push(info)
        },
        lineage.is_prefix_of(with_new(lineage, first)),
        msgs(with_new(lineage, first)) == msgs(lineage).union(msgs(first)),
    decreases first.len() + rest.len(),
{
    let none = Seq::<InscriptionInfo>::empty();
    assert(seq![info].drop_last() =~= none);
    assert(seq![info].last() == info);
    assert(with_new(lineage, seq![info].drop_last()) == lineage);
    assert(none.map_values(msg_of()) =~= Seq::empty());
    assert(msgs(none) =~= Set::empty());
    if rest.len() > 0 {
        law_new_entries_go_behind(lineage, first, rest.drop_last(), info);
        assert((first + rest).drop_last() =~= first + rest.drop_last());
        assert((first + rest).last() == rest.last());
    } else {
        assert(first + rest =~= first);
        if first.len() > 0 {
            let front = first.drop_last();
            law_new_entries_go_behind(lineage, front, rest, info);
            assert(front.push(first.last()) =~= first);
            lemma_msgs_push(front, first.last());
            lemma_msgs_push(with_new(lineage, front), first.last());
            assert(msgs(with_new(lineage, first)) =~= msgs(lineage).union(msgs(first)));
        } else {
            assert(first =~= none);
            assert(msgs(lineage) =~= msgs(lineage).union(msgs(first)));
        }
    }
    if first.len() > 0 {
        law_new_entries_go_behind(lineage, first.drop_last(), Seq::empty(), info);
        let front = first.drop_last();
        assert(front.push(first.last()) =~= first);
        lemma_msgs_push(front, first.last());
        lemma_msgs_push(with_new(lineage, front), first.last());
        assert(msgs(with_new(lineage, first)) =~= msgs(lineage).union(msgs(first)));
    } else {
        assert(first =~= none);
        assert(msgs(lineage) =~= msgs(lineage).union(msgs(first)));
    }
}

/// The channel view is what is mined, as it is, and behind it what is pending on
/// both lineages: each message of the three is in it.
pub proof fn law_view_is_mined_then_pending(m: StateModel, tip: HeaderId)
    ensures
        m.mined(tip).is_prefix_of(m.lineage(tip)),
        msgs(m.lineage(tip)) == msgs(m.mined(tip)).union(
            msgs(m.suffix(m.channel_tip(tip)) + m.config_suffix(m.config_tip(tip))),
        ),
        m.lineage(tip) == with_new(
            with_new(m.mined(tip), m.suffix(m.channel_tip(tip))),
            m.config_suffix(m.config_tip(tip)),
        ),
{
    let pending = m.suffix(m.channel_tip(tip));
    let configs = m.config_suffix(m.config_tip(tip));
    lemma_view_parts(m.mined(tip), pending, configs);
}

proof fn lemma_view_parts(
    mined: Seq<InscriptionInfo>,
    pending: Seq<InscriptionInfo>,
    configs: Seq<InscriptionInfo>,
)
    ensures
        mined.is_prefix_of(with_new(mined, pending + configs)),
        msgs(with_new(mined, pending + configs)) == msgs(mined).union(msgs(pending + configs)),
        with_new(mined, pending + configs) == with_new(with_new(mined, pending), configs),
{
    let info = arbitrary::<InscriptionInfo>();
    law_new_entries_go_behind(mined, pending, configs, info);
    law_new_entries_go_behind(mined, pending + configs, Seq::empty(), info);
}

proof fn lemma_last_position_is(
    lineage: Seq<InscriptionInfo>,
    n: int,
    matching: spec_fn(InscriptionInfo) -> bool,
)
    requires
        0 <= n <= lineage.len(),
    ensures
        ({
            let p = last_position(lineage, n, matching);
            &&& -1 <= p < n || (p == -1 && n == 0)
            &&& p >= 0 ==> matching(lineage[p])
            &&& forall|k: int| p < k < n ==> !matching(#[trigger] lineage[k])
        }),
    decreases n,
{
    if n > 0 && !matching(lineage[n - 1]) {
        lemma_last_position_is(lineage, n - 1, matching);
    }
}

/// An entry is the finalized message, as it is known with its parent, or the
/// finalized config.
pub open spec fn is_boundary(m: StateModel, info: InscriptionInfo) -> bool {
    (info.this_msg == m.finalized_msg && m.finalized_parent_msg == Some(info.parent_msg))
        || info.this_msg == m.finalized_config
}

/// What a lineage has finalized is the entries up to the last one that is the
/// finalized message or config: an id is finalized there exactly where an entry
/// of it has such an entry at or behind it.
pub proof fn law_finalized_prefix_ends_at_the_boundary(
    m: StateModel,
    lineage: Seq<InscriptionInfo>,
    msg: MsgId,
)
    ensures
        m.finalized_prefix(lineage).contains(msg) <==> exists|i: int, j: int|
            0 <= i <= j < lineage.len() && (#[trigger] lineage[i]).this_msg == msg && is_boundary(
                m,
                #[trigger] lineage[j],
            ),
{
    let n = lineage.len() as int;
    lemma_last_position_is(lineage, n, m.is_finalized_msg());
    lemma_last_position_is(lineage, n, m.is_finalized_config());
    let b = m.boundary(lineage);
    let part = lineage.take(b + 1);
    let ids = part.map_values(msg_of());
    if m.finalized_prefix(lineage).contains(msg) {
        let i = ids.index_of(msg);
        assert(lineage[i].this_msg == msg);
        assert(is_boundary(m, lineage[b]));
    }
    if exists|i: int, j: int|
        0 <= i <= j < lineage.len() && (#[trigger] lineage[i]).this_msg == msg && is_boundary(
            m,
            #[trigger] lineage[j],
        ) {
        let (i, j) = choose|i: int, j: int|
            0 <= i <= j < lineage.len() && (#[trigger] lineage[i]).this_msg == msg && is_boundary(
                m,
                #[trigger] lineage[j],
            );
        if j > b {
            assert(!m.is_finalized_msg()(lineage[j]));
            assert(!m.is_finalized_config()(lineage[j]));
        }
        assert(ids[i] == msg);
        assert(ids.contains(msg));
    }
}

/// `part` is entries of `whole` in its order: strictly rising positions give
/// them.
pub open spec fn in_its_order<A>(part: Seq<A>, whole: Seq<A>) -> bool {
    exists|at: Seq<int>| #[trigger] rises_through(part, whole, at)
}

pub open spec fn rises_through<A>(part: Seq<A>, whole: Seq<A>, at: Seq<int>) -> bool {
    &&& at.len() == part.len()
    &&& forall|i: int|
        0 <= i < at.len() ==> 0 <= #[trigger] at[i] < whole.len() && part[i] == whole[at[i]]
    &&& forall|i: int, j: int| 0 <= i < j < at.len() ==> #[trigger] at[i] < #[trigger] at[j]
}

pub proof fn lemma_filter_in_order<A>(whole: Seq<A>, keep: spec_fn(A) -> bool) -> (at: Seq<int>)
    ensures
        rises_through(whole.filter(keep), whole, at),
    decreases whole.len(),
{
    reveal(Seq::filter);
    if whole.len() == 0 {
        Seq::empty()
    } else {
        let front = whole.drop_last();
        let before = lemma_filter_in_order(front, keep);
        if keep(whole.last()) {
            let at = before.push(whole.len() - 1);
            assert(rises_through(whole.filter(keep), whole, at));
            at
        } else {
            before
        }
    }
}

/// What entered the view is exactly the entries of the new lineage that are
/// neither in the old one nor finalized; what left it is exactly those of the
/// old one that are neither in the new one nor finalized; both in their order.
pub proof fn law_adopted_and_orphaned_are_all_of_them(
    m: StateModel,
    old_lineage: Seq<InscriptionInfo>,
    tip: HeaderId,
    finalized_now: Set<MsgId>,
    info: InscriptionInfo,
)
    ensures
        ({
            let lineage = m.lineage(tip);
            let adopted = m.adopted_infos(old_lineage, tip, finalized_now);
            let orphaned = m.orphaned_infos(old_lineage, tip, finalized_now);
            let finalized = finalized_now.contains(info.this_msg) || m.finalized_prefix(
                old_lineage,
            ).contains(info.this_msg) || m.finalized_prefix(lineage).contains(info.this_msg);
            &&& adopted.contains(info) <==> lineage.contains(info) && !finalized && !msgs(
                old_lineage,
            ).contains(info.this_msg)
            &&& orphaned.contains(info) <==> old_lineage.contains(info) && !finalized && !msgs(
                lineage,
            ).contains(info.this_msg)
            &&& in_its_order(adopted, lineage)
            &&& in_its_order(orphaned, old_lineage)
        }),
{
    let lineage = m.lineage(tip);
    let settled = m.settled_ids(old_lineage, lineage, finalized_now);
    let fresh = msg_in_neither(msgs(old_lineage), settled);
    let left = msg_in_neither(msgs(lineage), settled);
    lemma_filter_member(lineage, fresh, info);
    lemma_filter_member(old_lineage, left, info);
    let a = lemma_filter_in_order(lineage, fresh);
    let b = lemma_filter_in_order(old_lineage, left);
    assert(rises_through(lineage.filter(fresh), lineage, a));
    assert(rises_through(old_lineage.filter(left), old_lineage, b));
}

// Notes.

/// The notes at a tip are those that the notes at LIB become under the branch.
pub proof fn law_notes_at_a_tip_are_those_of_the_branch(m: StateModel, tip: HeaderId, id: NoteId)
    requires
        keyed(m.wallet.base),
    ensures
        m.notes_at(tip).contains(id) <==> after_ops(
            m.wallet.base,
            m.wallet.branch_ops(m.branch_above_lib(tip)),
        ).contains_key(id),
{
    let blocks = m.branch_above_lib(tip);
    let ops = m.wallet.branch_ops(blocks);
    let kept = m.wallet.finalized_on(blocks);
    let made = m.wallet.unfinalized_on(blocks);
    law_views_are_the_notes_of_the_branch(m.wallet.base, ops);
    law_ops_keep_notes_under_their_ids(Map::empty(), ops, Seq::empty());
    assert(keyed(kept));
    assert(keyed(made));
    let all = after_ops(m.wallet.base, ops);
    assert(all.contains_key(id) <==> kept.contains_key(id) || made.contains_key(id));
    if kept.contains_key(id) {
        assert(kept.values().contains(kept[id]));
        assert(note_id_of()(kept[id]) == id);
        assert(kept.values().map(note_id_of()).contains(id));
    }
    if made.contains_key(id) {
        assert(made.values().contains(made[id]));
        assert(note_id_of()(made[id]) == id);
        assert(made.values().map(note_id_of()).contains(id));
    }
    if kept.values().map(note_id_of()).contains(id) {
        let note = choose|note: ChannelNote|
            kept.values().contains(note) && #[trigger] note_id_of()(note) == id;
        let key = choose|key: NoteId| #[trigger] kept.contains_key(key) && kept[key] == note;
        assert(key == id);
    }
    if made.values().map(note_id_of()).contains(id) {
        let note = choose|note: ChannelNote|
            made.values().contains(note) && #[trigger] note_id_of()(note) == id;
        let key = choose|key: NoteId| #[trigger] made.contains_key(key) && made[key] == note;
        assert(key == id);
    }
}

// Displacing.

/// Making room in the pending chain loses nothing: a transaction that was held
/// is held as it was, or waits to be reported; and what waited still waits,
/// in front.
pub proof fn law_displaced_is_kept_for_the_report(m: StateModel, head: TxHash, hash: TxHash)
    requires
        m.wf(),
    ensures
        ({
            let n = m.displace(head);
            &&& m.displaced.is_prefix_of(n.displaced)
            &&& m.displaced_other.is_prefix_of(n.displaced_other)
            &&& m.pending.contains_key(hash) ==> (n.pending.contains_key(hash) && n.pending[hash]
                == m.pending[hash]) || n.displaced.skip(m.displaced.len() as int).contains(
                m.pending[hash].report(),
            )
            &&& m.other.contains_key(hash) && !m.pending.contains_key(hash) ==> (
            n.other.contains_key(hash) && n.other[hash] == m.other[hash])
                || n.displaced_other.skip(m.displaced_other.len() as int).contains(
                m.other[hash].signed_tx,
            )
            &&& n.pending.dom().subset_of(m.pending.dom())
            &&& n.other.dom().subset_of(m.other.dom())
            &&& m.is_tracked(head) ==> !n.pending.contains_key(head)
        }),
    decreases m.pending.len() + m.other.len(),
{
    let n = m.displace(head);
    if m.is_tracked(head) {
        lemma_without_wf(m, head);
        let rest = if m.pending.contains_key(head) {
            StateModel { displaced: m.displaced.push(m.pending[head].report()), ..m.without(head) }
        } else {
            StateModel {
                displaced_other: m.displaced_other.push(m.other[head].signed_tx),
                ..m.without(head)
            }
        };
        assert(rest.displaced.skip(m.displaced.len() as int).contains(m.pending[head].report()) || !m.pending.contains_key(head)) by {
            if m.pending.contains_key(head) {
                assert(rest.displaced.skip(m.displaced.len() as int)[0] == m.pending[head].report());
            }
        }
        assert(rest.displaced_other.skip(m.displaced_other.len() as int).contains(m.other[head].signed_tx) || m.pending.contains_key(head)) by {
            if !m.pending.contains_key(head) {
                assert(rest.displaced_other.skip(m.displaced_other.len() as int)[0] == m.other[head].signed_tx);
            }
        }
        let goes_on = match m.tip_of(head) {
            Some(tip) => m.child(tip),
            None => None,
        };
        if let Some(next) = goes_on {
            law_displaced_is_kept_for_the_report(rest, next, hash);
            lemma_skip_holds(m.displaced, rest.displaced, n.displaced);
            lemma_skip_holds(m.displaced_other, rest.displaced_other, n.displaced_other);
        }
    }
}

/// What was put behind a list stands there still when more is put behind.
proof fn lemma_skip_holds<A>(a: Seq<A>, b: Seq<A>, c: Seq<A>)
    requires
        a.is_prefix_of(b),
        b.is_prefix_of(c),
    ensures
        a.is_prefix_of(c),
        forall|x: A| #[trigger]
            b.skip(a.len() as int).contains(x) ==> c.skip(a.len() as int).contains(x),
        forall|x: A| #[trigger]
            c.skip(b.len() as int).contains(x) ==> c.skip(a.len() as int).contains(x),
{
    let k = a.len() as int;
    let l = b.len() as int;
    assert(a =~= c.take(k)) by {
        assert(b =~= c.take(l));
    }
    assert forall|x: A| #[trigger] b.skip(k).contains(x) implies c.skip(k).contains(x) by {
        let i = b.skip(k).index_of(x);
        assert(c.take(l)[k + i] == b[k + i]);
        assert(c.skip(k)[i] == x);
    }
    assert forall|x: A| #[trigger] c.skip(l).contains(x) implies c.skip(k).contains(x) by {
        let i = c.skip(l).index_of(x);
        assert(c.skip(k)[l - k + i] == x);
    }
}

} // verus!
