//! What holds of the plain tracker, of the entries of a block, and of what an
//! indexer reads.

use vstd::prelude::*;

use crate::ids::{ChannelId, HeaderId, MsgId, TxHash};
use crate::indexer::{zone_block_on, zone_blocks_of_tx};
use crate::inscriptions::{block_entries, entries_after_ops};
use crate::mantle::{Op, SignedOps};
use crate::sequencer::shape_laws::{count, lemma_flat_map_add, lemma_read, writes};
use crate::sequencer::state_model::branch;
use crate::sequencer::types::InscriptionInfo;
use crate::state::{from_parent, inscribes, inscription_at, last_common, Model};

verus! {

// Tips.

proof fn lemma_tip_in(m: Model, blocks: Seq<HeaderId>, b: int)
    ensures
        (forall|k: int|
            0 <= k < blocks.len() ==> m.inscriptions_at()(#[trigger] blocks[k]).len() == 0)
            ==> m.tip_in(blocks) == m.finalized_msg,
        0 <= b < blocks.len() && m.inscriptions_at()(blocks[b]).len() > 0 && (forall|k: int|
            0 <= k < b ==> m.inscriptions_at()(#[trigger] blocks[k]).len() == 0) ==> m.tip_in(
            blocks,
        ) == m.inscriptions_at()(blocks[b]).last().this_msg,
    decreases blocks.len(),
{
    if blocks.len() > 0 {
        let rest = blocks.drop_first();
        lemma_tip_in(m, rest, b - 1);
        assert forall|k: int| 0 <= k < rest.len() implies #[trigger] rest[k] == blocks[k + 1] by {
        }
    }
}

/// The channel tip is the last inscription of the newest block of the branch
/// that has one; the irreversible one where none has.
pub proof fn law_tip_is_the_newest_inscription(m: Model, tip: HeaderId, b: int)
    ensures
        ({
            let blocks = m.branch(tip);
            &&& (forall|k: int|
                0 <= k < blocks.len() ==> m.inscriptions_at()(#[trigger] blocks[k]).len() == 0)
                ==> m.channel_tip(tip) == m.finalized_msg
            &&& 0 <= b < blocks.len() && m.inscriptions_at()(blocks[b]).len() > 0 && (forall|k: int|
                0 <= k < b ==> m.inscriptions_at()(#[trigger] blocks[k]).len() == 0)
                ==> m.channel_tip(tip) == m.inscriptions_at()(blocks[b]).last().this_msg
        }),
{
    lemma_tip_in(m, m.branch(tip), b);
}

proof fn lemma_fuel(
    parents: Map<HeaderId, HeaderId>,
    lib: HeaderId,
    tip: HeaderId,
    fuel: nat,
    more: nat,
)
    requires
        branch(parents, lib, tip, fuel).len() <= fuel,
        fuel <= more,
    ensures
        branch(parents, lib, tip, more) == branch(parents, lib, tip, fuel),
    decreases fuel,
{
    if !(tip == lib || !parents.contains_key(tip) || fuel == 0) {
        lemma_fuel(parents, lib, parents[tip], (fuel - 1) as nat, (more - 1) as nat);
    }
}

/// The inscriptions on a branch are those up to the parent of the tip, followed
/// by those of the tip's block.
pub proof fn law_branch_grows_block_by_block(m: Model, tip: HeaderId)
    requires
        m.branch(tip).len() <= m.parents.len(),
        tip != m.lib,
        m.parents.contains_key(tip),
    ensures
        m.on_branch(tip) == m.on_branch(m.parents[tip]) + m.inscriptions_at()(tip),
{
    let n = m.parents.len();
    let rest = branch(m.parents, m.lib, m.parents[tip], (n - 1) as nat);
    assert(m.branch(tip) == seq![tip] + rest);
    lemma_fuel(m.parents, m.lib, m.parents[tip], (n - 1) as nat, n);
    assert(m.branch(tip).reverse() =~= rest.reverse().push(tip));
    rest.reverse().lemma_flat_map_push(m.inscriptions_at(), tip);
}

// Updates.

proof fn lemma_last_common(
    old_branch: Seq<InscriptionInfo>,
    new_chain: Set<MsgId>,
    otherwise: MsgId,
    i: int,
)
    ensures
        0 <= i < old_branch.len() && new_chain.contains(old_branch[i].this_msg) && (forall|k: int|
            i < k < old_branch.len() ==> !new_chain.contains(
                (#[trigger] old_branch[k]).this_msg,
            )) ==> last_common(old_branch, new_chain, otherwise) == old_branch[i].this_msg,
        (forall|k: int|
            0 <= k < old_branch.len() ==> !new_chain.contains((#[trigger] old_branch[k]).this_msg))
            ==> last_common(old_branch, new_chain, otherwise) == otherwise,
    decreases old_branch.len(),
{
    if old_branch.len() > 0 {
        let front = old_branch.drop_last();
        lemma_last_common(front, new_chain, otherwise, i);
        assert(old_branch[old_branch.len() - 1] == old_branch.last());
        assert forall|k: int| 0 <= k < front.len() implies front[k] == #[trigger] old_branch[k] by {
        }
    }
}

proof fn lemma_from_parent(infos: Seq<InscriptionInfo>, msg: MsgId, i: int)
    ensures
        0 <= i < infos.len() && infos[i].parent_msg == msg && (forall|k: int|
            0 <= k < i ==> (#[trigger] infos[k]).parent_msg != msg) ==> from_parent(infos, msg)
            == infos.skip(i),
        (forall|k: int| 0 <= k < infos.len() ==> (#[trigger] infos[k]).parent_msg != msg)
            ==> from_parent(infos, msg).len() == 0,
    decreases infos.len(),
{
    if infos.len() > 0 {
        let rest = infos.drop_first();
        lemma_from_parent(rest, msg, i - 1);
        assert forall|k: int| 0 <= k < rest.len() implies #[trigger] rest[k] == infos[k + 1] by {
        }
        if i == 0 {
            assert(infos.skip(0) =~= infos);
        } else if 0 < i <= infos.len() {
            assert(rest.skip(i - 1) =~= infos.skip(i));
        }
    }
}

/// A message is one of a list of entries.
pub open spec fn listed(infos: Seq<InscriptionInfo>, msg: MsgId) -> bool {
    exists|k: int| 0 <= k < infos.len() && (#[trigger] infos[k]).this_msg == msg
}

/// Two chains part behind the last message of the old one that the new one has,
/// or behind the irreversible one; adopted is the new one from the first entry
/// that continues that message on.
pub proof fn law_chains_part_at_the_last_common_message(
    m: Model,
    old_tip: HeaderId,
    new_tip: HeaderId,
    i: int,
    j: int,
)
    ensures
        ({
            let old = m.on_branch(old_tip);
            let new = m.on_branch(new_tip);
            let fork = m.fork_point(old_tip, new_tip);
            let adopted = m.adopted(old_tip, new_tip);
            let known = |msg: MsgId| msg == m.finalized_msg || listed(new, msg);
            &&& 0 <= i < old.len() && known(old[i].this_msg) && (forall|k: int|
                i < k < old.len() ==> !known((#[trigger] old[k]).this_msg)) ==> fork
                == old[i].this_msg
            &&& (forall|k: int| 0 <= k < old.len() ==> !known((#[trigger] old[k]).this_msg)) ==> fork
                == m.finalized_msg
            &&& 0 <= j < new.len() && new[j].parent_msg == fork && (forall|k: int|
                0 <= k < j ==> (#[trigger] new[k]).parent_msg != fork) ==> adopted == new.skip(j)
            &&& (forall|k: int| 0 <= k < new.len() ==> (#[trigger] new[k]).parent_msg != fork)
                ==> adopted.len() == 0
            &&& m.extends(old_tip, new_tip) <==> known(m.channel_tip(old_tip))
        }),
{
    let old = m.on_branch(old_tip);
    let new = m.on_branch(new_tip);
    let chain = m.chain(new_tip);
    let ids = new.map_values(crate::sequencer::state_model::msg_of());
    assert forall|msg: MsgId| #[trigger] chain.contains(msg) <==> msg == m.finalized_msg
        || listed(new, msg) by {
        if ids.contains(msg) {
            let k = ids.index_of(msg);
            assert(new[k].this_msg == msg);
        }
        if listed(new, msg) {
            let k = choose|k: int| 0 <= k < new.len() && (#[trigger] new[k]).this_msg == msg;
            assert(ids[k] == msg);
            assert(ids.contains(msg));
        }
    }
    lemma_last_common(old, chain, m.finalized_msg, i);
    lemma_from_parent(new, m.fork_point(old_tip, new_tip), j);
}

/// What is pending behind a message is what chains from it, directly or through
/// others that are pending, and nothing else.
pub proof fn law_suffix_is_what_chains_on(
    m: Model,
    from: MsgId,
    info: InscriptionInfo,
    before: InscriptionInfo,
    set: Set<MsgId>,
)
    requires
        m.pending.contains_key(info.tx_hash),
        inscribes(m.pending[info.tx_hash], info.tx_hash, info),
    ensures
        info.parent_msg == from ==> m.suffix(from).contains(info),
        m.suffix(from).contains(before) && info.parent_msg == before.this_msg ==> m.suffix(
            from,
        ).contains(info),
        m.closed(set) && set.contains(from) && !set.contains(info.parent_msg) ==> !m.suffix(
            from,
        ).contains(info),
{
    if m.suffix(from).contains(before) {
        let tx = m.pending[before.tx_hash];
        let i = choose|i: int|
            0 <= i < tx.ops@.len() && #[trigger] inscription_at(tx, before.tx_hash, i) == Some(
                before,
            );
        assert forall|s: Set<MsgId>| #[trigger]
            m.closed(s) && s.contains(from) implies s.contains(before.this_msg) by {
            assert(s.contains(before.parent_msg));
            assert(inscription_at(m.pending[before.tx_hash], before.tx_hash, i) == Some(before));
        }
    }
}

/// A pending transaction is done exactly when LIB reaches a branch with a block
/// on which it is mined; the tip at the new LIB is irreversible then.
pub proof fn law_mined_below_lib_is_done(m: Model, lib: HeaderId, hash: TxHash, i: int)
    requires
        m.pending.contains_key(hash),
    ensures
        0 <= i < m.branch(lib).len() && m.safe_at(m.branch(lib)[i]).contains(hash)
            ==> !m.advance_lib(lib).pending.contains_key(hash),
        (forall|k: int|
            0 <= k < m.branch(lib).len() ==> !m.safe_at(#[trigger] m.branch(lib)[k]).contains(hash))
            ==> m.advance_lib(lib).pending.contains_key(hash) && m.advance_lib(lib).pending[hash]
            == m.pending[hash],
        m.advance_lib(lib).lib == lib,
        m.advance_lib(lib).finalized_msg == m.channel_tip(lib),
{
    if !(forall|k: int|
        0 <= k < m.branch(lib).len() ==> !m.safe_at(#[trigger] m.branch(lib)[k]).contains(hash)) {
    } else if m.finalized_by(lib).contains(hash) {
        let k = choose|k: int|
            0 <= k < m.branch(lib).len() && #[trigger] m.safe_at(m.branch(lib)[k]).contains(hash);
        assert(m.safe_at(m.branch(lib)[k]).contains(hash));
    }
}

/// Nothing changed for the channel exactly where its tip is the same, or the new
/// chain continues the old one and adopts nothing.
pub proof fn law_unchanged_adopts_nothing(m: Model, old_tip: HeaderId, new_tip: HeaderId)
    ensures
        m.channel_tip(old_tip) == m.channel_tip(new_tip) ==> m.unchanged(old_tip, new_tip),
        m.unchanged(old_tip, new_tip) && m.channel_tip(old_tip) != m.channel_tip(new_tip)
            ==> m.adopted(old_tip, new_tip).len() == 0 && m.extends(old_tip, new_tip),
        m.adopted(old_tip, new_tip).len() > 0 && m.channel_tip(old_tip) != m.channel_tip(new_tip)
            ==> !m.unchanged(old_tip, new_tip),
        !m.extends(old_tip, new_tip) && m.channel_tip(old_tip) != m.channel_tip(new_tip)
            ==> !m.unchanged(old_tip, new_tip),
{
}

// Entries of a block.

proof fn lemma_entries_behind(
    before: Seq<InscriptionInfo>,
    tx_hash: TxHash,
    ops: Seq<Op>,
    channel_id: ChannelId,
)
    ensures
        before.is_prefix_of(entries_after_ops(before, tx_hash, ops, channel_id)),
    decreases ops.len(),
{
    if ops.len() > 0 {
        lemma_entries_behind(before, tx_hash, ops.drop_last(), channel_id);
        let so_far = entries_after_ops(before, tx_hash, ops.drop_last(), channel_id);
        let all = entries_after_ops(before, tx_hash, ops, channel_id);
        assert(before =~= all.take(before.len() as int)) by {
            assert(before =~= so_far.take(before.len() as int));
            assert(all.take(before.len() as int) =~= so_far.take(before.len() as int));
        }
    }
}

/// The entries of a block are read operation by operation: those of a shorter
/// list of transactions stand in front, and an operation adds one entry or none.
/// An inscription on the channel is entered as it says; a config without payload
/// and signer, behind the entry before it in the block, or the root.
pub proof fn law_block_entries_follow_the_operations(
    front: Seq<SignedOps>,
    tx: SignedOps,
    shorter: SignedOps,
    channel_id: ChannelId,
)
    requires
        tx.ops@.len() > 0,
        shorter.hash == tx.hash,
        shorter.ops@ == tx.ops@.drop_last(),
    ensures
        ({
            let before = block_entries(front.push(shorter), channel_id);
            let after = block_entries(front.push(tx), channel_id);
            &&& block_entries(front, channel_id).is_prefix_of(after)
            &&& match tx.ops@.last() {
                Op::ChannelInscribe(op) => if op.channel_id == channel_id {
                    &&& after.len() == before.len() + 1 && after.drop_last() == before
                    &&& after.last().tx_hash == tx.hash
                    &&& after.last().parent_msg == op.parent
                    &&& after.last().this_msg == op.id
                    &&& after.last().payload == op.inscription
                    &&& after.last().signer == Some(op.signer)
                } else {
                    after == before
                },
                Op::ChannelConfig(op) => if op.channel == channel_id {
                    &&& after.len() == before.len() + 1 && after.drop_last() == before
                    &&& after.last().tx_hash == tx.hash
                    &&& after.last().this_msg == op.id
                    &&& after.last().signer is None
                    &&& after.last().parent_msg == if before.len() == 0 {
                        MsgId::spec_root()
                    } else {
                        before.last().this_msg
                    }
                } else {
                    after == before
                },
                _ => after == before,
            }
        }),
{
    assert(front.push(tx).drop_last() =~= front);
    assert(front.push(shorter).drop_last() =~= front);
    let start = block_entries(front, channel_id);
    lemma_entries_behind(start, tx.hash, tx.ops@, channel_id);
    let before = block_entries(front.push(shorter), channel_id);
    let after = block_entries(front.push(tx), channel_id);
    assert(after.len() == before.len() + 1 ==> after.drop_last() =~= before);
}

// Zone blocks.

/// The zone blocks of a finalized block are those of its transactions one after
/// the other, and of a transaction each inscription on the channel at its place,
/// with its id and its payload.
pub proof fn law_zone_blocks_are_the_inscriptions(
    front: Seq<SignedOps>,
    back: Seq<SignedOps>,
    tx: SignedOps,
    channel_id: ChannelId,
    p: int,
)
    ensures
        ({
            let f = zone_blocks_of_tx(channel_id);
            let ops = tx.ops@;
            &&& (front + back).flat_map(f) == front.flat_map(f) + back.flat_map(f)
            &&& f(tx).len() == count(ops, writes(channel_id))
            &&& 0 <= p < ops.len() && writes(channel_id)(ops[p]) ==> {
                let at = count(ops.take(p), writes(channel_id)) as int;
                &&& at < f(tx).len()
                &&& f(tx)[at].id == ops[p]->ChannelInscribe_0.id
                &&& f(tx)[at].data == ops[p]->ChannelInscribe_0.inscription
            }
        }),
{
    lemma_flat_map_add(front, back, zone_blocks_of_tx(channel_id));
    lemma_read(tx.ops@, writes(channel_id), zone_block_on(channel_id));
    if 0 <= p < tx.ops@.len() {
        assert(tx.ops@[p] == tx.ops@[p]);
    }
}

} // verus!
