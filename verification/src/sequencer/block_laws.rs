//! What an advance of LIB keeps of the known blocks.

use vstd::prelude::*;

use crate::ids::{HeaderId, TxHash};
use crate::sequencer::channel_tx::BlockChannelTx;
use crate::sequencer::channel_wallet::NoteOp;
use crate::sequencer::state_laws::law_process_block_keeps_wf;
use crate::sequencer::state_model::{
    branch, chain_down, grounded, kept_blocks, last_config_tip, last_tip, StateModel,
};

verus! {

/// A block is its own ancestor.
pub open spec fn on_a_loop(m: StateModel, block: HeaderId) -> bool {
    m.parents.contains_key(block) && m.below(block).contains(block)
}

/// No block that is not below `lib` is its own ancestor, nor is `lib`.
pub open spec fn no_loop_above(m: StateModel, lib: HeaderId) -> bool {
    &&& !on_a_loop(m, lib)
    &&& forall|id: HeaderId| #[trigger]
        on_a_loop(m, id) ==> m.below(lib).contains(id)
}

// Walks.

proof fn lemma_chain_start(parents: Map<HeaderId, HeaderId>, block: HeaderId)
    requires
        parents.dom().finite(),
    ensures
        chain_down(parents, block).contains(block),
{
}

/// With a block, a chain holds its parent.
proof fn lemma_chain_closed(parents: Map<HeaderId, HeaderId>, block: HeaderId, id: HeaderId)
    requires
        parents.dom().finite(),
        chain_down(parents, block).contains(id),
        parents.contains_key(id),
    ensures
        chain_down(parents, block).contains(parents[id]),
    decreases parents.len(),
{
    if parents.contains_key(block) {
        let rest = parents.remove(block);
        if id == block {
            lemma_chain_start(rest, parents[block]);
        } else {
            lemma_chain_closed(rest, parents[block], id);
        }
    }
}

/// A branch walks from parent to parent.
proof fn lemma_branch_walks(
    parents: Map<HeaderId, HeaderId>,
    lib: HeaderId,
    tip: HeaderId,
    fuel: nat,
)
    ensures
        ({
            let blocks = branch(parents, lib, tip, fuel);
            &&& 0 < blocks.len() <= fuel + 1
            &&& blocks[0] == tip
            &&& forall|i: int|
                0 <= i < blocks.len() - 1 ==> (#[trigger] blocks[i]) != lib
                    && parents.contains_key(blocks[i]) && blocks[i + 1] == parents[blocks[i]]
        }),
    decreases fuel,
{
    if !(tip == lib || !parents.contains_key(tip) || fuel == 0) {
        let rest = branch(parents, lib, parents[tip], (fuel - 1) as nat);
        let blocks = branch(parents, lib, tip, fuel);
        lemma_branch_walks(parents, lib, parents[tip], (fuel - 1) as nat);
        assert(blocks == seq![tip] + rest);
        assert forall|i: int| 0 <= i < blocks.len() - 1 implies (#[trigger] blocks[i]) != lib
            && parents.contains_key(blocks[i]) && blocks[i + 1] == parents[blocks[i]] by {
            if i > 0 {
                assert(blocks[i] == rest[i - 1]);
                assert(blocks[i + 1] == rest[i]);
            }
        }
    }
}

/// What comes after a block of a branch lies below it.
proof fn lemma_branch_descends(
    parents: Map<HeaderId, HeaderId>,
    lib: HeaderId,
    tip: HeaderId,
    fuel: nat,
    i: int,
    j: int,
)
    requires
        parents.dom().finite(),
        0 <= i < j < branch(parents, lib, tip, fuel).len(),
    ensures
        chain_down(parents, parents[branch(parents, lib, tip, fuel)[i]]).contains(
            branch(parents, lib, tip, fuel)[j],
        ),
        parents.contains_key(branch(parents, lib, tip, fuel)[i]),
    decreases j,
{
    let blocks = branch(parents, lib, tip, fuel);
    lemma_branch_walks(parents, lib, tip, fuel);
    assert(blocks[i + 1] == parents[blocks[i]]);
    if j == i + 1 {
        lemma_chain_start(parents, blocks[j]);
    } else {
        lemma_branch_descends(parents, lib, tip, fuel, i, j - 1);
        assert(blocks[j] == parents[blocks[j - 1]]);
        lemma_chain_closed(parents, parents[blocks[i]], blocks[j - 1]);
    }
}

/// What a branch runs to from below a block is below it too.
proof fn lemma_branch_stays_below(
    parents: Map<HeaderId, HeaderId>,
    lib: HeaderId,
    tip: HeaderId,
    fuel: nat,
    top: HeaderId,
    i: int,
    j: int,
)
    requires
        parents.dom().finite(),
        0 <= i <= j < branch(parents, lib, tip, fuel).len(),
        chain_down(parents, top).contains(branch(parents, lib, tip, fuel)[i]),
    ensures
        chain_down(parents, top).contains(branch(parents, lib, tip, fuel)[j]),
    decreases j,
{
    let blocks = branch(parents, lib, tip, fuel);
    lemma_branch_walks(parents, lib, tip, fuel);
    if i < j {
        lemma_branch_stays_below(parents, lib, tip, fuel, top, i, j - 1);
        assert(blocks[j] == parents[blocks[j - 1]]);
        lemma_chain_closed(parents, top, blocks[j - 1]);
    }
}

/// A branch that reaches its end is the same with any fuel that gets there.
proof fn lemma_enough_fuel(
    parents: Map<HeaderId, HeaderId>,
    lib: HeaderId,
    tip: HeaderId,
    a: nat,
    b: nat,
)
    requires
        branch(parents, lib, tip, a).last() == lib,
        b >= branch(parents, lib, tip, a).len() - 1,
    ensures
        branch(parents, lib, tip, b) == branch(parents, lib, tip, a),
    decreases a,
{
    let blocks = branch(parents, lib, tip, a);
    if tip == lib || !parents.contains_key(tip) {
    } else if a == 0 {
        assert(blocks.last() == tip);
    } else {
        let rest = branch(parents, lib, parents[tip], (a - 1) as nat);
        lemma_branch_walks(parents, lib, parents[tip], (a - 1) as nat);
        assert(blocks == seq![tip] + rest);
        assert(rest[rest.len() - 1] == lib);
        lemma_enough_fuel(parents, lib, parents[tip], (a - 1) as nat, (b - 1) as nat);
    }
}

/// From a block on it, a branch is that block's branch.
proof fn lemma_branch_from(
    parents: Map<HeaderId, HeaderId>,
    lib: HeaderId,
    tip: HeaderId,
    fuel: nat,
    k: int,
)
    requires
        0 <= k < branch(parents, lib, tip, fuel).len(),
    ensures
        k <= fuel,
        branch(parents, lib, tip, fuel).skip(k) == branch(
            parents,
            lib,
            branch(parents, lib, tip, fuel)[k],
            (fuel - k) as nat,
        ),
    decreases k,
{
    let blocks = branch(parents, lib, tip, fuel);
    lemma_branch_walks(parents, lib, tip, fuel);
    if k == 0 {
        assert(blocks.skip(0) =~= blocks);
    } else {
        let rest = branch(parents, lib, parents[tip], (fuel - 1) as nat);
        assert(blocks == seq![tip] + rest);
        lemma_branch_from(parents, lib, parents[tip], (fuel - 1) as nat, k - 1);
        assert(blocks.skip(k) =~= rest.skip(k - 1));
    }
}

/// Cut off at a new LIB on it, a branch is its part down to there, as long as
/// that part is known.
proof fn lemma_branch_cut(
    parents: Map<HeaderId, HeaderId>,
    lib: HeaderId,
    tip: HeaderId,
    fuel: nat,
    kept: Map<HeaderId, HeaderId>,
    cut: HeaderId,
    k: int,
    kept_fuel: nat,
)
    requires
        0 <= k < branch(parents, lib, tip, fuel).len(),
        branch(parents, lib, tip, fuel)[k] == cut,
        k <= kept_fuel,
        forall|i: int|
            0 <= i < k ==> (#[trigger] branch(parents, lib, tip, fuel)[i]) != cut
                && kept.contains_key(branch(parents, lib, tip, fuel)[i])
                && kept[branch(parents, lib, tip, fuel)[i]] == parents[branch(
                parents,
                lib,
                tip,
                fuel,
            )[i]],
    ensures
        branch(kept, cut, tip, kept_fuel) == branch(parents, lib, tip, fuel).take(k + 1),
    decreases k,
{
    let blocks = branch(parents, lib, tip, fuel);
    lemma_branch_walks(parents, lib, tip, fuel);
    if k == 0 {
        assert(blocks.take(1) =~= seq![tip]);
    } else {
        let rest = branch(parents, lib, parents[tip], (fuel - 1) as nat);
        assert(blocks == seq![tip] + rest);
        assert(blocks[0] != cut && kept.contains_key(blocks[0]));
        assert forall|i: int| 0 <= i < k - 1 implies (#[trigger] rest[i]) != cut
            && kept.contains_key(rest[i]) && kept[rest[i]] == parents[rest[i]] by {
            assert(blocks[i + 1] == rest[i]);
        }
        lemma_branch_cut(
            parents,
            lib,
            parents[tip],
            (fuel - 1) as nat,
            kept,
            cut,
            k - 1,
            (kept_fuel - 1) as nat,
        );
        assert(blocks.take(k + 1) =~= seq![tip] + rest.take(k));
    }
}

/// A branch that reaches LIB holds no block twice.
proof fn lemma_reaching_branch_differs(
    parents: Map<HeaderId, HeaderId>,
    lib: HeaderId,
    tip: HeaderId,
    fuel: nat,
)
    requires
        branch(parents, lib, tip, fuel).last() == lib,
    ensures
        branch(parents, lib, tip, fuel).no_duplicates(),
{
    let blocks = branch(parents, lib, tip, fuel);
    assert forall|i: int, j: int| 0 <= i < j < blocks.len() implies blocks[i] != blocks[j] by {
        if blocks[i] == blocks[j] {
            lemma_branch_from(parents, lib, tip, fuel, i);
            lemma_branch_from(parents, lib, tip, fuel, j);
            assert(blocks.skip(i).last() == lib && blocks.skip(j).last() == lib);
            lemma_branch_walks(parents, lib, blocks[j], (fuel - j) as nat);
            lemma_enough_fuel(parents, lib, blocks[j], (fuel - j) as nat, (fuel - i) as nat);
            assert(blocks.skip(i).len() == blocks.skip(j).len());
        }
    }
}

// Entries.

proof fn lemma_tip_entry_add(m: StateModel, a: Seq<HeaderId>, b: Seq<HeaderId>)
    ensures
        m.tip_entry_in(a + b) == match m.tip_entry_in(a) {
            Some(entry) => Some(entry),
            None => m.tip_entry_in(b),
        },
        m.config_entry_in(a + b) == match m.config_entry_in(a) {
            Some(entry) => Some(entry),
            None => m.config_entry_in(b),
        },
    decreases a.len(),
{
    if a.len() == 0 {
        assert(a + b =~= b);
    } else {
        assert((a + b).drop_first() =~= a.drop_first() + b);
        lemma_tip_entry_add(m, a.drop_first(), b);
    }
}

proof fn lemma_same_entries(m: StateModel, n: StateModel, blocks: Seq<HeaderId>)
    requires
        forall|i: int| 0 <= i < blocks.len() ==> m.txs_at(#[trigger] blocks[i]) == n.txs_at(blocks[i]),
    ensures
        m.tip_entry_in(blocks) == n.tip_entry_in(blocks),
        m.config_entry_in(blocks) == n.config_entry_in(blocks),
    decreases blocks.len(),
{
    if blocks.len() > 0 {
        let rest = blocks.drop_first();
        assert forall|i: int| 0 <= i < rest.len() implies m.txs_at(#[trigger] rest[i]) == n.txs_at(
            rest[i],
        ) by {
            assert(rest[i] == blocks[i + 1]);
        }
        lemma_same_entries(m, n, rest);
    }
}

// What is kept.

/// LIB advances to a known block that descends from it.
spec fn advances(m: StateModel, lib: HeaderId) -> bool {
    &&& m.wf()
    &&& no_loop_above(m, lib)
    &&& lib != m.lib
    &&& m.parents.contains_key(lib)
    &&& m.branch(lib).last() == m.lib
}

/// The branch of the new LIB lies below it, the old one at its end.
proof fn lemma_down_is_below(m: StateModel, lib: HeaderId, i: int)
    requires
        advances(m, lib),
        0 < i < m.branch(lib).len(),
    ensures
        m.below(lib).contains(m.branch(lib)[i]),
{
    lemma_branch_walks(m.parents, m.lib, lib, m.parents.len());
    lemma_branch_descends(m.parents, m.lib, lib, m.parents.len(), 0, i);
}

proof fn lemma_old_lib_is_below(m: StateModel, lib: HeaderId)
    requires
        advances(m, lib),
    ensures
        m.below(lib).contains(m.lib),
{
    let down = m.branch(lib);
    lemma_branch_walks(m.parents, m.lib, lib, m.parents.len());
    lemma_down_is_below(m, lib, down.len() - 1);
}

/// Down to the new LIB, nothing of a branch is below it.
proof fn lemma_part_is_above(m: StateModel, lib: HeaderId, block: HeaderId, k: int, i: int)
    requires
        advances(m, lib),
        0 <= i <= k < m.branch(block).len(),
        m.branch(block)[k] == lib,
    ensures
        !m.below(lib).contains(m.branch(block)[i]),
{
    if m.below(lib).contains(m.branch(block)[i]) {
        lemma_branch_stays_below(
            m.parents,
            m.lib,
            block,
            m.parents.len(),
            m.parents[lib],
            i,
            k,
        );
        assert(on_a_loop(m, lib));
    }
}

/// Down to the new LIB, a branch holds no block twice.
proof fn lemma_part_differs(m: StateModel, lib: HeaderId, block: HeaderId, k: int, i: int, j: int)
    requires
        advances(m, lib),
        0 <= i < j <= k < m.branch(block).len(),
        m.branch(block)[k] == lib,
    ensures
        m.branch(block)[i] != m.branch(block)[j],
{
    let own = m.branch(block);
    lemma_part_is_above(m, lib, block, k, i);
    lemma_branch_descends(m.parents, m.lib, block, m.parents.len(), i, j);
    if own[i] == own[j] {
        assert(on_a_loop(m, own[i]));
    }
}

/// The blocks that are left once those below the new LIB are gone.
spec fn not_below(m: StateModel, lib: HeaderId) -> Map<HeaderId, HeaderId> {
    m.parents.remove_keys(m.below(lib))
}

/// What is left of the blocks after an advance of LIB.
proof fn lemma_left(m: StateModel, lib: HeaderId, block: HeaderId)
    ensures
        ({
            let n = m.advance_lib(lib);
            let kept = kept_blocks(not_below(m, lib), lib);
            &&& n.lib == lib
            &&& n.parents.dom().subset_of(m.parents.dom())
            &&& n.parents.contains_key(block) <==> not_below(m, lib).contains_key(block)
                && kept.contains(block)
            &&& n.parents.contains_key(block) ==> n.parents[block] == m.parents[block]
                && n.txs_at(block) == m.txs_at(block) && (n.safe.contains_key(block)
                <==> m.safe.contains_key(block))
            &&& m.parents.contains_key(block) && !n.parents.contains_key(block)
                ==> !n.safe.contains_key(block)
            &&& n.finalized_msg == m.channel_tip(lib)
            &&& n.finalized_config == m.config_tip(lib)
        }),
{
    let finalized = m.finalize(lib);
    assert(finalized.below(lib) == m.below(lib));
    let trimmed = finalized.prune(finalized.below(lib)).without_settled(lib);
    assert(trimmed.parents == not_below(m, lib));
    assert(kept_blocks(trimmed.parents, lib).subset_of(trimmed.parents.dom())) by {
        assert forall|id: HeaderId| #[trigger] kept_blocks(trimmed.parents, lib).contains(
            id,
        ) implies trimmed.parents.dom().contains(id) by {
            let blocks = choose|blocks: Set<HeaderId>|
                {
                    &&& #[trigger] blocks.subset_of(trimmed.parents.dom())
                    &&& grounded(trimmed.parents, lib, blocks)
                    &&& blocks.contains(id)
                };
            assert(blocks.contains(id));
        }
    }
}

/// A walk among blocks that hang together with the new LIB comes to it, or
/// goes on among them.
proof fn lemma_walk_stays(
    m: StateModel,
    lib: HeaderId,
    known: Map<HeaderId, HeaderId>,
    blocks: Set<HeaderId>,
    id: HeaderId,
    fuel: nat,
)
    requires
        known.dom().subset_of(m.parents.dom()),
        forall|other: HeaderId| #[trigger]
            known.contains_key(other) ==> known[other] == m.parents[other],
        !known.contains_key(m.lib),
        blocks.subset_of(known.dom()),
        grounded(known, lib, blocks),
        blocks.contains(id),
    ensures
        ({
            let own = branch(m.parents, m.lib, id, fuel);
            ||| own.contains(lib)
            ||| own.len() == fuel + 1 && forall|i: int|
                0 <= i < own.len() ==> blocks.contains(#[trigger] own[i])
        }),
    decreases fuel,
{
    let own = branch(m.parents, m.lib, id, fuel);
    assert(known.contains_key(id));
    assert(m.parents.dom().contains(id));
    assert(id != m.lib);
    if id == lib {
        lemma_branch_walks(m.parents, m.lib, id, fuel);
        assert(own[0] == lib);
    } else if fuel > 0 {
        let parent = m.parents[id];
        let rest = branch(m.parents, m.lib, parent, (fuel - 1) as nat);
        lemma_branch_walks(m.parents, m.lib, parent, (fuel - 1) as nat);
        assert(own == seq![id] + rest);
        if parent == lib {
            assert(own[1] == lib);
        } else {
            lemma_walk_stays(m, lib, known, blocks, parent, (fuel - 1) as nat);
            if rest.contains(lib) {
                assert(own[rest.index_of(lib) + 1] == lib);
            } else {
                assert forall|i: int| 0 <= i < own.len() implies blocks.contains(
                    #[trigger] own[i],
                ) by {
                    if i > 0 {
                        assert(own[i] == rest[i - 1]);
                    }
                }
            }
        }
    } else {
        assert(own =~= seq![id]);
    }
}

/// A set of blocks known after an advance of LIB reaches the new LIB.
proof fn lemma_kept_reaches(
    m: StateModel,
    lib: HeaderId,
    known: Map<HeaderId, HeaderId>,
    blocks: Set<HeaderId>,
    id: HeaderId,
)
    requires
        advances(m, lib),
        known == not_below(m, lib),
        blocks.subset_of(known.dom()),
        grounded(known, lib, blocks),
        blocks.contains(id),
    ensures
        m.branch(id).contains(lib),
{
    let fuel = m.parents.len();
    let own = m.branch(id);
    lemma_old_lib_is_below(m, lib);
    lemma_walk_stays(m, lib, known, blocks, id, fuel);
    assert(known.contains_key(id));
    assert(m.parents.dom().contains(id));
    assert(fuel > 0) by {
        assert(m.parents.dom().len() == fuel);
        if fuel == 0 {
            assert(m.parents.dom() =~= Set::empty());
        }
    }
    if !own.contains(lib) {
        assert forall|i: int, j: int| 0 <= i < j < own.len() implies own[i] != own[j] by {
            lemma_branch_descends(m.parents, m.lib, id, fuel, i, j);
            assert(blocks.contains(own[i]));
            assert(known.contains_key(own[i]));
            if own[i] == own[j] {
                assert(on_a_loop(m, own[i]));
            }
        }
        own.unique_seq_to_set();
        assert forall|x: HeaderId| #[trigger] own.to_set().contains(
            x,
        ) implies m.parents.dom().contains(x) by {
            let i = own.index_of(x);
            assert(own.contains(x));
            assert(own[i] == x);
            assert(blocks.contains(own[i]));
            assert(known.contains_key(x));
        }
        vstd::set_lib::lemma_len_subset(own.to_set(), m.parents.dom());
    }
}

/// The part of a branch down to the new LIB is kept.
proof fn lemma_part_is_kept(m: StateModel, lib: HeaderId, block: HeaderId, i: int)
    requires
        advances(m, lib),
        m.parents.contains_key(block),
        m.branch(block).contains(lib),
        0 <= i <= m.branch(block).index_of(lib),
    ensures
        m.advance_lib(lib).parents.contains_key(m.branch(block)[i]),
{
    let fuel = m.parents.len();
    let own = m.branch(block);
    let k = own.index_of(lib);
    let known = not_below(m, lib);
    let part = own.take(k + 1);
    let part_set = part.to_set();
    lemma_branch_walks(m.parents, m.lib, block, fuel);
    assert forall|id: HeaderId| #[trigger] part_set.contains(id) implies known.contains_key(id) && (
    id == lib || known[id] == lib || part_set.contains(known[id])) by {
        let j = part.index_of(id);
        assert(part.contains(id));
        assert(own[j] == id);
        if j < k {
            assert(own[j + 1] == m.parents[own[j]]);
            assert(part[j + 1] == m.parents[id]);
            assert(part.contains(m.parents[id]));
        }
        assert(m.parents.contains_key(id));
        lemma_part_is_above(m, lib, block, k, j);
    }
    assert(part_set.subset_of(known.dom()));
    assert(grounded(known, lib, part_set));
    assert(part[i] == own[i]);
    assert(part.contains(own[i]));
    assert(part_set.contains(own[i]));
    assert(kept_blocks(known, lib).contains(own[i]));
    lemma_left(m, lib, own[i]);
}

/// The blocks of a branch down to the new LIB, and those from there down to the
/// old one, are as many as are known at most.
proof fn lemma_room(m: StateModel, lib: HeaderId, block: HeaderId, k: int)
    requires
        advances(m, lib),
        0 <= k < m.branch(block).len(),
        m.branch(block)[k] == lib,
    ensures
        k + m.branch(lib).len() - 1 <= m.parents.len(),
{
    let fuel = m.parents.len();
    let own = m.branch(block);
    let down = m.branch(lib);
    let all = own.take(k) + down.drop_last();
    lemma_branch_walks(m.parents, m.lib, block, fuel);
    lemma_branch_walks(m.parents, m.lib, lib, fuel);
    lemma_reaching_branch_differs(m.parents, m.lib, lib, fuel);
    assert forall|i: int, j: int| 0 <= i < j < all.len() implies all[i] != all[j] by {
        if j < k {
            lemma_part_differs(m, lib, block, k, i, j);
        } else if i >= k {
            assert(all[i] == down[i - k] && all[j] == down[j - k]);
        } else {
            assert(all[i] == own[i] && all[j] == down[j - k]);
            if j == k {
                lemma_part_differs(m, lib, block, k, i, k);
            } else {
                lemma_part_is_above(m, lib, block, k, i);
                lemma_down_is_below(m, lib, j - k);
            }
        }
    }
    all.unique_seq_to_set();
    assert forall|x: HeaderId| #[trigger] all.to_set().contains(x) implies m.parents.dom().contains(
        x,
    ) by {
        let i = all.index_of(x);
        assert(all.contains(x));
        assert(all[i] == x);
        if i < k {
            assert(own[i] == x);
        } else {
            assert(down[i - k] == x);
        }
    }
    vstd::set_lib::lemma_len_subset(all.to_set(), m.parents.dom());
}

/// The branch of a kept block is its part down to the new LIB.
proof fn lemma_branch_after(m: StateModel, lib: HeaderId, block: HeaderId)
    requires
        advances(m, lib),
        m.parents.contains_key(block),
        m.branch(block).contains(lib),
    ensures
        m.advance_lib(lib).branch(block) == m.branch(block).take(
            m.branch(block).index_of(lib) + 1,
        ),
        m.branch(block).skip(m.branch(block).index_of(lib)) == m.branch(lib),
{
    let n = m.advance_lib(lib);
    let fuel = m.parents.len();
    let own = m.branch(block);
    let k = own.index_of(lib);
    let front = own.take(k);
    lemma_left(m, lib, block);
    assert forall|i: int| 0 <= i < k implies (#[trigger] own[i]) != lib && n.parents.contains_key(
        own[i],
    ) && n.parents[own[i]] == m.parents[own[i]] by {
        lemma_part_differs(m, lib, block, k, i, k);
        lemma_part_is_kept(m, lib, block, i);
        lemma_left(m, lib, own[i]);
    }
    assert(k <= n.parents.len()) by {
        assert forall|i: int, j: int|
            0 <= i < front.len() && 0 <= j < front.len() && i != j implies front[i] != front[j] by {
            if i < j {
                lemma_part_differs(m, lib, block, k, i, j);
            } else {
                lemma_part_differs(m, lib, block, k, j, i);
            }
            assert(front[i] == own[i] && front[j] == own[j]);
        }
        front.unique_seq_to_set();
        assert forall|id: HeaderId| #[trigger] front.to_set().contains(
            id,
        ) implies n.parents.dom().contains(id) by {
            let i = front.index_of(id);
            assert(front.contains(id));
            assert(own[i] == id);
        }
        vstd::set_lib::lemma_len_subset(n.parents.dom(), m.parents.dom());
        vstd::set_lib::lemma_len_subset(front.to_set(), n.parents.dom());
    }
    lemma_branch_cut(m.parents, m.lib, block, fuel, n.parents, lib, k, n.parents.len());
    lemma_branch_from(m.parents, m.lib, block, fuel, k);
    lemma_room(m, lib, block, k);
    lemma_enough_fuel(m.parents, m.lib, lib, fuel, (fuel - k) as nat);
}

/// Both read the same entries down to the new LIB, and what is below it was
/// finalized.
proof fn lemma_tips_stay(m: StateModel, lib: HeaderId, block: HeaderId)
    requires
        advances(m, lib),
        m.parents.contains_key(block),
        m.branch(block).contains(lib),
    ensures
        m.advance_lib(lib).channel_tip(block) == m.channel_tip(block),
        m.advance_lib(lib).config_tip(block) == m.config_tip(block),
{
    let n = m.advance_lib(lib);
    let own = m.branch(block);
    let k = own.index_of(lib);
    let front = own.take(k);
    let down = m.branch(lib);
    lemma_branch_after(m, lib, block);
    lemma_left(m, lib, lib);
    assert(own =~= front + down);
    assert(n.branch(block) =~= front + seq![lib]);
    assert forall|i: int| 0 <= i < front.len() implies n.txs_at(#[trigger] front[i]) == m.txs_at(
        front[i],
    ) by {
        assert(front[i] == own[i]);
        lemma_part_is_kept(m, lib, block, i);
        lemma_left(m, lib, own[i]);
    }
    lemma_part_is_kept(m, lib, block, k);
    assert(own[k] == lib);
    lemma_same_entries(n, m, front);
    lemma_tip_entry_add(m, front, down);
    lemma_tip_entry_add(n, front, seq![lib]);
    lemma_branch_walks(m.parents, m.lib, lib, m.parents.len());
    assert(down[0] == lib);
    assert(seq![lib].drop_first() =~= Seq::<HeaderId>::empty());
    assert(n.tip_entry_in(Seq::empty()) is None);
    assert(n.config_entry_in(Seq::empty()) is None);
    assert(n.tip_entry_in(seq![lib]) == last_tip(m.txs_at(lib)));
    assert(n.config_entry_in(seq![lib]) == last_config_tip(m.txs_at(lib)));
}

/// An advance of LIB prunes what does not descend from the new LIB and nothing
/// else, and pruning never moves a tip: a kept block has the message tip and
/// the config tip that it would have had LIB stayed where it was. A block that
/// is its own ancestor descends from nothing and would be kept for ever, so
/// there is none but below the new LIB.
pub proof fn law_lib_advance_keeps_the_tips(
    m: StateModel,
    block: HeaderId,
    parent: HeaderId,
    lib: HeaderId,
    our_txs: Seq<TxHash>,
    channel_txs: Seq<BlockChannelTx>,
    note_ops: Seq<NoteOp>,
    kept: HeaderId,
)
    requires
        m.wf(),
        ({
            let stayed = m.process_block(block, parent, m.lib, our_txs, channel_txs, note_ops);
            &&& no_loop_above(stayed, lib)
            &&& lib != m.lib
            &&& stayed.parents.contains_key(lib)
            &&& stayed.branch(lib).last() == m.lib
            &&& stayed.parents.contains_key(kept) || kept == m.lib
        }),
    ensures
        ({
            let stayed = m.process_block(block, parent, m.lib, our_txs, channel_txs, note_ops);
            let n = m.process_block(block, parent, lib, our_txs, channel_txs, note_ops);
            &&& n.parents.contains_key(kept) <==> stayed.branch(kept).contains(lib)
            &&& stayed.safe.contains_key(kept) ==> (n.safe.contains_key(kept)
                <==> stayed.branch(kept).contains(lib))
            &&& n.parents.contains_key(kept) ==> {
                &&& n.channel_tip(kept) == stayed.channel_tip(kept)
                &&& n.config_tip(kept) == stayed.config_tip(kept)
            }
        }),
{
    let added = m.add_block(block, parent, our_txs, channel_txs, note_ops);
    law_process_block_keeps_wf(m, block, parent, m.lib, our_txs, channel_txs, note_ops);
    lemma_left(added, lib, kept);
    if kept != m.lib && added.branch(kept).contains(lib) {
        lemma_branch_walks(added.parents, added.lib, kept, added.parents.len());
        lemma_part_is_kept(added, lib, kept, 0);
        lemma_tips_stay(added, lib, kept);
    } else if added.advance_lib(lib).parents.contains_key(kept) {
        let known = not_below(added, lib);
        let blocks = choose|blocks: Set<HeaderId>|
            {
                &&& #[trigger] blocks.subset_of(known.dom())
                &&& grounded(known, lib, blocks)
                &&& blocks.contains(kept)
            };
        lemma_kept_reaches(added, lib, known, blocks, kept);
    }
    if kept == m.lib {
        lemma_old_lib_is_below(added, lib);
        lemma_below_is_gone(added, lib, kept);
        lemma_branch_walks(added.parents, added.lib, kept, added.parents.len());
        assert(added.branch(kept) =~= seq![kept]);
    }
}

/// Nothing below the new LIB is left.
proof fn lemma_below_is_gone(m: StateModel, lib: HeaderId, block: HeaderId)
    requires
        m.below(lib).contains(block),
    ensures
        !m.advance_lib(lib).safe.contains_key(block),
        !m.advance_lib(lib).parents.contains_key(block),
{
    assert(m.finalize(lib).below(lib) == m.below(lib));
}

} // verus!
