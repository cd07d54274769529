//! Walks over the known part of the block tree.

use vstd::prelude::*;

use crate::collections::{KeyMap, KeySet};
use crate::ids::{HeaderId, Key};
use crate::sequencer::state_model::{branch, chain_down, grounded, kept_blocks};

verus! {

/// The blocks from `tip` down to `lib`, or down to where the parent is not
/// known.
pub fn branch_blocks(parents: &KeyMap<HeaderId, HeaderId>, lib: HeaderId, tip: HeaderId) -> (res:
    Vec<HeaderId>)
    ensures
        res@ == branch(parents@, lib, tip, parents@.len()),
        res@.len() > 0,
{
    let ghost whole = branch(parents@, lib, tip, parents@.len());
    let mut blocks: Vec<HeaderId> = Vec::new();
    let mut current: HeaderId = tip;
    let mut fuel: usize = parents.len();
    assert(blocks@ + whole =~= whole);
    loop
        invariant_except_break
            whole == blocks@ + branch(parents@, lib, current, fuel as nat),
        ensures
            blocks@ == whole,
            blocks@.len() > 0,
        decreases fuel,
    {
        let ghost before = blocks@;
        blocks.push(current);
        assert(blocks@ =~= before + seq![current]);
        if current.same(&lib) || fuel == 0 {
            break;
        }
        match parents.get(&current) {
            Some(parent) => {
                proof {
                    let rest = branch(parents@, lib, *parent, (fuel - 1) as nat);
                    assert(before + (seq![current] + rest) =~= blocks@ + rest);
                }
                current = *parent;
            },
            None => {
                break;
            },
        }
        fuel = fuel - 1;
    }
    blocks
}

/// The blocks below `lib`.
pub open spec fn below(parents: Map<HeaderId, HeaderId>, lib: HeaderId) -> Set<HeaderId> {
    if parents.contains_key(lib) {
        chain_down(parents, parents[lib])
    } else {
        Set::empty()
    }
}

/// The blocks below `lib`, each once.
pub fn blocks_below(parents: &KeyMap<HeaderId, HeaderId>, lib: HeaderId) -> (res: Vec<HeaderId>)
    ensures
        res@.to_set() == below(parents@, lib),
        res@.no_duplicates(),
{
    let ghost all = parents@;
    proof {
        parents.lemma_finite();
    }
    let mut res: Vec<HeaderId> = Vec::new();
    let mut seen: KeySet<HeaderId> = KeySet::new();
    let mut cursor: Option<HeaderId> = match parents.get(&lib) {
        Some(parent) => Some(*parent),
        None => None,
    };
    proof {
        assert(res@.to_set() =~= Set::empty());
        assert(all.remove_keys(seen@) =~= all);
        if cursor is Some {
            assert(seen@.union(chain_down(all, cursor->0)) =~= below(all, lib));
        } else {
            assert(seen@ =~= below(all, lib));
        }
    }
    while cursor.is_some()
        invariant
            all == parents@,
            all.dom().finite(),
            res@.to_set() == seen@,
            res@.no_duplicates(),
            match cursor {
                Some(block) => seen@.union(chain_down(all.remove_keys(seen@), block)) == below(
                    all,
                    lib,
                ),
                None => seen@ == below(all, lib),
            },
        decreases
                (match cursor {
                    Some(_) => 1 + all.remove_keys(seen@).len(),
                    None => 0,
                }),
    {
        let block: HeaderId = cursor.unwrap();
        let ghost rest = all.remove_keys(seen@);
        proof {
            vstd::set_lib::lemma_len_subset(rest.dom(), all.dom());
        }
        if seen.contains(&block) {
            proof {
                assert(!rest.contains_key(block));
                assert(seen@.union(chain_down(rest, block)) =~= seen@);
            }
            cursor = None;
        } else {
            let ghost before = seen@;
            proof {
                assert(!res@.contains(block)) by {
                    if res@.contains(block) {
                        assert(res@.to_set().contains(block));
                    }
                }
                res@.lemma_push_to_set_commute(block);
            }
            res.push(block);
            let _ = seen.insert(block);
            cursor = match parents.get(&block) {
                Some(parent) => Some(*parent),
                None => None,
            };
            proof {
                assert(all.remove_keys(seen@) =~= rest.remove(block));
                if all.contains_key(block) {
                    assert(rest.contains_key(block));
                    assert(seen@.union(chain_down(rest.remove(block), all[block]))
                        =~= before.union(chain_down(rest, block)));
                } else {
                    assert(seen@ =~= before.union(chain_down(rest, block)));
                }
            }
        }
    }
    res
}

/// The known blocks whose chain does not reach `lib`.
pub open spec fn orphans(parents: Map<HeaderId, HeaderId>, lib: HeaderId) -> Set<HeaderId> {
    parents.dom().difference(kept_blocks(parents, lib))
}

/// No set of blocks that hang together with `lib` meets `gone`.
spec fn loose(parents: Map<HeaderId, HeaderId>, lib: HeaderId, gone: Set<HeaderId>) -> bool {
    forall|blocks: Set<HeaderId>, id: HeaderId|
        #![trigger blocks.contains(id), gone.contains(id)]
        blocks.subset_of(parents.dom()) && grounded(parents, lib, blocks) && gone.contains(id)
            ==> !blocks.contains(id)
}

proof fn lemma_loose_grows(
    parents: Map<HeaderId, HeaderId>,
    lib: HeaderId,
    gone: Set<HeaderId>,
    id: HeaderId,
)
    requires
        loose(parents, lib, gone),
        parents.contains_key(id),
        id != lib,
        parents[id] != lib,
        !parents.contains_key(parents[id]) || gone.contains(parents[id]),
    ensures
        loose(parents, lib, gone.insert(id)),
{
    let next = gone.insert(id);
    assert forall|blocks: Set<HeaderId>, x: HeaderId|
        #![trigger blocks.contains(x), next.contains(x)]
        blocks.subset_of(parents.dom()) && grounded(parents, lib, blocks) && next.contains(
            x,
        ) implies !blocks.contains(x) by {
        if x == id && blocks.contains(x) {
            assert(blocks.contains(parents[x]));
            assert(parents.contains_key(parents[x]));
            assert(gone.contains(parents[x]));
        }
        if x != id {
            assert(gone.contains(x));
        }
    }
}

proof fn lemma_loose_is_all(parents: Map<HeaderId, HeaderId>, lib: HeaderId, gone: Set<HeaderId>)
    requires
        loose(parents, lib, gone),
        gone.subset_of(parents.dom()),
        forall|id: HeaderId| #[trigger]
            parents.contains_key(id) && !gone.contains(id) && id != lib && parents[id] != lib
                ==> parents.contains_key(parents[id]) && !gone.contains(parents[id]),
    ensures
        gone == orphans(parents, lib),
{
    let rest = parents.dom().difference(gone);
    assert(grounded(parents, lib, rest)) by {
        assert forall|id: HeaderId| #[trigger] rest.contains(id) implies id == lib || parents[id]
            == lib || rest.contains(parents[id]) by {
            assert(parents.contains_key(id));
        }
    }
    assert forall|id: HeaderId| gone.contains(id) == orphans(parents, lib).contains(id) by {
        if parents.contains_key(id) && !gone.contains(id) {
            assert(rest.subset_of(parents.dom()));
            assert(rest.contains(id));
            assert(kept_blocks(parents, lib).contains(id));
        }
        if gone.contains(id) && kept_blocks(parents, lib).contains(id) {
            let blocks = choose|blocks: Set<HeaderId>|
                {
                    &&& #[trigger] blocks.subset_of(parents.dom())
                    &&& grounded(parents, lib, blocks)
                    &&& blocks.contains(id)
                };
            assert(!blocks.contains(id));
        }
    }
    assert(gone =~= orphans(parents, lib));
}

/// The known blocks whose chain does not reach `lib`, each once.
pub fn orphan_blocks(parents: &KeyMap<HeaderId, HeaderId>, lib: HeaderId) -> (res: Vec<HeaderId>)
    ensures
        res@.to_set() == orphans(parents@, lib),
        res@.no_duplicates(),
{
    let ghost all = parents@;
    let keys = parents.keys();
    let mut res: Vec<HeaderId> = Vec::new();
    let mut gone: KeySet<HeaderId> = KeySet::new();
    let mut found = true;
    assert(res@.to_set() =~= gone@);
    while found
        invariant
            all == parents@,
            all.dom().finite(),
            keys@.to_set() == all.dom(),
            forall|j: int| 0 <= j < keys@.len() ==> all.contains_key(#[trigger] keys@[j]),
            res@.no_duplicates(),
            res@.to_set() == gone@,
            gone@.subset_of(all.dom()),
            loose(all, lib, gone@),
            !found ==> forall|id: HeaderId| #[trigger]
                all.contains_key(id) && !gone@.contains(id) && id != lib && all[id] != lib
                    ==> all.contains_key(all[id]) && !gone@.contains(all[id]),
        decreases
                (if found {
                    1 + all.dom().difference(gone@).len()
                } else {
                    0
                }),
    {
        found = false;
        let ghost start = gone@;
        let mut i: usize = 0;
        while i < keys.len()
            invariant
                i <= keys@.len(),
                all == parents@,
                all.dom().finite(),
                forall|j: int| 0 <= j < keys@.len() ==> all.contains_key(#[trigger] keys@[j]),
                res@.no_duplicates(),
                res@.to_set() == gone@,
                gone@.subset_of(all.dom()),
                start.subset_of(gone@),
                loose(all, lib, gone@),
                !found ==> gone@ == start,
                found ==> all.dom().difference(gone@).len() < all.dom().difference(start).len(),
                !found ==> forall|j: int|
                    0 <= j < i && !gone@.contains(#[trigger] keys@[j]) && keys@[j] != lib
                        && all[keys@[j]] != lib ==> all.contains_key(all[keys@[j]])
                        && !gone@.contains(all[keys@[j]]),
            decreases keys@.len() - i,
        {
            let id: HeaderId = keys[i];
            assert(all.contains_key(id));
            if !gone.contains(&id) && !id.same(&lib) {
                if let Some(parent) = parents.get(&id) {
                    if !parent.same(&lib) && (!parents.contains_key(parent) || gone.contains(
                        parent,
                    )) {
                        proof {
                            lemma_loose_grows(all, lib, gone@, id);
                            assert(!res@.contains(id)) by {
                                if res@.contains(id) {
                                    assert(res@.to_set().contains(id));
                                }
                            }
                            res@.lemma_push_to_set_commute(id);
                            let rest = all.dom().difference(gone@);
                            assert(all.dom().difference(gone@.insert(id)) =~= rest.remove(id));
                            vstd::set_lib::lemma_len_subset(rest, all.dom().difference(start));
                        }
                        res.push(id);
                        let _ = gone.insert(id);
                        found = true;
                    }
                }
            }
            i = i + 1;
        }
        proof {
            if !found {
                assert forall|id: HeaderId| #[trigger]
                    all.contains_key(id) && !gone@.contains(id) && id != lib && all[id]
                        != lib implies all.contains_key(all[id]) && !gone@.contains(all[id]) by {
                    assert(keys@.to_set().contains(id));
                    let j = keys@.index_of(id);
                    assert(keys@[j] == id);
                }
            }
        }
    }
    proof {
        lemma_loose_is_all(all, lib, gone@);
    }
    res
}

} // verus!
