//! The set of transactions mined on a branch, as a persistent set: the sets of
//! neighbouring blocks share what they have in common.

use vstd::prelude::*;

use crate::ids::{Bytes32, OrderedKey, TxHash};

verus! {

/// A persistent set of transaction hashes, each as its two words, held in an
/// `rpds::HashTrieSetSync`.
#[verifier::external_body]
pub struct TxTrie {
    set: rpds::HashTrieSetSync<(u128, u128)>,
}

/// What a persistent set holds.
pub uninterp spec fn trie_items(trie: TxTrie) -> Set<(u128, u128)>;

/// `rpds::HashTrieSet::new_sync`: the new set holds nothing.
#[verifier::external_body]
fn trie_new() -> (res: TxTrie)
    ensures
        trie_items(res) == Set::<(u128, u128)>::empty(),
{
    TxTrie { set: rpds::HashTrieSetSync::new_sync() }
}

/// `rpds::HashTrieSet::clone`: the copy holds what the set holds.
#[verifier::external_body]
fn trie_clone(trie: &TxTrie) -> (res: TxTrie)
    ensures
        trie_items(res) == trie_items(*trie),
{
    TxTrie { set: trie.set.clone() }
}

/// `rpds::HashTrieSet::insert`: the result holds the item besides what the set
/// holds.
#[verifier::external_body]
fn trie_insert(trie: &TxTrie, item: (u128, u128)) -> (res: TxTrie)
    ensures
        trie_items(res) == trie_items(*trie).insert(item),
{
    TxTrie { set: trie.set.insert(item) }
}

/// `rpds::HashTrieSet::remove`: the result holds what the set holds except the
/// item.
#[verifier::external_body]
fn trie_remove(trie: &TxTrie, item: (u128, u128)) -> (res: TxTrie)
    ensures
        trie_items(res) == trie_items(*trie).remove(item),
{
    TxTrie { set: trie.set.remove(&item) }
}

/// `rpds::HashTrieSet::contains`: whether the set holds the item.
#[verifier::external_body]
fn trie_contains(trie: &TxTrie, item: (u128, u128)) -> (res: bool)
    ensures
        res == trie_items(*trie).contains(item),
{
    trie.set.contains(&item)
}

/// `rpds::HashTrieSet::iter`: every item of the set, each once, in no
/// particular order.
#[verifier::external_body]
fn trie_iter(trie: &TxTrie) -> (res: Vec<(u128, u128)>)
    ensures
        res@.to_set() == trie_items(*trie),
        res@.no_duplicates(),
{
    trie.set.iter().copied().collect()
}

/// Hashes of the transactions mined on a branch.
pub struct SafeSet {
    trie: TxTrie,
}

impl View for SafeSet {
    type V = Set<TxHash>;

    closed spec fn view(&self) -> Set<TxHash> {
        Set::new(|h: TxHash| trie_items(self.trie).contains(h.words()))
    }
}

impl SafeSet {
    pub fn new() -> (res: SafeSet)
        ensures
            res@ == Set::<TxHash>::empty(),
    {
        let res = SafeSet { trie: trie_new() };
        assert(res@ =~= Set::<TxHash>::empty());
        res
    }

    pub fn copy(&self) -> (res: SafeSet)
        ensures
            res@ == self@,
    {
        SafeSet { trie: trie_clone(&self.trie) }
    }

    pub fn contains(&self, hash: &TxHash) -> (res: bool)
        ensures
            res == self@.contains(*hash),
    {
        trie_contains(&self.trie, (hash.0.hi, hash.0.lo))
    }

    /// The set with `hash` added.
    pub fn insert(&self, hash: TxHash) -> (res: SafeSet)
        ensures
            res@ == self@.insert(hash),
    {
        let res = SafeSet { trie: trie_insert(&self.trie, (hash.0.hi, hash.0.lo)) };
        assert(res@ =~= self@.insert(hash)) by {
            assert forall|h: TxHash| res@.contains(h) == self@.insert(hash).contains(h) by {
                TxHash::words_identify(h, hash);
            }
        }
        res
    }

    /// The set with `hash` taken out.
    pub fn remove(&self, hash: &TxHash) -> (res: SafeSet)
        ensures
            res@ == self@.remove(*hash),
    {
        let res = SafeSet { trie: trie_remove(&self.trie, (hash.0.hi, hash.0.lo)) };
        assert(res@ =~= self@.remove(*hash)) by {
            assert forall|h: TxHash| res@.contains(h) == self@.remove(*hash).contains(h) by {
                TxHash::words_identify(h, *hash);
            }
        }
        res
    }

    /// The members, each once.
    pub fn to_vec(&self) -> (res: Vec<TxHash>)
        ensures
            res@.to_set() == self@,
            res@.no_duplicates(),
    {
        let items = trie_iter(&self.trie);
        let mut res: Vec<TxHash> = Vec::new();
        let mut i: usize = 0;
        while i < items.len()
            invariant
                i <= items@.len(),
                res@.len() == i,
                forall|j: int| 0 <= j < i ==> (#[trigger] res@[j]).words() == items@[j],
            decreases items@.len() - i,
        {
            res.push(TxHash(Bytes32 { hi: items[i].0, lo: items[i].1 }));
            i = i + 1;
        }
        proof {
            assert forall|h: TxHash| res@.to_set().contains(h) == self@.contains(h) by {
                if res@.contains(h) {
                    let j = res@.index_of(h);
                    assert(items@.to_set().contains(items@[j]));
                }
                if self@.contains(h) {
                    assert(items@.to_set().contains(h.words()));
                    let j = items@.index_of(h.words());
                    TxHash::words_identify(res@[j], h);
                    assert(res@[j] == h);
                }
            }
            assert(res@.to_set() =~= self@);
            assert forall|a: int, b: int| 0 <= a < b < res@.len() implies res@[a] != res@[b] by {
                assert(items@[a] != items@[b]);
                assert(res@[a].words() == items@[a] && res@[b].words() == items@[b]);
            }
        }
        res
    }
}

} // verus!
