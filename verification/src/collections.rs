//! Maps and sets keyed by identifiers.
//!
//! Both keep their entries in a vector. A map never holds a key twice; the
//! order in which it lists its keys is the order in which they came in.

use vstd::prelude::*;

use crate::ids::{words_lt, Key, OrderedKey};

verus! {

/// A map from identifiers to values.
pub struct KeyMap<K: Key, V> {
    entries: Vec<(K, V)>,
}

/// The keys of an entry list, in list order.
pub open spec fn keys_of<K, V>(entries: Seq<(K, V)>) -> Seq<K> {
    entries.map_values(|e: (K, V)| e.0)
}

/// The map that a list of entries with distinct keys spells.
pub open spec fn map_of<K, V>(entries: Seq<(K, V)>) -> Map<K, V> {
    Map::new(
        |k: K| keys_of(entries).contains(k),
        |k: K| entries[keys_of(entries).index_of(k)].1,
    )
}

proof fn lemma_map_of_entry<K, V>(entries: Seq<(K, V)>, i: int)
    requires
        keys_of(entries).no_duplicates(),
        0 <= i < entries.len(),
    ensures
        map_of(entries).contains_key(entries[i].0),
        map_of(entries)[entries[i].0] == entries[i].1,
{
    let keys = keys_of(entries);
    assert(keys[i] == entries[i].0);
    assert(keys.contains(entries[i].0));
    let j = keys.index_of(entries[i].0);
    assert(keys[j] == keys[i]);
    assert(i == j);
}

proof fn lemma_map_of_finite<K, V>(entries: Seq<(K, V)>)
    ensures
        map_of(entries).dom() == keys_of(entries).to_set(),
        map_of(entries).dom().finite(),
{
    broadcast use vstd::seq_lib::seq_to_set_is_finite;

    assert(map_of(entries).dom() =~= keys_of(entries).to_set());
}

impl<K: Key, V> View for KeyMap<K, V> {
    type V = Map<K, V>;

    closed spec fn view(&self) -> Map<K, V> {
        map_of(self.entries@)
    }
}

impl<K: Key, V> KeyMap<K, V> {
    #[verifier::type_invariant]
    spec fn keys_distinct(self) -> bool {
        keys_of(self.entries@).no_duplicates()
    }

    /// The keys in the order the map lists them.
    pub closed spec fn order(self) -> Seq<K> {
        keys_of(self.entries@)
    }

    /// A map has finitely many keys.
    pub broadcast proof fn lemma_finite(self)
        ensures
            (#[trigger] self@).dom().finite(),
            self@.dom() == self.order().to_set(),
    {
        lemma_map_of_finite(self.entries@);
    }

    pub fn new() -> (res: Self)
        ensures
            res@ == Map::<K, V>::empty(),
            res.order() == Seq::<K>::empty(),
    {
        let res = KeyMap { entries: Vec::new() };
        assert(res@ =~= Map::<K, V>::empty());
        assert(res.order() =~= Seq::<K>::empty());
        res
    }

    pub fn len(&self) -> (res: usize)
        ensures
            res == self@.len(),
            res == self.order().len(),
            self.order().no_duplicates(),
            self@.dom() == self.order().to_set(),
    {
        proof {
            use_type_invariant(self);
            lemma_map_of_finite(self.entries@);
            self.order().unique_seq_to_set();
        }
        self.entries.len()
    }

    pub fn is_empty(&self) -> (res: bool)
        ensures
            res == (self@ == Map::<K, V>::empty()),
            res == (self@.len() == 0),
    {
        let n: usize = self.len();
        proof {
            lemma_map_of_finite(self.entries@);
            if n == 0 {
                assert(self@ =~= Map::<K, V>::empty());
            } else {
                assert(self.order().contains(self.order()[0]));
                assert(self@.contains_key(self.order()[0]));
            }
        }
        n == 0
    }

    /// Where `key` is in the entry list.
    fn find(&self, key: &K) -> (res: Option<usize>)
        ensures
            match res {
                Some(i) => i < self.entries@.len() && self.entries@[i as int].0 == *key
                    && self@.contains_key(*key) && self@[*key] == self.entries@[i as int].1,
                None => !self@.contains_key(*key),
            },
    {
        proof {
            use_type_invariant(self);
        }
        let mut i: usize = 0;
        while i < self.entries.len()
            invariant
                i <= self.entries@.len(),
                keys_of(self.entries@).no_duplicates(),
                forall|j: int| 0 <= j < i ==> (#[trigger] self.entries@[j]).0 != *key,
            decreases self.entries@.len() - i,
        {
            if self.entries[i].0.same(key) {
                proof {
                    lemma_map_of_entry(self.entries@, i as int);
                }
                return Some(i);
            }
            i = i + 1;
        }
        proof {
            assert forall|j: int| 0 <= j < keys_of(self.entries@).len() implies keys_of(
                self.entries@,
            )[j] != *key by {
                assert(keys_of(self.entries@)[j] == self.entries@[j].0);
            }
        }
        None
    }

    pub fn contains_key(&self, key: &K) -> (res: bool)
        ensures
            res == self@.contains_key(*key),
    {
        self.find(key).is_some()
    }

    pub fn get(&self, key: &K) -> (res: Option<&V>)
        ensures
            match res {
                Some(v) => self@.contains_key(*key) && *v == self@[*key],
                None => !self@.contains_key(*key),
            },
    {
        match self.find(key) {
            Some(i) => Some(&self.entries[i].1),
            None => None,
        }
    }

    /// Maps `key` to `value`, replacing what it was mapped to.
    pub fn insert(&mut self, key: K, value: V)
        ensures
            final(self)@ == old(self)@.insert(key, value),
            final(self).order() == if old(self)@.contains_key(key) {
                old(self).order()
            } else {
                old(self).order().push(key)
            },
    {
        proof {
            use_type_invariant(&*self);
        }
        let found = self.find(&key);
        let mut entries: Vec<(K, V)> = Vec::new();
        std::mem::swap(&mut entries, &mut self.entries);
        let ghost before = entries@;
        match found {
            Some(i) => {
                entries.set(i, (key, value));
                proof {
                    assert(keys_of(entries@) =~= keys_of(before));
                    let keys = keys_of(before);
                    assert(keys[i as int] == key);
                    assert forall|k: K| keys.contains(k) implies (#[trigger] map_of(entries@)[k])
                        == map_of(before).insert(key, value)[k] by {
                        let j = keys.index_of(k);
                        if k == key {
                            assert(j == i);
                        } else {
                            assert(j != i);
                        }
                    }
                    assert(keys.contains(key));
                    assert(map_of(entries@) =~= map_of(before).insert(key, value));
                }
            },
            None => {
                entries.push((key, value));
                proof {
                    let keys = keys_of(before);
                    assert(keys_of(entries@) =~= keys.push(key));
                    assert(!keys.contains(key));
                    assert forall|k: K| keys.push(key).contains(k) == (keys.contains(k) || k == key) by {
                        if keys.contains(k) {
                            let j = keys.index_of(k);
                            assert(keys.push(key)[j] == k);
                        }
                        if k == key {
                            assert(keys.push(key)[keys.len() as int] == key);
                        }
                    }
                    assert forall|k: K| map_of(before).insert(key, value).contains_key(k) implies (
                    #[trigger] map_of(entries@)[k]) == map_of(before).insert(key, value)[k] by {
                        if k == key {
                            lemma_map_of_entry(entries@, before.len() as int);
                        } else {
                            let j = keys.index_of(k);
                            assert(entries@[j] == before[j]);
                            lemma_map_of_entry(entries@, j);
                        }
                    }
                    assert(map_of(entries@) =~= map_of(before).insert(key, value));
                }
            },
        }
        self.entries = entries;
    }

    /// Unmaps `key`, returning what it was mapped to.
    pub fn remove(&mut self, key: &K) -> (res: Option<V>)
        ensures
            final(self)@ == old(self)@.remove(*key),
            match res {
                Some(v) => old(self)@.contains_key(*key) && v == old(self)@[*key],
                None => !old(self)@.contains_key(*key),
            },
            final(self).order() == old(self).order().filter(other_than(*key)),
    {
        proof {
            use_type_invariant(&*self);
        }
        let found = self.find(key);
        match found {
            Some(i) => {
                let mut entries: Vec<(K, V)> = Vec::new();
                std::mem::swap(&mut entries, &mut self.entries);
                let ghost before = entries@;
                let removed = entries.remove(i);
                proof {
                    let keys = keys_of(before);
                    let after = keys_of(entries@);
                    assert(after =~= keys.remove(i as int));
                    assert(keys[i as int] == *key);
                    assert forall|k: K| after.contains(k) == (keys.contains(k) && k != *key) by {
                        if after.contains(k) {
                            let j = after.index_of(k);
                            assert(after[j] == if j < i { keys[j] } else { keys[j + 1] });
                        }
                        if keys.contains(k) && k != *key {
                            let j = keys.index_of(k);
                            assert(j != i);
                            if j < i {
                                assert(after[j] == k);
                            } else {
                                assert(after[j - 1] == k);
                            }
                        }
                    }
                    assert(after.no_duplicates());
                    assert forall|k: K| map_of(before).remove(*key).contains_key(k) implies (
                    #[trigger] map_of(entries@)[k]) == map_of(before).remove(*key)[k] by {
                        let j = keys.index_of(k);
                        if j < i {
                            assert(entries@[j] == before[j]);
                            lemma_map_of_entry(entries@, j);
                        } else {
                            assert(j != i);
                            assert(entries@[j - 1] == before[j]);
                            lemma_map_of_entry(entries@, j - 1);
                        }
                    }
                    assert(map_of(entries@) =~= map_of(before).remove(*key));
                    lemma_filter_out_one(keys, i as int);
                }
                self.entries = entries;
                Some(removed.1)
            },
            None => {
                proof {
                    lemma_filter_out_none(self.order(), *key);
                    assert(self@ =~= self@.remove(*key));
                }
                None
            },
        }
    }

    /// The keys, each once, in the order the map lists them.
    pub fn keys(&self) -> (res: Vec<K>)
        ensures
            res@ == self.order(),
            res@.no_duplicates(),
            res@.to_set() == self@.dom(),
            res@.len() == self@.len(),
            forall|i: int| 0 <= i < res@.len() ==> self@.contains_key(#[trigger] res@[i]),
    {
        let n: usize = self.len();
        proof {
            use_type_invariant(self);
        }
        let mut res: Vec<K> = Vec::new();
        let mut i: usize = 0;
        while i < n
            invariant
                i <= n,
                n == self.entries@.len(),
                res@ == self.order().take(i as int),
            decreases n - i,
        {
            res.push(self.entries[i].0);
            proof {
                assert(self.order().take(i + 1) =~= self.order().take(i as int).push(
                    self.order()[i as int],
                ));
            }
            i = i + 1;
        }
        proof {
            assert(res@ =~= self.order());
            assert forall|i: int| 0 <= i < res@.len() implies self@.contains_key(#[trigger] res@[i]) by {
                assert(self.order().contains(res@[i]));
            }
        }
        res
    }
}

/// The test for being another than `k`.
pub open spec fn other_than<K>(k: K) -> spec_fn(K) -> bool {
    |x: K| x != k
}

pub proof fn lemma_filter_out_none<K>(s: Seq<K>, k: K)
    requires
        !s.contains(k),
    ensures
        s.filter(other_than(k)) == s,
    decreases s.len(),
{
    reveal(Seq::filter);
    if s.len() > 0 {
        assert forall|x: K| s.drop_last().contains(x) implies s.contains(x) by {
            let j = s.drop_last().index_of(x);
            assert(s[j] == x);
        }
        lemma_filter_out_none(s.drop_last(), k);
        assert(s.contains(s.last()));
        assert(s =~= s.drop_last().push(s.last()));
    }
}

proof fn lemma_filter_out_one<K>(s: Seq<K>, i: int)
    requires
        s.no_duplicates(),
        0 <= i < s.len(),
    ensures
        s.filter(other_than(s[i])) == s.remove(i),
    decreases s.len(),
{
    reveal(Seq::filter);
    let k = s[i];
    let rest = s.drop_last();
    if i == s.len() - 1 {
        assert(!rest.contains(k)) by {
            if rest.contains(k) {
                let j = rest.index_of(k);
                assert(s[j] == k);
            }
        }
        lemma_filter_out_none(rest, k);
        assert(s.remove(i) =~= rest);
    } else {
        assert(rest[i] == k);
        lemma_filter_out_one(rest, i);
        assert(s.remove(i) =~= rest.remove(i).push(s.last()));
    }
}

/// A set of identifiers.
pub struct KeySet<K: Key> {
    items: Vec<K>,
}

impl<K: Key> View for KeySet<K> {
    type V = Set<K>;

    closed spec fn view(&self) -> Set<K> {
        self.items@.to_set()
    }
}

impl<K: Key> KeySet<K> {
    /// A set has finitely many members.
    pub broadcast proof fn lemma_finite(self)
        ensures
            (#[trigger] self@).finite(),
    {
        broadcast use vstd::seq_lib::seq_to_set_is_finite;

    }

    pub fn new() -> (res: Self)
        ensures
            res@ == Set::<K>::empty(),
    {
        let res = KeySet { items: Vec::new() };
        assert(res@ =~= Set::<K>::empty());
        res
    }

    pub fn contains(&self, key: &K) -> (res: bool)
        ensures
            res == self@.contains(*key),
    {
        let mut i: usize = 0;
        while i < self.items.len()
            invariant
                i <= self.items@.len(),
                forall|j: int| 0 <= j < i ==> self.items@[j] != *key,
            decreases self.items@.len() - i,
        {
            if self.items[i].same(key) {
                assert(self.items@.contains(*key));
                return true;
            }
            i = i + 1;
        }
        false
    }

    /// Adds `key`; true when it was not in the set.
    pub fn insert(&mut self, key: K) -> (res: bool)
        ensures
            final(self)@ == old(self)@.insert(key),
            res == !old(self)@.contains(key),
    {
        if self.contains(&key) {
            assert(self@ =~= old(self)@.insert(key));
            false
        } else {
            self.items.push(key);
            proof {
                old(self).items@.lemma_push_to_set_commute(key);
            }
            true
        }
    }

    /// Takes `key` out; true when it was in the set.
    pub fn remove(&mut self, key: &K) -> (res: bool)
        ensures
            final(self)@ == old(self)@.remove(*key),
            res == old(self)@.contains(*key),
    {
        let was_in: bool = self.contains(key);
        let mut kept: Vec<K> = Vec::new();
        let mut i: usize = 0;
        assert(kept@.to_set() =~= self.items@.take(0).to_set().remove(*key));
        while i < self.items.len()
            invariant
                i <= self.items@.len(),
                kept@.to_set() == self.items@.take(i as int).to_set().remove(*key),
            decreases self.items@.len() - i,
        {
            proof {
                let before = self.items@.take(i as int);
                assert(self.items@.take(i + 1) =~= before.push(self.items@[i as int]));
                before.lemma_push_to_set_commute(self.items@[i as int]);
                kept@.lemma_push_to_set_commute(self.items@[i as int]);
            }
            if !self.items[i].same(key) {
                kept.push(self.items[i]);
            }
            assert(kept@.to_set() =~= self.items@.take(i + 1).to_set().remove(*key));
            i = i + 1;
        }
        assert(self.items@.take(i as int) =~= self.items@);
        self.items = kept;
        was_in
    }

    /// Adds all of another set.
    pub fn extend(&mut self, other: &KeySet<K>)
        ensures
            final(self)@ == old(self)@.union(other@),
    {
        assert(self@ =~= old(self)@.union(other.items@.take(0).to_set()));
        let mut i: usize = 0;
        while i < other.items.len()
            invariant
                i <= other.items@.len(),
                self@ == old(self)@.union(other.items@.take(i as int).to_set()),
            decreases other.items@.len() - i,
        {
            proof {
                let before = other.items@.take(i as int);
                assert(other.items@.take(i + 1) =~= before.push(other.items@[i as int]));
                before.lemma_push_to_set_commute(other.items@[i as int]);
            }
            let _ = self.insert(other.items[i]);
            assert(self@ =~= old(self)@.union(other.items@.take(i + 1).to_set()));
            i = i + 1;
        }
        assert(other.items@.take(i as int) =~= other.items@);
    }
}

/// Strictly ascending in the order of the words.
pub open spec fn ascending<K: OrderedKey>(s: Seq<K>) -> bool {
    forall|i: int, j: int|
        0 <= i < j < s.len() ==> words_lt(#[trigger] s[i].words(), #[trigger] s[j].words())
}

/// Inserts `key` into an ascending list unless it is there.
pub fn insert_sorted<K: OrderedKey>(list: &mut Vec<K>, key: K)
    requires
        ascending(old(list)@),
    ensures
        ascending(final(list)@),
        final(list)@.to_set() == old(list)@.to_set().insert(key),
{
    let mut i: usize = 0;
    while i < list.len() && list[i].precedes(&key)
        invariant
            i <= list@.len(),
            list@ == old(list)@,
            forall|j: int| 0 <= j < i ==> words_lt((#[trigger] list@[j]).words(), key.words()),
        decreases list@.len() - i,
    {
        i = i + 1;
    }
    let present: bool = i < list.len() && list[i].same(&key);
    if present {
        assert(list@.to_set() =~= old(list)@.to_set().insert(key)) by {
            assert(list@.contains(list@[i as int]));
        }
    } else {
        proof {
            if i < list@.len() {
                K::words_identify(list@[i as int], key);
            }
        }
        list.insert(i, key);
        proof {
            let before = old(list)@;
            let after = list@;
            assert forall|a: int, b: int| 0 <= a < b < after.len() implies words_lt(
                #[trigger] after[a].words(),
                #[trigger] after[b].words(),
            ) by {
                let pa = if a <= i { a } else { a - 1 };
                let pb = if b <= i { b } else { b - 1 };
                if a != i && b != i {
                    assert(after[a] == before[pa] && after[b] == before[pb]);
                    assert(words_lt(before[pa].words(), before[pb].words()));
                } else if a == i {
                    assert(after[b] == before[b - 1]);
                    if b - 1 > i {
                        assert(words_lt(before[i as int].words(), before[b - 1].words()));
                    }
                } else {
                    assert(after[a] == before[a]);
                }
            }
            assert forall|k: K| after.contains(k) == (before.contains(k) || k == key) by {
                if after.contains(k) {
                    let j = after.index_of(k);
                    if j < i {
                        assert(before[j] == k);
                    } else if j > i {
                        assert(before[j - 1] == k);
                    }
                }
                if before.contains(k) {
                    let j = before.index_of(k);
                    if j < i {
                        assert(after[j] == k);
                    } else {
                        assert(after[j + 1] == k);
                    }
                }
                assert(after[i as int] == key);
            }
            assert(after.to_set() =~= before.to_set().insert(key));
        }
    }
}

/// Two ascending lists with the same members are the same list.
pub proof fn law_ascending_determined<K: OrderedKey>(a: Seq<K>, b: Seq<K>)
    requires
        ascending(a),
        ascending(b),
        a.to_set() == b.to_set(),
    ensures
        a == b,
    decreases a.len(),
{
    if a.len() == 0 {
        if b.len() > 0 {
            assert(b.to_set().contains(b[0]));
            assert(a.contains(b[0]));
        }
        assert(a =~= b);
    } else {
        assert(a.to_set().contains(a[a.len() - 1]));
        assert(b.contains(a[a.len() - 1]));
        let ia = b.index_of(a[a.len() - 1]);
        assert(b.to_set().contains(b[b.len() - 1]));
        assert(a.contains(b[b.len() - 1]));
        let ib = a.index_of(b[b.len() - 1]);
        if ia < b.len() - 1 && ib < a.len() - 1 {
            assert(words_lt(b[ia].words(), b[b.len() - 1].words()));
            assert(words_lt(a[ib].words(), a[a.len() - 1].words()));
        }
        assert(a.last() == b.last());
        let pa = a.drop_last();
        let pb = b.drop_last();
        assert forall|k: K| pa.contains(k) == pb.contains(k) by {
            if pa.contains(k) {
                let i = pa.index_of(k);
                assert(a[i] == k);
                assert(a.to_set().contains(k));
                assert(b.contains(k));
                let j = b.index_of(k);
                assert(words_lt(a[i].words(), a[a.len() - 1].words()));
                assert(j != b.len() - 1);
                assert(pb[j] == k);
            }
            if pb.contains(k) {
                let i = pb.index_of(k);
                assert(b[i] == k);
                assert(b.to_set().contains(k));
                assert(a.contains(k));
                let j = a.index_of(k);
                assert(words_lt(b[i].words(), b[b.len() - 1].words()));
                assert(j != a.len() - 1);
                assert(pa[j] == k);
            }
        }
        assert(pa.to_set() =~= pb.to_set());
        law_ascending_determined(pa, pb);
        assert(a =~= pa.push(a.last()));
        assert(b =~= pb.push(b.last()));
    }
}

/// The members of a finite set in ascending order.
pub open spec fn sorted_seq<K: OrderedKey>(set: Set<K>) -> Seq<K> {
    choose|s: Seq<K>| #![trigger ascending(s)] ascending(s) && s.to_set() == set
}

/// An ascending list with the members of a set is the sorted list of the set.
pub proof fn lemma_sorted_seq_is<K: OrderedKey>(s: Seq<K>)
    requires
        ascending(s),
    ensures
        sorted_seq(s.to_set()) == s,
{
    law_ascending_determined(sorted_seq(s.to_set()), s);
}

/// `key` in its place in an ascending list.
spec fn placed<K: OrderedKey>(s: Seq<K>, key: K) -> Seq<K>
    decreases s.len(),
{
    if s.len() == 0 {
        seq![key]
    } else if words_lt(s.last().words(), key.words()) {
        s.push(key)
    } else {
        placed(s.drop_last(), key).push(s.last())
    }
}

proof fn lemma_placed<K: OrderedKey>(s: Seq<K>, key: K)
    requires
        ascending(s),
        !s.contains(key),
    ensures
        ascending(placed(s, key)),
        placed(s, key).to_set() == s.to_set().insert(key),
    decreases s.len(),
{
    if s.len() == 0 {
        assert(seq![key] =~= s.push(key));
        s.lemma_push_to_set_commute(key);
    } else if words_lt(s.last().words(), key.words()) {
        s.lemma_push_to_set_commute(key);
        let all = s.push(key);
        assert forall|i: int, j: int| 0 <= i < j < all.len() implies words_lt(
            #[trigger] all[i].words(),
            #[trigger] all[j].words(),
        ) by {
            if j == s.len() && i < s.len() - 1 {
                assert(words_lt(s[i].words(), s[s.len() - 1].words()));
            }
        }
    } else {
        let front = s.drop_last();
        let last = s.last();
        assert(!front.contains(key)) by {
            if front.contains(key) {
                assert(s[front.index_of(key)] == key);
            }
        }
        assert(s[s.len() - 1] == last);
        K::words_identify(last, key);
        assert(words_lt(key.words(), last.words()));
        lemma_placed(front, key);
        let list = placed(front, key);
        let all = list.push(last);
        list.lemma_push_to_set_commute(last);
        front.lemma_push_to_set_commute(last);
        assert(s =~= front.push(last));
        assert(all.to_set() =~= s.to_set().insert(key));
        assert forall|i: int, j: int| 0 <= i < j < all.len() implies words_lt(
            #[trigger] all[i].words(),
            #[trigger] all[j].words(),
        ) by {
            if j == list.len() {
                assert(list.to_set().contains(list[i]));
                assert(front.to_set().insert(key).contains(list[i]));
                if list[i] != key {
                    let k = front.index_of(list[i]);
                    assert(s[k] == list[i]);
                    assert(words_lt(s[k].words(), s[s.len() - 1].words()));
                }
            }
        }
    }
}

/// A finite set has a sorted list.
pub proof fn lemma_sorted_seq_lists<K: OrderedKey>(set: Set<K>)
    requires
        set.finite(),
    ensures
        ascending(sorted_seq(set)),
        sorted_seq(set).to_set() == set,
    decreases set.len(),
{
    if set.len() == 0 {
        assert(set =~= Seq::<K>::empty().to_set());
        assert(ascending(Seq::<K>::empty()));
    } else {
        let key = set.choose();
        let rest = set.remove(key);
        lemma_sorted_seq_lists(rest);
        let list = sorted_seq(rest);
        assert(!list.contains(key)) by {
            if list.contains(key) {
                assert(list.to_set().contains(key));
            }
        }
        lemma_placed(list, key);
        assert(placed(list, key).to_set() =~= set);
        assert(ascending(placed(list, key)));
    }
}

/// The test for not being in a set.
pub open spec fn outside<K>(set: Set<K>) -> spec_fn(K) -> bool {
    |k: K| !set.contains(k)
}

/// Filtering out a set and then one more is filtering out the larger set.
pub proof fn lemma_filter_outside_insert<K>(s: Seq<K>, set: Set<K>, k: K)
    ensures
        s.filter(outside(set)).filter(other_than(k)) == s.filter(outside(set.insert(k))),
    decreases s.len(),
{
    reveal(Seq::filter);
    if s.len() > 0 {
        lemma_filter_outside_insert(s.drop_last(), set, k);
        let inner = s.drop_last().filter(outside(set));
        inner.lemma_filter_push(s.last(), other_than(k));
    }
}

/// Filtering out nothing changes nothing.
pub proof fn lemma_filter_outside_empty<K>(s: Seq<K>)
    ensures
        s.filter(outside(Set::empty())) == s,
    decreases s.len(),
{
    reveal(Seq::filter);
    if s.len() > 0 {
        lemma_filter_outside_empty(s.drop_last());
        assert(s =~= s.drop_last().push(s.last()));
    }
}

} // verus!
