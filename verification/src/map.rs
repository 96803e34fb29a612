//! An ordered map whose keys are texts or lists of texts.

use vstd::prelude::*;

use crate::text::{
    lemma_parts_lt_irreflexive, lemma_parts_lt_total, lemma_parts_lt_transitive, parts_lt,
};
use crate::types::{views, Record};

verus! {

/// A key made of one or more texts, ordered part by part.
pub trait TextKey: Sized {
    /// The texts of the key.
    spec fn parts(&self) -> Seq<Seq<char>>;

    /// Whether this key comes before the other.
    fn precedes(&self, other: &Self) -> (r: bool)
        ensures
            r == parts_lt(self.parts(), other.parts()),
    ;

    /// Whether the two keys have the same texts.
    fn same_key(&self, other: &Self) -> (r: bool)
        ensures
            r == (self.parts() == other.parts()),
    ;

    /// A second key with the same texts.
    fn copy_key(&self) -> (r: Self)
        ensures
            r.parts() == self.parts(),
    ;
}

/// An entry of an ordered map.
#[derive(Debug)]
pub struct Entry<K, V> {
    pub key: K,
    pub value: V,
}

/// A map that keeps its entries in the order of their keys.
#[derive(Debug)]
pub struct OrderedMap<K: TextKey, V> {
    pub entries: Vec<Entry<K, V>>,
}

/// The entries stand in strictly ascending key order.
pub open spec fn ascending<K: TextKey, V>(entries: Seq<Entry<K, V>>) -> bool {
    forall|i: int, j: int|
        0 <= i < j < entries.len() ==> parts_lt(
            (#[trigger] entries[i]).key.parts(),
            (#[trigger] entries[j]).key.parts(),
        )
}

/// `parts` is the key of one of the entries.
pub open spec fn has_key<K: TextKey, V>(entries: Seq<Entry<K, V>>, parts: Seq<Seq<char>>) -> bool {
    exists|i: int| 0 <= i < entries.len() && (#[trigger] entries[i]).key.parts() == parts
}

/// The position of the entry with key `parts`.
pub open spec fn key_position<K: TextKey, V>(
    entries: Seq<Entry<K, V>>,
    parts: Seq<Seq<char>>,
) -> int {
    choose|i: int| 0 <= i < entries.len() && (#[trigger] entries[i]).key.parts() == parts
}

impl<K: TextKey, V> View for OrderedMap<K, V> {
    type V = Map<Seq<Seq<char>>, V>;

    open spec fn view(&self) -> Map<Seq<Seq<char>>, V> {
        Map::new(
            |parts: Seq<Seq<char>>| has_key(self.entries@, parts),
            |parts: Seq<Seq<char>>| self.entries@[key_position(self.entries@, parts)].value,
        )
    }
}

/// In ascending entries a key stands at one position only.
pub proof fn lemma_key_position<K: TextKey, V>(entries: Seq<Entry<K, V>>, i: int)
    requires
        ascending(entries),
        0 <= i < entries.len(),
    ensures
        has_key(entries, entries[i].key.parts()),
        key_position(entries, entries[i].key.parts()) == i,
{
    let parts = entries[i].key.parts();
    let p = key_position(entries, parts);
    assert(entries[p].key.parts() == parts);
    if p != i {
        lemma_parts_lt_irreflexive(parts);
    }
}

impl<K: TextKey, V> OrderedMap<K, V> {
    /// The entries stand in strictly ascending key order.
    pub open spec fn wf(&self) -> bool {
        ascending(self.entries@)
    }

    /// The map without entries.
    pub fn new() -> (r: Self)
        ensures
            r.wf(),
            r@ == Map::<Seq<Seq<char>>, V>::empty(),
            r.entries@.len() == 0,
    {
        let r = OrderedMap { entries: Vec::new() };
        assert(r@ =~= Map::<Seq<Seq<char>>, V>::empty());
        r
    }

    /// The number of entries.
    pub fn len(&self) -> (r: usize)
        ensures
            r == self.entries@.len(),
    {
        self.entries.len()
    }

    /// The position of the first entry whose key does not come before `key`.
    fn lower_bound(&self, key: &K) -> (r: usize)
        requires
            self.wf(),
        ensures
            r <= self.entries@.len(),
            forall|i: int|
                0 <= i < r ==> parts_lt((#[trigger] self.entries@[i]).key.parts(), key.parts()),
            r < self.entries@.len() ==> !parts_lt(
                self.entries@[r as int].key.parts(),
                key.parts(),
            ),
    {
        let mut i: usize = 0;
        while i < self.entries.len()
            invariant
                i <= self.entries@.len(),
                forall|k: int|
                    0 <= k < i ==> parts_lt((#[trigger] self.entries@[k]).key.parts(), key.parts()),
            decreases self.entries@.len() - i,
        {
            if !self.entries[i].key.precedes(key) {
                return i;
            }
            i = i + 1;
        }
        i
    }

    proof fn lemma_absent(&self, r: int, parts: Seq<Seq<char>>)
        requires
            self.wf(),
            0 <= r <= self.entries@.len(),
            forall|i: int|
                0 <= i < r ==> parts_lt((#[trigger] self.entries@[i]).key.parts(), parts),
            r < self.entries@.len() ==> parts_lt(parts, self.entries@[r].key.parts()),
        ensures
            !has_key(self.entries@, parts),
            forall|i: int|
                r <= i < self.entries@.len() ==> parts_lt(
                    parts,
                    (#[trigger] self.entries@[i]).key.parts(),
                ),
    {
        assert forall|i: int| r <= i < self.entries@.len() implies parts_lt(
            parts,
            (#[trigger] self.entries@[i]).key.parts(),
        ) by {
            if i > r {
                lemma_parts_lt_transitive(
                    parts,
                    self.entries@[r].key.parts(),
                    self.entries@[i].key.parts(),
                );
            }
        }
        if has_key(self.entries@, parts) {
            let p = key_position(self.entries@, parts);
            assert(self.entries@[p].key.parts() == parts);
            lemma_parts_lt_irreflexive(parts);
        }
    }

    /// The position of a key.
    pub fn find(&self, key: &K) -> (r: Option<usize>)
        requires
            self.wf(),
        ensures
            r is Some <==> self@.dom().contains(key.parts()),
            r matches Some(i) ==> i < self.entries@.len() && self.entries@[i as int].key.parts()
                == key.parts() && self.entries@[i as int].value == self@[key.parts()],
    {
        let i = self.lower_bound(key);
        if i < self.entries.len() && self.entries[i].key.same_key(key) {
            proof {
                lemma_key_position(self.entries@, i as int);
            }
            Some(i)
        } else {
            proof {
                if i < self.entries@.len() {
                    lemma_parts_lt_total(self.entries@[i as int].key.parts(), key.parts());
                }
                self.lemma_absent(i as int, key.parts());
            }
            None
        }
    }

    /// The value of a key.
    pub fn get(&self, key: &K) -> (r: Option<&V>)
        requires
            self.wf(),
        ensures
            match r {
                Some(v) => self@.dom().contains(key.parts()) && *v == self@[key.parts()],
                None => !self@.dom().contains(key.parts()),
            },
    {
        match self.find(key) {
            Some(i) => Some(&self.entries[i].value),
            None => None,
        }
    }

    /// Whether a key has a value.
    pub fn contains_key(&self, key: &K) -> (r: bool)
        requires
            self.wf(),
        ensures
            r == self@.dom().contains(key.parts()),
    {
        self.find(key).is_some()
    }

    /// Gives a key a value, in place of the one that it had.
    pub fn insert(&mut self, key: K, value: V) -> (r: Option<V>)
        requires
            old(self).wf(),
        ensures
            final(self).wf(),
            final(self)@ == old(self)@.insert(key.parts(), value),
            match r {
                Some(v) => old(self)@.dom().contains(key.parts()) && v == old(self)@[key.parts()],
                None => !old(self)@.dom().contains(key.parts()),
            },
    {
        let i = self.lower_bound(&key);
        let ghost before = self.entries@;
        let ghost parts = key.parts();
        let mut result: Option<V> = None;
        if i < self.entries.len() && self.entries[i].key.same_key(&key) {
            proof {
                lemma_key_position(before, i as int);
            }
            let previous = self.entries.remove(i);
            result = Some(previous.value);
            proof {
                assert forall|k: int| i <= k < self.entries@.len() implies parts_lt(
                    parts,
                    (#[trigger] self.entries@[k]).key.parts(),
                ) by {
                    assert(self.entries@[k] == before[k + 1]);
                    assert(before[i as int].key.parts() == parts);
                }
            }
        } else {
            proof {
                if i < before.len() {
                    lemma_parts_lt_total(before[i as int].key.parts(), parts);
                }
                self.lemma_absent(i as int, parts);
            }
        }
        let ghost middle = self.entries@;
        self.entries.insert(i, Entry { key, value });
        proof {
            let after = self.entries@;
            assert forall|a: int, b: int| 0 <= a < b < after.len() implies parts_lt(
                (#[trigger] after[a]).key.parts(),
                (#[trigger] after[b]).key.parts(),
            ) by {
                if a < i {
                    assert(after[a] == before[a]);
                }
                if b > i {
                    assert(after[b] == middle[b - 1]);
                }
                if a > i {
                    assert(after[a] == middle[a - 1]);
                }
                if b < i {
                    assert(after[b] == before[b]);
                }
                if a < i && b > i {
                    lemma_parts_lt_transitive(after[a].key.parts(), parts, after[b].key.parts());
                }
                if result is Some && a > i {
                    assert(middle[a - 1] == before[a]);
                    assert(middle[b - 1] == before[b]);
                }
            }
            assert(ascending(after));
            assert forall|p: Seq<Seq<char>>|
                has_key(after, p) == (has_key(before, p) || p == parts) by {
                if has_key(before, p) {
                    let q = key_position(before, p);
                    assert(before[q].key.parts() == p);
                    if q < i {
                        assert(after[q] == before[q]);
                    } else if result is Some {
                        if q > i {
                            assert(after[q] == before[q]);
                        } else {
                            assert(after[i as int].key.parts() == parts);
                        }
                    } else {
                        assert(after[q + 1] == before[q]);
                    }
                }
                if p == parts {
                    assert(after[i as int].key.parts() == parts);
                }
                if has_key(after, p) {
                    let q = key_position(after, p);
                    assert(after[q].key.parts() == p);
                    if q < i {
                        assert(before[q] == after[q]);
                    } else if q > i {
                        if result is Some {
                            assert(before[q] == after[q]);
                        } else {
                            assert(before[q - 1] == after[q]);
                        }
                    }
                }
            }
            assert forall|p: Seq<Seq<char>>| has_key(after, p) implies #[trigger] self@[p] == old(
                self,
            )@.insert(parts, value)[p] by {
                let q = key_position(after, p);
                assert(after[q].key.parts() == p);
                if p == parts {
                    lemma_key_position(after, i as int);
                } else if q < i {
                    assert(before[q] == after[q]);
                    lemma_key_position(before, q);
                } else if q > i {
                    if result is Some {
                        assert(before[q] == after[q]);
                        lemma_key_position(before, q);
                    } else {
                        assert(before[q - 1] == after[q]);
                        lemma_key_position(before, q - 1);
                    }
                }
            }
            assert(self@ =~= old(self)@.insert(parts, value));
        }
        result
    }

    /// Takes a key out of the map.
    pub fn remove(&mut self, key: &K) -> (r: Option<V>)
        requires
            old(self).wf(),
        ensures
            final(self).wf(),
            final(self)@ == old(self)@.remove(key.parts()),
            match r {
                Some(v) => old(self)@.dom().contains(key.parts()) && v == old(self)@[key.parts()],
                None => !old(self)@.dom().contains(key.parts()),
            },
    {
        match self.find(key) {
            Some(i) => {
                let entry = self.remove_at(i);
                Some(entry.value)
            },
            None => {
                assert(self@.remove(key.parts()) =~= self@);
                None
            },
        }
    }

    /// Takes the entry at a position out of the map.
    pub fn remove_at(&mut self, i: usize) -> (r: Entry<K, V>)
        requires
            old(self).wf(),
            i < old(self).entries@.len(),
        ensures
            final(self).wf(),
            r == old(self).entries@[i as int],
            final(self).entries@ == old(self).entries@.remove(i as int),
            final(self)@ == old(self)@.remove(r.key.parts()),
    {
        let ghost before = self.entries@;
        let entry = self.entries.remove(i);
        proof {
            let after = self.entries@;
            let parts = entry.key.parts();
            assert forall|a: int, b: int| 0 <= a < b < after.len() implies parts_lt(
                (#[trigger] after[a]).key.parts(),
                (#[trigger] after[b]).key.parts(),
            ) by {
                let x = if a < i { a } else { a + 1 };
                let y = if b < i { b } else { b + 1 };
                assert(after[a] == before[x]);
                assert(after[b] == before[y]);
            }
            assert forall|p: Seq<Seq<char>>|
                has_key(after, p) == (has_key(before, p) && p != parts) by {
                if has_key(after, p) {
                    let q = key_position(after, p);
                    assert(after[q].key.parts() == p);
                    let x = if q < i { q } else { q + 1 };
                    assert(after[q] == before[x]);
                    lemma_key_position(before, x);
                    lemma_key_position(before, i as int);
                }
                if has_key(before, p) && p != parts {
                    let q = key_position(before, p);
                    assert(before[q].key.parts() == p);
                    let x = if q < i { q } else { q - 1 };
                    assert(after[x] == before[q]);
                }
            }
            assert forall|p: Seq<Seq<char>>| has_key(after, p) implies #[trigger] self@[p] == old(
                self,
            )@[p] by {
                let q = key_position(after, p);
                assert(after[q].key.parts() == p);
                let x = if q < i { q } else { q + 1 };
                assert(after[q] == before[x]);
                lemma_key_position(before, x);
            }
            assert(self@ =~= old(self)@.remove(parts));
        }
        entry
    }
}

/// The keys stand in strictly ascending order.
pub open spec fn ascending_keys(keys: Seq<Seq<Seq<char>>>) -> bool {
    forall|i: int, j: int|
        0 <= i < j < keys.len() ==> parts_lt(#[trigger] keys[i], #[trigger] keys[j])
}

/// The list has exactly the keys of the set.
pub open spec fn lists_keys(keys: Seq<Seq<Seq<char>>>, dom: Set<Seq<Seq<char>>>) -> bool {
    forall|key: Seq<Seq<char>>| #[trigger] keys.contains(key) <==> dom.contains(key)
}

/// The keys of the set in ascending order.
pub open spec fn sorted_keys(dom: Set<Seq<Seq<char>>>) -> Seq<Seq<Seq<char>>> {
    choose|keys: Seq<Seq<Seq<char>>>| ascending_keys(keys) && lists_keys(keys, dom)
}

/// The values of a map in the ascending order of their keys.
pub open spec fn listed<V>(map: Map<Seq<Seq<char>>, V>) -> Seq<V> {
    let keys = sorted_keys(map.dom());
    Seq::new(keys.len(), |i: int| map[keys[i]])
}

/// What the values of a map hold.
pub open spec fn held<V: View>(map: Map<Seq<Seq<char>>, V>) -> Map<Seq<Seq<char>>, V::V> {
    Map::new(|key: Seq<Seq<char>>| map.dom().contains(key), |key: Seq<Seq<char>>| map[key]@)
}

proof fn lemma_ascending_keys_unique(a: Seq<Seq<Seq<char>>>, b: Seq<Seq<Seq<char>>>)
    requires
        ascending_keys(a),
        ascending_keys(b),
        forall|key: Seq<Seq<char>>| a.contains(key) <==> b.contains(key),
    ensures
        a == b,
    decreases a.len(),
{
    if a.len() == 0 {
        if b.len() > 0 {
            assert(b.contains(b[0]));
        }
        assert(a =~= b);
    } else {
        assert(a.contains(a.last()));
        let at = choose|j: int| 0 <= j < b.len() && b[j] == a.last();
        assert(b.contains(b.last()));
        let back = choose|j: int| 0 <= j < a.len() && a[j] == b.last();
        if at < b.len() - 1 {
            assert(parts_lt(a.last(), b.last()));
            if back < a.len() - 1 {
                lemma_parts_lt_transitive(a.last(), b.last(), a.last());
            }
            lemma_parts_lt_irreflexive(a.last());
        }
        assert(a.last() == b.last());
        let x = a.drop_last();
        let y = b.drop_last();
        assert forall|key: Seq<Seq<char>>| x.contains(key) <==> y.contains(key) by {
            if x.contains(key) {
                let i = choose|i: int| 0 <= i < x.len() && x[i] == key;
                assert(a[i] == key);
                assert(a.contains(key));
                let j = choose|j: int| 0 <= j < b.len() && b[j] == key;
                if j == b.len() - 1 {
                    lemma_parts_lt_irreflexive(key);
                }
                assert(y[j] == key);
            }
            if y.contains(key) {
                let i = choose|i: int| 0 <= i < y.len() && y[i] == key;
                assert(b[i] == key);
                assert(b.contains(key));
                let j = choose|j: int| 0 <= j < a.len() && a[j] == key;
                if j == a.len() - 1 {
                    lemma_parts_lt_irreflexive(key);
                }
                assert(x[j] == key);
            }
        }
        lemma_ascending_keys_unique(x, y);
        assert(a =~= x.push(a.last()));
        assert(b =~= y.push(b.last()));
    }
}

/// A list of keys in ascending order is the list of the keys of its set.
pub proof fn lemma_sorted_keys(keys: Seq<Seq<Seq<char>>>, dom: Set<Seq<Seq<char>>>)
    requires
        ascending_keys(keys),
        lists_keys(keys, dom),
    ensures
        sorted_keys(dom) == keys,
{
    let sorted = sorted_keys(dom);
    assert(ascending_keys(sorted) && lists_keys(sorted, dom));
    assert forall|key: Seq<Seq<char>>| sorted.contains(key) <==> keys.contains(key) by {
        assert(sorted.contains(key) <==> dom.contains(key));
        assert(keys.contains(key) <==> dom.contains(key));
    }
    lemma_ascending_keys_unique(sorted, keys);
}

proof fn lemma_key_added(keys: Seq<Seq<Seq<char>>>, key: Seq<Seq<char>>) -> (more: Seq<
    Seq<Seq<char>>,
>)
    requires
        ascending_keys(keys),
        !keys.contains(key),
    ensures
        ascending_keys(more),
        forall|k: Seq<Seq<char>>| #[trigger] more.contains(k) <==> keys.contains(k) || k == key,
    decreases keys.len(),
{
    if keys.len() == 0 {
        let more = seq![key];
        assert(more[0] == key);
        more
    } else {
        let last = keys.last();
        let rest = keys.drop_last();
        assert(keys =~= rest.push(last));
        assert(keys[keys.len() - 1] == last);
        lemma_parts_lt_total(last, key);
        if parts_lt(last, key) {
            let more = keys.push(key);
            assert forall|i: int, j: int| 0 <= i < j < more.len() implies parts_lt(
                #[trigger] more[i],
                #[trigger] more[j],
            ) by {
                if j == keys.len() && i < keys.len() - 1 {
                    lemma_parts_lt_transitive(keys[i], last, key);
                }
            }
            assert forall|k: Seq<Seq<char>>| #[trigger] more.contains(k) <==> keys.contains(k) || k
                == key by {
                if keys.contains(k) {
                    let i = choose|i: int| 0 <= i < keys.len() && keys[i] == k;
                    assert(more[i] == k);
                }
                assert(more[keys.len() as int] == key);
            }
            more
        } else {
            assert forall|k: Seq<Seq<char>>| #[trigger] rest.contains(k) implies keys.contains(
                k,
            ) by {
                let i = choose|i: int| 0 <= i < rest.len() && rest[i] == k;
                assert(keys[i] == k);
            }
            let more = lemma_key_added(rest, key);
            let all = more.push(last);
            assert forall|i: int, j: int| 0 <= i < j < all.len() implies parts_lt(
                #[trigger] all[i],
                #[trigger] all[j],
            ) by {
                if j == more.len() {
                    assert(more.contains(all[i]));
                    if all[i] != key {
                        let x = choose|x: int| 0 <= x < rest.len() && rest[x] == all[i];
                        assert(parts_lt(keys[x], keys[keys.len() - 1]));
                    }
                }
            }
            assert forall|k: Seq<Seq<char>>| #[trigger] all.contains(k) <==> keys.contains(k) || k
                == key by {
                if all.contains(k) {
                    let i = choose|i: int| 0 <= i < all.len() && all[i] == k;
                    if i < more.len() {
                        assert(more[i] == k);
                        assert(more.contains(k));
                    }
                }
                if keys.contains(k) {
                    let i = choose|i: int| 0 <= i < keys.len() && keys[i] == k;
                    if i < rest.len() {
                        assert(rest[i] == k);
                        assert(more.contains(k));
                    }
                }
                if more.contains(k) {
                    let i = choose|i: int| 0 <= i < more.len() && more[i] == k;
                    assert(all[i] == k);
                }
                assert(more.contains(key));
                assert(all[more.len() as int] == last);
            }
            all
        }
    }
}

proof fn lemma_some_listing(dom: Set<Seq<Seq<char>>>) -> (keys: Seq<Seq<Seq<char>>>)
    requires
        dom.finite(),
    ensures
        ascending_keys(keys),
        lists_keys(keys, dom),
    decreases dom.len(),
{
    if dom.len() == 0 {
        let keys = Seq::<Seq<Seq<char>>>::empty();
        assert(dom =~= Set::empty());
        keys
    } else {
        let key = dom.choose();
        let keys = lemma_some_listing(dom.remove(key));
        assert(!keys.contains(key));
        lemma_key_added(keys, key)
    }
}

/// The values of a finite map can be listed, and each of them is.
pub proof fn lemma_listing<V>(map: Map<Seq<Seq<char>>, V>)
    requires
        map.dom().finite(),
    ensures
        ascending_keys(sorted_keys(map.dom())),
        lists_keys(sorted_keys(map.dom()), map.dom()),
        forall|key: Seq<Seq<char>>| #[trigger]
            map.dom().contains(key) ==> listed(map).contains(map[key]),
{
    let dom = map.dom();
    let keys = lemma_some_listing(dom);
    lemma_sorted_keys(keys, dom);
    assert forall|key: Seq<Seq<char>>| #[trigger] dom.contains(key) implies listed(map).contains(
        map[key],
    ) by {
        assert(keys.contains(key));
        let i = choose|i: int| 0 <= i < keys.len() && keys[i] == key;
        assert(listed(map)[i] == map[key]);
    }
}

impl<K: TextKey, V> OrderedMap<K, V> {
    /// The keys in order.
    pub open spec fn keys(&self) -> Seq<Seq<Seq<char>>> {
        Seq::new(self.entries@.len(), |i: int| self.entries@[i].key.parts())
    }

    /// The entries stand in the order in which the map lists its values.
    pub proof fn lemma_listed(&self)
        requires
            self.wf(),
        ensures
            sorted_keys(self@.dom()) == self.keys(),
            listed(self@).len() == self.entries@.len(),
            forall|i: int|
                0 <= i < self.entries@.len() ==> #[trigger] listed(self@)[i]
                    == self.entries@[i].value,
            self@.dom().finite(),
    {
        let keys = self.keys();
        assert(ascending_keys(keys));
        assert forall|key: Seq<Seq<char>>| #[trigger] keys.contains(key) <==> self@.dom().contains(
            key,
        ) by {
            if keys.contains(key) {
                let i = choose|i: int| 0 <= i < keys.len() && keys[i] == key;
                assert(self.entries@[i].key.parts() == key);
            }
            if self@.dom().contains(key) {
                let i = key_position(self.entries@, key);
                assert(self.entries@[i].key.parts() == key);
                assert(keys[i] == key);
            }
        }
        lemma_sorted_keys(keys, self@.dom());
        assert forall|i: int| 0 <= i < self.entries@.len() implies #[trigger] listed(self@)[i]
            == self.entries@[i].value by {
            lemma_key_position(self.entries@, i);
        }
        assert(self@.dom() =~= keys.to_set());
        keys.lemma_cardinality_of_set();
    }

    /// The map has as many keys as entries.
    pub proof fn lemma_len(&self)
        requires
            self.wf(),
        ensures
            self@.dom().len() == self.entries@.len(),
    {
        let keys = self.keys();
        self.lemma_listed();
        assert forall|i: int, j: int| 0 <= i < keys.len() && 0 <= j < keys.len() && i != j implies
            keys[i] != keys[j] by {
            lemma_parts_lt_irreflexive(keys[i]);
            if i < j {
                assert(parts_lt(self.entries@[i].key.parts(), self.entries@[j].key.parts()));
            } else {
                assert(parts_lt(self.entries@[j].key.parts(), self.entries@[i].key.parts()));
            }
        }
        keys.unique_seq_to_set();
        assert(self@.dom() =~= keys.to_set()) by {
            assert forall|key: Seq<Seq<char>>| keys.to_set().contains(key) == self@.dom().contains(
                key,
            ) by {
                assert(keys.to_set().contains(key) == keys.contains(key));
                if keys.contains(key) {
                    let i = choose|i: int| 0 <= i < keys.len() && keys[i] == key;
                    assert(self.entries@[i].key.parts() == key);
                }
                if self@.dom().contains(key) {
                    let i = key_position(self.entries@, key);
                    assert(self.entries@[i].key.parts() == key);
                    assert(keys[i] == key);
                }
            }
        }
    }
}

impl<K: TextKey, V: View> OrderedMap<K, V> {
    /// The entries stand in the order in which what they hold is listed.
    pub proof fn lemma_held_listed(&self)
        requires
            self.wf(),
        ensures
            listed(held(self@)).len() == self.entries@.len(),
            forall|i: int|
                0 <= i < self.entries@.len() ==> #[trigger] listed(held(self@))[i]
                    == self.entries@[i].value@,
            held(self@).dom().finite(),
    {
        self.lemma_listed();
        assert(held(self@).dom() =~= self@.dom());
        assert forall|i: int| 0 <= i < self.entries@.len() implies #[trigger] listed(
            held(self@),
        )[i] == self.entries@[i].value@ by {
            assert(self.keys()[i] == self.entries@[i].key.parts());
            lemma_key_position(self.entries@, i);
        }
    }
}

/// What a map holds with one more entry.
pub broadcast proof fn lemma_held_insert<V: View>(
    map: Map<Seq<Seq<char>>, V>,
    key: Seq<Seq<char>>,
    value: V,
)
    ensures
        #[trigger] held(map.insert(key, value)) == held(map).insert(key, value@),
{
    assert(held(map.insert(key, value)) =~= held(map).insert(key, value@));
}

/// What a map holds with one entry less.
pub broadcast proof fn lemma_held_remove<V: View>(
    map: Map<Seq<Seq<char>>, V>,
    key: Seq<Seq<char>>,
)
    ensures
        #[trigger] held(map.remove(key)) == held(map).remove(key),
{
    assert(held(map.remove(key)) =~= held(map).remove(key));
}

/// The map without entries holds nothing.
pub broadcast proof fn lemma_held_empty<V: View>()
    ensures
        #[trigger] held(Map::<Seq<Seq<char>>, V>::empty()) == Map::<
            Seq<Seq<char>>,
            V::V,
        >::empty(),
{
    assert(held(Map::<Seq<Seq<char>>, V>::empty()) =~= Map::<Seq<Seq<char>>, V::V>::empty());
}

/// The values of a map in the order of their keys.
pub fn value_list<K: TextKey, V: Record>(map: &OrderedMap<K, V>) -> (r: Vec<V>)
    requires
        map.wf(),
    ensures
        views(r@) == listed(held(map@)),
{
    let mut r: Vec<V> = Vec::new();
    let mut i: usize = 0;
    while i < map.entries.len()
        invariant
            i <= map.entries@.len(),
            r@.len() == i,
            forall|k: int| 0 <= k < i ==> (#[trigger] r@[k])@ == map.entries@[k].value@,
        decreases map.entries@.len() - i,
    {
        r.push(map.entries[i].value.duplicate());
        i = i + 1;
    }
    proof {
        map.lemma_held_listed();
        assert(views(r@) =~= listed(held(map@)));
    }
    r
}

/// A second map that holds the same.
pub fn duplicate_map<K: TextKey, V: Record>(map: &OrderedMap<K, V>) -> (r: OrderedMap<K, V>)
    requires
        map.wf(),
    ensures
        r.wf(),
        held(r@) == held(map@),
{
    let mut entries: Vec<Entry<K, V>> = Vec::new();
    let mut i: usize = 0;
    while i < map.entries.len()
        invariant
            i <= map.entries@.len(),
            entries@.len() == i,
            forall|k: int|
                0 <= k < i ==> (#[trigger] entries@[k]).key.parts() == map.entries@[k].key.parts()
                    && entries@[k].value@ == map.entries@[k].value@,
        decreases map.entries@.len() - i,
    {
        let entry = &map.entries[i];
        entries.push(Entry { key: entry.key.copy_key(), value: entry.value.duplicate() });
        i = i + 1;
    }
    let r = OrderedMap { entries };
    proof {
        let a = map.entries@;
        let b = r.entries@;
        assert forall|i: int, j: int| 0 <= i < j < b.len() implies parts_lt(
            (#[trigger] b[i]).key.parts(),
            (#[trigger] b[j]).key.parts(),
        ) by {
            assert(parts_lt(a[i].key.parts(), a[j].key.parts()));
        }
        assert forall|p: Seq<Seq<char>>| #[trigger] has_key(a, p) == has_key(b, p) by {
            if has_key(a, p) {
                let i = choose|i: int| 0 <= i < a.len() && (#[trigger] a[i]).key.parts() == p;
                assert(b[i].key.parts() == p);
            }
            if has_key(b, p) {
                let i = choose|i: int| 0 <= i < b.len() && (#[trigger] b[i]).key.parts() == p;
                assert(a[i].key.parts() == p);
            }
        }
        assert forall|p: Seq<Seq<char>>| has_key(a, p) implies #[trigger] held(r@)[p] == held(
            map@,
        )[p] by {
            let i = key_position(a, p);
            assert(a[i].key.parts() == p);
            assert(b[i].key.parts() == p);
            assert(has_key(b, p));
            lemma_key_position(a, i);
            lemma_key_position(b, i);
        }
        assert(held(r@) =~= held(map@));
    }
    r
}

} // verus!
