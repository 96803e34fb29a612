//! Sorting by keys made of numbers and byte strings.

use vstd::prelude::*;

use crate::text::{
    bytes_lt, lemma_bytes_lt_irreflexive, lemma_bytes_lt_total, lemma_bytes_lt_transitive,
};
use crate::types::{views, Record};

verus! {

/// A part of a sort key.
#[derive(Debug)]
pub enum KeyPart {
    Number(i128),
    Bytes(Vec<u8>),
}

/// What a [`KeyPart`] holds.
#[verifier::ext_equal]
pub enum KeyPartView {
    Number(int),
    Bytes(Seq<u8>),
}

impl View for KeyPart {
    type V = KeyPartView;

    open spec fn view(&self) -> KeyPartView {
        match self {
            KeyPart::Number(n) => KeyPartView::Number(*n as int),
            KeyPart::Bytes(b) => KeyPartView::Bytes(b@),
        }
    }
}

/// A sort key.
pub type KeyView = Seq<KeyPartView>;

/// What a sort key holds.
pub open spec fn key_view(key: Seq<KeyPart>) -> KeyView {
    Seq::new(key.len(), |i: int| key[i]@)
}

/// What a list of sort keys holds.
pub open spec fn keys_view(keys: Seq<Vec<KeyPart>>) -> Seq<KeyView> {
    Seq::new(keys.len(), |i: int| key_view(keys[i]@))
}

/// `a` comes before `b`: numbers by size, byte strings lexicographically, numbers first.
pub open spec fn part_lt(a: KeyPartView, b: KeyPartView) -> bool {
    match (a, b) {
        (KeyPartView::Number(x), KeyPartView::Number(y)) => x < y,
        (KeyPartView::Number(_), KeyPartView::Bytes(_)) => true,
        (KeyPartView::Bytes(_), KeyPartView::Number(_)) => false,
        (KeyPartView::Bytes(x), KeyPartView::Bytes(y)) => bytes_lt(x, y),
    }
}

/// `a` comes before `b` in the lexicographic order of keys.
pub open spec fn key_lt(a: KeyView, b: KeyView) -> bool
    decreases a.len(),
{
    if b.len() == 0 {
        false
    } else if a.len() == 0 {
        true
    } else if a[0] != b[0] {
        part_lt(a[0], b[0])
    } else {
        key_lt(a.skip(1), b.skip(1))
    }
}

proof fn lemma_part_lt_irreflexive(a: KeyPartView)
    ensures
        !part_lt(a, a),
{
    match a {
        KeyPartView::Bytes(x) => lemma_bytes_lt_irreflexive(x),
        _ => {},
    }
}

proof fn lemma_part_lt_transitive(a: KeyPartView, b: KeyPartView, c: KeyPartView)
    requires
        part_lt(a, b),
        part_lt(b, c),
    ensures
        part_lt(a, c),
{
    match (a, b, c) {
        (KeyPartView::Bytes(x), KeyPartView::Bytes(y), KeyPartView::Bytes(z)) => {
            lemma_bytes_lt_transitive(x, y, z);
        },
        _ => {},
    }
}

proof fn lemma_part_lt_total(a: KeyPartView, b: KeyPartView)
    ensures
        part_lt(a, b) || part_lt(b, a) || a == b,
{
    match (a, b) {
        (KeyPartView::Bytes(x), KeyPartView::Bytes(y)) => lemma_bytes_lt_total(x, y),
        _ => {},
    }
}

/// No key comes before itself.
pub proof fn lemma_key_lt_irreflexive(a: KeyView)
    ensures
        !key_lt(a, a),
    decreases a.len(),
{
    if a.len() > 0 {
        lemma_key_lt_irreflexive(a.skip(1));
    }
}

/// The order of keys is transitive.
pub proof fn lemma_key_lt_transitive(a: KeyView, b: KeyView, c: KeyView)
    requires
        key_lt(a, b),
        key_lt(b, c),
    ensures
        key_lt(a, c),
    decreases a.len(),
{
    if a.len() > 0 {
        if a[0] == b[0] && b[0] == c[0] {
            lemma_key_lt_transitive(a.skip(1), b.skip(1), c.skip(1));
        } else if a[0] != b[0] && b[0] != c[0] {
            lemma_part_lt_transitive(a[0], b[0], c[0]);
            if a[0] == c[0] {
                lemma_part_lt_irreflexive(a[0]);
            }
        }
    }
}

/// Of two different keys one comes before the other.
pub proof fn lemma_key_lt_total(a: KeyView, b: KeyView)
    ensures
        key_lt(a, b) || key_lt(b, a) || a == b,
    decreases a.len(),
{
    if a.len() > 0 && b.len() > 0 {
        if a[0] == b[0] {
            lemma_key_lt_total(a.skip(1), b.skip(1));
            if a.skip(1) == b.skip(1) {
                assert(a =~= seq![a[0]] + a.skip(1));
                assert(b =~= seq![b[0]] + b.skip(1));
            }
        } else {
            lemma_part_lt_total(a[0], b[0]);
        }
    } else if a.len() == 0 && b.len() == 0 {
        assert(a =~= b);
    }
}

fn part_precedes(a: &KeyPart, b: &KeyPart) -> (r: bool)
    ensures
        r == part_lt(a@, b@),
{
    match (a, b) {
        (KeyPart::Number(x), KeyPart::Number(y)) => *x < *y,
        (KeyPart::Number(_), KeyPart::Bytes(_)) => true,
        (KeyPart::Bytes(_), KeyPart::Number(_)) => false,
        (KeyPart::Bytes(x), KeyPart::Bytes(y)) => crate::text::bytes_precede(x, y),
    }
}

/// Whether `a` comes before `b` in the order of keys.
pub fn key_precedes(a: &Vec<KeyPart>, b: &Vec<KeyPart>) -> (r: bool)
    ensures
        r == key_lt(key_view(a@), key_view(b@)),
{
    let ghost x = key_view(a@);
    let ghost y = key_view(b@);
    let mut i: usize = 0;
    proof {
        assert(x.skip(0) =~= x);
        assert(y.skip(0) =~= y);
    }
    while i < a.len() && i < b.len()
        invariant
            i <= a@.len(),
            i <= b@.len(),
            x == key_view(a@),
            y == key_view(b@),
            key_lt(x, y) == key_lt(x.skip(i as int), y.skip(i as int)),
        decreases a@.len() - i,
    {
        proof {
            lemma_part_lt_total(x[i as int], y[i as int]);
            lemma_part_lt_irreflexive(x[i as int]);
            assert(x.skip(i as int).skip(1) =~= x.skip(i + 1));
            assert(y.skip(i as int).skip(1) =~= y.skip(i + 1));
        }
        if part_precedes(&a[i], &b[i]) {
            return true;
        }
        if part_precedes(&b[i], &a[i]) {
            proof {
                if part_lt(x[i as int], y[i as int]) {
                    lemma_part_lt_transitive(x[i as int], y[i as int], x[i as int]);
                }
            }
            return false;
        }
        i = i + 1;
    }
    i < b.len()
}

/// Where the item with key `keys[i]` goes into a list of items ordered by key: behind all that it
/// does not come before.
pub open spec fn slot(order: Seq<int>, keys: Seq<KeyView>, i: int) -> int
    decreases order.len(),
{
    if order.len() == 0 {
        0
    } else if key_lt(keys[i], keys[order.last()]) {
        slot(order.drop_last(), keys, i)
    } else {
        order.len() as int
    }
}

/// The positions `0, ..., n - 1` in the order of their keys, those with equal keys as they stand.
pub open spec fn stable_order(keys: Seq<KeyView>, n: nat) -> Seq<int>
    decreases n,
{
    if n == 0 {
        Seq::empty()
    } else {
        let before = stable_order(keys, (n - 1) as nat);
        before.insert(slot(before, keys, n - 1), n - 1)
    }
}

/// The items of a list at the given positions.
pub open spec fn pick<T>(items: Seq<T>, positions: Seq<int>) -> Seq<T> {
    Seq::new(positions.len(), |i: int| items[positions[i]])
}

/// `order` lists each position below `n` once.
pub open spec fn lists_each_once(order: Seq<int>, n: nat) -> bool {
    &&& order.len() == n
    &&& forall|a: int| 0 <= a < order.len() ==> 0 <= (#[trigger] order[a]) < n
    &&& forall|a: int, b: int| 0 <= a < b < order.len() ==> (#[trigger] order[a]) != (#[trigger] order[b])
    &&& forall|p: int| 0 <= p < n ==> #[trigger] order.contains(p)
}

/// `order` ascends by key, and keeps the positions of equal keys in order.
pub open spec fn ascends_stably(order: Seq<int>, keys: Seq<KeyView>) -> bool {
    forall|a: int, b: int|
        0 <= a < b < order.len() ==> key_lt(keys[#[trigger] order[a]], keys[#[trigger] order[b]]) || (
        keys[order[a]] == keys[order[b]] && order[a] < order[b])
}

proof fn lemma_slot(order: Seq<int>, keys: Seq<KeyView>, i: int)
    requires
        ascends_stably(order, keys),
    ensures
        0 <= slot(order, keys, i) <= order.len(),
        forall|a: int| slot(order, keys, i) <= a < order.len() ==> key_lt(keys[i], keys[#[trigger] order[a]]),
        forall|a: int|
            0 <= a < slot(order, keys, i) ==> !key_lt(keys[i], keys[#[trigger] order[a]]),
    decreases order.len(),
{
    if order.len() > 0 {
        let shorter = order.drop_last();
        if key_lt(keys[i], keys[order.last()]) {
            assert(ascends_stably(shorter, keys)) by {
                assert forall|a: int, b: int| 0 <= a < b < shorter.len() implies key_lt(
                    keys[#[trigger] shorter[a]],
                    keys[#[trigger] shorter[b]],
                ) || (keys[shorter[a]] == keys[shorter[b]] && shorter[a] < shorter[b]) by {
                    assert(shorter[a] == order[a] && shorter[b] == order[b]);
                }
            }
            lemma_slot(shorter, keys, i);
            assert forall|a: int| slot(order, keys, i) <= a < order.len() implies key_lt(
                keys[i],
                keys[#[trigger] order[a]],
            ) by {
                if a < shorter.len() {
                    assert(shorter[a] == order[a]);
                }
            }
            assert forall|a: int| 0 <= a < slot(order, keys, i) implies !key_lt(
                keys[i],
                keys[#[trigger] order[a]],
            ) by {
                assert(shorter[a] == order[a]);
            }
        } else {
            assert forall|a: int| 0 <= a < order.len() implies !key_lt(
                keys[i],
                keys[#[trigger] order[a]],
            ) by {
                if a < order.len() - 1 && key_lt(keys[i], keys[order[a]]) {
                    let last = order[order.len() - 1];
                    if key_lt(keys[order[a]], keys[last]) {
                        lemma_key_lt_transitive(keys[i], keys[order[a]], keys[last]);
                    }
                }
            }
        }
    }
}

/// Sorting lists each position once, in ascending key order, with ties as they stood.
pub proof fn law_stable_order(keys: Seq<KeyView>, n: nat)
    requires
        n <= keys.len(),
    ensures
        lists_each_once(stable_order(keys, n), n),
        ascends_stably(stable_order(keys, n), keys),
    decreases n,
{
    if n > 0 {
        let m = (n - 1) as nat;
        law_stable_order(keys, m);
        let before = stable_order(keys, m);
        lemma_slot(before, keys, m as int);
        let s = slot(before, keys, m as int);
        let after = stable_order(keys, n);
        assert(after == before.insert(s, m as int));
        assert forall|a: int| 0 <= a < after.len() implies #[trigger] after[a] == (if a < s {
            before[a]
        } else if a == s {
            m as int
        } else {
            before[a - 1]
        }) by {}
        assert forall|p: int| 0 <= p < n implies #[trigger] after.contains(p) by {
            if p == m {
                assert(after[s] == p);
            } else {
                assert(before.contains(p));
                let q = choose|q: int| 0 <= q < before.len() && before[q] == p;
                if q < s {
                    assert(after[q] == p);
                } else {
                    assert(after[q + 1] == p);
                }
            }
        }
        assert forall|a: int, b: int| 0 <= a < b < after.len() implies (#[trigger] after[a]) != (
        #[trigger] after[b]) by {
            if a < s && b < s {
                assert(before[a] != before[b]);
            } else if a < s && b > s {
                assert(before[a] != before[b - 1]);
            } else if a > s {
                assert(before[a - 1] != before[b - 1]);
            }
        }
        assert forall|a: int, b: int| 0 <= a < b < after.len() implies key_lt(
            keys[#[trigger] after[a]],
            keys[#[trigger] after[b]],
        ) || (keys[after[a]] == keys[after[b]] && after[a] < after[b]) by {
            if a < s && b == s {
                assert(!key_lt(keys[m as int], keys[before[a]]));
                lemma_key_lt_total(keys[m as int], keys[before[a]]);
                assert(before[a] < m);
            } else if a == s {
                assert(key_lt(keys[m as int], keys[before[b - 1]]));
            } else if a < s && b > s {
                assert(after[a] == before[a] && after[b] == before[b - 1]);
            } else if a > s {
                assert(after[a] == before[a - 1] && after[b] == before[b - 1]);
            }
        }
    }
}

/// The positions of a list of keys in key order, those with equal keys as they stand.
pub fn sort_positions(keys: &Vec<Vec<KeyPart>>) -> (r: Vec<usize>)
    ensures
        r@.map_values(|p: usize| p as int) == stable_order(keys_view(keys@), keys@.len()),
        r@.len() == keys@.len(),
        forall|i: int| 0 <= i < r@.len() ==> (#[trigger] r@[i]) < keys@.len(),
{
    let ghost all = keys_view(keys@);
    let mut r: Vec<usize> = Vec::new();
    let mut i: usize = 0;
    proof {
        assert(r@.map_values(|p: usize| p as int) =~= stable_order(all, 0));
    }
    while i < keys.len()
        invariant
            i <= keys@.len(),
            all == keys_view(keys@),
            r@.len() == i,
            r@.map_values(|p: usize| p as int) == stable_order(all, i as nat),
            forall|k: int| 0 <= k < r@.len() ==> (#[trigger] r@[k]) < i,
        decreases keys@.len() - i,
    {
        let ghost order = r@.map_values(|p: usize| p as int);
        let mut at: usize = r.len();
        proof {
            assert(order.take(at as int) =~= order);
        }
        while at > 0 && key_precedes(&keys[i], &keys[r[at - 1]])
            invariant
                at <= r@.len(),
                i < keys@.len(),
                all == keys_view(keys@),
                order == r@.map_values(|p: usize| p as int),
                forall|k: int| 0 <= k < r@.len() ==> (#[trigger] r@[k]) < i,
                slot(order, all, i as int) == slot(order.take(at as int), all, i as int),
            decreases at,
        {
            proof {
                assert(order.take(at as int).drop_last() =~= order.take(at - 1));
                assert(order.take(at as int).last() == order[at - 1]);
            }
            at = at - 1;
        }
        proof {
            if at > 0 {
                assert(order.take(at as int).last() == order[at - 1]);
            }
        }
        assert(slot(order, all, i as int) == at);
        r.insert(at, i);
        proof {
            assert(r@.map_values(|p: usize| p as int) =~= order.insert(at as int, i as int));
            assert forall|k: int| 0 <= k < r@.len() implies (#[trigger] r@[k]) < i + 1 by {}
        }
        i = i + 1;
    }
    r
}

/// The sort keys of a list of items.
pub open spec fn keys_of<T>(items: Seq<T>, key: spec_fn(T) -> KeyView) -> Seq<KeyView> {
    Seq::new(items.len(), |i: int| key(items[i]))
}

/// The items of a list in the order of their keys, those with equal keys as they stand.
pub open spec fn sorted_by<T>(items: Seq<T>, key: spec_fn(T) -> KeyView) -> Seq<T> {
    pick(items, stable_order(keys_of(items, key), items.len()))
}

/// The items stand in strictly ascending order of their keys.
pub open spec fn ascends_by<T>(items: Seq<T>, key: spec_fn(T) -> KeyView) -> bool {
    forall|i: int, j: int|
        0 <= i < j < items.len() ==> key_lt(key(#[trigger] items[i]), key(#[trigger] items[j]))
}

/// No two items have the same key.
pub open spec fn keys_differ<T>(items: Seq<T>, key: spec_fn(T) -> KeyView) -> bool {
    forall|i: int, j: int|
        0 <= i < j < items.len() ==> key(#[trigger] items[i]) != key(#[trigger] items[j])
}

/// Sorting gives the same items, and where no two have the same key, in strictly ascending order.
pub proof fn lemma_sorted_by<T>(items: Seq<T>, key: spec_fn(T) -> KeyView)
    ensures
        sorted_by(items, key).len() == items.len(),
        forall|x: T| sorted_by(items, key).contains(x) <==> items.contains(x),
        forall|i: int, j: int|
            0 <= i < j < items.len() ==> !key_lt(
                key(#[trigger] sorted_by(items, key)[j]),
                key(#[trigger] sorted_by(items, key)[i]),
            ),
        keys_differ(items, key) ==> ascends_by(sorted_by(items, key), key),
{
    let keys = keys_of(items, key);
    let n = items.len();
    law_stable_order(keys, n);
    let order = stable_order(keys, n);
    let sorted = sorted_by(items, key);
    assert forall|x: T| sorted.contains(x) <==> items.contains(x) by {
        if sorted.contains(x) {
            let i = choose|i: int| 0 <= i < sorted.len() && sorted[i] == x;
            assert(items[order[i]] == x);
        }
        if items.contains(x) {
            let p = choose|p: int| 0 <= p < items.len() && items[p] == x;
            assert(order.contains(p));
            let i = choose|i: int| 0 <= i < order.len() && order[i] == p;
            assert(sorted[i] == x);
        }
    }
    assert forall|i: int, j: int| 0 <= i < j < items.len() implies !key_lt(
        key(#[trigger] sorted[j]),
        key(#[trigger] sorted[i]),
    ) by {
        assert(keys[order[i]] == key(sorted[i]) && keys[order[j]] == key(sorted[j]));
        lemma_key_lt_irreflexive(keys[order[i]]);
        if key_lt(keys[order[i]], keys[order[j]]) && key_lt(keys[order[j]], keys[order[i]]) {
            lemma_key_lt_transitive(keys[order[i]], keys[order[j]], keys[order[i]]);
        }
    }
    if keys_differ(items, key) {
        assert forall|i: int, j: int| 0 <= i < j < sorted.len() implies key_lt(
            key(#[trigger] sorted[i]),
            key(#[trigger] sorted[j]),
        ) by {
            let (a, b) = (order[i], order[j]);
            assert(keys[a] == key(sorted[i]) && keys[b] == key(sorted[j]));
            assert(a != b);
            if a < b {
                assert(key(items[a]) != key(items[b]));
            } else {
                assert(key(items[b]) != key(items[a]));
            }
        }
    }
}

proof fn lemma_ascending_items_unique<T>(a: Seq<T>, b: Seq<T>, key: spec_fn(T) -> KeyView)
    requires
        ascends_by(a, key),
        ascends_by(b, key),
        forall|x: T| a.contains(x) <==> b.contains(x),
    ensures
        a == b,
    decreases a.len(),
{
    if a.len() == 0 {
        if b.len() > 0 {
            assert(b.contains(b[0]));
        }
        assert(a =~= b);
    } else {
        assert(a.contains(a.last()));
        let at = choose|j: int| 0 <= j < b.len() && b[j] == a.last();
        assert(b.contains(b.last()));
        let back = choose|j: int| 0 <= j < a.len() && a[j] == b.last();
        if at < b.len() - 1 {
            assert(key_lt(key(b[at]), key(b.last())));
            if back < a.len() - 1 {
                assert(key_lt(key(a[back]), key(a.last())));
                lemma_key_lt_transitive(key(a.last()), key(b.last()), key(a.last()));
            }
            lemma_key_lt_irreflexive(key(a.last()));
        }
        assert(a.last() == b.last());
        let x = a.drop_last();
        let y = b.drop_last();
        assert forall|item: T| x.contains(item) <==> y.contains(item) by {
            if x.contains(item) {
                let i = choose|i: int| 0 <= i < x.len() && x[i] == item;
                assert(a[i] == item);
                assert(a.contains(item));
                let j = choose|j: int| 0 <= j < b.len() && b[j] == item;
                if j == b.len() - 1 {
                    assert(key_lt(key(a[i]), key(a.last())));
                    lemma_key_lt_irreflexive(key(item));
                }
                assert(y[j] == item);
            }
            if y.contains(item) {
                let i = choose|i: int| 0 <= i < y.len() && y[i] == item;
                assert(b[i] == item);
                assert(b.contains(item));
                let j = choose|j: int| 0 <= j < a.len() && a[j] == item;
                if j == a.len() - 1 {
                    assert(key_lt(key(b[i]), key(b.last())));
                    lemma_key_lt_irreflexive(key(item));
                }
                assert(x[j] == item);
            }
        }
        lemma_ascending_items_unique(x, y, key);
        assert(a =~= x.push(a.last()));
        assert(b =~= y.push(b.last()));
    }
}

/// Sorting does not depend on how the items stood, where no two have the same key.
pub proof fn law_sorting_forgets_the_order<T>(a: Seq<T>, b: Seq<T>, key: spec_fn(T) -> KeyView)
    requires
        keys_differ(a, key),
        keys_differ(b, key),
        forall|x: T| a.contains(x) <==> b.contains(x),
    ensures
        sorted_by(a, key) == sorted_by(b, key),
{
    lemma_sorted_by(a, key);
    lemma_sorted_by(b, key);
    assert forall|x: T| sorted_by(a, key).contains(x) <==> sorted_by(b, key).contains(x) by {
        assert(sorted_by(a, key).contains(x) <==> a.contains(x));
        assert(sorted_by(b, key).contains(x) <==> b.contains(x));
    }
    lemma_ascending_items_unique(sorted_by(a, key), sorted_by(b, key), key);
}

/// A list in strictly ascending order is what sorting makes of its items.
pub proof fn lemma_sorted_is_ascending_list<T>(
    items: Seq<T>,
    list: Seq<T>,
    key: spec_fn(T) -> KeyView,
)
    requires
        keys_differ(items, key),
        ascends_by(list, key),
        forall|x: T| items.contains(x) <==> list.contains(x),
    ensures
        sorted_by(items, key) == list,
{
    lemma_sorted_by(items, key);
    assert forall|x: T| sorted_by(items, key).contains(x) <==> list.contains(x) by {
        assert(sorted_by(items, key).contains(x) <==> items.contains(x));
    }
    lemma_ascending_items_unique(sorted_by(items, key), list, key);
}

/// The records of a list in the order of the given keys, those with equal keys as they stand.
pub fn sort_records<T: Record>(items: &Vec<T>, keys: &Vec<Vec<KeyPart>>) -> (r: Vec<T>)
    requires
        keys@.len() == items@.len(),
    ensures
        views(r@) == pick(views(items@), stable_order(keys_view(keys@), keys@.len())),
        r@.len() == items@.len(),
{
    let order = sort_positions(keys);
    let ghost positions = order@.map_values(|p: usize| p as int);
    let mut r: Vec<T> = Vec::new();
    let mut i: usize = 0;
    while i < order.len()
        invariant
            i <= order@.len(),
            order@.len() == items@.len(),
            forall|k: int| 0 <= k < order@.len() ==> (#[trigger] order@[k]) < items@.len(),
            r@.len() == i,
            forall|k: int| 0 <= k < i ==> (#[trigger] r@[k])@ == items@[order@[k] as int]@,
        decreases order@.len() - i,
    {
        r.push(items[order[i]].duplicate());
        i = i + 1;
    }
    assert(views(r@) =~= pick(views(items@), positions)) by {
        assert forall|k: int| 0 <= k < r@.len() implies views(r@)[k] == pick(
            views(items@),
            positions,
        )[k] by {
            assert(positions[k] == order@[k] as int);
        }
    }
    r
}

} // verus!
