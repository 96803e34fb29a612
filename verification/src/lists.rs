//! Lists: the first result, the items kept, and the results gathered.

use vstd::prelude::*;

verus! {

/// The result of the first of `f(0)`, ..., `f(n - 1)` that gives one.
pub open spec fn first_in<E>(n: nat, f: spec_fn(int) -> Option<E>) -> Option<E>
    decreases n,
{
    if n == 0 {
        None
    } else {
        match first_in((n - 1) as nat, f) {
            Some(e) => Some(e),
            None => f(n - 1),
        }
    }
}

/// A result found among the first `m` is the result among the first `n >= m`.
pub proof fn lemma_first_in_extends<E>(m: nat, n: nat, f: spec_fn(int) -> Option<E>)
    requires
        m <= n,
        first_in(m, f) is Some,
    ensures
        first_in(n, f) == first_in(m, f),
    decreases n,
{
    if m < n {
        lemma_first_in_extends(m, (n - 1) as nat, f);
    }
}

/// Nothing is found exactly when no position gives a result.
pub proof fn lemma_first_in_none<E>(n: nat, f: spec_fn(int) -> Option<E>)
    ensures
        first_in(n, f) is None <==> forall|i: int| 0 <= i < n ==> (#[trigger] f(i)) is None,
    decreases n,
{
    if n > 0 {
        lemma_first_in_none((n - 1) as nat, f);
        assert(f(n - 1) == f(n - 1));
    }
}

/// What is found stands at some position, and nothing stands before it.
pub proof fn lemma_first_in_found<E>(n: nat, f: spec_fn(int) -> Option<E>) -> (at: int)
    requires
        first_in(n, f) is Some,
    ensures
        0 <= at < n,
        f(at) == first_in(n, f),
        forall|i: int| 0 <= i < at ==> (#[trigger] f(i)) is None,
    decreases n,
{
    if first_in((n - 1) as nat, f) is Some {
        lemma_first_in_found((n - 1) as nat, f)
    } else {
        lemma_first_in_none((n - 1) as nat, f);
        n - 1
    }
}

/// Those of the first `n` items that `keep` holds of.
pub open spec fn kept<T>(items: Seq<T>, keep: spec_fn(T) -> bool, n: nat) -> Seq<T>
    decreases n,
{
    if n == 0 {
        Seq::empty()
    } else {
        let before = kept(items, keep, (n - 1) as nat);
        if keep(items[n - 1]) {
            before.push(items[n - 1])
        } else {
            before
        }
    }
}

/// What `f` gives for the first `n` items, where it gives something.
pub open spec fn gathered<T, U>(items: Seq<T>, f: spec_fn(T) -> Option<U>, n: nat) -> Seq<U>
    decreases n,
{
    if n == 0 {
        Seq::empty()
    } else {
        let before = gathered(items, f, (n - 1) as nat);
        match f(items[n - 1]) {
            Some(u) => before.push(u),
            None => before,
        }
    }
}

/// The items kept are items of the list, and no more than it has.
pub proof fn lemma_kept<T>(items: Seq<T>, keep: spec_fn(T) -> bool, n: nat)
    requires
        n <= items.len(),
    ensures
        kept(items, keep, n).len() <= n,
        forall|k: int|
            0 <= k < kept(items, keep, n).len() ==> keep(#[trigger] kept(items, keep, n)[k]),
        forall|k: int|
            0 <= k < kept(items, keep, n).len() ==> exists|i: int|
                0 <= i < n && items[i] == #[trigger] kept(items, keep, n)[k],
        forall|i: int|
            0 <= i < n && keep(items[i]) ==> exists|k: int|
                0 <= k < kept(items, keep, n).len() && kept(items, keep, n)[k] == #[trigger] items[i],
    decreases n,
{
    if n > 0 {
        let m = (n - 1) as nat;
        lemma_kept(items, keep, m);
        let before = kept(items, keep, m);
        let after = kept(items, keep, n);
        assert forall|k: int| 0 <= k < after.len() implies exists|i: int|
            0 <= i < n && items[i] == #[trigger] after[k] by {
            if k < before.len() {
                assert(after[k] == before[k]);
                let i = choose|i: int| 0 <= i < m && items[i] == before[k];
                assert(0 <= i < n && items[i] == after[k]);
            } else {
                assert(items[n - 1] == after[k]);
            }
        }
        assert forall|k: int| 0 <= k < after.len() implies keep(#[trigger] after[k]) by {
            if k < before.len() {
                assert(after[k] == before[k]);
            }
        }
        assert forall|i: int| 0 <= i < n && keep(items[i]) implies exists|k: int|
            0 <= k < after.len() && after[k] == #[trigger] items[i] by {
            if i < m {
                let k = choose|k: int| 0 <= k < before.len() && before[k] == items[i];
                assert(after[k] == items[i]);
            } else {
                assert(after[before.len() as int] == items[i]);
            }
        }
    }
}

/// What is gathered comes from an item each.
pub proof fn lemma_gathered<T, U>(items: Seq<T>, f: spec_fn(T) -> Option<U>, n: nat)
    requires
        n <= items.len(),
    ensures
        gathered(items, f, n).len() <= n,
        forall|k: int|
            0 <= k < gathered(items, f, n).len() ==> exists|i: int|
                0 <= i < n && f(items[i]) == Some(#[trigger] gathered(items, f, n)[k]),
        forall|i: int|
            0 <= i < n && f(items[i]) is Some ==> exists|k: int|
                0 <= k < gathered(items, f, n).len() && Some(gathered(items, f, n)[k]) == f(
                    #[trigger] items[i],
                ),
    decreases n,
{
    if n > 0 {
        let m = (n - 1) as nat;
        lemma_gathered(items, f, m);
        let before = gathered(items, f, m);
        let after = gathered(items, f, n);
        assert forall|k: int| 0 <= k < after.len() implies exists|i: int|
            0 <= i < n && f(items[i]) == Some(#[trigger] after[k]) by {
            if k < before.len() {
                assert(after[k] == before[k]);
                let i = choose|i: int| 0 <= i < m && f(items[i]) == Some(before[k]);
                assert(0 <= i < n && f(items[i]) == Some(after[k]));
            } else {
                assert(f(items[n - 1]) == Some(after[k]));
            }
        }
        assert forall|i: int| 0 <= i < n && f(items[i]) is Some implies exists|k: int|
            0 <= k < after.len() && Some(after[k]) == f(#[trigger] items[i]) by {
            if i < m {
                let k = choose|k: int| 0 <= k < before.len() && Some(before[k]) == f(items[i]);
                assert(Some(after[k]) == f(items[i]));
            } else {
                assert(Some(after[before.len() as int]) == f(items[i]));
            }
        }
    }
}

/// How many of the first `n` items `holds` holds of.
pub open spec fn how_many<T>(items: Seq<T>, holds: spec_fn(T) -> bool, n: nat) -> nat
    decreases n,
{
    if n == 0 {
        0
    } else {
        how_many(items, holds, (n - 1) as nat) + if holds(items[n - 1]) {
            1nat
        } else {
            0nat
        }
    }
}

/// No more items are counted than there are.
pub broadcast proof fn lemma_how_many<T>(items: Seq<T>, holds: spec_fn(T) -> bool, n: nat)
    ensures
        #[trigger] how_many(items, holds, n) <= n,
    decreases n,
{
    if n > 0 {
        lemma_how_many(items, holds, (n - 1) as nat);
    }
}

/// What is kept of the first items depends on these alone.
pub proof fn lemma_kept_same<T>(a: Seq<T>, b: Seq<T>, keep: spec_fn(T) -> bool, n: nat)
    requires
        n <= a.len(),
        n <= b.len(),
        forall|i: int| 0 <= i < n ==> a[i] == b[i],
    ensures
        kept(a, keep, n) == kept(b, keep, n),
    decreases n,
{
    if n > 0 {
        lemma_kept_same(a, b, keep, (n - 1) as nat);
    }
}

/// Two conditions that hold of the same items keep the same.
pub proof fn lemma_kept_alike<T>(
    items: Seq<T>,
    a: spec_fn(T) -> bool,
    b: spec_fn(T) -> bool,
    n: nat,
)
    requires
        forall|x: T| #[trigger] a(x) == b(x),
    ensures
        kept(items, a, n) == kept(items, b, n),
    decreases n,
{
    if n > 0 {
        lemma_kept_alike(items, a, b, (n - 1) as nat);
        assert(a(items[n - 1]) == b(items[n - 1]));
    }
}

/// What is kept of a list is what is kept of its beginning and of the rest.
pub proof fn lemma_kept_split<T>(items: Seq<T>, keep: spec_fn(T) -> bool, k: nat, n: nat)
    requires
        k <= n <= items.len(),
    ensures
        kept(items, keep, n) == kept(items, keep, k) + kept(
            items.subrange(k as int, n as int),
            keep,
            (n - k) as nat,
        ),
    decreases n,
{
    let rest = items.subrange(k as int, n as int);
    if n == k {
        assert(kept(items, keep, n) =~= kept(items, keep, k) + kept(rest, keep, 0));
    } else {
        let m = (n - 1) as nat;
        let before = items.subrange(k as int, m as int);
        lemma_kept_split(items, keep, k, m);
        lemma_kept_same(before, rest, keep, (m - k) as nat);
        assert(rest[m - k] == items[m as int]);
        assert(kept(items, keep, n) =~= kept(items, keep, k) + kept(rest, keep, (n - k) as nat));
    }
}

/// What is kept twice satisfies both conditions.
pub proof fn lemma_kept_twice<T>(
    items: Seq<T>,
    first: spec_fn(T) -> bool,
    second: spec_fn(T) -> bool,
    both: spec_fn(T) -> bool,
    n: nat,
)
    requires
        n <= items.len(),
        forall|x: T| #[trigger] both(x) == (first(x) && second(x)),
    ensures
        kept(kept(items, first, n), second, kept(items, first, n).len()) == kept(items, both, n),
    decreases n,
{
    if n > 0 {
        let m = (n - 1) as nat;
        let x = items[n - 1];
        lemma_kept_twice(items, first, second, both, m);
        let before = kept(items, first, m);
        let after = kept(items, first, n);
        assert(both(x) == (first(x) && second(x)));
        if first(x) {
            lemma_kept_same(before, after, second, before.len());
            assert(after[before.len() as int] == x);
        }
    }
}

/// What is kept of a list in which all from some place on are wanted, and none before it, is the
/// rest of the list from there.
pub proof fn lemma_kept_from<T>(items: Seq<T>, keep: spec_fn(T) -> bool, k: nat, n: nat)
    requires
        k <= n <= items.len(),
        forall|i: int| 0 <= i < n ==> #[trigger] keep(items[i]) == (i >= k),
    ensures
        kept(items, keep, n) == items.subrange(k as int, n as int),
    decreases n,
{
    if n > k {
        lemma_kept_from(items, keep, k, (n - 1) as nat);
        assert(keep(items[n - 1]));
        assert(kept(items, keep, n) =~= items.subrange(k as int, n as int));
    } else if n > 0 {
        assert(!keep(items[n - 1]));
        lemma_kept_none(items, keep, n);
    } else {
        assert(kept(items, keep, n) =~= items.subrange(k as int, n as int));
    }
}

proof fn lemma_kept_none<T>(items: Seq<T>, keep: spec_fn(T) -> bool, n: nat)
    requires
        n <= items.len(),
        forall|i: int| 0 <= i < n ==> !#[trigger] keep(items[i]),
    ensures
        kept(items, keep, n) == items.subrange(n as int, n as int),
    decreases n,
{
    if n > 0 {
        lemma_kept_none(items, keep, (n - 1) as nat);
        assert(!keep(items[n - 1]));
    }
    assert(kept(items, keep, n) =~= items.subrange(n as int, n as int));
}

/// What is kept stays in order.
pub proof fn lemma_kept_in_order<T>(
    items: Seq<T>,
    keep: spec_fn(T) -> bool,
    lt: spec_fn(T, T) -> bool,
    n: nat,
)
    requires
        n <= items.len(),
        forall|i: int, j: int|
            0 <= i < j < n && keep(items[i]) && keep(items[j]) ==> #[trigger] lt(
                items[i],
                items[j],
            ),
    ensures
        forall|i: int, j: int|
            0 <= i < j < kept(items, keep, n).len() ==> #[trigger] lt(
                kept(items, keep, n)[i],
                kept(items, keep, n)[j],
            ),
    decreases n,
{
    if n > 0 {
        let m = (n - 1) as nat;
        lemma_kept_in_order(items, keep, lt, m);
        lemma_kept(items, keep, m);
        let before = kept(items, keep, m);
        let after = kept(items, keep, n);
        assert forall|i: int, j: int| 0 <= i < j < after.len() implies #[trigger] lt(
            after[i],
            after[j],
        ) by {
            if j < before.len() {
                assert(lt(before[i], before[j]));
            } else {
                assert(after[i] == before[i]);
                let p = choose|p: int| 0 <= p < m && items[p] == before[i];
                assert(lt(items[p], items[n - 1]));
            }
        }
    }
}

/// What is kept of a list are exactly the items that are to be kept.
pub proof fn lemma_kept_members<T>(items: Seq<T>, keep: spec_fn(T) -> bool)
    ensures
        forall|x: T| #[trigger]
            kept(items, keep, items.len()).contains(x) <==> items.contains(x) && keep(x),
{
    let n = items.len();
    let r = kept(items, keep, n);
    lemma_kept(items, keep, n);
    assert forall|x: T| #[trigger] r.contains(x) <==> items.contains(x) && keep(x) by {
        if r.contains(x) {
            let k = choose|k: int| 0 <= k < r.len() && r[k] == x;
            let i = choose|i: int| 0 <= i < n && items[i] == r[k];
            assert(items[i] == x && keep(r[k]));
        }
        if items.contains(x) && keep(x) {
            let i = choose|i: int| 0 <= i < n && items[i] == x;
            assert(keep(items[i]));
            let k = choose|k: int| 0 <= k < r.len() && r[k] == items[i];
            assert(r[k] == x);
        }
    }
}

/// What is gathered from a list is exactly what its items give.
pub proof fn lemma_gathered_members<T, U>(items: Seq<T>, f: spec_fn(T) -> Option<U>)
    ensures
        forall|u: U| #[trigger]
            gathered(items, f, items.len()).contains(u) <==> exists|i: int|
                0 <= i < items.len() && f(#[trigger] items[i]) == Some(u),
{
    let n = items.len();
    let r = gathered(items, f, n);
    lemma_gathered(items, f, n);
    assert forall|u: U| #[trigger] r.contains(u) <==> exists|i: int|
        0 <= i < items.len() && f(#[trigger] items[i]) == Some(u) by {
        if r.contains(u) {
            let k = choose|k: int| 0 <= k < r.len() && r[k] == u;
            let i = choose|i: int| 0 <= i < n && f(items[i]) == Some(r[k]);
            assert(f(items[i]) == Some(u));
        }
        if exists|i: int| 0 <= i < items.len() && f(#[trigger] items[i]) == Some(u) {
            let i = choose|i: int| 0 <= i < n && f(#[trigger] items[i]) == Some(u);
            let k = choose|k: int| 0 <= k < r.len() && Some(r[k]) == f(items[i]);
            assert(r[k] == u);
        }
    }
}

/// A list of which each item counts is counted by its length, and one of which none counts by zero.
pub proof fn lemma_how_many_all<T>(items: Seq<T>, holds: spec_fn(T) -> bool, n: nat)
    requires
        n <= items.len(),
    ensures
        how_many(items, holds, n) <= n,
        (forall|i: int| 0 <= i < n ==> holds(#[trigger] items[i])) ==> how_many(items, holds, n) == n,
        (forall|i: int| 0 <= i < n ==> !holds(#[trigger] items[i])) ==> how_many(items, holds, n)
            == 0,
    decreases n,
{
    if n > 0 {
        lemma_how_many_all(items, holds, (n - 1) as nat);
    }
}

/// Two conditions, at most one of which holds of an item, are counted together.
pub proof fn lemma_how_many_split<T>(
    items: Seq<T>,
    a: spec_fn(T) -> bool,
    b: spec_fn(T) -> bool,
    either: spec_fn(T) -> bool,
    n: nat,
)
    requires
        n <= items.len(),
        forall|i: int|
            0 <= i < n ==> !(a(#[trigger] items[i]) && b(items[i])) && either(items[i]) == (a(
                items[i],
            ) || b(items[i])),
    ensures
        how_many(items, a, n) + how_many(items, b, n) == how_many(items, either, n),
    decreases n,
{
    if n > 0 {
        lemma_how_many_split(items, a, b, either, (n - 1) as nat);
    }
}

/// Conditions that agree on the items count alike.
pub proof fn lemma_how_many_alike<T>(
    items: Seq<T>,
    a: spec_fn(T) -> bool,
    b: spec_fn(T) -> bool,
    n: nat,
)
    requires
        n <= items.len(),
        forall|i: int| 0 <= i < n ==> a(#[trigger] items[i]) == b(items[i]),
    ensures
        how_many(items, a, n) == how_many(items, b, n),
    decreases n,
{
    if n > 0 {
        lemma_how_many_alike(items, a, b, (n - 1) as nat);
    }
}

/// The positions below `n` at which `holds` holds.
pub open spec fn places<T>(items: Seq<T>, holds: spec_fn(T) -> bool, n: nat) -> Set<int> {
    Set::new(|i: int| 0 <= i < n && holds(items[i]))
}

/// Items are counted by the positions at which they stand.
pub proof fn lemma_how_many_places<T>(items: Seq<T>, holds: spec_fn(T) -> bool, n: nat)
    ensures
        places(items, holds, n).finite(),
        how_many(items, holds, n) == places(items, holds, n).len(),
    decreases n,
{
    let all = places(items, holds, n);
    if n == 0 {
        assert(all =~= Set::empty());
    } else {
        lemma_how_many_places(items, holds, (n - 1) as nat);
        let before = places(items, holds, (n - 1) as nat);
        if holds(items[n - 1]) {
            assert(all =~= before.insert(n - 1));
        } else {
            assert(all =~= before);
        }
    }
}

/// What is counted of the first items depends on these alone.
pub proof fn lemma_how_many_same<T>(a: Seq<T>, b: Seq<T>, holds: spec_fn(T) -> bool, n: nat)
    requires
        forall|i: int| 0 <= i < n ==> #[trigger] a[i] == b[i],
    ensures
        how_many(a, holds, n) == how_many(b, holds, n),
    decreases n,
{
    if n > 0 {
        lemma_how_many_same(a, b, holds, (n - 1) as nat);
    }
}

/// To count among what is kept is to count what is kept and counts.
pub proof fn lemma_how_many_kept<T>(
    items: Seq<T>,
    keep: spec_fn(T) -> bool,
    holds: spec_fn(T) -> bool,
    both: spec_fn(T) -> bool,
    n: nat,
)
    requires
        n <= items.len(),
        forall|i: int|
            0 <= i < n ==> both(#[trigger] items[i]) == (keep(items[i]) && holds(items[i])),
    ensures
        how_many(kept(items, keep, n), holds, kept(items, keep, n).len()) == how_many(
            items,
            both,
            n,
        ),
    decreases n,
{
    if n > 0 {
        lemma_how_many_kept(items, keep, holds, both, (n - 1) as nat);
        let before = kept(items, keep, (n - 1) as nat);
        let after = kept(items, keep, n);
        lemma_how_many_same(before, after, holds, before.len());
        assert(both(items[n - 1]) == (keep(items[n - 1]) && holds(items[n - 1])));
    }
}

/// How many items are kept.
pub proof fn lemma_kept_len<T>(items: Seq<T>, keep: spec_fn(T) -> bool, n: nat)
    ensures
        kept(items, keep, n).len() == how_many(items, keep, n),
    decreases n,
{
    if n > 0 {
        lemma_kept_len(items, keep, (n - 1) as nat);
    }
}

/// What the first `n` numbers give, added up.
pub open spec fn added(f: spec_fn(int) -> nat, n: nat) -> nat
    decreases n,
{
    if n == 0 {
        0
    } else {
        added(f, (n - 1) as nat) + f(n - 1)
    }
}

/// The members of the first `n` of some sets, each with the number of its set.
pub open spec fn tagged<B>(sets: spec_fn(int) -> Set<B>, n: nat) -> Set<(int, B)> {
    Set::new(|p: (int, B)| 0 <= p.0 < n && sets(p.0).contains(p.1))
}

/// The sizes of sets add up to the number of their members.
pub proof fn lemma_sizes_add_up<B>(sets: spec_fn(int) -> Set<B>, f: spec_fn(int) -> nat, n: nat)
    requires
        forall|i: int| 0 <= i < n ==> (#[trigger] sets(i)).finite() && sets(i).len() == f(i),
    ensures
        tagged(sets, n).finite(),
        tagged(sets, n).len() == added(f, n),
    decreases n,
{
    let all = tagged(sets, n);
    if n == 0 {
        assert(all =~= Set::empty());
    } else {
        lemma_sizes_add_up(sets, f, (n - 1) as nat);
        let before = tagged(sets, (n - 1) as nat);
        let last = sets(n - 1);
        let tag = |b: B| (n - 1, b);
        let more = last.map(tag);
        assert(last.finite());
        vstd::set_lib::lemma_map_size(last, more, tag);
        assert(all =~= before + more) by {
            assert forall|p: (int, B)| all.contains(p) implies (before + more).contains(p) by {
                if p.0 == n - 1 {
                    assert(tag(p.1) == p);
                }
            }
        }
        assert(before.disjoint(more));
        vstd::set_lib::lemma_set_disjoint_lens(before, more);
    }
}

/// Where all of the first `n` items are to be kept, they are.
pub proof fn lemma_kept_all<T>(items: Seq<T>, keep: spec_fn(T) -> bool, n: nat)
    requires
        n <= items.len(),
        forall|i: int| 0 <= i < n ==> keep(#[trigger] items[i]),
    ensures
        kept(items, keep, n) == items.take(n as int),
        n == items.len() ==> kept(items, keep, n) == items,
    decreases n,
{
    if n == 0 {
        assert(kept(items, keep, n) =~= items.take(0));
    } else {
        lemma_kept_all(items, keep, (n - 1) as nat);
        assert(keep(items[n - 1]));
        assert(kept(items, keep, n) =~= items.take(n as int));
    }
    if n == items.len() {
        assert(items.take(n as int) =~= items);
    }
}

} // verus!
