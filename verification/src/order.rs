//! Stable sorting.

use vstd::prelude::*;

verus! {

/// What an item is sorted by: `major` first, `minor` among equal `major`.
#[derive(Clone, Copy, Debug, PartialEq, Eq, Structural)]
pub struct SortKey {
    pub major: i64,
    pub minor: usize,
}

/// Whether item `a` comes before item `b` when the items are sorted stably: by their
/// keys, and by their positions where the keys are equal.
pub open spec fn precedes(keys: Seq<SortKey>, a: int, b: int) -> bool {
    ||| keys[a].major < keys[b].major
    ||| keys[a].major == keys[b].major && keys[a].minor < keys[b].minor
    ||| keys[a] == keys[b] && a < b
}

/// Whether every position in `order` precedes those after it.
pub open spec fn is_ascending(keys: Seq<SortKey>, order: Seq<usize>) -> bool {
    forall|i: int, j: int|
        0 <= i < j < order.len() ==> #[trigger] precedes(keys, order[i] as int, order[j] as int)
}

/// Whether `order` lists the positions of the items as a stable sort arranges them.
pub open spec fn is_stable_order(keys: Seq<SortKey>, order: Seq<usize>) -> bool {
    &&& order.len() == keys.len()
    &&& forall|i: int| 0 <= i < order.len() ==> (#[trigger] order[i]) < keys.len()
    &&& forall|k: usize| k < keys.len() ==> #[trigger] order.contains(k)
    &&& is_ascending(keys, order)
}

/// `items` arranged by `order`.
pub open spec fn arranged<T>(items: Seq<T>, order: Seq<usize>) -> Seq<T> {
    Seq::new(order.len(), |i: int| items[order[i] as int])
}

/// Whether `result` is `items` sorted stably by `keys`.
pub open spec fn is_sorted_by<T>(result: Seq<T>, items: Seq<T>, keys: Seq<SortKey>) -> bool {
    exists|order: Seq<usize>|
        #[trigger] is_stable_order(keys, order) && result == arranged(items, order)
}

fn comes_before(keys: &Vec<SortKey>, a: usize, b: usize) -> (answer: bool)
    requires
        a < keys.len(),
        b < keys.len(),
    ensures
        answer == precedes(keys@, a as int, b as int),
{
    let x: SortKey = keys[a];
    let y: SortKey = keys[b];
    if x.major != y.major {
        x.major < y.major
    } else if x.minor != y.minor {
        x.minor < y.minor
    } else {
        a < b
    }
}

/// Both lists in one, keeping the order. No position is in both.
fn merged(
    keys: &Vec<SortKey>,
    a: &Vec<usize>,
    b: &Vec<usize>,
    from: usize,
    to: usize,
) -> (out: Vec<usize>)
    requires
        to <= keys.len(),
        is_ascending(keys@, a@),
        is_ascending(keys@, b@),
        forall|i: int| 0 <= i < a.len() ==> from <= (#[trigger] a[i]) < to,
        forall|i: int| 0 <= i < b.len() ==> from <= (#[trigger] b[i]) < to,
        forall|i: int, j: int|
            0 <= i < a.len() && 0 <= j < b.len() ==> #[trigger] a[i] != #[trigger] b[j],
        a.len() + b.len() <= usize::MAX,
    ensures
        out.len() == a.len() + b.len(),
        is_ascending(keys@, out@),
        forall|i: int| 0 <= i < out.len() ==> from <= (#[trigger] out[i]) < to,
        forall|x: usize| a@.contains(x) || b@.contains(x) ==> #[trigger] out@.contains(x),
{
    let mut out: Vec<usize> = Vec::with_capacity(a.len() + b.len());
    let mut i: usize = 0;
    let mut j: usize = 0;
    while i < a.len() || j < b.len()
        invariant
            to <= keys.len(),
            i <= a.len(),
            j <= b.len(),
            out.len() == i + j,
            is_ascending(keys@, a@),
            is_ascending(keys@, b@),
            forall|i: int| 0 <= i < a.len() ==> from <= (#[trigger] a[i]) < to,
            forall|i: int| 0 <= i < b.len() ==> from <= (#[trigger] b[i]) < to,
            forall|i: int, j: int|
                0 <= i < a.len() && 0 <= j < b.len() ==> #[trigger] a[i] != #[trigger] b[j],
            is_ascending(keys@, out@),
            forall|k: int| 0 <= k < out.len() ==> from <= (#[trigger] out[k]) < to,
            forall|k: int, l: int|
                0 <= k < out.len() && i <= l < a.len() ==> #[trigger] precedes(
                    keys@,
                    out[k] as int,
                    a[l] as int,
                ),
            forall|k: int, l: int|
                0 <= k < out.len() && j <= l < b.len() ==> #[trigger] precedes(
                    keys@,
                    out[k] as int,
                    b[l] as int,
                ),
            forall|l: int| 0 <= l < i ==> out@.contains(#[trigger] a[l]),
            forall|l: int| 0 <= l < j ==> out@.contains(#[trigger] b[l]),
        decreases a.len() + b.len() - i - j,
    {
        let from_a: bool = if i >= a.len() {
            false
        } else if j >= b.len() {
            true
        } else {
            comes_before(keys, a[i], b[j])
        };
        let ghost before = out@;
        if from_a {
            out.push(a[i]);
            proof {
                assert forall|l: int| 0 <= l < i + 1 implies out@.contains(#[trigger] a[l]) by {
                    lemma_push_keeps(before, a[i as int]);
                }
                assert forall|l: int| 0 <= l < j implies out@.contains(#[trigger] b[l]) by {
                    lemma_push_keeps(before, a[i as int]);
                }
                assert forall|k: int, l: int|
                    0 <= k < out.len() && i + 1 <= l < a.len() implies #[trigger] precedes(
                    keys@,
                    out[k] as int,
                    a[l] as int,
                ) by {
                    if k < before.len() {
                        assert(out[k] == before[k]);
                    }
                }
                assert forall|k: int, l: int|
                    0 <= k < out.len() && j <= l < b.len() implies #[trigger] precedes(
                    keys@,
                    out[k] as int,
                    b[l] as int,
                ) by {
                    if k < before.len() {
                        assert(out[k] == before[k]);
                    } else {
                        assert(precedes(keys@, a[i as int] as int, b[j as int] as int));
                        if j < l {
                            assert(precedes(keys@, b[j as int] as int, b[l] as int));
                        }
                    }
                }
                assert forall|k: int, l: int| 0 <= k < l < out.len() implies #[trigger] precedes(
                    keys@,
                    out[k] as int,
                    out[l] as int,
                ) by {
                    assert(out[k] == before[k]);
                    if l < before.len() {
                        assert(out[l] == before[l]);
                    }
                }
            }
            i = i + 1;
        } else {
            out.push(b[j]);
            proof {
                assert forall|l: int| 0 <= l < i implies out@.contains(#[trigger] a[l]) by {
                    lemma_push_keeps(before, b[j as int]);
                }
                assert forall|l: int| 0 <= l < j + 1 implies out@.contains(#[trigger] b[l]) by {
                    lemma_push_keeps(before, b[j as int]);
                }
                assert forall|k: int, l: int|
                    0 <= k < out.len() && j + 1 <= l < b.len() implies #[trigger] precedes(
                    keys@,
                    out[k] as int,
                    b[l] as int,
                ) by {
                    if k < before.len() {
                        assert(out[k] == before[k]);
                    }
                }
                assert forall|k: int, l: int|
                    0 <= k < out.len() && i <= l < a.len() implies #[trigger] precedes(
                    keys@,
                    out[k] as int,
                    a[l] as int,
                ) by {
                    if k < before.len() {
                        assert(out[k] == before[k]);
                    } else {
                        assert(a[i as int] != b[j as int]);
                        assert(precedes(keys@, b[j as int] as int, a[i as int] as int));
                        if i < l {
                            assert(precedes(keys@, a[i as int] as int, a[l] as int));
                        }
                    }
                }
                assert forall|k: int, l: int| 0 <= k < l < out.len() implies #[trigger] precedes(
                    keys@,
                    out[k] as int,
                    out[l] as int,
                ) by {
                    assert(out[k] == before[k]);
                    if l < before.len() {
                        assert(out[l] == before[l]);
                    }
                }
            }
            j = j + 1;
        }
    }
    out
}

/// A push keeps what a sequence contains and adds the new item.
pub proof fn lemma_push_keeps<T>(s: Seq<T>, v: T)
    ensures
        s.push(v).contains(v),
        forall|x: T| s.contains(x) ==> #[trigger] s.push(v).contains(x),
{
    assert(s.push(v)[s.len() as int] == v);
    assert forall|x: T| s.contains(x) implies #[trigger] s.push(v).contains(x) by {
        let k = choose|k: int| 0 <= k < s.len() && s[k] == x;
        assert(s.push(v)[k] == x);
    }
}

/// The positions `from..to`, sorted.
fn order_of_range(keys: &Vec<SortKey>, from: usize, to: usize) -> (out: Vec<usize>)
    requires
        from <= to <= keys.len(),
    ensures
        out.len() == to - from,
        is_ascending(keys@, out@),
        forall|i: int| 0 <= i < out.len() ==> from <= #[trigger] out[i] < to,
        forall|x: usize| from <= x < to ==> #[trigger] out@.contains(x),
    decreases to - from,
{
    if to - from == 0 {
        return Vec::new();
    }
    if to - from == 1 {
        let mut out: Vec<usize> = Vec::new();
        out.push(from);
        assert(out@[0] == from);
        return out;
    }
    let middle: usize = from + (to - from) / 2;
    let a: Vec<usize> = order_of_range(keys, from, middle);
    let b: Vec<usize> = order_of_range(keys, middle, to);
    let out: Vec<usize> = merged(keys, &a, &b, from, to);
    proof {
        assert forall|x: usize| from <= x < to implies #[trigger] out@.contains(x) by {
            if x < middle {
                assert(a@.contains(x));
            } else {
                assert(b@.contains(x));
            }
        }
    }
    out
}

/// The positions of the items in stable sorted order.
pub fn stable_order(keys: &Vec<SortKey>) -> (order: Vec<usize>)
    ensures
        is_stable_order(keys@, order@),
{
    order_of_range(keys, 0, keys.len())
}

/// There is only one stable order: the result of a sort is a function of its keys.
pub proof fn stable_order_is_unique(keys: Seq<SortKey>, p: Seq<usize>, q: Seq<usize>)
    requires
        is_stable_order(keys, p),
        is_stable_order(keys, q),
    ensures
        p == q,
{
    assert forall|i: int| 0 <= i < p.len() implies p[i] == q[i] by {
        lemma_orders_agree(keys, p, q, i);
    }
    assert(p =~= q);
}

proof fn lemma_orders_agree(keys: Seq<SortKey>, p: Seq<usize>, q: Seq<usize>, i: int)
    requires
        is_stable_order(keys, p),
        is_stable_order(keys, q),
        0 <= i < p.len(),
    ensures
        p[i] == q[i],
    decreases i,
{
    assert forall|k: int| 0 <= k < i implies p[k] == q[k] by {
        lemma_orders_agree(keys, p, q, k);
    }
    if p[i] != q[i] {
        assert(q.contains(p[i]));
        let j = choose|j: int| 0 <= j < q.len() && q[j] == p[i];
        assert(p.contains(q[i]));
        let l = choose|l: int| 0 <= l < p.len() && p[l] == q[i];
        if j < i {
            assert(p[j] == p[i]);
            assert(precedes(keys, p[j] as int, p[i] as int));
        }
        if l < i {
            assert(q[l] == q[i]);
            assert(precedes(keys, q[l] as int, q[i] as int));
        }
        assert(precedes(keys, q[i] as int, q[j] as int));
        assert(precedes(keys, p[i] as int, p[l] as int));
    }
}

/// The result of a sort is a function of the items and their keys.
pub proof fn lemma_sorted_is_unique<T>(a: Seq<T>, b: Seq<T>, items: Seq<T>, keys: Seq<SortKey>)
    requires
        is_sorted_by(a, items, keys),
        is_sorted_by(b, items, keys),
    ensures
        a == b,
{
    let p = choose|p: Seq<usize>| #[trigger] is_stable_order(keys, p) && a == arranged(items, p);
    let q = choose|q: Seq<usize>| #[trigger] is_stable_order(keys, q) && b == arranged(items, q);
    stable_order_is_unique(keys, p, q);
}

/// A sort keeps every item and adds none: the results stand for the items one to one.
pub proof fn sorting_keeps_every_item<T>(result: Seq<T>, items: Seq<T>, keys: Seq<SortKey>)
    requires
        keys.len() == items.len(),
        is_sorted_by(result, items, keys),
    ensures
        result.len() == items.len(),
        exists|order: Seq<usize>|
            #![trigger arranged(items, order)]
            {
                &&& order.len() == items.len()
                &&& result == arranged(items, order)
                &&& forall|k: usize| k < items.len() ==> #[trigger] order.contains(k)
                &&& forall|i: int, j: int|
                    0 <= i < j < order.len() ==> #[trigger] order[i] != #[trigger] order[j]
            },
{
    let order = choose|order: Seq<usize>|
        #[trigger] is_stable_order(keys, order) && result == arranged(items, order);
    assert forall|i: int, j: int| 0 <= i < j < order.len() implies #[trigger] order[i]
        != #[trigger] order[j] by {
        assert(precedes(keys, order[i] as int, order[j] as int));
    }
    assert(result == arranged(items, order));
}

/// How many of the items are picked.
pub open spec fn picked<T>(items: Seq<T>, pick: spec_fn(T) -> bool) -> nat
    decreases items.len(),
{
    if items.len() == 0 {
        0
    } else {
        picked(items.drop_last(), pick) + if pick(items.last()) {
            1nat
        } else {
            0nat
        }
    }
}

/// Where the picked items stand.
spec fn places_of<T>(items: Seq<T>, pick: spec_fn(T) -> bool) -> Set<int> {
    Set::new(|i: int| 0 <= i < items.len() && pick(items[i]))
}

proof fn lemma_places<T>(items: Seq<T>, pick: spec_fn(T) -> bool)
    ensures
        places_of(items, pick).finite(),
        places_of(items, pick).len() == picked(items, pick),
    decreases items.len(),
{
    let places = places_of(items, pick);
    if items.len() == 0 {
        assert(places =~= Set::<int>::empty());
    } else {
        let rest = items.drop_last();
        let n = items.len() - 1;
        lemma_places(rest, pick);
        if pick(items.last()) {
            assert(places =~= places_of(rest, pick).insert(n));
        } else {
            assert(places =~= places_of(rest, pick));
        }
    }
}

/// A sort keeps how many of the items are picked, whichever they are.
pub proof fn sorting_keeps_what_is_picked<T>(
    result: Seq<T>,
    items: Seq<T>,
    keys: Seq<SortKey>,
    pick: spec_fn(T) -> bool,
)
    requires
        items.len() <= usize::MAX,
        keys.len() == items.len(),
        is_sorted_by(result, items, keys),
    ensures
        picked(result, pick) == picked(items, pick),
{
    let order = choose|order: Seq<usize>|
        #[trigger] is_stable_order(keys, order) && result == arranged(items, order);
    let from = places_of(result, pick);
    let to = places_of(items, pick);
    let place = |i: int| order[i] as int;
    lemma_places(result, pick);
    lemma_places(items, pick);
    assert(vstd::relations::injective_on(place, from)) by {
        assert forall|i: int, j: int|
            from.contains(i) && from.contains(j) && #[trigger] place(i) == #[trigger] place(
                j,
            ) implies i == j by {
            if i < j {
                assert(precedes(keys, order[i] as int, order[j] as int));
            } else if j < i {
                assert(precedes(keys, order[j] as int, order[i] as int));
            }
        }
    }
    assert forall|k: int| to.contains(k) implies #[trigger] from.map(place).contains(k) by {
        assert(order.contains(k as usize));
        let i = choose|i: int| 0 <= i < order.len() && order[i] == k as usize;
        assert(result[i] == items[k]);
        assert(from.contains(i));
        assert(place(i) == k);
    }
    assert forall|k: int| #[trigger] from.map(place).contains(k) implies to.contains(k) by {
        let i = choose|i: int| from.contains(i) && place(i) == k;
        assert(order[i] < keys.len());
        assert(result[i] == items[order[i] as int]);
    }
    assert(from.map(place) =~= to);
    vstd::set_lib::lemma_map_size(from, to, place);
}

/// As many items are picked in one way as in another that picks the same.
pub proof fn lemma_picked_alike<T>(items: Seq<T>, p: spec_fn(T) -> bool, q: spec_fn(T) -> bool)
    requires
        forall|i: int| 0 <= i < items.len() ==> p(#[trigger] items[i]) == q(items[i]),
    ensures
        picked(items, p) == picked(items, q),
    decreases items.len(),
{
    if items.len() > 0 {
        let rest = items.drop_last();
        assert forall|i: int| 0 <= i < rest.len() implies p(#[trigger] rest[i]) == q(rest[i]) by {
            assert(rest[i] == items[i]);
        }
        lemma_picked_alike(rest, p, q);
        assert(p(items[items.len() - 1]) == q(items[items.len() - 1]));
    }
}

/// What is picked of two sequences is picked of their concatenation.
pub proof fn lemma_picked_joined<T>(a: Seq<T>, b: Seq<T>, pick: spec_fn(T) -> bool)
    ensures
        picked(a + b, pick) == picked(a, pick) + picked(b, pick),
    decreases b.len(),
{
    if b.len() == 0 {
        assert(a + b =~= a);
    } else {
        lemma_picked_joined(a, b.drop_last(), pick);
        assert((a + b).drop_last() =~= a + b.drop_last());
        assert((a + b).last() == b.last());
    }
}

/// To pick among kept items is to pick what is both.
pub proof fn lemma_picked_filtered<T>(
    items: Seq<T>,
    keep: spec_fn(T) -> bool,
    pick: spec_fn(T) -> bool,
)
    ensures
        picked(items.filter(keep), pick) == picked(items, |item: T| keep(item) && pick(item)),
    decreases items.len(),
{
    reveal(Seq::filter);
    if items.len() > 0 {
        let rest = items.drop_last();
        lemma_picked_filtered(rest, keep, pick);
        if keep(items.last()) {
            let kept = rest.filter(keep);
            assert(kept.push(items.last()).drop_last() =~= kept);
        }
    }
}

/// To pick among images is to pick the items with such images.
pub proof fn lemma_picked_mapped<T, U>(
    items: Seq<T>,
    image: spec_fn(T) -> U,
    pick: spec_fn(U) -> bool,
)
    ensures
        picked(items.map_values(image), pick) == picked(items, |item: T| pick(image(item))),
    decreases items.len(),
{
    if items.len() > 0 {
        let rest = items.drop_last();
        lemma_picked_mapped(rest, image, pick);
        assert(items.map_values(image).drop_last() =~= rest.map_values(image));
    }
}

/// Two ways of keeping items of which no item has both keep no more than there are.
pub proof fn lemma_kept_apart<T>(items: Seq<T>, p: spec_fn(T) -> bool, q: spec_fn(T) -> bool)
    requires
        forall|item: T| !(#[trigger] p(item) && q(item)),
    ensures
        items.filter(p).len() + items.filter(q).len() <= items.len(),
    decreases items.len(),
{
    reveal(Seq::filter);
    if items.len() > 0 {
        lemma_kept_apart(items.drop_last(), p, q);
        assert(!(p(items.last()) && q(items.last())));
    }
}

/// A sort arranges items by `major`, then by `minor`, and leaves items alike in the order in
/// which they were.
pub proof fn sorts_are_stable(keys: Seq<SortKey>, order: Seq<usize>, i: int, j: int)
    requires
        is_stable_order(keys, order),
        0 <= i < j < order.len(),
    ensures
        ({
            let a = keys[order[i] as int];
            let b = keys[order[j] as int];
            &&& a.major <= b.major
            &&& a.major == b.major ==> a.minor <= b.minor
            &&& a.major == b.major && a.minor == b.minor ==> order[i] < order[j]
        }),
{
    assert(precedes(keys, order[i] as int, order[j] as int));
}

} // verus!
