//! Stable ordering of items by integer keys.

use vstd::prelude::*;

verus! {

/// A composite sort key, compared component by component from the first.
pub type OrderKey = (i128, i128, i128);

/// Whether key `a` comes strictly before key `b`.
pub open spec fn key_before(a: OrderKey, b: OrderKey) -> bool {
    ||| a.0 < b.0
    ||| a.0 == b.0 && a.1 < b.1
    ||| a.0 == b.0 && a.1 == b.1 && a.2 < b.2
}

/// Whether position `i` comes strictly before position `j`: by key, and by
/// position among equal keys.
pub open spec fn position_before(keys: Seq<OrderKey>, i: int, j: int) -> bool {
    ||| key_before(keys[i], keys[j])
    ||| keys[i] == keys[j] && i < j
}

/// `order` lists every position of `keys` once, by ascending key, equal keys in
/// their given order.
pub open spec fn is_stable_order(keys: Seq<OrderKey>, order: Seq<usize>) -> bool {
    &&& order.len() == keys.len()
    &&& forall|i: int| 0 <= i < order.len() ==> (#[trigger] order[i]) < keys.len()
    &&& forall|i: int, j: int|
        0 <= i < j < order.len() ==> position_before(keys, #[trigger] order[i] as int, #[trigger] order[j] as int)
}

/// The items of `items` in the sequence that `order` lists them.
pub open spec fn arranged<T>(items: Seq<T>, order: Seq<usize>) -> Seq<T> {
    Seq::new(order.len(), |i: int| items[order[i] as int])
}

fn key_is_before(a: &OrderKey, b: &OrderKey) -> (result: bool)
    ensures
        result == key_before(*a, *b),
{
    if a.0 != b.0 {
        a.0 < b.0
    } else if a.1 != b.1 {
        a.1 < b.1
    } else {
        a.2 < b.2
    }
}

spec fn strictly_ordered(keys: Seq<OrderKey>, order: Seq<usize>) -> bool {
    forall|i: int, j: int|
        0 <= i < j < order.len() ==> position_before(keys, #[trigger] order[i] as int, #[trigger] order[j] as int)
}

spec fn within(order: Seq<usize>, lo: int, hi: int) -> bool {
    forall|i: int| 0 <= i < order.len() ==> lo <= (#[trigger] order[i]) < hi
}

fn merge_orders(keys: &Vec<OrderKey>, left: Vec<usize>, right: Vec<usize>, Ghost(lo): Ghost<int>, Ghost(mid): Ghost<int>, Ghost(hi): Ghost<int>) -> (merged: Vec<usize>)
    requires
        0 <= lo <= mid <= hi <= keys.len(),
        within(left@, lo, mid),
        within(right@, mid, hi),
        strictly_ordered(keys@, left@),
        strictly_ordered(keys@, right@),
        left.len() == mid - lo,
        right.len() == hi - mid,
    ensures
        within(merged@, lo, hi),
        strictly_ordered(keys@, merged@),
        merged.len() == hi - lo,
{
    let mut merged: Vec<usize> = Vec::new();
    let mut i: usize = 0;
    let mut j: usize = 0;
    while i < left.len() || j < right.len()
        invariant
            i <= left.len(),
            j <= right.len(),
            merged.len() == i + j,
            0 <= lo <= mid <= hi <= keys.len(),
            within(left@, lo, mid),
            within(right@, mid, hi),
            strictly_ordered(keys@, left@),
            strictly_ordered(keys@, right@),
            within(merged@, lo, hi),
            strictly_ordered(keys@, merged@),
            left.len() == mid - lo,
            right.len() == hi - mid,
            forall|a: int, b: int|
                0 <= a < merged.len() && i <= b < left.len() ==> position_before(keys@, #[trigger] merged[a] as int, #[trigger] left[b] as int),
            forall|a: int, b: int|
                0 <= a < merged.len() && j <= b < right.len() ==> position_before(keys@, #[trigger] merged[a] as int, #[trigger] right[b] as int),
        decreases left.len() + right.len() - i - j,
    {
        let take_left: bool = if i >= left.len() {
            false
        } else if j >= right.len() {
            true
        } else {
            !key_is_before(&keys[right[j]], &keys[left[i]])
        };
        let ghost before = merged@;
        if take_left {
            merged.push(left[i]);
            i = i + 1;
            assert(within(merged@, lo, hi)) by {
                assert forall|k: int| 0 <= k < merged.len() implies lo <= (#[trigger] merged[k]) < hi by {
                    if k < before.len() {
                        assert(merged[k] == before[k]);
                    }
                }
            }
        } else {
            merged.push(right[j]);
            j = j + 1;
            assert(within(merged@, lo, hi)) by {
                assert forall|k: int| 0 <= k < merged.len() implies lo <= (#[trigger] merged[k]) < hi by {
                    if k < before.len() {
                        assert(merged[k] == before[k]);
                    }
                }
            }
        }
    }
    merged
}

fn order_range(keys: &Vec<OrderKey>, lo: usize, hi: usize) -> (order: Vec<usize>)
    requires
        lo <= hi <= keys.len(),
    ensures
        within(order@, lo as int, hi as int),
        strictly_ordered(keys@, order@),
        order.len() == hi - lo,
    decreases hi - lo,
{
    if hi - lo == 0 {
        return Vec::new();
    }
    if hi - lo == 1 {
        let mut single: Vec<usize> = Vec::new();
        single.push(lo);
        return single;
    }
    let mid: usize = lo + (hi - lo) / 2;
    let left: Vec<usize> = order_range(keys, lo, mid);
    let right: Vec<usize> = order_range(keys, mid, hi);
    merge_orders(keys, left, right, Ghost(lo as int), Ghost(mid as int), Ghost(hi as int))
}

/// The stable order of `keys`: there is exactly one.
pub open spec fn stable_order_of(keys: Seq<OrderKey>) -> Seq<usize> {
    choose|order: Seq<usize>| is_stable_order(keys, order)
}

/// The stable order of `keys`.
pub fn stable_order(keys: &Vec<OrderKey>) -> (order: Vec<usize>)
    ensures
        is_stable_order(keys@, order@),
        order@ == stable_order_of(keys@),
{
    let order: Vec<usize> = order_range(keys, 0, keys.len());
    assert(is_stable_order(keys@, order@));
    proof {
        stable_order_is_unique(keys@, order@, stable_order_of(keys@));
    }
    order
}

/// A stable order is unique.
pub proof fn stable_order_is_unique(keys: Seq<OrderKey>, a: Seq<usize>, b: Seq<usize>)
    requires
        is_stable_order(keys, a),
        is_stable_order(keys, b),
    ensures
        a == b,
{
    stable_order_covers(keys, a);
    stable_order_covers(keys, b);
    assert forall|i: int| 0 <= i < a.len() implies a[i] == b[i] by {
        same_prefix(keys, a, b, i + 1);
    }
    assert(a =~= b);
}

/// Every position occurs in a stable order.
pub proof fn stable_order_covers(keys: Seq<OrderKey>, order: Seq<usize>)
    requires
        is_stable_order(keys, order),
    ensures
        order.no_duplicates(),
        forall|p: usize| p < keys.len() ==> #[trigger] order.contains(p),
{
    assert(order.no_duplicates());
    let all = vstd::set_lib::set_int_range(0, keys.len() as int);
    let ints = Seq::new(order.len(), |i: int| order[i] as int);
    assert(ints.no_duplicates());
    ints.unique_seq_to_set();
    vstd::set_lib::lemma_int_range(0, keys.len() as int);
    assert(ints.to_set().subset_of(all));
    vstd::set_lib::lemma_subset_equality(ints.to_set(), all);
    assert forall|p: usize| p < keys.len() implies #[trigger] order.contains(p) by {
        assert(all.contains(p as int));
        assert(ints.contains(p as int));
        let i = choose|i: int| 0 <= i < ints.len() && ints[i] == p as int;
        assert(order[i] == p);
    }
}

proof fn same_prefix(keys: Seq<OrderKey>, a: Seq<usize>, b: Seq<usize>, n: int)
    requires
        is_stable_order(keys, a),
        is_stable_order(keys, b),
        0 <= n <= a.len(),
        forall|p: usize| p < keys.len() ==> #[trigger] a.contains(p),
        forall|p: usize| p < keys.len() ==> #[trigger] b.contains(p),
    ensures
        forall|i: int| 0 <= i < n ==> a[i] == b[i],
    decreases n,
{
    if n > 0 {
        same_prefix(keys, a, b, n - 1);
        let k = n - 1;
        if a[k] != b[k] {
            assert(b.contains(a[k]));
            assert(a.contains(b[k]));
            let ib = choose|i: int| 0 <= i < b.len() && b[i] == a[k];
            let ia = choose|i: int| 0 <= i < a.len() && a[i] == b[k];
            assert(a[k] < keys.len() && b[k] < keys.len());
            if ib < k {
                assert(a[ib] == a[k]);
                assert(position_before(keys, a[ib] as int, a[k] as int));
                assert(false);
            }
            if ia < k {
                assert(b[ia] == b[k]);
                assert(position_before(keys, b[ia] as int, b[k] as int));
                assert(false);
            }
            assert(position_before(keys, b[k] as int, b[ib] as int));
            assert(position_before(keys, a[k] as int, a[ia] as int));
            assert(false);
        }
    }
}

/// Whether the values rise from each to the next.
pub open spec fn strictly_ascending(values: Seq<usize>) -> bool {
    forall|i: int, j: int| 0 <= i < j < values.len() ==> #[trigger] values[i] < #[trigger] values[j]
}

/// The values in ascending order, each once.
pub fn sorted_unique(values: &Vec<usize>) -> (sorted: Vec<usize>)
    ensures
        strictly_ascending(sorted@),
        forall|v: usize| #[trigger] sorted@.contains(v) <==> values@.contains(v),
{
    let mut keys: Vec<OrderKey> = Vec::new();
    let mut i: usize = 0;
    while i < values.len()
        invariant
            i <= values.len(),
            keys.len() == i,
            forall|k: int| 0 <= k < i ==> #[trigger] keys[k] == (values[k] as i128, 0i128, 0i128),
        decreases values.len() - i,
    {
        keys.push((values[i] as i128, 0i128, 0i128));
        i = i + 1;
    }
    let order: Vec<usize> = stable_order(&keys);
    let mut sorted: Vec<usize> = Vec::new();
    let mut j: usize = 0;
    proof {
        stable_order_covers(keys@, order@);
    }
    while j < order.len()
        invariant
            j <= order.len(),
            is_stable_order(keys@, order@),
            keys.len() == values.len(),
            forall|k: int| 0 <= k < values.len() ==> #[trigger] keys[k] == (values[k] as i128, 0i128, 0i128),
            strictly_ascending(sorted@),
            j > 0 ==> sorted.len() > 0 && sorted@.last() == values[order[j - 1] as int],
            j == 0 ==> sorted.len() == 0,
            forall|k: int| 0 <= k < j ==> sorted@.contains(values[#[trigger] order[k] as int]),
            forall|k: int| 0 <= k < sorted.len() ==> values@.contains(#[trigger] sorted[k]),
        decreases order.len() - j,
    {
        let value: usize = values[order[j]];
        let ghost before = sorted@;
        if sorted.len() == 0 || sorted[sorted.len() - 1] != value {
            proof {
                if j > 0 {
                    assert(position_before(keys@, order[j - 1] as int, order[j as int] as int));
                    assert(keys[order[j - 1] as int].0 <= keys[order[j as int] as int].0);
                    assert(before.last() < value);
                }
            }
            sorted.push(value);
            assert forall|k: int| 0 <= k < j implies sorted@.contains(values[#[trigger] order[k] as int]) by {
                let v = values[order[k] as int];
                assert(before.contains(v));
                let at = choose|at: int| 0 <= at < before.len() && before[at] == v;
                assert(sorted@[at] == v);
            }
            assert(sorted@[sorted.len() - 1] == value);
        } else {
            assert(sorted@[sorted.len() - 1] == value);
        }
        j = j + 1;
    }
    assert forall|v: usize| #[trigger] sorted@.contains(v) <==> values@.contains(v) by {
        if values@.contains(v) {
            let at = choose|at: int| 0 <= at < values.len() && values[at] == v;
            assert(order@.contains(at as usize));
            let k = choose|k: int| 0 <= k < order.len() && order[k] == at as usize;
            assert(sorted@.contains(values[order[k] as int]));
        }
    }
    sorted
}

/// Any number of keys that can be counted has a stable order.
pub proof fn stable_order_exists(keys: Seq<OrderKey>)
    requires
        keys.len() <= usize::MAX,
    ensures
        is_stable_order(keys, stable_order_of(keys)),
{
    let base = Seq::new(keys.len(), |i: int| i as usize);
    let leq = |a: usize, b: usize|
        a == b || (if a < keys.len() && b < keys.len() { position_before(keys, a as int, b as int) } else if a < keys.len() { true } else if b < keys.len() { false } else { a < b });
    assert(vstd::relations::total_ordering(leq)) by {
        assert forall|a: usize, b: usize, c: usize| #[trigger] leq(a, b) && #[trigger] leq(b, c) implies leq(a, c) by {}
    }
    base.lemma_sort_by_ensures(leq);
    let order = base.sort_by(leq);
    base.to_multiset_ensures();
    order.to_multiset_ensures();
    assert(base.no_duplicates());
    base.lemma_multiset_has_no_duplicates();
    order.lemma_multiset_has_no_duplicates_conv();
    assert(order.len() == keys.len());
    assert forall|i: int| 0 <= i < order.len() implies (#[trigger] order[i]) < keys.len() by {
        assert(order.contains(order[i]));
        assert(base.contains(order[i]));
    }
    assert forall|i: int, j: int| 0 <= i < j < order.len() implies position_before(keys, #[trigger] order[i] as int, #[trigger] order[j] as int) by {
        assert(leq(order[i], order[j]));
        assert(order[i] < keys.len() && order[j] < keys.len());
    }
    assert(is_stable_order(keys, order));
}

} // verus!
