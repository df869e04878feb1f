//! Stable ordering of items by text.

use crate::text::chars_of;
use vstd::prelude::*;
use vstd::string::*;

verus! {

/// Whether a text comes strictly before another, character by character.
pub open spec fn text_before(a: Seq<char>, b: Seq<char>) -> bool
    decreases a.len(),
{
    if b.len() == 0 {
        false
    } else if a.len() == 0 {
        true
    } else if a[0] != b[0] {
        a[0] < b[0]
    } else {
        text_before(a.drop_first(), b.drop_first())
    }
}

/// Whether position `i` comes strictly before position `j`: by text, and by
/// position among equal texts.
pub open spec fn text_position_before(texts: Seq<Seq<char>>, i: int, j: int) -> bool {
    text_before(texts[i], texts[j]) || (texts[i] == texts[j] && i < j)
}

/// `order` lists every position of `texts` once, by ascending text, equal texts
/// in their given order.
pub open spec fn is_text_order(texts: Seq<Seq<char>>, order: Seq<usize>) -> bool {
    &&& order.len() == texts.len()
    &&& forall|i: int| 0 <= i < order.len() ==> (#[trigger] order[i]) < texts.len()
    &&& forall|i: int, j: int| 0 <= i < j < order.len() ==> text_position_before(texts, #[trigger] order[i] as int, #[trigger] order[j] as int)
}

/// Text order is total: of two different texts one comes before the other, and
/// not both.
pub proof fn text_order_is_total(a: Seq<char>, b: Seq<char>)
    ensures
        a != b ==> text_before(a, b) || text_before(b, a),
        !(text_before(a, b) && text_before(b, a)),
        a == b ==> !text_before(a, b),
    decreases a.len(),
{
    if a.len() > 0 && b.len() > 0 {
        text_order_is_total(a.drop_first(), b.drop_first());
        if a[0] == b[0] && a.drop_first() == b.drop_first() {
            assert(a =~= seq![a[0]] + a.drop_first());
            assert(b =~= seq![b[0]] + b.drop_first());
        }
    } else if a.len() == 0 && b.len() == 0 {
        assert(a =~= b);
    }
}

/// Text order is transitive.
pub proof fn text_order_is_transitive(a: Seq<char>, b: Seq<char>, c: Seq<char>)
    requires
        text_before(a, b),
        text_before(b, c),
    ensures
        text_before(a, c),
    decreases a.len(),
{
    if a.len() > 0 && b.len() > 0 && c.len() > 0 && a[0] == b[0] && b[0] == c[0] {
        text_order_is_transitive(a.drop_first(), b.drop_first(), c.drop_first());
    }
}

proof fn position_order_is_transitive(texts: Seq<Seq<char>>, i: int, j: int, k: int)
    requires
        text_position_before(texts, i, j),
        text_position_before(texts, j, k),
    ensures
        text_position_before(texts, i, k),
{
    if text_before(texts[i], texts[j]) && text_before(texts[j], texts[k]) {
        text_order_is_transitive(texts[i], texts[j], texts[k]);
    }
}

fn chars_before(a: &Vec<char>, b: &Vec<char>) -> (before: bool)
    ensures
        before == text_before(a@, b@),
{
    let mut i: usize = 0;
    assert(a@.skip(0) =~= a@);
    assert(b@.skip(0) =~= b@);
    while i < a.len() && i < b.len()
        invariant
            i <= a.len(),
            i <= b.len(),
            text_before(a@, b@) == text_before(a@.skip(i as int), b@.skip(i as int)),
        decreases a.len() - i,
    {
        assert(a@.skip(i as int)[0] == a@[i as int]);
        assert(b@.skip(i as int)[0] == b@[i as int]);
        assert(a@.skip(i as int).drop_first() =~= a@.skip(i + 1));
        assert(b@.skip(i as int).drop_first() =~= b@.skip(i + 1));
        if a[i] != b[i] {
            return a[i] < b[i];
        }
        i = i + 1;
    }
    i < b.len()
}

/// Whether a text comes strictly before another.
pub fn comes_before(a: &str, b: &str) -> (before: bool)
    ensures
        before == text_before(a@, b@),
{
    chars_before(&chars_of(a), &chars_of(b))
}

spec fn views(texts: Seq<Vec<char>>) -> Seq<Seq<char>> {
    Seq::new(texts.len(), |i: int| texts[i]@)
}

spec fn strictly_ordered(texts: Seq<Seq<char>>, order: Seq<usize>) -> bool {
    forall|i: int, j: int| 0 <= i < j < order.len() ==> text_position_before(texts, #[trigger] order[i] as int, #[trigger] order[j] as int)
}

spec fn within(order: Seq<usize>, lo: int, hi: int) -> bool {
    forall|i: int| 0 <= i < order.len() ==> lo <= (#[trigger] order[i]) < hi
}

fn merge_orders(texts: &Vec<Vec<char>>, left: Vec<usize>, right: Vec<usize>, Ghost(lo): Ghost<int>, Ghost(mid): Ghost<int>, Ghost(hi): Ghost<int>) -> (merged: Vec<usize>)
    requires
        0 <= lo <= mid <= hi <= texts.len(),
        within(left@, lo, mid),
        within(right@, mid, hi),
        strictly_ordered(views(texts@), left@),
        strictly_ordered(views(texts@), right@),
        left.len() == mid - lo,
        right.len() == hi - mid,
    ensures
        within(merged@, lo, hi),
        strictly_ordered(views(texts@), merged@),
        merged.len() == hi - lo,
{
    let ghost keys = views(texts@);
    let mut merged: Vec<usize> = Vec::new();
    let mut i: usize = 0;
    let mut j: usize = 0;
    while i < left.len() || j < right.len()
        invariant
            i <= left.len(),
            j <= right.len(),
            merged.len() == i + j,
            keys == views(texts@),
            0 <= lo <= mid <= hi <= texts.len(),
            within(left@, lo, mid),
            within(right@, mid, hi),
            strictly_ordered(keys, left@),
            strictly_ordered(keys, right@),
            within(merged@, lo, hi),
            strictly_ordered(keys, merged@),
            left.len() == mid - lo,
            right.len() == hi - mid,
            forall|a: int, b: int| 0 <= a < merged.len() && i <= b < left.len() ==> text_position_before(keys, #[trigger] merged[a] as int, #[trigger] left[b] as int),
            forall|a: int, b: int| 0 <= a < merged.len() && j <= b < right.len() ==> text_position_before(keys, #[trigger] merged[a] as int, #[trigger] right[b] as int),
        decreases left.len() + right.len() - i - j,
    {
        let take_left: bool = if i >= left.len() {
            false
        } else if j >= right.len() {
            true
        } else {
            assert(left@[i as int] < texts.len() && right@[j as int] < texts.len());
            !chars_before(&texts[right[j]], &texts[left[i]])
        };
        let ghost before = merged@;
        let taken: usize = if take_left { left[i] } else { right[j] };
        proof {
            if i < left.len() && j < right.len() {
                text_order_is_total(keys[left@[i as int] as int], keys[right@[j as int] as int]);
                assert(keys[left@[i as int] as int] == texts@[left@[i as int] as int]@);
                assert(keys[right@[j as int] as int] == texts@[right@[j as int] as int]@);
            }
            let next_i = if take_left { i + 1 } else { i as int };
            let next_j = if take_left { j as int } else { j + 1 };
            assert forall|b: int| next_i <= b < left.len() implies text_position_before(keys, taken as int, #[trigger] left@[b] as int) by {
                if take_left {
                    assert(text_position_before(keys, left@[i as int] as int, left@[b] as int));
                } else if i < left.len() {
                    assert(text_position_before(keys, taken as int, left@[i as int] as int));
                    if b > i {
                        position_order_is_transitive(keys, taken as int, left@[i as int] as int, left@[b] as int);
                    }
                }
            }
            assert forall|b: int| next_j <= b < right.len() implies text_position_before(keys, taken as int, #[trigger] right@[b] as int) by {
                if !take_left {
                    assert(text_position_before(keys, right@[j as int] as int, right@[b] as int));
                } else if j < right.len() {
                    assert(text_position_before(keys, taken as int, right@[j as int] as int));
                    if b > j {
                        position_order_is_transitive(keys, taken as int, right@[j as int] as int, right@[b] as int);
                    }
                }
            }
        }
        merged.push(taken);
        if take_left {
            i = i + 1;
        } else {
            j = j + 1;
        }
        proof {
            assert forall|k: int| 0 <= k < merged.len() implies lo <= (#[trigger] merged@[k]) < hi by {
                if k < before.len() {
                    assert(merged@[k] == before[k]);
                }
            }
        }
    }
    merged
}

fn order_range(texts: &Vec<Vec<char>>, lo: usize, hi: usize) -> (order: Vec<usize>)
    requires
        lo <= hi <= texts.len(),
    ensures
        within(order@, lo as int, hi as int),
        strictly_ordered(views(texts@), order@),
        order.len() == hi - lo,
    decreases hi - lo,
{
    if hi - lo == 0 {
        return Vec::new();
    }
    if hi - lo == 1 {
        let mut single: Vec<usize> = Vec::new();
        single.push(lo);
        return single;
    }
    let mid: usize = lo + (hi - lo) / 2;
    let left: Vec<usize> = order_range(texts, lo, mid);
    let right: Vec<usize> = order_range(texts, mid, hi);
    merge_orders(texts, left, right, Ghost(lo as int), Ghost(mid as int), Ghost(hi as int))
}

/// What texts say.
pub open spec fn texts_view(texts: Seq<String>) -> Seq<Seq<char>> {
    Seq::new(texts.len(), |i: int| texts[i]@)
}

/// The order of texts: there is exactly one.
pub open spec fn text_order_of(texts: Seq<Seq<char>>) -> Seq<usize> {
    choose|order: Seq<usize>| is_text_order(texts, order)
}

/// A text order is unique.
pub proof fn text_order_is_unique(texts: Seq<Seq<char>>, a: Seq<usize>, b: Seq<usize>)
    requires
        is_text_order(texts, a),
        is_text_order(texts, b),
    ensures
        a == b,
{
    text_order_covers(texts, a);
    text_order_covers(texts, b);
    assert forall|i: int| 0 <= i < a.len() implies a[i] == b[i] by {
        same_prefix(texts, a, b, i + 1);
    }
    assert(a =~= b);
}

/// Every position occurs in a text order.
pub proof fn text_order_covers(texts: Seq<Seq<char>>, order: Seq<usize>)
    requires
        is_text_order(texts, order),
    ensures
        order.no_duplicates(),
        forall|p: usize| p < texts.len() ==> #[trigger] order.contains(p),
{
    assert forall|i: int, j: int| 0 <= i < order.len() && 0 <= j < order.len() && i != j implies order[i] != order[j] by {
        if i < j {
            assert(text_position_before(texts, order[i] as int, order[j] as int));
        } else {
            assert(text_position_before(texts, order[j] as int, order[i] as int));
        }
        text_order_is_total(texts[order[i] as int], texts[order[j] as int]);
    }
    let all = vstd::set_lib::set_int_range(0, texts.len() as int);
    let ints = Seq::new(order.len(), |i: int| order[i] as int);
    assert(ints.no_duplicates());
    ints.unique_seq_to_set();
    vstd::set_lib::lemma_int_range(0, texts.len() as int);
    assert(ints.to_set().subset_of(all));
    vstd::set_lib::lemma_subset_equality(ints.to_set(), all);
    assert forall|p: usize| p < texts.len() implies #[trigger] order.contains(p) by {
        assert(all.contains(p as int));
        assert(ints.contains(p as int));
        let i = choose|i: int| 0 <= i < ints.len() && ints[i] == p as int;
        assert(order[i] == p);
    }
}

proof fn same_prefix(texts: Seq<Seq<char>>, a: Seq<usize>, b: Seq<usize>, n: int)
    requires
        is_text_order(texts, a),
        is_text_order(texts, b),
        0 <= n <= a.len(),
        forall|p: usize| p < texts.len() ==> #[trigger] a.contains(p),
        forall|p: usize| p < texts.len() ==> #[trigger] b.contains(p),
    ensures
        forall|i: int| 0 <= i < n ==> a[i] == b[i],
    decreases n,
{
    if n > 0 {
        same_prefix(texts, a, b, n - 1);
        let k = n - 1;
        if a[k] != b[k] {
            assert(b.contains(a[k]));
            assert(a.contains(b[k]));
            let ib = choose|i: int| 0 <= i < b.len() && b[i] == a[k];
            let ia = choose|i: int| 0 <= i < a.len() && a[i] == b[k];
            text_order_is_total(texts[a[k] as int], texts[b[k] as int]);
            text_order_is_total(texts[a[k] as int], texts[a[k] as int]);
            text_order_is_total(texts[b[k] as int], texts[b[k] as int]);
            if ib < k {
                assert(a[ib] == a[k]);
                assert(text_position_before(texts, a[ib] as int, a[k] as int));
                assert(false);
            }
            if ia < k {
                assert(b[ia] == b[k]);
                assert(text_position_before(texts, b[ia] as int, b[k] as int));
                assert(false);
            }
            assert(text_position_before(texts, b[k] as int, b[ib] as int));
            assert(text_position_before(texts, a[k] as int, a[ia] as int));
            assert(false);
        }
    }
}

/// The order of texts.
pub fn text_order(texts: &Vec<String>) -> (order: Vec<usize>)
    ensures
        is_text_order(texts_view(texts@), order@),
        order@ == text_order_of(texts_view(texts@)),
{
    let mut chars: Vec<Vec<char>> = Vec::new();
    let mut i: usize = 0;
    while i < texts.len()
        invariant
            i <= texts.len(),
            chars@.len() == i,
            forall|k: int| 0 <= k < i ==> (#[trigger] chars@[k])@ == texts@[k]@,
        decreases texts.len() - i,
    {
        chars.push(chars_of(texts[i].as_str()));
        i = i + 1;
    }
    assert(views(chars@) =~= texts_view(texts@));
    let order: Vec<usize> = order_range(&chars, 0, chars.len());
    assert(is_text_order(texts_view(texts@), order@));
    proof {
        text_order_is_unique(texts_view(texts@), order@, text_order_of(texts_view(texts@)));
    }
    order
}

/// Any number of texts that can be counted has a text order.
pub proof fn text_order_exists(texts: Seq<Seq<char>>)
    requires
        texts.len() <= usize::MAX,
    ensures
        is_text_order(texts, text_order_of(texts)),
{
    let base = Seq::new(texts.len(), |i: int| i as usize);
    let n = texts.len();
    let leq = |a: usize, b: usize|
        a == b || (if a < n && b < n { text_position_before(texts, a as int, b as int) } else if a < n { true } else if b < n { false } else { a < b });
    assert(vstd::relations::total_ordering(leq)) by {
        assert forall|a: usize, b: usize, c: usize| #[trigger] leq(a, b) && #[trigger] leq(b, c) implies leq(a, c) by {
            if a < n && b < n && c < n {
                if text_before(texts[a as int], texts[b as int]) && text_before(texts[b as int], texts[c as int]) {
                    text_order_is_transitive(texts[a as int], texts[b as int], texts[c as int]);
                }
                text_order_is_total(texts[a as int], texts[b as int]);
                text_order_is_total(texts[b as int], texts[c as int]);
            }
        }
        assert forall|a: usize, b: usize| #[trigger] leq(a, b) && #[trigger] leq(b, a) implies a == b by {
            if a < n && b < n {
                text_order_is_total(texts[a as int], texts[b as int]);
            }
        }
        assert forall|a: usize, b: usize| #[trigger] leq(a, b) || #[trigger] leq(b, a) by {
            if a < n && b < n {
                text_order_is_total(texts[a as int], texts[b as int]);
            }
        }
    }
    base.lemma_sort_by_ensures(leq);
    let order = base.sort_by(leq);
    base.to_multiset_ensures();
    order.to_multiset_ensures();
    assert(base.no_duplicates());
    base.lemma_multiset_has_no_duplicates();
    order.lemma_multiset_has_no_duplicates_conv();
    assert(order.len() == n);
    assert forall|i: int| 0 <= i < order.len() implies (#[trigger] order[i]) < n by {
        assert(order.contains(order[i]));
        assert(base.contains(order[i]));
    }
    assert forall|i: int, j: int| 0 <= i < j < order.len() implies text_position_before(texts, #[trigger] order[i] as int, #[trigger] order[j] as int) by {
        assert(leq(order[i], order[j]));
        assert(order[i] < n && order[j] < n);
    }
    assert(is_text_order(texts, order));
}

} // verus!
