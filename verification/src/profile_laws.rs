//! What asking for a remembered journey gives: the best of all that were remembered.

use crate::keyed_store::StoreKey;
use crate::profile_bucket::{covered, dominates, PointView};
use crate::profile_cache::{
    best_feasible, bucket_covers, exact_point, feasible, lookup_found, profile_key, remembers_more, under_key, Insertion, LookupView, ProfileCache,
};
use vstd::prelude::*;

verus! {

/// Whether the `i`th journey of the `h`th insertion is remembered under a key.
pub open spec fn inserted_under(history: Seq<Insertion>, key: StoreKey, h: int, i: int) -> bool {
    &&& 0 <= h < history.len()
    &&& 0 <= i < history[h].2.len()
    &&& key == profile_key(history[h].0, history[h].1 as int, history[h].2[i].source_stop as int)
}

/// The journeys that the first `n` insertions remember under a key.
pub open spec fn all_under_key(history: Seq<Insertion>, key: StoreKey, n: int) -> Seq<PointView>
    decreases n,
{
    if n <= 0 { Seq::empty() } else { all_under_key(history, key, n - 1) + under_key(history[n - 1], key, history[n - 1].2.len() as int) }
}

proof fn under_key_holds(insertion: Insertion, key: StoreKey, n: int, i: int)
    requires
        0 <= n <= insertion.2.len(),
        0 <= i < n,
        key == profile_key(insertion.0, insertion.1 as int, insertion.2[i].source_stop as int),
    ensures
        under_key(insertion, key, n).contains(exact_point(insertion.1, insertion.2[i])),
    decreases n,
{
    let before = under_key(insertion, key, n - 1);
    let after = under_key(insertion, key, n);
    if i == n - 1 {
        assert(after.last() == exact_point(insertion.1, insertion.2[i]));
    } else {
        under_key_holds(insertion, key, n - 1, i);
        let at = before.index_of(exact_point(insertion.1, insertion.2[i]));
        assert(after[at] == before[at]);
    }
}

proof fn under_key_only(insertion: Insertion, key: StoreKey, n: int, k: int)
    requires
        0 <= n <= insertion.2.len(),
        0 <= k < under_key(insertion, key, n).len(),
    ensures
        exists|i: int| 0 <= i < n && key == profile_key(insertion.0, insertion.1 as int, (#[trigger] insertion.2[i]).source_stop as int) && under_key(insertion, key, n)[k]
            == exact_point(insertion.1, insertion.2[i]),
    decreases n,
{
    let before = under_key(insertion, key, n - 1);
    if k < before.len() {
        under_key_only(insertion, key, n - 1, k);
        let i = choose|i: int|
            0 <= i < n - 1 && key == profile_key(insertion.0, insertion.1 as int, (#[trigger] insertion.2[i]).source_stop as int) && before[k] == exact_point(
                insertion.1,
                insertion.2[i],
            );
        assert(under_key(insertion, key, n)[k] == exact_point(insertion.1, insertion.2[i]));
    } else {
        assert(under_key(insertion, key, n)[k] == exact_point(insertion.1, insertion.2[n - 1]));
    }
}

proof fn all_under_key_holds(history: Seq<Insertion>, key: StoreKey, n: int, h: int, i: int)
    requires
        0 <= h < n <= history.len(),
        inserted_under(history, key, h, i),
    ensures
        all_under_key(history, key, n).contains(exact_point(history[h].1, history[h].2[i])),
    decreases n,
{
    let point = exact_point(history[h].1, history[h].2[i]);
    let before = all_under_key(history, key, n - 1);
    let last = under_key(history[n - 1], key, history[n - 1].2.len() as int);
    if h == n - 1 {
        under_key_holds(history[h], key, history[h].2.len() as int, i);
        let at = last.index_of(point);
        assert((before + last)[before.len() + at] == point);
    } else {
        all_under_key_holds(history, key, n - 1, h, i);
        let at = before.index_of(point);
        assert((before + last)[at] == point);
    }
}

proof fn all_under_key_only(history: Seq<Insertion>, key: StoreKey, n: int, k: int)
    requires
        0 <= n <= history.len(),
        0 <= k < all_under_key(history, key, n).len(),
    ensures
        exists|h: int, i: int| h < n && #[trigger] inserted_under(history, key, h, i) && all_under_key(history, key, n)[k] == exact_point(history[h].1, history[h].2[i]),
    decreases n,
{
    let before = all_under_key(history, key, n - 1);
    if k < before.len() {
        all_under_key_only(history, key, n - 1, k);
        let (h, i) = choose|h: int, i: int| h < n - 1 && #[trigger] inserted_under(history, key, h, i) && before[k] == exact_point(history[h].1, history[h].2[i]);
        assert(inserted_under(history, key, h, i) && all_under_key(history, key, n)[k] == before[k]);
    } else {
        let insertion = history[n - 1];
        under_key_only(insertion, key, insertion.2.len() as int, k - before.len());
        let i = choose|i: int|
            0 <= i < insertion.2.len() && key == profile_key(insertion.0, insertion.1 as int, (#[trigger] insertion.2[i]).source_stop as int)
                && under_key(insertion, key, insertion.2.len() as int)[k - before.len()] == exact_point(insertion.1, insertion.2[i]);
        assert(inserted_under(history, key, n - 1, i));
    }
}

/// Whether each memory remembers what an insertion adds to the one before it, from one
/// with nothing in it on.
pub open spec fn remembered(memories: Seq<Map<StoreKey, Seq<PointView>>>, history: Seq<Insertion>) -> bool {
    &&& memories.len() == history.len() + 1
    &&& memories[0] == Map::<StoreKey, Seq<PointView>>::empty()
    &&& forall|h: int| 0 <= h < history.len() ==> remembers_more(#[trigger] memories[h], memories[h + 1], history[h], history[h].2.len() as int)
}

proof fn history_is_covered(memories: Seq<Map<StoreKey, Seq<PointView>>>, history: Seq<Insertion>, key: StoreKey, n: int)
    requires
        remembered(memories, history),
        0 <= n <= history.len(),
    ensures
        bucket_covers(memories[n], key, all_under_key(history, key, n)),
    decreases n,
{
    if n > 0 {
        history_is_covered(memories, history, key, n - 1);
        assert(remembers_more(memories[n - 1], memories[n], history[n - 1], history[n - 1].2.len() as int));
    }
}

/// Whether a journey arrives before another, or as early with no more rides.
pub open spec fn no_worse_than(arrival: int, rides: int, other_arrival: int, other_rides: int) -> bool {
    arrival < other_arrival || arrival == other_arrival && rides <= other_rides
}

proof fn best_feasible_is_best(points: Seq<PointView>, ready_at: i32, remaining: usize, n: int)
    requires
        0 <= n <= points.len(),
    ensures
        match best_feasible(points, ready_at, remaining, n) {
            Some(b) => {
                &&& 0 <= b < n
                &&& feasible(points[b].profile, ready_at, remaining)
                &&& forall|k: int| 0 <= k < n && feasible((#[trigger] points[k]).profile, ready_at, remaining) ==> no_worse_than(
                    points[b].profile.boundary_arrival_secs as int,
                    points[b].profile.transit_legs as int,
                    points[k].profile.boundary_arrival_secs as int,
                    points[k].profile.transit_legs as int,
                )
            },
            None => forall|k: int| 0 <= k < n ==> !feasible((#[trigger] points[k]).profile, ready_at, remaining),
        },
    decreases n,
{
    if n > 0 {
        best_feasible_is_best(points, ready_at, remaining, n - 1);
    }
}

/// Whether a journey that was remembered under a key can still be begun, with the
/// rides left.
pub open spec fn can_be_begun(history: Seq<Insertion>, key: StoreKey, ready_at: i32, remaining: usize, h: int, i: int) -> bool {
    &&& inserted_under(history, key, h, i)
    &&& ready_at <= history[h].2[i].latest_ready_secs
    &&& history[h].2[i].transit_legs <= remaining
}

/// A lookup gives the best of all journeys that were remembered: of those that can
/// still be begun, with the rides left, one that arrives first, and of these one with
/// the fewest rides. It misses only where there is none, and it is pruned only where
/// none arrives before the bound. (A journey that arrives at the end of time is not
/// kept; one whose duration falls below all that can be counted has none that is true.)
/// Between two of the memories stands one call of `insert_batch`.
pub proof fn lookups_give_the_best_remembered(
    cache: ProfileCache,
    memories: Seq<Map<StoreKey, Seq<PointView>>>,
    history: Seq<Insertion>,
    key: StoreKey,
    ready_at: i32,
    remaining: usize,
    bound: i32,
)
    requires
        cache.wf(),
        remembered(memories, history),
        cache@.exact == memories.last(),
        forall|h: int, i: int| #[trigger] inserted_under(history, key, h, i) ==> history[h].2[i].arrival_secs < i32::MAX && history[h].2[i].arrival_secs
            - history[h].2[i].latest_ready_secs >= i32::MIN,
    ensures
        match lookup_found(cache@, key, ready_at, remaining, bound) {
            LookupView::Match { arrival_secs, transit_legs, .. } => {
                &&& exists|h: int, i: int| #[trigger] can_be_begun(history, key, ready_at, remaining, h, i) && history[h].2[i].arrival_secs == arrival_secs
                    && history[h].2[i].transit_legs == transit_legs
                &&& forall|h: int, i: int| #[trigger] can_be_begun(history, key, ready_at, remaining, h, i) ==> no_worse_than(
                    arrival_secs as int,
                    transit_legs as int,
                    history[h].2[i].arrival_secs as int,
                    history[h].2[i].transit_legs as int,
                )
            },
            LookupView::Miss => forall|h: int, i: int| !#[trigger] can_be_begun(history, key, ready_at, remaining, h, i),
            LookupView::SummaryPruned => forall|h: int, i: int| #[trigger] can_be_begun(history, key, ready_at, remaining, h, i) ==> history[h].2[i].arrival_secs >= bound,
        },
{
    let n = history.len() as int;
    history_is_covered(memories, history, key, n);
    cache.summaries_are_bounds(key);
    let exact = cache@.exact;
    let points = exact[key];
    if exact.dom().contains(key) {
        best_feasible_is_best(points, ready_at, remaining, points.len() as int);
    }
    match lookup_found(cache@, key, ready_at, remaining, bound) {
        LookupView::Match { arrival_secs, transit_legs, .. } => {
            let b = best_feasible(points, ready_at, remaining, points.len() as int)->0;
            let (h, i) = kept_was_inserted(exact, history, key, b);
            assert(can_be_begun(history, key, ready_at, remaining, h, i));
            assert forall|h: int, i: int| #[trigger] can_be_begun(history, key, ready_at, remaining, h, i) implies no_worse_than(
                arrival_secs as int,
                transit_legs as int,
                history[h].2[i].arrival_secs as int,
                history[h].2[i].transit_legs as int,
            ) by {
                let k = inserted_is_covered(exact, history, key, h, i);
                assert(feasible(points[k].profile, ready_at, remaining));
            }
        },
        LookupView::Miss => {
            assert forall|h: int, i: int| !#[trigger] can_be_begun(history, key, ready_at, remaining, h, i) by {
                if can_be_begun(history, key, ready_at, remaining, h, i) {
                    let k = inserted_is_covered(exact, history, key, h, i);
                    assert(feasible(points[k].profile, ready_at, remaining));
                }
            }
        },
        LookupView::SummaryPruned => {
            assert forall|h: int, i: int| #[trigger] can_be_begun(history, key, ready_at, remaining, h, i) implies history[h].2[i].arrival_secs >= bound by {
                let k = inserted_is_covered(exact, history, key, h, i);
                let (g, j) = kept_was_inserted(exact, history, key, k);
                let kept = history[g].2[j];
                assert(kept.arrival_secs - kept.latest_ready_secs >= i32::MIN);
                assert(cache@.summaries[key].0 <= cache@.exact[key][k].profile.absolute_min_duration_secs);
                assert(cache@.summaries[key].1 <= cache@.exact[key][k].profile.absolute_min_transfers);
            }
        },
    }
}

proof fn inserted_is_covered(exact: Map<StoreKey, Seq<PointView>>, history: Seq<Insertion>, key: StoreKey, h: int, i: int) -> (k: int)
    requires
        bucket_covers(exact, key, all_under_key(history, key, history.len() as int)),
        inserted_under(history, key, h, i),
        history[h].2[i].arrival_secs < i32::MAX,
    ensures
        exact.dom().contains(key),
        0 <= k < exact[key].len(),
        dominates(exact[key][k].profile, exact_point(history[h].1, history[h].2[i]).profile),
{
    let all = all_under_key(history, key, history.len() as int);
    all_under_key_holds(history, key, history.len() as int, h, i);
    let at = all.index_of(exact_point(history[h].1, history[h].2[i]));
    assert(covered(exact[key], all[at].profile));
    choose|k: int| 0 <= k < exact[key].len() && dominates((#[trigger] exact[key][k]).profile, all[at].profile)
}

proof fn kept_was_inserted(exact: Map<StoreKey, Seq<PointView>>, history: Seq<Insertion>, key: StoreKey, k: int) -> (found: (int, int))
    requires
        bucket_covers(exact, key, all_under_key(history, key, history.len() as int)),
        exact.dom().contains(key),
        0 <= k < exact[key].len(),
    ensures
        inserted_under(history, key, found.0, found.1),
        exact[key][k] == exact_point(history[found.0].1, history[found.0].2[found.1]),
{
    let n = history.len() as int;
    let all = all_under_key(history, key, n);
    assert(all.contains(exact[key][k]));
    let at = all.index_of(exact[key][k]);
    all_under_key_only(history, key, n, at);
    choose|h: int, i: int| h < n && #[trigger] inserted_under(history, key, h, i) && all[at] == exact_point(history[h].1, history[h].2[i])
}

} // verus!
