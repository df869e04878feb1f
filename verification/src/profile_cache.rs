//! Journeys remembered from earlier queries.

use crate::keyed_store::{KeyedStore, StoreKey};
use crate::leg::{copy_legs, CachedLeg};
use crate::model::{saturated_sum, saturating_difference, saturating_sum};
use crate::order::{arranged, is_stable_order, stable_order, stable_order_of, OrderKey};
use crate::profile_bucket::{
    adds_only, bloom_of, bucket_bounds, bucket_view, copy_match, covered, covers_more, dominates, merge_point, merged, retain_untouched,
    summarize_profile_bucket, trips_bits, untouched, BucketPoint, MatchView, PointView, SpatialProfileMatch,
};
use vstd::prelude::*;

verus! {

/// How the cache is filled and used.
#[derive(Clone, Copy, Debug, PartialEq, Eq, Structural)]
pub struct ProfileCacheStats {
    pub keys: usize,
    pub points: usize,
    pub lookups: u64,
    pub hits: u64,
    pub exact_keys: usize,
    pub exact_points: usize,
    pub exact_lookups: u64,
    pub exact_hits: u64,
    pub spatial_keys: usize,
    pub spatial_points: usize,
    pub spatial_lookups: u64,
    pub spatial_hits: u64,
    pub bound_improvements: u64,
    pub inserted_points: u64,
    pub inserted_spatial_points: u64,
    pub invalidation_passes: u64,
    pub invalidated_points: u64,
    pub invalidated_keys: u64,
    pub bloom_checks: u64,
}

/// What an invalidation did.
#[derive(Clone, Copy, Debug, PartialEq, Eq, Structural)]
pub struct ProfileInvalidationSummary {
    pub invalidated_points: u64,
    pub invalidated_keys: u64,
    pub bloom_checks: u64,
}

/// The counts that the cache keeps; they wrap around.
#[derive(Clone, Copy, Debug, PartialEq, Eq, Structural)]
pub struct CacheCounters {
    pub exact_lookups: u64,
    pub exact_hits: u64,
    pub spatial_lookups: u64,
    pub spatial_hits: u64,
    pub bound_improvements: u64,
    pub inserted_points: u64,
    pub inserted_spatial_points: u64,
    pub invalidation_passes: u64,
    pub invalidated_points: u64,
    pub invalidated_keys: u64,
    pub bloom_checks: u64,
}

/// A journey to a stop, to be remembered.
#[derive(Clone, Debug)]
pub struct ProfileInsertionPoint {
    pub source_stop: usize,
    pub latest_ready_secs: i32,
    pub arrival_secs: i32,
    pub transit_legs: usize,
    pub trip_indices: Vec<usize>,
    pub suffix_legs: Vec<CachedLeg>,
}

/// A journey to the border of a destination cell, to be remembered.
#[derive(Clone, Debug)]
pub struct SpatialProfileInsertionPoint {
    pub source_stop: usize,
    pub latest_ready_secs: i32,
    pub boundary_arrival_secs: i32,
    pub transit_legs: usize,
    pub boundary_stop: usize,
    pub trip_indices: Vec<usize>,
    pub trunk_legs: Vec<CachedLeg>,
}

/// A remembered journey to a stop.
#[derive(Clone, Debug)]
pub struct ProfileMatch {
    pub arrival_secs: i32,
    pub transit_legs: usize,
    pub absolute_min_duration_secs: i32,
    pub absolute_min_transfers: usize,
    pub suffix_legs: Vec<CachedLeg>,
}

/// What a lookup found.
#[derive(Clone, Debug)]
pub enum ProfileLookupDecision {
    Miss,
    SummaryPruned,
    Match(ProfileMatch),
}

/// The remembered journeys to a set of cells, by source stop.
#[derive(Clone, Debug)]
pub struct PreparedSpatialLookup {
    pub enabled_source_stops: Vec<bool>,
    pub matches_by_source_stop: Vec<Vec<SpatialProfileMatch>>,
    pub absolute_min_duration_by_source_stop: Vec<i32>,
    pub absolute_min_transfers_by_source_stop: Vec<usize>,
    pub populated_sources: usize,
    pub materialized_matches: usize,
}

/// How many journeys a lookup gives for one source stop.
pub const SPATIAL_MATCH_LIMIT: usize = 6;

/// A count after `more` was added, wrapped to 64 bits.
pub open spec fn wrapped(count: u64, more: int) -> u64 {
    ((count + more) % 0x1_0000_0000_0000_0000) as u64
}

fn wrap_up(count: u64, more: u64) -> (sum: u64)
    ensures
        sum == wrapped(count, more as int),
{
    let wide: u128 = count as u128 + more as u128;
    (wide % 0x1_0000_0000_0000_0000) as u64
}

/// A number held to 64 bits.
pub open spec fn held(value: int) -> u64 {
    if value > u64::MAX { u64::MAX } else { value as u64 }
}

fn hold_sum(a: u64, b: u64) -> (sum: u64)
    ensures
        sum == held(a + b),
{
    if a > u64::MAX - b { u64::MAX } else { a + b }
}

fn hold_product(a: usize, b: usize) -> (product: u64)
    ensures
        product == held(a * b),
{
    proof {
        assert(a as int * b as int <= u64::MAX * u64::MAX) by (nonlinear_arith)
            requires
                0 <= a <= u64::MAX,
                0 <= b <= u64::MAX,
        ;
        assert(0 <= a as int * b as int) by (nonlinear_arith)
            requires
                0 <= a,
                0 <= b,
        ;
    }
    let wide: u128 = a as u128 * b as u128;
    if wide > u64::MAX as u128 { u64::MAX } else { wide as u64 }
}

/// What the cache remembers.
pub struct CacheView {
    pub exact: Map<StoreKey, Seq<PointView>>,
    pub summaries: Map<StoreKey, (i32, usize)>,
    pub spatial: Map<StoreKey, Seq<PointView>>,
    pub counters: CacheCounters,
}

/// The buckets of a store as sequences.
pub open spec fn buckets_view(store: Map<StoreKey, Vec<BucketPoint>>) -> Map<StoreKey, Seq<PointView>> {
    Map::new(|key: StoreKey| store.dom().contains(key), |key: StoreKey| bucket_view(store[key]@))
}

/// The key of the journeys from a stop to a destination on a day.
pub open spec fn profile_key(service_date: i32, destination: int, source: int) -> StoreKey {
    (service_date, destination as u64, source as u64)
}

/// Whether a remembered journey can still be begun, with the rides left.
pub open spec fn feasible(profile: MatchView, ready_at: i32, remaining: usize) -> bool {
    ready_at <= profile.latest_ready_secs && profile.transit_legs <= remaining
}

/// The place of the best of the first `n` journeys that are feasible: the
/// earliest arrival, then the fewest rides, then the first.
pub open spec fn best_feasible(points: Seq<PointView>, ready_at: i32, remaining: usize, n: int) -> Option<int>
    decreases n,
{
    if n <= 0 {
        None
    } else {
        let before = best_feasible(points, ready_at, remaining, n - 1);
        let profile = points[n - 1].profile;
        if !feasible(profile, ready_at, remaining) {
            before
        } else {
            match before {
                None => Some(n - 1),
                Some(i) => {
                    let best = points[i].profile;
                    if profile.boundary_arrival_secs < best.boundary_arrival_secs || (profile.boundary_arrival_secs == best.boundary_arrival_secs
                        && profile.transit_legs < best.transit_legs) {
                        Some(n - 1)
                    } else {
                        before
                    }
                },
            }
        }
    }
}

/// What a lookup found, with the legs as a sequence.
pub enum LookupView {
    Miss,
    SummaryPruned,
    Match { arrival_secs: i32, transit_legs: usize, absolute_min_duration_secs: i32, absolute_min_transfers: usize, suffix_legs: Seq<CachedLeg> },
}

/// A remembered journey as a lookup gives it.
pub open spec fn found_point(profile: MatchView) -> LookupView {
    LookupView::Match {
        arrival_secs: profile.boundary_arrival_secs,
        transit_legs: profile.transit_legs,
        absolute_min_duration_secs: profile.absolute_min_duration_secs,
        absolute_min_transfers: profile.absolute_min_transfers,
        suffix_legs: profile.trunk_legs,
    }
}

/// A decision with the legs as a sequence.
pub open spec fn decision_view(decision: ProfileLookupDecision) -> LookupView {
    match decision {
        ProfileLookupDecision::Miss => LookupView::Miss,
        ProfileLookupDecision::SummaryPruned => LookupView::SummaryPruned,
        ProfileLookupDecision::Match(found) => LookupView::Match {
            arrival_secs: found.arrival_secs,
            transit_legs: found.transit_legs,
            absolute_min_duration_secs: found.absolute_min_duration_secs,
            absolute_min_transfers: found.absolute_min_transfers,
            suffix_legs: found.suffix_legs@,
        },
    }
}

/// What a lookup finds: nothing where nothing is remembered; a pruned summary
/// where not even the least duration beats the bound; else the best journey
/// that is feasible.
pub open spec fn lookup_found(view: CacheView, key: StoreKey, ready_at: i32, remaining: usize, bound: i32) -> LookupView {
    if !view.summaries.dom().contains(key) {
        LookupView::Miss
    } else if view.summaries[key].1 > remaining || saturated_sum(ready_at as int, view.summaries[key].0 as int) >= bound {
        LookupView::SummaryPruned
    } else {
        let points = view.exact[key];
        match best_feasible(points, ready_at, remaining, points.len() as int) {
            None => LookupView::Miss,
            Some(i) => found_point(points[i].profile),
        }
    }
}

/// The bounds of each bucket.
pub open spec fn summaries_of(buckets: Map<StoreKey, Seq<PointView>>) -> Map<StoreKey, (i32, usize)> {
    Map::new(|key: StoreKey| buckets.dom().contains(key), |key: StoreKey| bucket_bounds(buckets[key], buckets[key].len() as int))
}

/// The point that remembers a journey.
pub open spec fn remembered(latest_ready: i32, arrival: i32, transit_legs: usize, boundary_stop: usize, trips: Seq<usize>, legs: Seq<CachedLeg>) -> PointView {
    PointView {
        profile: MatchView {
            latest_ready_secs: latest_ready,
            boundary_arrival_secs: arrival,
            transit_legs: transit_legs,
            boundary_stop: boundary_stop,
            absolute_min_duration_secs: saturated_sum(arrival as int, -(latest_ready as int)) as i32,
            absolute_min_transfers: transit_legs,
            trunk_legs: legs,
        },
        bits: trips_bits(trips),
    }
}

/// The buckets after a point was added under a key, and whether one changed.
pub open spec fn with_point(buckets: Map<StoreKey, Seq<PointView>>, key: StoreKey, point: PointView) -> (Map<StoreKey, Seq<PointView>>, bool) {
    if buckets.dom().contains(key) {
        let result = merged(buckets[key], point);
        (buckets.insert(key, result.0), result.1)
    } else {
        (buckets.insert(key, seq![point]), true)
    }
}

/// The point of a journey to a stop.
pub open spec fn exact_point(destination: usize, point: ProfileInsertionPoint) -> PointView {
    remembered(point.latest_ready_secs, point.arrival_secs, point.transit_legs, destination, point.trip_indices@, point.suffix_legs@)
}

/// The point of a journey to the border of a cell.
pub open spec fn spatial_point(point: SpatialProfileInsertionPoint) -> PointView {
    remembered(point.latest_ready_secs, point.boundary_arrival_secs, point.transit_legs, point.boundary_stop, point.trip_indices@, point.trunk_legs@)
}

/// The cache after the first `n` journeys to a stop were added, without the
/// count of them.
pub open spec fn with_exact_points(view: CacheView, service_date: i32, destination: usize, points: Seq<ProfileInsertionPoint>, n: int) -> (CacheView, int)
    decreases n,
{
    if n <= 0 {
        (view, 0)
    } else {
        let before = with_exact_points(view, service_date, destination, points, n - 1);
        let key = profile_key(service_date, destination as int, points[n - 1].source_stop as int);
        let result = with_point(before.0.exact, key, exact_point(destination, points[n - 1]));
        (
            CacheView {
                exact: result.0,
                summaries: before.0.summaries.insert(key, bucket_bounds(result.0[key], result.0[key].len() as int)),
                ..before.0
            },
            before.1 + (if result.1 { 1int } else { 0int }),
        )
    }
}

/// The buckets after the first `n` journeys to a cell were added, and how many
/// changed something.
pub open spec fn with_spatial_points(
    buckets: Map<StoreKey, Seq<PointView>>,
    service_date: i32,
    cell: u64,
    points: Seq<SpatialProfileInsertionPoint>,
    n: int,
) -> (Map<StoreKey, Seq<PointView>>, int)
    decreases n,
{
    if n <= 0 {
        (buckets, 0)
    } else {
        let before = with_spatial_points(buckets, service_date, cell, points, n - 1);
        let key = profile_key(service_date, cell as int, points[n - 1].source_stop as int);
        let result = with_point(before.0, key, spatial_point(points[n - 1]));
        (result.0, before.1 + (if result.1 { 1int } else { 0int }))
    }
}

/// The buckets after the journeys on changed trips were dropped; a bucket that
/// is left empty is dropped too.
pub open spec fn invalidated(buckets: Map<StoreKey, Seq<PointView>>, changed: Seq<usize>) -> Map<StoreKey, Seq<PointView>> {
    Map::new(
        |key: StoreKey| buckets.dom().contains(key) && untouched(buckets[key], changed, buckets[key].len() as int).len() > 0,
        |key: StoreKey| untouched(buckets[key], changed, buckets[key].len() as int),
    )
}

/// The work of an invalidation over the first `n` of the buckets listed.
pub open spec fn invalidation_work(buckets: Map<StoreKey, Seq<PointView>>, listed: Seq<StoreKey>, changed: Seq<usize>, start: ProfileInvalidationSummary, n: int) -> ProfileInvalidationSummary
    decreases n,
{
    if n <= 0 {
        start
    } else {
        let before = invalidation_work(buckets, listed, changed, start, n - 1);
        let points = buckets[listed[n - 1]];
        let kept = untouched(points, changed, points.len() as int);
        ProfileInvalidationSummary {
            invalidated_points: held(before.invalidated_points + (points.len() - kept.len())),
            invalidated_keys: if kept.len() == 0 { held(before.invalidated_keys + 1) } else { before.invalidated_keys },
            bloom_checks: held(before.bloom_checks + held((points.len() * changed.len()) as int)),
        }
    }
}

/// Sort key of a journey among the answers of a lookup.
pub open spec fn match_key(profile: MatchView) -> OrderKey {
    (profile.boundary_arrival_secs as i128, profile.transit_legs as i128, profile.boundary_stop as i128)
}

/// Sort keys of journeys.
pub open spec fn match_keys(matches: Seq<MatchView>) -> Seq<OrderKey> {
    Seq::new(matches.len(), |i: int| match_key(matches[i]))
}

/// The best of the journeys, best first.
pub open spec fn best_matches(matches: Seq<MatchView>) -> Seq<MatchView> {
    let sorted = arranged(matches, stable_order_of(match_keys(matches)));
    if sorted.len() > SPATIAL_MATCH_LIMIT { sorted.take(SPATIAL_MATCH_LIMIT as int) } else { sorted }
}

/// The journeys of points.
pub open spec fn profiles(points: Seq<PointView>) -> Seq<MatchView> {
    Seq::new(points.len(), |i: int| points[i].profile)
}

/// Journeys with their legs as sequences.
pub open spec fn matches_view(matches: Seq<SpatialProfileMatch>) -> Seq<MatchView> {
    Seq::new(matches.len(), |i: int| matches[i]@)
}

/// The journeys among the first `n` points that are feasible.
pub open spec fn feasible_profiles(points: Seq<PointView>, ready_at: i32, remaining: usize, n: int) -> Seq<MatchView>
    decreases n,
{
    if n <= 0 {
        Seq::empty()
    } else if feasible(points[n - 1].profile, ready_at, remaining) {
        feasible_profiles(points, ready_at, remaining, n - 1).push(points[n - 1].profile)
    } else {
        feasible_profiles(points, ready_at, remaining, n - 1)
    }
}

/// The feasible journeys from a stop to the first `n` cells.
pub open spec fn cell_profiles(view: CacheView, service_date: i32, cells: Seq<u64>, source: int, ready_at: i32, remaining: usize, n: int) -> Seq<MatchView>
    decreases n,
{
    if n <= 0 {
        Seq::empty()
    } else {
        let before = cell_profiles(view, service_date, cells, source, ready_at, remaining, n - 1);
        let key = profile_key(service_date, cells[n - 1] as int, source);
        if view.spatial.dom().contains(key) {
            before + feasible_profiles(view.spatial[key], ready_at, remaining, view.spatial[key].len() as int)
        } else {
            before
        }
    }
}

/// The journeys from a stop on a day to one of the cells, in the order of the
/// first `n` keys listed.
pub open spec fn surface_profiles(view: CacheView, listed: Seq<StoreKey>, service_date: i32, cells: Seq<u64>, source: int, n: int) -> Seq<MatchView>
    decreases n,
{
    if n <= 0 {
        Seq::empty()
    } else {
        let before = surface_profiles(view, listed, service_date, cells, source, n - 1);
        let key = listed[n - 1];
        if key.0 == service_date && key.2 == source && cells.contains(key.1) {
            before + profiles(view.spatial[key])
        } else {
            before
        }
    }
}

/// The least duration and fewest rides of journeys.
pub open spec fn match_bounds(matches: Seq<MatchView>, n: int) -> (i32, usize)
    decreases n,
{
    if n <= 0 {
        (i32::MAX, usize::MAX)
    } else {
        let before = match_bounds(matches, n - 1);
        (
            if matches[n - 1].absolute_min_duration_secs < before.0 { matches[n - 1].absolute_min_duration_secs } else { before.0 },
            if matches[n - 1].absolute_min_transfers < before.1 { matches[n - 1].absolute_min_transfers } else { before.1 },
        )
    }
}

/// Whether an entry of a prepared lookup holds the best of the journeys from a
/// stop, with their bounds.
pub open spec fn surface_entry(prepared: PreparedSpatialLookup, source: int, all: Seq<MatchView>) -> bool {
    let best = best_matches(all);
    &&& all.len() <= usize::MAX
    &&& prepared.enabled_source_stops@[source] == (all.len() > 0)
    &&& matches_view(prepared.matches_by_source_stop@[source]@) == (if all.len() > 0 { best } else { Seq::empty() })
    &&& prepared.absolute_min_duration_by_source_stop@[source] == (if all.len() > 0 { match_bounds(best, best.len() as int).0 } else { i32::MAX })
    &&& prepared.absolute_min_transfers_by_source_stop@[source] == (if all.len() > 0 { match_bounds(best, best.len() as int).1 } else { usize::MAX })
}

/// The remembered journeys, with the counts of how they were used.
pub struct ProfileCache {
    exact_entries: KeyedStore<Vec<BucketPoint>>,
    exact_summaries: KeyedStore<(i32, usize)>,
    spatial_entries: KeyedStore<Vec<BucketPoint>>,
    counters: CacheCounters,
}

fn sort_matches(matches: Vec<SpatialProfileMatch>) -> (best: Vec<SpatialProfileMatch>)
    ensures
        matches_view(best@) == best_matches(matches_view(matches@)),
        matches@.len() > 0 ==> best@.len() > 0,
{
    let ghost all = matches_view(matches@);
    let mut keys: Vec<OrderKey> = Vec::new();
    let mut i: usize = 0;
    while i < matches.len()
        invariant
            i <= matches.len(),
            all == matches_view(matches@),
            keys.len() == i,
            forall|k: int| 0 <= k < i ==> #[trigger] keys[k] == match_key(all[k]),
        decreases matches.len() - i,
    {
        assert(all[i as int] == matches@[i as int]@);
        keys.push((matches[i].boundary_arrival_secs as i128, matches[i].transit_legs as i128, matches[i].boundary_stop as i128));
        i = i + 1;
    }
    assert(keys@ =~= match_keys(all));
    let order: Vec<usize> = stable_order(&keys);
    let ghost sorted = arranged(all, order@);
    let count: usize = if order.len() > SPATIAL_MATCH_LIMIT { SPATIAL_MATCH_LIMIT } else { order.len() };
    let mut best: Vec<SpatialProfileMatch> = Vec::new();
    let mut j: usize = 0;
    while j < count
        invariant
            j <= count,
            count <= order.len(),
            all == matches_view(matches@),
            keys.len() == matches.len(),
            is_stable_order(keys@, order@),
            sorted == arranged(all, order@),
            matches_view(best@) == sorted.take(j as int),
        decreases count - j,
    {
        let ghost before = best@;
        assert(sorted[j as int] == matches@[order@[j as int] as int]@);
        best.push(copy_match(&matches[order[j]]));
        assert(matches_view(before).len() == j);
        assert(matches_view(best@) =~= sorted.take(j + 1)) by {
            assert forall|k: int| 0 <= k < j + 1 implies matches_view(best@)[k] == sorted[k] by {
                if k < j {
                    assert(matches_view(before)[k] == sorted.take(j as int)[k]);
                }
            }
        }
        j = j + 1;
    }
    assert(sorted.len() <= SPATIAL_MATCH_LIMIT ==> sorted.take(j as int) =~= sorted);
    assert(matches_view(best@).len() == best@.len());
    best
}

fn bounds_of(matches: &Vec<SpatialProfileMatch>) -> (bounds: (i32, usize))
    ensures
        bounds == match_bounds(matches_view(matches@), matches@.len() as int),
{
    let mut duration: i32 = i32::MAX;
    let mut transfers: usize = usize::MAX;
    let mut i: usize = 0;
    while i < matches.len()
        invariant
            i <= matches.len(),
            (duration, transfers) == match_bounds(matches_view(matches@), i as int),
        decreases matches.len() - i,
    {
        assert(matches_view(matches@)[i as int] == matches@[i as int]@);
        if matches[i].absolute_min_duration_secs < duration {
            duration = matches[i].absolute_min_duration_secs;
        }
        if matches[i].absolute_min_transfers < transfers {
            transfers = matches[i].absolute_min_transfers;
        }
        i = i + 1;
    }
    (duration, transfers)
}

fn make_point(latest_ready: i32, arrival: i32, transit_legs: usize, boundary_stop: usize, trips: &Vec<usize>, legs: &Vec<CachedLeg>) -> (point: BucketPoint)
    ensures
        point@ == remembered(latest_ready, arrival, transit_legs, boundary_stop, trips@, legs@),
{
    let copied: Vec<CachedLeg> = copy_legs(legs, 0);
    assert(copied@ =~= legs@);
    BucketPoint {
        profile: SpatialProfileMatch {
            latest_ready_secs: latest_ready,
            boundary_arrival_secs: arrival,
            transit_legs: transit_legs,
            boundary_stop: boundary_stop,
            absolute_min_duration_secs: saturating_difference(arrival, latest_ready),
            absolute_min_transfers: transit_legs,
            trunk_legs: copied,
        },
        bloom: bloom_of(trips),
    }
}

/// Whether buckets hold a journey under a key.
pub open spec fn was_held(buckets: Map<StoreKey, Seq<PointView>>, key: StoreKey, point: PointView) -> bool {
    buckets.dom().contains(key) && buckets[key].contains(point)
}

/// Whether buckets hold nothing but a journey under a key and what others hold.
pub open spec fn holds_only(before: Map<StoreKey, Seq<PointView>>, key: StoreKey, point: PointView, after: Map<StoreKey, Seq<PointView>>) -> bool {
    forall|k: StoreKey, i: int| after.dom().contains(k) && 0 <= i < after[k].len() ==> (k == key && (#[trigger] after[k][i]) == point) || was_held(before, k, after[k][i])
}

/// Whether a journey is one of the first `n` that were to be remembered to a stop.
pub open spec fn is_exact_point(service_date: i32, destination: usize, points: Seq<ProfileInsertionPoint>, n: int, key: StoreKey, point: PointView) -> bool {
    exists|j: int|
        0 <= j < n && key == profile_key(service_date, destination as int, (#[trigger] points[j]).source_stop as int) && point == exact_point(destination, points[j])
}

/// Whether a journey is one of the first `n` that were to be remembered to a cell.
pub open spec fn is_spatial_point(service_date: i32, cell: u64, points: Seq<SpatialProfileInsertionPoint>, n: int, key: StoreKey, point: PointView) -> bool {
    exists|j: int| 0 <= j < n && key == profile_key(service_date, cell as int, (#[trigger] points[j]).source_stop as int) && point == spatial_point(points[j])
}

/// Whether buckets hold nothing but journeys that were to be remembered to a stop
/// and what others hold.
pub open spec fn exact_come_from(
    before: Map<StoreKey, Seq<PointView>>,
    after: Map<StoreKey, Seq<PointView>>,
    service_date: i32,
    destination: usize,
    points: Seq<ProfileInsertionPoint>,
    n: int,
) -> bool {
    forall|k: StoreKey, i: int|
        after.dom().contains(k) && 0 <= i < after[k].len() ==> was_held(before, k, #[trigger] after[k][i]) || is_exact_point(service_date, destination, points, n, k, after[k][i])
}

/// Whether buckets hold nothing but journeys that were to be remembered to a cell
/// and what others hold.
pub open spec fn spatial_come_from(
    before: Map<StoreKey, Seq<PointView>>,
    after: Map<StoreKey, Seq<PointView>>,
    service_date: i32,
    cell: u64,
    points: Seq<SpatialProfileInsertionPoint>,
    n: int,
) -> bool {
    forall|k: StoreKey, i: int|
        after.dom().contains(k) && 0 <= i < after[k].len() ==> was_held(before, k, #[trigger] after[k][i]) || is_spatial_point(service_date, cell, points, n, k, after[k][i])
}

proof fn exact_still_come_from(
    start: Map<StoreKey, Seq<PointView>>,
    before: Map<StoreKey, Seq<PointView>>,
    after: Map<StoreKey, Seq<PointView>>,
    service_date: i32,
    destination: usize,
    points: Seq<ProfileInsertionPoint>,
    n: int,
)
    requires
        0 <= n < points.len(),
        exact_come_from(start, before, service_date, destination, points, n),
        holds_only(before, profile_key(service_date, destination as int, points[n].source_stop as int), exact_point(destination, points[n]), after),
    ensures
        exact_come_from(start, after, service_date, destination, points, n + 1),
{
    let key = profile_key(service_date, destination as int, points[n].source_stop as int);
    assert forall|k: StoreKey, i: int| after.dom().contains(k) && 0 <= i < after[k].len() implies was_held(start, k, #[trigger] after[k][i]) || is_exact_point(
        service_date,
        destination,
        points,
        n + 1,
        k,
        after[k][i],
    ) by {
        let point = after[k][i];
        if !(k == key && point == exact_point(destination, points[n])) {
            assert(was_held(before, k, point));
            let j = before[k].index_of(point);
            assert(before[k][j] == point);
            if !was_held(start, k, point) {
                assert(is_exact_point(service_date, destination, points, n, k, before[k][j]));
            }
        } else {
            assert(points[n].source_stop == points[n].source_stop);
        }
    }
}

proof fn spatial_still_come_from(
    start: Map<StoreKey, Seq<PointView>>,
    before: Map<StoreKey, Seq<PointView>>,
    after: Map<StoreKey, Seq<PointView>>,
    service_date: i32,
    cell: u64,
    points: Seq<SpatialProfileInsertionPoint>,
    n: int,
)
    requires
        0 <= n < points.len(),
        spatial_come_from(start, before, service_date, cell, points, n),
        holds_only(before, profile_key(service_date, cell as int, points[n].source_stop as int), spatial_point(points[n]), after),
    ensures
        spatial_come_from(start, after, service_date, cell, points, n + 1),
{
    let key = profile_key(service_date, cell as int, points[n].source_stop as int);
    assert forall|k: StoreKey, i: int| after.dom().contains(k) && 0 <= i < after[k].len() implies was_held(start, k, #[trigger] after[k][i]) || is_spatial_point(
        service_date,
        cell,
        points,
        n + 1,
        k,
        after[k][i],
    ) by {
        let point = after[k][i];
        if !(k == key && point == spatial_point(points[n])) {
            assert(was_held(before, k, point));
            let j = before[k].index_of(point);
            assert(before[k][j] == point);
            if !was_held(start, k, point) {
                assert(is_spatial_point(service_date, cell, points, n, k, before[k][j]));
            }
        } else {
            assert(points[n].source_stop == points[n].source_stop);
        }
    }
}

/// Journeys that were remembered at once: the day, the stop they lead to, and the
/// journeys.
pub type Insertion = (i32, usize, Seq<ProfileInsertionPoint>);

/// Whether every journey of a list that arrives before the end of time has one in the
/// bucket of a key that is as good, and the bucket holds nothing but journeys of the
/// list.
pub open spec fn bucket_covers(buckets: Map<StoreKey, Seq<PointView>>, key: StoreKey, all: Seq<PointView>) -> bool {
    &&& forall|i: int| 0 <= i < all.len() && (#[trigger] all[i]).profile.boundary_arrival_secs < i32::MAX ==> buckets.dom().contains(key) && covered(buckets[key], all[i].profile)
    &&& buckets.dom().contains(key) ==> forall|k: int| 0 <= k < buckets[key].len() ==> all.contains(#[trigger] buckets[key][k])
}

/// The journeys that are remembered under a key, among the first `n` of an insertion.
pub open spec fn under_key(insertion: Insertion, key: StoreKey, n: int) -> Seq<PointView>
    decreases n,
{
    if n <= 0 {
        Seq::empty()
    } else {
        let before = under_key(insertion, key, n - 1);
        let point = insertion.2[n - 1];
        if key == profile_key(insertion.0, insertion.1 as int, point.source_stop as int) { before.push(exact_point(insertion.1, point)) } else { before }
    }
}

/// Whether every list that a bucket of one memory is as good as is, with what an
/// insertion brings, one that the bucket of another is as good as.
pub open spec fn remembers_more(before: Map<StoreKey, Seq<PointView>>, after: Map<StoreKey, Seq<PointView>>, insertion: Insertion, n: int) -> bool {
    forall|key: StoreKey, all: Seq<PointView>| #[trigger] bucket_covers(before, key, all) ==> bucket_covers(after, key, all + under_key(insertion, key, n))
}

/// Whether every list that a bucket of one memory is as good as is, with one journey
/// more, one that the bucket of another is as good as.
pub open spec fn remembers_one_more(before: Map<StoreKey, Seq<PointView>>, key: StoreKey, point: PointView, after: Map<StoreKey, Seq<PointView>>) -> bool {
    forall|k: StoreKey, all: Seq<PointView>| #[trigger] bucket_covers(before, k, all) ==> bucket_covers(after, k, if k == key { all.push(point) } else { all })
}

proof fn added_is_remembered(before: Map<StoreKey, Seq<PointView>>, key: StoreKey, point: PointView, new: Seq<PointView>)
    requires
        before.dom().contains(key) ==> adds_only(before[key], point, new) && covers_more(before[key], point, new),
        !before.dom().contains(key) ==> new == seq![point],
    ensures
        remembers_one_more(before, key, point, before.insert(key, new)),
{
    let after = before.insert(key, new);
    assert forall|k: StoreKey, all: Seq<PointView>| #[trigger] bucket_covers(before, k, all) implies bucket_covers(after, k, if k == key { all.push(point) } else { all }) by {
        if k == key {
            let more = all.push(point);
            assert forall|i: int| 0 <= i < more.len() && (#[trigger] more[i]).profile.boundary_arrival_secs < i32::MAX implies covered(after[key], more[i].profile) by {
                if i < all.len() {
                    assert(more[i] == all[i]);
                    assert(covered(before[key], all[i].profile));
                }
                if !before.dom().contains(key) {
                    assert(dominates(new[0].profile, more[i].profile));
                }
            }
            assert forall|n: int| 0 <= n < after[key].len() implies more.contains(#[trigger] after[key][n]) by {
                if new[n] == point {
                    assert(more[all.len() as int] == point);
                } else {
                    let j = before[key].index_of(new[n]);
                    assert(all.contains(before[key][j]));
                    let at = all.index_of(new[n]);
                    assert(more[at] == new[n]);
                }
            }
        }
    }
}

proof fn nothing_more(buckets: Map<StoreKey, Seq<PointView>>, insertion: Insertion)
    ensures
        remembers_more(buckets, buckets, insertion, 0),
{
    assert forall|key: StoreKey, all: Seq<PointView>| #[trigger] bucket_covers(buckets, key, all) implies bucket_covers(buckets, key, all + under_key(insertion, key, 0)) by {
        assert(all + under_key(insertion, key, 0) =~= all);
    }
}

proof fn still_remembers_more(start: Map<StoreKey, Seq<PointView>>, before: Map<StoreKey, Seq<PointView>>, after: Map<StoreKey, Seq<PointView>>, insertion: Insertion, n: int)
    requires
        0 <= n < insertion.2.len(),
        remembers_more(start, before, insertion, n),
        remembers_one_more(
            before,
            profile_key(insertion.0, insertion.1 as int, insertion.2[n].source_stop as int),
            exact_point(insertion.1, insertion.2[n]),
            after,
        ),
    ensures
        remembers_more(start, after, insertion, n + 1),
{
    assert forall|key: StoreKey, all: Seq<PointView>| #[trigger] bucket_covers(start, key, all) implies bucket_covers(after, key, all + under_key(insertion, key, n + 1)) by {
        let known = all + under_key(insertion, key, n);
        assert(bucket_covers(before, key, known));
        let point = exact_point(insertion.1, insertion.2[n]);
        let own = profile_key(insertion.0, insertion.1 as int, insertion.2[n].source_stop as int);
        if key == own {
            assert(all + under_key(insertion, key, n + 1) =~= known.push(point));
        } else {
            assert(all + under_key(insertion, key, n + 1) =~= known);
        }
    }
}

fn add_point(store: &mut KeyedStore<Vec<BucketPoint>>, key: StoreKey, point: BucketPoint) -> (changed: bool)
    requires
        old(store).wf(),
    ensures
        final(store).wf(),
        (buckets_view(final(store)@), changed) == with_point(buckets_view(old(store)@), key, point@),
        final(store)@.dom() == old(store)@.dom().insert(key),
        final(store)@.dom().contains(key),
        holds_only(buckets_view(old(store)@), key, point@, buckets_view(final(store)@)),
        remembers_one_more(buckets_view(old(store)@), key, point@, buckets_view(final(store)@)),
{
    let ghost before = buckets_view(store@);
    let ghost view = point@;
    let (bucket, changed) = match store.get(key) {
        Some(bucket) => merge_point(bucket, point),
        None => {
            let mut bucket: Vec<BucketPoint> = Vec::new();
            bucket.push(point);
            assert(bucket_view(bucket@) =~= seq![view]);
            (bucket, true)
        },
    };
    let ghost new = bucket_view(bucket@);
    store.insert(key, bucket);
    assert(buckets_view(store@) =~= before.insert(key, new));
    proof {
        added_is_remembered(before, key, view, new);
    }
    assert(store@.dom() =~= old(store)@.dom().insert(key));
    assert(holds_only(before, key, view, buckets_view(store@))) by {
        let after = buckets_view(store@);
        assert forall|k: StoreKey, i: int| after.dom().contains(k) && 0 <= i < after[k].len() implies (k == key && (#[trigger] after[k][i]) == view) || was_held(before, k, after[k][i]) by {
            if k == key {
                if !before.dom().contains(key) {
                    assert(new =~= seq![view]);
                }
            } else {
                assert(before.dom().contains(k) && before[k] == after[k]);
                assert(before[k].contains(before[k][i]));
            }
        }
    }
    changed
}

impl ProfileCache {
    /// What the cache remembers.
    pub closed spec fn view(&self) -> CacheView {
        CacheView {
            exact: buckets_view(self.exact_entries@),
            summaries: self.exact_summaries@,
            spatial: buckets_view(self.spatial_entries@),
            counters: self.counters,
        }
    }

    /// The order in which the cache lists its journeys to stops.
    pub closed spec fn exact_listed(&self) -> Seq<StoreKey> {
        self.exact_entries.slots()
    }

    /// The order in which the cache lists its journeys to cells.
    pub closed spec fn spatial_listed(&self) -> Seq<StoreKey> {
        self.spatial_entries.slots()
    }

    /// Every bucket of journeys to a stop has its bounds beside it.
    pub closed spec fn wf(&self) -> bool {
        &&& self.exact_entries.wf()
        &&& self.exact_summaries.wf()
        &&& self.spatial_entries.wf()
        &&& self.exact_summaries@.dom() == self.exact_entries@.dom()
        &&& forall|key: StoreKey| #[trigger] self.exact_entries@.dom().contains(key) ==> self.exact_summaries@[key] == bucket_bounds(
            bucket_view(self.exact_entries@[key]@),
            self.exact_entries@[key]@.len() as int,
        )
    }

    /// The bounds beside a bucket are below each of its journeys, so a lookup
    /// that is pruned by them loses nothing that could beat the bound; and the
    /// keys listed are those remembered.
    pub proof fn summaries_are_bounds(&self, key: StoreKey)
        requires
            self.wf(),
        ensures
            self@.summaries == summaries_of(self@.exact),
            self@.exact.dom().contains(key) <==> self@.summaries.dom().contains(key),
            self@.exact.dom().contains(key) <==> self.exact_listed().contains(key),
            self@.spatial.dom().contains(key) <==> self.spatial_listed().contains(key),
            self.exact_listed().no_duplicates(),
            self.spatial_listed().no_duplicates(),
            self@.exact.dom().contains(key) ==> forall|i: int| 0 <= i < self@.exact[key].len() ==> {
                &&& self@.summaries[key].0 <= (#[trigger] self@.exact[key][i]).profile.absolute_min_duration_secs
                &&& self@.summaries[key].1 <= self@.exact[key][i].profile.absolute_min_transfers
            },
    {
        self.exact_entries.slots_match();
        self.spatial_entries.slots_match();
        assert(self@.summaries =~= summaries_of(self@.exact));
        assert(self@.exact.dom().contains(key) <==> self.exact_entries@.dom().contains(key));
        assert(self@.spatial.dom().contains(key) <==> self.spatial_entries@.dom().contains(key));
        assert(self.exact_listed().contains(key) <==> self.exact_entries@.dom().contains(key));
        assert(self.spatial_listed().contains(key) <==> self.spatial_entries@.dom().contains(key));
        if self@.exact.dom().contains(key) {
            let points = self@.exact[key];
            assert forall|i: int| 0 <= i < points.len() implies {
                &&& self@.summaries[key].0 <= (#[trigger] points[i]).profile.absolute_min_duration_secs
                &&& self@.summaries[key].1 <= points[i].profile.absolute_min_transfers
            } by {
                crate::profile_bucket::bounds_are_lower(points, points.len() as int, i);
            }
        }
    }

    /// A cache that remembers nothing.
    pub fn new() -> (cache: ProfileCache)
        ensures
            cache.wf(),
            cache@.exact == Map::<StoreKey, Seq<PointView>>::empty(),
            cache@.summaries == Map::<StoreKey, (i32, usize)>::empty(),
            cache@.spatial == Map::<StoreKey, Seq<PointView>>::empty(),
            cache@.counters == (CacheCounters {
                exact_lookups: 0,
                exact_hits: 0,
                spatial_lookups: 0,
                spatial_hits: 0,
                bound_improvements: 0,
                inserted_points: 0,
                inserted_spatial_points: 0,
                invalidation_passes: 0,
                invalidated_points: 0,
                invalidated_keys: 0,
                bloom_checks: 0,
            }),
    {
        let cache = ProfileCache {
            exact_entries: KeyedStore::new(),
            exact_summaries: KeyedStore::new(),
            spatial_entries: KeyedStore::new(),
            counters: CacheCounters {
                exact_lookups: 0,
                exact_hits: 0,
                spatial_lookups: 0,
                spatial_hits: 0,
                bound_improvements: 0,
                inserted_points: 0,
                inserted_spatial_points: 0,
                invalidation_passes: 0,
                invalidated_points: 0,
                invalidated_keys: 0,
                bloom_checks: 0,
            },
        };
        assert(cache.exact_summaries@.dom() =~= cache.exact_entries@.dom());
        assert(cache@.exact =~= Map::<StoreKey, Seq<PointView>>::empty());
        assert(cache@.spatial =~= Map::<StoreKey, Seq<PointView>>::empty());
        cache
    }

    /// Finds the best remembered journey that can still be begun, unless the
    /// bounds rule out that any beats the given arrival.
    pub fn lookup_bounded(
        &mut self,
        service_date: i32,
        destination_stop: usize,
        source_stop: usize,
        ready_at: i32,
        remaining_transit_legs: usize,
        best_arrival_upper_bound: i32,
    ) -> (decision: ProfileLookupDecision)
        requires
            old(self).wf(),
        ensures
            final(self).wf(),
            decision_view(decision) == lookup_found(
                old(self)@,
                profile_key(service_date, destination_stop as int, source_stop as int),
                ready_at,
                remaining_transit_legs,
                best_arrival_upper_bound,
            ),
            final(self)@ == (CacheView {
                counters: CacheCounters {
                    exact_lookups: wrapped(old(self)@.counters.exact_lookups, 1),
                    exact_hits: if decision is Match { wrapped(old(self)@.counters.exact_hits, 1) } else { old(self)@.counters.exact_hits },
                    ..old(self)@.counters
                },
                ..old(self)@
            }),
            final(self).exact_listed() == old(self).exact_listed(),
            final(self).spatial_listed() == old(self).spatial_listed(),
    {
        self.counters.exact_lookups = wrap_up(self.counters.exact_lookups, 1);
        let key: StoreKey = (service_date, destination_stop as u64, source_stop as u64);
        let summary: (i32, usize) = match self.exact_summaries.get(key) {
            Some(summary) => *summary,
            None => {
                return ProfileLookupDecision::Miss;
            },
        };
        if summary.1 > remaining_transit_legs || saturating_sum(ready_at, summary.0) >= best_arrival_upper_bound {
            return ProfileLookupDecision::SummaryPruned;
        }
        assert(self.exact_entries@.dom().contains(key));
        let found: ProfileLookupDecision = match self.exact_entries.get(key) {
            Some(bucket) => find_best(bucket, ready_at, remaining_transit_legs),
            None => ProfileLookupDecision::Miss,
        };
        match &found {
            ProfileLookupDecision::Match(_) => {
                self.counters.exact_hits = wrap_up(self.counters.exact_hits, 1);
            },
            _ => {},
        }
        found
    }

    /// Finds the best remembered journey that can still be begun.
    pub fn lookup(&mut self, service_date: i32, destination_stop: usize, source_stop: usize, ready_at: i32, remaining_transit_legs: usize) -> (found: Option<ProfileMatch>)
        requires
            old(self).wf(),
        ensures
            final(self).wf(),
            ({
                let key = profile_key(service_date, destination_stop as int, source_stop as int);
                let expected = lookup_found(old(self)@, key, ready_at, remaining_transit_legs, i32::MAX);
                match found {
                    Some(value) => expected == decision_view(ProfileLookupDecision::Match(value)),
                    None => !(expected is Match),
                }
            }),
            final(self)@ == (CacheView {
                counters: CacheCounters {
                    exact_lookups: wrapped(old(self)@.counters.exact_lookups, 1),
                    exact_hits: if found is Some { wrapped(old(self)@.counters.exact_hits, 1) } else { old(self)@.counters.exact_hits },
                    ..old(self)@.counters
                },
                ..old(self)@
            }),
            final(self).exact_listed() == old(self).exact_listed(),
            final(self).spatial_listed() == old(self).spatial_listed(),
    {
        let decision: ProfileLookupDecision = self.lookup_bounded(service_date, destination_stop, source_stop, ready_at, remaining_transit_legs, i32::MAX);
        match decision {
            ProfileLookupDecision::Match(found) => Some(found),
            _ => None,
        }
    }

    /// The best remembered journeys to the border of one of the cells that can
    /// still be begun.
    pub fn lookup_spatial_cells(&mut self, service_date: i32, destination_cells: &Vec<u64>, source_stop: usize, ready_at: i32, remaining_transit_legs: usize) -> (matches: Vec<SpatialProfileMatch>)
        requires
            old(self).wf(),
        ensures
            final(self).wf(),
            matches_view(matches@) == best_matches(
                cell_profiles(old(self)@, service_date, destination_cells@, source_stop as int, ready_at, remaining_transit_legs, destination_cells@.len() as int),
            ),
            final(self)@ == (CacheView {
                counters: CacheCounters {
                    spatial_lookups: wrapped(old(self)@.counters.spatial_lookups, 1),
                    spatial_hits: if matches@.len() > 0 { wrapped(old(self)@.counters.spatial_hits, 1) } else { old(self)@.counters.spatial_hits },
                    ..old(self)@.counters
                },
                ..old(self)@
            }),
    {
        self.counters.spatial_lookups = wrap_up(self.counters.spatial_lookups, 1);
        let ghost view = old(self)@;
        let mut all: Vec<SpatialProfileMatch> = Vec::new();
        let mut c: usize = 0;
        while c < destination_cells.len()
            invariant
                c <= destination_cells.len(),
                self.wf(),
                view == old(self)@,
                self@ == (CacheView { counters: CacheCounters { spatial_lookups: wrapped(view.counters.spatial_lookups, 1), ..view.counters }, ..view }),
                matches_view(all@) == cell_profiles(view, service_date, destination_cells@, source_stop as int, ready_at, remaining_transit_legs, c as int),
            decreases destination_cells.len() - c,
        {
            let key: StoreKey = (service_date, destination_cells[c], source_stop as u64);
            match self.spatial_entries.get(key) {
                Some(bucket) => {
                    let ghost points = bucket_view(bucket@);
                    assert(view.spatial[key] == points);
                    let ghost before = matches_view(all@);
                    let mut i: usize = 0;
                    while i < bucket.len()
                        invariant
                            i <= bucket.len(),
                            points == bucket_view(bucket@),
                            matches_view(all@) == before + feasible_profiles(points, ready_at, remaining_transit_legs, i as int),
                        decreases bucket.len() - i,
                    {
                        let profile: &SpatialProfileMatch = &bucket[i].profile;
                        assert(points[i as int].profile == profile@);
                        if ready_at <= profile.latest_ready_secs && profile.transit_legs <= remaining_transit_legs {
                            let ghost shorter = all@;
                            all.push(copy_match(profile));
                            assert(matches_view(all@) =~= matches_view(shorter).push(profile@));
                            assert(matches_view(all@) =~= before + feasible_profiles(points, ready_at, remaining_transit_legs, i + 1));
                        }
                        i = i + 1;
                    }
                },
                None => {},
            }
            c = c + 1;
        }
        let matches: Vec<SpatialProfileMatch> = sort_matches(all);
        if matches.len() > 0 {
            self.counters.spatial_hits = wrap_up(self.counters.spatial_hits, 1);
        }
        matches
    }

    /// Notes that a remembered journey improved a query.
    pub fn note_bound_improvement(&mut self)
        requires
            old(self).wf(),
        ensures
            final(self).wf(),
            final(self)@ == (CacheView {
                counters: CacheCounters { bound_improvements: wrapped(old(self)@.counters.bound_improvements, 1), ..old(self)@.counters },
                ..old(self)@
            }),
            final(self).exact_listed() == old(self).exact_listed(),
            final(self).spatial_listed() == old(self).spatial_listed(),
    {
        self.counters.bound_improvements = wrap_up(self.counters.bound_improvements, 1);
    }
}

fn find_best(bucket: &Vec<BucketPoint>, ready_at: i32, remaining_transit_legs: usize) -> (decision: ProfileLookupDecision)
    ensures
        decision_view(decision) == (match best_feasible(bucket_view(bucket@), ready_at, remaining_transit_legs, bucket@.len() as int) {
            None => LookupView::Miss,
            Some(i) => found_point(bucket_view(bucket@)[i].profile),
        }),
{
    let ghost points = bucket_view(bucket@);
    let mut best: Option<usize> = None;
    let mut i: usize = 0;
    while i < bucket.len()
        invariant
            i <= bucket.len(),
            points == bucket_view(bucket@),
            best_feasible(points, ready_at, remaining_transit_legs, i as int) == (match best { Some(at) => Some(at as int), None => None }),
            best is Some ==> best->0 < i,
        decreases bucket.len() - i,
    {
        let profile: &SpatialProfileMatch = &bucket[i].profile;
        assert(points[i as int].profile == profile@);
        if ready_at <= profile.latest_ready_secs && profile.transit_legs <= remaining_transit_legs {
            let replace: bool = match best {
                None => true,
                Some(at) => {
                    let current: &SpatialProfileMatch = &bucket[at].profile;
                    assert(points[at as int].profile == current@);
                    profile.boundary_arrival_secs < current.boundary_arrival_secs || (profile.boundary_arrival_secs == current.boundary_arrival_secs
                        && profile.transit_legs < current.transit_legs)
                },
            };
            if replace {
                best = Some(i);
            }
        }
        i = i + 1;
    }
    match best {
        None => ProfileLookupDecision::Miss,
        Some(at) => {
            let profile: &SpatialProfileMatch = &bucket[at].profile;
            assert(points[at as int].profile == profile@);
            let legs: Vec<CachedLeg> = copy_legs(&profile.trunk_legs, 0);
            assert(legs@ =~= profile.trunk_legs@);
            ProfileLookupDecision::Match(
                ProfileMatch {
                    arrival_secs: profile.boundary_arrival_secs,
                    transit_legs: profile.transit_legs,
                    absolute_min_duration_secs: profile.absolute_min_duration_secs,
                    absolute_min_transfers: profile.absolute_min_transfers,
                    suffix_legs: legs,
                },
            )
        },
    }
}

/// What the cache holds in all: the number of keys and of journeys.
pub open spec fn bucket_total(buckets: Map<StoreKey, Seq<PointView>>, listed: Seq<StoreKey>, n: int) -> usize
    decreases n,
{
    if n <= 0 {
        0
    } else {
        crate::search::counted(bucket_total(buckets, listed, n - 1), buckets[listed[n - 1]].len() as int)
    }
}

fn count_points(store: &KeyedStore<Vec<BucketPoint>>) -> (total: usize)
    requires
        store.wf(),
    ensures
        total == bucket_total(buckets_view(store@), store.slots(), store.slots().len() as int),
{
    let mut total: usize = 0;
    let mut i: usize = 0;
    while i < store.len()
        invariant
            store.wf(),
            i <= store.slots().len(),
            total == bucket_total(buckets_view(store@), store.slots(), i as int),
        decreases store.slots().len() - i,
    {
        let bucket: &Vec<BucketPoint> = store.value_at(i);
        assert(buckets_view(store@)[store.slots()[i as int]] == bucket_view(bucket@));
        total = crate::search::count_up(total, bucket.len());
        i = i + 1;
    }
    total
}

fn drop_changed(store: &KeyedStore<Vec<BucketPoint>>, changed: &Vec<usize>, work: ProfileInvalidationSummary) -> (result: (KeyedStore<Vec<BucketPoint>>, ProfileInvalidationSummary))
    requires
        store.wf(),
    ensures
        result.0.wf(),
        buckets_view(result.0@) == invalidated(buckets_view(store@), changed@),
        result.1 == invalidation_work(buckets_view(store@), store.slots(), changed@, work, store.slots().len() as int),
{
    let ghost buckets = buckets_view(store@);
    let ghost slots = store.slots();
    proof {
        store.slots_match();
    }
    let mut kept: KeyedStore<Vec<BucketPoint>> = KeyedStore::new();
    let mut summary: ProfileInvalidationSummary = work;
    let mut i: usize = 0;
    while i < store.len()
        invariant
            store.wf(),
            slots == store.slots(),
            slots.no_duplicates(),
            buckets == buckets_view(store@),
            i <= slots.len(),
            kept.wf(),
            summary == invalidation_work(buckets, slots, changed@, work, i as int),
            forall|key: StoreKey| #[trigger] kept@.dom().contains(key) <==> invalidated(buckets, changed@).dom().contains(key) && slots.take(i as int).contains(key),
            forall|key: StoreKey| #[trigger] kept@.dom().contains(key) ==> bucket_view(kept@[key]@) == invalidated(buckets, changed@)[key],
        decreases slots.len() - i,
    {
        let key: StoreKey = store.key_at(i);
        let bucket: &Vec<BucketPoint> = store.value_at(i);
        let ghost points = bucket_view(bucket@);
        assert(buckets[key] == points);
        let left: Vec<BucketPoint> = retain_untouched(bucket, changed);
        assert(bucket_view(left@).len() == left@.len());
        let removed: u64 = (bucket.len() - left.len()) as u64;
        summary.invalidated_points = hold_sum(summary.invalidated_points, removed);
        summary.bloom_checks = hold_sum(summary.bloom_checks, hold_product(bucket.len(), changed.len()));
        let ghost before = kept@;
        let ghost goal = invalidated(buckets, changed@);
        let ghost left_view = bucket_view(left@);
        assert(slots.take(i + 1).contains(key)) by {
            assert(slots.take(i + 1)[i as int] == key);
        }
        if left.len() == 0 {
            summary.invalidated_keys = hold_sum(summary.invalidated_keys, 1);
            assert(!goal.dom().contains(key));
        } else {
            assert(goal.dom().contains(key));
            assert(goal[key] == left_view);
            kept.insert(key, left);
        }
        assert forall|k: StoreKey| #[trigger] kept@.dom().contains(k) <==> goal.dom().contains(k) && slots.take(i + 1).contains(k) by {
            if slots.take(i as int).contains(k) {
                let shorter = slots.take(i as int);
                let at = choose|at: int| 0 <= at < shorter.len() && shorter[at] == k;
                assert(slots.take(i + 1)[at] == k);
            }
            if slots.take(i + 1).contains(k) && k != key {
                let longer = slots.take(i + 1);
                let at = choose|at: int| 0 <= at < longer.len() && longer[at] == k;
                assert(slots.take(i as int)[at] == k);
            }
            assert(before.dom().contains(k) <==> goal.dom().contains(k) && slots.take(i as int).contains(k));
        }
        i = i + 1;
    }
    proof {
        assert(slots.take(i as int) =~= slots);
        assert forall|key: StoreKey| #[trigger] buckets_view(kept@).dom().contains(key) <==> invalidated(buckets, changed@).dom().contains(key) by {
            assert(kept@.dom().contains(key) <==> invalidated(buckets, changed@).dom().contains(key) && slots.contains(key));
            assert(store@.dom().contains(key) <==> slots.contains(key));
        }
        assert forall|key: StoreKey| #[trigger] buckets_view(kept@).dom().contains(key) implies buckets_view(kept@)[key] == invalidated(buckets, changed@)[key] by {
            assert(kept@.dom().contains(key));
        }
        assert(buckets_view(kept@) =~= invalidated(buckets, changed@));
    }
    (kept, summary)
}

fn summarize_all(store: &KeyedStore<Vec<BucketPoint>>) -> (summaries: KeyedStore<(i32, usize)>)
    requires
        store.wf(),
    ensures
        summaries.wf(),
        summaries@.dom() == store@.dom(),
        forall|key: StoreKey| #[trigger] store@.dom().contains(key) ==> summaries@[key] == bucket_bounds(bucket_view(store@[key]@), store@[key]@.len() as int),
{
    let mut summaries: KeyedStore<(i32, usize)> = KeyedStore::new();
    let ghost slots = store.slots();
    proof {
        store.slots_match();
    }
    let mut i: usize = 0;
    while i < store.len()
        invariant
            store.wf(),
            slots == store.slots(),
            i <= slots.len(),
            summaries.wf(),
            forall|key: StoreKey| #[trigger] summaries@.dom().contains(key) <==> slots.take(i as int).contains(key),
            forall|key: StoreKey| #[trigger] summaries@.dom().contains(key) ==> summaries@[key] == bucket_bounds(bucket_view(store@[key]@), store@[key]@.len() as int),
        decreases slots.len() - i,
    {
        let key: StoreKey = store.key_at(i);
        let ghost before = summaries@;
        summaries.insert(key, summarize_profile_bucket(store.value_at(i)));
        assert forall|k: StoreKey| #[trigger] summaries@.dom().contains(k) <==> slots.take(i + 1).contains(k) by {
            assert(slots.take(i + 1)[i as int] == key);
            if slots.take(i as int).contains(k) {
                let shorter = slots.take(i as int);
                let at = choose|at: int| 0 <= at < shorter.len() && shorter[at] == k;
                assert(slots.take(i + 1)[at] == k);
            }
            if slots.take(i + 1).contains(k) && k != key {
                let longer = slots.take(i + 1);
                let at = choose|at: int| 0 <= at < longer.len() && longer[at] == k;
                assert(slots.take(i as int)[at] == k);
            }
            assert(before.dom().contains(k) <==> slots.take(i as int).contains(k));
        }
        i = i + 1;
    }
    assert(slots.take(i as int) =~= slots);
    assert(summaries@.dom() =~= store@.dom()) by {
        assert forall|key: StoreKey| summaries@.dom().contains(key) <==> store@.dom().contains(key) by {
            assert(store@.dom().contains(key) <==> slots.contains(key));
        }
    }
    summaries
}

impl ProfileCache {
    /// Remembers journeys to a stop.
    pub fn insert_batch(&mut self, service_date: i32, destination_stop: usize, points: Vec<ProfileInsertionPoint>)
        requires
            old(self).wf(),
        ensures
            final(self).wf(),
            ({
                let result = with_exact_points(old(self)@, service_date, destination_stop, points@, points@.len() as int);
                final(self)@ == (CacheView {
                    counters: CacheCounters { inserted_points: wrapped(old(self)@.counters.inserted_points, result.1), ..old(self)@.counters },
                    ..result.0
                })
            }),
            exact_come_from(old(self)@.exact, final(self)@.exact, service_date, destination_stop, points@, points@.len() as int),
            remembers_more(old(self)@.exact, final(self)@.exact, (service_date, destination_stop, points@), points@.len() as int),
    {
        let ghost view = self@;
        proof {
            nothing_more(view.exact, (service_date, destination_stop, points@));
        }
        let mut inserted: u64 = 0;
        let mut i: usize = 0;
        while i < points.len()
            invariant
                i <= points.len(),
                self.wf(),
                view == old(self)@,
                inserted <= i,
                self.counters == view.counters,
                (self@, inserted as int) == with_exact_points(view, service_date, destination_stop, points@, i as int),
                exact_come_from(view.exact, self@.exact, service_date, destination_stop, points@, i as int),
                remembers_more(view.exact, self@.exact, (service_date, destination_stop, points@), i as int),
            decreases points.len() - i,
        {
            let point: &ProfileInsertionPoint = &points[i];
            let key: StoreKey = (service_date, destination_stop as u64, point.source_stop as u64);
            let next: BucketPoint = make_point(
                point.latest_ready_secs,
                point.arrival_secs,
                point.transit_legs,
                destination_stop,
                &point.trip_indices,
                &point.suffix_legs,
            );
            let ghost before = self@;
            let ghost old_entries = self.exact_entries@;
            let changed: bool = add_point(&mut self.exact_entries, key, next);
            if changed {
                inserted = inserted + 1;
            }
            let summary: (i32, usize) = match self.exact_entries.get(key) {
                Some(bucket) => summarize_profile_bucket(bucket),
                None => (i32::MAX, usize::MAX),
            };
            self.exact_summaries.insert(key, summary);
            proof {
                let result = with_point(before.exact, key, exact_point(destination_stop, points@[i as int]));
                assert(buckets_view(self.exact_entries@) == result.0);
                exact_still_come_from(view.exact, before.exact, self@.exact, service_date, destination_stop, points@, i as int);
                still_remembers_more(view.exact, before.exact, self@.exact, (service_date, destination_stop, points@), i as int);
                assert(result.0[key] == bucket_view(self.exact_entries@[key]@));
                assert(self.exact_summaries@.dom() =~= self.exact_entries@.dom());
                assert forall|k: StoreKey| #[trigger] self.exact_entries@.dom().contains(k) implies self.exact_summaries@[k] == bucket_bounds(
                    bucket_view(self.exact_entries@[k]@),
                    self.exact_entries@[k]@.len() as int,
                ) by {
                    if k != key {
                        assert(old_entries.dom().contains(k));
                        assert(buckets_view(self.exact_entries@)[k] == before.exact[k]);
                        assert(bucket_view(self.exact_entries@[k]@) == bucket_view(old_entries[k]@));
                        assert(bucket_view(self.exact_entries@[k]@).len() == self.exact_entries@[k]@.len());
                    }
                }
            }
            i = i + 1;
        }
        self.counters.inserted_points = wrap_up(self.counters.inserted_points, inserted);
    }

    /// Remembers journeys to the border of a cell.
    pub fn insert_spatial_batch(&mut self, service_date: i32, destination_cell: u64, points: Vec<SpatialProfileInsertionPoint>)
        requires
            old(self).wf(),
        ensures
            final(self).wf(),
            ({
                let result = with_spatial_points(old(self)@.spatial, service_date, destination_cell, points@, points@.len() as int);
                final(self)@ == (CacheView {
                    spatial: result.0,
                    counters: CacheCounters {
                        inserted_spatial_points: wrapped(old(self)@.counters.inserted_spatial_points, result.1),
                        ..old(self)@.counters
                    },
                    ..old(self)@
                })
            }),
            spatial_come_from(old(self)@.spatial, final(self)@.spatial, service_date, destination_cell, points@, points@.len() as int),
    {
        let ghost view = self@;
        let mut inserted: u64 = 0;
        let mut i: usize = 0;
        while i < points.len()
            invariant
                i <= points.len(),
                self.wf(),
                view == old(self)@,
                inserted <= i,
                self.counters == view.counters,
                self@ == (CacheView { spatial: self@.spatial, ..view }),
                (self@.spatial, inserted as int) == with_spatial_points(view.spatial, service_date, destination_cell, points@, i as int),
                spatial_come_from(view.spatial, self@.spatial, service_date, destination_cell, points@, i as int),
            decreases points.len() - i,
        {
            let point: &SpatialProfileInsertionPoint = &points[i];
            let key: StoreKey = (service_date, destination_cell, point.source_stop as u64);
            let next: BucketPoint = make_point(
                point.latest_ready_secs,
                point.boundary_arrival_secs,
                point.transit_legs,
                point.boundary_stop,
                &point.trip_indices,
                &point.trunk_legs,
            );
            let ghost before = self@.spatial;
            let changed: bool = add_point(&mut self.spatial_entries, key, next);
            proof {
                spatial_still_come_from(view.spatial, before, self@.spatial, service_date, destination_cell, points@, i as int);
            }
            if changed {
                inserted = inserted + 1;
            }
            i = i + 1;
        }
        self.counters.inserted_spatial_points = wrap_up(self.counters.inserted_spatial_points, inserted);
    }

    /// Forgets the journeys on changed trips.
    pub fn invalidate_trips(&mut self, changed_trips: &Vec<usize>) -> (summary: ProfileInvalidationSummary)
        requires
            old(self).wf(),
        ensures
            final(self).wf(),
            changed_trips@.len() == 0 ==> final(self)@ == old(self)@
                && summary == (ProfileInvalidationSummary { invalidated_points: 0, invalidated_keys: 0, bloom_checks: 0 }),
            changed_trips@.len() > 0 ==> ({
                let none = ProfileInvalidationSummary { invalidated_points: 0, invalidated_keys: 0, bloom_checks: 0 };
                let exact_listed = old(self).exact_listed();
                let spatial_listed = old(self).spatial_listed();
                let first = invalidation_work(old(self)@.exact, exact_listed, changed_trips@, none, exact_listed.len() as int);
                let counters = old(self)@.counters;
                &&& summary == invalidation_work(old(self)@.spatial, spatial_listed, changed_trips@, first, spatial_listed.len() as int)
                &&& final(self)@.exact == invalidated(old(self)@.exact, changed_trips@)
                &&& final(self)@.spatial == invalidated(old(self)@.spatial, changed_trips@)
                &&& final(self)@.summaries == summaries_of(final(self)@.exact)
                &&& final(self)@.counters == (CacheCounters {
                    invalidation_passes: wrapped(counters.invalidation_passes, 1),
                    invalidated_points: wrapped(counters.invalidated_points, summary.invalidated_points as int),
                    invalidated_keys: wrapped(counters.invalidated_keys, summary.invalidated_keys as int),
                    bloom_checks: wrapped(counters.bloom_checks, summary.bloom_checks as int),
                    ..counters
                })
            }),
    {
        let none: ProfileInvalidationSummary = ProfileInvalidationSummary { invalidated_points: 0, invalidated_keys: 0, bloom_checks: 0 };
        if changed_trips.len() == 0 {
            return none;
        }
        let (exact, first) = drop_changed(&self.exact_entries, changed_trips, none);
        let (spatial, summary) = drop_changed(&self.spatial_entries, changed_trips, first);
        self.exact_summaries = summarize_all(&exact);
        self.exact_entries = exact;
        self.spatial_entries = spatial;
        self.counters.invalidation_passes = wrap_up(self.counters.invalidation_passes, 1);
        self.counters.invalidated_points = wrap_up(self.counters.invalidated_points, summary.invalidated_points);
        self.counters.invalidated_keys = wrap_up(self.counters.invalidated_keys, summary.invalidated_keys);
        self.counters.bloom_checks = wrap_up(self.counters.bloom_checks, summary.bloom_checks);
        assert(self@.summaries =~= summaries_of(self@.exact));
        summary
    }

    /// How the cache is filled and used.
    pub fn snapshot(&self) -> (stats: ProfileCacheStats)
        requires
            self.wf(),
        ensures
            ({
                let counters = self@.counters;
                let exact_keys = self@.exact.dom().len() as usize;
                let spatial_keys = self@.spatial.dom().len() as usize;
                let exact_points = bucket_total(self@.exact, self.exact_listed(), self.exact_listed().len() as int);
                let spatial_points = bucket_total(self@.spatial, self.spatial_listed(), self.spatial_listed().len() as int);
                stats == (ProfileCacheStats {
                    keys: crate::search::counted(exact_keys, spatial_keys as int),
                    points: crate::search::counted(exact_points, spatial_points as int),
                    lookups: held(counters.exact_lookups + counters.spatial_lookups),
                    hits: held(counters.exact_hits + counters.spatial_hits),
                    exact_keys: exact_keys,
                    exact_points: exact_points,
                    exact_lookups: counters.exact_lookups,
                    exact_hits: counters.exact_hits,
                    spatial_keys: spatial_keys,
                    spatial_points: spatial_points,
                    spatial_lookups: counters.spatial_lookups,
                    spatial_hits: counters.spatial_hits,
                    bound_improvements: counters.bound_improvements,
                    inserted_points: counters.inserted_points,
                    inserted_spatial_points: counters.inserted_spatial_points,
                    invalidation_passes: counters.invalidation_passes,
                    invalidated_points: counters.invalidated_points,
                    invalidated_keys: counters.invalidated_keys,
                    bloom_checks: counters.bloom_checks,
                })
            }),
    {
        assert(self@.exact.dom() =~= self.exact_entries@.dom());
        assert(self@.spatial.dom() =~= self.spatial_entries@.dom());
        let exact_keys: usize = self.exact_entries.len();
        let spatial_keys: usize = self.spatial_entries.len();
        let exact_points: usize = count_points(&self.exact_entries);
        let spatial_points: usize = count_points(&self.spatial_entries);
        ProfileCacheStats {
            keys: crate::search::count_up(exact_keys, spatial_keys),
            points: crate::search::count_up(exact_points, spatial_points),
            lookups: hold_sum(self.counters.exact_lookups, self.counters.spatial_lookups),
            hits: hold_sum(self.counters.exact_hits, self.counters.spatial_hits),
            exact_keys: exact_keys,
            exact_points: exact_points,
            exact_lookups: self.counters.exact_lookups,
            exact_hits: self.counters.exact_hits,
            spatial_keys: spatial_keys,
            spatial_points: spatial_points,
            spatial_lookups: self.counters.spatial_lookups,
            spatial_hits: self.counters.spatial_hits,
            bound_improvements: self.counters.bound_improvements,
            inserted_points: self.counters.inserted_points,
            inserted_spatial_points: self.counters.inserted_spatial_points,
            invalidation_passes: self.counters.invalidation_passes,
            invalidated_points: self.counters.invalidated_points,
            invalidated_keys: self.counters.invalidated_keys,
            bloom_checks: self.counters.bloom_checks,
        }
    }

    fn collect_surface(&self, service_date: i32, destination_cells: &Vec<u64>, stop_count: usize) -> (buckets: Vec<Vec<SpatialProfileMatch>>)
        requires
            self.wf(),
        ensures
            buckets@.len() == stop_count,
            forall|s: int| 0 <= s < stop_count ==> matches_view((#[trigger] buckets@[s])@) == surface_profiles(
                self@,
                self.spatial_listed(),
                service_date,
                destination_cells@,
                s,
                self.spatial_listed().len() as int,
            ),
    {
        let ghost view = self@;
        let ghost listed = self.spatial_listed();
        let mut buckets: Vec<Vec<SpatialProfileMatch>> = Vec::new();
        let mut s: usize = 0;
        while s < stop_count
            invariant
                s <= stop_count,
                buckets@.len() == s,
                forall|k: int| 0 <= k < s ==> matches_view((#[trigger] buckets@[k])@) == surface_profiles(view, listed, service_date, destination_cells@, k, 0),
            decreases stop_count - s,
        {
            let empty: Vec<SpatialProfileMatch> = Vec::new();
            assert(matches_view(empty@) =~= Seq::<MatchView>::empty());
            buckets.push(empty);
            s = s + 1;
        }
        let mut i: usize = 0;
        while i < self.spatial_entries.len()
            invariant
                self.wf(),
                view == self@,
                listed == self.spatial_entries.slots(),
                i <= listed.len(),
                buckets@.len() == stop_count,
                forall|k: int| 0 <= k < stop_count ==> matches_view((#[trigger] buckets@[k])@) == surface_profiles(view, listed, service_date, destination_cells@, k, i as int),
            decreases listed.len() - i,
        {
            let key: StoreKey = self.spatial_entries.key_at(i);
            let bucket: &Vec<BucketPoint> = self.spatial_entries.value_at(i);
            let ghost points = bucket_view(bucket@);
            assert(view.spatial[key] == points);
            let wanted: bool = key.0 == service_date && key.2 < stop_count as u64 && contains_cell(destination_cells, key.1);
            if wanted {
                let source: usize = key.2 as usize;
                let ghost before = buckets@;
                let ghost start = matches_view(buckets@[source as int]@);
                let mut row: Vec<SpatialProfileMatch> = Vec::new();
                std::mem::swap(&mut row, &mut buckets[source]);
                let mut j: usize = 0;
                assert(start =~= start + profiles(points).take(0));
                while j < bucket.len()
                    invariant
                        j <= bucket.len(),
                        points == bucket_view(bucket@),
                        matches_view(row@) == start + profiles(points).take(j as int),
                    decreases bucket.len() - j,
                {
                    let profile: &SpatialProfileMatch = &bucket[j].profile;
                    assert(points[j as int].profile == profile@);
                    let ghost shorter = row@;
                    row.push(copy_match(profile));
                    assert(matches_view(row@) =~= matches_view(shorter).push(profile@));
                    assert(matches_view(row@) =~= start + profiles(points).take(j + 1));
                    j = j + 1;
                }
                assert(profiles(points).take(j as int) =~= profiles(points));
                std::mem::swap(&mut row, &mut buckets[source]);
                assert forall|k: int| 0 <= k < stop_count implies matches_view((#[trigger] buckets@[k])@) == surface_profiles(view, listed, service_date, destination_cells@, k, i + 1) by {
                    assert(matches_view(before[k]@) == surface_profiles(view, listed, service_date, destination_cells@, k, i as int));
                }
            } else {
                assert forall|k: int| 0 <= k < stop_count implies matches_view((#[trigger] buckets@[k])@) == surface_profiles(view, listed, service_date, destination_cells@, k, i + 1) by {
                    assert(!(key.0 == service_date && key.2 == k && destination_cells@.contains(key.1)));
                }
            }
            i = i + 1;
        }
        buckets
    }

    /// The best remembered journeys to the border of one of the cells, for each
    /// stop; nothing where there are no cells or stops.
    pub fn materialize_spatial_query_surface(&self, service_date: i32, destination_cells: &Vec<u64>, stop_count: usize) -> (prepared: PreparedSpatialLookup)
        requires
            self.wf(),
        ensures
            destination_cells@.len() == 0 || stop_count == 0 ==> prepared.enabled_source_stops@.len() == 0 && prepared.matches_by_source_stop@.len() == 0
                && prepared.absolute_min_duration_by_source_stop@.len() == 0 && prepared.absolute_min_transfers_by_source_stop@.len() == 0
                && prepared.populated_sources == 0 && prepared.materialized_matches == 0,
            destination_cells@.len() > 0 && stop_count > 0 ==> ({
                &&& prepared.enabled_source_stops@.len() == stop_count
                &&& prepared.matches_by_source_stop@.len() == stop_count
                &&& prepared.absolute_min_duration_by_source_stop@.len() == stop_count
                &&& prepared.absolute_min_transfers_by_source_stop@.len() == stop_count
                &&& forall|s: int| 0 <= s < stop_count ==> #[trigger] surface_entry(
                    prepared,
                    s,
                    surface_profiles(self@, self.spatial_listed(), service_date, destination_cells@, s, self.spatial_listed().len() as int),
                )
                &&& prepared.populated_sources == populated(prepared.matches_by_source_stop@, stop_count as int)
                &&& prepared.materialized_matches == materialized(prepared.matches_by_source_stop@, stop_count as int)
            }),
    {
        if destination_cells.len() == 0 || stop_count == 0 {
            return PreparedSpatialLookup {
                enabled_source_stops: Vec::new(),
                matches_by_source_stop: Vec::new(),
                absolute_min_duration_by_source_stop: Vec::new(),
                absolute_min_transfers_by_source_stop: Vec::new(),
                populated_sources: 0,
                materialized_matches: 0,
            };
        }
        let mut raw: Vec<Vec<SpatialProfileMatch>> = self.collect_surface(service_date, destination_cells, stop_count);
        let ghost all = raw@;
        let ghost listed = self.spatial_listed();
        let mut prepared: PreparedSpatialLookup = PreparedSpatialLookup {
            enabled_source_stops: Vec::new(),
            matches_by_source_stop: Vec::new(),
            absolute_min_duration_by_source_stop: Vec::new(),
            absolute_min_transfers_by_source_stop: Vec::new(),
            populated_sources: 0,
            materialized_matches: 0,
        };
        let mut s: usize = 0;
        while s < stop_count
            invariant
                s <= stop_count,
                raw@.len() == stop_count,
                all.len() == stop_count,
                forall|k: int| s <= k < stop_count ==> #[trigger] raw@[k] == all[k],
                prepared.enabled_source_stops@.len() == s,
                prepared.matches_by_source_stop@.len() == s,
                prepared.absolute_min_duration_by_source_stop@.len() == s,
                prepared.absolute_min_transfers_by_source_stop@.len() == s,
                forall|k: int| 0 <= k < s ==> #[trigger] surface_entry(prepared, k, matches_view(all[k]@)),
                prepared.populated_sources <= s,
                prepared.populated_sources == populated(prepared.matches_by_source_stop@, s as int),
                prepared.materialized_matches == materialized(prepared.matches_by_source_stop@, s as int),
            decreases stop_count - s,
        {
            let mut row: Vec<SpatialProfileMatch> = Vec::new();
            assert(raw@[s as int] == all[s as int]);
            std::mem::swap(&mut row, &mut raw[s]);
            let ghost full = matches_view(row@);
            assert(full.len() == row.len());
            assert(full == matches_view(all[s as int]@));
            let ghost before = prepared;
            if row.len() == 0 {
                assert(full =~= Seq::<MatchView>::empty());
                prepared.enabled_source_stops.push(false);
                prepared.matches_by_source_stop.push(row);
                prepared.absolute_min_duration_by_source_stop.push(i32::MAX);
                prepared.absolute_min_transfers_by_source_stop.push(usize::MAX);
            } else {
                let best: Vec<SpatialProfileMatch> = sort_matches(row);
                let bounds: (i32, usize) = bounds_of(&best);
                assert(full.len() > 0);
                assert(matches_view(best@).len() == best@.len());
                prepared.enabled_source_stops.push(true);
                prepared.absolute_min_duration_by_source_stop.push(bounds.0);
                prepared.absolute_min_transfers_by_source_stop.push(bounds.1);
                prepared.populated_sources = prepared.populated_sources + 1;
                prepared.materialized_matches = crate::search::count_up(prepared.materialized_matches, best.len());
                prepared.matches_by_source_stop.push(best);
            }
            proof {
                populated_prefix(before.matches_by_source_stop@, prepared.matches_by_source_stop@, s as int);
                assert forall|k: int| 0 <= k < s + 1 implies #[trigger] surface_entry(prepared, k, matches_view(all[k]@)) by {
                    if k < s {
                        assert(surface_entry(before, k, matches_view(all[k]@)));
                    }
                }
            }
            s = s + 1;
        }
        proof {
            assert forall|k: int| 0 <= k < stop_count implies #[trigger] surface_entry(
                prepared,
                k,
                surface_profiles(self@, listed, service_date, destination_cells@, k, listed.len() as int),
            ) by {
                assert(surface_entry(prepared, k, matches_view(all[k]@)));
            }
        }
        prepared
    }
}

/// How many of the first `n` stops have journeys.
pub open spec fn populated(rows: Seq<Vec<SpatialProfileMatch>>, n: int) -> int
    decreases n,
{
    if n <= 0 { 0 } else { populated(rows, n - 1) + (if rows[n - 1]@.len() > 0 { 1int } else { 0int }) }
}

/// How many journeys the first `n` stops have.
pub open spec fn materialized(rows: Seq<Vec<SpatialProfileMatch>>, n: int) -> usize
    decreases n,
{
    if n <= 0 { 0 } else { crate::search::counted(materialized(rows, n - 1), rows[n - 1]@.len() as int) }
}

proof fn populated_prefix(a: Seq<Vec<SpatialProfileMatch>>, b: Seq<Vec<SpatialProfileMatch>>, n: int)
    requires
        0 <= n <= a.len() <= b.len(),
        forall|k: int| 0 <= k < n ==> a[k] == b[k],
    ensures
        populated(a, n) == populated(b, n),
        materialized(a, n) == materialized(b, n),
    decreases n,
{
    if n > 0 {
        populated_prefix(a, b, n - 1);
    }
}

fn contains_cell(cells: &Vec<u64>, cell: u64) -> (found: bool)
    ensures
        found == cells@.contains(cell),
{
    let mut i: usize = 0;
    while i < cells.len()
        invariant
            i <= cells.len(),
            forall|k: int| 0 <= k < i ==> cells@[k] != cell,
        decreases cells.len() - i,
    {
        if cells[i] == cell {
            return true;
        }
        i = i + 1;
    }
    false
}

/// After an invalidation nothing is left that rides a changed trip: no journey
/// remembered with a set of trips that holds one of the changed trips is in any
/// bucket.
pub proof fn invalidation_is_complete(buckets: Map<StoreKey, Seq<PointView>>, changed: Seq<usize>, key: StoreKey, i: int, trips: Seq<usize>)
    requires
        invalidated(buckets, changed).dom().contains(key),
        0 <= i < invalidated(buckets, changed)[key].len(),
        invalidated(buckets, changed)[key][i].bits == trips_bits(trips),
    ensures
        forall|a: int, b: int| 0 <= a < trips.len() && 0 <= b < changed.len() ==> #[trigger] trips[a] != #[trigger] changed[b],
{
    crate::profile_bucket::kept_ride_no_changed_trip(buckets[key], changed, buckets[key].len() as int, i, trips);
}

} // verus!
