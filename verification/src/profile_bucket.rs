//! Remembered journeys from one stop to one destination.

use crate::bloom::{filter_of, trip_bit, TripBloomFilter, PROFILE_BLOOM_BITS, PROFILE_BLOOM_HASHES};
use crate::leg::{copy_legs, CachedLeg};
use crate::order::{arranged, is_stable_order, stable_order, stable_order_of, OrderKey};
use vstd::prelude::*;

verus! {

/// A remembered journey up to a stop at the border of the destination.
#[derive(Clone, Debug)]
pub struct SpatialProfileMatch {
    pub latest_ready_secs: i32,
    pub boundary_arrival_secs: i32,
    pub transit_legs: usize,
    pub boundary_stop: usize,
    pub absolute_min_duration_secs: i32,
    pub absolute_min_transfers: usize,
    pub trunk_legs: Vec<CachedLeg>,
}

/// A remembered journey, with its legs as a sequence.
pub struct MatchView {
    pub latest_ready_secs: i32,
    pub boundary_arrival_secs: i32,
    pub transit_legs: usize,
    pub boundary_stop: usize,
    pub absolute_min_duration_secs: i32,
    pub absolute_min_transfers: usize,
    pub trunk_legs: Seq<CachedLeg>,
}

/// A remembered journey with the set of its trips.
pub struct BucketPoint {
    pub profile: SpatialProfileMatch,
    pub bloom: TripBloomFilter,
}

/// A remembered journey with the bits of the set of its trips.
pub struct PointView {
    pub profile: MatchView,
    pub bits: Set<int>,
}

/// The bits that are set in a filter.
pub open spec fn filter_bits(filter: TripBloomFilter) -> Set<int> {
    Set::new(|bit: int| 0 <= bit < PROFILE_BLOOM_BITS && filter.bit(bit))
}

/// The bits that trips set.
pub open spec fn trips_bits(trips: Seq<usize>) -> Set<int> {
    Set::new(
        |bit: int|
            0 <= bit < PROFILE_BLOOM_BITS && exists|i: int, seed: u64|
                0 <= i < trips.len() && seed < PROFILE_BLOOM_HASHES && #[trigger] trip_bit(trips[i], seed) == bit,
    )
}

/// Whether bits claim a trip.
pub open spec fn bits_claim(bits: Set<int>, trip: usize) -> bool {
    forall|seed: u64| seed < PROFILE_BLOOM_HASHES ==> bits.contains(#[trigger] trip_bit(trip, seed))
}

/// Whether bits claim one of the trips.
pub open spec fn bits_claim_any(bits: Set<int>, trips: Seq<usize>) -> bool {
    exists|i: int| 0 <= i < trips.len() && bits_claim(bits, #[trigger] trips[i])
}

impl SpatialProfileMatch {
    /// The journey with its legs as a sequence.
    pub open spec fn view(&self) -> MatchView {
        MatchView {
            latest_ready_secs: self.latest_ready_secs,
            boundary_arrival_secs: self.boundary_arrival_secs,
            transit_legs: self.transit_legs,
            boundary_stop: self.boundary_stop,
            absolute_min_duration_secs: self.absolute_min_duration_secs,
            absolute_min_transfers: self.absolute_min_transfers,
            trunk_legs: self.trunk_legs@,
        }
    }
}

impl BucketPoint {
    /// The journey and the bits of its trips.
    pub open spec fn view(&self) -> PointView {
        PointView { profile: self.profile@, bits: filter_bits(self.bloom) }
    }
}

/// The journeys of a bucket.
pub open spec fn bucket_view(bucket: Seq<BucketPoint>) -> Seq<PointView> {
    Seq::new(bucket.len(), |i: int| bucket[i]@)
}

/// A remembered journey, copied.
pub fn copy_match(profile: &SpatialProfileMatch) -> (copy: SpatialProfileMatch)
    ensures
        copy@ == profile@,
{
    let legs: Vec<CachedLeg> = copy_legs(&profile.trunk_legs, 0);
    assert(legs@ =~= profile.trunk_legs@);
    SpatialProfileMatch {
        latest_ready_secs: profile.latest_ready_secs,
        boundary_arrival_secs: profile.boundary_arrival_secs,
        transit_legs: profile.transit_legs,
        boundary_stop: profile.boundary_stop,
        absolute_min_duration_secs: profile.absolute_min_duration_secs,
        absolute_min_transfers: profile.absolute_min_transfers,
        trunk_legs: legs,
    }
}

/// A point, copied.
pub fn copy_point(point: &BucketPoint) -> (copy: BucketPoint)
    ensures
        copy@ == point@,
{
    BucketPoint { profile: copy_match(&point.profile), bloom: point.bloom }
}

/// The filter of trips, and that its bits are theirs.
pub fn bloom_of(trips: &Vec<usize>) -> (filter: TripBloomFilter)
    ensures
        filter_bits(filter) == trips_bits(trips@),
{
    let filter: TripBloomFilter = filter_of(trips);
    assert(filter_bits(filter) =~= trips_bits(trips@));
    filter
}

/// Whether a filter claims one of the trips, in terms of its bits.
pub fn bloom_claims_any(filter: &TripBloomFilter, trips: &Vec<usize>) -> (claimed: bool)
    ensures
        claimed == bits_claim_any(filter_bits(*filter), trips@),
{
    proof {
        assert forall|trip: usize| filter.claims(trip) == #[trigger] bits_claim(filter_bits(*filter), trip) by {
            if filter.claims(trip) {
                assert forall|seed: u64| seed < PROFILE_BLOOM_HASHES implies filter_bits(*filter).contains(#[trigger] trip_bit(trip, seed)) by {
                    assert(filter.bit(trip_bit(trip, seed)));
                }
            }
            if bits_claim(filter_bits(*filter), trip) {
                assert forall|seed: u64| seed < PROFILE_BLOOM_HASHES implies filter.bit(#[trigger] trip_bit(trip, seed)) by {
                    assert(filter_bits(*filter).contains(trip_bit(trip, seed)));
                }
            }
        }
        if bits_claim_any(filter_bits(*filter), trips@) {
            let i = choose|i: int| 0 <= i < trips@.len() && bits_claim(filter_bits(*filter), #[trigger] trips@[i]);
            assert(filter.claims(trips@[i]));
        }
        if filter.claims_any(trips@) {
            let i = choose|i: int| 0 <= i < trips@.len() && filter.claims(#[trigger] trips@[i]);
            assert(bits_claim(filter_bits(*filter), trips@[i]));
        }
    }
    filter.might_intersect_any(trips)
}

/// Whether two journeys are to the same border stop with as many rides.
pub open spec fn same_group(a: MatchView, b: MatchView) -> bool {
    a.boundary_stop == b.boundary_stop && a.transit_legs == b.transit_legs
}

/// Whether two journeys leave, arrive and ride alike.
pub open spec fn same_times(a: MatchView, b: MatchView) -> bool {
    same_group(a, b) && a.latest_ready_secs == b.latest_ready_secs && a.boundary_arrival_secs == b.boundary_arrival_secs
}

/// Weight of the ready time in a sort key.
pub const READY_WEIGHT: i128 = 8589934592;

/// Sort key of a journey in a bucket: by border stop, rides, latest ready time
/// first, then arrival.
pub open spec fn point_key(profile: MatchView) -> OrderKey {
    (
        profile.boundary_stop as i128,
        profile.transit_legs as i128,
        (profile.boundary_arrival_secs - profile.latest_ready_secs * READY_WEIGHT) as i128,
    )
}

/// Sort keys of the journeys of a bucket.
pub open spec fn point_keys(points: Seq<PointView>) -> Seq<OrderKey> {
    Seq::new(points.len(), |i: int| point_key(points[i].profile))
}

/// Whether the `i`th of sorted journeys is worth keeping: it arrives before
/// every one of its group that may be left for later.
pub open spec fn worth_keeping(sorted: Seq<PointView>, i: int) -> bool {
    &&& sorted[i].profile.boundary_arrival_secs < i32::MAX
    &&& forall|j: int| 0 <= j < i && same_group(#[trigger] sorted[j].profile, sorted[i].profile) ==> sorted[i].profile.boundary_arrival_secs < sorted[j].profile.boundary_arrival_secs
}

/// Those of the first `n` sorted journeys that are worth keeping.
pub open spec fn kept_points(sorted: Seq<PointView>, n: int) -> Seq<PointView>
    decreases n,
{
    if n <= 0 {
        Seq::empty()
    } else if worth_keeping(sorted, n - 1) {
        kept_points(sorted, n - 1).push(sorted[n - 1])
    } else {
        kept_points(sorted, n - 1)
    }
}

/// A bucket in order, without the journeys that another one dominates.
pub open spec fn compacted(points: Seq<PointView>) -> Seq<PointView> {
    let sorted = arranged(points, stable_order_of(point_keys(points)));
    kept_points(sorted, sorted.len() as int)
}

/// The first journey of a bucket with the same times.
pub open spec fn first_same(points: Seq<PointView>, profile: MatchView, n: int) -> Option<int>
    decreases points.len() - n,
{
    if n >= points.len() {
        None
    } else if same_times(points[n].profile, profile) {
        Some(n)
    } else {
        first_same(points, profile, n + 1)
    }
}

/// A bucket after a journey was merged into it, and whether it changed: of two
/// journeys with the same times the one with fewer legs stays.
pub open spec fn merged(points: Seq<PointView>, next: PointView) -> (Seq<PointView>, bool) {
    match first_same(points, next.profile, 0) {
        Some(i) => if next.profile.trunk_legs.len() < points[i].profile.trunk_legs.len() {
            (points.update(i, next), true)
        } else {
            (points, false)
        },
        None => (compacted(points.push(next)), true),
    }
}

fn compact_bucket(bucket: &Vec<BucketPoint>) -> (result: Vec<BucketPoint>)
    ensures
        bucket_view(result@) == compacted(bucket_view(bucket@)),
{
    let ghost points = bucket_view(bucket@);
    let mut keys: Vec<OrderKey> = Vec::new();
    let mut i: usize = 0;
    while i < bucket.len()
        invariant
            i <= bucket.len(),
            points == bucket_view(bucket@),
            keys.len() == i,
            forall|k: int| 0 <= k < i ==> #[trigger] keys[k] == point_key(points[k].profile),
        decreases bucket.len() - i,
    {
        let profile: &SpatialProfileMatch = &bucket[i].profile;
        assert(points[i as int].profile == profile@);
        let ready: i128 = profile.latest_ready_secs as i128 * READY_WEIGHT;
        keys.push((profile.boundary_stop as i128, profile.transit_legs as i128, profile.boundary_arrival_secs as i128 - ready));
        i = i + 1;
    }
    assert(keys@ =~= point_keys(points));
    let order: Vec<usize> = stable_order(&keys);
    let ghost sorted = arranged(points, order@);
    let mut result: Vec<BucketPoint> = Vec::new();
    let mut current: Option<(usize, usize)> = None;
    let mut best_arrival: i32 = i32::MAX;
    let mut j: usize = 0;
    while j < order.len()
        invariant
            j <= order.len(),
            points == bucket_view(bucket@),
            points.len() == bucket@.len(),
            keys@ == point_keys(points),
            is_stable_order(keys@, order@),
            sorted == arranged(points, order@),
            bucket_view(result@) == kept_points(sorted, j as int),
            j == 0 ==> current is None,
            j > 0 ==> current == Some((sorted[j - 1].profile.boundary_stop, sorted[j - 1].profile.transit_legs)),
            j > 0 ==> forall|k: int| 0 <= k < j && same_group(#[trigger] sorted[k].profile, sorted[j - 1].profile) ==> best_arrival <= sorted[k].profile.boundary_arrival_secs,
            best_arrival < i32::MAX ==> exists|k: int| 0 <= k < j && same_group(#[trigger] sorted[k].profile, sorted[j - 1].profile) && best_arrival == sorted[k].profile.boundary_arrival_secs,
        decreases order.len() - j,
    {
        let point: &BucketPoint = &bucket[order[j]];
        let profile: &SpatialProfileMatch = &point.profile;
        assert(sorted[j as int] == point@);
        let same: bool = match current {
            Some((stop, legs)) => stop == profile.boundary_stop && legs == profile.transit_legs,
            None => false,
        };
        if !same {
            current = Some((profile.boundary_stop, profile.transit_legs));
            best_arrival = i32::MAX;
            proof {
                if j > 0 {
                    assert forall|k: int| 0 <= k < j && same_group(#[trigger] sorted[k].profile, sorted[j as int].profile) implies false by {
                        group_is_contiguous(points, order@, k, j as int);
                    }
                }
            }
        }
        assert(worth_keeping(sorted, j as int) <==> profile.boundary_arrival_secs < best_arrival) by {
            if profile.boundary_arrival_secs < best_arrival {
                assert forall|k: int| 0 <= k < j && same_group(#[trigger] sorted[k].profile, sorted[j as int].profile) implies sorted[j as int].profile.boundary_arrival_secs < sorted[k].profile.boundary_arrival_secs by {
                    if same {
                        assert(same_group(sorted[k].profile, sorted[j - 1].profile));
                    }
                }
            }
        }
        if profile.boundary_arrival_secs < best_arrival {
            best_arrival = profile.boundary_arrival_secs;
            let ghost before = result@;
            result.push(copy_point(point));
            assert(bucket_view(result@) =~= bucket_view(before).push(sorted[j as int]));
            assert(same_group(sorted[j as int].profile, sorted[j as int].profile));
        } else {
            proof {
                if best_arrival < i32::MAX {
                    let k = choose|k: int| 0 <= k < j && same_group(#[trigger] sorted[k].profile, sorted[j - 1].profile) && best_arrival == sorted[k].profile.boundary_arrival_secs;
                    assert(same_group(sorted[k].profile, sorted[j as int].profile));
                }
            }
        }
        j = j + 1;
    }
    result
}

proof fn group_is_contiguous(points: Seq<PointView>, order: Seq<usize>, k: int, j: int)
    requires
        is_stable_order(point_keys(points), order),
        0 <= k < j < order.len(),
        same_group(arranged(points, order)[k].profile, arranged(points, order)[j].profile),
    ensures
        same_group(arranged(points, order)[j - 1].profile, arranged(points, order)[j].profile),
{
    let keys = point_keys(points);
    let sorted = arranged(points, order);
    assert(keys[order[k] as int] == point_key(sorted[k].profile));
    assert(keys[order[j] as int] == point_key(sorted[j].profile));
    assert(keys[order[j - 1] as int] == point_key(sorted[j - 1].profile));
    if k < j - 1 {
        assert(crate::order::position_before(keys, order[k] as int, order[j - 1] as int));
    }
    assert(crate::order::position_before(keys, order[j - 1] as int, order[j] as int));
}

/// Whether a bucket holds nothing but a journey and what another holds.
pub open spec fn adds_only(before: Seq<PointView>, next: PointView, after: Seq<PointView>) -> bool {
    forall|k: int| 0 <= k < after.len() ==> (#[trigger] after[k]) == next || before.contains(after[k])
}

/// Whether a bucket has a journey that is as good as one.
pub open spec fn covered(points: Seq<PointView>, profile: MatchView) -> bool {
    exists|k: int| 0 <= k < points.len() && dominates((#[trigger] points[k]).profile, profile)
}

/// Whether a bucket has for every journey that another has one for, and for one more, a
/// journey that is as good. (One that arrives at the end of time is left out.)
pub open spec fn covers_more(before: Seq<PointView>, next: PointView, after: Seq<PointView>) -> bool {
    forall|profile: MatchView|
        profile.boundary_arrival_secs < i32::MAX && (covered(before, profile) || profile == next.profile) ==> #[trigger] covered(after, profile)
}

/// Merges a journey into a bucket, and says whether the bucket changed. Nothing
/// comes in but the journey, and nothing goes that has none as good in its place.
pub fn merge_point(bucket: &Vec<BucketPoint>, next: BucketPoint) -> (result: (Vec<BucketPoint>, bool))
    ensures
        (bucket_view(result.0@), result.1) == merged(bucket_view(bucket@), next@),
        adds_only(bucket_view(bucket@), next@, bucket_view(result.0@)),
        covers_more(bucket_view(bucket@), next@, bucket_view(result.0@)),
{
    let ghost points = bucket_view(bucket@);
    let mut copy: Vec<BucketPoint> = Vec::new();
    let mut found: Option<usize> = None;
    let mut i: usize = 0;
    while i < bucket.len()
        invariant
            i <= bucket.len(),
            points == bucket_view(bucket@),
            bucket_view(copy@) == points.take(i as int),
            found is None ==> first_same(points, next@.profile, 0) == first_same(points, next@.profile, i as int),
            found is Some ==> found->0 < i && first_same(points, next@.profile, 0) == Some(found->0 as int),
        decreases bucket.len() - i,
    {
        let point: &BucketPoint = &bucket[i];
        assert(points[i as int] == point@);
        if found.is_none() && point.profile.boundary_stop == next.profile.boundary_stop && point.profile.latest_ready_secs == next.profile.latest_ready_secs
            && point.profile.boundary_arrival_secs == next.profile.boundary_arrival_secs && point.profile.transit_legs == next.profile.transit_legs {
            found = Some(i);
        }
        let ghost before = copy@;
        copy.push(copy_point(point));
        assert(bucket_view(before).len() == i);
        assert(bucket_view(copy@) =~= points.take(i + 1)) by {
            assert forall|k: int| 0 <= k < i + 1 implies bucket_view(copy@)[k] == points[k] by {
                if k < i {
                    assert(bucket_view(before)[k] == points.take(i as int)[k]);
                }
            }
        }
        i = i + 1;
    }
    assert(points.take(i as int) =~= points);
    match found {
        Some(at) => {
            proof {
                merging_adds_only(points, next@);
                merging_covers_more(points, next@);
            }
            assert(bucket_view(copy@)[at as int] == points[at as int]);
            if next.profile.trunk_legs.len() < copy[at].profile.trunk_legs.len() {
                let ghost before = copy@;
                let ghost view = next@;
                copy.set(at, next);
                assert(bucket_view(copy@) =~= points.update(at as int, view)) by {
                    assert forall|k: int| 0 <= k < points.len() implies bucket_view(copy@)[k] == points.update(at as int, view)[k] by {
                        assert(bucket_view(before)[k] == points[k]);
                    }
                }
                (copy, true)
            } else {
                (copy, false)
            }
        },
        None => {
            let ghost before = copy@;
            let ghost view = next@;
            copy.push(next);
            assert(bucket_view(copy@) =~= points.push(view)) by {
                assert forall|k: int| 0 <= k < points.len() implies bucket_view(copy@)[k] == points[k] by {
                    assert(bucket_view(before)[k] == points[k]);
                }
            }
            proof {
                assert(copy.len() == points.len() + 1);
                merging_adds_only(points, view);
                merging_covers_more(points, view);
            }
            (compact_bucket(&copy), true)
        },
    }
}

/// The least duration and the fewest rides of the first `n` journeys.
pub open spec fn bucket_bounds(points: Seq<PointView>, n: int) -> (i32, usize)
    decreases n,
{
    if n <= 0 {
        (i32::MAX, usize::MAX)
    } else {
        let before = bucket_bounds(points, n - 1);
        let profile = points[n - 1].profile;
        (
            if profile.absolute_min_duration_secs < before.0 { profile.absolute_min_duration_secs } else { before.0 },
            if profile.absolute_min_transfers < before.1 { profile.absolute_min_transfers } else { before.1 },
        )
    }
}

/// The bounds are below every journey.
pub proof fn bounds_are_lower(points: Seq<PointView>, n: int, i: int)
    requires
        0 <= i < n <= points.len(),
    ensures
        bucket_bounds(points, n).0 <= points[i].profile.absolute_min_duration_secs,
        bucket_bounds(points, n).1 <= points[i].profile.absolute_min_transfers,
    decreases n,
{
    if i < n - 1 {
        bounds_are_lower(points, n - 1, i);
    }
}

/// The least duration and the fewest rides of a bucket.
pub fn summarize_profile_bucket(bucket: &Vec<BucketPoint>) -> (bounds: (i32, usize))
    ensures
        bounds == bucket_bounds(bucket_view(bucket@), bucket@.len() as int),
{
    let mut duration: i32 = i32::MAX;
    let mut transfers: usize = usize::MAX;
    let mut i: usize = 0;
    while i < bucket.len()
        invariant
            i <= bucket.len(),
            (duration, transfers) == bucket_bounds(bucket_view(bucket@), i as int),
        decreases bucket.len() - i,
    {
        let profile: &SpatialProfileMatch = &bucket[i].profile;
        assert(bucket_view(bucket@)[i as int].profile == profile@);
        if profile.absolute_min_duration_secs < duration {
            duration = profile.absolute_min_duration_secs;
        }
        if profile.absolute_min_transfers < transfers {
            transfers = profile.absolute_min_transfers;
        }
        i = i + 1;
    }
    (duration, transfers)
}

/// The journeys among the first `n` whose trips are none of those changed.
pub open spec fn untouched(points: Seq<PointView>, changed: Seq<usize>, n: int) -> Seq<PointView>
    decreases n,
{
    if n <= 0 {
        Seq::empty()
    } else if bits_claim_any(points[n - 1].bits, changed) {
        untouched(points, changed, n - 1)
    } else {
        untouched(points, changed, n - 1).push(points[n - 1])
    }
}

/// Keeps the journeys whose trips are none of those changed.
pub fn retain_untouched(bucket: &Vec<BucketPoint>, changed: &Vec<usize>) -> (kept: Vec<BucketPoint>)
    ensures
        bucket_view(kept@) == untouched(bucket_view(bucket@), changed@, bucket@.len() as int),
        kept@.len() <= bucket@.len(),
{
    let mut kept: Vec<BucketPoint> = Vec::new();
    let mut i: usize = 0;
    while i < bucket.len()
        invariant
            i <= bucket.len(),
            kept@.len() <= i,
            bucket_view(kept@) == untouched(bucket_view(bucket@), changed@, i as int),
        decreases bucket.len() - i,
    {
        let point: &BucketPoint = &bucket[i];
        assert(bucket_view(bucket@)[i as int] == point@);
        if !bloom_claims_any(&point.bloom, changed) {
            let ghost before = kept@;
            kept.push(copy_point(point));
            assert(bucket_view(kept@) =~= bucket_view(before).push(point@));
        }
        i = i + 1;
    }
    kept
}

/// What is kept rides none of the changed trips, so far as the filters know: a
/// journey whose filter holds a changed trip is never kept.
pub proof fn kept_ride_no_changed_trip(points: Seq<PointView>, changed: Seq<usize>, n: int, i: int, trips: Seq<usize>)
    requires
        0 <= n <= points.len(),
        0 <= i < untouched(points, changed, n).len(),
        untouched(points, changed, n)[i].bits == trips_bits(trips),
    ensures
        forall|a: int, b: int| 0 <= a < trips.len() && 0 <= b < changed.len() ==> #[trigger] trips[a] != #[trigger] changed[b],
    decreases n,
{
    if n > 0 {
        let before = untouched(points, changed, n - 1);
        if i < before.len() {
            if !bits_claim_any(points[n - 1].bits, changed) {
                assert(untouched(points, changed, n)[i] == before[i]);
            }
            kept_ride_no_changed_trip(points, changed, n - 1, i, trips);
        } else {
            let bits = points[n - 1].bits;
            assert(!bits_claim_any(bits, changed));
            assert forall|a: int, b: int| 0 <= a < trips.len() && 0 <= b < changed.len() implies #[trigger] trips[a] != #[trigger] changed[b] by {
                if trips[a] == changed[b] {
                    assert forall|seed: u64| seed < PROFILE_BLOOM_HASHES implies bits.contains(#[trigger] trip_bit(changed[b], seed)) by {
                        assert(trip_bit(trips[a], seed) == trip_bit(changed[b], seed));
                    }
                    assert(bits_claim(bits, changed[b]));
                }
            }
        }
    }
}

/// Compaction loses no choice: for every journey there is one that stays, to the
/// same border stop with as many rides, that can be begun no earlier and arrives
/// no later. (A journey that arrives at the end of time is dropped.)
pub proof fn compaction_keeps_best(points: Seq<PointView>, i: int)
    requires
        0 <= i < points.len(),
        points.len() <= usize::MAX,
        points[i].profile.boundary_arrival_secs < i32::MAX,
    ensures
        exists|k: int| 0 <= k < compacted(points).len() && dominates((#[trigger] compacted(points)[k]).profile, points[i].profile),
{
    let keys = point_keys(points);
    let order = stable_order_of(keys);
    let sorted = arranged(points, order);
    crate::order::stable_order_exists(keys);
    crate::order::stable_order_covers(keys, order);
    assert(order.contains(i as usize));
    let p = choose|p: int| 0 <= p < order.len() && order[p] == i as usize;
    assert(sorted[p] == points[i]);
    best_is_kept(points, order, p);
    let q = choose|q: int| 0 <= q <= p && dominates((#[trigger] sorted[q]).profile, sorted[p].profile) && worth_keeping(sorted, q);
    kept_are_listed(sorted, sorted.len() as int, q);
    let k = choose|k: int| 0 <= k < kept_points(sorted, sorted.len() as int).len() && kept_points(sorted, sorted.len() as int)[k] == sorted[q];
    assert(dominates(compacted(points)[k].profile, points[i].profile));
}

/// Whether a journey can be begun no earlier than another and arrives no later,
/// to the same border stop with as many rides.
pub open spec fn dominates(a: MatchView, b: MatchView) -> bool {
    same_group(a, b) && a.latest_ready_secs >= b.latest_ready_secs && a.boundary_arrival_secs <= b.boundary_arrival_secs
}

proof fn best_is_kept(points: Seq<PointView>, order: Seq<usize>, p: int)
    requires
        is_stable_order(point_keys(points), order),
        0 <= p < order.len(),
        arranged(points, order)[p].profile.boundary_arrival_secs < i32::MAX,
    ensures
        exists|q: int| 0 <= q <= p && dominates((#[trigger] arranged(points, order)[q]).profile, arranged(points, order)[p].profile) && worth_keeping(arranged(points, order), q),
    decreases p,
{
    let sorted = arranged(points, order);
    let keys = point_keys(points);
    if worth_keeping(sorted, p) {
        assert(dominates(sorted[p].profile, sorted[p].profile));
    } else {
        let j = choose|j: int| 0 <= j < p && same_group(#[trigger] sorted[j].profile, sorted[p].profile) && sorted[p].profile.boundary_arrival_secs >= sorted[j].profile.boundary_arrival_secs;
        assert(crate::order::position_before(keys, order[j] as int, order[p] as int));
        assert(keys[order[j] as int] == point_key(sorted[j].profile));
        assert(keys[order[p] as int] == point_key(sorted[p].profile));
        assert(sorted[j].profile.latest_ready_secs >= sorted[p].profile.latest_ready_secs);
        best_is_kept(points, order, j);
        let q = choose|q: int| 0 <= q <= j && dominates((#[trigger] sorted[q]).profile, sorted[j].profile) && worth_keeping(sorted, q);
        assert(dominates(sorted[q].profile, sorted[p].profile));
    }
}

proof fn kept_are_listed(sorted: Seq<PointView>, n: int, q: int)
    requires
        0 <= q < n <= sorted.len(),
        worth_keeping(sorted, q),
    ensures
        kept_points(sorted, n).contains(sorted[q]),
    decreases n,
{
    let before = kept_points(sorted, n - 1);
    if q == n - 1 {
        assert(kept_points(sorted, n)[before.len() as int] == sorted[q]);
    } else {
        kept_are_listed(sorted, n - 1, q);
        let k = choose|k: int| 0 <= k < before.len() && before[k] == sorted[q];
        assert(kept_points(sorted, n)[k] == sorted[q]);
    }
}

proof fn kept_come_from(sorted: Seq<PointView>, n: int, k: int)
    requires
        0 <= n <= sorted.len(),
        0 <= k < kept_points(sorted, n).len(),
    ensures
        exists|q: int| 0 <= q < n && #[trigger] sorted[q] == kept_points(sorted, n)[k],
    decreases n,
{
    let before = kept_points(sorted, n - 1);
    if k < before.len() {
        kept_come_from(sorted, n - 1, k);
        let q = choose|q: int| 0 <= q < n - 1 && #[trigger] sorted[q] == before[k];
        assert(sorted[q] == kept_points(sorted, n)[k]);
    } else {
        assert(sorted[n - 1] == kept_points(sorted, n)[k]);
    }
}

proof fn first_same_in_range(points: Seq<PointView>, profile: MatchView, n: int)
    requires
        0 <= n,
    ensures
        match first_same(points, profile, n) {
            Some(i) => n <= i < points.len(),
            None => true,
        },
    decreases points.len() - n,
{
    if n < points.len() && !same_times(points[n].profile, profile) {
        first_same_in_range(points, profile, n + 1);
    }
}

/// A bucket holds nothing but what was put into it: each journey of a merged
/// bucket was there before or is the new one.
pub proof fn merge_adds_nothing_else(points: Seq<PointView>, next: PointView, k: int)
    requires
        points.len() < usize::MAX || first_same(points, next.profile, 0) is Some,
        0 <= k < merged(points, next).0.len(),
    ensures
        merged(points, next).0[k] == next || exists|i: int| 0 <= i < points.len() && #[trigger] points[i] == merged(points, next).0[k],
{
    first_same_in_range(points, next.profile, 0);
    match first_same(points, next.profile, 0) {
        Some(i) => {
            if !(next.profile.trunk_legs.len() < points[i].profile.trunk_legs.len() && k == i) {
                assert(points[k] == merged(points, next).0[k]);
            }
        },
        None => {
            let all = points.push(next);
            let keys = point_keys(all);
            let order = stable_order_of(keys);
            crate::order::stable_order_exists(keys);
            let sorted = arranged(all, order);
            kept_come_from(sorted, sorted.len() as int, k);
            let q = choose|q: int| 0 <= q < sorted.len() && #[trigger] sorted[q] == compacted(all)[k];
            assert(order[q] < keys.len());
            let at = order[q] as int;
            assert(sorted[q] == all[at]);
            if at < points.len() {
                assert(points[at] == merged(points, next).0[k]);
            }
        },
    }
}

proof fn merging_adds_only(points: Seq<PointView>, next: PointView)
    requires
        points.len() < usize::MAX || first_same(points, next.profile, 0) is Some,
    ensures
        adds_only(points, next, merged(points, next).0),
{
    let after = merged(points, next).0;
    assert forall|k: int| 0 <= k < after.len() implies (#[trigger] after[k]) == next || points.contains(after[k]) by {
        merge_adds_nothing_else(points, next, k);
    }
}

proof fn first_same_is_same(points: Seq<PointView>, profile: MatchView, n: int)
    requires
        0 <= n,
    ensures
        match first_same(points, profile, n) {
            Some(i) => n <= i < points.len() && same_times(points[i].profile, profile),
            None => true,
        },
    decreases points.len() - n,
{
    if n < points.len() && !same_times(points[n].profile, profile) {
        first_same_is_same(points, profile, n + 1);
    }
}

proof fn merging_covers(points: Seq<PointView>, next: PointView, profile: MatchView)
    requires
        points.len() < usize::MAX || first_same(points, next.profile, 0) is Some,
        profile.boundary_arrival_secs < i32::MAX,
        covered(points, profile) || profile == next.profile,
    ensures
        covered(merged(points, next).0, profile),
{
    let after = merged(points, next).0;
    first_same_is_same(points, next.profile, 0);
    match first_same(points, next.profile, 0) {
        Some(i) => {
            if covered(points, profile) {
                let k = choose|k: int| 0 <= k < points.len() && dominates((#[trigger] points[k]).profile, profile);
                assert(dominates(after[k].profile, profile));
            } else {
                assert(dominates(after[i].profile, profile));
            }
        },
        None => {
            let all = points.push(next);
            let k = if covered(points, profile) {
                let k = choose|k: int| 0 <= k < points.len() && dominates((#[trigger] points[k]).profile, profile);
                assert(all[k] == points[k]);
                k
            } else {
                points.len() as int
            };
            assert(dominates(all[k].profile, profile));
            compaction_keeps_best(all, k);
            let j = choose|j: int| 0 <= j < compacted(all).len() && dominates((#[trigger] compacted(all)[j]).profile, all[k].profile);
            assert(dominates(after[j].profile, profile));
        },
    }
}

proof fn merging_covers_more(points: Seq<PointView>, next: PointView)
    requires
        points.len() < usize::MAX || first_same(points, next.profile, 0) is Some,
    ensures
        covers_more(points, next, merged(points, next).0),
{
    assert forall|profile: MatchView|
        profile.boundary_arrival_secs < i32::MAX && (covered(points, profile) || profile == next.profile) implies #[trigger] covered(merged(points, next).0, profile) by {
        merging_covers(points, next, profile);
    }
}

} // verus!
