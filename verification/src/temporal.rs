//! Departure order of the trips of a line, stop by stop.

use crate::model::{saturated_sum, saturating_difference, LineRecord, TripRecord};
use crate::order::{arranged, is_stable_order, stable_order, OrderKey};
use vstd::prelude::*;

verus! {

/// Width of a departure bucket in seconds.
pub const CHRONOS_BUCKET_SECS: i32 = 900;

/// The latest departure behind which a bucket can begin: the one before the last
/// beginning of a bucket that can be counted in seconds.
pub const LATEST_DEPARTURE_SECS: i32 = 2147482799;

/// The first position whose departure is not before `start`, or the length.
pub open spec fn first_at_or_after(departures: Seq<i32>, start: int) -> int
    decreases departures.len(),
{
    if departures.len() == 0 || departures[0] >= start {
        0
    } else {
        1 + first_at_or_after(departures.drop_first(), start)
    }
}

/// Number of buckets that cover departures ending with `last`.
pub open spec fn chronos_bucket_count(last: i32) -> int {
    (if last > 0 { last as int } else { 0 }) / CHRONOS_BUCKET_SECS as int + 2
}

/// The bucket table of a sequence of departures: for each bucket the first
/// position that departs no earlier than the bucket starts.
pub open spec fn chronos_buckets(departures: Seq<i32>) -> Seq<u32> {
    if departures.len() == 0 {
        Seq::empty()
    } else {
        Seq::new(
            chronos_bucket_count(departures.last()) as nat,
            |bucket: int| first_at_or_after(departures, bucket * CHRONOS_BUCKET_SECS) as u32,
        )
    }
}

/// What the position of the first departure at or after `start` means.
pub proof fn first_at_or_after_bounds(departures: Seq<i32>, start: int)
    ensures
        0 <= first_at_or_after(departures, start) <= departures.len(),
        forall|i: int| 0 <= i < first_at_or_after(departures, start) ==> departures[i] < start,
        first_at_or_after(departures, start) < departures.len() ==> departures[first_at_or_after(departures, start)] >= start,
    decreases departures.len(),
{
    if departures.len() == 0 || departures[0] >= start {
    } else {
        first_at_or_after_bounds(departures.drop_first(), start);
        assert forall|i: int| 0 <= i < first_at_or_after(departures, start) implies departures[i] < start by {
            if i > 0 {
                assert(departures.drop_first()[i - 1] == departures[i]);
            }
        }
    }
}

proof fn first_at_or_after_is(departures: Seq<i32>, start: int, cursor: int)
    requires
        0 <= cursor <= departures.len(),
        forall|i: int| 0 <= i < cursor ==> departures[i] < start,
        cursor < departures.len() ==> departures[cursor] >= start,
    ensures
        first_at_or_after(departures, start) == cursor,
{
    first_at_or_after_bounds(departures, start);
    let found = first_at_or_after(departures, start);
    if found < cursor {
        assert(departures[found] < start);
    }
    if cursor < found {
        assert(departures[cursor] < start);
    }
}

/// Builds the bucket table of a sequence of departures.
pub fn build_chronos_bucket_start_indices(departures: &Vec<i32>) -> (indices: Vec<u32>)
    requires
        departures.len() <= u32::MAX,
        departures.len() > 0 ==> departures@.last() <= LATEST_DEPARTURE_SECS,
    ensures
        indices@ == chronos_buckets(departures@),
{
    let mut indices: Vec<u32> = Vec::new();
    if departures.len() == 0 {
        assert(indices@ =~= chronos_buckets(departures@));
        return indices;
    }
    let last: i32 = departures[departures.len() - 1];
    let max_departure_secs: i32 = if last > 0 { last } else { 0 };
    let bucket_count: i32 = max_departure_secs / CHRONOS_BUCKET_SECS + 2;
    let mut cursor: usize = 0;
    let mut bucket_index: i32 = 0;
    while bucket_index < bucket_count
        invariant
            0 <= bucket_index <= bucket_count,
            bucket_count == max_departure_secs / CHRONOS_BUCKET_SECS + 2,
            0 <= max_departure_secs <= LATEST_DEPARTURE_SECS,
            bucket_count == chronos_bucket_count(departures@.last()),
            departures.len() > 0,
            departures.len() <= u32::MAX,
            cursor <= departures.len(),
            forall|i: int| 0 <= i < cursor ==> #[trigger] departures[i] < bucket_index * CHRONOS_BUCKET_SECS,
            indices.len() == bucket_index,
            forall|b: int| 0 <= b < bucket_index ==> #[trigger] indices[b] == first_at_or_after(departures@, b * CHRONOS_BUCKET_SECS) as u32,
        decreases bucket_count - bucket_index,
    {
        let bucket_start_secs: i32 = bucket_index * CHRONOS_BUCKET_SECS;
        while cursor < departures.len() && departures[cursor] < bucket_start_secs
            invariant
                cursor <= departures.len(),
                bucket_start_secs == bucket_index * CHRONOS_BUCKET_SECS,
                forall|i: int| 0 <= i < cursor ==> #[trigger] departures[i] < bucket_start_secs,
            decreases departures.len() - cursor,
        {
            cursor = cursor + 1;
        }
        proof {
            first_at_or_after_is(departures@, bucket_start_secs as int, cursor as int);
        }
        indices.push(cursor as u32);
        bucket_index = bucket_index + 1;
    }
    assert(indices@ =~= chronos_buckets(departures@));
    indices
}

/// The departures at one position of the trips listed, in list order. A trip
/// that ends before the position has none.
pub open spec fn departures_at(trips: Seq<TripRecord>, trip_indices: Seq<usize>, stop_pos: int) -> Seq<i32>
    decreases trip_indices.len(),
{
    if trip_indices.len() == 0 {
        Seq::empty()
    } else {
        let head = departures_at(trips, trip_indices.drop_last(), stop_pos);
        let stop_times = trips[trip_indices.last() as int].stop_times@;
        if stop_pos < stop_times.len() {
            head.push(stop_times[stop_pos].departure_secs)
        } else {
            head
        }
    }
}

/// Whether the values never fall.
pub open spec fn non_decreasing(values: Seq<i32>) -> bool {
    forall|i: int, j: int| 0 <= i <= j < values.len() ==> #[trigger] values[i] <= #[trigger] values[j]
}

/// Sort keys of plain values.
pub open spec fn value_keys(values: Seq<i32>) -> Seq<OrderKey> {
    Seq::new(values.len(), |i: int| (values[i] as i128, 0i128, 0i128))
}

/// Sort keys of trips by their first departure.
pub open spec fn first_departure_keys(trips: Seq<TripRecord>, trip_indices: Seq<usize>) -> Seq<OrderKey> {
    Seq::new(
        trip_indices.len(),
        |i: int| (trips[trip_indices[i] as int].stop_times[0].departure_secs as i128, 0i128, 0i128),
    )
}

/// `after` lists the trips of `before` by first departure, trips with the same
/// departure in their given order.
pub open spec fn trips_by_first_departure(trips: Seq<TripRecord>, before: Seq<usize>, after: Seq<usize>) -> bool {
    exists|order: Seq<usize>|
        #[trigger] is_stable_order(first_departure_keys(trips, before), order) && after == arranged(before, order)
}

/// Whether every trip of the line calls somewhere, at no more stops than the
/// line has, at times that leave room for a bucket.
pub open spec fn line_fits_trips(line: LineRecord, trips: Seq<TripRecord>) -> bool {
    &&& line.trip_indices.len() <= u32::MAX
    &&& forall|i: int| 0 <= i < line.trip_indices.len() ==> {
        let trip = #[trigger] line.trip_indices[i];
        &&& trip < trips.len()
        &&& 1 <= trips[trip as int].stop_times.len() <= line.stop_indices.len()
        &&& forall|p: int| 0 <= p < trips[trip as int].stop_times.len() ==> (#[trigger] trips[trip as int].stop_times[p]).departure_secs <= LATEST_DEPARTURE_SECS
    }
}

/// The departure table of one position: in trip order where that is ascending,
/// otherwise sorted with the order recorded beside it.
pub open spec fn position_is_indexed(line: LineRecord, trips: Seq<TripRecord>, stop_pos: int) -> bool {
    let departures = departures_at(trips, line.trip_indices@, stop_pos);
    let scheduled = line.scheduled_departures_by_stop[stop_pos]@;
    let indirection = line.trip_order_indirection_by_stop[stop_pos]@;
    &&& line.binary_searchable_by_stop[stop_pos] == non_decreasing(departures)
    &&& line.chronos_bucket_start_indices_by_stop[stop_pos]@ == chronos_buckets(scheduled)
    &&& if non_decreasing(departures) {
        scheduled == departures && indirection.len() == 0
    } else {
        exists|order: Seq<usize>| {
            &&& #[trigger] is_stable_order(value_keys(departures), order)
            &&& scheduled == arranged(departures, order)
            &&& indirection == Seq::new(order.len(), |i: int| order[i] as u32)
        }
    }
}

/// Whether the line carries the departure tables of its trips.
pub open spec fn line_is_indexed(line: LineRecord, trips: Seq<TripRecord>) -> bool {
    &&& line.scheduled_departures_by_stop.len() == line.stop_indices.len()
    &&& line.chronos_bucket_start_indices_by_stop.len() == line.stop_indices.len()
    &&& line.binary_searchable_by_stop.len() == line.stop_indices.len()
    &&& line.trip_order_indirection_by_stop.len() == line.stop_indices.len()
    &&& forall|stop_pos: int| 0 <= stop_pos < line.stop_indices.len() ==> #[trigger] position_is_indexed(line, trips, stop_pos)
}

proof fn departures_at_bounds(trips: Seq<TripRecord>, trip_indices: Seq<usize>, stop_pos: int)
    requires
        0 <= stop_pos,
        forall|i: int| 0 <= i < trip_indices.len() ==> {
            let trip = #[trigger] trip_indices[i];
            &&& trip < trips.len()
            &&& forall|p: int| 0 <= p < trips[trip as int].stop_times.len() ==> (#[trigger] trips[trip as int].stop_times[p]).departure_secs <= LATEST_DEPARTURE_SECS
        },
    ensures
        departures_at(trips, trip_indices, stop_pos).len() <= trip_indices.len(),
        forall|i: int| 0 <= i < departures_at(trips, trip_indices, stop_pos).len() ==> #[trigger] departures_at(trips, trip_indices, stop_pos)[i] <= LATEST_DEPARTURE_SECS,
    decreases trip_indices.len(),
{
    if trip_indices.len() > 0 {
        let head = trip_indices.drop_last();
        assert forall|i: int| 0 <= i < head.len() implies {
            let trip = #[trigger] head[i];
            &&& trip < trips.len()
            &&& forall|p: int| 0 <= p < trips[trip as int].stop_times.len() ==> (#[trigger] trips[trip as int].stop_times[p]).departure_secs <= LATEST_DEPARTURE_SECS
        } by {
            assert(head[i] == trip_indices[i]);
        }
        departures_at_bounds(trips, head, stop_pos);
        let last = trip_indices.last();
        assert(last == trip_indices[trip_indices.len() - 1]);
        let stop_times = trips[last as int].stop_times;
        if stop_pos < stop_times.len() {
            assert(stop_times[stop_pos].departure_secs <= LATEST_DEPARTURE_SECS);
        }
    }
}

fn sort_trips_by_first_departure(trip_indices: &Vec<usize>, trips: &Vec<TripRecord>) -> (sorted: Vec<usize>)
    requires
        forall|i: int| 0 <= i < trip_indices.len() ==> (#[trigger] trip_indices[i]) < trips.len() && trips[trip_indices[i] as int].stop_times.len() >= 1,
    ensures
        trips_by_first_departure(trips@, trip_indices@, sorted@),
        sorted.len() == trip_indices.len(),
        forall|i: int| 0 <= i < sorted.len() ==> trip_indices@.contains(#[trigger] sorted[i]),
{
    let mut keys: Vec<OrderKey> = Vec::new();
    let mut i: usize = 0;
    while i < trip_indices.len()
        invariant
            i <= trip_indices.len(),
            keys.len() == i,
            forall|k: int| 0 <= k < trip_indices.len() ==> (#[trigger] trip_indices[k]) < trips.len() && trips[trip_indices[k] as int].stop_times.len() >= 1,
            forall|k: int| 0 <= k < i ==> #[trigger] keys[k] == first_departure_keys(trips@, trip_indices@)[k],
        decreases trip_indices.len() - i,
    {
        let departure: i32 = trips[trip_indices[i]].stop_times[0].departure_secs;
        keys.push((departure as i128, 0i128, 0i128));
        i = i + 1;
    }
    assert(keys@ =~= first_departure_keys(trips@, trip_indices@));
    let order: Vec<usize> = stable_order(&keys);
    let mut sorted: Vec<usize> = Vec::new();
    let mut j: usize = 0;
    while j < order.len()
        invariant
            j <= order.len(),
            sorted.len() == j,
            is_stable_order(keys@, order@),
            keys.len() == trip_indices.len(),
            forall|k: int| 0 <= k < j ==> #[trigger] sorted[k] == trip_indices[order[k] as int],
        decreases order.len() - j,
    {
        sorted.push(trip_indices[order[j]]);
        j = j + 1;
    }
    assert(sorted@ =~= arranged(trip_indices@, order@));
    sorted
}

fn collect_departures_at(trips: &Vec<TripRecord>, trip_indices: &Vec<usize>, stop_pos: usize) -> (departures: Vec<i32>)
    requires
        forall|i: int| 0 <= i < trip_indices.len() ==> (#[trigger] trip_indices[i]) < trips.len(),
    ensures
        departures@ == departures_at(trips@, trip_indices@, stop_pos as int),
{
    let mut departures: Vec<i32> = Vec::new();
    let mut i: usize = 0;
    while i < trip_indices.len()
        invariant
            i <= trip_indices.len(),
            forall|k: int| 0 <= k < trip_indices.len() ==> (#[trigger] trip_indices[k]) < trips.len(),
            departures@ == departures_at(trips@, trip_indices@.take(i as int), stop_pos as int),
        decreases trip_indices.len() - i,
    {
        assert(trip_indices@.take(i + 1).drop_last() =~= trip_indices@.take(i as int));
        let trip: &TripRecord = &trips[trip_indices[i]];
        if stop_pos < trip.stop_times.len() {
            departures.push(trip.stop_times[stop_pos].departure_secs);
        }
        i = i + 1;
    }
    assert(trip_indices@.take(i as int) =~= trip_indices@);
    departures
}

fn never_falls(values: &Vec<i32>) -> (result: bool)
    ensures
        result == non_decreasing(values@),
{
    let mut i: usize = 1;
    while i < values.len()
        invariant
            1 <= i,
            i <= values.len() || values.len() == 0,
            forall|a: int, b: int| 0 <= a <= b < i && b < values.len() ==> #[trigger] values[a] <= #[trigger] values[b],
        decreases values.len() - i,
    {
        if values[i] < values[i - 1] {
            assert(values@[i - 1] > values@[i as int]);
            return false;
        }
        i = i + 1;
    }
    true
}

fn sort_departures(departures: &Vec<i32>) -> (result: (Vec<i32>, Vec<u32>))
    requires
        departures.len() <= u32::MAX,
    ensures
        exists|order: Seq<usize>| {
            &&& #[trigger] is_stable_order(value_keys(departures@), order)
            &&& result.0@ == arranged(departures@, order)
            &&& result.1@ == Seq::new(order.len(), |i: int| order[i] as u32)
        },
{
    let mut keys: Vec<OrderKey> = Vec::new();
    let mut i: usize = 0;
    while i < departures.len()
        invariant
            i <= departures.len(),
            keys.len() == i,
            forall|k: int| 0 <= k < i ==> #[trigger] keys[k] == value_keys(departures@)[k],
        decreases departures.len() - i,
    {
        keys.push((departures[i] as i128, 0i128, 0i128));
        i = i + 1;
    }
    assert(keys@ =~= value_keys(departures@));
    let order: Vec<usize> = stable_order(&keys);
    let mut sorted: Vec<i32> = Vec::new();
    let mut positions: Vec<u32> = Vec::new();
    let mut j: usize = 0;
    while j < order.len()
        invariant
            j <= order.len(),
            sorted.len() == j,
            positions.len() == j,
            is_stable_order(keys@, order@),
            keys.len() == departures.len(),
            forall|k: int| 0 <= k < j ==> #[trigger] sorted[k] == departures[order[k] as int],
            forall|k: int| 0 <= k < j ==> #[trigger] positions[k] == order[k] as u32,
        decreases order.len() - j,
    {
        sorted.push(departures[order[j]]);
        positions.push(order[j] as u32);
        j = j + 1;
    }
    assert(sorted@ =~= arranged(departures@, order@));
    assert(positions@ =~= Seq::new(order@.len(), |i: int| order@[i] as u32));
    (sorted, positions)
}

fn index_line(line: &LineRecord, trips: &Vec<TripRecord>) -> (indexed: LineRecord)
    requires
        line_fits_trips(*line, trips@),
    ensures
        indexed.stop_indices@ == line.stop_indices@,
        trips_by_first_departure(trips@, line.trip_indices@, indexed.trip_indices@),
        line_is_indexed(indexed, trips@),
{
    let trip_indices: Vec<usize> = sort_trips_by_first_departure(&line.trip_indices, trips);
    let mut scheduled: Vec<Vec<i32>> = Vec::new();
    let mut buckets: Vec<Vec<u32>> = Vec::new();
    let mut searchable: Vec<bool> = Vec::new();
    let mut indirection: Vec<Vec<u32>> = Vec::new();
    let mut stop_indices: Vec<usize> = Vec::new();
    proof {
        assert forall|i: int| 0 <= i < trip_indices.len() implies {
            let trip = #[trigger] trip_indices[i];
            &&& trip < trips.len()
            &&& forall|p: int| 0 <= p < trips[trip as int].stop_times.len() ==> (#[trigger] trips[trip as int].stop_times[p]).departure_secs <= LATEST_DEPARTURE_SECS
        } by {
            assert(line.trip_indices@.contains(trip_indices[i]));
        }
    }
    let mut stop_pos: usize = 0;
    while stop_pos < line.stop_indices.len()
        invariant
            stop_pos <= line.stop_indices.len(),
            trip_indices.len() <= u32::MAX,
            forall|i: int| 0 <= i < trip_indices.len() ==> {
                let trip = #[trigger] trip_indices[i];
                &&& trip < trips.len()
                &&& forall|p: int| 0 <= p < trips[trip as int].stop_times.len() ==> (#[trigger] trips[trip as int].stop_times[p]).departure_secs <= LATEST_DEPARTURE_SECS
            },
            stop_indices.len() == stop_pos,
            forall|k: int| 0 <= k < stop_pos ==> #[trigger] stop_indices[k] == line.stop_indices[k],
            scheduled.len() == stop_pos,
            buckets.len() == stop_pos,
            searchable.len() == stop_pos,
            indirection.len() == stop_pos,
            forall|k: int| 0 <= k < stop_pos ==> #[trigger] position_is_indexed(
                (LineRecord {
                    stop_indices: stop_indices,
                    trip_indices: trip_indices,
                    scheduled_departures_by_stop: scheduled,
                    chronos_bucket_start_indices_by_stop: buckets,
                    binary_searchable_by_stop: searchable,
                    trip_order_indirection_by_stop: indirection,
                }),
                trips@,
                k,
            ),
        decreases line.stop_indices.len() - stop_pos,
    {
        let ghost before = LineRecord {
            stop_indices: stop_indices,
            trip_indices: trip_indices,
            scheduled_departures_by_stop: scheduled,
            chronos_bucket_start_indices_by_stop: buckets,
            binary_searchable_by_stop: searchable,
            trip_order_indirection_by_stop: indirection,
        };
        let departures: Vec<i32> = collect_departures_at(trips, &trip_indices, stop_pos);
        proof {
            departures_at_bounds(trips@, trip_indices@, stop_pos as int);
        }
        if never_falls(&departures) {
            buckets.push(build_chronos_bucket_start_indices(&departures));
            scheduled.push(departures);
            searchable.push(true);
            indirection.push(Vec::new());
        } else {
            let (sorted, positions) = sort_departures(&departures);
            proof {
                let order = choose|order: Seq<usize>| {
                    &&& #[trigger] is_stable_order(value_keys(departures@), order)
                    &&& sorted@ == arranged(departures@, order)
                    &&& positions@ == Seq::new(order.len(), |i: int| order[i] as u32)
                };
                if sorted.len() > 0 {
                    assert(sorted@.last() == departures[order.last() as int]);
                }
            }
            buckets.push(build_chronos_bucket_start_indices(&sorted));
            scheduled.push(sorted);
            searchable.push(false);
            indirection.push(positions);
        }
        stop_indices.push(line.stop_indices[stop_pos]);
        proof {
            let after = LineRecord {
                stop_indices: stop_indices,
                trip_indices: trip_indices,
                scheduled_departures_by_stop: scheduled,
                chronos_bucket_start_indices_by_stop: buckets,
                binary_searchable_by_stop: searchable,
                trip_order_indirection_by_stop: indirection,
            };
            assert forall|k: int| 0 <= k <= stop_pos implies #[trigger] position_is_indexed(after, trips@, k) by {
                if k < stop_pos {
                    assert(position_is_indexed(before, trips@, k));
                }
            }
        }
        stop_pos = stop_pos + 1;
    }
    assert(stop_indices@ =~= line.stop_indices@);
    LineRecord {
        stop_indices: stop_indices,
        trip_indices: trip_indices,
        scheduled_departures_by_stop: scheduled,
        chronos_bucket_start_indices_by_stop: buckets,
        binary_searchable_by_stop: searchable,
        trip_order_indirection_by_stop: indirection,
    }
}

/// Puts the trips of each line in order of their first departure and builds the
/// departure tables of every stop of the line.
pub fn finalize_line_temporal_indices(lines: &mut Vec<LineRecord>, trips: &Vec<TripRecord>)
    requires
        forall|i: int| 0 <= i < old(lines).len() ==> #[trigger] line_fits_trips(old(lines)[i], trips@),
    ensures
        final(lines).len() == old(lines).len(),
        forall|i: int| 0 <= i < final(lines).len() ==> {
            &&& (#[trigger] final(lines)[i]).stop_indices@ == old(lines)[i].stop_indices@
            &&& trips_by_first_departure(trips@, old(lines)[i].trip_indices@, final(lines)[i].trip_indices@)
            &&& line_is_indexed(final(lines)[i], trips@)
        },
{
    let mut i: usize = 0;
    while i < lines.len()
        invariant
            i <= lines.len(),
            lines.len() == old(lines).len(),
            forall|k: int| 0 <= k < old(lines).len() ==> #[trigger] line_fits_trips(old(lines)[k], trips@),
            forall|k: int| i <= k < lines.len() ==> #[trigger] lines[k] == old(lines)[k],
            forall|k: int| 0 <= k < i ==> {
                &&& (#[trigger] lines[k]).stop_indices@ == old(lines)[k].stop_indices@
                &&& trips_by_first_departure(trips@, old(lines)[k].trip_indices@, lines[k].trip_indices@)
                &&& line_is_indexed(lines[k], trips@)
            },
        decreases lines.len() - i,
    {
        assert(lines[i as int] == old(lines)[i as int]);
        assert(line_fits_trips(old(lines)[i as int], trips@));
        let indexed: LineRecord = index_line(&lines[i], trips);
        lines.set(i, indexed);
        i = i + 1;
    }
}

/// Where a search for departures may start: the bucket of the ready time less
/// the lookback.
pub open spec fn chronos_start(buckets: Seq<u32>, ready_at: i32, safety_lookback_secs: i32) -> int {
    let moved = saturated_sum(ready_at as int, -(safety_lookback_secs as int));
    let safe = if moved > 0 { moved } else { 0 };
    let bucket = safe / CHRONOS_BUCKET_SECS as int;
    buckets[if bucket < buckets.len() { bucket } else { buckets.len() - 1 }] as int
}

/// The first place in the departure order of a stop that a search needs to look
/// at; nothing where the stop has no buckets.
pub fn chronos_bucket_start_index(line: &LineRecord, stop_pos: usize, ready_at: i32, safety_lookback_secs: i32) -> (start: Option<usize>)
    ensures
        start is Some <==> stop_pos < line.chronos_bucket_start_indices_by_stop.len()
            && line.chronos_bucket_start_indices_by_stop[stop_pos as int].len() > 0,
        start is Some ==> start->0 == chronos_start(line.chronos_bucket_start_indices_by_stop[stop_pos as int]@, ready_at, safety_lookback_secs),
{
    if stop_pos >= line.chronos_bucket_start_indices_by_stop.len() {
        return None;
    }
    let buckets: &Vec<u32> = &line.chronos_bucket_start_indices_by_stop[stop_pos];
    if buckets.len() == 0 {
        return None;
    }
    let moved: i32 = saturating_difference(ready_at, safety_lookback_secs);
    let safe_ready_at: i32 = if moved > 0 { moved } else { 0 };
    let bucket_index: usize = (safe_ready_at / CHRONOS_BUCKET_SECS) as usize;
    let clamped: usize = if bucket_index < buckets.len() { bucket_index } else { buckets.len() - 1 };
    Some(buckets[clamped] as usize)
}

/// Number of places in the departure order of a stop.
pub open spec fn temporal_len(line: LineRecord, stop_pos: int) -> int {
    if stop_pos < line.trip_order_indirection_by_stop.len() && line.trip_order_indirection_by_stop[stop_pos].len() > 0 {
        line.trip_order_indirection_by_stop[stop_pos].len() as int
    } else {
        line.trip_indices.len() as int
    }
}

/// The trip at a place in the departure order of a stop.
pub open spec fn temporal_trip(line: LineRecord, stop_pos: int, place: int) -> Option<usize> {
    let physical = if stop_pos < line.trip_order_indirection_by_stop.len() && place < line.trip_order_indirection_by_stop[stop_pos].len() {
        line.trip_order_indirection_by_stop[stop_pos][place] as int
    } else {
        place
    };
    if physical < line.trip_indices.len() {
        Some(line.trip_indices[physical])
    } else {
        None
    }
}

/// Number of places in the departure order of a stop.
pub fn line_temporal_search_len(line: &LineRecord, stop_pos: usize) -> (len: usize)
    ensures
        len == temporal_len(*line, stop_pos as int),
{
    if stop_pos < line.trip_order_indirection_by_stop.len() && line.trip_order_indirection_by_stop[stop_pos].len() > 0 {
        line.trip_order_indirection_by_stop[stop_pos].len()
    } else {
        line.trip_indices.len()
    }
}

/// The trip at a place in the departure order of a stop.
pub fn line_trip_index_at_temporal_position(line: &LineRecord, stop_pos: usize, temporal_position: usize) -> (trip: Option<usize>)
    ensures
        trip == temporal_trip(*line, stop_pos as int, temporal_position as int),
{
    let physical: usize = if stop_pos < line.trip_order_indirection_by_stop.len()
        && temporal_position < line.trip_order_indirection_by_stop[stop_pos].len() {
        line.trip_order_indirection_by_stop[stop_pos][temporal_position] as usize
    } else {
        temporal_position
    };
    if physical < line.trip_indices.len() {
        Some(line.trip_indices[physical])
    } else {
        None
    }
}

/// A bucket start skips no departure that a traveller could still catch: every
/// place before it departs before the ready time less the lookback. (A ready
/// time before the start of the service day has no bucket of its own; it shares the
/// first, which skips nothing where no departure is before that start.)
pub proof fn bucket_start_skips_nothing(departures: Seq<i32>, ready_at: i32, lookback: i32, place: int)
    requires
        0 < departures.len() <= u32::MAX,
        0 <= lookback,
        0 <= ready_at - lookback || forall|i: int| 0 <= i < departures.len() ==> 0 <= #[trigger] departures[i],
        0 <= place < chronos_start(chronos_buckets(departures), ready_at, lookback),
    ensures
        place < departures.len(),
        departures[place] < ready_at - lookback,
{
    let buckets = chronos_buckets(departures);
    let safe = if ready_at - lookback > 0 { ready_at - lookback } else { 0 };
    let bucket = safe / CHRONOS_BUCKET_SECS as int;
    let clamped = if bucket < buckets.len() { bucket } else { buckets.len() - 1 };
    assert(clamped * CHRONOS_BUCKET_SECS <= safe) by (nonlinear_arith)
        requires
            clamped <= bucket,
            bucket == safe / CHRONOS_BUCKET_SECS as int,
            CHRONOS_BUCKET_SECS == 900,
    ;
    first_at_or_after_bounds(departures, clamped * CHRONOS_BUCKET_SECS);
    assert(buckets[clamped] == first_at_or_after(departures, clamped * CHRONOS_BUCKET_SECS) as u32);
}

/// The sorted departures of an indexed stop are ascending, whether or not the
/// trips run in that order.
pub proof fn indexed_departures_ascend(line: LineRecord, trips: Seq<TripRecord>, stop_pos: int)
    requires
        line_is_indexed(line, trips),
        0 <= stop_pos < line.stop_indices.len(),
    ensures
        non_decreasing(line.scheduled_departures_by_stop[stop_pos]@),
{
    assert(position_is_indexed(line, trips, stop_pos));
    let departures = departures_at(trips, line.trip_indices@, stop_pos);
    if !non_decreasing(departures) {
        let order = choose|order: Seq<usize>| {
            &&& #[trigger] is_stable_order(value_keys(departures), order)
            &&& line.scheduled_departures_by_stop[stop_pos]@ == arranged(departures, order)
            &&& line.trip_order_indirection_by_stop[stop_pos]@ == Seq::new(order.len(), |i: int| order[i] as u32)
        };
        let sorted = arranged(departures, order);
        assert forall|i: int, j: int| 0 <= i <= j < sorted.len() implies #[trigger] sorted[i] <= #[trigger] sorted[j] by {
            if i < j {
                let keys = value_keys(departures);
                assert(crate::order::position_before(keys, order[i] as int, order[j] as int));
                assert(keys[order[i] as int].0 == departures[order[i] as int]);
                assert(keys[order[j] as int].0 == departures[order[j] as int]);
            }
        }
    }
}

} // verus!
