//! What holds of every search.

use crate::model::{LineRecord, TripRecord, INF_TIME};
use crate::order::{arranged, is_stable_order, stable_order_covers};
use crate::search::{
    after_call, after_line_from, after_onboard, after_ride, best_departure_from, boardable, boardable_if_reported, can_ride_on, counted,
    departure_chunk, earliest_trip, first_departure_from, line_valid, ready_time, search_begun, with_departure, BestDeparture, LineScan,
    RoundMetrics, SearchContext, SearchView, SVRT_WIDTH,
};
use crate::temporal::{
    bucket_start_skips_nothing, chronos_buckets, chronos_start, departures_at, indexed_departures_ascend, line_is_indexed, non_decreasing,
    position_is_indexed, temporal_len, temporal_trip, value_keys,
};
use vstd::prelude::*;

verus! {

/// The scheduled departure of a trip from a call.
pub open spec fn scheduled_departure(trips: Seq<TripRecord>, trip: usize, stop_pos: int) -> int {
    trips[trip as int].stop_times@[stop_pos].departure_secs as int
}

/// A line with its departure tables built, whose trips all call at all its
/// stops.
pub open spec fn line_ready(line: LineRecord, trips: Seq<TripRecord>, stop_count: int) -> bool {
    &&& line_valid(line, trips, stop_count)
    &&& line_is_indexed(line, trips)
    &&& line.trip_indices@.len() <= u32::MAX
}

proof fn departures_of_full_trips(trips: Seq<TripRecord>, trip_indices: Seq<usize>, stop_pos: int)
    requires
        0 <= stop_pos,
        forall|i: int| 0 <= i < trip_indices.len() ==> (#[trigger] trip_indices[i]) < trips.len() && stop_pos < trips[trip_indices[i] as int].stop_times@.len(),
    ensures
        departures_at(trips, trip_indices, stop_pos).len() == trip_indices.len(),
        forall|i: int| 0 <= i < trip_indices.len() ==> #[trigger] departures_at(trips, trip_indices, stop_pos)[i] == scheduled_departure(trips, trip_indices[i], stop_pos),
    decreases trip_indices.len(),
{
    if trip_indices.len() > 0 {
        let head = trip_indices.drop_last();
        assert forall|i: int| 0 <= i < head.len() implies (#[trigger] head[i]) < trips.len() && stop_pos < trips[head[i] as int].stop_times@.len() by {
            assert(head[i] == trip_indices[i]);
        }
        departures_of_full_trips(trips, head, stop_pos);
        assert(trip_indices[trip_indices.len() - 1] < trips.len());
        assert forall|i: int| 0 <= i < trip_indices.len() implies #[trigger] departures_at(trips, trip_indices, stop_pos)[i] == scheduled_departure(trips, trip_indices[i], stop_pos) by {
            if i < head.len() {
                assert(departures_at(trips, head, stop_pos)[i] == scheduled_departure(trips, head[i], stop_pos));
            }
        }
    }
}

/// Each place in the departure order of a stop is a trip of the line with its
/// scheduled departure, and each trip of the line has a place.
pub proof fn places_are_trips(line: LineRecord, trips: Seq<TripRecord>, stop_count: int, stop_pos: int)
    requires
        line_ready(line, trips, stop_count),
        0 <= stop_pos < line.stop_indices@.len(),
    ensures
        temporal_len(line, stop_pos) == line.trip_indices@.len(),
        line.scheduled_departures_by_stop@[stop_pos]@.len() == line.trip_indices@.len(),
        forall|place: int| 0 <= place < temporal_len(line, stop_pos) ==> {
            &&& (#[trigger] temporal_trip(line, stop_pos, place)) is Some
            &&& line.trip_indices@.contains(temporal_trip(line, stop_pos, place)->0)
            &&& line.scheduled_departures_by_stop@[stop_pos]@[place] == scheduled_departure(trips, temporal_trip(line, stop_pos, place)->0, stop_pos)
        },
        forall|i: int| 0 <= i < line.trip_indices@.len() ==> exists|place: int|
            0 <= place < temporal_len(line, stop_pos) && #[trigger] temporal_trip(line, stop_pos, place) == Some(#[trigger] line.trip_indices@[i]),
{
    let trip_indices = line.trip_indices@;
    assert(position_is_indexed(line, trips, stop_pos));
    let departures = departures_at(trips, trip_indices, stop_pos);
    assert forall|i: int| 0 <= i < trip_indices.len() implies (#[trigger] trip_indices[i]) < trips.len() && stop_pos < trips[trip_indices[i] as int].stop_times@.len() by {}
    departures_of_full_trips(trips, trip_indices, stop_pos);
    let scheduled = line.scheduled_departures_by_stop@[stop_pos]@;
    let indirection = line.trip_order_indirection_by_stop@[stop_pos]@;
    if non_decreasing(departures) {
        assert forall|place: int| 0 <= place < temporal_len(line, stop_pos) implies {
            &&& (#[trigger] temporal_trip(line, stop_pos, place)) is Some
            &&& trip_indices.contains(temporal_trip(line, stop_pos, place)->0)
            &&& scheduled[place] == scheduled_departure(trips, temporal_trip(line, stop_pos, place)->0, stop_pos)
        } by {
            assert(temporal_trip(line, stop_pos, place) == Some(trip_indices[place]));
            assert(departures[place] == scheduled_departure(trips, trip_indices[place], stop_pos));
        }
        assert forall|i: int| 0 <= i < trip_indices.len() implies exists|place: int|
            0 <= place < temporal_len(line, stop_pos) && #[trigger] temporal_trip(line, stop_pos, place) == Some(#[trigger] trip_indices[i]) by {
            assert(temporal_trip(line, stop_pos, i) == Some(trip_indices[i]));
        }
    } else {
        let order = choose|order: Seq<usize>| {
            &&& #[trigger] is_stable_order(value_keys(departures), order)
            &&& scheduled == arranged(departures, order)
            &&& indirection == Seq::new(order.len(), |i: int| order[i] as u32)
        };
        stable_order_covers(value_keys(departures), order);
        assert(departures.len() > 0);
        assert(indirection.len() == trip_indices.len());
        assert forall|place: int| 0 <= place < order.len() implies #[trigger] temporal_trip(line, stop_pos, place) == Some(trip_indices[order[place] as int]) by {
            assert(order[place] < value_keys(departures).len());
            assert(indirection[place] == order[place] as u32);
        }
        assert forall|place: int| 0 <= place < temporal_len(line, stop_pos) implies {
            &&& (#[trigger] temporal_trip(line, stop_pos, place)) is Some
            &&& trip_indices.contains(temporal_trip(line, stop_pos, place)->0)
            &&& scheduled[place] == scheduled_departure(trips, temporal_trip(line, stop_pos, place)->0, stop_pos)
        } by {
            assert(order[place] < value_keys(departures).len());
            assert(departures[order[place] as int] == scheduled_departure(trips, trip_indices[order[place] as int], stop_pos));
        }
        assert forall|i: int| 0 <= i < trip_indices.len() implies exists|place: int|
            0 <= place < temporal_len(line, stop_pos) && #[trigger] temporal_trip(line, stop_pos, place) == Some(#[trigger] trip_indices[i]) by {
            assert(order.contains(i as usize));
            let place = choose|place: int| 0 <= place < order.len() && order[place] == i as usize;
            assert(temporal_trip(line, stop_pos, place) == Some(trip_indices[i]));
        }
    }
}

/// Whether every place in the departure order of a stop has a trip of the line.
pub open spec fn places_filled(line: LineRecord, stop_pos: int) -> bool {
    forall|place: int| 0 <= place < temporal_len(line, stop_pos) ==> (#[trigger] temporal_trip(line, stop_pos, place)) is Some
        && line.trip_indices@.contains(temporal_trip(line, stop_pos, place)->0)
}

proof fn first_from_is_first(ctx: SearchContext, line: LineRecord, stop_pos: int, ready_at: i32, place: int, m: RoundMetrics)
    requires
        places_filled(line, stop_pos),
        0 <= place,
    ensures
        ({
            let found = first_departure_from(ctx, line, stop_pos, ready_at, place, m).0;
            let scheduled = line.scheduled_departures_by_stop@[stop_pos]@;
            match found {
                Some(trip) => exists|at: int| {
                    &&& place <= at < temporal_len(line, stop_pos)
                    &&& #[trigger] temporal_trip(line, stop_pos, at) == Some(trip)
                    &&& boardable(ctx, trip as int, stop_pos)
                    &&& scheduled[at] >= ready_at
                    &&& forall|p: int| place <= p < at && boardable(ctx, (#[trigger] temporal_trip(line, stop_pos, p))->0 as int, stop_pos) ==> scheduled[p] < ready_at
                },
                None => forall|p: int| place <= p < temporal_len(line, stop_pos) && boardable(ctx, (#[trigger] temporal_trip(line, stop_pos, p))->0 as int, stop_pos) ==> scheduled[p] < ready_at,
            }
        }),
    decreases temporal_len(line, stop_pos) - place,
{
    let scheduled = line.scheduled_departures_by_stop@[stop_pos]@;
    if place < temporal_len(line, stop_pos) {
        assert(temporal_trip(line, stop_pos, place) is Some);
        let trip = temporal_trip(line, stop_pos, place)->0;
        let checked = RoundMetrics { trip_departure_checks: counted(m.trip_departure_checks, 1), ..m };
        let looked = RoundMetrics { skipped_stop_checks: counted(checked.skipped_stop_checks, 1), ..checked };
        if boardable(ctx, trip as int, stop_pos) && scheduled[place] >= ready_at {
            assert(temporal_trip(line, stop_pos, place) == Some(trip));
        } else {
            let next = if !ctx.trip_is_available@[trip as int] { checked } else { looked };
            first_from_is_first(ctx, line, stop_pos, ready_at, place + 1, next);
            let found = first_departure_from(ctx, line, stop_pos, ready_at, place + 1, next).0;
            match found {
                Some(other) => {
                    let at = choose|at: int| {
                        &&& place + 1 <= at < temporal_len(line, stop_pos)
                        &&& #[trigger] temporal_trip(line, stop_pos, at) == Some(other)
                        &&& boardable(ctx, other as int, stop_pos)
                        &&& scheduled[at] >= ready_at
                        &&& forall|p: int| place + 1 <= p < at && boardable(ctx, (#[trigger] temporal_trip(line, stop_pos, p))->0 as int, stop_pos) ==> scheduled[p] < ready_at
                    };
                    assert(temporal_trip(line, stop_pos, at) == Some(other));
                },
                None => {},
            }
        }
    }
}

/// Whether a trip of a line can be taken by a traveller who is ready at a time:
/// it runs, calls there, and departs no earlier; by the departures that a search
/// knows.
pub open spec fn catchable(ctx: SearchContext, trip: usize, stop_pos: int, ready_at: i32) -> bool {
    boardable_if_reported(ctx, trip as int, stop_pos) && ctx.departure(trip as int, stop_pos) >= ready_at
}

/// Whether no trip of a line departs from a call before the service day begins.
pub open spec fn departs_by_day(trips: Seq<TripRecord>, line: LineRecord, stop_pos: int) -> bool {
    forall|i: int| 0 <= i < line.trip_indices@.len() ==> 0 <= scheduled_departure(trips, #[trigger] line.trip_indices@[i], stop_pos)
}

proof fn tables_begin_by_day(line: LineRecord, trips: Seq<TripRecord>, stop_count: int, stop_pos: int)
    requires
        line_ready(line, trips, stop_count),
        0 <= stop_pos < line.stop_indices@.len(),
        departs_by_day(trips, line, stop_pos),
    ensures
        forall|i: int| 0 <= i < line.scheduled_departures_by_stop@[stop_pos]@.len() ==> 0 <= #[trigger] line.scheduled_departures_by_stop@[stop_pos]@[i],
{
    places_are_trips(line, trips, stop_count, stop_pos);
    let scheduled = line.scheduled_departures_by_stop@[stop_pos]@;
    assert forall|i: int| 0 <= i < scheduled.len() implies 0 <= #[trigger] scheduled[i] by {
        assert(temporal_trip(line, stop_pos, i) is Some);
        let k = line.trip_indices@.index_of(temporal_trip(line, stop_pos, i)->0);
        assert(0 <= scheduled_departure(trips, line.trip_indices@[k], stop_pos));
    }
}

/// On a line without delays, the trip that is found departs first by the
/// timetable among all trips of the line that run, call there, and depart no
/// earlier than the traveller is ready; and none is found only where there is
/// none. (A traveller who is ready before the service day begins is outside the
/// tables where a trip departs before it too.)
pub proof fn timetable_search_is_earliest(ctx: SearchContext, line: LineRecord, stop_pos: int, ready_at: i32, m: RoundMetrics)
    requires
        line_ready(line, ctx.data.trips@, ctx.data.stops@.len() as int),
        0 <= stop_pos < line.stop_indices@.len(),
        0 <= ready_at || departs_by_day(ctx.data.trips@, line, stop_pos),
        line.trip_indices@.len() > 0,
    ensures
        ({
            let found = earliest_trip(ctx, line, stop_pos, ready_at, 0, m).0;
            let trips = ctx.data.trips@;
            match found {
                Some(trip) => {
                    &&& line.trip_indices@.contains(trip)
                    &&& boardable(ctx, trip as int, stop_pos)
                    &&& scheduled_departure(trips, trip, stop_pos) >= ready_at
                    &&& forall|i: int| 0 <= i < line.trip_indices@.len() && boardable(ctx, (#[trigger] line.trip_indices@[i]) as int, stop_pos)
                        && scheduled_departure(trips, line.trip_indices@[i], stop_pos) >= ready_at
                        ==> scheduled_departure(trips, trip, stop_pos) <= scheduled_departure(trips, line.trip_indices@[i], stop_pos)
                },
                None => forall|i: int| 0 <= i < line.trip_indices@.len() && boardable(ctx, (#[trigger] line.trip_indices@[i]) as int, stop_pos)
                    ==> scheduled_departure(trips, line.trip_indices@[i], stop_pos) < ready_at,
            }
        }),
{
    let trips = ctx.data.trips@;
    let stop_count = ctx.data.stops@.len() as int;
    places_are_trips(line, trips, stop_count, stop_pos);
    indexed_departures_ascend(line, trips, stop_pos);
    assert(position_is_indexed(line, trips, stop_pos));
    let scheduled = line.scheduled_departures_by_stop@[stop_pos]@;
    let buckets = line.chronos_bucket_start_indices_by_stop@[stop_pos]@;
    assert(buckets == chronos_buckets(scheduled));
    assert(crate::temporal::chronos_bucket_count(scheduled.last()) >= 2);
    assert(buckets.len() > 0);
    let start = chronos_start(buckets, ready_at, 0);
    if departs_by_day(trips, line, stop_pos) {
        tables_begin_by_day(line, trips, stop_count, stop_pos);
    }
    assert forall|p: int| 0 <= p < start implies p < scheduled.len() && scheduled[p] < ready_at by {
        bucket_start_skips_nothing(scheduled, ready_at, 0, p);
    }
    assert(places_filled(line, stop_pos));
    let begun = search_begun(line, stop_pos, 0, m);
    let binary = RoundMetrics { binary_trip_searches: counted(begun.binary_trip_searches, 1), ..begun };
    if start < temporal_len(line, stop_pos) {
        first_from_is_first(ctx, line, stop_pos, ready_at, start, binary);
    }
    let found = earliest_trip(ctx, line, stop_pos, ready_at, 0, m).0;
    assert forall|i: int| 0 <= i < line.trip_indices@.len() && boardable(ctx, (#[trigger] line.trip_indices@[i]) as int, stop_pos)
        && scheduled_departure(trips, line.trip_indices@[i], stop_pos) >= ready_at implies match found {
        Some(trip) => scheduled_departure(trips, trip, stop_pos) <= scheduled_departure(trips, line.trip_indices@[i], stop_pos),
        None => false,
    } by {
        let p = choose|p: int| 0 <= p < temporal_len(line, stop_pos) && #[trigger] temporal_trip(line, stop_pos, p) == Some(line.trip_indices@[i]);
        assert(scheduled[p] == scheduled_departure(trips, line.trip_indices@[i], stop_pos));
        assert(p >= start);
        match found {
            Some(trip) => {
                let at = choose|at: int| {
                    &&& start <= at < temporal_len(line, stop_pos)
                    &&& #[trigger] temporal_trip(line, stop_pos, at) == Some(trip)
                    &&& boardable(ctx, trip as int, stop_pos)
                    &&& scheduled[at] >= ready_at
                    &&& forall|p: int| start <= p < at && boardable(ctx, (#[trigger] temporal_trip(line, stop_pos, p))->0 as int, stop_pos) ==> scheduled[p] < ready_at
                };
                assert(scheduled[at] == scheduled_departure(trips, trip, stop_pos));
                if p < at {
                    assert(boardable(ctx, temporal_trip(line, stop_pos, p)->0 as int, stop_pos));
                }
                assert(scheduled[at] <= scheduled[p]);
            },
            None => {
                assert(boardable(ctx, temporal_trip(line, stop_pos, p)->0 as int, stop_pos));
            },
        }
    }
    match found {
        Some(trip) => {
            let at = choose|at: int| {
                &&& start <= at < temporal_len(line, stop_pos)
                &&& #[trigger] temporal_trip(line, stop_pos, at) == Some(trip)
                &&& boardable(ctx, trip as int, stop_pos)
                &&& scheduled[at] >= ready_at
                &&& forall|p: int| start <= p < at && boardable(ctx, (#[trigger] temporal_trip(line, stop_pos, p))->0 as int, stop_pos) ==> scheduled[p] < ready_at
            };
            assert(scheduled[at] == scheduled_departure(trips, trip, stop_pos));
        },
        None => {},
    }
}

proof fn best_from_is_best(ctx: SearchContext, line: LineRecord, stop_pos: int, ready_at: i32, place: int, best: BestDeparture)
    requires
        places_filled(line, stop_pos),
        0 <= place,
        best.trip is Some ==> catchable(ctx, best.trip->0, stop_pos, ready_at) && best.departure == ctx.departure(best.trip->0 as int, stop_pos),
        best.trip is Some ==> line.trip_indices@.contains(best.trip->0),
    ensures
        ({
            let found = best_departure_from(ctx, line, stop_pos, ready_at, place, best);
            &&& found.departure <= best.departure
            &&& found.trip is Some ==> catchable(ctx, found.trip->0, stop_pos, ready_at) && found.departure == ctx.departure(found.trip->0 as int, stop_pos)
            &&& found.trip is Some ==> line.trip_indices@.contains(found.trip->0)
            &&& found.trip is None ==> best.trip is None && found.departure == best.departure
            &&& forall|p: int| place <= p < temporal_len(line, stop_pos) && catchable(ctx, (#[trigger] temporal_trip(line, stop_pos, p))->0, stop_pos, ready_at)
                ==> found.departure <= ctx.departure(temporal_trip(line, stop_pos, p)->0 as int, stop_pos)
        }),
    decreases temporal_len(line, stop_pos) - place,
{
    if place < temporal_len(line, stop_pos) {
        assert(temporal_trip(line, stop_pos, place) is Some);
        let trip = temporal_trip(line, stop_pos, place)->0;
        let next = with_departure(ctx, stop_pos, ready_at, trip, best);
        best_from_is_best(ctx, line, stop_pos, ready_at, place + 1, next);
    }
}

/// Whether no trip of a line departs later than scheduled by more than so much.
pub open spec fn delays_within(ctx: SearchContext, line: LineRecord, stop_pos: int, lookback: i32) -> bool {
    forall|i: int| 0 <= i < line.trip_indices@.len() ==> ctx.departure((#[trigger] line.trip_indices@[i]) as int, stop_pos) <= scheduled_departure(
        ctx.data.trips@,
        line.trip_indices@[i],
        stop_pos,
    ) + lookback
}

/// On a line with delays, the trip that is found has the earliest actual
/// departure among all trips of the line that run, call there and depart no
/// earlier than the traveller is ready; and none is found only where none
/// departs in time. The lookback must cover the delays. (A traveller who is
/// ready before the service day and the delays begin is outside the tables where a trip
/// departs before the day too.)
pub proof fn delayed_search_is_earliest(ctx: SearchContext, line: LineRecord, stop_pos: int, ready_at: i32, lookback: i32, m: RoundMetrics)
    requires
        line_ready(line, ctx.data.trips@, ctx.data.stops@.len() as int),
        0 <= stop_pos < line.stop_indices@.len(),
        0 < lookback,
        lookback <= ready_at || departs_by_day(ctx.data.trips@, line, stop_pos),
        line.trip_indices@.len() > 0,
        delays_within(ctx, line, stop_pos, lookback),
    ensures
        ({
            let found = earliest_trip(ctx, line, stop_pos, ready_at, lookback, m).0;
            match found {
                Some(trip) => {
                    &&& line.trip_indices@.contains(trip)
                    &&& catchable(ctx, trip, stop_pos, ready_at)
                    &&& forall|i: int| 0 <= i < line.trip_indices@.len() && catchable(ctx, #[trigger] line.trip_indices@[i], stop_pos, ready_at)
                        ==> ctx.departure(trip as int, stop_pos) <= ctx.departure(line.trip_indices@[i] as int, stop_pos)
                },
                None => forall|i: int| 0 <= i < line.trip_indices@.len() && catchable(ctx, #[trigger] line.trip_indices@[i], stop_pos, ready_at)
                    ==> ctx.departure(line.trip_indices@[i] as int, stop_pos) >= INF_TIME,
            }
        }),
{
    let trips = ctx.data.trips@;
    let stop_count = ctx.data.stops@.len() as int;
    places_are_trips(line, trips, stop_count, stop_pos);
    assert(position_is_indexed(line, trips, stop_pos));
    let scheduled = line.scheduled_departures_by_stop@[stop_pos]@;
    let buckets = line.chronos_bucket_start_indices_by_stop@[stop_pos]@;
    assert(buckets == chronos_buckets(scheduled));
    assert(crate::temporal::chronos_bucket_count(scheduled.last()) >= 2);
    assert(buckets.len() > 0);
    let start = chronos_start(buckets, ready_at, lookback);
    if departs_by_day(trips, line, stop_pos) {
        tables_begin_by_day(line, trips, stop_count, stop_pos);
    }
    assert forall|p: int| 0 <= p < start implies p < scheduled.len() && scheduled[p] < ready_at - lookback by {
        bucket_start_skips_nothing(scheduled, ready_at, lookback, p);
    }
    assert(places_filled(line, stop_pos));
    let begun = search_begun(line, stop_pos, lookback, m);
    let binary = RoundMetrics { binary_trip_searches: counted(begun.binary_trip_searches, 1), ..begun };
    let none = BestDeparture { trip: None, departure: INF_TIME as int, metrics: binary };
    if start < temporal_len(line, stop_pos) {
        best_from_is_best(ctx, line, stop_pos, ready_at, start, none);
    }
    assert forall|i: int| 0 <= i < line.trip_indices@.len() && catchable(ctx, #[trigger] line.trip_indices@[i], stop_pos, ready_at) implies {
        let found = earliest_trip(ctx, line, stop_pos, ready_at, lookback, m).0;
        match found {
            Some(trip) => ctx.departure(trip as int, stop_pos) <= ctx.departure(line.trip_indices@[i] as int, stop_pos),
            None => ctx.departure(line.trip_indices@[i] as int, stop_pos) >= INF_TIME,
        }
    } by {
        let p = choose|p: int| 0 <= p < temporal_len(line, stop_pos) && #[trigger] temporal_trip(line, stop_pos, p) == Some(line.trip_indices@[i]);
        assert(scheduled[p] == scheduled_departure(trips, line.trip_indices@[i], stop_pos));
        assert(p >= start);
        assert(catchable(ctx, temporal_trip(line, stop_pos, p)->0, stop_pos, ready_at));
    }
}

/// Whether two labellings are the same apart from the record of the work.
pub open spec fn same_labels(a: SearchView, b: SearchView) -> bool {
    a == (SearchView { metrics: a.metrics, ..b })
}

proof fn first_from_ignores_work(ctx: SearchContext, line: LineRecord, stop_pos: int, ready_at: i32, place: int, a: RoundMetrics, b: RoundMetrics)
    ensures
        first_departure_from(ctx, line, stop_pos, ready_at, place, a).0 == first_departure_from(ctx, line, stop_pos, ready_at, place, b).0,
    decreases temporal_len(line, stop_pos) - place,
{
    if place < temporal_len(line, stop_pos) {
        match temporal_trip(line, stop_pos, place) {
            None => {},
            Some(trip) => {
                let ca = RoundMetrics { trip_departure_checks: counted(a.trip_departure_checks, 1), ..a };
                let cb = RoundMetrics { trip_departure_checks: counted(b.trip_departure_checks, 1), ..b };
                let la = RoundMetrics { skipped_stop_checks: counted(ca.skipped_stop_checks, 1), ..ca };
                let lb = RoundMetrics { skipped_stop_checks: counted(cb.skipped_stop_checks, 1), ..cb };
                first_from_ignores_work(ctx, line, stop_pos, ready_at, place + 1, ca, cb);
                first_from_ignores_work(ctx, line, stop_pos, ready_at, place + 1, la, lb);
            },
        }
    }
}

proof fn best_from_ignores_work(ctx: SearchContext, line: LineRecord, stop_pos: int, ready_at: i32, place: int, a: BestDeparture, b: BestDeparture)
    requires
        a.trip == b.trip,
        a.departure == b.departure,
    ensures
        best_departure_from(ctx, line, stop_pos, ready_at, place, a).trip == best_departure_from(ctx, line, stop_pos, ready_at, place, b).trip,
    decreases temporal_len(line, stop_pos) - place,
{
    if place < temporal_len(line, stop_pos) {
        match temporal_trip(line, stop_pos, place) {
            None => {},
            Some(trip) => {
                best_from_ignores_work(
                    ctx,
                    line,
                    stop_pos,
                    ready_at,
                    place + 1,
                    with_departure(ctx, stop_pos, ready_at, trip, a),
                    with_departure(ctx, stop_pos, ready_at, trip, b),
                );
            },
        }
    }
}

proof fn best_of_all_ignores_work(ctx: SearchContext, line: LineRecord, stop_pos: int, ready_at: i32, i: int, a: BestDeparture, b: BestDeparture)
    requires
        a.trip == b.trip,
        a.departure == b.departure,
    ensures
        crate::search::best_departure_of_all(ctx, line, stop_pos, ready_at, i, a).trip == crate::search::best_departure_of_all(ctx, line, stop_pos, ready_at, i, b).trip,
    decreases line.trip_indices@.len() - i,
{
    if i < line.trip_indices@.len() {
        best_of_all_ignores_work(
            ctx,
            line,
            stop_pos,
            ready_at,
            i + 1,
            with_departure(ctx, stop_pos, ready_at, line.trip_indices@[i], a),
            with_departure(ctx, stop_pos, ready_at, line.trip_indices@[i], b),
        );
    }
}

/// Which trip is found does not depend on the work that was counted before.
pub proof fn search_ignores_work(ctx: SearchContext, line: LineRecord, stop_pos: int, ready_at: i32, lookback: i32, a: RoundMetrics, b: RoundMetrics)
    ensures
        earliest_trip(ctx, line, stop_pos, ready_at, lookback, a).0 == earliest_trip(ctx, line, stop_pos, ready_at, lookback, b).0,
{
    let ba = search_begun(line, stop_pos, lookback, a);
    let bb = search_begun(line, stop_pos, lookback, b);
    let fa = RoundMetrics {
        chronos_bucket_fallback_searches: counted(ba.chronos_bucket_fallback_searches, 1),
        chronos_bucket_fallback_non_monotonic: counted(ba.chronos_bucket_fallback_non_monotonic, 1),
        ..ba
    };
    let fb = RoundMetrics {
        chronos_bucket_fallback_searches: counted(bb.chronos_bucket_fallback_searches, 1),
        chronos_bucket_fallback_non_monotonic: counted(bb.chronos_bucket_fallback_non_monotonic, 1),
        ..bb
    };
    best_of_all_ignores_work(
        ctx,
        line,
        stop_pos,
        ready_at,
        0,
        BestDeparture { trip: None, departure: INF_TIME as int, metrics: fa },
        BestDeparture { trip: None, departure: INF_TIME as int, metrics: fb },
    );
    let buckets = line.chronos_bucket_start_indices_by_stop@;
    let start = chronos_start(buckets[stop_pos]@, ready_at, lookback);
    let na = RoundMetrics { binary_trip_searches: counted(ba.binary_trip_searches, 1), ..ba };
    let nb = RoundMetrics { binary_trip_searches: counted(bb.binary_trip_searches, 1), ..bb };
    first_from_ignores_work(ctx, line, stop_pos, ready_at, start, na, nb);
    best_from_ignores_work(
        ctx,
        line,
        stop_pos,
        ready_at,
        start,
        BestDeparture { trip: None, departure: INF_TIME as int, metrics: na },
        BestDeparture { trip: None, departure: INF_TIME as int, metrics: nb },
    );
}

/// The scan of a line call by call, without passing calls together.
pub open spec fn call_by_call(
    scan: LineScan,
    ctx: SearchContext,
    line: LineRecord,
    stop_pos: int,
    destination: int,
    round: int,
    lookback: i32,
    best_before: Seq<i32>,
    n: int,
) -> LineScan
    decreases n,
{
    if n <= 0 {
        scan
    } else {
        after_call(
            call_by_call(scan, ctx, line, stop_pos, destination, round, lookback, best_before, n - 1),
            ctx,
            line,
            stop_pos + n - 1,
            destination,
            round,
            lookback,
            best_before,
        )
    }
}

/// Whether no trip of a line is reported to depart before its scheduled time.
pub open spec fn none_early(ctx: SearchContext, line: LineRecord) -> bool {
    forall|i: int, p: int| 0 <= i < line.trip_indices@.len() && 0 <= p < line.stop_indices@.len() ==> ctx.departure((#[trigger] line.trip_indices@[i]) as int, p) >= #[trigger] scheduled_departure(
        ctx.data.trips@,
        line.trip_indices@[i],
        p,
    )
}

/// The trip that a traveller takes departs when the traveller is ready or later. (Where
/// no trip of the line is delayed, one that is reported to run early is not noticed.)
pub proof fn found_departs_in_time(ctx: SearchContext, line: LineRecord, stop_pos: int, ready_at: i32, lookback: i32, m: RoundMetrics)
    requires
        line_ready(line, ctx.data.trips@, ctx.data.stops@.len() as int),
        lookback == 0 ==> none_early(ctx, line),
        0 <= stop_pos < line.stop_indices@.len(),
    ensures
        ({
            let found = earliest_trip(ctx, line, stop_pos, ready_at, lookback, m).0;
            found is Some ==> ctx.departure(found->0 as int, stop_pos) >= ready_at
        }),
{
    let trips = ctx.data.trips@;
    places_are_trips(line, trips, ctx.data.stops@.len() as int, stop_pos);
    assert(position_is_indexed(line, trips, stop_pos));
    let scheduled = line.scheduled_departures_by_stop@[stop_pos]@;
    let buckets = line.chronos_bucket_start_indices_by_stop@[stop_pos]@;
    assert(places_filled(line, stop_pos));
    let begun = search_begun(line, stop_pos, lookback, m);
    if buckets.len() == 0 {
        let fallback = RoundMetrics {
            chronos_bucket_fallback_searches: counted(begun.chronos_bucket_fallback_searches, 1),
            chronos_bucket_fallback_non_monotonic: counted(begun.chronos_bucket_fallback_non_monotonic, 1),
            ..begun
        };
        all_departs_in_time(ctx, line, stop_pos, ready_at, 0, BestDeparture { trip: None, departure: INF_TIME as int, metrics: fallback });
    } else {
        let start = chronos_start(buckets, ready_at, lookback);
        let binary = RoundMetrics { binary_trip_searches: counted(begun.binary_trip_searches, 1), ..begun };
        if start < temporal_len(line, stop_pos) {
            if lookback == 0 {
                first_from_is_first(ctx, line, stop_pos, ready_at, start, binary);
                let found = first_departure_from(ctx, line, stop_pos, ready_at, start, binary).0;
                if found is Some {
                    let trip = found->0;
                    let at = choose|at: int| {
                        &&& start <= at < temporal_len(line, stop_pos)
                        &&& #[trigger] temporal_trip(line, stop_pos, at) == Some(trip)
                        &&& boardable(ctx, trip as int, stop_pos)
                        &&& scheduled[at] >= ready_at
                        &&& forall|p: int| start <= p < at && boardable(ctx, (#[trigger] temporal_trip(line, stop_pos, p))->0 as int, stop_pos) ==> scheduled[p] < ready_at
                    };
                    assert(scheduled[at] == scheduled_departure(trips, trip, stop_pos));
                    let i = choose|i: int| 0 <= i < line.trip_indices@.len() && line.trip_indices@[i] == trip;
                    assert(ctx.departure(line.trip_indices@[i] as int, stop_pos) >= scheduled_departure(trips, line.trip_indices@[i], stop_pos));
                }
            } else {
                best_from_is_best(ctx, line, stop_pos, ready_at, start, BestDeparture { trip: None, departure: INF_TIME as int, metrics: binary });
            }
        }
    }
}

proof fn all_departs_in_time(ctx: SearchContext, line: LineRecord, stop_pos: int, ready_at: i32, i: int, best: BestDeparture)
    requires
        best.trip is Some ==> ctx.departure(best.trip->0 as int, stop_pos) >= ready_at,
    ensures
        ({
            let found = crate::search::best_departure_of_all(ctx, line, stop_pos, ready_at, i, best).trip;
            found is Some ==> ctx.departure(found->0 as int, stop_pos) >= ready_at
        }),
    decreases line.trip_indices@.len() - i,
{
    if i < line.trip_indices@.len() {
        all_departs_in_time(ctx, line, stop_pos, ready_at, i + 1, with_departure(ctx, stop_pos, ready_at, line.trip_indices@[i], best));
    }
}

/// Passing calls together finds the same labels as going call by call, and rides
/// on with the same trip: where nobody waiting at the next calls was there before
/// the ridden trip departs, no earlier trip could have been caught. (A trip that
/// is reported to run early could.)
pub proof fn riding_on_loses_nothing(
    scan: LineScan,
    ctx: SearchContext,
    line: LineRecord,
    stop_pos: int,
    destination: int,
    round: int,
    lookback: i32,
    best_before: Seq<i32>,
    n: int,
)
    requires
        line_ready(line, ctx.data.trips@, ctx.data.stops@.len() as int),
        none_early(ctx, line),
        can_ride_on(scan, ctx, line, stop_pos, best_before),
        ctx.data.stops@.len() <= best_before.len(),
        0 <= stop_pos,
        0 <= n <= SVRT_WIDTH,
    ensures
        ({
            let step = call_by_call(scan, ctx, line, stop_pos, destination, round, lookback, best_before, n);
            let ride = after_ride(scan.view, ctx, line, stop_pos, n, destination, round, scan.current->0, scan.boarded_at);
            same_labels(step.view, ride) && step.current == scan.current && step.boarded_at == scan.boarded_at
        }),
    decreases n,
{
    if n > 0 {
        riding_on_loses_nothing(scan, ctx, line, stop_pos, destination, round, lookback, best_before, n - 1);
        let before = call_by_call(scan, ctx, line, stop_pos, destination, round, lookback, best_before, n - 1);
        let ride = after_ride(scan.view, ctx, line, stop_pos, n - 1, destination, round, scan.current->0, scan.boarded_at);
        let pos = stop_pos + n - 1;
        let lane = n - 1;
        let active = scan.current->0;
        let stops = line.stop_indices@.subrange(stop_pos, stop_pos + SVRT_WIDTH);
        let chunk = departure_chunk(ctx.data.trips@[active as int], stop_pos);
        let view = after_onboard(before.view, ctx, line, pos, destination, round, active, before.boarded_at);
        assert(same_labels(view, after_onboard(ride, ctx, line, pos, destination, round, active, scan.boarded_at)));
        let ready_at = best_before[line.stop_indices@[pos] as int];
        assert(line.stop_indices@[pos] < ctx.data.stops@.len());
        assert(stops[lane] == line.stop_indices@[pos]);
        assert(ready_time(best_before, stops[lane] as int) >= chunk[lane]);
        assert(ready_at >= ctx.departure(active as int, pos));
        found_departs_in_time(ctx, line, pos, ready_at, lookback, view.metrics);
    }
}

/// Whether no best arrival is later than it was.
pub open spec fn no_worse(before: SearchView, after: SearchView) -> bool {
    after.best.len() == before.best.len() && forall|s: int| 0 <= s < before.best.len() ==> (#[trigger] after.best[s]) <= before.best[s]
}

/// Going through a line never makes an arrival worse.
pub proof fn scanning_never_worsens(
    scan: LineScan,
    ctx: SearchContext,
    line: LineRecord,
    stop_pos: int,
    destination: int,
    round: int,
    lookback: i32,
    best_before: Seq<i32>,
)
    requires
        line_valid(line, ctx.data.trips@, ctx.data.stops@.len() as int),
        ctx.data.stops@.len() <= scan.view.best.len(),
        0 <= stop_pos,
    ensures
        no_worse(scan.view, after_line_from(scan, ctx, line, stop_pos, destination, round, lookback, best_before)),
    decreases line.stop_indices@.len() - stop_pos,
{
    if stop_pos < line.stop_indices@.len() {
        if can_ride_on(scan, ctx, line, stop_pos, best_before) {
            riding_never_worsens(scan.view, ctx, line, stop_pos, SVRT_WIDTH as int, destination, round, scan.current->0, scan.boarded_at);
            let view = after_ride(scan.view, ctx, line, stop_pos, SVRT_WIDTH as int, destination, round, scan.current->0, scan.boarded_at);
            scanning_never_worsens(LineScan { view: view, ..scan }, ctx, line, stop_pos + SVRT_WIDTH, destination, round, lookback, best_before);
        } else {
            assert(line.stop_indices@[stop_pos] < ctx.data.stops@.len());
            let next = after_call(scan, ctx, line, stop_pos, destination, round, lookback, best_before);
            assert(no_worse(scan.view, next.view));
            scanning_never_worsens(next, ctx, line, stop_pos + 1, destination, round, lookback, best_before);
        }
    }
}

proof fn riding_never_worsens(view: SearchView, ctx: SearchContext, line: LineRecord, stop_pos: int, n: int, destination: int, round: int, trip: usize, boarded_at: usize)
    requires
        line_valid(line, ctx.data.trips@, ctx.data.stops@.len() as int),
        ctx.data.stops@.len() <= view.best.len(),
        0 <= stop_pos,
        0 <= n <= line.stop_indices@.len() - stop_pos,
    ensures
        no_worse(view, after_ride(view, ctx, line, stop_pos, n, destination, round, trip, boarded_at)),
    decreases n,
{
    if n > 0 {
        riding_never_worsens(view, ctx, line, stop_pos, n - 1, destination, round, trip, boarded_at);
        assert(line.stop_indices@[stop_pos + n - 1] < ctx.data.stops@.len());
    }
}

} // verus!
