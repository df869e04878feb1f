//! What reported delays do to the calls of a trip.

use crate::keyed_store::StoreKey;
use crate::model::{StaticData, StopRecord, TripRecord};
use crate::order::{arranged, stable_order_covers, stable_order_exists, stable_order_of};
use crate::realtime::{
    after_trip_update, arrival_with_delay, call_is_skipped, call_key, delay_walk, departure_with_delay, first_where, placed_keys, placed_updates,
    trip_is_updated, trip_key, trip_of, update_position, updates_in_call_order, DelayWalk, RealtimeView, StopDelta, StopTimeUpdate, TripUpdate,
};
use crate::query::{day_context, trip_in_service, trip_in_services, trip_runs};
use crate::search::SearchContext;
use vstd::prelude::*;

verus! {

/// Whether a call is the first of a trip with a sequence number.
pub open spec fn first_in_sequence(trip: TripRecord, sequence: u32, p: int) -> bool {
    &&& 0 <= p < trip.stop_times@.len()
    &&& trip.stop_times@[p].stop_sequence == sequence
    &&& forall|q: int| 0 <= q < p ==> (#[trigger] trip.stop_times@[q]).stop_sequence != sequence
}

/// Whether a call is at a stop that goes by an id, within its feed or in all.
pub open spec fn calls_at(stops: Seq<StopRecord>, trip: TripRecord, stop_id: Seq<char>, p: int) -> bool {
    let stop = stops[trip.stop_times@[p].stop_index as int];
    stop.local_id@ == stop_id || stop.id@ == stop_id
}

/// Whether a call is the first of a trip at a stop that goes by an id.
pub open spec fn first_at_stop(stops: Seq<StopRecord>, trip: TripRecord, stop_id: Seq<char>, p: int) -> bool {
    &&& 0 <= p < trip.stop_times@.len()
    &&& calls_at(stops, trip, stop_id, p)
    &&& forall|q: int| 0 <= q < p ==> !#[trigger] calls_at(stops, trip, stop_id, q)
}

/// Whether a report speaks of a call of a trip: by its sequence number; where none of the
/// calls has it, or none is given, by its stop.
pub open spec fn speaks_of(stops: Seq<StopRecord>, trip: TripRecord, change: StopTimeUpdate, p: int) -> bool {
    ||| change.stop_sequence is Some && first_in_sequence(trip, change.stop_sequence->0, p)
    ||| {
        &&& change.stop_sequence is Some ==> forall|q: int| !#[trigger] first_in_sequence(trip, change.stop_sequence->0, q)
        &&& change.stop_id is Some
        &&& first_at_stop(stops, trip, change.stop_id->0@, p)
    }
}

/// Whether no two reports speak of the same call.
pub open spec fn reports_differ(stops: Seq<StopRecord>, trip: TripRecord, changes: Seq<StopTimeUpdate>) -> bool {
    forall|u: int, v: int, p: int| 0 <= u < v < changes.len() && #[trigger] speaks_of(stops, trip, changes[u], p) ==> !#[trigger] speaks_of(stops, trip, changes[v], p)
}

/// A delay, if it is of no more than six hours.
pub open spec fn believed(delay: Option<i32>) -> Option<i32> {
    if delay is Some && -21600 <= delay->0 <= 21600 { delay } else { None }
}

/// The delay that a report gives, at arrival or at departure.
pub open spec fn given_delay(change: StopTimeUpdate, at_departure: bool) -> Option<i32> {
    believed(if at_departure { change.departure_delay } else { change.arrival_delay })
}

/// Whether a report gives a delay at a call.
pub open spec fn reports_delay(stops: Seq<StopRecord>, trip: TripRecord, changes: Seq<StopTimeUpdate>, at_departure: bool, p: int, u: int) -> bool {
    &&& 0 <= u < changes.len()
    &&& speaks_of(stops, trip, changes[u], p)
    &&& given_delay(changes[u], at_departure) is Some
}

/// Whether no report gives a delay at a call.
pub open spec fn no_delay_reported(stops: Seq<StopRecord>, trip: TripRecord, changes: Seq<StopTimeUpdate>, at_departure: bool, p: int) -> bool {
    forall|u: int| !#[trigger] reports_delay(stops, trip, changes, at_departure, p, u)
}

/// Whether a delay at a call is that of a report on it or an earlier call, after which
/// none up to the call gives another.
pub open spec fn delay_comes_from(stops: Seq<StopRecord>, trip: TripRecord, update: TripUpdate, at_departure: bool, p: int, delay: Option<i32>, q: int, u: int) -> bool {
    let changes = update.stop_time_updates@;
    &&& q <= p
    &&& reports_delay(stops, trip, changes, at_departure, q, u)
    &&& forall|r: int| q < r <= p ==> #[trigger] no_delay_reported(stops, trip, changes, at_departure, r)
    &&& delay == given_delay(changes[u], at_departure)
}

/// Whether no report up to a call gives a delay.
pub open spec fn nothing_reported_up_to(stops: Seq<StopRecord>, trip: TripRecord, update: TripUpdate, at_departure: bool, p: int) -> bool {
    forall|r: int| r <= p ==> #[trigger] no_delay_reported(stops, trip, update.stop_time_updates@, at_departure, r)
}

/// Whether a delay is the one with which a trip is at a call: that of the last report up
/// to the call that gives one; where there is none, that of the trip as a whole.
pub open spec fn is_delay_at(stops: Seq<StopRecord>, trip: TripRecord, update: TripUpdate, at_departure: bool, p: int, delay: Option<i32>) -> bool {
    ||| exists|q: int, u: int| #[trigger] delay_comes_from(stops, trip, update, at_departure, p, delay, q, u)
    ||| nothing_reported_up_to(stops, trip, update, at_departure, p) && delay == believed(update.delay)
}

proof fn first_where_is_first(from: int, len: int, property: spec_fn(int) -> bool)
    requires
        from <= len,
    ensures
        match first_where(from, len, property) {
            Some(p) => from <= p < len && property(p) && forall|q: int| from <= q < p ==> !#[trigger] property(q),
            None => forall|q: int| from <= q < len ==> !#[trigger] property(q),
        },
    decreases len - from,
{
    if from < len && !property(from) {
        first_where_is_first(from + 1, len, property);
    }
}

proof fn positions_are_spoken_of(stops: Seq<StopRecord>, trip: TripRecord, change: StopTimeUpdate, p: int)
    ensures
        (update_position(stops, trip, change) == Some(p)) == speaks_of(stops, trip, change, p),
{
    let n = trip.stop_times@.len() as int;
    if change.stop_sequence is Some {
        let sequence = change.stop_sequence->0;
        let property = |i: int| trip.stop_times@[i].stop_sequence == sequence;
        first_where_is_first(0, n, property);
        match first_where(0, n, property) {
            Some(at) => {
                assert(property(at));
                assert forall|q: int| 0 <= q < at implies (#[trigger] trip.stop_times@[q]).stop_sequence != sequence by {
                    assert(!property(q));
                }
                assert(first_in_sequence(trip, sequence, at));
                if first_in_sequence(trip, sequence, p) && p != at {
                    if p < at {
                        assert(!property(p));
                    } else {
                        assert(trip.stop_times@[at].stop_sequence != sequence);
                    }
                }
            },
            None => {
                assert forall|q: int| !#[trigger] first_in_sequence(trip, sequence, q) by {
                    if 0 <= q < n {
                        assert(!property(q));
                    }
                }
            },
        }
    }
    if change.stop_id is Some {
        let given = change.stop_id->0;
        let stop_id = given@;
        let property = |i: int| {
            let stop = stops[trip.stop_times@[i].stop_index as int];
            stop.local_id@ == given@ || stop.id@ == given@
        };
        first_where_is_first(0, n, property);
        match first_where(0, n, property) {
            Some(at) => {
                assert(property(at));
                assert forall|q: int| 0 <= q < at implies !#[trigger] calls_at(stops, trip, stop_id, q) by {
                    assert(!property(q));
                }
                assert(first_at_stop(stops, trip, stop_id, at));
                if first_at_stop(stops, trip, stop_id, p) && p != at {
                    if p < at {
                        assert(!property(p));
                    } else {
                        assert(!calls_at(stops, trip, stop_id, at));
                    }
                }
            },
            None => {
                if first_at_stop(stops, trip, stop_id, p) {
                    assert(!property(p));
                }
            },
        }
    }
}

/// Whether placed reports are those that speak of calls.
spec fn well_placed(stops: Seq<StopRecord>, trip: TripRecord, changes: Seq<StopTimeUpdate>, placed: Seq<(int, int)>, n: int) -> bool {
    &&& forall|j: int| 0 <= j < placed.len() ==> 0 <= (#[trigger] placed[j]).1 < n && speaks_of(stops, trip, changes[placed[j].1], placed[j].0)
    &&& forall|u: int, p: int| 0 <= u < n && #[trigger] speaks_of(stops, trip, changes[u], p) ==> placed.contains((p, u))
}

proof fn placed_speak(stops: Seq<StopRecord>, trip: TripRecord, changes: Seq<StopTimeUpdate>, n: int)
    requires
        0 <= n <= changes.len(),
    ensures
        well_placed(stops, trip, changes, placed_updates(stops, trip, changes, n), n),
        placed_updates(stops, trip, changes, n).len() <= n,
        forall|i: int, j: int| 0 <= i < j < placed_updates(stops, trip, changes, n).len() ==> (#[trigger] placed_updates(stops, trip, changes, n)[i]).1 < (
        #[trigger] placed_updates(stops, trip, changes, n)[j]).1,
    decreases n,
{
    if n > 0 {
        placed_speak(stops, trip, changes, n - 1);
        let before = placed_updates(stops, trip, changes, n - 1);
        let placed = placed_updates(stops, trip, changes, n);
        let position = update_position(stops, trip, changes[n - 1]);
        if position is Some {
            positions_are_spoken_of(stops, trip, changes[n - 1], position->0);
            assert(placed[before.len() as int] == (position->0, n - 1));
        }
        assert forall|j: int| 0 <= j < placed.len() implies 0 <= (#[trigger] placed[j]).1 < n && speaks_of(stops, trip, changes[placed[j].1], placed[j].0) by {
            if j < before.len() {
                assert(placed[j] == before[j]);
            }
        }
        assert forall|u: int, p: int| 0 <= u < n && #[trigger] speaks_of(stops, trip, changes[u], p) implies placed.contains((p, u)) by {
            if u < n - 1 {
                let at = before.index_of((p, u));
                assert(placed[at] == (p, u));
            } else {
                positions_are_spoken_of(stops, trip, changes[u], p);
                assert(placed[before.len() as int] == (p, u));
            }
        }
        assert forall|i: int, j: int| 0 <= i < j < placed.len() implies (#[trigger] placed[i]).1 < (#[trigger] placed[j]).1 by {
            assert(placed[i] == before[i]);
            if j < before.len() {
                assert(placed[j] == before[j]);
            }
        }
    }
}

/// Whether placed reports are those that speak of calls, one call after the other.
spec fn placed_in_order(stops: Seq<StopRecord>, trip: TripRecord, changes: Seq<StopTimeUpdate>, placed: Seq<(int, int)>) -> bool {
    &&& well_placed(stops, trip, changes, placed, changes.len() as int)
    &&& forall|i: int, j: int| 0 <= i < j < placed.len() ==> (#[trigger] placed[i]).0 < (#[trigger] placed[j]).0
}

proof fn ordered_speak(stops: Seq<StopRecord>, trip: TripRecord, changes: Seq<StopTimeUpdate>)
    requires
        changes.len() <= usize::MAX,
        trip.stop_times@.len() <= usize::MAX,
        reports_differ(stops, trip, changes),
    ensures
        placed_in_order(stops, trip, changes, updates_in_call_order(stops, trip, changes)),
{
    let n = changes.len() as int;
    let placed = placed_updates(stops, trip, changes, n);
    placed_speak(stops, trip, changes, n);
    let keys = placed_keys(placed);
    stable_order_exists(keys);
    let order = stable_order_of(keys);
    stable_order_covers(keys, order);
    let sorted = arranged(placed, order);
    assert forall|j: int| 0 <= j < sorted.len() implies 0 <= (#[trigger] sorted[j]).1 < n && speaks_of(stops, trip, changes[sorted[j].1], sorted[j].0) by {
        assert(order[j] < keys.len());
        assert(sorted[j] == placed[order[j] as int]);
    }
    assert forall|u: int, p: int| 0 <= u < n && #[trigger] speaks_of(stops, trip, changes[u], p) implies sorted.contains((p, u)) by {
        let at = placed.index_of((p, u));
        assert(order.contains(at as usize));
        let k = order.index_of(at as usize);
        assert(sorted[k] == (p, u));
    }
    assert forall|i: int, j: int| 0 <= i < j < sorted.len() implies (#[trigger] sorted[i]).0 < (#[trigger] sorted[j]).0 by {
        assert(order[i] < keys.len() && order[j] < keys.len());
        let a = placed[order[i] as int];
        let b = placed[order[j] as int];
        assert(speaks_of(stops, trip, changes[a.1], a.0));
        assert(speaks_of(stops, trip, changes[b.1], b.0));
        assert(0 <= a.0 < trip.stop_times@.len() && 0 <= b.0 < trip.stop_times@.len());
        assert(keys[order[i] as int].0 == a.0 && keys[order[j] as int].0 == b.0);
        if a.0 == b.0 {
            assert(order[i] < order[j]);
            assert(a.1 < b.1);
        }
    }
}

spec fn walk_fits(stops: Seq<StopRecord>, trip: TripRecord, update: TripUpdate, placed: Seq<(int, int)>, walk: DelayWalk, n: int) -> bool {
    &&& 0 <= walk.next <= placed.len()
    &&& forall|j: int| 0 <= j < walk.next ==> (#[trigger] placed[j]).0 < n
    &&& forall|j: int| walk.next <= j < placed.len() ==> (#[trigger] placed[j]).0 >= n
    &&& is_delay_at(stops, trip, update, false, n - 1, walk.arrival)
    &&& is_delay_at(stops, trip, update, true, n - 1, walk.departure)
}

proof fn delay_goes_on(stops: Seq<StopRecord>, trip: TripRecord, update: TripUpdate, at_departure: bool, p: int, delay: Option<i32>)
    requires
        is_delay_at(stops, trip, update, at_departure, p - 1, delay),
        no_delay_reported(stops, trip, update.stop_time_updates@, at_departure, p),
    ensures
        is_delay_at(stops, trip, update, at_departure, p, delay),
{
    if exists|q: int, u: int| #[trigger] delay_comes_from(stops, trip, update, at_departure, p - 1, delay, q, u) {
        let (q, u) = choose|q: int, u: int| #[trigger] delay_comes_from(stops, trip, update, at_departure, p - 1, delay, q, u);
        assert(delay_comes_from(stops, trip, update, at_departure, p, delay, q, u));
    } else {
        assert(nothing_reported_up_to(stops, trip, update, at_departure, p));
    }
}

proof fn speakers_are_placed(stops: Seq<StopRecord>, trip: TripRecord, changes: Seq<StopTimeUpdate>, placed: Seq<(int, int)>, p: int, j: int)
    requires
        placed_in_order(stops, trip, changes, placed),
        0 <= j <= placed.len(),
        forall|k: int| 0 <= k < j ==> (#[trigger] placed[k]).0 < p,
        forall|k: int| j <= k < placed.len() ==> (#[trigger] placed[k]).0 >= p,
    ensures
        forall|u: int| 0 <= u < changes.len() && #[trigger] speaks_of(stops, trip, changes[u], p) ==> j < placed.len() && placed[j] == (p, u),
{
    assert forall|u: int| 0 <= u < changes.len() && #[trigger] speaks_of(stops, trip, changes[u], p) implies j < placed.len() && placed[j] == (p, u) by {
        let at = placed.index_of((p, u));
        assert(placed[at] == (p, u));
        if at > j {
            assert(placed[j].0 < placed[at].0);
        }
    }
}

proof fn delays_are_carried(base: Map<StoreKey, StopDelta>, t: int, stops: Seq<StopRecord>, trip: TripRecord, placed: Seq<(int, int)>, update: TripUpdate, n: int)
    requires
        placed_in_order(stops, trip, update.stop_time_updates@, placed),
        0 <= n <= trip.stop_times@.len(),
    ensures
        walk_fits(stops, trip, update, placed, delay_walk(base, t, placed, update, n), n),
    decreases n,
{
    let changes = update.stop_time_updates@;
    if n <= 0 {
        assert forall|j: int| 0 <= j < placed.len() implies (#[trigger] placed[j]).0 >= 0 by {
            assert(speaks_of(stops, trip, changes[placed[j].1], placed[j].0));
        }
        assert forall|at_departure: bool, r: int| r <= -1 implies #[trigger] no_delay_reported(stops, trip, changes, at_departure, r) by {
            assert forall|u: int| !#[trigger] reports_delay(stops, trip, changes, at_departure, r, u) by {}
        }
    } else {
        delays_are_carried(base, t, stops, trip, placed, update, n - 1);
        let walk = delay_walk(base, t, placed, update, n - 1);
        let after = delay_walk(base, t, placed, update, n);
        let p = n - 1;
        speakers_are_placed(stops, trip, changes, placed, p, walk.next);
        if walk.next < placed.len() && placed[walk.next].0 == p {
            let u = placed[walk.next].1;
            let change = changes[u];
            assert(speaks_of(stops, trip, change, p));
            assert forall|j: int| after.next <= j < placed.len() implies (#[trigger] placed[j]).0 >= n by {
                assert(placed[walk.next].0 < placed[j].0);
            }
            if given_delay(change, false) is Some {
                assert(reports_delay(stops, trip, changes, false, p, u));
                assert(delay_comes_from(stops, trip, update, false, p, after.arrival, p, u));
            } else {
                assert(no_delay_reported(stops, trip, changes, false, p)) by {
                    assert forall|v: int| !#[trigger] reports_delay(stops, trip, changes, false, p, v) by {
                        if 0 <= v < changes.len() && speaks_of(stops, trip, changes[v], p) {
                            assert(placed[walk.next] == (p, v));
                        }
                    }
                }
                delay_goes_on(stops, trip, update, false, p, walk.arrival);
            }
            if given_delay(change, true) is Some {
                assert(reports_delay(stops, trip, changes, true, p, u));
                assert(delay_comes_from(stops, trip, update, true, p, after.departure, p, u));
            } else {
                assert(no_delay_reported(stops, trip, changes, true, p)) by {
                    assert forall|v: int| !#[trigger] reports_delay(stops, trip, changes, true, p, v) by {
                        if 0 <= v < changes.len() && speaks_of(stops, trip, changes[v], p) {
                            assert(placed[walk.next] == (p, v));
                        }
                    }
                }
                delay_goes_on(stops, trip, update, true, p, walk.departure);
            }
        } else {
            assert forall|at_departure: bool, v: int| !#[trigger] reports_delay(stops, trip, changes, at_departure, p, v) by {
                if 0 <= v < changes.len() && speaks_of(stops, trip, changes[v], p) {
                    assert(placed[walk.next] == (p, v));
                }
            }
            assert(no_delay_reported(stops, trip, changes, false, p));
            assert(no_delay_reported(stops, trip, changes, true, p));
            delay_goes_on(stops, trip, update, false, p, walk.arrival);
            delay_goes_on(stops, trip, update, true, p, walk.departure);
        }
    }
}

proof fn later_calls_leave_it(base: Map<StoreKey, StopDelta>, t: int, placed: Seq<(int, int)>, update: TripUpdate, p: int, n: int)
    requires
        0 <= p < n <= u64::MAX,
        0 <= t <= u64::MAX,
    ensures
        ({
            let here = delay_walk(base, t, placed, update, p + 1).deltas;
            let after = delay_walk(base, t, placed, update, n).deltas;
            let key = call_key(t, p);
            after.dom().contains(key) == here.dom().contains(key) && (here.dom().contains(key) ==> after[key] == here[key])
        }),
    decreases n,
{
    if n > p + 1 {
        later_calls_leave_it(base, t, placed, update, p, n - 1);
        assert(call_key(t, n - 1) != call_key(t, p));
    }
}

proof fn walks_leave_others(base: Map<StoreKey, StopDelta>, t: int, placed: Seq<(int, int)>, update: TripUpdate, n: int, key: StoreKey)
    requires
        0 <= n <= u64::MAX,
        0 <= t <= u64::MAX,
        forall|q: int| 0 <= q < n ==> key != #[trigger] call_key(t, q),
    ensures
        ({
            let after = delay_walk(base, t, placed, update, n).deltas;
            after.dom().contains(key) == base.dom().contains(key) && (base.dom().contains(key) ==> after[key] == base[key])
        }),
    decreases n,
{
    if n > 0 {
        walks_leave_others(base, t, placed, update, n - 1, key);
        assert(key != call_key(t, n - 1));
    }
}

/// A trip update sets the delays of the calls of its trip: at each call that a report
/// gives a delay for, that delay; at every other that of the nearest earlier call that
/// has one, or that of the trip as a whole where none has. Times are shifted by it, and a
/// call is left out if and only if a report says so of it. (Where two reports speak of
/// one call, the later of them and all behind it are not heard.)
pub proof fn reported_delays_are_applied(view: RealtimeView, data: StaticData, feed_index: u16, update: TripUpdate, t: usize, p: int, arrival: Option<i32>, departure: Option<i32>)
    requires
        trip_of(data.trip_lookup_by_feed@, feed_index, update.trip_id) == Some(t),
        t < data.trips@.len(),
        0 <= p < data.trips@[t as int].stop_times@.len() <= usize::MAX,
        update.stop_time_updates@.len() <= usize::MAX,
        update.schedule_relationship != Some(3i32),
        reports_differ(data.stops@, data.trips@[t as int], update.stop_time_updates@),
        is_delay_at(data.stops@, data.trips@[t as int], update, false, p, arrival),
        is_delay_at(data.stops@, data.trips@[t as int], update, true, p, departure),
    ensures
        ({
            let after = after_trip_update(view, data, feed_index, update);
            let key = call_key(t as int, p);
            let call = data.trips@[t as int].stop_times@[p];
            let changes = update.stop_time_updates@;
            let spoken_of = exists|u: int| 0 <= u < changes.len() && #[trigger] speaks_of(data.stops@, data.trips@[t as int], changes[u], p);
            &&& spoken_of || arrival is Some || departure is Some ==> {
                &&& after.deltas.dom().contains(key)
                &&& after.deltas[key].arrival_delay_secs == arrival
                &&& after.deltas[key].departure_delay_secs == departure
                &&& arrival_with_delay(after, data.trips@, t as int, p) == call.arrival_secs + (if arrival is Some { arrival->0 as int } else { 0 })
                &&& departure_with_delay(after, data.trips@, t as int, p) == call.departure_secs + (if departure is Some {
                    departure->0 as int
                } else if arrival is Some {
                    arrival->0 as int
                } else {
                    0
                })
                &&& !spoken_of ==> !call_is_skipped(after, t as int, p)
            }
            &&& !spoken_of && arrival is None && departure is None ==> (after.deltas.dom().contains(key) == view.deltas.dom().contains(key) && (
            view.deltas.dom().contains(key) ==> after.deltas[key] == view.deltas[key]))
            &&& forall|u: int|
                0 <= u < changes.len() && #[trigger] speaks_of(data.stops@, data.trips@[t as int], changes[u], p) ==> call_is_skipped(after, t as int, p) == (
                changes[u].schedule_relationship == Some(1i32)) && after.deltas[key].departure_occupancy_status == changes[u].departure_occupancy_status
        }),
{
    let trip = data.trips@[t as int];
    let changes = update.stop_time_updates@;
    let stops = data.stops@;
    ordered_speak(stops, trip, changes);
    let placed = updates_in_call_order(stops, trip, changes);
    let n = trip.stop_times@.len() as int;
    delays_are_carried(view.deltas, t as int, stops, trip, placed, update, p);
    delays_are_carried(view.deltas, t as int, stops, trip, placed, update, p + 1);
    let walk = delay_walk(view.deltas, t as int, placed, update, p);
    let here = delay_walk(view.deltas, t as int, placed, update, p + 1);
    later_calls_leave_it(view.deltas, t as int, placed, update, p, n);
    let key = call_key(t as int, p);
    assert forall|q: int| 0 <= q < p implies key != #[trigger] call_key(t as int, q) by {}
    walks_leave_others(view.deltas, t as int, placed, update, p, key);
    speakers_are_placed(stops, trip, changes, placed, p, walk.next);
    delay_is_one(stops, trip, update, false, p, here.arrival, arrival);
    delay_is_one(stops, trip, update, true, p, here.departure, departure);
    if walk.next < placed.len() && placed[walk.next].0 == p {
        assert(speaks_of(stops, trip, changes[placed[walk.next].1], p));
    }
}

/// At every call of a trip there is one delay at arrival and one at departure.
pub proof fn every_call_has_one_delay(stops: Seq<StopRecord>, trip: TripRecord, update: TripUpdate, at_departure: bool, p: int)
    requires
        0 <= p < trip.stop_times@.len() <= usize::MAX,
        update.stop_time_updates@.len() <= usize::MAX,
        reports_differ(stops, trip, update.stop_time_updates@),
    ensures
        exists|delay: Option<i32>| #[trigger] is_delay_at(stops, trip, update, at_departure, p, delay),
        forall|a: Option<i32>, b: Option<i32>| #[trigger] is_delay_at(stops, trip, update, at_departure, p, a) && #[trigger] is_delay_at(stops, trip, update, at_departure, p, b)
            ==> a == b,
{
    ordered_speak(stops, trip, update.stop_time_updates@);
    let placed = updates_in_call_order(stops, trip, update.stop_time_updates@);
    let none = Map::<StoreKey, StopDelta>::empty();
    delays_are_carried(none, 0, stops, trip, placed, update, p + 1);
    let walk = delay_walk(none, 0, placed, update, p + 1);
    assert(is_delay_at(stops, trip, update, at_departure, p, if at_departure { walk.departure } else { walk.arrival }));
    assert forall|a: Option<i32>, b: Option<i32>| #[trigger] is_delay_at(stops, trip, update, at_departure, p, a) && #[trigger] is_delay_at(
        stops,
        trip,
        update,
        at_departure,
        p,
        b,
    ) implies a == b by {
        delay_is_one(stops, trip, update, at_departure, p, a, b);
    }
}

proof fn delay_is_one(stops: Seq<StopRecord>, trip: TripRecord, update: TripUpdate, at_departure: bool, p: int, a: Option<i32>, b: Option<i32>)
    requires
        reports_differ(stops, trip, update.stop_time_updates@),
        is_delay_at(stops, trip, update, at_departure, p, a),
        is_delay_at(stops, trip, update, at_departure, p, b),
    ensures
        a == b,
{
    let changes = update.stop_time_updates@;
    let found_a = exists|q: int, u: int| #[trigger] delay_comes_from(stops, trip, update, at_departure, p, a, q, u);
    let found_b = exists|q: int, u: int| #[trigger] delay_comes_from(stops, trip, update, at_departure, p, b, q, u);
    if found_a {
        let (q, u) = choose|q: int, u: int| #[trigger] delay_comes_from(stops, trip, update, at_departure, p, a, q, u);
        assert(reports_delay(stops, trip, changes, at_departure, q, u));
        if found_b {
            let (s, v) = choose|s: int, v: int| #[trigger] delay_comes_from(stops, trip, update, at_departure, p, b, s, v);
            assert(reports_delay(stops, trip, changes, at_departure, s, v));
            if q < s {
                assert(no_delay_reported(stops, trip, changes, at_departure, s));
            }
            if s < q {
                assert(no_delay_reported(stops, trip, changes, at_departure, q));
            }
            if u != v {
                assert(speaks_of(stops, trip, changes[u], q) && speaks_of(stops, trip, changes[v], q));
            }
        } else {
            assert(no_delay_reported(stops, trip, changes, at_departure, q));
        }
    } else if found_b {
        let (s, v) = choose|s: int, v: int| #[trigger] delay_comes_from(stops, trip, update, at_departure, p, b, s, v);
        assert(reports_delay(stops, trip, changes, at_departure, s, v));
        assert(no_delay_reported(stops, trip, changes, at_departure, s));
    }
}

/// A trip update changes nothing but what is known of its trip, and one for a trip that the
/// timetable does not have changes nothing.
pub proof fn updates_leave_other_trips(view: RealtimeView, data: StaticData, feed_index: u16, update: TripUpdate, other: usize, p: int)
    requires
        trip_of(data.trip_lookup_by_feed@, feed_index, update.trip_id) != Some(other),
        forall|t: int| 0 <= t < data.trips@.len() ==> (#[trigger] data.trips@[t]).stop_times@.len() <= usize::MAX,
        ({
            let found = trip_of(data.trip_lookup_by_feed@, feed_index, update.trip_id);
            found is Some ==> found->0 < data.trips@.len()
        }),
        0 <= p <= usize::MAX,
    ensures
        ({
            let after = after_trip_update(view, data, feed_index, update);
            let key = call_key(other as int, p);
            let own = trip_key(other as int);
            &&& after.deltas.dom().contains(key) == view.deltas.dom().contains(key) && (view.deltas.dom().contains(key) ==> after.deltas[key] == view.deltas[key])
            &&& after.canceled.dom().contains(own) == view.canceled.dom().contains(own)
        }),
{
    let found = trip_of(data.trip_lookup_by_feed@, feed_index, update.trip_id);
    if found is Some {
        let t = found->0;
        assert((t as int) < data.trips@.len());
        let record = data.trips@[t as int];
        let placed = updates_in_call_order(data.stops@, record, update.stop_time_updates@);
        let key = call_key(other as int, p);
        assert forall|q: int| 0 <= q < record.stop_times@.len() implies key != #[trigger] call_key(t as int, q) by {}
        walks_leave_others(view.deltas, t as int, placed, update, record.stop_times@.len() as int, key);
    }
}

/// A cancellation takes its trip out, and leaves the delays as they are.
pub proof fn cancellations_take_trips_out(view: RealtimeView, data: StaticData, feed_index: u16, update: TripUpdate, t: usize)
    requires
        trip_of(data.trip_lookup_by_feed@, feed_index, update.trip_id) == Some(t),
    ensures
        ({
            let after = after_trip_update(view, data, feed_index, update);
            &&& update.schedule_relationship == Some(3i32) ==> after.canceled.dom().contains(trip_key(t as int)) && after.deltas == view.deltas
            &&& update.schedule_relationship != Some(3i32) ==> after.canceled == view.canceled
        }),
{
}

/// A search on a day knows the delays: each trip departs and arrives as scheduled, later or
/// earlier by what was reported of the call.
pub proof fn searches_know_the_delays(ctx: SearchContext, data: StaticData, realtime: RealtimeView, services: Set<Seq<char>>, t: int, p: int)
    requires
        day_context(ctx, data, realtime, services),
        0 <= t < data.trips@.len() <= usize::MAX,
        0 <= p < data.trips@[t].stop_times@.len() <= usize::MAX,
    ensures
        ({
            let call = data.trips@[t].stop_times@[p];
            let key = call_key(t, p);
            let known = realtime.deltas.dom().contains(key);
            let delta = realtime.deltas[key];
            &&& ctx.arrival(t, p) == call.arrival_secs + (if known && delta.arrival_delay_secs is Some { delta.arrival_delay_secs->0 as int } else { 0 })
            &&& ctx.departure(t, p) == call.departure_secs + (if known && delta.departure_delay_secs is Some {
                delta.departure_delay_secs->0 as int
            } else if known && delta.arrival_delay_secs is Some {
                delta.arrival_delay_secs->0 as int
            } else {
                0
            })
        }),
{
    let key = call_key(t, p);
    assert(ctx.trip_has_realtime_update@[t] == trip_is_updated(realtime, t));
    if realtime.deltas.dom().contains(key) && realtime.deltas[key].changes_schedule() {
        assert(key.1 == t);
        assert(trip_is_updated(realtime, t));
    }
}

/// A trip can be ridden on a day if one of the services of the day has it, and it is not
/// canceled; and only then.
pub proof fn canceled_trips_do_not_run(ctx: SearchContext, data: StaticData, realtime: RealtimeView, services: Set<Seq<char>>, t: int)
    requires
        day_context(ctx, data, realtime, services),
        0 <= t < data.trips@.len(),
    ensures
        realtime.canceled.dom().contains(trip_key(t)) ==> !ctx.trip_is_available@[t],
        !realtime.canceled.dom().contains(trip_key(t)) ==> (ctx.trip_is_available@[t] <==> exists|service: Seq<char>| #[trigger]
            services.contains(service) && data.service_to_trip_indices@.dom().contains(service) && data.service_to_trip_indices@[service]@.contains(t as usize)),
{
    assert(ctx.trip_is_available@[t] == trip_runs(data, realtime, services, t));
    if trip_in_services(data.service_to_trip_indices@, services, t) {
        let service = choose|service: Seq<char>| #[trigger] services.contains(service) && trip_in_service(data.service_to_trip_indices@, service, t);
        assert(services.contains(service));
    }
    if exists|service: Seq<char>| #[trigger]
        services.contains(service) && data.service_to_trip_indices@.dom().contains(service) && data.service_to_trip_indices@[service]@.contains(t as usize) {
        let service = choose|service: Seq<char>| #[trigger]
            services.contains(service) && data.service_to_trip_indices@.dom().contains(service) && data.service_to_trip_indices@[service]@.contains(t as usize);
        assert(services.contains(service) && trip_in_service(data.service_to_trip_indices@, service, t));
    }
}

} // verus!
