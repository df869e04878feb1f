//! What a traveller is told on the way.

use crate::live::{
    events_for_news, events_for_old, events_for_olds, listeners_of, nearest_stop, ride_of, route_alternative, same_trip, with_listener, LiveLeg, UxEventView,
};
use crate::number::Real;
use crate::shape::numerically_less;
use crate::text::text_view;
use crate::text_order::text_before;
use vstd::prelude::*;
use vstd::string::*;

verus! {

/// Whether a leg of a journey is a ride on the trip of another.
pub open spec fn rides_with(legs: Seq<LiveLeg>, ride: LiveLeg, k: int) -> bool {
    0 <= k < legs.len() && legs[k].is_transit && text_view(legs[k].trip_id) == text_view(ride.trip_id)
}

/// Whether a leg of a journey is the first ride on the trip of another.
pub open spec fn first_ride_with(legs: Seq<LiveLeg>, ride: LiveLeg, k: int) -> bool {
    rides_with(legs, ride, k) && forall|j: int| 0 <= j < k ==> !#[trigger] rides_with(legs, ride, j)
}

/// Whether something of a kind is told of a leg.
pub open spec fn tells(events: Seq<UxEventView>, kind: Seq<char>, place: int) -> bool {
    exists|e: int| 0 <= e < events.len() && (#[trigger] events[e]).kind == kind && events[e].leg_index == Some(place as usize)
}

/// All that is told of a new journey in the place of an old one.
pub open spec fn all_told(old_legs: Seq<LiveLeg>, new_legs: Seq<LiveLeg>) -> Seq<UxEventView> {
    events_for_olds(old_legs, new_legs, old_legs.len() as int) + events_for_news(old_legs, new_legs, new_legs.len() as int)
}

proof fn rides_are_found(legs: Seq<LiveLeg>, ride: LiveLeg, k: int)
    requires
        0 <= k,
    ensures
        match ride_of(legs, ride, k) {
            Some(at) => k <= at < legs.len() && rides_with(legs, ride, at) && forall|j: int| k <= j < at ==> !#[trigger] rides_with(legs, ride, j),
            None => forall|j: int| k <= j < legs.len() ==> !#[trigger] rides_with(legs, ride, j),
        },
    decreases legs.len() - k,
{
    if k < legs.len() && !(legs[k].is_transit && same_trip(legs[k], ride)) {
        rides_are_found(legs, ride, k + 1);
    }
}

proof fn olds_tell(old_legs: Seq<LiveLeg>, new_legs: Seq<LiveLeg>, n: int, i: int, e: int)
    requires
        0 <= i < n <= old_legs.len(),
        old_legs[i].is_transit,
        0 <= e < events_for_old(old_legs[i], i, new_legs).len(),
    ensures
        events_for_olds(old_legs, new_legs, n).contains(events_for_old(old_legs[i], i, new_legs)[e]),
    decreases n,
{
    let event = events_for_old(old_legs[i], i, new_legs)[e];
    let before = events_for_olds(old_legs, new_legs, n - 1);
    let after = events_for_olds(old_legs, new_legs, n);
    if i < n - 1 {
        olds_tell(old_legs, new_legs, n - 1, i, e);
        let at = before.index_of(event);
        assert(after[at] == event);
    } else {
        assert(after[before.len() + e] == event);
    }
}

proof fn news_tell(old_legs: Seq<LiveLeg>, new_legs: Seq<LiveLeg>, n: int, j: int)
    requires
        0 <= j < n <= new_legs.len(),
        new_legs[j].is_transit,
        ride_of(old_legs, new_legs[j], 0) is None,
    ensures
        events_for_news(old_legs, new_legs, n).contains(route_alternative(new_legs[j], j)),
    decreases n,
{
    let event = route_alternative(new_legs[j], j);
    let before = events_for_news(old_legs, new_legs, n - 1);
    let after = events_for_news(old_legs, new_legs, n);
    if j < n - 1 {
        news_tell(old_legs, new_legs, n - 1, j);
        let at = before.index_of(event);
        assert(after[at] == event);
    } else {
        assert(after.last() == event);
    }
}

/// A traveller is told of every ride that is not in the new journey any more; of every one
/// that arrives later, or ends at another stop, than it did; and of every ride that is
/// new.
pub proof fn changes_are_told(old_legs: Seq<LiveLeg>, new_legs: Seq<LiveLeg>, i: int, k: int)
    ensures
        ({
            let told = all_told(old_legs, new_legs);
            &&& 0 <= i < old_legs.len() && old_legs[i].is_transit && (forall|j: int| !#[trigger] rides_with(new_legs, old_legs[i], j)) ==> tells(told, "TRIP_CANCELED"@, i)
            &&& 0 <= i < old_legs.len() && old_legs[i].is_transit && first_ride_with(new_legs, old_legs[i], k) && text_before(old_legs[i].arrival_time@, new_legs[k].arrival_time@)
                ==> tells(told, "DELAY_WARNING"@, k)
            &&& 0 <= i < old_legs.len() && old_legs[i].is_transit && first_ride_with(new_legs, old_legs[i], k) && old_legs[i].to_stop_id@ != new_legs[k].to_stop_id@ ==> tells(
                told,
                "EARLY_ALIGHT"@,
                k,
            )
            &&& 0 <= k < new_legs.len() && new_legs[k].is_transit && (forall|j: int| !#[trigger] rides_with(old_legs, new_legs[k], j)) ==> tells(told, "ROUTE_ALTERNATIVE"@, k)
        }),
{
    let told = all_told(old_legs, new_legs);
    let olds = events_for_olds(old_legs, new_legs, old_legs.len() as int);
    let news = events_for_news(old_legs, new_legs, new_legs.len() as int);
    if 0 <= i < old_legs.len() && old_legs[i].is_transit {
        rides_are_found(new_legs, old_legs[i], 0);
        let own = events_for_old(old_legs[i], i, new_legs);
        assert forall|e: int| 0 <= e < own.len() implies told.contains(#[trigger] own[e]) by {
            olds_tell(old_legs, new_legs, old_legs.len() as int, i, e);
            let at = olds.index_of(own[e]);
            assert(told[at] == own[e]);
        }
        if forall|j: int| !#[trigger] rides_with(new_legs, old_legs[i], j) {
            assert(ride_of(new_legs, old_legs[i], 0) is None);
            let at = told.index_of(own[0]);
            assert(told[at].kind == "TRIP_CANCELED"@);
        }
        if first_ride_with(new_legs, old_legs[i], k) {
            let found = ride_of(new_legs, old_legs[i], 0);
            assert(found == Some(k)) by {
                if found is None {
                    assert(!rides_with(new_legs, old_legs[i], k));
                } else if found->0 < k {
                    assert(!rides_with(new_legs, old_legs[i], found->0));
                } else if k < found->0 {
                    assert(!rides_with(new_legs, old_legs[i], k));
                }
            }
            if old_legs[i].to_stop_id@ != new_legs[k].to_stop_id@ {
                let at = told.index_of(own[0]);
                assert(told[at].kind == "EARLY_ALIGHT"@);
            }
            if text_before(old_legs[i].arrival_time@, new_legs[k].arrival_time@) {
                let last = own.len() - 1;
                let at = told.index_of(own[last]);
                assert(told[at].kind == "DELAY_WARNING"@);
            }
        }
    }
    if 0 <= k < new_legs.len() && new_legs[k].is_transit && (forall|j: int| !#[trigger] rides_with(old_legs, new_legs[k], j)) {
        rides_are_found(old_legs, new_legs[k], 0);
        news_tell(old_legs, new_legs, new_legs.len() as int, k);
        let event = route_alternative(new_legs[k], k);
        let at = news.index_of(event);
        assert(told[olds.len() + at] == event);
    }
}

/// Who subscribes to trips is told of each of them, and nobody who was told before is
/// forgotten.
pub proof fn subscribers_are_told(listeners: Map<usize, Seq<usize>>, trips: Seq<usize>, socket: usize, n: int, k: int, trip: usize, other: usize)
    requires
        0 <= n <= trips.len(),
    ensures
        0 <= k < n ==> listeners_of(with_listener(listeners, trips, socket, n), trips[k]).contains(socket),
        listeners_of(listeners, trip).contains(other) ==> listeners_of(with_listener(listeners, trips, socket, n), trip).contains(other),
        !trips.contains(trip) ==> listeners_of(with_listener(listeners, trips, socket, n), trip) == listeners_of(listeners, trip),
    decreases n,
{
    if n > 0 {
        subscribers_are_told(listeners, trips, socket, n - 1, k, trip, other);
        let before = with_listener(listeners, trips, socket, n - 1);
        let after = with_listener(listeners, trips, socket, n);
        let last = trips[n - 1];
        assert(listeners_of(after, last).last() == socket);
        assert(listeners_of(after, last).contains(socket));
        if listeners_of(listeners, trip).contains(other) && trip == last {
            let at = listeners_of(before, trip).index_of(other);
            assert(listeners_of(after, trip)[at] == other);
        }
        assert(trips.contains(last));
    }
}

/// No stop is nearer to a traveller than the one that is taken to be the nearest.
pub proof fn nearest_stops_are_nearest(distances: Seq<Real>, n: int, i: int)
    requires
        0 <= i < n <= distances.len(),
    ensures
        !numerically_less(distances[i], nearest_stop(distances, n).1),
        nearest_stop(distances, n).1 == distances[nearest_stop(distances, n).0] || nearest_stop(distances, n) == nearest_stop(distances, 0),
        0 <= nearest_stop(distances, n).0 < n,
    decreases n,
{
    if n > 1 {
        nearest_stops_are_nearest(distances, n - 1, if i < n - 1 { i } else { 0 });
    } else {
        assert(nearest_stop(distances, 0).0 == 0);
    }
}

} // verus!
