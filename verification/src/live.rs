//! What is told to travellers on their way.

use crate::clock::{moment_of_text, parse_moment};
use crate::keyed_store::{KeyedStore, StoreKey};
use crate::number::Real;
use crate::shape::numerically_less;
use crate::text::{contains_text, joined, occurs_in, same_optional_text, same_text, text_view};
use crate::text_order::{comes_before, text_before};
use vstd::prelude::*;

verus! {

/// A leg as a traveller was told of it.
#[derive(Clone, Debug)]
pub struct LiveLeg {
    pub is_transit: bool,
    pub trip_id: Option<String>,
    pub route_label: Option<String>,
    pub headsign: Option<String>,
    pub to_stop_id: String,
    pub to_stop_name: String,
    pub intermediate_stop_count: usize,
    pub departure_time: String,
    pub arrival_time: String,
    pub has_realtime_update: bool,
}

/// Something that a traveller is told.
#[derive(Clone, Debug)]
pub struct UxEvent {
    pub kind: String,
    pub message: String,
    pub leg_index: Option<usize>,
    pub stops_remaining: Option<usize>,
    pub alighting_stop_name: Option<String>,
}

/// What a traveller is told.
pub struct UxEventView {
    pub kind: Seq<char>,
    pub message: Seq<char>,
    pub leg_index: Option<usize>,
    pub stops_remaining: Option<usize>,
    pub alighting_stop_name: Option<Seq<char>>,
}

impl UxEvent {
    /// What the traveller is told.
    pub open spec fn view(&self) -> UxEventView {
        UxEventView {
            kind: self.kind@,
            message: self.message@,
            leg_index: self.leg_index,
            stops_remaining: self.stops_remaining,
            alighting_stop_name: text_view(self.alighting_stop_name),
        }
    }
}

/// What a traveller is told, all of it.
pub open spec fn events_view(events: Seq<UxEvent>) -> Seq<UxEventView> {
    Seq::new(events.len(), |i: int| events[i]@)
}

/// A text, or else another.
pub open spec fn text_or(text: Option<String>, other: Seq<char>) -> Seq<char> {
    match text {
        Some(value) => value@,
        None => other,
    }
}

fn append_or(message: &mut String, text: &Option<String>, other: &str)
    ensures
        final(message)@ == old(message)@ + text_or(*text, other@),
{
    match text {
        Some(value) => {
            message.append(value.as_str());
        },
        None => {
            message.append(other);
        },
    }
}

/// Whether two rides are on the same trip.
pub open spec fn same_trip(a: LiveLeg, b: LiveLeg) -> bool {
    text_view(a.trip_id) == text_view(b.trip_id)
}

/// The first ride of a journey, from the `k`th leg on, on the trip of another.
pub open spec fn ride_of(legs: Seq<LiveLeg>, ride: LiveLeg, k: int) -> Option<int>
    decreases legs.len() - k,
{
    if k < 0 || k >= legs.len() {
        None
    } else if legs[k].is_transit && same_trip(legs[k], ride) {
        Some(k)
    } else {
        ride_of(legs, ride, k + 1)
    }
}

/// What is told where a ride ends at another stop.
pub open spec fn early_alight(old_leg: LiveLeg, new_leg: LiveLeg, place: int) -> UxEventView {
    UxEventView {
        kind: "EARLY_ALIGHT"@,
        message: "Attenzione: scendi a "@ + new_leg.to_stop_name@ + " anziché a "@ + old_leg.to_stop_name@ + " per non perdere le coincidenze."@,
        leg_index: Some(place as usize),
        stops_remaining: Some(new_leg.intermediate_stop_count),
        alighting_stop_name: Some(new_leg.to_stop_name@),
    }
}

/// What is told where a ride ends later.
pub open spec fn delay_warning(old_leg: LiveLeg, new_leg: LiveLeg, place: int) -> UxEventView {
    UxEventView {
        kind: "DELAY_WARNING"@,
        message: "Il bus "@ + text_or(new_leg.route_label, ""@) + " arriverà a "@ + new_leg.to_stop_name@ + " alle "@ + new_leg.arrival_time@ + " anziché alle "@
            + old_leg.arrival_time@ + "."@,
        leg_index: Some(place as usize),
        stops_remaining: None,
        alighting_stop_name: None,
    }
}

/// What is told where a ride is not there any more.
pub open spec fn trip_canceled(old_leg: LiveLeg, place: int) -> UxEventView {
    UxEventView {
        kind: "TRIP_CANCELED"@,
        message: "La tua corsa "@ + text_or(old_leg.route_label, ""@) + " è stata soppressa o non è più valida."@,
        leg_index: Some(place as usize),
        stops_remaining: None,
        alighting_stop_name: None,
    }
}

/// What is told of a ride that was not there before.
pub open spec fn route_alternative(new_leg: LiveLeg, place: int) -> UxEventView {
    UxEventView {
        kind: "ROUTE_ALTERNATIVE"@,
        message: "Prendi il "@ + text_or(new_leg.route_label, "bus"@) + " in direzione "@ + text_or(new_leg.headsign, "sconosciuta"@) + "."@,
        leg_index: Some(place as usize),
        stops_remaining: None,
        alighting_stop_name: None,
    }
}

/// What is told of the ride of an old journey in a place, by the new journey.
pub open spec fn events_for_old(old_leg: LiveLeg, place: int, new_legs: Seq<LiveLeg>) -> Seq<UxEventView> {
    match ride_of(new_legs, old_leg, 0) {
        None => seq![trip_canceled(old_leg, place)],
        Some(k) => {
            let new_leg = new_legs[k];
            let alight = if old_leg.to_stop_id@ != new_leg.to_stop_id@ { seq![early_alight(old_leg, new_leg, k)] } else { Seq::empty() };
            if text_before(old_leg.arrival_time@, new_leg.arrival_time@) { alight.push(delay_warning(old_leg, new_leg, k)) } else { alight }
        },
    }
}

/// What is told of the rides among the first `n` legs of an old journey.
pub open spec fn events_for_olds(old_legs: Seq<LiveLeg>, new_legs: Seq<LiveLeg>, n: int) -> Seq<UxEventView>
    decreases n,
{
    if n <= 0 {
        Seq::empty()
    } else {
        let before = events_for_olds(old_legs, new_legs, n - 1);
        if old_legs[n - 1].is_transit { before + events_for_old(old_legs[n - 1], n - 1, new_legs) } else { before }
    }
}

/// What is told of the rides among the first `n` legs of a new journey that are
/// not in the old one.
pub open spec fn events_for_news(old_legs: Seq<LiveLeg>, new_legs: Seq<LiveLeg>, n: int) -> Seq<UxEventView>
    decreases n,
{
    if n <= 0 {
        Seq::empty()
    } else {
        let before = events_for_news(old_legs, new_legs, n - 1);
        let leg = new_legs[n - 1];
        if leg.is_transit && ride_of(old_legs, leg, 0) is None { before.push(route_alternative(leg, n - 1)) } else { before }
    }
}

fn find_ride(legs: &Vec<LiveLeg>, ride: &LiveLeg) -> (place: Option<usize>)
    ensures
        match place {
            Some(k) => ride_of(legs@, *ride, 0) == Some(k as int) && k < legs@.len(),
            None => ride_of(legs@, *ride, 0) is None,
        },
{
    let mut k: usize = 0;
    while k < legs.len()
        invariant
            k <= legs@.len(),
            ride_of(legs@, *ride, 0) == ride_of(legs@, *ride, k as int),
        decreases legs.len() - k,
    {
        if legs[k].is_transit && same_optional_text(&legs[k].trip_id, &ride.trip_id) {
            return Some(k);
        }
        k = k + 1;
    }
    None
}

fn push_event(events: &mut Vec<UxEvent>, event: UxEvent)
    ensures
        events_view(final(events)@) == events_view(old(events)@).push(event@),
{
    let ghost before = events@;
    events.push(event);
    assert(events_view(events@) =~= events_view(before).push(event@));
}

fn tell_early_alight(old_leg: &LiveLeg, new_leg: &LiveLeg, place: usize) -> (event: UxEvent)
    ensures
        event@ == early_alight(*old_leg, *new_leg, place as int),
{
    let mut message: String = joined("Attenzione: scendi a ", new_leg.to_stop_name.as_str());
    message.append(" anziché a ");
    message.append(old_leg.to_stop_name.as_str());
    message.append(" per non perdere le coincidenze.");
    UxEvent {
        kind: "EARLY_ALIGHT".to_owned(),
        message: message,
        leg_index: Some(place),
        stops_remaining: Some(new_leg.intermediate_stop_count),
        alighting_stop_name: Some(new_leg.to_stop_name.clone()),
    }
}

fn tell_delay(old_leg: &LiveLeg, new_leg: &LiveLeg, place: usize) -> (event: UxEvent)
    ensures
        event@ == delay_warning(*old_leg, *new_leg, place as int),
{
    let mut message: String = "Il bus ".to_owned();
    append_or(&mut message, &new_leg.route_label, "");
    message.append(" arriverà a ");
    message.append(new_leg.to_stop_name.as_str());
    message.append(" alle ");
    message.append(new_leg.arrival_time.as_str());
    message.append(" anziché alle ");
    message.append(old_leg.arrival_time.as_str());
    message.append(".");
    UxEvent { kind: "DELAY_WARNING".to_owned(), message: message, leg_index: Some(place), stops_remaining: None, alighting_stop_name: None }
}

fn tell_canceled(old_leg: &LiveLeg, place: usize) -> (event: UxEvent)
    ensures
        event@ == trip_canceled(*old_leg, place as int),
{
    let mut message: String = "La tua corsa ".to_owned();
    append_or(&mut message, &old_leg.route_label, "");
    message.append(" è stata soppressa o non è più valida.");
    UxEvent { kind: "TRIP_CANCELED".to_owned(), message: message, leg_index: Some(place), stops_remaining: None, alighting_stop_name: None }
}

fn tell_alternative(new_leg: &LiveLeg, place: usize) -> (event: UxEvent)
    ensures
        event@ == route_alternative(*new_leg, place as int),
{
    let mut message: String = "Prendi il ".to_owned();
    append_or(&mut message, &new_leg.route_label, "bus");
    message.append(" in direzione ");
    append_or(&mut message, &new_leg.headsign, "sconosciuta");
    message.append(".");
    UxEvent { kind: "ROUTE_ALTERNATIVE".to_owned(), message: message, leg_index: Some(place), stops_remaining: None, alighting_stop_name: None }
}

/// Tells a traveller what is different in a new journey: rides that are gone, end
/// elsewhere or later, and rides that are new.
pub fn diff_itineraries(old_legs: &Vec<LiveLeg>, new_legs: &Vec<LiveLeg>) -> (events: Vec<UxEvent>)
    ensures
        events_view(events@) == events_for_olds(old_legs@, new_legs@, old_legs@.len() as int) + events_for_news(old_legs@, new_legs@, new_legs@.len() as int),
{
    let mut events: Vec<UxEvent> = Vec::new();
    assert(events_view(events@) =~= Seq::<UxEventView>::empty());
    let mut i: usize = 0;
    while i < old_legs.len()
        invariant
            i <= old_legs@.len(),
            events_view(events@) == events_for_olds(old_legs@, new_legs@, i as int),
        decreases old_legs.len() - i,
    {
        let old_leg: &LiveLeg = &old_legs[i];
        let ghost before = events_view(events@);
        if old_leg.is_transit {
            match find_ride(new_legs, old_leg) {
                None => {
                    push_event(&mut events, tell_canceled(old_leg, i));
                    assert(events_view(events@) =~= before + events_for_old(*old_leg, i as int, new_legs@));
                },
                Some(k) => {
                    let new_leg: &LiveLeg = &new_legs[k];
                    if !same_text(old_leg.to_stop_id.as_str(), new_leg.to_stop_id.as_str()) {
                        push_event(&mut events, tell_early_alight(old_leg, new_leg, k));
                    }
                    if comes_before(old_leg.arrival_time.as_str(), new_leg.arrival_time.as_str()) {
                        push_event(&mut events, tell_delay(old_leg, new_leg, k));
                    }
                    assert(events_view(events@) =~= before + events_for_old(*old_leg, i as int, new_legs@));
                },
            }
        }
        i = i + 1;
    }
    let ghost olds = events_view(events@);
    let mut n: usize = 0;
    assert(olds + events_for_news(old_legs@, new_legs@, 0) =~= olds);
    while n < new_legs.len()
        invariant
            n <= new_legs@.len(),
            events_view(events@) == olds + events_for_news(old_legs@, new_legs@, n as int),
        decreases new_legs.len() - n,
    {
        let leg: &LiveLeg = &new_legs[n];
        if leg.is_transit && find_ride(old_legs, leg).is_none() {
            push_event(&mut events, tell_alternative(leg, n));
            assert(events_view(events@) =~= olds + events_for_news(old_legs@, new_legs@, n as int).push(route_alternative(*leg, n as int)));
        }
        n = n + 1;
    }
    events
}

/// A traveller whose journey stays as it is, is told nothing, unless two rides of
/// it are on the same trip.
pub proof fn unchanged_journeys_tell_nothing(legs: Seq<LiveLeg>, n: int)
    requires
        0 <= n <= legs.len(),
        forall|i: int, j: int| 0 <= i < j < legs.len() && (#[trigger] legs[i]).is_transit && (#[trigger] legs[j]).is_transit ==> !same_trip(legs[i], legs[j]),
    ensures
        events_for_olds(legs, legs, n) == Seq::<UxEventView>::empty(),
        events_for_news(legs, legs, n) == Seq::<UxEventView>::empty(),
    decreases n,
{
    if n > 0 {
        unchanged_journeys_tell_nothing(legs, n - 1);
        if legs[n - 1].is_transit {
            own_ride_is_found(legs, n - 1, 0);
            crate::text_order::text_order_is_total(legs[n - 1].arrival_time@, legs[n - 1].arrival_time@);
            assert(events_for_old(legs[n - 1], n - 1, legs) =~= Seq::<UxEventView>::empty());
        }
        assert(events_for_olds(legs, legs, n) =~= Seq::<UxEventView>::empty());
    }
}

proof fn own_ride_is_found(legs: Seq<LiveLeg>, at: int, k: int)
    requires
        0 <= k <= at < legs.len(),
        legs[at].is_transit,
        forall|i: int, j: int| 0 <= i < j < legs.len() && (#[trigger] legs[i]).is_transit && (#[trigger] legs[j]).is_transit ==> !same_trip(legs[i], legs[j]),
    ensures
        ride_of(legs, legs[at], k) == Some(at),
    decreases at - k,
{
    if k < at {
        own_ride_is_found(legs, at, k + 1);
    }
}

/// The first ride of a journey from a leg on.
pub open spec fn next_ride(legs: Seq<LiveLeg>, k: int) -> Option<int>
    decreases legs.len() - k,
{
    if k < 0 || k >= legs.len() {
        None
    } else if legs[k].is_transit {
        Some(k)
    } else {
        next_ride(legs, k + 1)
    }
}

/// Finds the first ride of a journey from a leg on.
pub fn next_transit_leg(legs: &Vec<LiveLeg>, current_leg_index: usize) -> (ride: Option<usize>)
    ensures
        match ride {
            Some(k) => next_ride(legs@, current_leg_index as int) == Some(k as int) && k < legs@.len(),
            None => next_ride(legs@, current_leg_index as int) is None,
        },
{
    let mut k: usize = current_leg_index;
    while k < legs.len()
        invariant
            next_ride(legs@, current_leg_index as int) == next_ride(legs@, k as int),
        decreases legs.len() - k,
    {
        if legs[k].is_transit {
            return Some(k);
        }
        k = k + 1;
    }
    None
}

/// A vehicle as a traveller sees it: the trip that it says it is on, and how far
/// away it is, where its place is known.
#[derive(Clone, Debug)]
pub struct SeenVehicle {
    pub trip_id: Option<String>,
    pub distance: Option<Real>,
}

/// Whether a vehicle is on a trip: it says so, or what it says holds the id of
/// the trip.
pub open spec fn is_on_trip(vehicle: SeenVehicle, trip_id: Seq<char>) -> bool {
    vehicle.trip_id is Some && (vehicle.trip_id->0@ == trip_id || occurs_in(trip_id, vehicle.trip_id->0@))
}

/// The first vehicle, from the `k`th on, that is on a trip.
pub open spec fn vehicle_of(vehicles: Seq<SeenVehicle>, trip_id: Seq<char>, k: int) -> Option<int>
    decreases vehicles.len() - k,
{
    if k < 0 || k >= vehicles.len() {
        None
    } else if is_on_trip(vehicles[k], trip_id) {
        Some(k)
    } else {
        vehicle_of(vehicles, trip_id, k + 1)
    }
}

fn find_vehicle(vehicles: &Vec<SeenVehicle>, trip_id: &str) -> (vehicle: Option<usize>)
    ensures
        match vehicle {
            Some(k) => vehicle_of(vehicles@, trip_id@, 0) == Some(k as int) && k < vehicles@.len(),
            None => vehicle_of(vehicles@, trip_id@, 0) is None,
        },
{
    let mut k: usize = 0;
    while k < vehicles.len()
        invariant
            k <= vehicles@.len(),
            vehicle_of(vehicles@, trip_id@, 0) == vehicle_of(vehicles@, trip_id@, k as int),
        decreases vehicles.len() - k,
    {
        let on_trip: bool = match &vehicles[k].trip_id {
            Some(trip) => same_text(trip.as_str(), trip_id) || contains_text(trip.as_str(), trip_id),
            None => false,
        };
        if on_trip {
            return Some(k);
        }
        k = k + 1;
    }
    None
}

/// The bits of 80.
pub const BOARDING_DISTANCE_METERS: u64 = 4635329916471083008;

/// Whether a traveller is within 80 metres of the vehicle of a ride: the first of
/// the vehicles that is on its trip.
pub open spec fn is_near_vehicle(ride: LiveLeg, vehicles: Seq<SeenVehicle>) -> bool {
    ride.trip_id is Some && match vehicle_of(vehicles, ride.trip_id->0@, 0) {
        Some(k) => vehicles[k].distance is Some && numerically_less(vehicles[k].distance->0, Real { bits: BOARDING_DISTANCE_METERS }),
        None => false,
    }
}

/// Whether a traveller counts as having boarded: the vehicle is near, or no feed
/// speaks of the ride and its departure has passed. Moments are in milliseconds.
pub open spec fn counts_as_boarded(ride: LiveLeg, departure: Option<i64>, vehicles: Seq<SeenVehicle>, now: i64) -> bool {
    is_near_vehicle(ride, vehicles) || departure is Some && now >= departure->0 && !ride.has_realtime_update
}

/// Decides whether a traveller has boarded a ride, given its departure where it
/// could be read.
pub fn has_boarded(ride: &LiveLeg, departure: Option<i64>, vehicles: &Vec<SeenVehicle>, now: i64) -> (boarded: bool)
    ensures
        boarded == counts_as_boarded(*ride, departure, vehicles@, now),
{
    let near: bool = match &ride.trip_id {
        Some(trip_id) => match find_vehicle(vehicles, trip_id.as_str()) {
            Some(k) => match vehicles[k].distance {
                Some(distance) => distance.less_than(Real { bits: BOARDING_DISTANCE_METERS }),
                None => false,
            },
            None => false,
        },
        None => false,
    };
    let departed: bool = match departure {
        Some(moment) => now >= moment,
        None => false,
    };
    near || departed && !ride.has_realtime_update
}

/// The bits of the greatest number.
pub const GREATEST_NUMBER: u64 = 9218868437227405311;

/// The nearest of the first `n` stops, and its distance; the first stop where
/// none is at a distance below the greatest number.
pub open spec fn nearest_stop(distances: Seq<Real>, n: int) -> (int, Real)
    decreases n,
{
    if n <= 0 {
        (0, Real { bits: GREATEST_NUMBER })
    } else {
        let best = nearest_stop(distances, n - 1);
        if numerically_less(distances[n - 1], best.1) { (n - 1, distances[n - 1]) } else { best }
    }
}

/// Where a traveller is on a ride: the stop that is nearest, and how many are
/// left behind it. Nothing is told where no stop has a place.
pub fn stop_update(distances: &Vec<Real>) -> (update: Option<(usize, usize)>)
    ensures
        match update {
            Some((nearest, remaining)) => {
                &&& distances@.len() > 0
                &&& nearest == nearest_stop(distances@, distances@.len() as int).0
                &&& nearest < distances@.len()
                &&& remaining == distances@.len() - nearest - 1
            },
            None => distances@.len() == 0,
        },
{
    if distances.len() == 0 {
        return None;
    }
    let mut nearest: usize = 0;
    let mut least: Real = Real { bits: GREATEST_NUMBER };
    let mut i: usize = 0;
    while i < distances.len()
        invariant
            i <= distances@.len(),
            distances@.len() > 0,
            nearest < distances@.len(),
            (nearest as int, least) == nearest_stop(distances@, i as int),
        decreases distances.len() - i,
    {
        if distances[i].less_than(least) {
            least = distances[i];
            nearest = i;
        }
        i = i + 1;
    }
    Some((nearest, distances.len() - nearest - 1))
}

/// What is made of where a traveller is.
#[derive(Clone, Copy, Debug, PartialEq, Eq, Structural)]
pub enum Detection {
    /// The traveller boarded the ride in this place.
    Boarded { leg_index: usize },
    /// The traveller is at this one of the stops that have a place.
    AtStop { nearest: usize, stops_remaining: usize },
    Nothing,
}

/// What is made of where a traveller is who is not found to have boarded: on a
/// ride, the nearest of its stops.
pub open spec fn place_on_ride(legs: Seq<LiveLeg>, current: int, distances: Seq<Real>) -> Detection {
    if current < legs.len() && legs[current].is_transit && distances.len() > 0 {
        let nearest = nearest_stop(distances, distances.len() as int).0;
        Detection::AtStop { nearest: nearest as usize, stops_remaining: (distances.len() - nearest - 1) as usize }
    } else {
        Detection::Nothing
    }
}

/// Detects whether a traveller has boarded the next ride, and else, on a ride, at
/// which stop they are. `distances` are those to the stops of the current leg
/// that have a place, `now` is in milliseconds.
pub fn detect_boarding_and_stops(
    legs: &Vec<LiveLeg>,
    current_leg_index: usize,
    vehicles: &Vec<SeenVehicle>,
    now: i64,
    distances: &Vec<Real>,
) -> (detection: Detection)
    ensures
        detection == match next_ride(legs@, current_leg_index as int) {
            Some(k) => if counts_as_boarded(legs@[k], moment_of_text(legs@[k].departure_time@), vehicles@, now) {
                Detection::Boarded { leg_index: k as usize }
            } else {
                place_on_ride(legs@, current_leg_index as int, distances@)
            },
            None => place_on_ride(legs@, current_leg_index as int, distances@),
        },
{
    match next_transit_leg(legs, current_leg_index) {
        Some(k) => {
            let departure: Option<i64> = parse_moment(legs[k].departure_time.as_str());
            if has_boarded(&legs[k], departure, vehicles, now) {
                return Detection::Boarded { leg_index: k };
            }
        },
        None => {},
    }
    if current_leg_index < legs.len() && legs[current_leg_index].is_transit {
        match stop_update(distances) {
            Some((nearest, stops_remaining)) => Detection::AtStop { nearest: nearest, stops_remaining: stops_remaining },
            None => Detection::Nothing,
        }
    } else {
        Detection::Nothing
    }
}

/// Who is told of changes to which trips.
pub struct Subscriptions {
    by_trip: KeyedStore<Vec<usize>>,
}

/// Under which key the listeners of a trip are kept.
pub open spec fn trip_key(trip: usize) -> StoreKey {
    (0, trip as u64, 0)
}

/// The listeners of trips as sequences.
pub open spec fn listeners_view(by_trip: Map<StoreKey, Vec<usize>>) -> Map<usize, Seq<usize>> {
    Map::new(|trip: usize| by_trip.dom().contains(trip_key(trip)), |trip: usize| by_trip[trip_key(trip)]@)
}

/// The listeners of a trip.
pub open spec fn listeners_of(listeners: Map<usize, Seq<usize>>, trip: usize) -> Seq<usize> {
    if listeners.dom().contains(trip) { listeners[trip] } else { Seq::empty() }
}

/// Who is told of what after a listener was added to the first `n` of trips.
pub open spec fn with_listener(listeners: Map<usize, Seq<usize>>, trips: Seq<usize>, socket: usize, n: int) -> Map<usize, Seq<usize>>
    decreases n,
{
    if n <= 0 {
        listeners
    } else {
        let before = with_listener(listeners, trips, socket, n - 1);
        before.insert(trips[n - 1], listeners_of(before, trips[n - 1]).push(socket))
    }
}

/// A list without a listener.
pub open spec fn without(list: Seq<usize>, socket: usize, n: int) -> Seq<usize>
    decreases n,
{
    if n <= 0 {
        Seq::empty()
    } else if list[n - 1] == socket {
        without(list, socket, n - 1)
    } else {
        without(list, socket, n - 1).push(list[n - 1])
    }
}

/// Who is told of what after a listener was taken from the first `n` of trips.
pub open spec fn without_listener(listeners: Map<usize, Seq<usize>>, trips: Seq<usize>, socket: usize, n: int) -> Map<usize, Seq<usize>>
    decreases n,
{
    if n <= 0 {
        listeners
    } else {
        let before = without_listener(listeners, trips, socket, n - 1);
        if before.dom().contains(trips[n - 1]) {
            before.insert(trips[n - 1], without(before[trips[n - 1]], socket, before[trips[n - 1]].len() as int))
        } else {
            before
        }
    }
}

fn drop_socket(list: &Vec<usize>, socket: usize) -> (kept: Vec<usize>)
    ensures
        kept@ == without(list@, socket, list@.len() as int),
{
    let mut kept: Vec<usize> = Vec::new();
    let mut i: usize = 0;
    assert(kept@ =~= Seq::<usize>::empty());
    while i < list.len()
        invariant
            i <= list@.len(),
            kept@ == without(list@, socket, i as int),
        decreases list.len() - i,
    {
        if list[i] != socket {
            kept.push(list[i]);
        }
        i = i + 1;
    }
    kept
}

impl Subscriptions {
    /// Who is told of what.
    pub closed spec fn view(&self) -> Map<usize, Seq<usize>> {
        listeners_view(self.by_trip@)
    }

    /// The store can be searched.
    pub closed spec fn wf(&self) -> bool {
        self.by_trip.wf()
    }

    /// Nobody is told of anything.
    pub fn new() -> (subscriptions: Subscriptions)
        ensures
            subscriptions.wf(),
            subscriptions@ == Map::<usize, Seq<usize>>::empty(),
    {
        let subscriptions: Subscriptions = Subscriptions { by_trip: KeyedStore::new() };
        assert(subscriptions@ =~= Map::<usize, Seq<usize>>::empty());
        subscriptions
    }

    /// Has a listener told of trips.
    pub fn subscribe(&mut self, trips: &Vec<usize>, socket: usize)
        requires
            old(self).wf(),
        ensures
            final(self).wf(),
            final(self)@ == with_listener(old(self)@, trips@, socket, trips@.len() as int),
    {
        let ghost start = self@;
        let mut i: usize = 0;
        while i < trips.len()
            invariant
                i <= trips@.len(),
                self.wf(),
                self@ == with_listener(start, trips@, socket, i as int),
            decreases trips.len() - i,
        {
            let trip: usize = trips[i];
            let mut list: Vec<usize> = self.listeners(trip);
            let ghost before = self@;
            list.push(socket);
            self.put(trip, list);
            assert(self@ == before.insert(trip, listeners_of(before, trip).push(socket)));
            i = i + 1;
        }
    }

    fn put(&mut self, trip: usize, list: Vec<usize>)
        requires
            old(self).wf(),
        ensures
            final(self).wf(),
            final(self)@ == old(self)@.insert(trip, list@),
    {
        self.by_trip.insert((0, trip as u64, 0), list);
        assert(self@ =~= old(self)@.insert(trip, list@));
    }

    fn has_listeners(&self, trip: usize) -> (kept: bool)
        requires
            self.wf(),
        ensures
            kept == self@.dom().contains(trip),
    {
        self.by_trip.get((0, trip as u64, 0)).is_some()
    }

    /// Has a listener no longer told of trips.
    pub fn unsubscribe(&mut self, trips: &Vec<usize>, socket: usize)
        requires
            old(self).wf(),
        ensures
            final(self).wf(),
            final(self)@ == without_listener(old(self)@, trips@, socket, trips@.len() as int),
    {
        let ghost start = self@;
        let mut i: usize = 0;
        while i < trips.len()
            invariant
                i <= trips@.len(),
                self.wf(),
                self@ == without_listener(start, trips@, socket, i as int),
            decreases trips.len() - i,
        {
            let trip: usize = trips[i];
            if self.has_listeners(trip) {
                let kept: Vec<usize> = drop_socket(&self.listeners(trip), socket);
                self.put(trip, kept);
            }
            i = i + 1;
        }
    }

    /// Who is told of a trip.
    pub fn listeners(&self, trip: usize) -> (list: Vec<usize>)
        requires
            self.wf(),
        ensures
            list@ == listeners_of(self@, trip),
    {
        let mut copy: Vec<usize> = Vec::new();
        match self.by_trip.get((0, trip as u64, 0)) {
            Some(list) => {
                let mut i: usize = 0;
                while i < list.len()
                    invariant
                        i <= list@.len(),
                        copy@ =~= list@.take(i as int),
                    decreases list.len() - i,
                {
                    copy.push(list[i]);
                    i = i + 1;
                }
                assert(copy@ =~= list@);
            },
            None => {},
        }
        copy
    }
}

proof fn dropped_is_gone(list: Seq<usize>, socket: usize, n: int)
    requires
        0 <= n <= list.len(),
    ensures
        !without(list, socket, n).contains(socket),
        forall|other: usize| other != socket ==> (#[trigger] without(list, socket, n).contains(other) <==> list.take(n).contains(other)),
    decreases n,
{
    if n > 0 {
        dropped_is_gone(list, socket, n - 1);
        let before = without(list, socket, n - 1);
        let after = without(list, socket, n);
        assert(list.take(n) =~= list.take(n - 1).push(list[n - 1]));
        assert forall|other: usize| after.contains(other) <==> (before.contains(other) || other == list[n - 1] && other != socket) by {
            if before.contains(other) {
                let k = before.index_of(other);
                assert(after[k] == other);
            }
            if other == list[n - 1] && other != socket {
                assert(after[after.len() - 1] == other);
            }
        }
        assert forall|other: usize| list.take(n).contains(other) <==> (list.take(n - 1).contains(other) || other == list[n - 1]) by {
            if list.take(n - 1).contains(other) {
                let k = list.take(n - 1).index_of(other);
                assert(list.take(n)[k] == other);
            }
            if other == list[n - 1] {
                assert(list.take(n)[n - 1] == other);
            }
        }
    }
}

/// A listener that is taken from trips is told of none of them any more; whoever
/// else was told of them still is, and nothing changes for other trips.
pub proof fn unsubscribed_hear_nothing(listeners: Map<usize, Seq<usize>>, trips: Seq<usize>, socket: usize, n: int)
    requires
        0 <= n <= trips.len(),
    ensures
        forall|i: int| 0 <= i < n ==> !listeners_of(without_listener(listeners, trips, socket, n), #[trigger] trips[i]).contains(socket),
        forall|trip: usize, other: usize|
            other != socket ==> (#[trigger] listeners_of(without_listener(listeners, trips, socket, n), trip).contains(other) <==> listeners_of(listeners, trip).contains(other)),
        forall|trip: usize| !trips.take(n).contains(trip) ==> listeners_of(without_listener(listeners, trips, socket, n), trip) == #[trigger] listeners_of(listeners, trip),
    decreases n,
{
    if n > 0 {
        unsubscribed_hear_nothing(listeners, trips, socket, n - 1);
        let before = without_listener(listeners, trips, socket, n - 1);
        let after = without_listener(listeners, trips, socket, n);
        let last = trips[n - 1];
        let list = listeners_of(before, last);
        dropped_is_gone(list, socket, list.len() as int);
        assert(list.take(list.len() as int) =~= list);
        assert(listeners_of(after, last) =~= without(list, socket, list.len() as int));
        assert forall|trip: usize| trip != last implies listeners_of(after, trip) == listeners_of(before, trip) by {}
        assert forall|i: int| 0 <= i < n implies !listeners_of(after, #[trigger] trips[i]).contains(socket) by {}
        assert forall|trip: usize| !trips.take(n).contains(trip) implies listeners_of(after, trip) == #[trigger] listeners_of(listeners, trip) by {
            assert(trips.take(n)[n - 1] == last);
            assert(trips.take(n - 1).contains(trip) ==> trips.take(n).contains(trip)) by {
                if trips.take(n - 1).contains(trip) {
                    let k = trips.take(n - 1).index_of(trip);
                    assert(trips.take(n)[k] == trip);
                }
            }
        }
    }
}

} // verus!
