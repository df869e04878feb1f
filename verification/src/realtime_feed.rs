//! Applying the messages of realtime feeds.

use crate::keyed_store::StoreKey;
use crate::model::{FeedConfig, StaticData, StopRecord, TripRecord};
use crate::order::{arranged, is_stable_order, stable_order, OrderKey};
use crate::realtime::{
    after_trip_update, after_trip_updates, after_vehicles, delay_walk, occupancy_status_name, occupancy_text, placed_keys, placed_updates,
    realtime_data_valid, reasonable_delay, relationship_text, resolve_stop_update_position, resolve_vehicle_occupancy, sanitize_delay,
    schedule_relationship_name, scoped_id, trip_calls_valid, trip_of, update_delays_valid, updates_in_call_order, vehicle_occupancy, vehicle_valid,
    RealtimeStore, StopDelta, StopTimeUpdate, TripUpdate, TripUpdateFeed, VehicleFeed, VehicleReport, VehicleSnapshot, STOP_SKIPPED, TRIP_CANCELED,
};
use crate::text::{copy_text, text_view};
use vstd::hash_map::StringHashMap;
use vstd::prelude::*;
use vstd::string::*;

verus! {

fn find_trip(lookup: &Vec<StringHashMap<usize>>, feed_index: u16, local_id: &Option<String>) -> (trip: Option<usize>)
    ensures
        trip == trip_of(lookup@, feed_index, *local_id),
{
    match local_id {
        Some(id) => {
            if (feed_index as usize) < lookup.len() {
                match lookup[feed_index as usize].get(id.as_str()) {
                    Some(index) => Some(*index),
                    None => None,
                }
            } else {
                None
            }
        },
        None => None,
    }
}

spec fn placed_view(placed: Seq<(usize, usize)>) -> Seq<(int, int)> {
    Seq::new(placed.len(), |i: int| (placed[i].0 as int, placed[i].1 as int))
}

fn place_updates(stops: &Vec<StopRecord>, trip: &TripRecord, updates: &Vec<StopTimeUpdate>) -> (sorted: Vec<(usize, usize)>)
    requires
        trip_calls_valid(*trip, stops@.len() as int),
    ensures
        placed_view(sorted@) == updates_in_call_order(stops@, *trip, updates@),
        forall|i: int| 0 <= i < sorted.len() ==> (#[trigger] sorted[i]).1 < updates.len(),
{
    let mut placed: Vec<(usize, usize)> = Vec::new();
    let mut keys: Vec<OrderKey> = Vec::new();
    let mut i: usize = 0;
    while i < updates.len()
        invariant
            i <= updates.len(),
            trip_calls_valid(*trip, stops@.len() as int),
            placed_view(placed@) =~= placed_updates(stops@, *trip, updates@, i as int),
            keys.len() == placed.len(),
            forall|k: int| 0 <= k < placed.len() ==> (#[trigger] placed[k]).1 < updates.len(),
            forall|k: int| 0 <= k < keys.len() ==> #[trigger] keys[k] == (placed[k].0 as i128, 0i128, 0i128),
        decreases updates.len() - i,
    {
        match resolve_stop_update_position(stops, trip, &updates[i]) {
            Some(position) => {
                placed.push((position, i));
                keys.push((position as i128, 0i128, 0i128));
            },
            None => {},
        }
        i = i + 1;
    }
    let ghost whole = placed_updates(stops@, *trip, updates@, updates@.len() as int);
    assert(placed_view(placed@) =~= whole);
    assert(keys@ =~= placed_keys(whole)) by {
        assert forall|k: int| 0 <= k < keys.len() implies keys[k] == placed_keys(whole)[k] by {
            assert(placed_view(placed@)[k] == whole[k]);
        }
    }
    let order: Vec<usize> = stable_order(&keys);
    let mut sorted: Vec<(usize, usize)> = Vec::new();
    let mut j: usize = 0;
    while j < order.len()
        invariant
            j <= order.len(),
            sorted.len() == j,
            is_stable_order(keys@, order@),
            keys.len() == placed.len(),
            forall|k: int| 0 <= k < placed.len() ==> (#[trigger] placed[k]).1 < updates.len(),
            forall|k: int| 0 <= k < j ==> #[trigger] sorted[k] == placed[order[k] as int],
        decreases order.len() - j,
    {
        sorted.push(placed[order[j]]);
        j = j + 1;
    }
    assert(placed_view(sorted@) =~= arranged(whole, order@)) by {
        assert forall|k: int| 0 <= k < sorted.len() implies placed_view(sorted@)[k] == arranged(whole, order@)[k] by {
            assert(placed_view(placed@)[order[k] as int] == whole[order[k] as int]);
        }
    }
    sorted
}

proof fn walk_stays_reasonable(base: Map<StoreKey, StopDelta>, trip_index: int, placed: Seq<(int, int)>, update: TripUpdate, n: int)
    ensures
        ({
            let walk = delay_walk(base, trip_index, placed, update, n);
            &&& 0 <= walk.next
            &&& walk.arrival == reasonable_delay(walk.arrival)
            &&& walk.departure == reasonable_delay(walk.departure)
        }),
    decreases n,
{
    if n > 0 {
        walk_stays_reasonable(base, trip_index, placed, update, n - 1);
    }
}

impl RealtimeStore {
    fn carry_delays(&mut self, trip_index: usize, call_count: usize, placed: &Vec<(usize, usize)>, update: &TripUpdate)
        requires
            old(self).wf(),
            update_delays_valid(*update),
            forall|i: int| 0 <= i < placed.len() ==> (#[trigger] placed[i]).1 < update.stop_time_updates.len(),
        ensures
            final(self).wf(),
            final(self)@.metrics == old(self)@.metrics,
            final(self)@.canceled == old(self)@.canceled,
            final(self)@.deltas == delay_walk(old(self)@.deltas, trip_index as int, placed_view(placed@), *update, call_count as int).deltas,
    {
        let ghost base = self@.deltas;
        let ghost view = placed_view(placed@);
        let mut arrival: Option<i32> = sanitize_delay(update.delay);
        let mut departure: Option<i32> = sanitize_delay(update.delay);
        let mut next: usize = 0;
        let mut stop_pos: usize = 0;
        while stop_pos < call_count
            invariant
                stop_pos <= call_count,
                self.wf(),
                update_delays_valid(*update),
                forall|i: int| 0 <= i < placed.len() ==> (#[trigger] placed[i]).1 < update.stop_time_updates.len(),
                view == placed_view(placed@),
                base == old(self)@.deltas,
                self@.metrics == old(self)@.metrics,
                self@.canceled == old(self)@.canceled,
                next <= placed.len(),
                ({
                    let walk = delay_walk(base, trip_index as int, view, *update, stop_pos as int);
                    &&& walk.arrival == arrival
                    &&& walk.departure == departure
                    &&& walk.next == next
                    &&& walk.deltas == self@.deltas
                }),
            decreases call_count - stop_pos,
        {
            proof {
                walk_stays_reasonable(base, trip_index as int, view, *update, stop_pos as int);
            }
            if next < placed.len() && placed[next].0 == stop_pos {
                assert(view[next as int] == (placed[next as int].0 as int, placed[next as int].1 as int));
                let change: &StopTimeUpdate = &update.stop_time_updates[placed[next].1];
                let arrival_change: Option<i32> = sanitize_delay(change.arrival_delay);
                if arrival_change.is_some() {
                    arrival = arrival_change;
                }
                let departure_change: Option<i32> = sanitize_delay(change.departure_delay);
                if departure_change.is_some() {
                    departure = departure_change;
                }
                let skipped: bool = match change.schedule_relationship {
                    Some(value) => value == STOP_SKIPPED,
                    None => false,
                };
                self.put_delta(
                    trip_index,
                    stop_pos,
                    StopDelta {
                        arrival_delay_secs: arrival,
                        departure_delay_secs: departure,
                        skipped: skipped,
                        departure_occupancy_status: change.departure_occupancy_status,
                    },
                );
                next = next + 1;
            } else {
                assert(next < placed.len() ==> view[next as int].0 != stop_pos);
                if arrival.is_some() || departure.is_some() {
                    self.put_delta(
                        trip_index,
                        stop_pos,
                        StopDelta {
                            arrival_delay_secs: arrival,
                            departure_delay_secs: departure,
                            skipped: false,
                            departure_occupancy_status: None,
                        },
                    );
                }
            }
            stop_pos = stop_pos + 1;
        }
    }

    /// Takes over one trip update of a feed.
    pub fn apply_trip_update(&mut self, data: &StaticData, feed_index: u16, update: &TripUpdate)
        requires
            old(self).wf(),
            realtime_data_valid(*data),
            update_delays_valid(*update),
        ensures
            final(self).wf(),
            final(self)@ == after_trip_update(old(self)@, *data, feed_index, *update),
    {
        match find_trip(&data.trip_lookup_by_feed, feed_index, &update.trip_id) {
            None => {},
            Some(trip_index) => {
                assert(trip_index < data.trips@.len());
                self.note_trip_update(trip_index, update.schedule_relationship);
                let canceled: bool = match update.schedule_relationship {
                    Some(value) => value == TRIP_CANCELED,
                    None => false,
                };
                if canceled {
                    self.cancel_trip(trip_index);
                } else {
                    let trip: &TripRecord = &data.trips[trip_index];
                    assert(trip_calls_valid(data.trips@[trip_index as int], data.stops@.len() as int));
                    let placed: Vec<(usize, usize)> = place_updates(&data.stops, trip, &update.stop_time_updates);
                    self.carry_delays(trip_index, trip.stop_times.len(), &placed, update);
                }
            },
        }
    }

    /// Takes over the trip updates of a feed message, and says how many there
    /// were and when the message was made.
    pub fn refresh_trip_updates(&mut self, data: &StaticData, feed: &FeedConfig, message: &TripUpdateFeed) -> (outcome: (usize, Option<u64>))
        requires
            old(self).wf(),
            realtime_data_valid(*data),
            forall|i: int| 0 <= i < message.updates.len() ==> update_delays_valid(#[trigger] message.updates[i]),
        ensures
            final(self).wf(),
            final(self)@ == after_trip_updates(old(self)@, *data, feed.feed_index, message.updates@, message.updates@.len() as int),
            outcome == (message.updates@.len() as usize, message.timestamp),
    {
        let mut i: usize = 0;
        while i < message.updates.len()
            invariant
                i <= message.updates.len(),
                self.wf(),
                realtime_data_valid(*data),
                forall|k: int| 0 <= k < message.updates.len() ==> update_delays_valid(#[trigger] message.updates[k]),
                self@ == after_trip_updates(old(self)@, *data, feed.feed_index, message.updates@, i as int),
            decreases message.updates.len() - i,
        {
            assert(update_delays_valid(message.updates[i as int]));
            self.apply_trip_update(data, feed.feed_index, &message.updates[i]);
            i = i + 1;
        }
        (message.updates.len(), message.timestamp)
    }

    /// Takes over the vehicle positions of a feed message, and gives the
    /// vehicles as they are shown.
    pub fn refresh_vehicle_positions(&mut self, data: &StaticData, feed: &FeedConfig, message: &VehicleFeed) -> (vehicles: Vec<VehicleSnapshot>)
        requires
            old(self).wf(),
            realtime_data_valid(*data),
            forall|i: int| 0 <= i < message.vehicles.len() ==> vehicle_valid(#[trigger] message.vehicles[i]),
        ensures
            final(self).wf(),
            final(self)@ == after_vehicles(old(self)@, *data, feed.feed_index, message.vehicles@, message.vehicles@.len() as int),
            vehicles.len() == message.vehicles.len(),
            forall|i: int| 0 <= i < vehicles.len() ==> shows_vehicle(#[trigger] vehicles[i], feed.id@, message.vehicles[i]),
    {
        let mut vehicles: Vec<VehicleSnapshot> = Vec::new();
        let mut i: usize = 0;
        while i < message.vehicles.len()
            invariant
                i <= message.vehicles.len(),
                self.wf(),
                realtime_data_valid(*data),
                forall|k: int| 0 <= k < message.vehicles.len() ==> vehicle_valid(#[trigger] message.vehicles[k]),
                self@ == after_vehicles(old(self)@, *data, feed.feed_index, message.vehicles@, i as int),
                vehicles.len() == i,
                forall|k: int| 0 <= k < i ==> shows_vehicle(#[trigger] vehicles[k], feed.id@, message.vehicles[k]),
            decreases message.vehicles.len() - i,
        {
            let vehicle: &VehicleReport = &message.vehicles[i];
            assert(vehicle_valid(message.vehicles[i as int]));
            let (status, percentage) = resolve_vehicle_occupancy(vehicle);
            match find_trip(&data.trip_lookup_by_feed, feed.feed_index, &vehicle.trip_id) {
                Some(trip_index) => {
                    self.note_vehicle_position(trip_index, vehicle.schedule_relationship, status, percentage, vehicle.timestamp);
                },
                None => {},
            }
            vehicles.push(snapshot_vehicle(feed, vehicle, status, percentage));
            i = i + 1;
        }
        vehicles
    }
}

/// A local id within its feed.
pub open spec fn scoped_text(feed_id: Seq<char>, local_id: Option<String>) -> Option<Seq<char>> {
    match local_id {
        Some(id) => Some(feed_id + seq![':'] + id@),
        None => None,
    }
}

/// Whether a snapshot shows a reported vehicle of a feed.
pub open spec fn shows_vehicle(snapshot: VehicleSnapshot, feed_id: Seq<char>, vehicle: VehicleReport) -> bool {
    let occupancy = vehicle_occupancy(vehicle);
    &&& snapshot.feed_id@ == feed_id
    &&& snapshot.entity_id@ == vehicle.entity_id@
    &&& text_view(snapshot.trip_id) == scoped_text(feed_id, vehicle.trip_id)
    &&& text_view(snapshot.vehicle_id) == text_view(vehicle.vehicle_id)
    &&& text_view(snapshot.vehicle_label) == text_view(vehicle.vehicle_label)
    &&& snapshot.latitude == vehicle.latitude
    &&& snapshot.longitude == vehicle.longitude
    &&& snapshot.bearing == vehicle.bearing
    &&& snapshot.speed == vehicle.speed
    &&& snapshot.current_stop_sequence == vehicle.current_stop_sequence
    &&& text_view(snapshot.stop_id) == scoped_text(feed_id, vehicle.stop_id)
    &&& snapshot.current_status_code == vehicle.current_status
    &&& text_view(snapshot.schedule_relationship) == (match vehicle.schedule_relationship {
        Some(value) => relationship_text(value),
        None => None,
    })
    &&& text_view(snapshot.occupancy_status) == (match occupancy.0 {
        Some(value) => occupancy_text(value),
        None => None,
    })
    &&& snapshot.occupancy_percentage == occupancy.1
    &&& snapshot.timestamp == vehicle.timestamp
}

fn scope_text(feed_id: &String, local_id: &Option<String>) -> (id: Option<String>)
    ensures
        text_view(id) == scoped_text(feed_id@, *local_id),
{
    match local_id {
        Some(local) => Some(scoped_id(feed_id.as_str(), local.as_str())),
        None => None,
    }
}

fn snapshot_vehicle(feed: &FeedConfig, vehicle: &VehicleReport, status: Option<i32>, percentage: Option<u32>) -> (snapshot: VehicleSnapshot)
    requires
        (status, percentage) == vehicle_occupancy(*vehicle),
    ensures
        shows_vehicle(snapshot, feed.id@, *vehicle),
{
    let relationship: Option<String> = match vehicle.schedule_relationship {
        Some(value) => match schedule_relationship_name(value) {
            Some(name) => Some(name.to_owned()),
            None => None,
        },
        None => None,
    };
    let occupancy: Option<String> = match status {
        Some(value) => match occupancy_status_name(value) {
            Some(name) => Some(name.to_owned()),
            None => None,
        },
        None => None,
    };
    VehicleSnapshot {
        feed_id: feed.id.clone(),
        entity_id: vehicle.entity_id.clone(),
        trip_id: scope_text(&feed.id, &vehicle.trip_id),
        vehicle_id: copy_text(&vehicle.vehicle_id),
        vehicle_label: copy_text(&vehicle.vehicle_label),
        latitude: vehicle.latitude,
        longitude: vehicle.longitude,
        bearing: vehicle.bearing,
        speed: vehicle.speed,
        current_stop_sequence: vehicle.current_stop_sequence,
        stop_id: scope_text(&feed.id, &vehicle.stop_id),
        current_status_code: vehicle.current_status,
        schedule_relationship: relationship,
        occupancy_status: occupancy,
        occupancy_percentage: percentage,
        timestamp: vehicle.timestamp,
    }
}

} // verus!
