//! Delays, cancellations and occupancy reported while the service runs.

use crate::keyed_store::{KeyedStore, StoreKey};
use crate::model::{StaticData, StopRecord, TripRecord};
use crate::number::{Real, ShortReal};
use crate::order::{arranged, sorted_unique, stable_order_of, strictly_ascending, OrderKey};
use crate::text::{joined, same_text};
use vstd::hash_map::StringHashMap;
use vstd::prelude::*;
use vstd::string::*;

verus! {

/// Delays of a greater size are taken for errors.
pub const MAX_REASONABLE_DELAY_SECS: i32 = 21600;

/// Schedule relationship of a trip that runs as planned.
pub const TRIP_SCHEDULED: i32 = 0;

/// Schedule relationship of a trip that does not run.
pub const TRIP_CANCELED: i32 = 3;

/// Schedule relationship of a call that is left out.
pub const STOP_SKIPPED: i32 = 1;

/// What is known of one call of a trip.
#[derive(Clone, Copy, Debug, PartialEq, Eq, Structural)]
pub struct StopDelta {
    pub arrival_delay_secs: Option<i32>,
    pub departure_delay_secs: Option<i32>,
    pub skipped: bool,
    pub departure_occupancy_status: Option<i32>,
}

/// What is known of a trip as a whole.
#[derive(Clone, Copy, Debug, PartialEq, Eq, Structural)]
pub struct TripRealtimeMeta {
    pub has_trip_update: bool,
    pub has_vehicle_position: bool,
    pub schedule_relationship: Option<i32>,
    pub vehicle_occupancy_status: Option<i32>,
    pub vehicle_occupancy_percentage: Option<u32>,
    pub vehicle_timestamp: Option<u64>,
}

/// What is known of a trip at one of its calls.
#[derive(Clone, Copy, Debug, PartialEq, Eq, Structural)]
pub struct TripRealtimeMetrics {
    pub has_trip_update: bool,
    pub has_vehicle_position: bool,
    pub is_canceled: bool,
    pub schedule_relationship: Option<i32>,
    pub stop_departure_occupancy_status: Option<i32>,
    pub vehicle_occupancy_status: Option<i32>,
    pub vehicle_occupancy_percentage: Option<u32>,
}

/// A delay with the names of what it delays.
#[derive(Clone, Debug)]
pub struct DelaySample {
    pub feed_id: String,
    pub trip_id: String,
    pub route_label: String,
    pub stop_id: String,
    pub stop_name: String,
    pub stop_sequence: u32,
    pub arrival_delay_secs: Option<i32>,
    pub departure_delay_secs: Option<i32>,
    pub skipped: bool,
}

/// A vehicle as it was last reported.
#[derive(Clone, Debug)]
pub struct VehicleSnapshot {
    pub feed_id: String,
    pub entity_id: String,
    pub trip_id: Option<String>,
    pub vehicle_id: Option<String>,
    pub vehicle_label: Option<String>,
    pub latitude: Option<Real>,
    pub longitude: Option<Real>,
    pub bearing: Option<ShortReal>,
    pub speed: Option<ShortReal>,
    pub current_stop_sequence: Option<u32>,
    pub stop_id: Option<String>,
    pub current_status_code: Option<i32>,
    pub schedule_relationship: Option<String>,
    pub occupancy_status: Option<String>,
    pub occupancy_percentage: Option<u32>,
    pub timestamp: Option<u64>,
}

/// How the last refresh of a feed went.
#[derive(Clone, Debug)]
pub struct FeedRealtimeStatus {
    pub feed_id: String,
    pub trip_update_url: Option<String>,
    pub vehicle_positions_url: Option<String>,
    pub trip_update_entities: usize,
    pub vehicle_count: usize,
    pub trip_feed_timestamp: Option<u64>,
    pub vehicle_feed_timestamp: Option<u64>,
    pub last_trip_refresh: Option<String>,
    pub last_vehicle_refresh: Option<String>,
    pub last_error: Option<String>,
}

/// A reported change of one call.
#[derive(Clone, Debug)]
pub struct StopTimeUpdate {
    pub stop_sequence: Option<u32>,
    pub stop_id: Option<String>,
    pub arrival_delay: Option<i32>,
    pub departure_delay: Option<i32>,
    pub schedule_relationship: Option<i32>,
    pub departure_occupancy_status: Option<i32>,
}

/// A reported change of a trip.
#[derive(Clone, Debug)]
pub struct TripUpdate {
    pub trip_id: Option<String>,
    pub schedule_relationship: Option<i32>,
    pub delay: Option<i32>,
    pub stop_time_updates: Vec<StopTimeUpdate>,
}

/// The trip updates of a feed message.
#[derive(Clone, Debug)]
pub struct TripUpdateFeed {
    pub timestamp: Option<u64>,
    pub updates: Vec<TripUpdate>,
}

/// Occupancy of one carriage.
#[derive(Clone, Copy, Debug, PartialEq, Eq, Structural)]
pub struct CarriageDetails {
    pub occupancy_status: Option<i32>,
    pub occupancy_percentage: Option<i32>,
}

/// A reported vehicle.
#[derive(Clone, Debug)]
pub struct VehicleReport {
    pub entity_id: String,
    pub trip_id: Option<String>,
    pub schedule_relationship: Option<i32>,
    pub vehicle_id: Option<String>,
    pub vehicle_label: Option<String>,
    pub latitude: Option<Real>,
    pub longitude: Option<Real>,
    pub bearing: Option<ShortReal>,
    pub speed: Option<ShortReal>,
    pub current_stop_sequence: Option<u32>,
    pub stop_id: Option<String>,
    pub current_status: Option<i32>,
    pub timestamp: Option<u64>,
    pub occupancy_status: Option<i32>,
    pub occupancy_percentage: Option<u32>,
    pub carriages: Vec<CarriageDetails>,
}

/// The vehicle positions of a feed message.
#[derive(Clone, Debug)]
pub struct VehicleFeed {
    pub timestamp: Option<u64>,
    pub vehicles: Vec<VehicleReport>,
}

impl StopDelta {
    /// Whether the call differs from the timetable.
    pub open spec fn changes_schedule(self) -> bool {
        self.arrival_delay_secs is Some || self.departure_delay_secs is Some || self.skipped
    }

    /// Whether both delays are of a reasonable size.
    pub open spec fn is_reasonable(self) -> bool {
        &&& self.arrival_delay_secs is Some ==> -MAX_REASONABLE_DELAY_SECS <= self.arrival_delay_secs->0 <= MAX_REASONABLE_DELAY_SECS
        &&& self.departure_delay_secs is Some ==> -MAX_REASONABLE_DELAY_SECS <= self.departure_delay_secs->0 <= MAX_REASONABLE_DELAY_SECS
    }

    /// The delay at departure; the arrival's where none is reported.
    pub open spec fn departure_shift(self) -> int {
        match self.departure_delay_secs {
            Some(delay) => delay as int,
            None => match self.arrival_delay_secs {
                Some(delay) => delay as int,
                None => 0,
            },
        }
    }

    /// Whether the call differs from the timetable.
    pub fn affects_schedule(&self) -> (affects: bool)
        ensures
            affects == self.changes_schedule(),
    {
        self.arrival_delay_secs.is_some() || self.departure_delay_secs.is_some() || self.skipped
    }

    fn departure_shift_secs(&self) -> (shift: i32)
        ensures
            shift == self.departure_shift(),
    {
        match self.departure_delay_secs {
            Some(delay) => delay,
            None => match self.arrival_delay_secs {
                Some(delay) => delay,
                None => 0,
            },
        }
    }
}

impl TripRealtimeMetrics {
    /// Whether any realtime feed speaks of the trip.
    pub fn has_gtfs_rt(self) -> (known: bool)
        ensures
            known == (self.has_trip_update || self.has_vehicle_position || self.is_canceled),
    {
        self.has_trip_update || self.has_vehicle_position || self.is_canceled
    }
}

/// A trip of which nothing is known.
pub open spec fn blank_meta() -> TripRealtimeMeta {
    TripRealtimeMeta {
        has_trip_update: false,
        has_vehicle_position: false,
        schedule_relationship: None,
        vehicle_occupancy_status: None,
        vehicle_occupancy_percentage: None,
        vehicle_timestamp: None,
    }
}

/// The key of a call.
pub open spec fn call_key(trip: int, stop_pos: int) -> StoreKey {
    (0i32, trip as u64, stop_pos as u64)
}

/// The key of a trip.
pub open spec fn trip_key(trip: int) -> StoreKey {
    (0i32, trip as u64, 0u64)
}

/// A delay, if it is of a reasonable size.
pub open spec fn reasonable_delay(delay: Option<i32>) -> Option<i32> {
    match delay {
        Some(value) if -MAX_REASONABLE_DELAY_SECS <= value <= MAX_REASONABLE_DELAY_SECS => Some(value),
        _ => None,
    }
}

/// A delay, if it is of a reasonable size. The least `i32` has no size.
pub fn sanitize_delay(delay: Option<i32>) -> (sane: Option<i32>)
    requires
        delay != Some(i32::MIN),
    ensures
        sane == reasonable_delay(delay),
{
    match delay {
        Some(value) => if -MAX_REASONABLE_DELAY_SECS <= value && value <= MAX_REASONABLE_DELAY_SECS { Some(value) } else { None },
        None => None,
    }
}

/// A schedule relationship after another report of it: a cancellation stays, and
/// replaces anything; any report replaces "as planned".
pub open spec fn merged_relationship(current: Option<i32>, incoming: Option<i32>) -> Option<i32> {
    match incoming {
        None => current,
        Some(next) => match current {
            None => incoming,
            Some(now) => if now != TRIP_CANCELED && (next == TRIP_CANCELED || now == TRIP_SCHEDULED) { incoming } else { current },
        },
    }
}

/// Merges another report of a schedule relationship.
pub fn merge_schedule_relationship(target: &mut Option<i32>, incoming: Option<i32>)
    ensures
        *final(target) == merged_relationship(*old(target), incoming),
{
    match incoming {
        None => {},
        Some(next) => match *target {
            None => {
                *target = Some(next);
            },
            Some(now) => {
                if now != TRIP_CANCELED && (next == TRIP_CANCELED || now == TRIP_SCHEDULED) {
                    *target = Some(next);
                }
            },
        },
    }
}

/// Once a trip is reported as canceled, no later report changes that; and the
/// report of a cancellation is never lost.
pub proof fn cancellation_is_final(current: Option<i32>, incoming: Option<i32>)
    ensures
        current == Some(TRIP_CANCELED) ==> merged_relationship(current, incoming) == Some(TRIP_CANCELED),
        incoming == Some(TRIP_CANCELED) ==> merged_relationship(current, incoming) == Some(TRIP_CANCELED),
{
}

/// Whether a report of a vehicle at time `next` replaces the one at `current`:
/// a report without a time gives way to none that has one.
pub open spec fn replaces_report(current: Option<u64>, next: Option<u64>) -> bool {
    match (current, next) {
        (Some(now), Some(then_at)) => then_at >= now,
        (Some(_), None) => false,
        (None, _) => true,
    }
}

/// Whether a report of a vehicle at time `next` replaces the one at `current`.
pub fn should_replace_vehicle_snapshot(current: Option<u64>, next: Option<u64>) -> (replace: bool)
    ensures
        replace == replaces_report(current, next),
{
    match (current, next) {
        (None, _) => true,
        (Some(now), Some(later)) => later >= now,
        (Some(_), None) => false,
    }
}

/// The greater of two optional numbers; a number is greater than none.
pub open spec fn greater_option(left: Option<u64>, right: Option<u64>) -> Option<u64> {
    match (left, right) {
        (Some(a), Some(b)) => Some(if a >= b { a } else { b }),
        (Some(a), None) => Some(a),
        (None, _) => right,
    }
}

/// The greater of two optional numbers; a number is greater than none.
pub fn max_option_u64(left: Option<u64>, right: Option<u64>) -> (greater: Option<u64>)
    ensures
        greater == greater_option(left, right),
{
    match (left, right) {
        (Some(a), Some(b)) => Some(if a >= b { a } else { b }),
        (Some(a), None) => Some(a),
        (None, Some(b)) => Some(b),
        (None, None) => None,
    }
}

/// The id of something within its feed.
pub fn scoped_id(feed_id: &str, local_id: &str) -> (id: String)
    ensures
        id@ == feed_id@ + seq![':'] + local_id@,
{
    let head: String = joined(feed_id, ":");
    proof {
        reveal_strlit(":");
        assert(":"@ =~= seq![':']);
    }
    joined(head.as_str(), local_id)
}

/// The name of a trip's schedule relationship.
pub open spec fn relationship_text(value: i32) -> Option<Seq<char>> {
    if value == 0 { Some("SCHEDULED"@) }
    else if value == 1 { Some("ADDED"@) }
    else if value == 2 { Some("UNSCHEDULED"@) }
    else if value == 3 { Some("CANCELED"@) }
    else if value == 5 { Some("REPLACEMENT"@) }
    else if value == 6 { Some("DUPLICATED"@) }
    else if value == 7 { Some("DELETED"@) }
    else { None }
}

/// The name of a trip's schedule relationship, for the values that the realtime
/// format defines.
pub fn schedule_relationship_name(value: i32) -> (name: Option<&'static str>)
    ensures
        (match name { Some(text) => Some(text@), None => None }) == relationship_text(value),
{
    if value == 0 { Some("SCHEDULED") }
    else if value == 1 { Some("ADDED") }
    else if value == 2 { Some("UNSCHEDULED") }
    else if value == 3 { Some("CANCELED") }
    else if value == 5 { Some("REPLACEMENT") }
    else if value == 6 { Some("DUPLICATED") }
    else if value == 7 { Some("DELETED") }
    else { None }
}

/// The name of an occupancy status.
pub open spec fn occupancy_text(value: i32) -> Option<Seq<char>> {
    if value == 0 { Some("EMPTY"@) }
    else if value == 1 { Some("MANY_SEATS_AVAILABLE"@) }
    else if value == 2 { Some("FEW_SEATS_AVAILABLE"@) }
    else if value == 3 { Some("STANDING_ROOM_ONLY"@) }
    else if value == 4 { Some("CRUSHED_STANDING_ROOM_ONLY"@) }
    else if value == 5 { Some("FULL"@) }
    else if value == 6 { Some("NOT_ACCEPTING_PASSENGERS"@) }
    else if value == 7 { Some("NO_DATA_AVAILABLE"@) }
    else if value == 8 { Some("NOT_BOARDABLE"@) }
    else { None }
}

/// The name of an occupancy status, for the values that the realtime format
/// defines.
pub fn occupancy_status_name(value: i32) -> (name: Option<&'static str>)
    ensures
        (match name { Some(text) => Some(text@), None => None }) == occupancy_text(value),
{
    if value == 0 { Some("EMPTY") }
    else if value == 1 { Some("MANY_SEATS_AVAILABLE") }
    else if value == 2 { Some("FEW_SEATS_AVAILABLE") }
    else if value == 3 { Some("STANDING_ROOM_ONLY") }
    else if value == 4 { Some("CRUSHED_STANDING_ROOM_ONLY") }
    else if value == 5 { Some("FULL") }
    else if value == 6 { Some("NOT_ACCEPTING_PASSENGERS") }
    else if value == 7 { Some("NO_DATA_AVAILABLE") }
    else if value == 8 { Some("NOT_BOARDABLE") }
    else { None }
}

/// How bad an occupancy status is; a value that the format does not define is
/// worse than all others.
pub open spec fn severity(status: i32) -> int {
    if 0 <= status <= 6 { status as int } else if status == 7 { 8 } else if status == 8 { 7 } else { 255 }
}

/// How bad an occupancy status is.
pub fn occupancy_status_severity(status: i32) -> (level: u8)
    ensures
        level == severity(status),
{
    if 0 <= status && status <= 6 { status as u8 } else if status == 7 { 8 } else if status == 8 { 7 } else { 255 }
}

/// The worst status of the first `n` carriages; of equally bad ones the last.
pub open spec fn worst_status(carriages: Seq<CarriageDetails>, n: int) -> Option<i32>
    decreases n,
{
    if n <= 0 {
        None
    } else {
        let before = worst_status(carriages, n - 1);
        match carriages[n - 1].occupancy_status {
            None => before,
            Some(status) => match before {
                Some(worst) => if severity(status) >= severity(worst) { Some(status) } else { before },
                None => Some(status),
            },
        }
    }
}

/// The worst occupancy status of any carriage.
pub fn worst_carriage_occupancy_status(carriages: &Vec<CarriageDetails>) -> (worst: Option<i32>)
    ensures
        worst == worst_status(carriages@, carriages@.len() as int),
{
    let mut worst: Option<i32> = None;
    let mut i: usize = 0;
    while i < carriages.len()
        invariant
            i <= carriages.len(),
            worst == worst_status(carriages@, i as int),
        decreases carriages.len() - i,
    {
        match carriages[i].occupancy_status {
            None => {},
            Some(status) => {
                let replace: bool = match worst {
                    Some(current) => occupancy_status_severity(status) >= occupancy_status_severity(current),
                    None => true,
                };
                if replace {
                    worst = Some(status);
                }
            },
        }
        i = i + 1;
    }
    worst
}

/// The reported percentages of the first `n` carriages that are not negative.
pub open spec fn carriage_percentages(carriages: Seq<CarriageDetails>, n: int) -> Seq<int>
    decreases n,
{
    if n <= 0 {
        Seq::empty()
    } else {
        let before = carriage_percentages(carriages, n - 1);
        match carriages[n - 1].occupancy_percentage {
            Some(percentage) if percentage >= 0 => before.push(percentage as int),
            _ => before,
        }
    }
}

/// The sum of numbers.
pub open spec fn total(values: Seq<int>) -> int
    decreases values.len(),
{
    if values.len() == 0 { 0 } else { total(values.drop_last()) + values.last() }
}

proof fn percentage_total_grows(carriages: Seq<CarriageDetails>, n: int, m: int)
    requires
        0 <= n <= m <= carriages.len(),
    ensures
        0 <= total(carriage_percentages(carriages, n)) <= total(carriage_percentages(carriages, m)),
        carriage_percentages(carriages, n).len() <= carriage_percentages(carriages, m).len() <= m,
    decreases m,
{
    if m > 0 {
        if n < m {
            percentage_total_grows(carriages, n, m - 1);
        } else {
            percentage_total_grows(carriages, m - 1, m - 1);
        }
        let before = carriage_percentages(carriages, m - 1);
        match carriages[m - 1].occupancy_percentage {
            Some(percentage) if percentage >= 0 => {
                assert(before.push(percentage as int).drop_last() =~= before);
            },
            _ => {},
        }
    }
}

/// Whether the percentages can be added up, and counted, in 32 bits.
pub open spec fn percentages_fit(carriages: Seq<CarriageDetails>) -> bool {
    carriages.len() <= u32::MAX && total(carriage_percentages(carriages, carriages.len() as int)) <= u32::MAX
}

/// The mean of the reported percentages, rounded down.
pub open spec fn mean_percentage(carriages: Seq<CarriageDetails>) -> Option<u32> {
    let percentages = carriage_percentages(carriages, carriages.len() as int);
    if percentages.len() == 0 { None } else { Some((total(percentages) / percentages.len() as int) as u32) }
}

/// The mean of the reported percentages, rounded down.
pub fn average_carriage_occupancy_percentage(carriages: &Vec<CarriageDetails>) -> (mean: Option<u32>)
    requires
        percentages_fit(carriages@),
    ensures
        mean == mean_percentage(carriages@),
{
    let mut sum: u32 = 0;
    let mut count: u32 = 0;
    let mut i: usize = 0;
    while i < carriages.len()
        invariant
            i <= carriages.len(),
            percentages_fit(carriages@),
            sum == total(carriage_percentages(carriages@, i as int)),
            count == carriage_percentages(carriages@, i as int).len(),
            count <= i,
        decreases carriages.len() - i,
    {
        proof {
            percentage_total_grows(carriages@, i + 1, carriages@.len() as int);
        }
        let ghost before = carriage_percentages(carriages@, i as int);
        match carriages[i].occupancy_percentage {
            Some(percentage) => {
                if percentage >= 0 {
                    assert(before.push(percentage as int).drop_last() =~= before);
                    sum = sum + percentage as u32;
                    count = count + 1;
                }
            },
            None => {},
        }
        i = i + 1;
    }
    if count == 0 { None } else { Some(sum / count) }
}

/// The status and percentage of a vehicle: its own, or else its carriages'.
pub fn resolve_vehicle_occupancy(vehicle: &VehicleReport) -> (occupancy: (Option<i32>, Option<u32>))
    requires
        vehicle.occupancy_percentage is None ==> percentages_fit(vehicle.carriages@),
    ensures
        occupancy == vehicle_occupancy(*vehicle),
{
    let percentage: Option<u32> = match vehicle.occupancy_percentage {
        Some(value) => Some(value),
        None => average_carriage_occupancy_percentage(&vehicle.carriages),
    };
    let status: Option<i32> = match vehicle.occupancy_status {
        Some(value) => Some(value),
        None => worst_carriage_occupancy_status(&vehicle.carriages),
    };
    (status, percentage)
}

/// The status and percentage of a vehicle: its own, or else its carriages'.
pub open spec fn vehicle_occupancy(vehicle: VehicleReport) -> (Option<i32>, Option<u32>) {
    (
        if vehicle.occupancy_status is Some { vehicle.occupancy_status } else { worst_status(vehicle.carriages@, vehicle.carriages@.len() as int) },
        if vehicle.occupancy_percentage is Some { vehicle.occupancy_percentage } else { mean_percentage(vehicle.carriages@) },
    )
}

/// The first of the positions from `from` below `len` with a property.
pub open spec fn first_where(from: int, len: int, property: spec_fn(int) -> bool) -> Option<int>
    decreases len - from,
{
    if from >= len { None } else if property(from) { Some(from) } else { first_where(from + 1, len, property) }
}

/// Which call of a trip an update speaks of: the first with its sequence number,
/// or else the first at its stop.
pub open spec fn update_position(stops: Seq<StopRecord>, trip: TripRecord, update: StopTimeUpdate) -> Option<int> {
    let by_sequence = match update.stop_sequence {
        Some(sequence) => first_where(0, trip.stop_times@.len() as int, |i: int| trip.stop_times@[i].stop_sequence == sequence),
        None => None,
    };
    if by_sequence is Some {
        by_sequence
    } else {
        match update.stop_id {
            Some(stop_id) => first_where(
                0,
                trip.stop_times@.len() as int,
                |i: int| {
                    let stop = stops[trip.stop_times@[i].stop_index as int];
                    stop.local_id@ == stop_id@ || stop.id@ == stop_id@
                },
            ),
            None => None,
        }
    }
}

/// Whether the calls of a trip are at known stops, at times to which a
/// reasonable delay can be added.
pub open spec fn trip_calls_valid(trip: TripRecord, stop_count: int) -> bool {
    forall|p: int| 0 <= p < trip.stop_times@.len() ==> {
        let call = #[trigger] trip.stop_times@[p];
        &&& call.stop_index < stop_count
        &&& i32::MIN + MAX_REASONABLE_DELAY_SECS <= call.arrival_secs <= i32::MAX - MAX_REASONABLE_DELAY_SECS
        &&& i32::MIN + MAX_REASONABLE_DELAY_SECS <= call.departure_secs <= i32::MAX - MAX_REASONABLE_DELAY_SECS
    }
}

/// Finds the call of a trip that an update speaks of.
pub fn resolve_stop_update_position(stops: &Vec<StopRecord>, trip: &TripRecord, update: &StopTimeUpdate) -> (position: Option<usize>)
    requires
        trip_calls_valid(*trip, stops@.len() as int),
    ensures
        (match position { Some(p) => Some(p as int), None => None }) == update_position(stops@, *trip, *update),
        position is Some ==> position->0 < trip.stop_times@.len(),
{
    match update.stop_sequence {
        Some(sequence) => {
            let ghost property = |i: int| trip.stop_times@[i].stop_sequence == sequence;
            let mut i: usize = 0;
            while i < trip.stop_times.len()
                invariant
                    i <= trip.stop_times.len(),
                    property == (|i: int| trip.stop_times@[i].stop_sequence == sequence),
                    update.stop_sequence == Some(sequence),
                    first_where(0, trip.stop_times@.len() as int, property) == first_where(i as int, trip.stop_times@.len() as int, property),
                decreases trip.stop_times.len() - i,
            {
                if trip.stop_times[i].stop_sequence == sequence {
                    return Some(i);
                }
                i = i + 1;
            }
        },
        None => {},
    }
    match &update.stop_id {
        Some(stop_id) => {
            let ghost property = |i: int| {
                let stop = stops@[trip.stop_times@[i].stop_index as int];
                stop.local_id@ == stop_id@ || stop.id@ == stop_id@
            };
            let mut i: usize = 0;
            while i < trip.stop_times.len()
                invariant
                    i <= trip.stop_times.len(),
                    trip_calls_valid(*trip, stops@.len() as int),
                    property == (|i: int| {
                        let stop = stops@[trip.stop_times@[i].stop_index as int];
                        stop.local_id@ == stop_id@ || stop.id@ == stop_id@
                    }),
                    update_position(stops@, *trip, *update) == first_where(i as int, trip.stop_times@.len() as int, property),
                decreases trip.stop_times.len() - i,
            {
                assert(trip.stop_times@[i as int].stop_index < stops@.len());
                let stop: &StopRecord = &stops[trip.stop_times[i].stop_index];
                if same_text(stop.local_id.as_str(), stop_id.as_str()) || same_text(stop.id.as_str(), stop_id.as_str()) {
                    return Some(i);
                }
                i = i + 1;
            }
            None
        },
        None => None,
    }
}

/// The known delays, trips and cancellations.
pub struct RealtimeView {
    pub deltas: Map<StoreKey, StopDelta>,
    pub metrics: Map<StoreKey, TripRealtimeMeta>,
    pub canceled: Map<StoreKey, bool>,
}

/// How far the delays of a trip have been carried along its calls.
pub struct DelayWalk {
    pub arrival: Option<i32>,
    pub departure: Option<i32>,
    pub next: int,
    pub deltas: Map<StoreKey, StopDelta>,
}

/// The updates of the first `n` that speak of a call of the trip, each as the
/// position of the call and the place of the update.
pub open spec fn placed_updates(stops: Seq<StopRecord>, trip: TripRecord, updates: Seq<StopTimeUpdate>, n: int) -> Seq<(int, int)>
    decreases n,
{
    if n <= 0 {
        Seq::empty()
    } else {
        let before = placed_updates(stops, trip, updates, n - 1);
        match update_position(stops, trip, updates[n - 1]) {
            Some(position) => before.push((position, n - 1)),
            None => before,
        }
    }
}

/// Sort keys of placed updates: the position.
pub open spec fn placed_keys(placed: Seq<(int, int)>) -> Seq<OrderKey> {
    Seq::new(placed.len(), |i: int| (placed[i].0 as i128, 0i128, 0i128))
}

/// The placed updates by ascending position.
pub open spec fn updates_in_call_order(stops: Seq<StopRecord>, trip: TripRecord, updates: Seq<StopTimeUpdate>) -> Seq<(int, int)> {
    let placed = placed_updates(stops, trip, updates, updates.len() as int);
    arranged(placed, stable_order_of(placed_keys(placed)))
}

/// The delays of a trip after its first `n` calls: each call takes over the
/// delay of the call before unless an update speaks of it.
pub open spec fn delay_walk(base: Map<StoreKey, StopDelta>, trip_index: int, placed: Seq<(int, int)>, update: TripUpdate, n: int) -> DelayWalk
    decreases n,
{
    if n <= 0 {
        DelayWalk { arrival: reasonable_delay(update.delay), departure: reasonable_delay(update.delay), next: 0, deltas: base }
    } else {
        let walk = delay_walk(base, trip_index, placed, update, n - 1);
        let key = call_key(trip_index, n - 1);
        if walk.next < placed.len() && placed[walk.next].0 == n - 1 {
            let change = update.stop_time_updates@[placed[walk.next].1];
            let arrival = reasonable_delay(change.arrival_delay);
            let departure = reasonable_delay(change.departure_delay);
            let delta = StopDelta {
                arrival_delay_secs: if arrival is Some { arrival } else { walk.arrival },
                departure_delay_secs: if departure is Some { departure } else { walk.departure },
                skipped: change.schedule_relationship == Some(STOP_SKIPPED),
                departure_occupancy_status: change.departure_occupancy_status,
            };
            DelayWalk {
                arrival: delta.arrival_delay_secs,
                departure: delta.departure_delay_secs,
                next: walk.next + 1,
                deltas: walk.deltas.insert(key, delta),
            }
        } else if walk.arrival is Some || walk.departure is Some {
            let delta = StopDelta {
                arrival_delay_secs: walk.arrival,
                departure_delay_secs: walk.departure,
                skipped: false,
                departure_occupancy_status: None,
            };
            DelayWalk { deltas: walk.deltas.insert(key, delta), ..walk }
        } else {
            walk
        }
    }
}

/// The trip with a local id in a feed.
pub open spec fn trip_of(lookup: Seq<StringHashMap<usize>>, feed_index: u16, local_id: Option<String>) -> Option<usize> {
    match local_id {
        Some(id) => if feed_index < lookup.len() && lookup[feed_index as int]@.dom().contains(id@) {
            Some(lookup[feed_index as int]@[id@])
        } else {
            None
        },
        None => None,
    }
}

/// What is known of a trip after a trip update.
pub open spec fn meta_with_update(view: RealtimeView, trip: int, relationship: Option<i32>) -> TripRealtimeMeta {
    let meta = if view.metrics.dom().contains(trip_key(trip)) { view.metrics[trip_key(trip)] } else { blank_meta() };
    TripRealtimeMeta {
        has_trip_update: true,
        schedule_relationship: merged_relationship(meta.schedule_relationship, relationship),
        ..meta
    }
}

/// What is known after one trip update.
pub open spec fn after_trip_update(view: RealtimeView, data: StaticData, feed_index: u16, update: TripUpdate) -> RealtimeView {
    match trip_of(data.trip_lookup_by_feed@, feed_index, update.trip_id) {
        None => view,
        Some(trip) => {
            let metrics = view.metrics.insert(trip_key(trip as int), meta_with_update(view, trip as int, update.schedule_relationship));
            if update.schedule_relationship == Some(TRIP_CANCELED) {
                RealtimeView { metrics: metrics, canceled: view.canceled.insert(trip_key(trip as int), true), ..view }
            } else {
                let record = data.trips@[trip as int];
                let placed = updates_in_call_order(data.stops@, record, update.stop_time_updates@);
                RealtimeView {
                    metrics: metrics,
                    deltas: delay_walk(view.deltas, trip as int, placed, update, record.stop_times@.len() as int).deltas,
                    ..view
                }
            }
        },
    }
}

/// What is known after the first `n` trip updates of a feed.
pub open spec fn after_trip_updates(view: RealtimeView, data: StaticData, feed_index: u16, updates: Seq<TripUpdate>, n: int) -> RealtimeView
    decreases n,
{
    if n <= 0 {
        view
    } else {
        after_trip_update(after_trip_updates(view, data, feed_index, updates, n - 1), data, feed_index, updates[n - 1])
    }
}

/// What is known of a trip after a report of its vehicle. A newer report
/// replaces what it speaks of; an older one only fills gaps.
pub open spec fn meta_with_vehicle(
    view: RealtimeView,
    trip: int,
    relationship: Option<i32>,
    status: Option<i32>,
    percentage: Option<u32>,
    timestamp: Option<u64>,
) -> TripRealtimeMeta {
    let meta = if view.metrics.dom().contains(trip_key(trip)) { view.metrics[trip_key(trip)] } else { blank_meta() };
    let newer = replaces_report(meta.vehicle_timestamp, timestamp);
    TripRealtimeMeta {
        has_trip_update: meta.has_trip_update,
        has_vehicle_position: true,
        schedule_relationship: merged_relationship(meta.schedule_relationship, relationship),
        vehicle_occupancy_status: if newer {
            if status is Some { status } else { meta.vehicle_occupancy_status }
        } else {
            if meta.vehicle_occupancy_status is Some { meta.vehicle_occupancy_status } else { status }
        },
        vehicle_occupancy_percentage: if newer {
            if percentage is Some { percentage } else { meta.vehicle_occupancy_percentage }
        } else {
            if meta.vehicle_occupancy_percentage is Some { meta.vehicle_occupancy_percentage } else { percentage }
        },
        vehicle_timestamp: if newer && timestamp is Some { timestamp } else { meta.vehicle_timestamp },
    }
}

/// What is known after one vehicle report.
pub open spec fn after_vehicle(view: RealtimeView, data: StaticData, feed_index: u16, vehicle: VehicleReport) -> RealtimeView {
    match trip_of(data.trip_lookup_by_feed@, feed_index, vehicle.trip_id) {
        None => view,
        Some(trip) => {
            let occupancy = vehicle_occupancy(vehicle);
            RealtimeView {
                metrics: view.metrics.insert(
                    trip_key(trip as int),
                    meta_with_vehicle(view, trip as int, vehicle.schedule_relationship, occupancy.0, occupancy.1, vehicle.timestamp),
                ),
                ..view
            }
        },
    }
}

/// What is known after the first `n` vehicle reports of a feed.
pub open spec fn after_vehicles(view: RealtimeView, data: StaticData, feed_index: u16, vehicles: Seq<VehicleReport>, n: int) -> RealtimeView
    decreases n,
{
    if n <= 0 {
        view
    } else {
        after_vehicle(after_vehicles(view, data, feed_index, vehicles, n - 1), data, feed_index, vehicles[n - 1])
    }
}

/// Whether the calls of every trip are valid and every trip id leads to a trip.
pub open spec fn realtime_data_valid(data: StaticData) -> bool {
    &&& forall|t: int| 0 <= t < data.trips@.len() ==> trip_calls_valid(#[trigger] data.trips@[t], data.stops@.len() as int)
    &&& forall|f: int, id: Seq<char>| 0 <= f < data.trip_lookup_by_feed@.len() && #[trigger] data.trip_lookup_by_feed@[f]@.dom().contains(id)
        ==> data.trip_lookup_by_feed@[f]@[id] < data.trips@.len()
}

/// Whether the delays of an update have a size: none is the least `i32`.
pub open spec fn update_delays_valid(update: TripUpdate) -> bool {
    &&& update.delay != Some(i32::MIN)
    &&& forall|i: int| 0 <= i < update.stop_time_updates@.len() ==> {
        &&& (#[trigger] update.stop_time_updates@[i]).arrival_delay != Some(i32::MIN)
        &&& update.stop_time_updates@[i].departure_delay != Some(i32::MIN)
    }
}

/// Whether the carriages of a vehicle can be averaged where that is needed.
pub open spec fn vehicle_valid(vehicle: VehicleReport) -> bool {
    vehicle.occupancy_percentage is None ==> percentages_fit(vehicle.carriages@)
}

/// What the realtime feeds report.
pub struct RealtimeStore {
    stop_deltas: KeyedStore<StopDelta>,
    trip_metrics: KeyedStore<TripRealtimeMeta>,
    canceled_trips: KeyedStore<bool>,
}

/// Whether a key is that of a trip or a call.
pub open spec fn key_in_range(key: StoreKey) -> bool {
    key.0 == 0 && key.1 <= usize::MAX && key.2 <= usize::MAX
}

/// The size of a delay at departure that makes a traveller wait, within reason.
pub open spec fn waiting_delay(delta: StopDelta) -> int {
    let shift = delta.departure_shift();
    if shift < 0 { 0 } else if shift > MAX_REASONABLE_DELAY_SECS { MAX_REASONABLE_DELAY_SECS as int } else { shift }
}

/// The arrival at a call with its delay.
pub open spec fn arrival_with_delay(view: RealtimeView, trips: Seq<TripRecord>, trip: int, stop_pos: int) -> int {
    let scheduled = trips[trip].stop_times@[stop_pos].arrival_secs as int;
    let key = call_key(trip, stop_pos);
    if view.deltas.dom().contains(key) && view.deltas[key].arrival_delay_secs is Some {
        scheduled + view.deltas[key].arrival_delay_secs->0
    } else {
        scheduled
    }
}

/// The departure from a call with its delay.
pub open spec fn departure_with_delay(view: RealtimeView, trips: Seq<TripRecord>, trip: int, stop_pos: int) -> int {
    let scheduled = trips[trip].stop_times@[stop_pos].departure_secs as int;
    let key = call_key(trip, stop_pos);
    if view.deltas.dom().contains(key) { scheduled + view.deltas[key].departure_shift() } else { scheduled }
}

/// Whether a call is left out.
pub open spec fn call_is_skipped(view: RealtimeView, trip: int, stop_pos: int) -> bool {
    view.deltas.dom().contains(call_key(trip, stop_pos)) && view.deltas[call_key(trip, stop_pos)].skipped
}

/// Whether a report changes when, or whether, a trip runs.
pub open spec fn trip_is_updated(view: RealtimeView, trip: int) -> bool {
    ||| view.canceled.dom().contains(trip_key(trip))
    ||| exists|key: StoreKey| #[trigger] view.deltas.dom().contains(key) && key.1 == trip && view.deltas[key].changes_schedule()
}

impl RealtimeStore {
    /// What the store knows.
    pub closed spec fn view(&self) -> RealtimeView {
        RealtimeView { deltas: self.stop_deltas@, metrics: self.trip_metrics@, canceled: self.canceled_trips@ }
    }

    /// The delays are reasonable, and the keys are those of trips and calls.
    pub closed spec fn wf(&self) -> bool {
        &&& self.stop_deltas.wf()
        &&& self.trip_metrics.wf()
        &&& self.canceled_trips.wf()
        &&& forall|key: StoreKey| #[trigger] self.stop_deltas@.dom().contains(key) ==> key_in_range(key) && self.stop_deltas@[key].is_reasonable()
        &&& forall|key: StoreKey| #[trigger] self.canceled_trips@.dom().contains(key) ==> key_in_range(key) && key.2 == 0
    }

    /// Every delay in a store is of a reasonable size.
    pub proof fn delays_are_reasonable(&self, key: StoreKey)
        requires
            self.wf(),
            self@.deltas.dom().contains(key),
        ensures
            key_in_range(key),
            self@.deltas[key].is_reasonable(),
    {
    }

    /// A store that knows nothing.
    pub fn new() -> (store: RealtimeStore)
        ensures
            store.wf(),
            store@.deltas == Map::<StoreKey, StopDelta>::empty(),
            store@.metrics == Map::<StoreKey, TripRealtimeMeta>::empty(),
            store@.canceled == Map::<StoreKey, bool>::empty(),
    {
        RealtimeStore { stop_deltas: KeyedStore::new(), trip_metrics: KeyedStore::new(), canceled_trips: KeyedStore::new() }
    }

    /// Forgets everything.
    pub fn clear(&mut self)
        requires
            old(self).wf(),
        ensures
            final(self).wf(),
            final(self)@.deltas == Map::<StoreKey, StopDelta>::empty(),
            final(self)@.metrics == Map::<StoreKey, TripRealtimeMeta>::empty(),
            final(self)@.canceled == Map::<StoreKey, bool>::empty(),
    {
        self.stop_deltas.clear();
        self.trip_metrics.clear();
        self.canceled_trips.clear();
    }

    /// Notes what is known of a call.
    pub(crate) fn put_delta(&mut self, trip_index: usize, stop_pos: usize, delta: StopDelta)
        requires
            old(self).wf(),
            delta.is_reasonable(),
        ensures
            final(self).wf(),
            final(self)@.deltas == old(self)@.deltas.insert(call_key(trip_index as int, stop_pos as int), delta),
            final(self)@.metrics == old(self)@.metrics,
            final(self)@.canceled == old(self)@.canceled,
    {
        self.stop_deltas.insert((0, trip_index as u64, stop_pos as u64), delta);
    }

    /// Notes that a trip is canceled.
    pub(crate) fn cancel_trip(&mut self, trip_index: usize)
        requires
            old(self).wf(),
        ensures
            final(self).wf(),
            final(self)@ == (RealtimeView { canceled: old(self)@.canceled.insert(trip_key(trip_index as int), true), ..old(self)@ }),
    {
        self.canceled_trips.insert((0, trip_index as u64, 0), true);
    }

    fn meta_of(&self, trip_index: usize) -> (meta: TripRealtimeMeta)
        requires
            self.wf(),
        ensures
            meta == (if self@.metrics.dom().contains(trip_key(trip_index as int)) {
                self@.metrics[trip_key(trip_index as int)]
            } else {
                blank_meta()
            }),
    {
        match self.trip_metrics.get((0, trip_index as u64, 0)) {
            Some(meta) => *meta,
            None => TripRealtimeMeta {
                has_trip_update: false,
                has_vehicle_position: false,
                schedule_relationship: None,
                vehicle_occupancy_status: None,
                vehicle_occupancy_percentage: None,
                vehicle_timestamp: None,
            },
        }
    }

    /// Notes that a trip update speaks of a trip.
    pub fn note_trip_update(&mut self, trip_index: usize, schedule_relationship: Option<i32>)
        requires
            old(self).wf(),
        ensures
            final(self).wf(),
            final(self)@ == (RealtimeView {
                metrics: old(self)@.metrics.insert(trip_key(trip_index as int), meta_with_update(old(self)@, trip_index as int, schedule_relationship)),
                ..old(self)@
            }),
    {
        let mut meta: TripRealtimeMeta = self.meta_of(trip_index);
        meta.has_trip_update = true;
        let mut relationship: Option<i32> = meta.schedule_relationship;
        merge_schedule_relationship(&mut relationship, schedule_relationship);
        meta.schedule_relationship = relationship;
        self.trip_metrics.insert((0, trip_index as u64, 0), meta);
    }

    /// Notes that a vehicle reports for a trip.
    pub fn note_vehicle_position(
        &mut self,
        trip_index: usize,
        schedule_relationship: Option<i32>,
        occupancy_status: Option<i32>,
        occupancy_percentage: Option<u32>,
        timestamp: Option<u64>,
    )
        requires
            old(self).wf(),
        ensures
            final(self).wf(),
            final(self)@ == (RealtimeView {
                metrics: old(self)@.metrics.insert(
                    trip_key(trip_index as int),
                    meta_with_vehicle(old(self)@, trip_index as int, schedule_relationship, occupancy_status, occupancy_percentage, timestamp),
                ),
                ..old(self)@
            }),
    {
        let mut meta: TripRealtimeMeta = self.meta_of(trip_index);
        meta.has_vehicle_position = true;
        let mut relationship: Option<i32> = meta.schedule_relationship;
        merge_schedule_relationship(&mut relationship, schedule_relationship);
        meta.schedule_relationship = relationship;
        if should_replace_vehicle_snapshot(meta.vehicle_timestamp, timestamp) {
            if occupancy_status.is_some() {
                meta.vehicle_occupancy_status = occupancy_status;
            }
            if occupancy_percentage.is_some() {
                meta.vehicle_occupancy_percentage = occupancy_percentage;
            }
            if timestamp.is_some() {
                meta.vehicle_timestamp = timestamp;
            }
        } else {
            if meta.vehicle_occupancy_status.is_none() {
                meta.vehicle_occupancy_status = occupancy_status;
            }
            if meta.vehicle_occupancy_percentage.is_none() {
                meta.vehicle_occupancy_percentage = occupancy_percentage;
            }
        }
        self.trip_metrics.insert((0, trip_index as u64, 0), meta);
    }

    /// The calls of which something is known, in a fixed order.
    pub closed spec fn delta_keys(&self) -> Seq<StoreKey> {
        self.stop_deltas.slots()
    }

    /// The calls of which something is known are listed once each.
    pub proof fn delta_keys_match(&self)
        requires
            self.wf(),
        ensures
            self.delta_keys().no_duplicates(),
            forall|key: StoreKey| self@.deltas.dom().contains(key) <==> #[trigger] self.delta_keys().contains(key),
    {
        self.stop_deltas.slots_match();
    }

    /// How many calls something is known of.
    pub fn delta_count(&self) -> (count: usize)
        requires
            self.wf(),
        ensures
            count == self.delta_keys().len(),
    {
        self.stop_deltas.len()
    }

    /// What is known of a call, by its place among those of which something is:
    /// the trip, the position of the call, and what is known.
    pub fn delta_at(&self, place: usize) -> (found: (usize, usize, StopDelta))
        requires
            self.wf(),
            place < self.delta_keys().len(),
        ensures
            self@.deltas.dom().contains(self.delta_keys()[place as int]),
            self.delta_keys()[place as int] == call_key(found.0 as int, found.1 as int),
            found.2 == self@.deltas[self.delta_keys()[place as int]],
    {
        let key: StoreKey = self.stop_deltas.key_at(place);
        let delta: StopDelta = *self.stop_deltas.value_at(place);
        proof {
            self.stop_deltas.slots_match();
            assert(self.stop_deltas.slots().contains(key));
            assert(self.stop_deltas@.dom().contains(key));
        }
        (key.1 as usize, key.2 as usize, delta)
    }

    /// Number of calls with a report.
    pub fn shadow_delta_count(&self) -> (count: usize)
        requires
            self.wf(),
        ensures
            count == self@.deltas.dom().len(),
    {
        self.stop_deltas.len()
    }

    /// Number of canceled trips.
    pub fn canceled_trip_count(&self) -> (count: usize)
        requires
            self.wf(),
        ensures
            count == self@.canceled.dom().len(),
    {
        self.canceled_trips.len()
    }

    fn collect_updated(&self) -> (updated: Vec<usize>)
        requires
            self.wf(),
        ensures
            forall|trip: usize| #[trigger] updated@.contains(trip) <==> trip_is_updated(self@, trip as int),
    {
        let mut updated: Vec<usize> = Vec::new();
        proof {
            self.stop_deltas.slots_match();
            self.canceled_trips.slots_match();
        }
        let ghost slots = self.stop_deltas.slots();
        let mut i: usize = 0;
        while i < self.stop_deltas.len()
            invariant
                self.wf(),
                slots == self.stop_deltas.slots(),
                i <= slots.len(),
                forall|k: int| 0 <= k < updated.len() ==> trip_is_updated(self@, #[trigger] updated[k] as int),
                forall|k: int| 0 <= k < i && self@.deltas[#[trigger] slots[k]].changes_schedule() ==> updated@.contains(slots[k].1 as usize),
            decreases slots.len() - i,
        {
            let key: StoreKey = self.stop_deltas.key_at(i);
            let ghost before = updated@;
            if self.stop_deltas.value_at(i).affects_schedule() {
                assert(self@.deltas.dom().contains(key));
                updated.push(key.1 as usize);
                assert(updated@[before.len() as int] == key.1 as usize);
            }
            assert forall|k: int| 0 <= k <= i && self@.deltas[#[trigger] slots[k]].changes_schedule() implies updated@.contains(slots[k].1 as usize) by {
                if k < i {
                    let at = choose|at: int| 0 <= at < before.len() && before[at] == slots[k].1 as usize;
                    assert(updated@[at] == slots[k].1 as usize);
                }
            }
            i = i + 1;
        }
        let ghost from_deltas = updated@;
        let ghost canceled = self.canceled_trips.slots();
        let mut j: usize = 0;
        while j < self.canceled_trips.len()
            invariant
                self.wf(),
                slots == self.stop_deltas.slots(),
                canceled == self.canceled_trips.slots(),
                j <= canceled.len(),
                forall|k: int| 0 <= k < updated.len() ==> trip_is_updated(self@, #[trigger] updated[k] as int),
                forall|k: int| 0 <= k < slots.len() && self@.deltas[#[trigger] slots[k]].changes_schedule() ==> updated@.contains(slots[k].1 as usize),
                forall|k: int| 0 <= k < j ==> updated@.contains((#[trigger] canceled[k]).1 as usize),
            decreases canceled.len() - j,
        {
            let key: StoreKey = self.canceled_trips.key_at(j);
            let ghost before = updated@;
            assert(self@.canceled.dom().contains(key));
            assert(key == trip_key(key.1 as int));
            updated.push(key.1 as usize);
            assert(updated@[before.len() as int] == key.1 as usize);
            assert forall|k: int| 0 <= k <= j implies updated@.contains((#[trigger] canceled[k]).1 as usize) by {
                if k < j {
                    let at = choose|at: int| 0 <= at < before.len() && before[at] == canceled[k].1 as usize;
                    assert(updated@[at] == canceled[k].1 as usize);
                }
            }
            assert forall|k: int| 0 <= k < slots.len() && self@.deltas[#[trigger] slots[k]].changes_schedule() implies updated@.contains(slots[k].1 as usize) by {
                let at = choose|at: int| 0 <= at < before.len() && before[at] == slots[k].1 as usize;
                assert(updated@[at] == slots[k].1 as usize);
            }
            j = j + 1;
        }
        assert forall|trip: usize| #[trigger] updated@.contains(trip) <==> trip_is_updated(self@, trip as int) by {
            if updated@.contains(trip) {
                let k = choose|k: int| 0 <= k < updated.len() && updated[k] == trip;
                assert(trip_is_updated(self@, updated[k] as int));
            }
            if trip_is_updated(self@, trip as int) {
                if self@.canceled.dom().contains(trip_key(trip as int)) {
                    assert(canceled.contains(trip_key(trip as int)));
                    let k = choose|k: int| 0 <= k < canceled.len() && canceled[k] == trip_key(trip as int);
                    assert(updated@.contains(canceled[k].1 as usize));
                } else {
                    let key = choose|key: StoreKey| #[trigger] self@.deltas.dom().contains(key) && key.1 == trip && self@.deltas[key].changes_schedule();
                    assert(slots.contains(key));
                    let k = choose|k: int| 0 <= k < slots.len() && slots[k] == key;
                    assert(updated@.contains(slots[k].1 as usize));
                }
            }
        }
        updated
    }

    /// The trips whose running is changed, in ascending order.
    pub fn updated_trip_indices(&self) -> (updated: Vec<usize>)
        requires
            self.wf(),
        ensures
            strictly_ascending(updated@),
            forall|trip: usize| #[trigger] updated@.contains(trip) <==> trip_is_updated(self@, trip as int),
    {
        sorted_unique(&self.collect_updated())
    }

    /// For each trip below a count, whether it is canceled.
    pub fn canceled_trip_mask(&self, trip_count: usize) -> (mask: Vec<bool>)
        requires
            self.wf(),
        ensures
            mask.len() == trip_count,
            forall|trip: int| 0 <= trip < trip_count ==> #[trigger] mask[trip] == self@.canceled.dom().contains(trip_key(trip)),
    {
        let mut mask: Vec<bool> = Vec::new();
        let mut trip: usize = 0;
        while trip < trip_count
            invariant
                self.wf(),
                trip <= trip_count,
                mask.len() == trip,
                forall|t: int| 0 <= t < trip ==> #[trigger] mask[t] == self@.canceled.dom().contains(trip_key(t)),
            decreases trip_count - trip,
        {
            mask.push(self.canceled_trips.get((0, trip as u64, 0)).is_some());
            trip = trip + 1;
        }
        mask
    }

    /// For each trip below a count, whether its running is changed.
    pub fn updated_trip_mask(&self, trip_count: usize) -> (mask: Vec<bool>)
        requires
            self.wf(),
        ensures
            mask.len() == trip_count,
            forall|trip: int| 0 <= trip < trip_count ==> #[trigger] mask[trip] == trip_is_updated(self@, trip),
    {
        let updated: Vec<usize> = self.collect_updated();
        let mut mask: Vec<bool> = Vec::new();
        let mut trip: usize = 0;
        while trip < trip_count
            invariant
                trip <= trip_count,
                mask.len() == trip,
                forall|t: int| 0 <= t < trip ==> #[trigger] mask[t] == false,
            decreases trip_count - trip,
        {
            mask.push(false);
            trip = trip + 1;
        }
        let mut i: usize = 0;
        while i < updated.len()
            invariant
                i <= updated.len(),
                mask.len() == trip_count,
                forall|t: int| 0 <= t < trip_count ==> #[trigger] mask[t] == updated@.take(i as int).contains(t as usize),
            decreases updated.len() - i,
        {
            let index: usize = updated[i];
            let ghost before = mask@;
            if index < mask.len() {
                mask.set(index, true);
            }
            assert forall|t: int| 0 <= t < trip_count implies #[trigger] mask[t] == updated@.take(i + 1).contains(t as usize) by {
                let shorter = updated@.take(i as int);
                let longer = updated@.take(i + 1);
                assert(longer[i as int] == index);
                if shorter.contains(t as usize) {
                    let at = choose|at: int| 0 <= at < shorter.len() && shorter[at] == t as usize;
                    assert(longer[at] == t as usize);
                }
                if longer.contains(t as usize) && t != index {
                    let at = choose|at: int| 0 <= at < longer.len() && longer[at] == t as usize;
                    assert(shorter[at] == t as usize);
                }
                assert(before[t] == shorter.contains(t as usize));
            }
            i = i + 1;
        }
        assert(updated@.take(i as int) =~= updated@);
        assert forall|trip: int| 0 <= trip < trip_count implies #[trigger] mask[trip] == trip_is_updated(self@, trip) by {
            assert(mask[trip] == updated@.contains(trip as usize));
        }
        mask
    }

    /// For each trip below a count, the greatest delay that makes a traveller
    /// wait at any of its calls.
    pub fn trip_max_positive_departure_delay_secs(&self, trip_count: usize) -> (delays: Vec<i32>)
        requires
            self.wf(),
        ensures
            delays.len() == trip_count,
            forall|trip: int| 0 <= trip < trip_count ==> {
                &&& 0 <= #[trigger] delays[trip] <= MAX_REASONABLE_DELAY_SECS
                &&& delays[trip] > 0 ==> exists|key: StoreKey| #[trigger] self@.deltas.dom().contains(key) && key.1 == trip && waiting_delay(self@.deltas[key]) == delays[trip]
            },
            forall|key: StoreKey| #[trigger] self@.deltas.dom().contains(key) && key.1 < trip_count ==> waiting_delay(self@.deltas[key]) <= delays[key.1 as int],
    {
        let mut delays: Vec<i32> = Vec::new();
        let mut trip: usize = 0;
        while trip < trip_count
            invariant
                trip <= trip_count,
                delays.len() == trip,
                forall|t: int| 0 <= t < trip ==> #[trigger] delays[t] == 0,
            decreases trip_count - trip,
        {
            delays.push(0);
            trip = trip + 1;
        }
        proof {
            self.stop_deltas.slots_match();
        }
        let ghost slots = self.stop_deltas.slots();
        let mut i: usize = 0;
        while i < self.stop_deltas.len()
            invariant
                self.wf(),
                slots == self.stop_deltas.slots(),
                i <= slots.len(),
                delays.len() == trip_count,
                forall|t: int| 0 <= t < trip_count ==> {
                    &&& 0 <= #[trigger] delays[t] <= MAX_REASONABLE_DELAY_SECS
                    &&& delays[t] > 0 ==> exists|key: StoreKey| #[trigger] self@.deltas.dom().contains(key) && key.1 == t && waiting_delay(self@.deltas[key]) == delays[t]
                },
                forall|k: int| 0 <= k < i && (#[trigger] slots[k]).1 < trip_count ==> waiting_delay(self@.deltas[slots[k]]) <= delays[slots[k].1 as int],
            decreases slots.len() - i,
        {
            let key: StoreKey = self.stop_deltas.key_at(i);
            let shift: i32 = self.stop_deltas.value_at(i).departure_shift_secs();
            let delay: i32 = if shift < 0 { 0 } else if shift > MAX_REASONABLE_DELAY_SECS { MAX_REASONABLE_DELAY_SECS } else { shift };
            assert(self@.deltas.dom().contains(key));
            assert(delay == waiting_delay(self@.deltas[key]));
            let index: usize = key.1 as usize;
            if index < delays.len() && delay > delays[index] {
                delays.set(index, delay);
            }
            i = i + 1;
        }
        assert forall|key: StoreKey| #[trigger] self@.deltas.dom().contains(key) && key.1 < trip_count implies waiting_delay(self@.deltas[key]) <= delays[key.1 as int] by {
            assert(slots.contains(key));
            let k = choose|k: int| 0 <= k < slots.len() && slots[k] == key;
            assert(slots[k].1 < trip_count);
        }
        delays
    }

    /// What is known of a trip at one of its calls.
    pub fn trip_realtime_metrics(&self, trip_index: usize, stop_pos: usize) -> (metrics: TripRealtimeMetrics)
        requires
            self.wf(),
        ensures
            metrics == metrics_at(self@, trip_index as int, stop_pos as int),
    {
        let canceled: bool = self.canceled_trips.get((0, trip_index as u64, 0)).is_some();
        let meta: TripRealtimeMeta = self.meta_of(trip_index);
        let stop_status: Option<i32> = match self.stop_deltas.get((0, trip_index as u64, stop_pos as u64)) {
            Some(delta) => delta.departure_occupancy_status,
            None => None,
        };
        TripRealtimeMetrics {
            has_trip_update: meta.has_trip_update || canceled,
            has_vehicle_position: meta.has_vehicle_position,
            is_canceled: canceled,
            schedule_relationship: match meta.schedule_relationship {
                Some(value) => Some(value),
                None => if canceled { Some(TRIP_CANCELED) } else { None },
            },
            stop_departure_occupancy_status: stop_status,
            vehicle_occupancy_status: meta.vehicle_occupancy_status,
            vehicle_occupancy_percentage: meta.vehicle_occupancy_percentage,
        }
    }

    /// Whether a call is left out.
    pub fn is_stop_skipped(&self, trip_index: usize, stop_pos: usize) -> (skipped: bool)
        requires
            self.wf(),
        ensures
            skipped == call_is_skipped(self@, trip_index as int, stop_pos as int),
    {
        match self.stop_deltas.get((0, trip_index as u64, stop_pos as u64)) {
            Some(delta) => delta.skipped,
            None => false,
        }
    }

    /// The arrival at a call with its delay.
    pub fn actual_arrival(&self, trips: &Vec<TripRecord>, trip_index: usize, stop_pos: usize) -> (arrival: i32)
        requires
            self.wf(),
            trip_index < trips.len(),
            stop_pos < trips[trip_index as int].stop_times@.len(),
            i32::MIN + MAX_REASONABLE_DELAY_SECS <= trips[trip_index as int].stop_times@[stop_pos as int].arrival_secs <= i32::MAX - MAX_REASONABLE_DELAY_SECS,
        ensures
            arrival == arrival_with_delay(self@, trips@, trip_index as int, stop_pos as int),
    {
        let scheduled: i32 = trips[trip_index].stop_times[stop_pos].arrival_secs;
        match self.stop_deltas.get((0, trip_index as u64, stop_pos as u64)) {
            Some(delta) => {
                assert(self.stop_deltas@.dom().contains(call_key(trip_index as int, stop_pos as int)));
                match delta.arrival_delay_secs {
                    Some(delay) => scheduled + delay,
                    None => scheduled,
                }
            },
            None => scheduled,
        }
    }

    /// The departure from a call with its delay.
    pub fn actual_departure(&self, trips: &Vec<TripRecord>, trip_index: usize, stop_pos: usize) -> (departure: i32)
        requires
            self.wf(),
            trip_index < trips.len(),
            stop_pos < trips[trip_index as int].stop_times@.len(),
            i32::MIN + MAX_REASONABLE_DELAY_SECS <= trips[trip_index as int].stop_times@[stop_pos as int].departure_secs <= i32::MAX - MAX_REASONABLE_DELAY_SECS,
        ensures
            departure == departure_with_delay(self@, trips@, trip_index as int, stop_pos as int),
    {
        let scheduled: i32 = trips[trip_index].stop_times[stop_pos].departure_secs;
        match self.stop_deltas.get((0, trip_index as u64, stop_pos as u64)) {
            Some(delta) => {
                assert(self.stop_deltas@.dom().contains(call_key(trip_index as int, stop_pos as int)));
                scheduled + delta.departure_shift_secs()
            },
            None => scheduled,
        }
    }
}

/// What is known of a trip at one of its calls.
pub open spec fn metrics_at(view: RealtimeView, trip: int, stop_pos: int) -> TripRealtimeMetrics {
    let canceled = view.canceled.dom().contains(trip_key(trip));
    let meta = if view.metrics.dom().contains(trip_key(trip)) { view.metrics[trip_key(trip)] } else { blank_meta() };
    TripRealtimeMetrics {
        has_trip_update: meta.has_trip_update || canceled,
        has_vehicle_position: meta.has_vehicle_position,
        is_canceled: canceled,
        schedule_relationship: if meta.schedule_relationship is Some {
            meta.schedule_relationship
        } else if canceled {
            Some(TRIP_CANCELED)
        } else {
            None
        },
        stop_departure_occupancy_status: if view.deltas.dom().contains(call_key(trip, stop_pos)) {
            view.deltas[call_key(trip, stop_pos)].departure_occupancy_status
        } else {
            None
        },
        vehicle_occupancy_status: meta.vehicle_occupancy_status,
        vehicle_occupancy_percentage: meta.vehicle_occupancy_percentage,
    }
}

} // verus!
