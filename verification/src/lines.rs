//! Grouping trips into lines.

use crate::model::{LineRecord, StopLineRef, TripRecord};
use crate::temporal::{finalize_line_temporal_indices, line_fits_trips, line_is_indexed, trips_by_first_departure, LATEST_DEPARTURE_SECS};
use std::collections::hash_map::DefaultHasher;
use std::collections::HashMap;
use std::hash::Hasher;
use vstd::bytes::{spec_u64_to_le_bytes, u64_to_le_bytes};
use vstd::prelude::*;
use vstd::std_specs::hash::DefaultHasherAdditionalSpecFns;

verus! {

/// Trips of one route that call at the same stops in the same order.
pub struct LineGroup {
    pub route_index: usize,
    pub stops: Seq<usize>,
    pub trips: Seq<usize>,
}

/// The stops at which a trip calls.
pub open spec fn called_stops(trip: TripRecord) -> Seq<usize> {
    Seq::new(trip.stop_times@.len(), |i: int| trip.stop_times@[i].stop_index)
}

/// The first group from the `i`th on with a route and stops.
pub open spec fn group_with(groups: Seq<LineGroup>, route: usize, stops: Seq<usize>, i: int) -> Option<int>
    decreases groups.len() - i,
{
    if i >= groups.len() {
        None
    } else if groups[i].route_index == route && groups[i].stops == stops {
        Some(i)
    } else {
        group_with(groups, route, stops, i + 1)
    }
}

/// The groups of the first `n` of the trips listed, in order of first
/// appearance, each with its trips in list order.
pub open spec fn line_groups(trips: Seq<TripRecord>, listed: Seq<usize>, n: int) -> Seq<LineGroup>
    decreases n,
{
    if n <= 0 {
        Seq::empty()
    } else {
        let before = line_groups(trips, listed, n - 1);
        let trip = listed[n - 1];
        let route = trips[trip as int].route_index;
        let stops = called_stops(trips[trip as int]);
        match group_with(before, route, stops, 0) {
            Some(i) => before.update(i, LineGroup { trips: before[i].trips.push(trip), ..before[i] }),
            None => before.push(LineGroup { route_index: route, stops: stops, trips: seq![trip] }),
        }
    }
}

/// What is hashed for a route and stops.
pub open spec fn key_writes(route: usize, stops: Seq<usize>, n: int) -> Seq<Seq<u8>>
    decreases n,
{
    if n <= 0 { seq![spec_u64_to_le_bytes(route as u64)] } else { key_writes(route, stops, n - 1).push(spec_u64_to_le_bytes(stops[n - 1] as u64)) }
}

spec fn key_hash(route: usize, stops: Seq<usize>) -> u64 {
    DefaultHasher::spec_finish(key_writes(route, stops, stops.len() as int))
}

fn hash_key(route: usize, stops: &Vec<usize>) -> (hash: u64)
    ensures
        hash == key_hash(route, stops@),
{
    let mut hasher: DefaultHasher = DefaultHasher::new();
    let first: Vec<u8> = u64_to_le_bytes(route as u64);
    hasher.write(first.as_slice());
    assert(hasher@ =~= key_writes(route, stops@, 0));
    let mut i: usize = 0;
    while i < stops.len()
        invariant
            i <= stops.len(),
            hasher@ == key_writes(route, stops@, i as int),
        decreases stops.len() - i,
    {
        let bytes: Vec<u8> = u64_to_le_bytes(stops[i] as u64);
        hasher.write(bytes.as_slice());
        i = i + 1;
    }
    hasher.finish()
}

/// Whether the trips listed exist, call somewhere, and at times that leave room
/// for a bucket.
pub open spec fn listed_trips_valid(trips: Seq<TripRecord>, listed: Seq<usize>, stop_count: int) -> bool {
    &&& listed.len() <= u32::MAX
    &&& forall|i: int| 0 <= i < listed.len() ==> (#[trigger] listed[i]) < trips.len() && trip_in_bounds(trips[listed[i] as int], stop_count)
}

/// Whether a trip calls somewhere, at known stops and at times that leave room
/// for a bucket.
pub open spec fn trip_in_bounds(trip: TripRecord, stop_count: int) -> bool {
    &&& trip.stop_times@.len() >= 1
    &&& forall|p: int| 0 <= p < trip.stop_times@.len() ==> (#[trigger] trip.stop_times@[p]).departure_secs <= LATEST_DEPARTURE_SECS
        && trip.stop_times@[p].stop_index < stop_count
}

struct GroupBuilder {
    routes: Vec<usize>,
    stops: Vec<Vec<usize>>,
    trips: Vec<Vec<usize>>,
    buckets: HashMap<u64, Vec<usize>>,
}

impl GroupBuilder {
    spec fn groups(&self) -> Seq<LineGroup> {
        Seq::new(self.routes@.len(), |i: int| LineGroup { route_index: self.routes@[i], stops: self.stops@[i]@, trips: self.trips@[i]@ })
    }

    spec fn wf(&self) -> bool {
        &&& self.routes@.len() == self.stops@.len()
        &&& self.routes@.len() == self.trips@.len()
        &&& forall|i: int| 0 <= i < self.routes@.len() ==> {
            let hash = key_hash(#[trigger] self.routes@[i], self.stops@[i]@);
            self.buckets@.dom().contains(hash) && self.buckets@[hash]@.contains(i as usize)
        }
        &&& forall|hash: u64, k: int| #[trigger] self.buckets@.dom().contains(hash) && 0 <= k < self.buckets@[hash]@.len() ==> (#[trigger] self.buckets@[hash]@[k]) < self.routes@.len()
        &&& forall|i: int, j: int| 0 <= i < j < self.routes@.len() ==> !((#[trigger] self.routes@[i]) == (#[trigger] self.routes@[j]) && self.stops@[i]@ == self.stops@[j]@)
    }
}

fn same_list(a: &Vec<usize>, b: &Vec<usize>) -> (same: bool)
    ensures
        same == (a@ == b@),
{
    if a.len() != b.len() {
        return false;
    }
    let mut i: usize = 0;
    while i < a.len()
        invariant
            i <= a.len(),
            a@.len() == b@.len(),
            forall|k: int| 0 <= k < i ==> a@[k] == b@[k],
        decreases a.len() - i,
    {
        if a[i] != b[i] {
            assert(a@[i as int] != b@[i as int]);
            return false;
        }
        i = i + 1;
    }
    assert(a@ =~= b@);
    true
}

proof fn group_with_is(groups: Seq<LineGroup>, route: usize, stops: Seq<usize>, from: int, at: int)
    requires
        0 <= from <= at < groups.len(),
        groups[at].route_index == route && groups[at].stops == stops,
        forall|i: int| from <= i < at ==> !((#[trigger] groups[i]).route_index == route && groups[i].stops == stops),
    ensures
        group_with(groups, route, stops, from) == Some(at),
    decreases at - from,
{
    if from < at {
        group_with_is(groups, route, stops, from + 1, at);
    }
}

proof fn group_with_none(groups: Seq<LineGroup>, route: usize, stops: Seq<usize>, from: int)
    requires
        0 <= from,
        forall|i: int| from <= i < groups.len() ==> !((#[trigger] groups[i]).route_index == route && groups[i].stops == stops),
    ensures
        group_with(groups, route, stops, from) is None,
    decreases groups.len() - from,
{
    if from < groups.len() {
        group_with_none(groups, route, stops, from + 1);
    }
}

impl GroupBuilder {
    fn find(&self, route: usize, stops: &Vec<usize>, hash: u64) -> (found: Option<usize>)
        requires
            self.wf(),
            hash == key_hash(route, stops@),
        ensures
            (match found { Some(i) => Some(i as int), None => None }) == group_with(self.groups(), route, stops@, 0),
            found is Some ==> found->0 < self.routes@.len(),
    {
        let ghost groups = self.groups();
        match self.buckets.get(&hash) {
            None => {
                proof {
                    assert forall|i: int| 0 <= i < groups.len() implies !((#[trigger] groups[i]).route_index == route && groups[i].stops == stops@) by {
                        assert(self.buckets@.dom().contains(key_hash(self.routes@[i], self.stops@[i]@)));
                    }
                    group_with_none(groups, route, stops@, 0);
                }
                None
            },
            Some(bucket) => {
                let mut k: usize = 0;
                while k < bucket.len()
                    invariant
                        k <= bucket.len(),
                        self.wf(),
                        groups == self.groups(),
                        hash == key_hash(route, stops@),
                        self.buckets@.dom().contains(hash),
                        *bucket == self.buckets@[hash],
                        forall|m: int| 0 <= m < k ==> !(self.routes@[#[trigger] bucket@[m] as int] == route && self.stops@[bucket@[m] as int]@ == stops@),
                    decreases bucket.len() - k,
                {
                    let i: usize = bucket[k];
                    assert(self.buckets@[hash]@[k as int] < self.routes@.len());
                    if self.routes[i] == route && same_list(&self.stops[i], stops) {
                        proof {
                            assert forall|j: int| 0 <= j < i implies !((#[trigger] groups[j]).route_index == route && groups[j].stops == stops@) by {
                                assert(!(self.routes@[j] == self.routes@[i as int] && self.stops@[j]@ == self.stops@[i as int]@));
                            }
                            group_with_is(groups, route, stops@, 0, i as int);
                        }
                        return Some(i);
                    }
                    k = k + 1;
                }
                let count: usize = self.routes.len();
                proof {
                    assert(groups.len() == count);
                    assert forall|i: int| 0 <= i < groups.len() implies !((#[trigger] groups[i]).route_index == route && groups[i].stops == stops@) by {
                        if groups[i].route_index == route && groups[i].stops == stops@ {
                            assert(self.buckets@[key_hash(self.routes@[i], self.stops@[i]@)]@.contains(i as usize));
                            let m = choose|m: int| 0 <= m < bucket@.len() && bucket@[m] == i as usize;
                            assert(self.routes@[bucket@[m] as int] == route);
                        }
                    }
                    group_with_none(groups, route, stops@, 0);
                }
                None
            },
        }
    }

    fn start_group(&mut self, route: usize, stops: Vec<usize>, hash: u64, trip: usize)
        requires
            old(self).wf(),
            hash == key_hash(route, stops@),
            group_with(old(self).groups(), route, stops@, 0) is None,
        ensures
            final(self).wf(),
            final(self).groups() == old(self).groups().push(LineGroup { route_index: route, stops: stops@, trips: seq![trip] }),
    {
        let ghost before = *self;
        let ghost view = stops@;
        let index: usize = self.routes.len();
        let mut bucket: Vec<usize> = match self.buckets.get(&hash) {
            None => Vec::new(),
            Some(list) => crate::query_rounds::copy_indices(list),
        };
        let ghost listed = bucket@;
        bucket.push(index);
        let mut list: Vec<usize> = Vec::new();
        list.push(trip);
        self.buckets.insert(hash, bucket);
        self.routes.push(route);
        self.stops.push(stops);
        self.trips.push(list);
        proof {
            let new_bucket = self.buckets@[hash]@;
            assert(new_bucket == listed.push(index));
            assert forall|i: int| 0 <= i < self.routes@.len() implies ({
                let h = key_hash(#[trigger] self.routes@[i], self.stops@[i]@);
                self.buckets@.dom().contains(h) && self.buckets@[h]@.contains(i as usize)
            }) by {
                if i < index {
                    let h = key_hash(before.routes@[i], before.stops@[i]@);
                    assert(before.buckets@.dom().contains(h) && before.buckets@[h]@.contains(i as usize));
                    if h == hash {
                        let m = choose|m: int| 0 <= m < listed.len() && listed[m] == i as usize;
                        assert(new_bucket[m] == i as usize);
                    }
                } else {
                    assert(new_bucket[listed.len() as int] == index);
                }
            }
            assert forall|h: u64, k: int| #[trigger] self.buckets@.dom().contains(h) && 0 <= k < self.buckets@[h]@.len() implies (#[trigger] self.buckets@[h]@[k]) < self.routes@.len() by {
                if h == hash {
                    if k < listed.len() {
                        assert(before.buckets@.dom().contains(h));
                        assert(before.buckets@[h]@[k] < before.routes@.len());
                    }
                } else {
                    assert(before.buckets@[h]@[k] < before.routes@.len());
                }
            }
            assert forall|i: int, j: int| 0 <= i < j < self.routes@.len() implies !((#[trigger] self.routes@[i]) == (#[trigger] self.routes@[j]) && self.stops@[i]@ == self.stops@[j]@) by {
                if j < index {
                    assert(!(before.routes@[i] == before.routes@[j] && before.stops@[i]@ == before.stops@[j]@));
                } else {
                    group_absent(before.groups(), route, view, 0, i);
                    assert(before.groups()[i].route_index == before.routes@[i]);
                }
            }
            assert(list@ =~= seq![trip]);
            assert(self.groups() =~= before.groups().push(LineGroup { route_index: route, stops: view, trips: seq![trip] }));
        }
    }
}

proof fn group_absent(groups: Seq<LineGroup>, route: usize, stops: Seq<usize>, from: int, i: int)
    requires
        0 <= from <= i < groups.len(),
        group_with(groups, route, stops, from) is None,
    ensures
        !(groups[i].route_index == route && groups[i].stops == stops),
    decreases i - from,
{
    if from < i {
        group_absent(groups, route, stops, from + 1, i);
    }
}

fn collect_stops(trip: &TripRecord) -> (stops: Vec<usize>)
    ensures
        stops@ == called_stops(*trip),
{
    let mut stops: Vec<usize> = Vec::new();
    let mut i: usize = 0;
    while i < trip.stop_times.len()
        invariant
            i <= trip.stop_times.len(),
            stops@.len() == i,
            forall|k: int| 0 <= k < i ==> #[trigger] stops@[k] == trip.stop_times@[k].stop_index,
        decreases trip.stop_times.len() - i,
    {
        stops.push(trip.stop_times[i].stop_index);
        i = i + 1;
    }
    assert(stops@ =~= called_stops(*trip));
    stops
}

proof fn groups_fit(trips: Seq<TripRecord>, listed: Seq<usize>, n: int, stop_count: int)
    requires
        listed_trips_valid(trips, listed, stop_count),
        0 <= n <= listed.len(),
    ensures
        line_groups(trips, listed, n).len() <= n,
        forall|g: int| 0 <= g < line_groups(trips, listed, n).len() ==> {
            let group = #[trigger] line_groups(trips, listed, n)[g];
            &&& group.trips.len() <= n
            &&& forall|i: int| 0 <= i < group.trips.len() ==> (#[trigger] group.trips[i]) < trips.len() && called_stops(trips[group.trips[i] as int]) == group.stops
                && trip_in_bounds(trips[group.trips[i] as int], stop_count) && trips[group.trips[i] as int].route_index == group.route_index
            &&& group.trips.len() > 0
        },
    decreases n,
{
    if n > 0 {
        groups_fit(trips, listed, n - 1, stop_count);
        let before = line_groups(trips, listed, n - 1);
        let after = line_groups(trips, listed, n);
        let trip = listed[n - 1];
        let route = trips[trip as int].route_index;
        let stops = called_stops(trips[trip as int]);
        group_with_range(before, route, stops, 0);
        assert(listed[n - 1] < trips.len() && trip_in_bounds(trips[listed[n - 1] as int], stop_count));
        assert forall|g: int| 0 <= g < after.len() implies ({
            let group = #[trigger] after[g];
            &&& group.trips.len() <= n
            &&& forall|i: int| 0 <= i < group.trips.len() ==> (#[trigger] group.trips[i]) < trips.len() && called_stops(trips[group.trips[i] as int]) == group.stops
                && trip_in_bounds(trips[group.trips[i] as int], stop_count) && trips[group.trips[i] as int].route_index == group.route_index
            &&& group.trips.len() > 0
        }) by {
            if g < before.len() {
                let old_group = before[g];
                assert(old_group.trips.len() <= n - 1);
                let group = after[g];
                assert forall|i: int| 0 <= i < group.trips.len() implies (#[trigger] group.trips[i]) < trips.len() && called_stops(trips[group.trips[i] as int]) == group.stops
                    && trip_in_bounds(trips[group.trips[i] as int], stop_count) && trips[group.trips[i] as int].route_index == group.route_index by {
                    if i < old_group.trips.len() {
                        assert(old_group.trips[i] == group.trips[i]);
                    }
                }
            }
        }
    }
}

proof fn group_with_range(groups: Seq<LineGroup>, route: usize, stops: Seq<usize>, from: int)
    requires
        0 <= from,
    ensures
        match group_with(groups, route, stops, from) {
            Some(i) => from <= i < groups.len() && groups[i].route_index == route && groups[i].stops == stops,
            None => true,
        },
    decreases groups.len() - from,
{
    if from < groups.len() && !(groups[from].route_index == route && groups[from].stops == stops) {
        group_with_range(groups, route, stops, from + 1);
    }
}

/// Whether lines are the groups of the trips listed, each with its trips by first
/// departure and its departure tables.
pub open spec fn lines_of(lines: Seq<LineRecord>, trips: Seq<TripRecord>, listed: Seq<usize>) -> bool {
    let groups = line_groups(trips, listed, listed.len() as int);
    &&& lines.len() == groups.len()
    &&& forall|l: int| 0 <= l < lines.len() ==> {
        &&& (#[trigger] lines[l]).stop_indices@ == groups[l].stops
        &&& trips_by_first_departure(trips, groups[l].trips, lines[l].trip_indices@)
        &&& line_is_indexed(lines[l], trips)
    }
}

/// Where a line calls at a stop, among its first `n` positions.
pub open spec fn calls_at(line_index: int, stops: Seq<usize>, stop: int, n: int) -> Seq<StopLineRef>
    decreases n,
{
    if n <= 0 {
        Seq::empty()
    } else {
        let before = calls_at(line_index, stops, stop, n - 1);
        if stops[n - 1] == stop { before.push(StopLineRef { line_index: line_index as usize, stop_pos: (n - 1) as usize }) } else { before }
    }
}

/// Where the first `n` lines call at a stop.
pub open spec fn lines_at(lines: Seq<LineRecord>, stop: int, n: int) -> Seq<StopLineRef>
    decreases n,
{
    if n <= 0 {
        Seq::empty()
    } else {
        let stops = lines[n - 1].stop_indices@;
        lines_at(lines, stop, n - 1) + calls_at(n - 1, stops, stop, stops.len() as int)
    }
}

fn group_trips(trips: &Vec<TripRecord>, listed: &Vec<usize>, Ghost(stop_count): Ghost<int>) -> (lines: Vec<LineRecord>)
    requires
        listed_trips_valid(trips@, listed@, stop_count),
    ensures
        lines@.len() == line_groups(trips@, listed@, listed@.len() as int).len(),
        forall|l: int| 0 <= l < lines@.len() ==> {
            let group = line_groups(trips@, listed@, listed@.len() as int)[l];
            (#[trigger] lines@[l]).stop_indices@ == group.stops && lines@[l].trip_indices@ == group.trips
        },
{
    let mut builder: GroupBuilder = GroupBuilder { routes: Vec::new(), stops: Vec::new(), trips: Vec::new(), buckets: HashMap::new() };
    assert(builder.groups() =~= Seq::<LineGroup>::empty());
    let mut i: usize = 0;
    while i < listed.len()
        invariant
            i <= listed.len(),
            listed_trips_valid(trips@, listed@, stop_count),
            builder.wf(),
            builder.groups() == line_groups(trips@, listed@, i as int),
        decreases listed.len() - i,
    {
        let trip_index: usize = listed[i];
        assert(listed@[i as int] < trips@.len());
        let trip: &TripRecord = &trips[trip_index];
        let stops: Vec<usize> = collect_stops(trip);
        let hash: u64 = hash_key(trip.route_index, &stops);
        match builder.find(trip.route_index, &stops, hash) {
            Some(g) => {
                let ghost before = builder;
                builder.trips[g].push(trip_index);
                proof {
                    let groups = before.groups();
                    assert(builder.groups() =~= groups.update(g as int, LineGroup { trips: groups[g as int].trips.push(trip_index), ..groups[g as int] }));
                }
            },
            None => {
                builder.start_group(trip.route_index, stops, hash, trip_index);
            },
        }
        i = i + 1;
    }
    let ghost groups = builder.groups();
    let ghost all = builder;
    let mut lines: Vec<LineRecord> = Vec::new();
    let mut stop_lists: Vec<Vec<usize>> = builder.stops;
    let mut trip_lists: Vec<Vec<usize>> = builder.trips;
    let count: usize = stop_lists.len();
    let mut l: usize = 0;
    while l < count
        invariant
            l <= count,
            stop_lists@.len() == count,
            trip_lists@.len() == count,
            groups.len() == count,
            forall|k: int| l <= k < count ==> (#[trigger] stop_lists@[k])@ == groups[k].stops,
            forall|k: int| l <= k < count ==> (#[trigger] trip_lists@[k])@ == groups[k].trips,
            lines@.len() == l,
            forall|k: int| 0 <= k < l ==> (#[trigger] lines@[k]).stop_indices@ == groups[k].stops && lines@[k].trip_indices@ == groups[k].trips,
        decreases count - l,
    {
        let mut stops: Vec<usize> = Vec::new();
        let mut list: Vec<usize> = Vec::new();
        assert(stop_lists@[l as int]@ == groups[l as int].stops);
        assert(trip_lists@[l as int]@ == groups[l as int].trips);
        std::mem::swap(&mut stops, &mut stop_lists[l]);
        std::mem::swap(&mut list, &mut trip_lists[l]);
        lines.push(
            LineRecord {
                stop_indices: stops,
                trip_indices: list,
                scheduled_departures_by_stop: Vec::new(),
                chronos_bucket_start_indices_by_stop: Vec::new(),
                binary_searchable_by_stop: Vec::new(),
                trip_order_indirection_by_stop: Vec::new(),
            },
        );
        l = l + 1;
    }
    lines
}

/// Groups the trips listed into lines, and lists for each stop where lines call.
pub fn rebuild_lines_and_stop_to_lines(trips: &Vec<TripRecord>, active_trip_indices: &Vec<usize>, stop_count: usize) -> (result: (Vec<LineRecord>, Vec<Vec<StopLineRef>>))
    requires
        listed_trips_valid(trips@, active_trip_indices@, stop_count as int),
    ensures
        lines_of(result.0@, trips@, active_trip_indices@),
        result.1@.len() == stop_count,
        forall|s: int| 0 <= s < stop_count ==> (#[trigger] result.1@[s])@ == lines_at(result.0@, s, result.0@.len() as int),
{
    let mut lines: Vec<LineRecord> = group_trips(trips, active_trip_indices, Ghost(stop_count as int));
    let ghost groups = line_groups(trips@, active_trip_indices@, active_trip_indices@.len() as int);
    proof {
        groups_fit(trips@, active_trip_indices@, active_trip_indices@.len() as int, stop_count as int);
        assert forall|l: int| 0 <= l < lines.len() implies #[trigger] line_fits_trips(lines[l], trips@) by {
            let group = groups[l];
            assert(lines@[l].stop_indices@ == group.stops && lines@[l].trip_indices@ == group.trips);
            assert forall|i: int| 0 <= i < lines[l].trip_indices.len() implies ({
                let trip = #[trigger] lines[l].trip_indices[i];
                &&& trip < trips.len()
                &&& 1 <= trips[trip as int].stop_times.len() <= lines[l].stop_indices.len()
                &&& forall|p: int| 0 <= p < trips[trip as int].stop_times.len() ==> (#[trigger] trips[trip as int].stop_times[p]).departure_secs <= LATEST_DEPARTURE_SECS
            }) by {
                assert(group.trips[i] < trips@.len());
                let trip = group.trips[i];
                assert(called_stops(trips@[trip as int]) == group.stops);
                assert(called_stops(trips@[trip as int]).len() == trips@[trip as int].stop_times@.len());
                assert forall|p: int| 0 <= p < trips[trip as int].stop_times.len() implies (#[trigger] trips[trip as int].stop_times[p]).departure_secs <= LATEST_DEPARTURE_SECS by {
                    assert(trips@[trip as int].stop_times@[p].departure_secs <= LATEST_DEPARTURE_SECS);
                }
            }
        }
    }
    finalize_line_temporal_indices(&mut lines, trips);
    proof {
        assert forall|l: int| 0 <= l < lines@.len() implies {
            &&& (#[trigger] lines@[l]).stop_indices@ == groups[l].stops
            &&& trips_by_first_departure(trips@, groups[l].trips, lines@[l].trip_indices@)
            &&& line_is_indexed(lines@[l], trips@)
        } by {
            assert(lines[l].stop_indices@ == groups[l].stops);
        }
        assert forall|l: int, p: int| 0 <= l < lines@.len() && 0 <= p < lines@[l].stop_indices@.len() implies (#[trigger] lines@[l].stop_indices@[p]) < stop_count by {
            let group = groups[l];
            assert(lines@[l].stop_indices@ == group.stops);
            assert(group.trips[0] < trips@.len());
            let trip = trips@[group.trips[0] as int];
            assert(called_stops(trip) == group.stops);
            assert(called_stops(trip)[p] == trip.stop_times@[p].stop_index);
            assert(trip.stop_times@[p].stop_index < stop_count);
        }
    }
    let mut stop_to_lines: Vec<Vec<StopLineRef>> = Vec::new();
    let mut s: usize = 0;
    while s < stop_count
        invariant
            s <= stop_count,
            stop_to_lines@.len() == s,
            forall|k: int| 0 <= k < s ==> (#[trigger] stop_to_lines@[k])@ == Seq::<StopLineRef>::empty(),
        decreases stop_count - s,
    {
        let empty: Vec<StopLineRef> = Vec::new();
        assert(empty@ =~= Seq::<StopLineRef>::empty());
        stop_to_lines.push(empty);
        s = s + 1;
    }
    let mut l: usize = 0;
    while l < lines.len()
        invariant
            l <= lines.len(),
            stop_to_lines@.len() == stop_count,
            forall|a: int, p: int| 0 <= a < lines@.len() && 0 <= p < lines@[a].stop_indices@.len() ==> (#[trigger] lines@[a].stop_indices@[p]) < stop_count,
            forall|k: int| 0 <= k < stop_count ==> (#[trigger] stop_to_lines@[k])@ == lines_at(lines@, k, l as int),
        decreases lines.len() - l,
    {
        let line: &LineRecord = &lines[l];
        let mut pos: usize = 0;
        proof {
            assert forall|k: int| 0 <= k < stop_count implies (#[trigger] stop_to_lines@[k])@ == lines_at(lines@, k, l as int) + calls_at(l as int, line.stop_indices@, k, 0) by {
                assert(lines_at(lines@, k, l as int) + Seq::<StopLineRef>::empty() =~= lines_at(lines@, k, l as int));
            }
        }
        while pos < line.stop_indices.len()
            invariant
                l < lines@.len(),
                *line == lines@[l as int],
                pos <= line.stop_indices.len(),
                stop_to_lines@.len() == stop_count,
                forall|a: int, p: int| 0 <= a < lines@.len() && 0 <= p < lines@[a].stop_indices@.len() ==> (#[trigger] lines@[a].stop_indices@[p]) < stop_count,
                forall|k: int| 0 <= k < stop_count ==> (#[trigger] stop_to_lines@[k])@ == lines_at(lines@, k, l as int) + calls_at(l as int, line.stop_indices@, k, pos as int),
            decreases line.stop_indices.len() - pos,
        {
            let stop: usize = line.stop_indices[pos];
            assert(lines@[l as int].stop_indices@[pos as int] < stop_count);
            let ghost before = stop_to_lines@;
            let entry: StopLineRef = StopLineRef { line_index: l, stop_pos: pos };
            stop_to_lines[stop].push(entry);
            assert forall|k: int| 0 <= k < stop_count implies (#[trigger] stop_to_lines@[k])@ == lines_at(lines@, k, l as int) + calls_at(l as int, line.stop_indices@, k, pos + 1) by {
                assert(before[k]@ == lines_at(lines@, k, l as int) + calls_at(l as int, line.stop_indices@, k, pos as int));
                if k == stop {
                    assert(stop_to_lines@[k]@ == before[k]@.push(entry));
                    assert(before[k]@.push(entry) =~= lines_at(lines@, k, l as int) + calls_at(l as int, line.stop_indices@, k, pos as int).push(entry));
                }
            }
            pos = pos + 1;
        }
        l = l + 1;
    }
    (lines, stop_to_lines)
}

/// Each of the lines listed for a stop calls there, and each call of a line is
/// listed.
pub proof fn lines_at_are_calls(lines: Seq<LineRecord>, stop: int, n: int)
    requires
        0 <= n <= lines.len() <= usize::MAX,
        forall|l: int| 0 <= l < lines.len() ==> (#[trigger] lines[l]).stop_indices@.len() <= usize::MAX,
    ensures
        forall|i: int| 0 <= i < lines_at(lines, stop, n).len() ==> {
            let entry = #[trigger] lines_at(lines, stop, n)[i];
            entry.line_index < n && entry.stop_pos < lines[entry.line_index as int].stop_indices@.len() && lines[entry.line_index as int].stop_indices@[entry.stop_pos as int] == stop
        },
        forall|l: int, p: int| 0 <= l < n && 0 <= p < lines[l].stop_indices@.len() && #[trigger] lines[l].stop_indices@[p] == stop ==> lines_at(lines, stop, n).contains(
            StopLineRef { line_index: l as usize, stop_pos: p as usize },
        ),
    decreases n,
{
    if n > 0 {
        lines_at_are_calls(lines, stop, n - 1);
        let stops = lines[n - 1].stop_indices@;
        let before = lines_at(lines, stop, n - 1);
        let added = calls_at(n - 1, stops, stop, stops.len() as int);
        let after = lines_at(lines, stop, n);
        calls_at_are_calls(n - 1, stops, stop, stops.len() as int);
        assert forall|i: int| 0 <= i < after.len() implies ({
            let entry = #[trigger] after[i];
            entry.line_index < n && entry.stop_pos < lines[entry.line_index as int].stop_indices@.len() && lines[entry.line_index as int].stop_indices@[entry.stop_pos as int] == stop
        }) by {
            if i < before.len() {
                assert(after[i] == before[i]);
            } else {
                assert(after[i] == added[i - before.len()]);
            }
        }
        assert forall|l: int, p: int| 0 <= l < n && 0 <= p < lines[l].stop_indices@.len() && #[trigger] lines[l].stop_indices@[p] == stop implies after.contains(
            StopLineRef { line_index: l as usize, stop_pos: p as usize },
        ) by {
            let entry = StopLineRef { line_index: l as usize, stop_pos: p as usize };
            if l < n - 1 {
                assert(before.contains(entry));
                let k = choose|k: int| 0 <= k < before.len() && before[k] == entry;
                assert(after[k] == entry);
            } else {
                assert(added.contains(entry));
                let k = choose|k: int| 0 <= k < added.len() && added[k] == entry;
                assert(after[before.len() + k] == entry);
            }
        }
    }
}

proof fn calls_at_are_calls(line_index: int, stops: Seq<usize>, stop: int, n: int)
    requires
        0 <= n <= stops.len() <= usize::MAX,
        0 <= line_index <= usize::MAX,
    ensures
        forall|i: int| 0 <= i < calls_at(line_index, stops, stop, n).len() ==> {
            let entry = #[trigger] calls_at(line_index, stops, stop, n)[i];
            entry.line_index == line_index && entry.stop_pos < n && stops[entry.stop_pos as int] == stop
        },
        forall|p: int| 0 <= p < n && #[trigger] stops[p] == stop ==> calls_at(line_index, stops, stop, n).contains(
            StopLineRef { line_index: line_index as usize, stop_pos: p as usize },
        ),
    decreases n,
{
    if n > 0 {
        calls_at_are_calls(line_index, stops, stop, n - 1);
        let before = calls_at(line_index, stops, stop, n - 1);
        let after = calls_at(line_index, stops, stop, n);
        assert forall|p: int| 0 <= p < n && #[trigger] stops[p] == stop implies after.contains(StopLineRef { line_index: line_index as usize, stop_pos: p as usize }) by {
            let entry = StopLineRef { line_index: line_index as usize, stop_pos: p as usize };
            if p < n - 1 {
                assert(before.contains(entry));
                let k = choose|k: int| 0 <= k < before.len() && before[k] == entry;
                assert(after[k] == entry);
            } else {
                assert(after[before.len() as int] == entry);
            }
        }
    }
}

proof fn full_departures(trips: Seq<TripRecord>, trip_indices: Seq<usize>, stop_pos: int)
    requires
        forall|i: int| 0 <= i < trip_indices.len() ==> stop_pos < trips[#[trigger] trip_indices[i] as int].stop_times@.len(),
    ensures
        crate::temporal::departures_at(trips, trip_indices, stop_pos).len() == trip_indices.len(),
    decreases trip_indices.len(),
{
    if trip_indices.len() > 0 {
        let head = trip_indices.drop_last();
        assert forall|i: int| 0 <= i < head.len() implies stop_pos < trips[#[trigger] head[i] as int].stop_times@.len() by {
            assert(head[i] == trip_indices[i]);
        }
        full_departures(trips, head, stop_pos);
        assert(trip_indices.last() == trip_indices[trip_indices.len() - 1]);
    }
}

/// Lines that were built of trips can be searched.
pub proof fn built_lines_are_valid(lines: Seq<LineRecord>, trips: Seq<TripRecord>, listed: Seq<usize>, stop_count: int)
    requires
        lines_of(lines, trips, listed),
        listed_trips_valid(trips, listed, stop_count),
    ensures
        forall|l: int| 0 <= l < lines.len() ==> crate::search::line_valid(#[trigger] lines[l], trips, stop_count),
        forall|l: int| 0 <= l < lines.len() ==> (#[trigger] lines[l]).trip_indices@.len() <= u32::MAX && line_is_indexed(lines[l], trips),
{
    let groups = line_groups(trips, listed, listed.len() as int);
    groups_fit(trips, listed, listed.len() as int, stop_count);
    assert forall|l: int| 0 <= l < lines.len() implies (#[trigger] lines[l]).trip_indices@.len() <= u32::MAX && line_is_indexed(lines[l], trips) by {
        let group = groups[l];
        assert(trips_by_first_departure(trips, group.trips, lines[l].trip_indices@));
        assert(crate::temporal::first_departure_keys(trips, group.trips).len() == group.trips.len());
    }
    assert forall|l: int| 0 <= l < lines.len() implies crate::search::line_valid(#[trigger] lines[l], trips, stop_count) by {
        let line = lines[l];
        let group = groups[l];
        assert(trips_by_first_departure(trips, group.trips, line.trip_indices@));
        let order = choose|order: Seq<usize>|
            #[trigger] crate::order::is_stable_order(crate::temporal::first_departure_keys(trips, group.trips), order) && line.trip_indices@ == crate::order::arranged(group.trips, order);
        assert(crate::temporal::first_departure_keys(trips, group.trips).len() == group.trips.len());
        assert forall|i: int| 0 <= i < line.trip_indices@.len() implies (#[trigger] line.trip_indices@[i]) < trips.len() && called_stops(trips[line.trip_indices@[i] as int])
            == group.stops by {
            assert(order[i] < group.trips.len());
            assert(line.trip_indices@[i] == group.trips[order[i] as int]);
        }
        assert forall|i: int| 0 <= i < line.trip_indices@.len() implies crate::search::serves(trips[#[trigger] line.trip_indices@[i] as int], line.stop_indices@) by {
            let trip = trips[line.trip_indices@[i] as int];
            assert(called_stops(trip).len() == trip.stop_times@.len());
            assert forall|p: int| 0 <= p < line.stop_indices@.len() implies (#[trigger] trip.stop_times@[p]).stop_index == line.stop_indices@[p] by {
                assert(called_stops(trip)[p] == trip.stop_times@[p].stop_index);
            }
        }
        assert forall|p: int| 0 <= p < line.stop_indices@.len() implies (#[trigger] line.stop_indices@[p]) < stop_count by {
            let trip = trips[group.trips[0] as int];
            assert(called_stops(trip) == group.stops);
            assert(called_stops(trip)[p] == trip.stop_times@[p].stop_index);
            assert(trip_in_bounds(trip, stop_count));
        }
        assert forall|p: int| 0 <= p < line.stop_indices@.len() implies (#[trigger] line.scheduled_departures_by_stop@[p])@.len() >= crate::temporal::temporal_len(line, p) by {
            assert(line_is_indexed(line, trips));
            assert(crate::temporal::position_is_indexed(line, trips, p));
            let departures = crate::temporal::departures_at(trips, line.trip_indices@, p);
            assert forall|i: int| 0 <= i < line.trip_indices@.len() implies p < trips[#[trigger] line.trip_indices@[i] as int].stop_times@.len() by {}
            full_departures(trips, line.trip_indices@, p);
            assert(line.scheduled_departures_by_stop[p]@.len() == line.scheduled_departures_by_stop@[p]@.len());
            if !crate::temporal::non_decreasing(departures) {
                let sorted = choose|order: Seq<usize>| {
                    &&& #[trigger] crate::order::is_stable_order(crate::temporal::value_keys(departures), order)
                    &&& line.scheduled_departures_by_stop[p]@ == crate::order::arranged(departures, order)
                    &&& line.trip_order_indirection_by_stop[p]@ == Seq::new(order.len(), |i: int| order[i] as u32)
                };
                assert(sorted.len() == crate::temporal::value_keys(departures).len());
            }
        }
    }
}

} // verus!
