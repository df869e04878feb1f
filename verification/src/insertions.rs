//! What a query leaves for later ones to remember.

use crate::leg::{copy_legs, count_rides, leading_on, leg_valid, legs_arrive, legs_join, legs_lead, legs_valid, part_leads, rest_leads, ride_count, CachedLeg};
use crate::model::{RouteRecord, StaticData, StopLineRef, TripRecord};
use crate::profile_cache::{ProfileInsertionPoint, SpatialProfileInsertionPoint};
use crate::realtime::{arrival_with_delay, departure_with_delay, trip_calls_valid};
use crate::search::SearchContext;
use crate::text::{contains_text, occurs_in};
use vstd::prelude::*;
use vstd::string::*;

verus! {

/// Whether a leg is between stops of the timetable.
pub open spec fn leg_is_static(leg: CachedLeg, stops: int) -> bool {
    match leg {
        CachedLeg::Walk { from_stop, to_stop, .. } => from_stop < stops && to_stop < stops,
        CachedLeg::Transit { board_stop, alight_stop, .. } => board_stop < stops && alight_stop < stops,
    }
}

/// The first `n` legs without those from or to a place outside the timetable.
pub open spec fn static_legs(legs: Seq<CachedLeg>, stops: int, n: int) -> Seq<CachedLeg>
    decreases n,
{
    if n <= 0 {
        Seq::empty()
    } else if leg_is_static(legs[n - 1], stops) {
        static_legs(legs, stops, n - 1).push(legs[n - 1])
    } else {
        static_legs(legs, stops, n - 1)
    }
}

/// The legs of a journey between stops of the timetable are without a gap: only
/// where the journey begins and where it ends can a place be that is no stop.
pub proof fn static_legs_join(legs: Seq<CachedLeg>, from: int, to: int, stops: int, n: int)
    requires
        legs_lead(legs, from, to, stops),
        0 <= n <= legs.len(),
    ensures
        legs_join(static_legs(legs, stops, n), stops),
        n > 0 && static_legs(legs, stops, n).len() > 0 && leg_is_static(legs[n - 1], stops) ==> static_legs(legs, stops, n).last() == legs[n - 1],
        n > 0 && static_legs(legs, stops, n).len() > 0 && to < stops ==> static_legs(legs, stops, n).last() == legs[n - 1],
    decreases n,
{
    if n > 0 {
        static_legs_join(legs, from, to, stops, n - 1);
        let before = static_legs(legs, stops, n - 1);
        let after = static_legs(legs, stops, n);
        let leg = legs[n - 1];
        assert(n > 1 ==> leg.source() < stops && legs[n - 2].target() == leg.source());
        if n < legs.len() {
            assert(legs[n].source() == leg.target() && legs[n].source() < stops);
        }
        if n > 1 && before.len() > 0 {
            if n > 2 {
                assert(legs[n - 2].source() < stops);
            } else {
                assert(static_legs(legs, stops, 0).len() == 0);
            }
            assert(leg_is_static(legs[n - 2], stops));
        }
        if leg_is_static(leg, stops) {
            assert(after == before.push(leg));
            assert forall|i: int| 0 < i < after.len() implies after[i - 1].target() == (#[trigger] after[i]).source() && after[i].source() < stops by {
                if i < before.len() {
                    assert(after[i] == before[i] && after[i - 1] == before[i - 1]);
                } else {
                    assert(after[i - 1] == before.last());
                }
            }
        } else if n == 1 {
            assert(before.len() == 0);
        }
    }
}

/// The trips ridden, in order.
pub open spec fn ridden_trips(legs: Seq<CachedLeg>) -> Seq<usize>
    decreases legs.len(),
{
    if legs.len() == 0 {
        Seq::empty()
    } else {
        let before = ridden_trips(legs.drop_last());
        match legs.last().trip() {
            Some(trip) => before.push(trip),
            None => before,
        }
    }
}

/// The legs between stops of the timetable.
pub fn cacheable_raw_legs(raw_legs: &Vec<CachedLeg>, static_stop_count: usize, Ghost(trips): Ghost<Seq<TripRecord>>, Ghost(stops): Ghost<int>) -> (legs: Vec<CachedLeg>)
    requires
        legs_valid(raw_legs@, trips, stops),
    ensures
        legs@ == static_legs(raw_legs@, static_stop_count as int, raw_legs@.len() as int),
        legs_valid(legs@, trips, static_stop_count as int),
{
    let mut legs: Vec<CachedLeg> = Vec::new();
    let mut i: usize = 0;
    while i < raw_legs.len()
        invariant
            i <= raw_legs.len(),
            legs_valid(raw_legs@, trips, stops),
            legs@ == static_legs(raw_legs@, static_stop_count as int, i as int),
            legs_valid(legs@, trips, static_stop_count as int),
        decreases raw_legs.len() - i,
    {
        let leg: CachedLeg = raw_legs[i];
        assert(leg_valid(raw_legs@[i as int], trips, stops));
        let keep: bool = match leg {
            CachedLeg::Walk { from_stop, to_stop, .. } => from_stop < static_stop_count && to_stop < static_stop_count,
            CachedLeg::Transit { board_stop, alight_stop, .. } => board_stop < static_stop_count && alight_stop < static_stop_count,
        };
        if keep {
            let ghost before = legs@;
            legs.push(leg);
            assert forall|k: int| 0 <= k < legs@.len() implies leg_valid(#[trigger] legs@[k], trips, static_stop_count as int) by {
                if k < before.len() {
                    assert(leg_valid(before[k], trips, static_stop_count as int));
                }
            }
        }
        i = i + 1;
    }
    legs
}

fn collect_trips(legs: &Vec<CachedLeg>) -> (trips: Vec<usize>)
    ensures
        trips@ == ridden_trips(legs@),
{
    let mut trips: Vec<usize> = Vec::new();
    let mut i: usize = 0;
    while i < legs.len()
        invariant
            i <= legs.len(),
            trips@ == ridden_trips(legs@.take(i as int)),
        decreases legs.len() - i,
    {
        assert(legs@.take(i + 1).drop_last() =~= legs@.take(i as int));
        match legs[i].trip_index() {
            Some(trip) => {
                trips.push(trip);
            },
            None => {},
        }
        i = i + 1;
    }
    assert(legs@.take(i as int) =~= legs@);
    trips
}

/// Whether a point remembers the journey from the `i`th leg on.
pub open spec fn remembers_from(point: ProfileInsertionPoint, legs: Seq<CachedLeg>, i: int) -> bool {
    let rest = legs.skip(i);
    &&& point.source_stop == legs[i].source()
    &&& point.latest_ready_secs == legs[i].departure()
    &&& point.arrival_secs == legs.last().arrival()
    &&& point.transit_legs == ride_count(rest)
    &&& point.trip_indices@ == ridden_trips(rest)
    &&& point.suffix_legs@ == rest
}

/// What to remember of a journey to its destination: the rest of it from each
/// leg on.
pub fn build_profile_insertions(raw_legs: &Vec<CachedLeg>) -> (points: Vec<ProfileInsertionPoint>)
    ensures
        points@.len() == raw_legs@.len(),
        forall|i: int| 0 <= i < points@.len() ==> remembers_from(#[trigger] points@[i], raw_legs@, i),
{
    let mut points: Vec<ProfileInsertionPoint> = Vec::new();
    if raw_legs.len() == 0 {
        return points;
    }
    let final_arrival: i32 = raw_legs[raw_legs.len() - 1].arrival_secs();
    let mut i: usize = 0;
    while i < raw_legs.len()
        invariant
            i <= raw_legs.len(),
            raw_legs@.len() > 0,
            final_arrival == raw_legs@.last().arrival(),
            points@.len() == i,
            forall|k: int| 0 <= k < i ==> remembers_from(#[trigger] points@[k], raw_legs@, k),
        decreases raw_legs.len() - i,
    {
        let rest: Vec<CachedLeg> = copy_legs(raw_legs, i);
        points.push(
            ProfileInsertionPoint {
                source_stop: raw_legs[i].source_stop(),
                latest_ready_secs: raw_legs[i].departure_secs(),
                arrival_secs: final_arrival,
                transit_legs: count_rides(&rest),
                trip_indices: collect_trips(&rest),
                suffix_legs: rest,
            },
        );
        i = i + 1;
    }
    points
}

/// The way into a cell: the legs up to its border, the trips ridden, the border
/// stop and the arrival there.
pub struct Trunk {
    pub legs: Seq<CachedLeg>,
    pub trips: Seq<usize>,
    pub stop: usize,
    pub arrival: int,
}

/// The first call of a trip from a position on that is in a cell.
pub open spec fn first_call_in_cell(ctx: SearchContext, trip: int, pos: int, cell: u64) -> Option<int>
    decreases ctx.data.trips@[trip].stop_times@.len() - pos,
{
    let calls = ctx.data.trips@[trip].stop_times@;
    if pos >= calls.len() {
        None
    } else if ctx.data.stop_destination_cells@[calls[pos].stop_index as int] == Some(cell) {
        Some(pos)
    } else {
        first_call_in_cell(ctx, trip, pos + 1, cell)
    }
}

/// A trunk with a leg before it.
pub open spec fn trunk_after(leg: CachedLeg, rest: Option<Trunk>) -> Option<Trunk> {
    match rest {
        None => None,
        Some(trunk) => Some(
            Trunk {
                legs: seq![leg] + trunk.legs,
                trips: (match leg.trip() { Some(trip) => seq![trip], None => Seq::empty() }) + trunk.trips,
                ..trunk
            },
        ),
    }
}

/// The way from the `i`th leg on into a cell.
pub open spec fn trunk_from(ctx: SearchContext, legs: Seq<CachedLeg>, cell: u64, i: int) -> Option<Trunk>
    decreases legs.len() - i,
{
    if i >= legs.len() {
        None
    } else {
        match legs[i] {
            CachedLeg::Walk { to_stop, arrival_secs, .. } => if ctx.data.stop_destination_cells@[to_stop as int] == Some(cell) {
                Some(Trunk { legs: seq![legs[i]], trips: Seq::empty(), stop: to_stop, arrival: arrival_secs as int })
            } else {
                trunk_after(legs[i], trunk_from(ctx, legs, cell, i + 1))
            },
            CachedLeg::Transit { trip_index, board_stop, board_pos, departure_secs, .. } => match first_call_in_cell(ctx, trip_index as int, board_pos as int, cell) {
                Some(pos) => {
                    let stop = ctx.data.trips@[trip_index as int].stop_times@[pos].stop_index;
                    let arrival = arrival_with_delay(ctx.realtime@, ctx.data.trips@, trip_index as int, pos);
                    let ride = CachedLeg::Transit {
                        trip_index: trip_index,
                        board_stop: board_stop,
                        board_pos: board_pos,
                        alight_stop: stop,
                        alight_pos: pos as usize,
                        departure_secs: departure_secs,
                        arrival_secs: arrival as i32,
                    };
                    Some(Trunk { legs: seq![ride], trips: seq![trip_index], stop: stop, arrival: arrival })
                },
                None => trunk_after(legs[i], trunk_from(ctx, legs, cell, i + 1)),
            },
        }
    }
}

/// What to remember of a journey to the border of a cell, with sequences.
pub struct SpatialInsertView {
    pub source_stop: usize,
    pub latest_ready_secs: i32,
    pub boundary_arrival_secs: i32,
    pub transit_legs: usize,
    pub boundary_stop: usize,
    pub trip_indices: Seq<usize>,
    pub trunk_legs: Seq<CachedLeg>,
}

/// A point with sequences.
pub open spec fn insert_view(point: SpatialProfileInsertionPoint) -> SpatialInsertView {
    SpatialInsertView {
        source_stop: point.source_stop,
        latest_ready_secs: point.latest_ready_secs,
        boundary_arrival_secs: point.boundary_arrival_secs,
        transit_legs: point.transit_legs,
        boundary_stop: point.boundary_stop,
        trip_indices: point.trip_indices@,
        trunk_legs: point.trunk_legs@,
    }
}

/// Points with sequences.
pub open spec fn inserts_view(points: Seq<SpatialProfileInsertionPoint>) -> Seq<SpatialInsertView> {
    Seq::new(points.len(), |i: int| insert_view(points[i]))
}

/// Whether a route is rapid transit by its type.
pub open spec fn rapid_route(route: RouteRecord) -> bool {
    occurs_in("Subway"@, route.route_type@) || occurs_in("Rail"@, route.route_type@) || occurs_in("Metro"@, route.route_type@)
}

/// Whether a line is rapid transit: its first trip's route is.
pub open spec fn rapid_line(data: StaticData, line: int) -> bool {
    data.lines@[line].trip_indices@.len() > 0 && rapid_route(data.routes@[data.trips@[data.lines@[line].trip_indices@[0] as int].route_index as int])
}

/// Whether many lines or walks meet at a stop, or rapid transit calls there.
pub open spec fn strong_anchor(data: StaticData, stop: int) -> bool {
    ||| data.stop_to_lines@[stop]@.len() >= 3
    ||| data.transfers@[stop]@.len() >= 4
    ||| exists|i: int| 0 <= i < data.stop_to_lines@[stop]@.len() && rapid_line(data, (#[trigger] data.stop_to_lines@[stop]@[i]).line_index as int)
}

/// The points for the calls of the `k`th leg of a trunk from a position on, at
/// which others may want to join the ride.
pub open spec fn anchors_from(ctx: SearchContext, cell: u64, point: SpatialInsertView, k: int, rides_before: int, pos: int) -> Seq<SpatialInsertView>
    decreases (match point.trunk_legs[k] { CachedLeg::Transit { alight_pos, .. } => alight_pos as int, _ => 0int }) - pos,
{
    match point.trunk_legs[k] {
        CachedLeg::Walk { .. } => Seq::empty(),
        CachedLeg::Transit { trip_index, alight_stop, alight_pos, arrival_secs, .. } => if pos >= alight_pos {
            Seq::empty()
        } else {
            let stop = ctx.data.trips@[trip_index as int].stop_times@[pos].stop_index;
            let rest = anchors_from(ctx, cell, point, k, rides_before, pos + 1);
            if ctx.data.stop_destination_cells@[stop as int] == Some(cell) || stop == point.source_stop || !strong_anchor(*ctx.data, stop as int) {
                rest
            } else {
                let departure = departure_with_delay(ctx.realtime@, ctx.data.trips@, trip_index as int, pos) as i32;
                let ride = CachedLeg::Transit {
                    trip_index: trip_index,
                    board_stop: stop,
                    board_pos: pos as usize,
                    alight_stop: alight_stop,
                    alight_pos: alight_pos,
                    departure_secs: departure,
                    arrival_secs: arrival_secs,
                };
                seq![
                    SpatialInsertView {
                        source_stop: stop,
                        latest_ready_secs: departure,
                        boundary_arrival_secs: point.boundary_arrival_secs,
                        transit_legs: if point.transit_legs > rides_before { (point.transit_legs - rides_before) as usize } else { 0 },
                        boundary_stop: point.boundary_stop,
                        trip_indices: point.trip_indices.skip(rides_before),
                        trunk_legs: seq![ride] + point.trunk_legs.skip(k + 1),
                    },
                ] + rest
            }
        },
    }
}

/// The points for the stops along the first `n` legs of a trunk at which others
/// may want to join a ride.
pub open spec fn anchors_of(ctx: SearchContext, cell: u64, point: SpatialInsertView, n: int) -> Seq<SpatialInsertView>
    decreases n,
{
    if n <= 0 {
        Seq::empty()
    } else {
        let before = anchors_of(ctx, cell, point, n - 1);
        match point.trunk_legs[n - 1] {
            CachedLeg::Walk { .. } => before,
            CachedLeg::Transit { board_pos, .. } => before + anchors_from(
                ctx,
                cell,
                point,
                n - 1,
                ride_count(point.trunk_legs.take(n - 1)) as int,
                board_pos + 1,
            ),
        }
    }
}

/// The points for the stops along a trunk; none where nothing is ridden.
pub open spec fn anchors(ctx: SearchContext, cell: u64, point: SpatialInsertView) -> Seq<SpatialInsertView> {
    if point.transit_legs == 0 { Seq::empty() } else { anchors_of(ctx, cell, point, point.trunk_legs.len() as int) }
}

/// The point for the journey from the `i`th leg on into a cell: none where it
/// begins there, does not get there, or is there at once.
pub open spec fn base_point(ctx: SearchContext, legs: Seq<CachedLeg>, cell: u64, i: int) -> Option<SpatialInsertView> {
    let source = legs[i].source();
    if ctx.data.stop_destination_cells@[source as int] == Some(cell) {
        None
    } else {
        match trunk_from(ctx, legs, cell, i) {
            None => None,
            Some(trunk) => if trunk.stop == source {
                None
            } else {
                Some(
                    SpatialInsertView {
                        source_stop: source,
                        latest_ready_secs: legs[i].departure(),
                        boundary_arrival_secs: trunk.arrival as i32,
                        transit_legs: trunk.trips.len() as usize,
                        boundary_stop: trunk.stop,
                        trip_indices: trunk.trips,
                        trunk_legs: trunk.legs,
                    },
                )
            },
        }
    }
}

/// What to remember of the way of a journey into a cell: from each of the first
/// `n` legs on, and from the stops along the rides.
pub open spec fn spatial_points(ctx: SearchContext, legs: Seq<CachedLeg>, cell: u64, n: int) -> Seq<SpatialInsertView>
    decreases n,
{
    if n <= 0 {
        Seq::empty()
    } else {
        let before = spatial_points(ctx, legs, cell, n - 1);
        match base_point(ctx, legs, cell, n - 1) {
            None => before,
            Some(point) => before.push(point) + anchors(ctx, cell, point),
        }
    }
}

/// Whether the timetable has what the points are made of.
pub open spec fn anchors_ready(ctx: SearchContext) -> bool {
    &&& ctx.wf()
    &&& ctx.data.stop_destination_cells@.len() == ctx.data.stops@.len()
    &&& ctx.data.stop_to_lines@.len() == ctx.data.stops@.len()
    &&& ctx.data.transfers@.len() == ctx.data.stops@.len()
    &&& forall|s: int, i: int| 0 <= s < ctx.data.stop_to_lines@.len() && 0 <= i < ctx.data.stop_to_lines@[s]@.len() ==> (#[trigger] ctx.data.stop_to_lines@[s]@[i]).line_index < ctx.data.lines@.len()
    &&& forall|t: int| 0 <= t < ctx.data.trips@.len() ==> (#[trigger] ctx.data.trips@[t]).route_index < ctx.data.routes@.len()
}

/// Whether the legs of a point are valid, lead from its stop to another of the
/// timetable, and end when it says.
pub open spec fn insert_valid(point: SpatialProfileInsertionPoint, trips: Seq<TripRecord>, stops: int) -> bool {
    &&& point.boundary_stop < stops
    &&& legs_valid(point.trunk_legs@, trips, stops)
    &&& legs_lead(point.trunk_legs@, point.source_stop as int, point.boundary_stop as int, stops)
    &&& legs_arrive(point.trunk_legs@, point.boundary_arrival_secs as int)
}

fn same_cell(cell: Option<u64>, wanted: u64) -> (same: bool)
    ensures
        same == (cell == Some(wanted)),
{
    match cell {
        Some(value) => value == wanted,
        None => false,
    }
}

fn copy_trips(trips: &Vec<usize>, from: usize) -> (copy: Vec<usize>)
    ensures
        copy@ == trips@.skip(from as int) || from > trips@.len() && copy@.len() == 0,
        from <= trips@.len() ==> copy@ == trips@.skip(from as int),
{
    let mut copy: Vec<usize> = Vec::new();
    let mut i: usize = from;
    while i < trips.len()
        invariant
            from <= trips.len() ==> from <= i <= trips.len() && copy@ == trips@.subrange(from as int, i as int),
            from > trips.len() ==> i == from && copy@.len() == 0,
        decreases trips.len() - i,
    {
        copy.push(trips[i]);
        i = i + 1;
        assert(copy@ =~= trips@.subrange(from as int, i as int));
    }
    assert(from <= trips@.len() ==> copy@ =~= trips@.skip(from as int));
    copy
}

impl<'a> SearchContext<'a> {
    /// The first call of a trip from a position on that is in a cell: its stop,
    /// its position and the arrival there.
    pub fn first_transit_stop_in_cell(&self, trip_index: usize, board_pos: usize, destination_cell: u64) -> (found: Option<(usize, usize, i32)>)
        requires
            anchors_ready(*self),
            trip_index < self.data.trips@.len(),
        ensures
            match first_call_in_cell(*self, trip_index as int, board_pos as int, destination_cell) {
                None => found is None,
                Some(pos) => found is Some && (found->0).1 == pos && board_pos <= pos < self.data.trips@[trip_index as int].stop_times@.len()
                    && (found->0).0 == self.data.trips@[trip_index as int].stop_times@[pos].stop_index
                    && (found->0).2 == arrival_with_delay(self.realtime@, self.data.trips@, trip_index as int, pos),
            },
            found is Some ==> (found->0).0 < self.data.stops@.len(),
    {
        assert(trip_calls_valid(self.data.trips@[trip_index as int], self.data.stops@.len() as int));
        let trip: &TripRecord = &self.data.trips[trip_index];
        let mut pos: usize = board_pos;
        while pos < trip.stop_times.len()
            invariant
                board_pos <= pos,
                *trip == self.data.trips@[trip_index as int],
                anchors_ready(*self),
                trip_index < self.data.trips@.len(),
                trip_calls_valid(*trip, self.data.stops@.len() as int),
                first_call_in_cell(*self, trip_index as int, board_pos as int, destination_cell) == first_call_in_cell(
                    *self,
                    trip_index as int,
                    pos as int,
                    destination_cell,
                ),
            decreases trip.stop_times.len() - pos,
        {
            let stop: usize = trip.stop_times[pos].stop_index;
            assert(trip.stop_times@[pos as int].stop_index < self.data.stops@.len());
            if same_cell(self.data.stop_destination_cells[stop], destination_cell) {
                let arrival: i32 = self.realtime.actual_arrival(&self.data.trips, trip_index, pos);
                return Some((stop, pos, arrival));
            }
            pos = pos + 1;
        }
        None
    }

    fn line_is_rapid_transit(&self, line_index: usize) -> (rapid: bool)
        requires
            anchors_ready(*self),
            line_index < self.data.lines@.len(),
        ensures
            rapid == rapid_line(*self.data, line_index as int),
    {
        assert(crate::search::line_valid(self.data.lines@[line_index as int], self.data.trips@, self.data.stops@.len() as int));
        if self.data.lines[line_index].trip_indices.len() == 0 {
            return false;
        }
        let trip_index: usize = self.data.lines[line_index].trip_indices[0];
        assert(self.data.lines@[line_index as int].trip_indices@[0] < self.data.trips@.len());
        let route: &RouteRecord = &self.data.routes[self.data.trips[trip_index].route_index];
        let kind: &str = route.route_type.as_str();
        contains_text(kind, "Subway") || contains_text(kind, "Rail") || contains_text(kind, "Metro")
    }

    fn is_strong_anchor_stop(&self, stop_index: usize) -> (strong: bool)
        requires
            anchors_ready(*self),
            stop_index < self.data.stops@.len(),
        ensures
            strong == strong_anchor(*self.data, stop_index as int),
    {
        if self.data.stop_to_lines[stop_index].len() >= 3 || self.data.transfers[stop_index].len() >= 4 {
            return true;
        }
        let lines: &Vec<StopLineRef> = &self.data.stop_to_lines[stop_index];
        let mut i: usize = 0;
        while i < lines.len()
            invariant
                i <= lines.len(),
                *lines == self.data.stop_to_lines@[stop_index as int],
                stop_index < self.data.stop_to_lines@.len(),
                anchors_ready(*self),
                forall|k: int| 0 <= k < i ==> !rapid_line(*self.data, (#[trigger] self.data.stop_to_lines@[stop_index as int]@[k]).line_index as int),
            decreases lines.len() - i,
        {
            assert(self.data.stop_to_lines@[stop_index as int]@[i as int].line_index < self.data.lines@.len());
            if self.line_is_rapid_transit(lines[i].line_index) {
                return true;
            }
            i = i + 1;
        }
        false
    }

    fn find_trunk(&self, legs: &Vec<CachedLeg>, start: usize, cell: u64) -> (found: Option<(Vec<CachedLeg>, Vec<usize>, usize, i32)>)
        requires
            anchors_ready(*self),
            legs_valid(legs@, self.data.trips@, self.data.stops@.len() as int),
            legs_join(legs@, self.data.stops@.len() as int),
            start < legs@.len(),
        ensures
            match trunk_from(*self, legs@, cell, start as int) {
                None => found is None,
                Some(trunk) => found is Some && (found->0).0@ == trunk.legs && (found->0).1@ == trunk.trips && (found->0).2 == trunk.stop && (found->0).3 == trunk.arrival,
            },
            found is Some ==> (found->0).2 < self.data.stops@.len() && legs_valid((found->0).0@, self.data.trips@, self.data.stops@.len() as int)
                && (found->0).1@.len() == ride_count((found->0).0@)
                && legs_lead((found->0).0@, legs@[start as int].source() as int, (found->0).2 as int, self.data.stops@.len() as int)
                && legs_arrive((found->0).0@, (found->0).3 as int),
    {
        let ghost goal = trunk_from(*self, legs@, cell, start as int);
        let ghost stops = self.data.stops@.len() as int;
        let mut trunk: Vec<CachedLeg> = Vec::new();
        let mut trips: Vec<usize> = Vec::new();
        let mut i: usize = start;
        proof {
            trunk_prepend_nothing(goal);
        }
        while i < legs.len()
            invariant
                start <= i <= legs.len(),
                anchors_ready(*self),
                stops == self.data.stops@.len(),
                legs_valid(legs@, self.data.trips@, stops),
                legs_valid(trunk@, self.data.trips@, stops),
                legs_join(legs@, stops),
                start < legs@.len(),
                trunk@ =~= legs@.subrange(start as int, i as int),
                trips@.len() == ride_count(trunk@),
                goal == trunk_from(*self, legs@, cell, start as int),
                goal == trunk_prepended(trunk@, trips@, trunk_from(*self, legs@, cell, i as int)),
            decreases legs.len() - i,
        {
            let leg: CachedLeg = legs[i];
            assert(leg_valid(legs@[i as int], self.data.trips@, stops));
            let ghost before = trunk@;
            let ghost trips_before = trips@;
            proof {
                part_leads(legs@, start as int, i as int, stops);
            }
            match leg {
                CachedLeg::Walk { to_stop, arrival_secs, .. } => {
                    trunk.push(leg);
                    proof {
                        extend_valid(before, leg, self.data.trips@, stops);
                        assert(trunk@.drop_last() =~= before);
                    }
                    if same_cell(self.data.stop_destination_cells[to_stop], cell) {
                        assert(trunk@ =~= before + seq![leg]);
                        assert(trips@ =~= trips_before + Seq::<usize>::empty());
                        proof {
                            leading_on(before, seq![leg], legs@[start as int].source() as int, leg.source() as int, to_stop as int, stops);
                        }
                        return Some((trunk, trips, to_stop, arrival_secs));
                    }
                    proof {
                        regroup_trunk(before, trips_before, leg, trunk_from(*self, legs@, cell, i + 1));
                        assert(trips@ =~= trips_before + Seq::<usize>::empty());
                        assert(trunk@ =~= before + seq![leg]);
                    }
                },
                CachedLeg::Transit { trip_index, board_stop, board_pos, departure_secs, .. } => {
                    trips.push(trip_index);
                    match self.first_transit_stop_in_cell(trip_index, board_pos, cell) {
                        Some((stop, pos, arrival)) => {
                            let ride: CachedLeg = CachedLeg::Transit {
                                trip_index: trip_index,
                                board_stop: board_stop,
                                board_pos: board_pos,
                                alight_stop: stop,
                                alight_pos: pos,
                                departure_secs: departure_secs,
                                arrival_secs: arrival,
                            };
                            trunk.push(ride);
                            proof {
                                extend_valid(before, ride, self.data.trips@, stops);
                                assert(trunk@.drop_last() =~= before);
                                assert(trunk@ =~= before + seq![ride]);
                                assert(trips@ =~= trips_before + seq![trip_index]);
                                leading_on(before, seq![ride], legs@[start as int].source() as int, board_stop as int, stop as int, stops);
                            }
                            return Some((trunk, trips, stop, arrival));
                        },
                        None => {
                            trunk.push(leg);
                            proof {
                                extend_valid(before, leg, self.data.trips@, stops);
                                assert(trunk@.drop_last() =~= before);
                                regroup_trunk(before, trips_before, leg, trunk_from(*self, legs@, cell, i + 1));
                                assert(trips@ =~= trips_before + seq![trip_index]);
                                assert(trunk@ =~= before + seq![leg]);
                            }
                        },
                    }
                },
            }
            i = i + 1;
        }
        None
    }

    fn expand_spatial_anchor_points(&self, destination_cell: u64, point: &SpatialProfileInsertionPoint) -> (points: Vec<SpatialProfileInsertionPoint>)
        requires
            anchors_ready(*self),
            insert_valid(*point, self.data.trips@, self.data.stops@.len() as int),
            point.trip_indices@.len() == ride_count(point.trunk_legs@),
        ensures
            inserts_view(points@) == anchors(*self, destination_cell, insert_view(*point)),
            forall|i: int| 0 <= i < points@.len() ==> insert_valid(#[trigger] points@[i], self.data.trips@, self.data.stops@.len() as int),
    {
        let ghost stops = self.data.stops@.len() as int;
        let ghost view = insert_view(*point);
        let mut points: Vec<SpatialProfileInsertionPoint> = Vec::new();
        assert(inserts_view(points@) =~= Seq::<SpatialInsertView>::empty());
        if point.transit_legs == 0 {
            return points;
        }
        let mut rides_before: usize = 0;
        let mut k: usize = 0;
        while k < point.trunk_legs.len()
            invariant
                k <= point.trunk_legs.len(),
                anchors_ready(*self),
                stops == self.data.stops@.len(),
                view == insert_view(*point),
                insert_valid(*point, self.data.trips@, stops),
                point.trip_indices@.len() == ride_count(point.trunk_legs@),
                rides_before <= k,
                rides_before == ride_count(point.trunk_legs@.take(k as int)),
                inserts_view(points@) == anchors_of(*self, destination_cell, view, k as int),
                forall|i: int| 0 <= i < points@.len() ==> insert_valid(#[trigger] points@[i], self.data.trips@, stops),
            decreases point.trunk_legs.len() - k,
        {
            assert(point.trunk_legs@.take(k + 1).drop_last() =~= point.trunk_legs@.take(k as int));
            assert(leg_valid(point.trunk_legs@[k as int], self.data.trips@, stops));
            match point.trunk_legs[k] {
                CachedLeg::Walk { .. } => {},
                CachedLeg::Transit { trip_index, board_pos, alight_stop, alight_pos, arrival_secs, .. } => {
                    proof {
                        rides_monotone(point.trunk_legs@, k as int);
                    }
                    let ghost before = inserts_view(points@);
                    let ghost goal = before + anchors_from(*self, destination_cell, view, k as int, rides_before as int, board_pos + 1);
                    let left: usize = if point.transit_legs > rides_before { point.transit_legs - rides_before } else { 0 };
                    let trip: &TripRecord = &self.data.trips[trip_index];
                    assert(trip_calls_valid(self.data.trips@[trip_index as int], stops));
                    assert(board_pos < trip.stop_times.len());
                    let mut pos: usize = board_pos + 1;
                    while pos < alight_pos
                        invariant
                            anchors_ready(*self),
                            stops == self.data.stops@.len(),
                            view == insert_view(*point),
                            insert_valid(*point, self.data.trips@, stops),
                            k < point.trunk_legs.len(),
                            rides_before <= point.trip_indices@.len(),
                            left == (if point.transit_legs > rides_before { point.transit_legs - rides_before } else { 0 }),
                            trip_index < self.data.trips@.len(),
                            *trip == self.data.trips@[trip_index as int],
                            trip_calls_valid(*trip, stops),
                            alight_pos < trip.stop_times@.len(),
                            alight_stop < stops,
                            match point.trunk_legs@[k as int] {
                                CachedLeg::Transit { trip_index: t, alight_stop: a, alight_pos: p, arrival_secs: r, .. } => t == trip_index && a == alight_stop && p == alight_pos && r == arrival_secs,
                                _ => false,
                            },
                            goal == inserts_view(points@) + anchors_from(*self, destination_cell, view, k as int, rides_before as int, pos as int),
                            forall|i: int| 0 <= i < points@.len() ==> insert_valid(#[trigger] points@[i], self.data.trips@, stops),
                        decreases alight_pos - pos,
                    {
                        let anchor: usize = trip.stop_times[pos].stop_index;
                        assert(trip.stop_times@[pos as int].stop_index < stops);
                        let skip: bool = same_cell(self.data.stop_destination_cells[anchor], destination_cell) || anchor == point.source_stop
                            || !self.is_strong_anchor_stop(anchor);
                        if !skip {
                            let departure: i32 = self.realtime.actual_departure(&self.data.trips, trip_index, pos);
                            let mut trunk: Vec<CachedLeg> = Vec::new();
                            let ride: CachedLeg = CachedLeg::Transit {
                                trip_index: trip_index,
                                board_stop: anchor,
                                board_pos: pos,
                                alight_stop: alight_stop,
                                alight_pos: alight_pos,
                                departure_secs: departure,
                                arrival_secs: arrival_secs,
                            };
                            trunk.push(ride);
                            let rest: Vec<CachedLeg> = copy_legs(&point.trunk_legs, k + 1);
                            let joined: Vec<CachedLeg> = crate::leg::combine_cached_leg_sequences(&trunk, &rest);
                            assert(trunk@ =~= seq![ride]);
                            assert(joined@ == seq![ride] + point.trunk_legs@.skip(k + 1));
                            assert forall|i: int| 0 <= i < joined@.len() implies leg_valid(#[trigger] joined@[i], self.data.trips@, stops) by {
                                if i > 0 {
                                    assert(joined@[i] == point.trunk_legs@[k + i]);
                                    assert(leg_valid(point.trunk_legs@[k + i], self.data.trips@, stops));
                                }
                            }
                            proof {
                                rest_leads(point.trunk_legs@, point.source_stop as int, point.boundary_stop as int, k as int, stops);
                                leading_on(seq![ride], point.trunk_legs@.skip(k + 1), anchor as int, alight_stop as int, point.boundary_stop as int, stops);
                            }
                            let trips: Vec<usize> = copy_trips(&point.trip_indices, rides_before);
                            let ghost shorter = points@;
                            points.push(
                                SpatialProfileInsertionPoint {
                                    source_stop: anchor,
                                    latest_ready_secs: departure,
                                    boundary_arrival_secs: point.boundary_arrival_secs,
                                    transit_legs: left,
                                    boundary_stop: point.boundary_stop,
                                    trip_indices: trips,
                                    trunk_legs: joined,
                                },
                            );
                            proof {
                                let added = insert_view(points@[shorter.len() as int]);
                                assert(inserts_view(points@) =~= inserts_view(shorter).push(added));
                                let rest_points = anchors_from(*self, destination_cell, view, k as int, rides_before as int, pos + 1);
                                assert(inserts_view(points@) + rest_points =~= inserts_view(shorter) + (seq![added] + rest_points));
                            }
                        }
                        pos = pos + 1;
                    }
                    assert(inserts_view(points@) + Seq::<SpatialInsertView>::empty() =~= inserts_view(points@));
                    rides_before = rides_before + 1;
                },
            }
            k = k + 1;
        }
        points
    }

    /// What to remember of the way of a journey into a cell.
    pub fn build_spatial_profile_insertions(&self, destination_cell: Option<u64>, raw_legs: &Vec<CachedLeg>) -> (points: Vec<SpatialProfileInsertionPoint>)
        requires
            anchors_ready(*self),
            legs_valid(raw_legs@, self.data.trips@, self.data.stops@.len() as int),
            legs_join(raw_legs@, self.data.stops@.len() as int),
        ensures
            inserts_view(points@) == (match destination_cell {
                None => Seq::empty(),
                Some(cell) => spatial_points(*self, raw_legs@, cell, raw_legs@.len() as int),
            }),
            forall|i: int| 0 <= i < points@.len() ==> insert_valid(#[trigger] points@[i], self.data.trips@, self.data.stops@.len() as int),
    {
        let ghost stops = self.data.stops@.len() as int;
        let mut points: Vec<SpatialProfileInsertionPoint> = Vec::new();
        assert(inserts_view(points@) =~= Seq::<SpatialInsertView>::empty());
        let cell: u64 = match destination_cell {
            None => {
                return points;
            },
            Some(cell) => cell,
        };
        let mut i: usize = 0;
        while i < raw_legs.len()
            invariant
                i <= raw_legs.len(),
                anchors_ready(*self),
                stops == self.data.stops@.len(),
                legs_valid(raw_legs@, self.data.trips@, stops),
                legs_join(raw_legs@, stops),
                inserts_view(points@) == spatial_points(*self, raw_legs@, cell, i as int),
                forall|k: int| 0 <= k < points@.len() ==> insert_valid(#[trigger] points@[k], self.data.trips@, stops),
            decreases raw_legs.len() - i,
        {
            assert(leg_valid(raw_legs@[i as int], self.data.trips@, stops));
            let source: usize = raw_legs[i].source_stop();
            if !same_cell(self.data.stop_destination_cells[source], cell) {
                match self.find_trunk(raw_legs, i, cell) {
                    None => {},
                    Some((trunk, trips, boundary, arrival)) => {
                        if boundary != source {
                            let point: SpatialProfileInsertionPoint = SpatialProfileInsertionPoint {
                                source_stop: source,
                                latest_ready_secs: raw_legs[i].departure_secs(),
                                boundary_arrival_secs: arrival,
                                transit_legs: trips.len(),
                                boundary_stop: boundary,
                                trip_indices: trips,
                                trunk_legs: trunk,
                            };
                            let ghost base = insert_view(point);
                            let extra: Vec<SpatialProfileInsertionPoint> = self.expand_spatial_anchor_points(cell, &point);
                            let ghost before = points@;
                            let ghost more = inserts_view(extra@);
                            points.push(point);
                            assert(inserts_view(points@) =~= inserts_view(before).push(base));
                            append_points(&mut points, extra, Ghost(self.data.trips@), Ghost(stops));
                        }
                    },
                }
            }
            i = i + 1;
        }
        points
    }
}

fn append_points(points: &mut Vec<SpatialProfileInsertionPoint>, extra: Vec<SpatialProfileInsertionPoint>, Ghost(trips): Ghost<Seq<TripRecord>>, Ghost(stops): Ghost<int>)
    requires
        forall|k: int| 0 <= k < old(points)@.len() ==> insert_valid(#[trigger] old(points)@[k], trips, stops),
        forall|k: int| 0 <= k < extra@.len() ==> insert_valid(#[trigger] extra@[k], trips, stops),
    ensures
        inserts_view(final(points)@) == inserts_view(old(points)@) + inserts_view(extra@),
        forall|k: int| 0 <= k < final(points)@.len() ==> insert_valid(#[trigger] final(points)@[k], trips, stops),
{
    let mut more: Vec<SpatialProfileInsertionPoint> = extra;
    let ghost start = points@;
    let ghost added = more@;
    points.append(&mut more);
    assert(points@ == start + added);
    assert(inserts_view(points@) =~= inserts_view(start) + inserts_view(added));
    assert forall|k: int| 0 <= k < points@.len() implies insert_valid(#[trigger] points@[k], trips, stops) by {
        if k < start.len() {
            assert(insert_valid(start[k], trips, stops));
        } else {
            assert(insert_valid(added[k - start.len()], trips, stops));
        }
    }
}

/// A trunk with legs and trips before it.
pub open spec fn trunk_prepended(legs: Seq<CachedLeg>, trips: Seq<usize>, rest: Option<Trunk>) -> Option<Trunk> {
    match rest {
        None => None,
        Some(trunk) => Some(Trunk { legs: legs + trunk.legs, trips: trips + trunk.trips, ..trunk }),
    }
}

proof fn trunk_prepend_nothing(rest: Option<Trunk>)
    ensures
        trunk_prepended(Seq::empty(), Seq::empty(), rest) == rest,
{
    match rest {
        None => {},
        Some(trunk) => {
            assert(Seq::<CachedLeg>::empty() + trunk.legs =~= trunk.legs);
            assert(Seq::<usize>::empty() + trunk.trips =~= trunk.trips);
        },
    }
}

proof fn regroup_trunk(legs: Seq<CachedLeg>, trips: Seq<usize>, leg: CachedLeg, rest: Option<Trunk>)
    ensures
        trunk_prepended(legs, trips, trunk_after(leg, rest)) == trunk_prepended(
            legs + seq![leg],
            trips + (match leg.trip() { Some(trip) => seq![trip], None => Seq::empty() }),
            rest,
        ),
{
    match rest {
        None => {},
        Some(trunk) => {
            let ridden = match leg.trip() { Some(trip) => seq![trip], None => Seq::empty() };
            assert(legs + (seq![leg] + trunk.legs) =~= (legs + seq![leg]) + trunk.legs);
            assert(trips + (ridden + trunk.trips) =~= (trips + ridden) + trunk.trips);
        },
    }
}

proof fn extend_valid(legs: Seq<CachedLeg>, leg: CachedLeg, trips: Seq<TripRecord>, stops: int)
    requires
        legs_valid(legs, trips, stops),
        leg_valid(leg, trips, stops),
    ensures
        legs_valid(legs.push(leg), trips, stops),
{
    assert forall|k: int| 0 <= k < legs.push(leg).len() implies leg_valid(#[trigger] legs.push(leg)[k], trips, stops) by {
        if k < legs.len() {
            assert(leg_valid(legs[k], trips, stops));
        }
    }
}

proof fn rides_monotone(legs: Seq<CachedLeg>, k: int)
    requires
        0 <= k <= legs.len(),
    ensures
        ride_count(legs.take(k)) <= ride_count(legs),
    decreases legs.len() - k,
{
    if k == legs.len() {
        assert(legs.take(k) =~= legs);
    } else {
        rides_monotone(legs, k + 1);
        assert(legs.take(k + 1).drop_last() =~= legs.take(k));
    }
}

} // verus!
