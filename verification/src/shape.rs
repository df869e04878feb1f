//! The paths of trips, cut to what is ridden.

use crate::model::{PolylinePoint, ShapePoint, StopRecord, TripRecord, TripStopRecord};
use crate::number::{Real, ShortReal};
use vstd::prelude::*;

verus! {

/// The calls between two calls of a trip.
pub open spec fn calls_between(calls: Seq<TripStopRecord>, board_pos: int, alight_pos: int) -> Seq<TripStopRecord> {
    let end = if alight_pos <= calls.len() { alight_pos } else { calls.len() as int };
    if board_pos + 1 < end { calls.subrange(board_pos + 1, end) } else { Seq::empty() }
}

/// The calls between two calls of a trip.
pub fn intermediate_trip_stop_times(trip: &TripRecord, board_pos: usize, alight_pos: usize) -> (calls: Vec<TripStopRecord>)
    ensures
        calls@ == calls_between(trip.stop_times@, board_pos as int, alight_pos as int),
{
    let mut calls: Vec<TripStopRecord> = Vec::new();
    let end: usize = if alight_pos <= trip.stop_times.len() { alight_pos } else { trip.stop_times.len() };
    if board_pos >= end {
        assert(calls@ =~= Seq::<TripStopRecord>::empty());
        return calls;
    }
    let mut at: usize = board_pos + 1;
    while at < end
        invariant
            board_pos + 1 <= at,
            at <= end || at == board_pos + 1,
            end <= trip.stop_times@.len(),
            calls@ == trip.stop_times@.subrange(board_pos + 1, at as int) || at == board_pos + 1 && calls@.len() == 0,
        decreases end - at,
    {
        let ghost before = calls@;
        calls.push(trip.stop_times[at]);
        at = at + 1;
        assert(calls@ =~= trip.stop_times@.subrange(board_pos + 1, at as int));
    }
    assert(calls@ =~= calls_between(trip.stop_times@, board_pos as int, alight_pos as int));
    calls
}

/// The straight line between two stops that both have places.
pub open spec fn straight(from: StopRecord, to: StopRecord) -> Seq<PolylinePoint> {
    match (from.latitude, from.longitude, to.latitude, to.longitude) {
        (Some(from_lat), Some(from_lon), Some(to_lat), Some(to_lon)) => seq![PolylinePoint { lat: from_lat, lon: from_lon }, PolylinePoint { lat: to_lat, lon: to_lon }],
        _ => Seq::empty(),
    }
}

/// The straight line between two stops.
pub fn straight_polyline(from: &StopRecord, to: &StopRecord) -> (polyline: Vec<PolylinePoint>)
    ensures
        polyline@ == straight(*from, *to),
{
    let mut polyline: Vec<PolylinePoint> = Vec::new();
    match (from.latitude, from.longitude, to.latitude, to.longitude) {
        (Some(from_lat), Some(from_lon), Some(to_lat), Some(to_lon)) => {
            polyline.push(PolylinePoint { lat: from_lat, lon: from_lon });
            polyline.push(PolylinePoint { lat: to_lat, lon: to_lon });
        },
        _ => {},
    }
    assert(polyline@ =~= straight(*from, *to));
    polyline
}

/// Whether a point of a path is between two distances.
pub open spec fn is_on_section(point: ShapePoint, start: ShortReal, end: ShortReal) -> bool {
    match point.dist_traveled {
        Some(distance) => distance.at_least(start) && end.at_least(distance),
        None => false,
    }
}

/// The points of the first `n` of a path that are between two distances.
pub open spec fn section_points(shape: Seq<ShapePoint>, start: ShortReal, end: ShortReal, n: int) -> Seq<PolylinePoint>
    decreases n,
{
    if n <= 0 {
        Seq::empty()
    } else {
        let before = section_points(shape, start, end, n - 1);
        if is_on_section(shape[n - 1], start, end) { before.push(PolylinePoint { lat: shape[n - 1].lat, lon: shape[n - 1].lon }) } else { before }
    }
}

/// At least two points, or nothing.
pub open spec fn if_line(points: Seq<PolylinePoint>) -> Option<Seq<PolylinePoint>> {
    if points.len() >= 2 { Some(points) } else { None }
}

/// The section of a path between two distances.
pub open spec fn section_by_distance(shape: Seq<ShapePoint>, start: Option<ShortReal>, end: Option<ShortReal>) -> Option<Seq<PolylinePoint>> {
    match (start, end) {
        (Some(from), Some(to)) => if to.less(from) { None } else { if_line(section_points(shape, from, to, shape.len() as int)) },
        _ => None,
    }
}

/// A line that may be missing.
pub open spec fn line_view(line: Option<Vec<PolylinePoint>>) -> Option<Seq<PolylinePoint>> {
    match line {
        Some(points) => Some(points@),
        None => None,
    }
}

/// The section of a path between two distances.
pub fn shape_polyline_by_distance(shape: &Vec<ShapePoint>, start_dist: Option<ShortReal>, end_dist: Option<ShortReal>) -> (line: Option<Vec<PolylinePoint>>)
    ensures
        line_view(line) == section_by_distance(shape@, start_dist, end_dist),
{
    let (start, end) = match (start_dist, end_dist) {
        (Some(start), Some(end)) => (start, end),
        _ => {
            return None;
        },
    };
    if end.is_less(start) {
        return None;
    }
    let mut points: Vec<PolylinePoint> = Vec::new();
    let mut i: usize = 0;
    assert(points@ =~= Seq::<PolylinePoint>::empty());
    while i < shape.len()
        invariant
            i <= shape.len(),
            points@ == section_points(shape@, start, end, i as int),
        decreases shape.len() - i,
    {
        let inside: bool = match shape[i].dist_traveled {
            Some(distance) => distance.is_at_least(start) && end.is_at_least(distance),
            None => false,
        };
        if inside {
            points.push(PolylinePoint { lat: shape[i].lat, lon: shape[i].lon });
        }
        i = i + 1;
    }
    if points.len() >= 2 { Some(points) } else { None }
}

/// A line with one more point, unless it ends there.
pub open spec fn with_point(line: Seq<PolylinePoint>, point: PolylinePoint) -> Seq<PolylinePoint> {
    if line.len() > 0 && line.last() == point { line } else { line.push(point) }
}

/// A line with one more point, if a stop has a place.
pub open spec fn with_stop(line: Seq<PolylinePoint>, stop: StopRecord) -> Seq<PolylinePoint> {
    match (stop.latitude, stop.longitude) {
        (Some(lat), Some(lon)) => with_point(line, PolylinePoint { lat: lat, lon: lon }),
        _ => line,
    }
}

/// A line with the points of a path from one to before another.
pub open spec fn with_path(line: Seq<PolylinePoint>, shape: Seq<ShapePoint>, from: int, to: int) -> Seq<PolylinePoint>
    decreases to - from,
{
    if to <= from {
        line
    } else {
        with_point(with_path(line, shape, from, to - 1), PolylinePoint { lat: shape[to - 1].lat, lon: shape[to - 1].lon })
    }
}

fn push_polyline_point(polyline: &mut Vec<PolylinePoint>, lat: Real, lon: Real)
    ensures
        final(polyline)@ == with_point(old(polyline)@, PolylinePoint { lat: lat, lon: lon }),
{
    let count: usize = polyline.len();
    let repeated: bool = if count == 0 { false } else { polyline[count - 1].lat.bits == lat.bits && polyline[count - 1].lon.bits == lon.bits };
    if !repeated {
        polyline.push(PolylinePoint { lat: lat, lon: lon });
    }
}

fn push_stop_polyline_point(polyline: &mut Vec<PolylinePoint>, stop: &StopRecord)
    ensures
        final(polyline)@ == with_stop(old(polyline)@, *stop),
{
    match (stop.latitude, stop.longitude) {
        (Some(lat), Some(lon)) => {
            push_polyline_point(polyline, lat, lon);
        },
        _ => {},
    }
}

/// The section of a path between the points nearest to two stops, with the stops
/// at its ends.
pub open spec fn section_by_stops(shape: Seq<ShapePoint>, stops: Seq<StopRecord>, trip: TripRecord, board_pos: int, alight_pos: int) -> Option<Seq<PolylinePoint>> {
    let calls = trip.stop_times@;
    if shape.len() < 2 || board_pos > alight_pos || trip.shape_stop_point_indices is None {
        None
    } else {
        let points = trip.shape_stop_point_indices->0@;
        if board_pos >= points.len() || alight_pos >= points.len() || points[alight_pos] <= points[board_pos] || board_pos >= calls.len()
            || alight_pos >= calls.len() || calls[board_pos].stop_index >= stops.len() || calls[alight_pos].stop_index >= stops.len() {
            None
        } else {
            let begun = with_stop(Seq::empty(), stops[calls[board_pos].stop_index as int]);
            let ridden = with_path(begun, shape, points[board_pos] as int, points[alight_pos] + 1);
            if_line(with_stop(ridden, stops[calls[alight_pos].stop_index as int]))
        }
    }
}

/// Whether the points nearest to the stops of a trip are on its path.
pub open spec fn projection_fits(trip: TripRecord, shape: Seq<ShapePoint>) -> bool {
    trip.shape_stop_point_indices is Some ==> forall|i: int| 0 <= i < trip.shape_stop_point_indices->0@.len() ==> (#[trigger] trip.shape_stop_point_indices->0@[i]) < shape.len()
}

/// The section of a path between the points nearest to two stops.
pub fn shape_polyline_by_stop_projection(shape: &Vec<ShapePoint>, stops: &Vec<StopRecord>, trip: &TripRecord, board_pos: usize, alight_pos: usize) -> (line: Option<
    Vec<PolylinePoint>,
>)
    requires
        projection_fits(*trip, shape@),
    ensures
        line_view(line) == section_by_stops(shape@, stops@, *trip, board_pos as int, alight_pos as int),
{
    if shape.len() < 2 || board_pos > alight_pos {
        return None;
    }
    let points: &Vec<u32> = match &trip.shape_stop_point_indices {
        Some(points) => points,
        None => {
            return None;
        },
    };
    if board_pos >= points.len() || alight_pos >= points.len() {
        return None;
    }
    let start: usize = points[board_pos] as usize;
    let end: usize = points[alight_pos] as usize;
    if end <= start {
        return None;
    }
    if board_pos >= trip.stop_times.len() || alight_pos >= trip.stop_times.len() {
        return None;
    }
    let first: usize = trip.stop_times[board_pos].stop_index;
    let last: usize = trip.stop_times[alight_pos].stop_index;
    if first >= stops.len() || last >= stops.len() {
        return None;
    }
    assert(trip.shape_stop_point_indices->0@[alight_pos as int] < shape@.len());
    let mut polyline: Vec<PolylinePoint> = Vec::new();
    assert(polyline@ =~= Seq::<PolylinePoint>::empty());
    push_stop_polyline_point(&mut polyline, &stops[first]);
    let ghost begun = polyline@;
    let mut at: usize = start;
    while at <= end
        invariant
            start <= at <= end + 1,
            end < shape.len(),
            polyline@ == with_path(begun, shape@, start as int, at as int),
        decreases end + 1 - at,
    {
        push_polyline_point(&mut polyline, shape[at].lat, shape[at].lon);
        at = at + 1;
    }
    push_stop_polyline_point(&mut polyline, &stops[last]);
    if polyline.len() >= 2 { Some(polyline) } else { None }
}

/// The path of a ride: by distances, or else by the points nearest to its stops.
pub open spec fn section_of(shape: Seq<ShapePoint>, stops: Seq<StopRecord>, trip: TripRecord, board_pos: int, alight_pos: int) -> Option<Seq<PolylinePoint>> {
    if board_pos >= trip.stop_times@.len() || alight_pos >= trip.stop_times@.len() {
        None
    } else {
        match section_by_distance(shape, trip.stop_times@[board_pos].shape_dist_traveled, trip.stop_times@[alight_pos].shape_dist_traveled) {
            Some(line) => Some(line),
            None => section_by_stops(shape, stops, trip, board_pos, alight_pos),
        }
    }
}

/// The path of a ride.
pub fn shape_polyline_segment(shape: &Vec<ShapePoint>, stops: &Vec<StopRecord>, trip: &TripRecord, board_pos: usize, alight_pos: usize) -> (line: Option<Vec<PolylinePoint>>)
    requires
        projection_fits(*trip, shape@),
    ensures
        line_view(line) == section_of(shape@, stops@, *trip, board_pos as int, alight_pos as int),
{
    if board_pos >= trip.stop_times.len() || alight_pos >= trip.stop_times.len() {
        return None;
    }
    match shape_polyline_by_distance(shape, trip.stop_times[board_pos].shape_dist_traveled, trip.stop_times[alight_pos].shape_dist_traveled) {
        Some(line) => Some(line),
        None => shape_polyline_by_stop_projection(shape, stops, trip, board_pos, alight_pos),
    }
}

/// The path of a ride, or the straight line where the trip has no path.
pub open spec fn ride_line(shape: Option<Seq<ShapePoint>>, stops: Seq<StopRecord>, trip: TripRecord, board_pos: int, alight_pos: int) -> Seq<PolylinePoint> {
    let straight_line = straight(stops[trip.stop_times@[board_pos].stop_index as int], stops[trip.stop_times@[alight_pos].stop_index as int]);
    match shape {
        Some(points) => match section_of(points, stops, trip, board_pos, alight_pos) {
            Some(line) => line,
            None => straight_line,
        },
        None => straight_line,
    }
}

/// The points of a path, if there is one.
pub open spec fn path_view(shape: Option<&Vec<ShapePoint>>) -> Option<Seq<ShapePoint>> {
    match shape {
        Some(points) => Some(points@),
        None => None,
    }
}

/// The path of a ride, or the straight line where the trip has no path.
pub fn trip_polyline(shape: Option<&Vec<ShapePoint>>, stops: &Vec<StopRecord>, trip: &TripRecord, board_pos: usize, alight_pos: usize) -> (line: Vec<PolylinePoint>)
    requires
        shape is Some ==> projection_fits(*trip, shape->0@),
        board_pos < trip.stop_times@.len(),
        alight_pos < trip.stop_times@.len(),
        trip.stop_times@[board_pos as int].stop_index < stops@.len(),
        trip.stop_times@[alight_pos as int].stop_index < stops@.len(),
    ensures
        line@ == ride_line(path_view(shape), stops@, *trip, board_pos as int, alight_pos as int),
{
    match shape {
        Some(points) => match shape_polyline_segment(points, stops, trip, board_pos, alight_pos) {
            Some(line) => {
                return line;
            },
            None => {},
        },
        None => {},
    }
    straight_polyline(&stops[trip.stop_times[board_pos].stop_index], &stops[trip.stop_times[alight_pos].stop_index])
}

/// The place of the least of distances from `from` up to but not including `to`:
/// the first of those that none is less than.
pub open spec fn least_place(distances: Seq<Real>, from: int, to: int) -> int
    decreases to - from,
{
    if to <= from + 1 {
        from
    } else {
        let best = least_place(distances, from, to - 1);
        if numerically_less(distances[to - 1], distances[best]) { to - 1 } else { best }
    }
}

/// Whether a number is less than another.
pub open spec fn numerically_less(a: Real, b: Real) -> bool {
    !a.is_nan_spec() && !b.is_nan_spec() && a.rank() < b.rank()
}

/// The point of a path nearest to a place, from a point on, given the distances
/// of all points.
pub fn nearest_shape_point_index(distances: &Vec<Real>, start_index: usize) -> (nearest: Option<usize>)
    ensures
        nearest == if start_index < distances@.len() {
            Some(least_place(distances@, start_index as int, distances@.len() as int) as usize)
        } else {
            None
        },
        nearest is Some ==> start_index <= nearest->0 < distances@.len(),
{
    if start_index >= distances.len() {
        return None;
    }
    let mut best: usize = start_index;
    let mut at: usize = start_index + 1;
    while at < distances.len()
        invariant
            start_index < at <= distances@.len(),
            start_index <= best < at,
            best == least_place(distances@, start_index as int, at as int),
        decreases distances.len() - at,
    {
        if distances[at].less_than(distances[best]) {
            best = at;
        }
        at = at + 1;
    }
    Some(best)
}

/// The points nearest to the first `n` stops of a trip, each at or behind that of
/// the stop before; nothing where a stop has no place or a path no points left.
pub open spec fn nearest_points(distances: Seq<Option<Vec<Real>>>, n: int) -> Option<Seq<u32>>
    decreases n,
{
    if n <= 0 {
        Some(Seq::empty())
    } else {
        match nearest_points(distances, n - 1) {
            None => None,
            Some(before) => {
                let start = if before.len() > 0 { before.last() as int } else { 0 };
                match distances[n - 1] {
                    None => None,
                    Some(row) => if start >= row@.len() || least_place(row@, start, row@.len() as int) > u32::MAX {
                        None
                    } else {
                        Some(before.push(least_place(row@, start, row@.len() as int) as u32))
                    },
                }
            },
        }
    }
}

proof fn nearest_points_stay_missing(distances: Seq<Option<Vec<Real>>>, n: int, m: int)
    requires
        n <= m,
        nearest_points(distances, n) is None,
    ensures
        nearest_points(distances, m) is None,
    decreases m - n,
{
    if n < m {
        nearest_points_stay_missing(distances, n, m - 1);
    }
}

/// Finds the points of a path nearest to the stops of a trip, given the distances
/// of all points from each stop that has a place. Without points there is nothing
/// to find.
pub fn build_shape_stop_point_indices(point_count: usize, distances: &Vec<Option<Vec<Real>>>) -> (points: Option<Vec<u32>>)
    ensures
        crate::records::list_view(points) == if point_count == 0 { None } else { nearest_points(distances@, distances@.len() as int) },
{
    if point_count == 0 {
        return None;
    }
    let mut points: Vec<u32> = Vec::new();
    let mut start: usize = 0;
    let mut i: usize = 0;
    assert(points@ =~= Seq::<u32>::empty());
    while i < distances.len()
        invariant
            i <= distances.len(),
            point_count > 0,
            nearest_points(distances@, i as int) == Some(points@),
            start == (if points@.len() > 0 { points@.last() as int } else { 0 }),
        decreases distances.len() - i,
    {
        let ghost before = points@;
        let found: Option<u32> = match &distances[i] {
            Some(row) => {
                proof {
                    least_place_is_within(row@, start as int, row.len() as int);
                }
                match nearest_shape_point_index(row, start) {
                    Some(at) => if at <= 0xFFFF_FFFF { Some(at as u32) } else { None },
                    None => None,
                }
            },
            None => None,
        };
        match found {
            Some(at) => {
                points.push(at);
                start = at as usize;
                assert(nearest_points(distances@, i + 1) == Some(before.push(at)));
            },
            None => {
                proof {
                    assert(nearest_points(distances@, i + 1) is None);
                    nearest_points_stay_missing(distances@, i + 1, distances@.len() as int);
                }
                return None;
            },
        }
        i = i + 1;
    }
    Some(points)
}

/// The points nearest to the stops of a trip do not go back along its path.
pub proof fn nearest_points_ascend(distances: Seq<Option<Vec<Real>>>, n: int)
    requires
        0 <= n,
        nearest_points(distances, n) is Some,
    ensures
        nearest_points(distances, n)->0.len() == n,
        forall|i: int, j: int| 0 <= i <= j < n ==> nearest_points(distances, n)->0[i] <= nearest_points(distances, n)->0[j],
    decreases n,
{
    if n > 0 {
        nearest_points_ascend(distances, n - 1);
        let before = nearest_points(distances, n - 1)->0;
        let all = nearest_points(distances, n)->0;
        let start = if before.len() > 0 { before.last() as int } else { 0 };
        let row = distances[n - 1]->0@;
        least_place_is_within(row, start, row.len() as int);
        assert forall|i: int, j: int| 0 <= i <= j < n implies all[i] <= all[j] by {
            if j < n - 1 {
                assert(before[i] <= before[j]);
            } else if i < n - 1 {
                assert(before[i] <= before[n - 2]);
            }
        }
    }
}

proof fn least_place_is_within(distances: Seq<Real>, from: int, to: int)
    ensures
        from <= least_place(distances, from, to),
        from < to ==> least_place(distances, from, to) < to,
    decreases to - from,
{
    if to > from + 1 {
        least_place_is_within(distances, from, to - 1);
    }
}

} // verus!
