//! From what a query asks to a plan: its ends as stops or as places, and the walks
//! between places and stops.

use crate::geo::{destination_cell_window, moore_neighborhood, window_of};
use crate::lookahead::QueryVirtualWalk;
use crate::model::{PolylinePoint, StaticData};
use crate::number::Real;
use crate::order::{arranged, is_stable_order, stable_order, stable_order_of, OrderKey};
use crate::query::{plan_valid, QueryPlan};
use crate::static_changes::listed_within;
use crate::stop_search::{named_stop, resolve_stop_query};
use std::collections::{HashMap, HashSet};
use vstd::prelude::*;

verus! {

/// A place.
#[derive(Clone, Copy, Debug, PartialEq, Eq, Structural)]
pub struct CoordinatePoint {
    pub latitude: Real,
    pub longitude: Real,
}

/// An end of a query.
#[derive(Clone, Copy, Debug, PartialEq, Eq, Structural)]
pub enum QueryEndpointInput {
    Stop(usize),
    Coordinate(CoordinatePoint),
}

/// Why an end of a query cannot be taken.
#[derive(Clone, Copy, Debug, PartialEq, Eq, Structural)]
pub enum EndpointError {
    /// Both a stop and a place are given.
    StopAndCoordinates,
    /// A longitude is given without a latitude.
    MissingLatitude,
    /// A latitude is given without a longitude.
    MissingLongitude,
    /// The latitude is not between -90 and 90.
    LatitudeOutOfRange,
    /// The longitude is not between -180 and 180.
    LongitudeOutOfRange,
    /// There is no such stop.
    UnknownStop,
}

/// The bits of -90 and 90, and of -180 and 180.
pub const LATITUDE_MIN: u64 = 13859405640767635456;

/// The bits of 90.
pub const LATITUDE_MAX: u64 = 4636033603912859648;

/// The bits of -180.
pub const LONGITUDE_MIN: u64 = 13863909240395005952;

/// The bits of 180.
pub const LONGITUDE_MAX: u64 = 4640537203540230144;

/// Whether a number is between two others, by their bits.
pub open spec fn is_between(value: Real, low: u64, high: u64) -> bool {
    !value.is_nan_spec() && Real { bits: low }.rank() <= value.rank() <= Real { bits: high }.rank()
}

fn between(value: Real, low: u64, high: u64) -> (within: bool)
    ensures
        within == is_between(value, low, high),
{
    !value.is_nan() && Real { bits: low }.numeric_rank() <= value.numeric_rank() && value.numeric_rank() <= Real { bits: high }.numeric_rank()
}

/// An end of a query: a place where coordinates are given, else the stop named.
pub open spec fn endpoint_of(data: StaticData, stop_id: Option<Seq<char>>, stop_gid: Option<u64>, latitude: Option<Real>, longitude: Option<Real>) -> Result<
    QueryEndpointInput,
    EndpointError,
> {
    if (stop_id is Some || stop_gid is Some) && (latitude is Some || longitude is Some) {
        Err(EndpointError::StopAndCoordinates)
    } else if latitude is Some || longitude is Some {
        if latitude is None {
            Err(EndpointError::MissingLatitude)
        } else if longitude is None {
            Err(EndpointError::MissingLongitude)
        } else if !is_between(latitude->0, LATITUDE_MIN, LATITUDE_MAX) {
            Err(EndpointError::LatitudeOutOfRange)
        } else if !is_between(longitude->0, LONGITUDE_MIN, LONGITUDE_MAX) {
            Err(EndpointError::LongitudeOutOfRange)
        } else {
            Ok(QueryEndpointInput::Coordinate(CoordinatePoint { latitude: latitude->0, longitude: longitude->0 }))
        }
    } else {
        match named_stop(data, stop_id, stop_gid) {
            Some(stop) => Ok(QueryEndpointInput::Stop(stop)),
            None => Err(EndpointError::UnknownStop),
        }
    }
}

/// Takes an end of a query.
pub fn resolve_query_input(data: &StaticData, stop_id: Option<&str>, stop_gid: Option<u64>, latitude: Option<Real>, longitude: Option<Real>) -> (result: Result<
    QueryEndpointInput,
    EndpointError,
>)
    requires
        listed_within(data.active_stop_indices@, data.stops@.len() as int),
    ensures
        result == endpoint_of(
            *data,
            match stop_id {
                Some(id) => Some(id@),
                None => None,
            },
            stop_gid,
            latitude,
            longitude,
        ),
{
    let has_stop: bool = stop_id.is_some() || stop_gid.is_some();
    let has_coordinates: bool = latitude.is_some() || longitude.is_some();
    if has_stop && has_coordinates {
        return Err(EndpointError::StopAndCoordinates);
    }
    if has_coordinates {
        let lat: Real = match latitude {
            Some(value) => value,
            None => {
                return Err(EndpointError::MissingLatitude);
            },
        };
        let lon: Real = match longitude {
            Some(value) => value,
            None => {
                return Err(EndpointError::MissingLongitude);
            },
        };
        if !between(lat, LATITUDE_MIN, LATITUDE_MAX) {
            return Err(EndpointError::LatitudeOutOfRange);
        }
        if !between(lon, LONGITUDE_MIN, LONGITUDE_MAX) {
            return Err(EndpointError::LongitudeOutOfRange);
        }
        return Ok(QueryEndpointInput::Coordinate(CoordinatePoint { latitude: lat, longitude: lon }));
    }
    match resolve_stop_query(data, stop_id, stop_gid) {
        Some(stop) => Ok(QueryEndpointInput::Stop(stop)),
        None => Err(EndpointError::UnknownStop),
    }
}

/// Why a coordinate of a street route cannot be taken.
#[derive(Clone, Copy, Debug, PartialEq, Eq, Structural)]
pub enum CoordinateError {
    Missing,
    Invalid,
}

/// Takes a latitude of a street route.
pub fn validate_query_latitude(value: Option<Real>) -> (result: Result<Real, CoordinateError>)
    ensures
        result == match value {
            None => Err::<Real, CoordinateError>(CoordinateError::Missing),
            Some(latitude) => if is_between(latitude, LATITUDE_MIN, LATITUDE_MAX) { Ok::<Real, CoordinateError>(latitude) } else { Err::<Real, CoordinateError>(CoordinateError::Invalid) },
        },
{
    match value {
        None => Err(CoordinateError::Missing),
        Some(latitude) => if !latitude.is_finite() || !between(latitude, LATITUDE_MIN, LATITUDE_MAX) { Err(CoordinateError::Invalid) } else { Ok(latitude) },
    }
}

/// Takes a longitude of a street route.
pub fn validate_query_longitude(value: Option<Real>) -> (result: Result<Real, CoordinateError>)
    ensures
        result == match value {
            None => Err::<Real, CoordinateError>(CoordinateError::Missing),
            Some(longitude) => if is_between(longitude, LONGITUDE_MIN, LONGITUDE_MAX) { Ok::<Real, CoordinateError>(longitude) } else { Err::<Real, CoordinateError>(CoordinateError::Invalid) },
        },
{
    match value {
        None => Err(CoordinateError::Missing),
        Some(longitude) => if !longitude.is_finite() || !between(longitude, LONGITUDE_MIN, LONGITUDE_MAX) { Err(CoordinateError::Invalid) } else { Ok(longitude) },
    }
}

/// A list with what is not in it yet of the first `n` of another added.
pub open spec fn with_new(list: Seq<usize>, more: Seq<usize>, n: int) -> Seq<usize>
    decreases n,
{
    if n <= 0 {
        list
    } else {
        let before = with_new(list, more, n - 1);
        if before.contains(more[n - 1]) { before } else { before.push(more[n - 1]) }
    }
}

/// The stops of the first `n` cells, each once, behind a list.
pub open spec fn with_cells(list: Seq<usize>, stop_cells: Map<u64, Vec<usize>>, cells: Seq<u64>, n: int) -> Seq<usize>
    decreases n,
{
    if n <= 0 {
        list
    } else {
        let before = with_cells(list, stop_cells, cells, n - 1);
        if stop_cells.dom().contains(cells[n - 1]) {
            with_new(before, stop_cells[cells[n - 1]]@, stop_cells[cells[n - 1]]@.len() as int)
        } else {
            before
        }
    }
}

/// The stops within wider and wider windows around a cell, from a radius on: no
/// wider than two cells, nor than it takes to have enough.
pub open spec fn widened(list: Seq<usize>, stop_cells: Map<u64, Vec<usize>>, center: u64, limit: int, radius: int) -> Seq<usize>
    decreases 3 - radius,
{
    if radius > 2 {
        list
    } else {
        let window = window_of(center, radius);
        let here = with_cells(list, stop_cells, window, window.len() as int);
        if here.len() >= limit { here } else { widened(here, stop_cells, center, limit, radius + 1) }
    }
}

/// The stops that may be near a place: those around its cell, and if they are not
/// enough, all others.
pub open spec fn nearby(stop_cells: Map<u64, Vec<usize>>, active: Seq<usize>, center: Option<u64>, limit: int) -> Seq<usize> {
    let around = match center {
        Some(cell) => widened(Seq::empty(), stop_cells, cell, limit, 0),
        None => Seq::empty(),
    };
    if around.len() < limit { with_new(around, active, active.len() as int) } else { around }
}

struct Gathered {
    seen: HashSet<usize>,
    list: Vec<usize>,
}

impl Gathered {
    spec fn wf(&self) -> bool {
        forall|stop: usize| self.seen@.contains(stop) <==> #[trigger] self.list@.contains(stop)
    }

    fn add_all(&mut self, more: &Vec<usize>)
        requires
            old(self).wf(),
        ensures
            final(self).wf(),
            final(self).list@ == with_new(old(self).list@, more@, more@.len() as int),
    {
        let ghost start = self.list@;
        let mut i: usize = 0;
        while i < more.len()
            invariant
                i <= more.len(),
                self.wf(),
                self.list@ == with_new(start, more@, i as int),
            decreases more.len() - i,
        {
            let stop: usize = more[i];
            let ghost before = self.list@;
            let ghost known = self.seen@;
            if self.seen.insert(stop) {
                assert(!before.contains(stop));
                self.list.push(stop);
                assert forall|other: usize| self.seen@.contains(other) <==> #[trigger] self.list@.contains(other) by {
                    if before.contains(other) {
                        let at = choose|at: int| 0 <= at < before.len() && before[at] == other;
                        assert(self.list@[at] == other);
                    }
                    assert(self.list@[before.len() as int] == stop);
                    if self.list@.contains(other) && other != stop {
                        let at = choose|at: int| 0 <= at < self.list@.len() && self.list@[at] == other;
                        assert(before[at] == other);
                    }
                }
            } else {
                assert(before.contains(stop));
                assert(self.seen@ =~= known);
            }
            i = i + 1;
        }
    }

    fn add_cells(&mut self, stop_cells: &HashMap<u64, Vec<usize>>, cells: &Vec<u64>)
        requires
            old(self).wf(),
        ensures
            final(self).wf(),
            final(self).list@ == with_cells(old(self).list@, stop_cells@, cells@, cells@.len() as int),
    {
        let ghost start = self.list@;
        let mut i: usize = 0;
        while i < cells.len()
            invariant
                i <= cells.len(),
                self.wf(),
                self.list@ == with_cells(start, stop_cells@, cells@, i as int),
            decreases cells.len() - i,
        {
            let cell: u64 = cells[i];
            match stop_cells.get(&cell) {
                Some(stops) => {
                    self.add_all(stops);
                },
                None => {},
            }
            i = i + 1;
        }
    }
}

/// Gathers the stops that may be near a place.
pub fn nearby_stops(stop_cells: &HashMap<u64, Vec<usize>>, active: &Vec<usize>, center: Option<u64>, limit: usize) -> (stops: Vec<usize>)
    ensures
        stops@ == nearby(stop_cells@, active@, center, limit as int),
{
    let mut gathered: Gathered = Gathered { seen: HashSet::new(), list: Vec::new() };
    assert(gathered.list@ =~= Seq::<usize>::empty());
    match center {
        Some(cell) => {
            let mut radius: u32 = 0;
            let mut enough: bool = false;
            while radius <= 2 && !enough
                invariant
                    radius <= 3,
                    gathered.wf(),
                    if enough {
                        widened(Seq::empty(), stop_cells@, cell, limit as int, 0) == gathered.list@
                    } else {
                        widened(Seq::empty(), stop_cells@, cell, limit as int, 0) == widened(gathered.list@, stop_cells@, cell, limit as int, radius as int)
                    },
                decreases 3 - radius,
            {
                let window: Vec<u64> = destination_cell_window(cell, radius);
                gathered.add_cells(stop_cells, &window);
                enough = gathered.list.len() >= limit;
                radius = radius + 1;
            }
            assert(gathered.list@ == widened(Seq::empty(), stop_cells@, cell, limit as int, 0));
        },
        None => {},
    }
    if gathered.list.len() < limit {
        gathered.add_all(active);
    }
    gathered.list
}

/// A stop near a place, with its distance.
#[derive(Clone, Copy, Debug, PartialEq, Eq, Structural)]
pub struct ProjectedStopCandidate {
    pub stop_index: usize,
    pub distance_meters: Real,
}

/// Whether a distance is beyond a limit.
pub open spec fn is_beyond(distance: Real, limit: Real) -> bool {
    !distance.is_nan_spec() && !limit.is_nan_spec() && limit.rank() < distance.rank()
}

/// The first `n` candidates that are not beyond a distance.
pub open spec fn within_distance(candidates: Seq<ProjectedStopCandidate>, limit: Real, n: int) -> Seq<ProjectedStopCandidate>
    decreases n,
{
    if n <= 0 {
        Seq::empty()
    } else {
        let before = within_distance(candidates, limit, n - 1);
        if is_beyond(candidates[n - 1].distance_meters, limit) { before } else { before.push(candidates[n - 1]) }
    }
}

/// The keys by which candidates are ordered: the distance, then the stop.
pub open spec fn distance_keys(candidates: Seq<ProjectedStopCandidate>) -> Seq<OrderKey> {
    Seq::new(candidates.len(), |i: int| (candidates[i].distance_meters.total_rank() as i128, candidates[i].stop_index as i128, 0i128))
}

/// No more than so many of a list.
pub open spec fn at_most<T>(list: Seq<T>, limit: int) -> Seq<T> {
    if list.len() <= limit { list } else { list.take(limit) }
}

/// The nearest candidates.
pub open spec fn nearest(candidates: Seq<ProjectedStopCandidate>, max_radius: Real, limit: int) -> Seq<ProjectedStopCandidate> {
    let near = within_distance(candidates, max_radius, candidates.len() as int);
    at_most(arranged(near, stable_order_of(distance_keys(near))), limit)
}

/// Picks the nearest candidates.
pub fn rank_projected_stops(candidates: &Vec<ProjectedStopCandidate>, max_radius_meters: Real, limit: usize) -> (ranked: Vec<ProjectedStopCandidate>)
    ensures
        ranked@ == nearest(candidates@, max_radius_meters, limit as int),
{
    let mut near: Vec<ProjectedStopCandidate> = Vec::new();
    let mut keys: Vec<OrderKey> = Vec::new();
    let mut i: usize = 0;
    assert(near@ =~= Seq::<ProjectedStopCandidate>::empty());
    assert(keys@ =~= distance_keys(near@));
    while i < candidates.len()
        invariant
            i <= candidates.len(),
            near@ == within_distance(candidates@, max_radius_meters, i as int),
            keys@ == distance_keys(near@),
        decreases candidates.len() - i,
    {
        let candidate: ProjectedStopCandidate = candidates[i];
        if !max_radius_meters.less_than(candidate.distance_meters) {
            let ghost before = keys@;
            near.push(candidate);
            keys.push((candidate.distance_meters.total_order_rank(), candidate.stop_index as i128, 0));
            assert(keys@ =~= distance_keys(near@));
        }
        i = i + 1;
    }
    let order: Vec<usize> = stable_order(&keys);
    let mut ranked: Vec<ProjectedStopCandidate> = Vec::new();
    let mut k: usize = 0;
    while k < order.len()
        invariant
            k <= order.len(),
            is_stable_order(keys@, order@),
            keys@.len() == near@.len(),
            ranked@.len() == k,
            forall|j: int| 0 <= j < k ==> #[trigger] ranked@[j] == near@[order@[j] as int],
        decreases order.len() - k,
    {
        assert(order@[k as int] < keys@.len());
        ranked.push(near[order[k]]);
        k = k + 1;
    }
    assert(ranked@ =~= arranged(near@, stable_order_of(distance_keys(near@))));
    if ranked.len() > limit {
        ranked.truncate(limit);
        assert(ranked@ =~= arranged(near@, stable_order_of(distance_keys(near@))).take(limit as int));
    }
    ranked
}

/// A way on foot between a place and a stop.
#[derive(Clone, Debug)]
pub struct StopConnector {
    pub stop_index: usize,
    pub duration_secs: i32,
    pub distance_meters: Real,
    pub polyline: Vec<PolylinePoint>,
    pub segment_way_ids: Vec<Option<i64>>,
    pub used_asymptotic_penalty: bool,
}

/// Whether more stops are looked for: if all that were found are far from the
/// network, and more can be had.
pub open spec fn looks_wider(connectors: Seq<StopConnector>, base_limit: int, wider_limit: int) -> bool {
    connectors.len() > 0 && wider_limit > base_limit && forall|i: int| 0 <= i < connectors.len() ==> (#[trigger] connectors[i]).used_asymptotic_penalty
}

/// The greater number of stops that is looked for: four times as many, or four
/// more if that is more.
pub fn adaptive_limit(base_limit: usize) -> (limit: usize)
    ensures
        limit == ({
            let times = if base_limit * 4 > usize::MAX { usize::MAX as int } else { base_limit * 4 };
            let plus = if base_limit + 4 > usize::MAX { usize::MAX as int } else { base_limit + 4 };
            if times >= plus { times } else { plus }
        }),
{
    let times: usize = if base_limit > usize::MAX / 4 { usize::MAX } else { base_limit * 4 };
    let plus: usize = if base_limit > usize::MAX - 4 { usize::MAX } else { base_limit + 4 };
    proof {
        assert(usize::MAX % 4 == 3) by {
            assert(usize::MAX == 0xFFFF_FFFF_FFFF_FFFF || usize::MAX == 0xFFFF_FFFF);
        }
    }
    if times >= plus { times } else { plus }
}

/// Whether more stops are looked for.
pub fn should_look_wider(connectors: &Vec<StopConnector>, base_limit: usize, wider_limit: usize) -> (wider: bool)
    ensures
        wider == looks_wider(connectors@, base_limit as int, wider_limit as int),
{
    if connectors.len() == 0 || wider_limit <= base_limit {
        return false;
    }
    let mut i: usize = 0;
    while i < connectors.len()
        invariant
            i <= connectors.len(),
            forall|k: int| 0 <= k < i ==> (#[trigger] connectors@[k]).used_asymptotic_penalty,
        decreases connectors.len() - i,
    {
        if !connectors[i].used_asymptotic_penalty {
            assert(!connectors@[i as int].used_asymptotic_penalty);
            return false;
        }
        i = i + 1;
    }
    true
}

/// Whether a walk follows a connector, from or to a place.
pub open spec fn is_walk_of(walk: QueryVirtualWalk, connector: StopConnector, place: usize, is_source: bool) -> bool {
    &&& walk.from_stop == if is_source { place } else { connector.stop_index }
    &&& walk.to_stop == if is_source { connector.stop_index } else { place }
    &&& walk.duration_secs == if connector.duration_secs < 1 { 1 } else { connector.duration_secs }
    &&& walk.distance_meters == connector.distance_meters
    &&& walk.polyline@ == if is_source { connector.polyline@ } else { connector.polyline@.reverse() }
    &&& walk.segment_way_ids@ == if is_source { connector.segment_way_ids@ } else { connector.segment_way_ids@.reverse() }
}

/// How many of the first `n` connectors begin far from the network.
pub open spec fn penalties(connectors: Seq<StopConnector>, n: int) -> int
    decreases n,
{
    if n <= 0 {
        0
    } else {
        penalties(connectors, n - 1) + if connectors[n - 1].used_asymptotic_penalty { 1int } else { 0int }
    }
}

fn turned<T: Copy>(items: &Vec<T>, keep: bool) -> (result: Vec<T>)
    ensures
        result@ == if keep { items@ } else { items@.reverse() },
{
    let mut result: Vec<T> = Vec::new();
    let mut i: usize = 0;
    while i < items.len()
        invariant
            i <= items.len(),
            result@ == (if keep { items@ } else { items@.reverse() }).take(i as int),
        decreases items.len() - i,
    {
        if keep {
            result.push(items[i]);
        } else {
            result.push(items[items.len() - 1 - i]);
        }
        i = i + 1;
        assert(result@ =~= (if keep { items@ } else { items@.reverse() }).take(i as int));
    }
    assert((if keep { items@ } else { items@.reverse() }).take(i as int) =~= (if keep { items@ } else { items@.reverse() }));
    result
}

/// The walks along connectors from or to a place, and how many begin far from
/// the network.
pub fn connector_walks(connectors: &Vec<StopConnector>, virtual_index: usize, is_source: bool) -> (result: (Vec<QueryVirtualWalk>, usize))
    ensures
        result.0@.len() == connectors@.len(),
        forall|i: int| 0 <= i < connectors@.len() ==> is_walk_of(#[trigger] result.0@[i], connectors@[i], virtual_index, is_source),
        result.1 == penalties(connectors@, connectors@.len() as int),
{
    let mut walks: Vec<QueryVirtualWalk> = Vec::new();
    let mut far: usize = 0;
    let mut i: usize = 0;
    while i < connectors.len()
        invariant
            i <= connectors.len(),
            walks@.len() == i,
            forall|k: int| 0 <= k < i ==> is_walk_of(#[trigger] walks@[k], connectors@[k], virtual_index, is_source),
            far == penalties(connectors@, i as int),
            far <= i,
        decreases connectors.len() - i,
    {
        let connector: &StopConnector = &connectors[i];
        if connector.used_asymptotic_penalty {
            far = far + 1;
        }
        let walk: QueryVirtualWalk = QueryVirtualWalk {
            from_stop: if is_source { virtual_index } else { connector.stop_index },
            to_stop: if is_source { connector.stop_index } else { virtual_index },
            duration_secs: if connector.duration_secs < 1 { 1 } else { connector.duration_secs },
            distance_meters: connector.distance_meters,
            polyline: turned(&connector.polyline, is_source),
            segment_way_ids: turned(&connector.segment_way_ids, is_source),
        };
        walks.push(walk);
        i = i + 1;
    }
    (walks, far)
}

/// The keys by which walks are ordered: the time, the distance, and the stop they
/// lead to.
pub open spec fn walk_keys(walks: Seq<QueryVirtualWalk>) -> Seq<OrderKey> {
    Seq::new(walks.len(), |i: int| (walks[i].duration_secs as i128, walks[i].distance_meters.total_rank() as i128, walks[i].to_stop as i128))
}

/// Whether two walks are the same.
pub open spec fn same_walk(a: QueryVirtualWalk, b: QueryVirtualWalk) -> bool {
    a.from_stop == b.from_stop && a.to_stop == b.to_stop && a.duration_secs == b.duration_secs && a.distance_meters == b.distance_meters && a.polyline@ == b.polyline@
        && a.segment_way_ids@ == b.segment_way_ids@
}

/// Whether a list holds the best of other walks, in order.
pub open spec fn are_best_walks(best: Seq<QueryVirtualWalk>, walks: Seq<QueryVirtualWalk>, limit: int) -> bool {
    let order = at_most(stable_order_of(walk_keys(walks)), limit);
    best.len() == order.len() && forall|i: int| 0 <= i < best.len() ==> same_walk(#[trigger] best[i], walks[order[i] as int])
}

/// Picks the best of the walks between a place and the stops around it.
pub fn resolve_projected_walks(walks: &Vec<QueryVirtualWalk>, limit: usize) -> (best: Vec<QueryVirtualWalk>)
    ensures
        are_best_walks(best@, walks@, limit as int),
{
    let mut keys: Vec<OrderKey> = Vec::new();
    let mut i: usize = 0;
    while i < walks.len()
        invariant
            i <= walks.len(),
            keys@ == walk_keys(walks@).take(i as int),
        decreases walks.len() - i,
    {
        keys.push((walks[i].duration_secs as i128, walks[i].distance_meters.total_order_rank(), walks[i].to_stop as i128));
        i = i + 1;
        assert(keys@ =~= walk_keys(walks@).take(i as int));
    }
    assert(walk_keys(walks@).take(i as int) =~= walk_keys(walks@));
    let order: Vec<usize> = stable_order(&keys);
    let mut best: Vec<QueryVirtualWalk> = Vec::new();
    let mut k: usize = 0;
    while k < order.len() && k < limit
        invariant
            k <= order.len(),
            k <= limit,
            is_stable_order(keys@, order@),
            keys@.len() == walks@.len(),
            best@.len() == k,
            forall|j: int| 0 <= j < k ==> same_walk(#[trigger] best@[j], walks@[order@[j] as int]),
        decreases order.len() - k,
    {
        assert(order@[k as int] < keys@.len());
        let walk: &QueryVirtualWalk = &walks[order[k]];
        best.push(
            QueryVirtualWalk {
                from_stop: walk.from_stop,
                to_stop: walk.to_stop,
                duration_secs: walk.duration_secs,
                distance_meters: walk.distance_meters,
                polyline: turned(&walk.polyline, true),
                segment_way_ids: turned(&walk.segment_way_ids, true),
            },
        );
        k = k + 1;
    }
    best
}

/// The straight line between a place and a stop, in the direction of the walk.
pub fn virtual_walk_polyline(point: CoordinatePoint, latitude: Option<Real>, longitude: Option<Real>, is_source: bool) -> (polyline: Vec<PolylinePoint>)
    ensures
        polyline@ == match (latitude, longitude) {
            (Some(lat), Some(lon)) => {
                let place = PolylinePoint { lat: point.latitude, lon: point.longitude };
                let stop = PolylinePoint { lat: lat, lon: lon };
                if is_source { seq![place, stop] } else { seq![stop, place] }
            },
            _ => Seq::empty(),
        },
{
    let mut polyline: Vec<PolylinePoint> = Vec::new();
    match (latitude, longitude) {
        (Some(lat), Some(lon)) => {
            let place: PolylinePoint = PolylinePoint { lat: point.latitude, lon: point.longitude };
            let stop: PolylinePoint = PolylinePoint { lat: lat, lon: lon };
            if is_source {
                polyline.push(place);
                polyline.push(stop);
                assert(polyline@ =~= seq![place, stop]);
            } else {
                polyline.push(stop);
                polyline.push(place);
                assert(polyline@ =~= seq![stop, place]);
            }
        },
        _ => {},
    }
    polyline
}

/// An end of a query that is ready to be planned with: a stop, or a place with
/// its cell and the walks between it and stops.
#[derive(Clone, Debug)]
pub enum PreparedEnd {
    Stop(usize),
    Place { cell: Option<u64>, walks: Vec<QueryVirtualWalk> },
}

/// The number of the place at the beginning of a query: the first behind the
/// stops.
pub fn source_place(stop_count: usize) -> (index: usize)
    ensures
        index == stop_count,
{
    stop_count
}

/// The number of the place at the end of a query, behind that at the beginning if
/// there is one.
pub fn destination_place(stop_count: usize, from: &QueryEndpointInput) -> (index: usize)
    requires
        stop_count < usize::MAX,
    ensures
        index == stop_count + if *from is Coordinate { 1int } else { 0int },
{
    match from {
        QueryEndpointInput::Stop(_) => stop_count,
        QueryEndpointInput::Coordinate(_) => stop_count + 1,
    }
}

/// How many of two ends are places.
pub open spec fn places_in(from: PreparedEnd, to: PreparedEnd) -> int {
    (if from is Place { 1int } else { 0int }) + (if to is Place { 1int } else { 0int })
}

/// Whether a plan is that of two ends.
pub open spec fn is_plan_of(plan: QueryPlan, data: StaticData, from: PreparedEnd, to: PreparedEnd) -> bool {
    let stops = data.stops@.len() as int;
    &&& plan.virtual_stop_count == places_in(from, to)
    &&& match from {
        PreparedEnd::Stop(stop) => plan.from_index == stop && plan.source_access_edges@.len() == 0,
        PreparedEnd::Place { walks, .. } => plan.from_index == stops && plan.source_access_edges@ == walks@,
    }
    &&& match to {
        PreparedEnd::Stop(stop) => {
            let cell = data.stop_destination_cells@[stop as int];
            &&& plan.to_index == stop
            &&& plan.exact_destination_stop == Some(stop)
            &&& plan.destination_cell_for_insert == cell
            &&& plan.destination_cells@ == cells_around(cell)
            &&& plan.destination_egress_edges@.len() == 0
        },
        PreparedEnd::Place { cell, walks } => {
            &&& plan.to_index == stops + (if from is Place { 1int } else { 0int })
            &&& plan.exact_destination_stop is None
            &&& plan.destination_cell_for_insert == cell
            &&& plan.destination_cells@ == cells_around(cell)
            &&& plan.destination_egress_edges@ == walks@
        },
    }
}

/// A cell and those next to it.
pub open spec fn cells_around(cell: Option<u64>) -> Seq<u64> {
    match cell {
        Some(center) => window_of(center, 1),
        None => Seq::empty(),
    }
}

fn list_cells_around(cell: Option<u64>) -> (cells: Vec<u64>)
    ensures
        cells@ == cells_around(cell),
{
    match cell {
        Some(center) => moore_neighborhood(center),
        None => Vec::new(),
    }
}

/// Whether ends can be planned with: stops are there, and walks lead between
/// their place and stops in a positive time.
pub open spec fn ends_valid(data: StaticData, from: PreparedEnd, to: PreparedEnd) -> bool {
    let stops = data.stops@.len() as int;
    &&& stops + 2 <= usize::MAX
    &&& data.stop_destination_cells@.len() == stops
    &&& match from {
        PreparedEnd::Stop(stop) => stop < stops,
        PreparedEnd::Place { walks, .. } => walks@.len() > 0 && forall|i: int| 0 <= i < walks@.len() ==> {
            let walk = #[trigger] walks@[i];
            walk.from_stop == stops && walk.to_stop < stops && 1 <= walk.duration_secs <= i32::MAX - crate::model::INF_TIME
        },
    }
    &&& match to {
        PreparedEnd::Stop(stop) => stop < stops,
        PreparedEnd::Place { walks, .. } => forall|i: int| 0 <= i < walks@.len() ==> {
            let walk = #[trigger] walks@[i];
            walk.from_stop < stops && walk.to_stop == stops + (if from is Place { 1int } else { 0int }) && 1 <= walk.duration_secs <= i32::MAX - crate::model::INF_TIME
        },
    }
}

/// Makes the plan of a query of its two ends.
pub fn resolve_query_plan(data: &StaticData, from: PreparedEnd, to: PreparedEnd) -> (plan: QueryPlan)
    requires
        ends_valid(*data, from, to),
    ensures
        is_plan_of(plan, *data, from, to),
        plan_valid(*data, plan),
{
    let stops: usize = data.stops.len();
    let mut next: usize = stops;
    let (from_index, source_access_edges) = match from {
        PreparedEnd::Stop(stop) => (stop, Vec::new()),
        PreparedEnd::Place { walks, .. } => {
            next = next + 1;
            (stops, walks)
        },
    };
    match to {
        PreparedEnd::Stop(stop) => {
            let cell: Option<u64> = data.stop_destination_cells[stop];
            QueryPlan {
                from_index: from_index,
                to_index: stop,
                exact_destination_stop: Some(stop),
                destination_cells: list_cells_around(cell),
                destination_cell_for_insert: cell,
                source_access_edges: source_access_edges,
                destination_egress_edges: Vec::new(),
                virtual_stop_count: next - stops,
            }
        },
        PreparedEnd::Place { cell, walks } => QueryPlan {
            from_index: from_index,
            to_index: next,
            exact_destination_stop: None,
            destination_cells: list_cells_around(cell),
            destination_cell_for_insert: cell,
            source_access_edges: source_access_edges,
            destination_egress_edges: walks,
            virtual_stop_count: next - stops + 1,
        },
    }
}

} // verus!
