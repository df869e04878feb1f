//! From the parts of a timetable to one that queries can be run on.

use crate::lines::{built_lines_are_valid, lines_at_are_calls, listed_trips_valid};
use crate::model::{StaticData, StopRecord, TransferRelaxIndex, WalkTransfer};
use crate::order::{is_stable_order, sorted_unique, stable_order, stable_order_of, strictly_ascending, OrderKey};
use crate::query::data_ready;
use crate::realtime::trip_calls_valid;
use crate::records::{stops_view, trip_refers, StopView};
use crate::relax::{built_index_is_valid, walks_valid};
use crate::static_changes::{listed_within, tables_of, tables_of_core, StaticDiffSummary};
use crate::static_core::{all_indices, core_sound, StaticCore};
use crate::static_merge::{
    active_trips_timed, appended_trips_are_usable, leaves_room, merged_core, merged_routes_are_appended, merged_stops_are_appended, merged_tables,
    merged_trips_are_appended, moved_list, moved_lists_are_within, moved_services, remapped, remapped_within, trip_is_usable, trip_timed,
};
use crate::text::same_text;
use crate::text_order::texts_view;
use crate::transfer_index::{build_transfer_relax_index, HubKey};
use std::collections::HashMap;
use vstd::prelude::*;

verus! {

/// How long the steps of a build took, in milliseconds.
#[derive(Clone, Copy, Debug, PartialEq, Eq, Structural)]
pub struct BuildTimings {
    pub static_cache_read_ms: u128,
    pub gtfs_parse_ms: u128,
    pub transit_model_ms: u128,
    pub static_cache_write_ms: u128,
    pub cold_store_ms: u128,
    pub walker_ms: u128,
    pub hpf_ms: u128,
}

/// How a timetable came about.
#[derive(Clone, Copy, Debug, PartialEq, Eq, Structural)]
pub enum UpdateStrategy {
    /// It was stored, with the same inputs.
    CacheHit,
    /// There was none before.
    ColdStart,
    /// It was taken over into the one before.
    AppendOnly,
    /// It differs too much from the one before.
    FullRebuild,
}

impl UpdateStrategy {
    /// The name of the strategy.
    pub fn as_str(self) -> (name: &'static str)
        ensures
            name@ == match self {
                UpdateStrategy::CacheHit => "cache-hit"@,
                UpdateStrategy::ColdStart => "cold-start-full-build"@,
                UpdateStrategy::AppendOnly => "differential-injection-append-only"@,
                UpdateStrategy::FullRebuild => "full-rebuild"@,
            },
    {
        match self {
            UpdateStrategy::CacheHit => "cache-hit",
            UpdateStrategy::ColdStart => "cold-start-full-build",
            UpdateStrategy::AppendOnly => "differential-injection-append-only",
            UpdateStrategy::FullRebuild => "full-rebuild",
        }
    }
}

/// How a timetable comes about: from a stored one with the same inputs, or built
/// anew and, where there was one before that it does not differ from too much,
/// taken over into that.
pub fn update_strategy(cached: bool, has_previous: bool, within_tolerance: bool) -> (strategy: UpdateStrategy)
    ensures
        strategy == if cached {
            UpdateStrategy::CacheHit
        } else if !has_previous {
            UpdateStrategy::ColdStart
        } else if within_tolerance {
            UpdateStrategy::AppendOnly
        } else {
            UpdateStrategy::FullRebuild
        },
{
    if cached {
        UpdateStrategy::CacheHit
    } else if !has_previous {
        UpdateStrategy::ColdStart
    } else if within_tolerance {
        UpdateStrategy::AppendOnly
    } else {
        UpdateStrategy::FullRebuild
    }
}

/// Whether only the walks around changed stops are built anew: if there was a
/// timetable before and something has changed since.
pub fn rebuilds_differentially(has_previous: bool, summary: &StaticDiffSummary) -> (differential: bool)
    ensures
        differential == (has_previous && summary.differential_applied),
{
    has_previous && summary.differential_applied
}

/// The stops of each cell among the first `n` listed.
pub open spec fn cells_of(cells: Seq<Option<u64>>, listed: Seq<usize>, n: int) -> Map<u64, Seq<usize>>
    decreases n,
{
    if n <= 0 {
        Map::empty()
    } else {
        let before = cells_of(cells, listed, n - 1);
        match cells[listed[n - 1] as int] {
            Some(cell) => before.insert(cell, (if before.dom().contains(cell) { before[cell] } else { Seq::empty() }).push(listed[n - 1])),
            None => before,
        }
    }
}

/// Lists by cell as sequences.
pub open spec fn cell_lists(cells: Map<u64, Vec<usize>>) -> Map<u64, Seq<usize>> {
    Map::new(|cell: u64| cells.dom().contains(cell), |cell: u64| cells[cell]@)
}

/// Lists the stops of each cell.
pub fn build_stop_cells(cells: &Vec<Option<u64>>, active_stop_indices: &Vec<usize>) -> (stop_cells: HashMap<u64, Vec<usize>>)
    requires
        listed_within(active_stop_indices@, cells@.len() as int),
    ensures
        cell_lists(stop_cells@) == cells_of(cells@, active_stop_indices@, active_stop_indices@.len() as int),
{
    let mut stop_cells: HashMap<u64, Vec<usize>> = HashMap::new();
    let mut i: usize = 0;
    assert(cell_lists(stop_cells@) =~= Map::<u64, Seq<usize>>::empty());
    while i < active_stop_indices.len()
        invariant
            i <= active_stop_indices@.len(),
            listed_within(active_stop_indices@, cells@.len() as int),
            cell_lists(stop_cells@) == cells_of(cells@, active_stop_indices@, i as int),
        decreases active_stop_indices.len() - i,
    {
        let stop: usize = active_stop_indices[i];
        assert(active_stop_indices@[i as int] < cells@.len());
        match cells[stop] {
            Some(cell) => {
                let ghost before = stop_cells@;
                let mut list: Vec<usize> = match stop_cells.remove(&cell) {
                    Some(list) => list,
                    None => Vec::new(),
                };
                let ghost kept = list@;
                assert(kept == if before.dom().contains(cell) { cell_lists(before)[cell] } else { Seq::empty() });
                list.push(stop);
                stop_cells.insert(cell, list);
                assert(cell_lists(stop_cells@) =~= cell_lists(before).insert(cell, kept.push(stop)));
            },
            None => {},
        }
        i = i + 1;
    }
    stop_cells
}

/// The walks from stops with those from some stops replaced, the first `n` of the
/// replacements made. Stops that had no list get an empty one.
pub open spec fn replaced(previous: Seq<Vec<WalkTransfer>>, stop_count: int, updates: Seq<(usize, Vec<WalkTransfer>)>, n: int, stop: int) -> Seq<WalkTransfer>
    decreases n,
{
    if n <= 0 {
        if stop < previous.len() { previous[stop]@ } else { Seq::empty() }
    } else if updates[n - 1].0 == stop {
        updates[n - 1].1@
    } else {
        replaced(previous, stop_count, updates, n - 1, stop)
    }
}

/// Takes over the walks of the old timetable, with those from stops around which
/// something has changed replaced.
pub fn merge_walks(previous: Vec<Vec<WalkTransfer>>, stop_count: usize, updates: Vec<(usize, Vec<WalkTransfer>)>) -> (walks: Vec<Vec<WalkTransfer>>)
    requires
        forall|i: int| 0 <= i < updates@.len() ==> (#[trigger] updates@[i]).0 < stop_count || updates@[i].0 < previous@.len(),
    ensures
        walks@.len() == if previous@.len() < stop_count { stop_count as nat } else { previous@.len() },
        forall|s: int| 0 <= s < walks@.len() ==> (#[trigger] walks@[s])@ == replaced(previous@, stop_count as int, updates@, updates@.len() as int, s),
{
    let ghost old_walks = previous@;
    let ghost all = updates@;
    let mut walks: Vec<Vec<WalkTransfer>> = previous;
    while walks.len() < stop_count
        invariant
            old_walks.len() <= walks@.len(),
            walks@.len() <= stop_count || walks@.len() == old_walks.len(),
            forall|s: int| 0 <= s < walks@.len() ==> (#[trigger] walks@[s])@ == (if s < old_walks.len() { old_walks[s]@ } else { Seq::empty() }),
        decreases stop_count - walks@.len(),
    {
        walks.push(Vec::new());
        assert(walks@.last()@ =~= Seq::<WalkTransfer>::empty());
    }
    let mut updates: Vec<(usize, Vec<WalkTransfer>)> = updates;
    let ghost total = all.len() as int;
    let mut done: Vec<bool> = Vec::new();
    let count: usize = walks.len();
    let mut d: usize = 0;
    while d < count
        invariant
            d <= count,
            done@.len() == d,
            forall|s: int| 0 <= s < d ==> !#[trigger] done@[s],
        decreases count - d,
    {
        done.push(false);
        d = d + 1;
    }
    assert(all.take(total) =~= all);
    while updates.len() > 0
        invariant
            count == walks@.len(),
            done@.len() == count,
            updates@.len() <= total,
            total == all.len(),
            updates@ == all.take(updates@.len() as int),
            forall|i: int| 0 <= i < all.len() ==> (#[trigger] all[i]).0 < count,
            forall|s: int| 0 <= s < count && #[trigger] done@[s] ==> walks@[s]@ == replaced(old_walks, stop_count as int, all, total, s),
            forall|s: int| 0 <= s < count && !#[trigger] done@[s] ==> {
                &&& walks@[s]@ == (if s < old_walks.len() { old_walks[s]@ } else { Seq::empty() })
                &&& replaced(old_walks, stop_count as int, all, total, s) == replaced(old_walks, stop_count as int, all, updates@.len() as int, s)
            },
        decreases updates@.len(),
    {
        let ghost left = updates@.len() as int;
        let (stop, list) = match updates.pop() {
            Some(update) => update,
            None => (0, Vec::new()),
        };
        proof {
            assert(all[left - 1].0 == stop && all[left - 1].1 == list);
            assert(updates@ =~= all.take(left - 1));
            assert forall|s: int| 0 <= s < count && s != stop implies #[trigger] replaced(old_walks, stop_count as int, all, left, s) == replaced(old_walks, stop_count as int, all, left - 1, s) by {}
        }
        if !done[stop] {
            walks.set(stop, list);
            done.set(stop, true);
        }
    }
    proof {
        assert forall|s: int| 0 <= s < walks@.len() implies (#[trigger] walks@[s])@ == replaced(old_walks, stop_count as int, all, total, s) by {
            if done@[s] {
                assert(walks@[s]@ == replaced(old_walks, stop_count as int, all, total, s));
            }
        }
    }
    walks
}

/// Those of the first `n` stops listed whose ids are named.
pub open spec fn stops_named(stops: Seq<StopView>, listed: Seq<usize>, ids: Seq<Seq<char>>, n: int) -> Seq<usize>
    decreases n,
{
    if n <= 0 {
        Seq::empty()
    } else if ids.contains(stops[listed[n - 1] as int].id) {
        stops_named(stops, listed, ids, n - 1).push(listed[n - 1])
    } else {
        stops_named(stops, listed, ids, n - 1)
    }
}

/// The stops in service whose ids are named, in order.
pub fn changed_stops(stops: &Vec<StopRecord>, active_stop_indices: &Vec<usize>, changed_ids: &Vec<String>) -> (changed: Vec<usize>)
    requires
        listed_within(active_stop_indices@, stops@.len() as int),
    ensures
        changed@ == stops_named(stops_view(stops@), active_stop_indices@, texts_view(changed_ids@), active_stop_indices@.len() as int),
{
    let mut changed: Vec<usize> = Vec::new();
    let ghost ids = texts_view(changed_ids@);
    let mut i: usize = 0;
    while i < active_stop_indices.len()
        invariant
            i <= active_stop_indices@.len(),
            listed_within(active_stop_indices@, stops@.len() as int),
            ids == texts_view(changed_ids@),
            changed@ == stops_named(stops_view(stops@), active_stop_indices@, ids, i as int),
        decreases active_stop_indices.len() - i,
    {
        let at: usize = active_stop_indices[i];
        assert(active_stop_indices@[i as int] < stops@.len());
        let ghost id = stops@[at as int].id@;
        let mut named: bool = false;
        let mut k: usize = 0;
        while k < changed_ids.len()
            invariant
                k <= changed_ids@.len(),
                at < stops@.len(),
                id == stops@[at as int].id@,
                ids == texts_view(changed_ids@),
                named == exists|j: int| 0 <= j < k && #[trigger] ids[j] == id,
            decreases changed_ids.len() - k,
        {
            assert(ids[k as int] == changed_ids@[k as int]@);
            if same_text(changed_ids[k].as_str(), stops[at].id.as_str()) {
                named = true;
            }
            k = k + 1;
        }
        assert(named == ids.contains(id));
        assert(stops_view(stops@)[at as int].id == id);
        if named {
            changed.push(at);
        }
        i = i + 1;
    }
    changed
}

/// The stops whose walks are built anew: those in service that have changed, and those
/// near to a place of one that has, each once and in order.
pub fn stops_to_walk(changed: &Vec<usize>, near: &Vec<Vec<usize>>) -> (chosen: Vec<usize>)
    ensures
        strictly_ascending(chosen@),
        forall|stop: usize| #[trigger] chosen@.contains(stop) <==> changed@.contains(stop) || exists|i: int| 0 <= i < near@.len() && (#[trigger] near@[i])@.contains(stop),
{
    let mut all: Vec<usize> = Vec::new();
    let mut i: usize = 0;
    while i < near.len()
        invariant
            i <= near@.len(),
            forall|stop: usize| #[trigger] all@.contains(stop) <==> exists|j: int| 0 <= j < i && (#[trigger] near@[j])@.contains(stop),
        decreases near.len() - i,
    {
        let ghost before = all@;
        let list: &Vec<usize> = &near[i];
        let mut k: usize = 0;
        while k < list.len()
            invariant
                k <= list@.len(),
                all@ =~= before + list@.take(k as int),
            decreases list.len() - k,
        {
            all.push(list[k]);
            k = k + 1;
        }
        assert(all@ =~= before + list@);
        assert forall|stop: usize| #[trigger] all@.contains(stop) <==> exists|j: int| 0 <= j < i + 1 && (#[trigger] near@[j])@.contains(stop) by {
            if all@.contains(stop) {
                let at = choose|at: int| 0 <= at < all@.len() && all@[at] == stop;
                if at < before.len() {
                    assert(before[at] == stop);
                    assert(before.contains(stop));
                } else {
                    assert(list@[at - before.len()] == stop);
                    assert(near@[i as int]@.contains(stop));
                }
            }
            if exists|j: int| 0 <= j < i + 1 && (#[trigger] near@[j])@.contains(stop) {
                let j = choose|j: int| 0 <= j < i + 1 && (#[trigger] near@[j])@.contains(stop);
                if j < i {
                    assert(before.contains(stop));
                    let at = choose|at: int| 0 <= at < before.len() && before[at] == stop;
                    assert(all@[at] == stop);
                } else {
                    let at = choose|at: int| 0 <= at < list@.len() && list@[at] == stop;
                    assert(all@[before.len() + at] == stop);
                }
            }
        }
        i = i + 1;
    }
    affected_stops(changed, &all)
}

/// The stops whose walks are built anew: those in service that have changed, and
/// those near to what has changed, each once and in order.
pub fn affected_stops(changed: &Vec<usize>, near: &Vec<usize>) -> (affected: Vec<usize>)
    ensures
        strictly_ascending(affected@),
        forall|stop: usize| #[trigger] affected@.contains(stop) <==> changed@.contains(stop) || near@.contains(stop),
{
    let mut all: Vec<usize> = Vec::new();
    let mut i: usize = 0;
    while i < changed.len()
        invariant
            i <= changed@.len(),
            all@ =~= changed@.take(i as int),
        decreases changed.len() - i,
    {
        all.push(changed[i]);
        i = i + 1;
    }
    let mut k: usize = 0;
    while k < near.len()
        invariant
            k <= near@.len(),
            all@ =~= changed@ + near@.take(k as int),
        decreases near.len() - k,
    {
        all.push(near[k]);
        k = k + 1;
    }
    assert(all@ =~= changed@ + near@);
    let affected: Vec<usize> = sorted_unique(&all);
    proof {
        assert forall|stop: usize| #[trigger] affected@.contains(stop) <==> changed@.contains(stop) || near@.contains(stop) by {
            assert(affected@.contains(stop) <==> all@.contains(stop));
            if all@.contains(stop) {
                let at = choose|at: int| 0 <= at < all@.len() && all@[at] == stop;
                if at < changed@.len() {
                    assert(changed@[at] == stop);
                } else {
                    assert(near@[at - changed@.len()] == stop);
                }
            }
            if changed@.contains(stop) {
                let at = choose|at: int| 0 <= at < changed@.len() && changed@[at] == stop;
                assert(all@[at] == stop);
            }
            if near@.contains(stop) {
                let at = choose|at: int| 0 <= at < near@.len() && near@[at] == stop;
                assert(all@[changed@.len() + at] == stop);
            }
        }
    }
    affected
}

/// The keys by which walks from a stop are ordered.
pub open spec fn duration_keys(walks: Seq<WalkTransfer>) -> Seq<OrderKey> {
    Seq::new(walks.len(), |i: int| (walks[i].duration_secs as i128, 0i128, 0i128))
}

/// The places of the shortest walks from a stop, no more than a number of them.
pub fn shortest_walks(walks: &Vec<WalkTransfer>, max_transfer_candidates: usize) -> (places: Vec<usize>)
    ensures
        ({
            let order = stable_order_of(duration_keys(walks@));
            places@ == if order.len() <= max_transfer_candidates { order } else { order.take(max_transfer_candidates as int) }
        }),
        is_stable_order(duration_keys(walks@), stable_order_of(duration_keys(walks@))),
{
    let mut keys: Vec<OrderKey> = Vec::new();
    let mut i: usize = 0;
    while i < walks.len()
        invariant
            i <= walks@.len(),
            keys@ =~= duration_keys(walks@).take(i as int),
        decreases walks.len() - i,
    {
        keys.push((walks[i].duration_secs as i128, 0, 0));
        i = i + 1;
    }
    assert(keys@ =~= duration_keys(walks@));
    let mut order: Vec<usize> = stable_order(&keys);
    if order.len() > max_transfer_candidates {
        order.truncate(max_transfer_candidates);
    }
    order
}

/// Whether queries can be run on a timetable once walks are added.
pub open spec fn core_ready(core: StaticCore) -> bool {
    &&& core.wf()
    &&& core.has_lines()
    &&& listed_trips_valid(core.trips@, core.active_trip_indices@, core.stops@.len() as int)
    &&& listed_within(core.active_stop_indices@, core.stops@.len() as int)
    &&& forall|t: int| 0 <= t < core.trips@.len() ==> trip_is_usable((#[trigger] core.trips@[t])@, core.routes@.len() as int, core.stops@.len() as int)
    &&& forall|service: Seq<char>, i: int| #[trigger] core.service_to_trip_indices@.dom().contains(service) && 0 <= i < core.service_to_trip_indices@[service]@.len() ==> (
    #[trigger] core.service_to_trip_indices@[service]@[i]) < core.trips@.len()
}

/// A timetable that was built from feeds is ready.
pub proof fn built_cores_are_ready(core: StaticCore)
    requires
        core.wf(),
        core_sound(core@),
        core.has_lines(),
        core.trips@.len() <= u32::MAX,
        core.stops@.len() <= usize::MAX,
        core.active_stop_indices@ == all_indices(core.stops@.len() as int),
        core.active_trip_indices@ == all_indices(core.trips@.len() as int),
    ensures
        core_ready(core),
{
    let stops = core.stops@.len() as int;
    assert forall|t: int| 0 <= t < core.trips@.len() implies trip_is_usable((#[trigger] core.trips@[t])@, core.routes@.len() as int, stops) && crate::lines::trip_in_bounds(core.trips@[t], stops) by {
        let trip = core.trips@[t];
        assert(core@.trips[t] == trip@);
        assert(crate::static_core::calls_sound(core@.trips[t].stop_times, stops));
        assert(core@.routes.len() == core.routes@.len());
        assert(core@.stops.len() == stops);
        assert forall|p: int| 0 <= p < trip.stop_times@.len() implies (#[trigger] trip.stop_times@[p]).departure_secs <= crate::temporal::LATEST_DEPARTURE_SECS
            && trip.stop_times@[p].stop_index < stops by {
            assert(core@.trips[t].stop_times[p] == trip.stop_times@[p]);
        }
    }
    assert forall|service: Seq<char>, i: int| #[trigger] core.service_to_trip_indices@.dom().contains(service) && 0 <= i < core.service_to_trip_indices@[service]@.len() implies (
    #[trigger] core.service_to_trip_indices@[service]@[i]) < core.trips@.len() by {
        assert(core@.services.dom().contains(service));
        assert(core@.services[service][i] == core.service_to_trip_indices@[service]@[i]);
        assert(core@.trips.len() == core.trips@.len());
    }
}

/// Makes a timetable of its parts: with the walks between stops, their index, and
/// the cells of the stops.
pub fn assemble_static_data(core: StaticCore, transfers: Vec<Vec<WalkTransfer>>, hub_keys: &Vec<HubKey>, stop_destination_cells: Vec<Option<u64>>) -> (data: StaticData)
    requires
        core_ready(core),
        transfers@.len() == core.stops@.len(),
        hub_keys@.len() == core.stops@.len(),
        stop_destination_cells@.len() == core.stops@.len(),
        walks_valid(transfers@, core.stops@.len() as int),
        hub_keys@.len() * hub_keys@.len() <= usize::MAX,
    ensures
        data_ready(data),
        data.feeds == core.feeds,
        data.stops == core.stops,
        data.active_stop_indices == core.active_stop_indices,
        data.stop_lookup == core.stop_lookup,
        data.stop_lookup_by_global_id == core.stop_lookup_by_global_id,
        data.routes == core.routes,
        data.active_route_indices == core.active_route_indices,
        data.trips == core.trips,
        data.active_trip_indices == core.active_trip_indices,
        data.trip_lookup_by_feed == core.trip_lookup_by_feed,
        data.service_to_trip_indices == core.service_to_trip_indices,
        data.lines == core.lines,
        data.stop_to_lines == core.stop_to_lines,
        data.transfers == transfers,
        crate::transfer_index::index_correct(data.transfer_index, hub_keys@, transfers@),
        data.stop_destination_cells == stop_destination_cells,
        cell_lists(data.stop_cells@) == cells_of(stop_destination_cells@, core.active_stop_indices@, core.active_stop_indices@.len() as int),
        data.service_by_date == core.service_by_date,
{
    let ghost whole = core;
    let stop_cells: HashMap<u64, Vec<usize>> = build_stop_cells(&stop_destination_cells, &core.active_stop_indices);
    let transfer_index: TransferRelaxIndex = build_transfer_relax_index(hub_keys, &transfers);
    let line_count: usize = core.lines.len();
    proof {
        built_index_is_valid(transfer_index, hub_keys@, transfers@);
        built_lines_are_valid(core.lines@, core.trips@, core.active_trip_indices@, core.stops@.len() as int);
    }
    let data: StaticData = StaticData {
        feeds: core.feeds,
        stops: core.stops,
        active_stop_indices: core.active_stop_indices,
        stop_lookup: core.stop_lookup,
        stop_lookup_by_global_id: core.stop_lookup_by_global_id,
        routes: core.routes,
        active_route_indices: core.active_route_indices,
        trips: core.trips,
        active_trip_indices: core.active_trip_indices,
        trip_lookup_by_feed: core.trip_lookup_by_feed,
        service_to_trip_indices: core.service_to_trip_indices,
        lines: core.lines,
        stop_to_lines: core.stop_to_lines,
        transfers: transfers,
        transfer_index: transfer_index,
        stop_cells: stop_cells,
        stop_destination_cells: stop_destination_cells,
        service_by_date: core.service_by_date,
    };
    proof {
        let stops = data.stops@.len() as int;
        assert forall|t: int| 0 <= t < data.trips@.len() implies trip_calls_valid(#[trigger] data.trips@[t], stops) && data.trips@[t].route_index < data.routes@.len() by {
            let trip = whole.trips@[t];
            assert(trip_is_usable(trip@, whole.routes@.len() as int, stops));
            assert forall|p: int| 0 <= p < trip.stop_times@.len() implies ({
                let call = #[trigger] trip.stop_times@[p];
                &&& call.stop_index < stops
                &&& i32::MIN + crate::realtime::MAX_REASONABLE_DELAY_SECS <= call.arrival_secs <= i32::MAX - crate::realtime::MAX_REASONABLE_DELAY_SECS
                &&& i32::MIN + crate::realtime::MAX_REASONABLE_DELAY_SECS <= call.departure_secs <= i32::MAX - crate::realtime::MAX_REASONABLE_DELAY_SECS
            }) by {
                assert(trip@.stop_times[p] == trip.stop_times@[p]);
            }
        }
        assert forall|s: int, i: int| 0 <= s < data.stop_to_lines@.len() && 0 <= i < data.stop_to_lines@[s]@.len() implies ({
            let line_ref = #[trigger] data.stop_to_lines@[s]@[i];
            line_ref.line_index < data.lines@.len() && line_ref.stop_pos < data.lines@[line_ref.line_index as int].stop_indices@.len()
        }) by {
            assert(whole.stop_to_lines@[s]@ == crate::lines::lines_at(whole.lines@, s, whole.lines@.len() as int));
            assert forall|l: int| 0 <= l < whole.lines@.len() implies (#[trigger] whole.lines@[l]).stop_indices@.len() <= usize::MAX by {
                assert(whole.lines@[l].stop_indices.len() <= usize::MAX);
            }
            lines_at_are_calls(whole.lines@, s, whole.lines@.len() as int);
        }
    }
    data
}

/// A timetable that was taken over into one that queries can be run on is ready
/// too.
pub proof fn merged_cores_are_ready(previous: StaticData, next: StaticCore, core: StaticCore)
    requires
        data_ready(previous),
        core_ready(next),
        tables_of(previous).wf(),
        tables_of_core(next).wf(),
        active_trips_timed(tables_of(previous)),
        active_trips_timed(tables_of_core(next)),
        next.active_trip_indices@.len() <= u32::MAX,
        core.stops@.len() <= usize::MAX,
        core.routes@.len() <= usize::MAX,
        core.trips@.len() <= usize::MAX,
        core.wf(),
        core.has_lines(),
        merged_tables(tables_of(previous), tables_of_core(next)) is Ok,
        core@ == merged_core(merged_tables(tables_of(previous), tables_of_core(next))->Ok_0, next@, tables_of_core(next)),
        core.active_stop_indices@ == merged_tables(tables_of(previous), tables_of_core(next))->Ok_0.stops.places,
        core.active_trip_indices@ == merged_tables(tables_of(previous), tables_of_core(next))->Ok_0.trips.places,
    ensures
        core_ready(core),
{
    let a = tables_of(previous);
    let b = tables_of_core(next);
    let merged = merged_tables(a, b)->Ok_0;
    let stops = core.stops@.len() as int;
    let routes = core.routes@.len() as int;
    assert(core@.stops.len() == stops && core@.routes.len() == routes && core@.trips.len() == core.trips@.len());
    merged_stops_are_appended(a, b, b.active_stops.len() as int);
    merged_routes_are_appended(a, b, b.active_routes.len() as int);
    let stop_places = remapped(b.active_stops, merged.stops.places, b.active_stops.len() as int);
    let route_places = remapped(b.active_routes, merged.routes.places, b.active_routes.len() as int);
    remapped_within(b.active_stops, merged.stops.places, b.active_stops.len() as int, stops);
    remapped_within(b.active_routes, merged.routes.places, b.active_routes.len() as int, routes);
    assert forall|i: int| 0 <= i < b.active_trips.len() implies leaves_room(b.trips[#[trigger] b.active_trips[i] as int].stop_times) by {
        assert(b.active_trips[i] < b.trips.len());
        let t = b.active_trips[i] as int;
        assert(b.trips[t] == next.trips@[t]@);
        assert(trip_is_usable(next.trips@[t]@, next.routes@.len() as int, next.stops@.len() as int));
    }
    appended_trips_are_usable(a, b, stop_places, route_places, stops, routes, b.active_trips.len() as int);
    merged_trips_are_appended(a, b, stop_places, route_places, stops, routes, b.active_trips.len() as int);
    let records = merged.trips.records;
    assert forall|t: int| 0 <= t < core.trips@.len() implies trip_is_usable((#[trigger] core.trips@[t])@, routes, stops) by {
        assert(core@.trips[t] == core.trips@[t]@);
        assert(records[t] == core.trips@[t]@);
        if t < a.trips.len() {
            let old_trip = previous.trips@[t];
            assert(records.take(a.trips.len() as int)[t] == records[t]);
            assert(records[t] == old_trip@);
            assert(trip_calls_valid(old_trip, previous.stops@.len() as int));
            assert(old_trip.route_index < previous.routes@.len());
            assert(a.stops.len() == previous.stops@.len() && a.routes.len() == previous.routes@.len());
            assert forall|p: int| 0 <= p < old_trip@.stop_times.len() implies (#[trigger] old_trip@.stop_times[p]).stop_index < stops by {
                assert(old_trip.stop_times@[p].stop_index < previous.stops@.len());
            }
            assert forall|p: int| 0 <= p < old_trip@.stop_times.len() implies ({
                let call = #[trigger] old_trip@.stop_times[p];
                &&& i32::MIN + crate::realtime::MAX_REASONABLE_DELAY_SECS <= call.arrival_secs <= i32::MAX - crate::realtime::MAX_REASONABLE_DELAY_SECS
                &&& i32::MIN + crate::realtime::MAX_REASONABLE_DELAY_SECS <= call.departure_secs <= i32::MAX - crate::realtime::MAX_REASONABLE_DELAY_SECS
            }) by {
                assert(old_trip.stop_times@[p].stop_index < previous.stops@.len());
            }
        }
    }
    assert forall|i: int| 0 <= i < core.active_trip_indices@.len() implies (#[trigger] core.active_trip_indices@[i]) < core.trips@.len() && crate::lines::trip_in_bounds(
        core.trips@[core.active_trip_indices@[i] as int],
        stops,
    ) by {
        let place = merged.trips.places[i] as int;
        assert(trip_timed(records[place]));
        assert(trip_refers(records[place], routes, stops));
        let trip = core.trips@[place];
        assert(core@.trips[place] == trip@);
        assert forall|p: int| 0 <= p < trip.stop_times@.len() implies (#[trigger] trip.stop_times@[p]).departure_secs <= crate::temporal::LATEST_DEPARTURE_SECS
            && trip.stop_times@[p].stop_index < stops by {
            assert(records[place].stop_times[p] == trip.stop_times@[p]);
        }
    }
    let trip_places = remapped(b.active_trips, merged.trips.places, b.active_trips.len() as int);
    remapped_within(b.active_trips, merged.trips.places, b.active_trips.len() as int, core.trips@.len() as int);
    assert forall|service: Seq<char>, i: int| #[trigger] core.service_to_trip_indices@.dom().contains(service) && 0 <= i < core.service_to_trip_indices@[service]@.len() implies (
    #[trigger] core.service_to_trip_indices@[service]@[i]) < core.trips@.len() by {
        assert(core@.services.dom().contains(service));
        assert(core@.services == moved_services(next@.services, trip_places));
        let list = next@.services[service];
        moved_lists_are_within(list, trip_places, list.len() as int, core.trips@.len() as int);
        assert(core@.services[service] == moved_list(list, trip_places, list.len() as int));
        assert(core@.services[service][i] == core.service_to_trip_indices@[service]@[i]);
    }
}

} // verus!
