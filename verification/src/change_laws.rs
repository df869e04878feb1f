//! No journey has more rides than its round allows, and so no more changes than were
//! asked for.

use crate::candidates::{candidates_view, journeys_of_rounds, offered, offers_are_found};
use crate::insertions::{anchors, anchors_from, anchors_of, base_point, spatial_points, trunk_from, SpatialInsertView};
use crate::journey::{label_count, path_back, PathBack};
use crate::keyed_store::StoreKey;
use crate::leg::{ride_count, ride_count_bounded, CachedLeg, ParentView};
use crate::lookahead::{
    after_egress, best_completion, egress_leg, first_walk_from, match_valid, query_walks_valid, replaces, rides_left, with_memo, LookaheadTally,
    QueryVirtualWalk, Reach,
};
use crate::model::{LineRecord, StaticData, TransferTile, TripRecord, WalkTransfer, INF_TIME};
use crate::order::{stable_order_exists, stable_order_of};
use crate::profile_bucket::MatchView;
use crate::profile_cache::{
    best_feasible, lookup_found, match_keys, matches_view, profile_key, profiles, surface_entry, surface_profiles, wrapped, CacheCounters, CacheView,
    LookupView, PreparedSpatialLookup, ProfileCache,
};
use crate::profile_lookahead::{
    after_exact, after_lookahead, after_match, after_matches, cache_fits, rides_after, suffix_fits, with_finish, Look, LookaheadGoal,
};
use crate::query::{
    after_access, after_seeds, data_ready, day_context, day_context_ready, place_count, plan_goal, plan_goal_fits, plan_valid, query_done,
    query_start, walked_start, QueryOutcome, QueryPlan,
};
use crate::query_rounds::{after_finishing, after_query_round, after_query_rounds, after_travel, no_tally, QueryRun};
use crate::realtime::RealtimeView;
use crate::relax::{
    after_hubs, after_target, after_tile, after_tiles, after_walks, best_walk, best_walk_facts, pruned_sources, source_hubs, sources_of_hub,
    sources_of_hub_valid, sources_valid, tile_valid, walk_index_valid, walk_sources, walks_valid, WalkSource,
};
use crate::search::{
    after_call, after_line_from, after_onboard, after_ride, can_ride_on, counted, line_valid, with_improvement, LineScan, RoundMetrics, SearchContext,
    SearchView, SVRT_WIDTH,
};
use crate::subquery::{
    after_first_walks, after_lines, after_rides, local_journey, queue_of, queue_prunes, queued_count, round_begun, search_ready, start_labels,
    LocalSearch, NOT_QUEUED,
};
use crate::timing::{found_feasible, queue_of_length};
use crate::walk_laws::{hubs_hold, sources_hold, sources_in_hub};
use vstd::prelude::*;

verus! {

/// Whether a step back leads to a place, and leaves room in its round for the rides it
/// stands for.
pub open spec fn step_within(step: Option<ParentView>, round: int, stops: int) -> bool {
    match step {
        Some(parent) => match parent {
            ParentView::Origin => true,
            ParentView::Walk { from_stop, .. } => from_stop < stops,
            ParentView::Transit { board_stop, .. } => round > 0 && board_stop < stops,
            ParentView::Memoized { from_stop, source_round, legs } => source_round + ride_count(legs) <= round && from_stop < stops,
        },
        None => true,
    }
}

/// Whether every step back of the labels leaves room in its round for its rides, and
/// the stops listed are places.
pub open spec fn rides_within(view: SearchView, data: StaticData, stops: int, rounds: int) -> bool {
    &&& view.parents.len() == rounds
    &&& data.stops@.len() <= stops <= usize::MAX
    &&& forall|i: int| 0 <= i < view.improved.len() ==> (#[trigger] view.improved[i]) < stops
    &&& forall|r: int| 0 <= r < rounds ==> (#[trigger] view.parents[r]).len() == stops
    &&& forall|r: int, s: int| 0 <= r < rounds && 0 <= s < stops ==> step_within(#[trigger] view.parents[r][s], r, stops)
}

proof fn improvement_within(view: SearchView, data: StaticData, stops: int, rounds: int, round: int, stop: int, arrival: i32, parent: ParentView)
    requires
        rides_within(view, data, stops, rounds),
        0 <= round < rounds,
        0 <= stop < stops,
        step_within(Some(parent), round, stops),
    ensures
        rides_within(with_improvement(view, round, stop, arrival, parent), data, stops, rounds),
{
    let after = with_improvement(view, round, stop, arrival, parent);
    if arrival < view.best[stop] {
        assert(view.parents[round].len() == stops);
        assert forall|r: int| 0 <= r < rounds implies (#[trigger] after.parents[r]).len() == stops by {
            assert(view.parents[r].len() == stops);
        }
        assert forall|r: int, s: int| 0 <= r < rounds && 0 <= s < stops implies step_within(#[trigger] after.parents[r][s], r, stops) by {
            assert(step_within(view.parents[r][s], r, stops));
        }
        assert forall|i: int| 0 <= i < after.improved.len() implies (#[trigger] after.improved[i]) < stops by {
            if i < view.improved.len() {
                assert(view.improved[i] < stops);
            }
        }
    }
}

proof fn onboard_within(view: SearchView, ctx: SearchContext, line: LineRecord, stop_pos: int, destination: int, round: int, trip: usize, boarded_at: usize, stops: int, rounds: int)
    requires
        rides_within(view, *ctx.data, stops, rounds),
        line_valid(line, ctx.data.trips@, ctx.data.stops@.len() as int),
        0 <= stop_pos < line.stop_indices@.len(),
        boarded_at < line.stop_indices@.len(),
        0 < round < rounds,
    ensures
        rides_within(after_onboard(view, ctx, line, stop_pos, destination, round, trip, boarded_at), *ctx.data, stops, rounds),
{
    let after = after_onboard(view, ctx, line, stop_pos, destination, round, trip, boarded_at);
    let stop = line.stop_indices@[stop_pos];
    assert(stop < ctx.data.stops@.len());
    assert(line.stop_indices@[boarded_at as int] < ctx.data.stops@.len());
    improvement_within(
        SearchView { metrics: after.metrics, ..view },
        *ctx.data,
        stops,
        rounds,
        round,
        stop as int,
        ctx.arrival(trip as int, stop_pos) as i32,
        ParentView::Transit { trip_index: trip, board_stop: line.stop_indices@[boarded_at as int], board_pos: boarded_at, alight_stop: stop, alight_pos: stop_pos as usize },
    );
}

proof fn ride_within(view: SearchView, ctx: SearchContext, line: LineRecord, stop_pos: int, n: int, destination: int, round: int, trip: usize, boarded_at: usize, stops: int, rounds: int)
    requires
        rides_within(view, *ctx.data, stops, rounds),
        line_valid(line, ctx.data.trips@, ctx.data.stops@.len() as int),
        0 <= stop_pos,
        stop_pos + n <= line.stop_indices@.len(),
        boarded_at < line.stop_indices@.len(),
        0 < round < rounds,
    ensures
        rides_within(after_ride(view, ctx, line, stop_pos, n, destination, round, trip, boarded_at), *ctx.data, stops, rounds),
    decreases n,
{
    if n > 0 {
        ride_within(view, ctx, line, stop_pos, n - 1, destination, round, trip, boarded_at, stops, rounds);
        let before = after_ride(view, ctx, line, stop_pos, n - 1, destination, round, trip, boarded_at);
        onboard_within(before, ctx, line, stop_pos + n - 1, destination, round, trip, boarded_at, stops, rounds);
    }
}

proof fn line_from_within(
    scan: LineScan,
    ctx: SearchContext,
    line: LineRecord,
    stop_pos: int,
    destination: int,
    round: int,
    lookback: i32,
    best_before: Seq<i32>,
    stops: int,
    rounds: int,
)
    requires
        rides_within(scan.view, *ctx.data, stops, rounds),
        line_valid(line, ctx.data.trips@, ctx.data.stops@.len() as int),
        0 <= stop_pos,
        scan.current is Some ==> scan.boarded_at < line.stop_indices@.len(),
        0 < round < rounds,
    ensures
        rides_within(after_line_from(scan, ctx, line, stop_pos, destination, round, lookback, best_before), *ctx.data, stops, rounds),
    decreases line.stop_indices@.len() - stop_pos,
{
    if stop_pos < line.stop_indices@.len() {
        if can_ride_on(scan, ctx, line, stop_pos, best_before) {
            let n = SVRT_WIDTH as int;
            ride_within(scan.view, ctx, line, stop_pos, n, destination, round, scan.current->0, scan.boarded_at, stops, rounds);
            let view = after_ride(scan.view, ctx, line, stop_pos, n, destination, round, scan.current->0, scan.boarded_at);
            line_from_within(LineScan { view: view, ..scan }, ctx, line, stop_pos + SVRT_WIDTH, destination, round, lookback, best_before, stops, rounds);
        } else {
            match scan.current {
                Some(trip) => onboard_within(scan.view, ctx, line, stop_pos, destination, round, trip, scan.boarded_at, stops, rounds),
                None => {},
            }
            let next = after_call(scan, ctx, line, stop_pos, destination, round, lookback, best_before);
            let view = match scan.current {
                Some(trip) => after_onboard(scan.view, ctx, line, stop_pos, destination, round, trip, scan.boarded_at),
                None => scan.view,
            };
            assert(next.view.parents == view.parents && next.view.improved == view.improved);
            line_from_within(next, ctx, line, stop_pos + 1, destination, round, lookback, best_before, stops, rounds);
        }
    }
}

proof fn lines_within(view: SearchView, ctx: SearchContext, queue: Seq<usize>, destination: int, round: int, best_before: Seq<i32>, n: int, stops: int, rounds: int)
    requires
        ctx.wf(),
        rides_within(view, *ctx.data, stops, rounds),
        n <= queue.len() <= ctx.data.lines@.len(),
        0 < round < rounds,
    ensures
        rides_within(after_lines(view, ctx, queue, destination, round, best_before, n), *ctx.data, stops, rounds),
    decreases n,
{
    if n > 0 {
        lines_within(view, ctx, queue, destination, round, best_before, n - 1, stops, rounds);
        let before = after_lines(view, ctx, queue, destination, round, best_before, n - 1);
        if queue[n - 1] != NOT_QUEUED {
            let line = ctx.data.lines@[n - 1];
            assert(line_valid(line, ctx.data.trips@, ctx.data.stops@.len() as int));
            let m = RoundMetrics { lines_scanned: counted(before.metrics.lines_scanned, 1), ..before.metrics };
            let start_pos = queue[n - 1] as int;
            let calls = line.stop_indices@.len() - start_pos;
            let begun = RoundMetrics { stop_positions_scanned: counted(m.stop_positions_scanned, if calls > 0 { calls } else { 0 }), ..m };
            let scan = LineScan { view: SearchView { metrics: begun, ..before }, current: None, boarded_at: 0 };
            line_from_within(scan, ctx, line, start_pos, destination, round, ctx.line_max_positive_delay_secs@[n - 1], best_before, stops, rounds);
        }
    }
}

proof fn all_rides_within(view: SearchView, ctx: SearchContext, destination: int, round: int, marked: Seq<usize>, stops: int, rounds: int)
    requires
        search_ready(ctx),
        rides_within(view, *ctx.data, stops, rounds),
        0 < round < rounds,
    ensures
        rides_within(after_rides(view, ctx, destination, round, marked), *ctx.data, stops, rounds),
{
    let queue = queue_of(*ctx.data, view.best, view.best[destination], marked, marked.len() as int);
    queue_of_length(*ctx.data, view.best, view.best[destination], marked, marked.len() as int);
    let begun = round_begun(view, queued_count(queue, queue.len() as int));
    lines_within(begun, ctx, queue, destination, round, view.best, queue.len() as int, stops, rounds);
}

proof fn tile_within(view: SearchView, data: StaticData, hub: usize, tile: TransferTile, sources: Seq<WalkSource>, round: int, n: int, stops: int, rounds: int)
    requires
        rides_within(view, data, stops, rounds),
        walk_index_valid(data.transfer_index, data.transfers@, data.stops@.len() as int),
        sources_in_hub(data, hub, sources),
        tile_valid(tile, data.transfer_index.hubs@[hub as int].stop_indices@, data.transfers@, data.stops@.len() as int),
        n <= tile.target_stop_indices@.len(),
        0 <= round < rounds,
    ensures
        rides_within(after_tile(view, data.transfers@, round, tile, sources, n), data, stops, rounds),
    decreases n,
{
    if n > 0 {
        tile_within(view, data, hub, tile, sources, round, n - 1, stops, rounds);
        let before = after_tile(view, data.transfers@, round, tile, sources, n - 1);
        let after = after_target(before, data.transfers@, round, tile, sources, n - 1);
        let target = tile.target_stop_indices@[n - 1];
        let known = before.best[target as int] as int;
        best_walk_facts(data, hub, tile, sources, n - 1, known, sources.len() as int);
        let best = best_walk(tile, sources, n - 1, known, sources.len() as int);
        match best.edge {
            None => {},
            Some(edge) => {
                let walk = data.transfers@[edge.0 as int]@[edge.1 as int];
                let parent = ParentView::Walk { from_stop: edge.0, duration_secs: walk.duration_secs, distance_meters: walk.distance_meters };
                improvement_within(before, data, stops, rounds, round, walk.to_stop as int, best.arrival as i32, parent);
                let improved = with_improvement(before, round, walk.to_stop as int, best.arrival as i32, parent);
                assert(after.parents == improved.parents && after.improved == improved.improved);
            },
        }
    }
}

proof fn tiles_within(view: SearchView, data: StaticData, hub: usize, sources: Seq<WalkSource>, round: int, n: int, stops: int, rounds: int)
    requires
        rides_within(view, data, stops, rounds),
        walk_index_valid(data.transfer_index, data.transfers@, data.stops@.len() as int),
        sources_in_hub(data, hub, sources),
        n <= data.transfer_index.hubs@[hub as int].outgoing_tiles@.len(),
        0 <= round < rounds,
    ensures
        rides_within(after_tiles(view, data.transfers@, round, data.transfer_index.hubs@[hub as int].outgoing_tiles@, sources, n), data, stops, rounds),
    decreases n,
{
    if n > 0 {
        let tiles = data.transfer_index.hubs@[hub as int].outgoing_tiles@;
        tiles_within(view, data, hub, sources, round, n - 1, stops, rounds);
        let before = after_tiles(view, data.transfers@, round, tiles, sources, n - 1);
        assert(tile_valid(data.transfer_index.hubs@[hub as int].outgoing_tiles@[n - 1], data.transfer_index.hubs@[hub as int].stop_indices@, data.transfers@, data.stops@.len() as int));
        tile_within(before, data, hub, tiles[n - 1], sources, round, tiles[n - 1].target_stop_indices@.len() as int, stops, rounds);
    }
}

proof fn hubs_within(view: SearchView, data: StaticData, sources: Seq<WalkSource>, hubs: Seq<usize>, round: int, n: int, stops: int, rounds: int)
    requires
        rides_within(view, data, stops, rounds),
        walk_index_valid(data.transfer_index, data.transfers@, data.stops@.len() as int),
        sources_valid(data.transfer_index, sources),
        forall|a: int| 0 <= a < hubs.len() ==> (#[trigger] hubs[a]) < data.transfer_index.hubs@.len(),
        n <= hubs.len(),
        0 <= round < rounds,
    ensures
        rides_within(after_hubs(view, data, round, sources, hubs, n), data, stops, rounds),
    decreases n,
{
    if n > 0 {
        hubs_within(view, data, sources, hubs, round, n - 1, stops, rounds);
        let before = after_hubs(view, data, round, sources, hubs, n - 1);
        let hub = hubs[n - 1];
        let own = sources_of_hub(data.transfer_index, sources, hub, sources.len() as int);
        sources_of_hub_valid(data.transfer_index, sources, hub, sources.len() as int);
        tiles_within(before, data, hub, own, round, data.transfer_index.hubs@[hub as int].outgoing_tiles@.len() as int, stops, rounds);
    }
}

proof fn all_walks_within(view: SearchView, ctx: SearchContext, destination: int, round: int, frontier: Seq<usize>, stops: int, rounds: int)
    requires
        search_ready(ctx),
        rides_within(view, *ctx.data, stops, rounds),
        0 <= round < rounds,
    ensures
        rides_within(after_walks(view, *ctx.data, round, destination, frontier), *ctx.data, stops, rounds),
{
    let data = *ctx.data;
    let index = data.transfer_index;
    if frontier.len() > 0 && index.hubs@.len() > 0 {
        let bound = view.best[destination];
        let n = frontier.len() as int;
        let sources = walk_sources(index, view.arrivals[round], bound, frontier, n);
        sources_hold(data, view.arrivals[round], bound, frontier, n, 0);
        let hubs = source_hubs(index, sources, sources.len() as int);
        hubs_hold(data, sources, sources.len() as int, 0);
        let m = view.metrics;
        let pruned = pruned_sources(index, view.arrivals[round], bound, frontier, n);
        let begun = SearchView { metrics: RoundMetrics { destination_bound_prunes: counted(m.destination_bound_prunes, pruned), ..m }, ..view };
        hubs_within(begun, data, sources, hubs, round, hubs.len() as int, stops, rounds);
    }
}

proof fn first_walks_within(search: LocalSearch, data: StaticData, walks: Seq<WalkTransfer>, from_stop: usize, departure: int, destination: int, n: int, stops: int, rounds: int)
    requires
        rides_within(search.view, data, stops, rounds),
        n <= walks.len(),
        forall|i: int| 0 <= i < walks.len() ==> (#[trigger] walks[i]).to_stop < stops,
        from_stop < stops,
        0 < rounds,
    ensures
        rides_within(after_first_walks(search, walks, from_stop, departure, destination, n).view, data, stops, rounds),
    decreases n,
{
    if n > 0 {
        first_walks_within(search, data, walks, from_stop, departure, destination, n - 1, stops, rounds);
        let before = after_first_walks(search, walks, from_stop, departure, destination, n - 1).view;
        let walk = walks[n - 1];
        let parent = ParentView::Walk { from_stop: from_stop, duration_secs: walk.duration_secs, distance_meters: walk.distance_meters };
        improvement_within(before, data, stops, rounds, 0, walk.to_stop as int, (departure + walk.duration_secs) as i32, parent);
    }
}

proof fn start_within(data: StaticData, stops: int, rounds: int, origin: int, departure: i32, mark_origin: bool)
    requires
        0 <= origin < stops <= usize::MAX,
        0 <= rounds,
        data.stops@.len() <= stops,
    ensures
        rides_within(start_labels(stops, rounds, origin, departure, mark_origin), data, stops, rounds),
{
}

/// Rides of legs and of legs after them.
pub proof fn rides_add_up(a: Seq<CachedLeg>, b: Seq<CachedLeg>)
    ensures
        ride_count(a + b) == ride_count(a) + ride_count(b),
    decreases b.len(),
{
    if b.len() == 0 {
        assert(a + b =~= a);
    } else {
        rides_add_up(a, b.drop_last());
        assert((a + b).drop_last() =~= a + b.drop_last());
    }
}

/// A journey that is read back has no more rides than its round.
pub proof fn journeys_ride_within(view: SearchView, ctx: SearchContext, origin: int, stop: int, round: int, steps: nat, stops: int, rounds: int)
    requires
        rides_within(view, *ctx.data, stops, rounds),
        0 <= stop < stops,
        0 <= round < rounds,
    ensures
        match path_back(view, ctx, origin, stop, round, steps) {
            PathBack::Legs(legs) => ride_count(legs) <= round,
            PathBack::Failed(_) => true,
        },
    decreases steps,
{
    if !(stop == origin && round == 0) && steps > 0 {
        let less = (steps - 1) as nat;
        match view.parents[round][stop] {
            None => {},
            Some(parent) => {
                assert(step_within(view.parents[round][stop], round, stops));
                match parent {
                    ParentView::Origin => {},
                    ParentView::Walk { from_stop, .. } => {
                        journeys_ride_within(view, ctx, origin, from_stop as int, round, less, stops, rounds);
                        match (path_back(view, ctx, origin, from_stop as int, round, less), path_back(view, ctx, origin, stop, round, steps)) {
                            (PathBack::Legs(before), PathBack::Legs(legs)) => {
                                rides_add_up(before, seq![legs.last()]);
                                assert(legs =~= before + seq![legs.last()]);
                                one_leg(legs.last());
                            },
                            _ => {},
                        }
                    },
                    ParentView::Transit { board_stop, .. } => {
                        journeys_ride_within(view, ctx, origin, board_stop as int, round - 1, less, stops, rounds);
                        match (path_back(view, ctx, origin, board_stop as int, round - 1, less), path_back(view, ctx, origin, stop, round, steps)) {
                            (PathBack::Legs(before), PathBack::Legs(legs)) => {
                                rides_add_up(before, seq![legs.last()]);
                                assert(legs =~= before + seq![legs.last()]);
                                one_leg(legs.last());
                            },
                            _ => {},
                        }
                    },
                    ParentView::Memoized { from_stop, source_round, legs } => {
                        journeys_ride_within(view, ctx, origin, from_stop as int, source_round as int, less, stops, rounds);
                        match path_back(view, ctx, origin, from_stop as int, source_round as int, less) {
                            PathBack::Legs(before) => rides_add_up(before, legs),
                            PathBack::Failed(_) => {},
                        }
                    },
                }
            },
        }
    }
}

proof fn one_leg(leg: CachedLeg)
    ensures
        ride_count(seq![leg]) == (if leg.is_transit() { 1nat } else { 0nat }),
{
    assert(seq![leg].drop_last() =~= Seq::<CachedLeg>::empty());
    assert(ride_count(seq![leg].drop_last()) == 0);
}

/// Whether a remembered journey says how many rides it has.
pub open spec fn rides_are_counted(profile: MatchView) -> bool {
    profile.transit_legs == ride_count(profile.trunk_legs)
}

/// Whether the remembered journeys say how many rides they have.
pub open spec fn memory_counts_rides(view: CacheView) -> bool {
    &&& forall|key: StoreKey, i: int| view.exact.dom().contains(key) && 0 <= i < view.exact[key].len() ==> rides_are_counted((#[trigger] view.exact[key][i]).profile)
    &&& forall|key: StoreKey, i: int| view.spatial.dom().contains(key) && 0 <= i < view.spatial[key].len() ==> rides_are_counted((#[trigger] view.spatial[key][i]).profile)
}

proof fn fit_memories_count_rides(view: CacheView, trips: Seq<TripRecord>, stops: int)
    requires
        cache_fits(view, trips, stops),
    ensures
        memory_counts_rides(view),
{
    assert forall|key: StoreKey, i: int| view.exact.dom().contains(key) && 0 <= i < view.exact[key].len() implies rides_are_counted((#[trigger] view.exact[key][i]).profile) by {
        assert(suffix_fits(view.exact[key][i].profile, trips, stops, key.2 as int, key.1 as int));
    }
    assert forall|key: StoreKey, i: int| view.spatial.dom().contains(key) && 0 <= i < view.spatial[key].len() implies rides_are_counted((#[trigger] view.spatial[key][i]).profile) by {
        assert(match_valid(view.spatial[key][i].profile, trips, stops, key.2 as int));
    }
}

/// Whether the journeys of a prepared lookup say how many rides they have.
pub open spec fn surface_counts_rides(surface: PreparedSpatialLookup) -> bool {
    forall|s: int, i: int| 0 <= s < surface.enabled_source_stops@.len() && 0 <= i < surface.matches_by_source_stop@[s]@.len() ==> rides_are_counted(
        (#[trigger] surface.matches_by_source_stop@[s]@[i])@,
    )
}

proof fn memo_within(reach: Reach, data: StaticData, destination: int, source_stop: usize, source_round: usize, target_round: int, arrival: int, legs: Seq<CachedLeg>, stops: int, rounds: int)
    requires
        rides_within(reach.view, data, stops, rounds),
        0 <= destination < stops,
        0 <= target_round < rounds,
        source_round + ride_count(legs) <= target_round,
        source_stop < stops,
    ensures
        rides_within(with_memo(reach, destination, source_stop, source_round, target_round, arrival, legs).view, data, stops, rounds),
{
    let view = reach.view;
    let after = with_memo(reach, destination, source_stop, source_round, target_round, arrival, legs).view;
    if replaces(reach, destination, arrival, target_round) {
        assert(view.parents[target_round].len() == stops);
        assert forall|r: int| 0 <= r < rounds implies (#[trigger] after.parents[r]).len() == stops by {
            assert(view.parents[r].len() == stops);
        }
        assert forall|r: int, s: int| 0 <= r < rounds && 0 <= s < stops implies step_within(#[trigger] after.parents[r][s], r, stops) by {
            assert(step_within(view.parents[r][s], r, stops));
        }
    }
}

proof fn egress_within(reach: Reach, ctx: SearchContext, goal: LookaheadGoal, round: int, stops_list: Seq<usize>, n: int, stops: int, rounds: int)
    requires
        rides_within(reach.view, *ctx.data, stops, rounds),
        goal.destination_stop < stops,
        0 <= round < rounds <= usize::MAX,
        n <= stops_list.len(),
        forall|i: int| 0 <= i < stops_list.len() ==> (#[trigger] stops_list[i]) < stops,
    ensures
        rides_within(after_egress(reach, goal.destination_stop as int, round, stops_list, goal.destination_egress_edges@, n).view, *ctx.data, stops, rounds),
    decreases n,
{
    if n > 0 {
        let walks = goal.destination_egress_edges@;
        egress_within(reach, ctx, goal, round, stops_list, n - 1, stops, rounds);
        let before = after_egress(reach, goal.destination_stop as int, round, stops_list, walks, n - 1);
        let stop = stops_list[n - 1];
        let ready_at = before.view.arrivals[round][stop as int];
        match first_walk_from(walks, stop, 0) {
            None => {},
            Some(i) => {
                let leg = egress_leg(walks[i], ready_at as int);
                one_leg(leg);
                memo_within(before, *ctx.data, goal.destination_stop as int, stop, round as usize, round, ready_at + walks[i].duration_secs, seq![leg], stops, rounds);
            },
        }
    }
}

proof fn finish_within(look: Look, ctx: SearchContext, goal: LookaheadGoal, stop: usize, round: int, rides: usize, arrival: int, legs: Seq<CachedLeg>, stops: int, rounds: int)
    requires
        rides_within(look.reach.view, *ctx.data, stops, rounds),
        goal.destination_stop < stops,
        goal.max_rounds + 1 == rounds,
        stop < stops,
        0 <= round < rounds,
        ride_count(legs) <= rides || rides == usize::MAX,
        goal.max_rounds < usize::MAX,
    ensures
        rides_within(with_finish(look, goal, stop, round, rides, arrival, legs).0.reach.view, *ctx.data, stops, rounds),
{
    if round + rides <= goal.max_rounds {
        memo_within(look.reach, *ctx.data, goal.destination_stop as int, stop, round as usize, round + rides, arrival, legs, stops, rounds);
    }
}

/// The rides of a journey between two stops are counted.
pub proof fn local_rides_are_counted(ctx: SearchContext, from_stop: usize, to_stop: usize, departure: i32, rounds: int)
    ensures
        match local_journey(ctx, from_stop, to_stop, departure, rounds) {
            Some(local) => local.transit_legs == ride_count(local.legs),
            None => true,
        },
{
}

proof fn completion_counts(ctx: SearchContext, destination: usize, found: MatchView, remaining: usize, walks: Seq<QueryVirtualWalk>, n: int)
    requires
        rides_are_counted(found),
        n <= walks.len(),
    ensures
        match best_completion(ctx, destination, found, remaining, walks, n) {
            Some(best) => ride_count(best.legs) <= best.transit_legs || best.transit_legs == usize::MAX,
            None => true,
        },
    decreases n,
{
    if n > 0 {
        completion_counts(ctx, destination, found, remaining, walks, n - 1);
        let walk = walks[n - 1];
        let left = rides_left(remaining, found.transit_legs) as int;
        local_rides_are_counted(ctx, found.boundary_stop, walk.from_stop, found.boundary_arrival_secs, left);
        match local_journey(ctx, found.boundary_stop, walk.from_stop, found.boundary_arrival_secs, left) {
            None => {},
            Some(local) => {
                let last = CachedLeg::Walk {
                    from_stop: walk.from_stop,
                    to_stop: destination,
                    departure_secs: local.arrival_secs,
                    arrival_secs: (local.arrival_secs + walk.duration_secs) as i32,
                    duration_secs: walk.duration_secs,
                    distance_meters: walk.distance_meters,
                };
                let shorter = found.trunk_legs + local.legs;
                rides_add_up(found.trunk_legs, local.legs);
                assert(shorter.push(last).drop_last() =~= shorter);
                assert(ride_count(shorter.push(last)) == ride_count(shorter));
            },
        }
    }
}

proof fn exact_within(look: Look, ctx: SearchContext, memory: CacheView, goal: LookaheadGoal, stop: usize, round: int, ready_at: i32, stops: int, rounds: int)
    requires
        rides_within(look.reach.view, *ctx.data, stops, rounds),
        goal.fits(ctx, stops, rounds),
        memory_counts_rides(memory),
        memory.summaries.dom().subset_of(memory.exact.dom()),
        stop < stops,
        0 <= round < rounds,
    ensures
        rides_within(after_exact(look, memory, goal, stop, round, ready_at).0.reach.view, *ctx.data, stops, rounds),
{
    match goal.exact_destination_stop {
        None => {},
        Some(destination) => {
            let t = look.tally;
            let remaining = rides_after(goal, round);
            let key = profile_key(goal.service_date, destination as int, stop as int);
            let bound = look.reach.view.best[goal.destination_stop as int];
            match lookup_found(memory, key, ready_at, remaining, bound) {
                LookupView::Match { arrival_secs, transit_legs, suffix_legs, .. } => {
                    let points = memory.exact[key];
                    found_feasible(points, ready_at, remaining, points.len() as int);
                    let i = best_feasible(points, ready_at, remaining, points.len() as int)->0;
                    assert(memory.exact.dom().contains(key));
                    assert(rides_are_counted(memory.exact[key][i].profile));
                    let asked = Look {
                        tally: LookaheadTally { profile_lookups: counted(t.profile_lookups, 1), ..t },
                        counters: CacheCounters { exact_lookups: wrapped(look.counters.exact_lookups, 1), ..look.counters },
                        ..look
                    };
                    let counters = CacheCounters { exact_hits: wrapped(asked.counters.exact_hits, 1), ..asked.counters };
                    let hit = Look { tally: LookaheadTally { profile_hits: counted(t.profile_hits, 1), ..asked.tally }, counters: counters, ..asked };
                    finish_within(hit, ctx, goal, stop, round, transit_legs, arrival_secs as int, suffix_legs, stops, rounds);
                },
                _ => {},
            }
        },
    }
}

proof fn match_within(look: Look, ctx: SearchContext, goal: LookaheadGoal, stop: usize, round: int, ready_at: i32, found: MatchView, hit: bool, stops: int, rounds: int)
    requires
        rides_within(look.reach.view, *ctx.data, stops, rounds),
        goal.fits(ctx, stops, rounds),
        rides_are_counted(found),
        stop < stops,
        0 <= round < rounds,
    ensures
        rides_within(after_match(look, ctx, goal, stop, round, ready_at, found, hit).0.reach.view, *ctx.data, stops, rounds),
{
    let remaining = rides_after(goal, round);
    let t = look.tally;
    let counted_look = if hit {
        look
    } else {
        Look { tally: LookaheadTally { flat_spatial_mask_hits: counted(t.flat_spatial_mask_hits, 1), profile_hits: counted(t.profile_hits, 1), ..t }, ..look }
    };
    let over = found.boundary_arrival_secs;
    let left = rides_left(remaining, found.transit_legs) as int;
    let walks = goal.destination_egress_edges@;
    if walks.len() == 0 {
        match goal.exact_destination_stop {
            None => {},
            Some(destination) => {
                local_rides_are_counted(ctx, found.boundary_stop, destination, over, left);
                match local_journey(ctx, found.boundary_stop, destination, over, left) {
                    None => {},
                    Some(local) => {
                        rides_add_up(found.trunk_legs, local.legs);
                        let rides = counted(found.transit_legs, local.transit_legs as int);
                        finish_within(counted_look, ctx, goal, stop, round, rides, local.arrival_secs as int, found.trunk_legs + local.legs, stops, rounds);
                    },
                }
            },
        }
    } else {
        completion_counts(ctx, goal.destination_stop, found, remaining, walks, walks.len() as int);
        match best_completion(ctx, goal.destination_stop, found, remaining, walks, walks.len() as int) {
            None => {},
            Some(best) => finish_within(counted_look, ctx, goal, stop, round, best.transit_legs, best.arrival_secs, best.legs, stops, rounds),
        }
    }
}

proof fn matches_within(look: Look, ctx: SearchContext, goal: LookaheadGoal, stop: usize, round: int, ready_at: i32, found: Seq<MatchView>, i: int, hit: bool, stops: int, rounds: int)
    requires
        rides_within(look.reach.view, *ctx.data, stops, rounds),
        goal.fits(ctx, stops, rounds),
        0 <= i,
        forall|k: int| 0 <= k < found.len() ==> rides_are_counted(#[trigger] found[k]),
        stop < stops,
        0 <= round < rounds,
    ensures
        rides_within(after_matches(look, ctx, goal, stop, round, ready_at, found, i, hit).reach.view, *ctx.data, stops, rounds),
    decreases found.len() - i,
{
    if i < found.len() {
        match_within(look, ctx, goal, stop, round, ready_at, found[i], hit, stops, rounds);
        let step = after_match(look, ctx, goal, stop, round, ready_at, found[i], hit);
        if !step.1 {
            matches_within(step.0, ctx, goal, stop, round, ready_at, found, i + 1, step.2, stops, rounds);
        }
    }
}

proof fn lookahead_within(look: Look, ctx: SearchContext, memory: CacheView, goal: LookaheadGoal, round: int, stops_list: Seq<usize>, n: int, stops: int, rounds: int)
    requires
        rides_within(look.reach.view, *ctx.data, stops, rounds),
        goal.fits(ctx, stops, rounds),
        memory_counts_rides(memory),
        memory.summaries.dom().subset_of(memory.exact.dom()),
        surface_counts_rides(*goal.surface),
        forall|i: int| 0 <= i < stops_list.len() ==> (#[trigger] stops_list[i]) < stops,
        n <= stops_list.len(),
        0 <= round < rounds,
    ensures
        rides_within(after_lookahead(look, ctx, memory, goal, round, stops_list, n).reach.view, *ctx.data, stops, rounds),
    decreases n,
{
    if n > 0 {
        lookahead_within(look, ctx, memory, goal, round, stops_list, n - 1, stops, rounds);
        let before = after_lookahead(look, ctx, memory, goal, round, stops_list, n - 1);
        let stop = stops_list[n - 1];
        let ready_at = before.reach.view.arrivals[round][stop as int];
        if ready_at < INF_TIME {
            exact_within(before, ctx, memory, goal, stop, round, ready_at, stops, rounds);
            let exact = after_exact(before, memory, goal, stop, round, ready_at);
            let surface = *goal.surface;
            if !exact.1 && stop < surface.enabled_source_stops@.len() {
                let found = matches_view(surface.matches_by_source_stop@[stop as int]@);
                assert forall|k: int| 0 <= k < found.len() implies rides_are_counted(#[trigger] found[k]) by {
                    assert(found[k] == surface.matches_by_source_stop@[stop as int]@[k]@);
                }
                let t = exact.0.tally;
                let asked = Look {
                    tally: LookaheadTally { profile_lookups: counted(t.profile_lookups, 1), flat_spatial_mask_checks: counted(t.flat_spatial_mask_checks, 1), ..t },
                    ..exact.0
                };
                matches_within(asked, ctx, goal, stop, round, ready_at, found, 0, false, stops, rounds);
            }
        }
    }
}

/// Whether a query can be held to its rounds: what is remembered says how many rides it
/// has.
pub open spec fn query_counts_rides(ctx: SearchContext, memory: CacheView, goal: LookaheadGoal, stops: int, rounds: int) -> bool {
    &&& search_ready(ctx)
    &&& goal.fits(ctx, stops, rounds)
    &&& memory_counts_rides(memory)
    &&& memory.summaries.dom().subset_of(memory.exact.dom())
    &&& surface_counts_rides(*goal.surface)
}

proof fn finishing_within(look: Look, ctx: SearchContext, memory: CacheView, goal: LookaheadGoal, round: int, stops_list: Seq<usize>, stops: int, rounds: int)
    requires
        query_counts_rides(ctx, memory, goal, stops, rounds),
        rides_within(look.reach.view, *ctx.data, stops, rounds),
        forall|i: int| 0 <= i < stops_list.len() ==> (#[trigger] stops_list[i]) < stops,
        0 <= round < rounds,
    ensures
        rides_within(after_finishing(look, ctx, memory, goal, round, stops_list).reach.view, *ctx.data, stops, rounds),
{
    let walks = goal.destination_egress_edges@;
    let n = stops_list.len() as int;
    egress_within(look.reach, ctx, goal, round, stops_list, n, stops, rounds);
    let walked = if walks.len() > 0 {
        Look { reach: after_egress(look.reach, goal.destination_stop as int, round, stops_list, walks, n), ..look }
    } else {
        look
    };
    lookahead_within(walked, ctx, memory, goal, round, stops_list, n, stops, rounds);
}

proof fn round_within(run: QueryRun, ctx: SearchContext, memory: CacheView, goal: LookaheadGoal, round: int, stops: int, rounds: int)
    requires
        query_counts_rides(ctx, memory, goal, stops, rounds),
        rides_within(run.reach.view, *ctx.data, stops, rounds),
        0 < round < rounds,
    ensures
        rides_within(after_query_round(run, ctx, memory, goal, round).reach.view, *ctx.data, stops, rounds),
{
    let destination = goal.destination_stop as int;
    let best = run.reach.view.best;
    let prunes = queue_prunes(best, best[destination], run.marked, run.marked.len() as int);
    let tally = LookaheadTally { destination_bound_prunes: counted(run.tally.destination_bound_prunes, prunes), ..run.tally };
    all_rides_within(run.reach.view, ctx, destination, round, run.marked, stops, rounds);
    let ridden = after_rides(run.reach.view, ctx, destination, round, run.marked);
    let frontier = ridden.improved;
    let begun = Look { reach: Reach { view: ridden, round: run.reach.round }, tally: tally, counters: run.counters };
    finishing_within(begun, ctx, memory, goal, round, frontier, stops, rounds);
    let first = if frontier.len() > 0 { after_finishing(begun, ctx, memory, goal, round, frontier) } else { begun };
    all_walks_within(first.reach.view, ctx, destination, round, frontier, stops, rounds);
    let walked = after_walks(first.reach.view, *ctx.data, round, destination, frontier);
    let rest = walked.improved.skip(frontier.len() as int);
    if walked.improved.len() > frontier.len() {
        assert forall|i: int| 0 <= i < rest.len() implies (#[trigger] rest[i]) < stops by {
            assert(rest[i] == walked.improved[frontier.len() + i]);
        }
        finishing_within(Look { reach: Reach { view: walked, ..first.reach }, ..first }, ctx, memory, goal, round, rest, stops, rounds);
    }
    assert(after_query_round(run, ctx, memory, goal, round).reach.view.parents == after_travel(run, ctx, memory, goal, round).reach.view.parents);
}

proof fn rounds_within(run: QueryRun, ctx: SearchContext, memory: CacheView, goal: LookaheadGoal, round: int, stops: int, rounds: int)
    requires
        query_counts_rides(ctx, memory, goal, stops, rounds),
        rides_within(run.reach.view, *ctx.data, stops, rounds),
        goal.max_rounds + 1 == rounds,
        0 < round,
    ensures
        rides_within(after_query_rounds(run, ctx, memory, goal, round).reach.view, *ctx.data, stops, rounds),
    decreases goal.max_rounds + 1 - round,
{
    if !(round > goal.max_rounds || run.marked.len() == 0) {
        round_within(run, ctx, memory, goal, round, stops, rounds);
        rounds_within(after_query_round(run, ctx, memory, goal, round), ctx, memory, goal, round + 1, stops, rounds);
    }
}

proof fn access_within(search: LocalSearch, data: StaticData, edges: Seq<QueryVirtualWalk>, departure: int, destination: int, n: int, stops: int, rounds: int)
    requires
        rides_within(search.view, data, stops, rounds),
        query_walks_valid(edges, stops),
        forall|i: int| 0 <= i < edges.len() ==> (#[trigger] edges[i]).to_stop < data.stops@.len(),
        forall|i: int| 0 <= i < search.view.improved.len() ==> (#[trigger] search.view.improved[i]) < data.stops@.len(),
        n <= edges.len(),
        0 < rounds,
    ensures
        ({
            let after = after_access(search, edges, departure, destination, n).view;
            &&& rides_within(after, data, stops, rounds)
            &&& forall|i: int| 0 <= i < after.improved.len() ==> (#[trigger] after.improved[i]) < data.stops@.len()
        }),
    decreases n,
{
    if n > 0 {
        access_within(search, data, edges, departure, destination, n - 1, stops, rounds);
        let before = after_access(search, edges, departure, destination, n - 1).view;
        let after = after_access(search, edges, departure, destination, n).view;
        let edge = edges[n - 1];
        let parent = ParentView::Walk { from_stop: edge.from_stop, duration_secs: edge.duration_secs, distance_meters: edge.distance_meters };
        improvement_within(before, data, stops, rounds, 0, edge.to_stop as int, (departure + edge.duration_secs) as i32, parent);
        assert forall|i: int| 0 <= i < after.improved.len() implies (#[trigger] after.improved[i]) < data.stops@.len() by {
            if i < before.improved.len() {
                assert(after.improved[i] == before.improved[i]);
            }
        }
    }
}

proof fn seeds_within(search: LocalSearch, data: StaticData, seeds: Seq<usize>, destination: int, n: int, stops: int, rounds: int)
    requires
        rides_within(search.view, data, stops, rounds),
        walks_valid(data.transfers@, data.stops@.len() as int),
        data.transfers@.len() == data.stops@.len(),
        forall|i: int| 0 <= i < seeds.len() ==> (#[trigger] seeds[i]) < data.stops@.len(),
        n <= seeds.len(),
        0 < rounds,
    ensures
        rides_within(after_seeds(search, data, seeds, destination, n).view, data, stops, rounds),
    decreases n,
{
    if n > 0 {
        seeds_within(search, data, seeds, destination, n - 1, stops, rounds);
        let before = after_seeds(search, data, seeds, destination, n - 1);
        let stop = seeds[n - 1];
        let walks = data.transfers@[stop as int]@;
        assert forall|i: int| 0 <= i < walks.len() implies (#[trigger] walks[i]).to_stop < stops by {
            assert(data.transfers@[stop as int]@[i].to_stop < data.stops@.len());
        }
        first_walks_within(before, data, walks, stop, before.view.arrivals[0][stop as int] as int, destination, walks.len() as int, stops, rounds);
    }
}

proof fn query_within(ctx: SearchContext, memory: CacheView, goal: LookaheadGoal, plan: QueryPlan, departure: i32)
    requires
        query_counts_rides(ctx, memory, goal, place_count(*ctx.data, plan), goal.max_rounds + 1),
        plan_valid(*ctx.data, plan),
        goal.destination_stop == plan.to_index,
    ensures
        rides_within(query_done(ctx, memory, goal, plan, departure).reach.view, *ctx.data, place_count(*ctx.data, plan), goal.max_rounds + 1),
{
    let data = *ctx.data;
    let stops = place_count(data, plan);
    let rounds = goal.max_rounds + 1;
    let destination = plan.to_index as int;
    let origin_is_stop = plan.from_index < data.stops@.len();
    let labels = start_labels(stops, rounds, plan.from_index as int, departure, origin_is_stop);
    let start = LocalSearch { view: labels, marked: Seq::empty(), reached: if plan.from_index == plan.to_index { Some(0) } else { None } };
    start_within(data, stops, rounds, plan.from_index as int, departure, origin_is_stop);
    if plan.source_access_edges@.len() == 0 {
        let walks = data.transfers@[plan.from_index as int]@;
        assert forall|i: int| 0 <= i < walks.len() implies (#[trigger] walks[i]).to_stop < stops by {
            assert(data.transfers@[plan.from_index as int]@[i].to_stop < data.stops@.len());
        }
        first_walks_within(start, data, walks, plan.from_index, departure as int, destination, walks.len() as int, stops, rounds);
    } else {
        let edges = plan.source_access_edges@;
        access_within(start, data, edges, departure as int, destination, edges.len() as int, stops, rounds);
        let seeded = after_access(start, edges, departure as int, destination, edges.len() as int);
        seeds_within(seeded, data, seeded.view.improved, destination, seeded.view.improved.len() as int, stops, rounds);
    }
    let walked = walked_start(data, plan, departure, goal.max_rounds as int);
    let begun = Look {
        reach: Reach { view: SearchView { improved: Seq::empty(), ..walked.view }, round: walked.reached },
        tally: no_tally(),
        counters: memory.counters,
    };
    finishing_within(begun, ctx, memory, goal, 0, walked.view.improved, stops, rounds);
    rounds_within(query_start(ctx, memory, goal, plan, departure), ctx, memory, goal, 1, stops, rounds);
}

proof fn found_ride_within(view: SearchView, ctx: SearchContext, origin: int, destination: int, n: int, stops: int, rounds: int)
    requires
        rides_within(view, *ctx.data, stops, rounds),
        0 <= destination < stops,
        n <= rounds <= usize::MAX,
    ensures
        match journeys_of_rounds(view, ctx, origin, destination, n) {
            Ok(found) => {
                &&& found.len() <= (if n > 0 { n } else { 0 })
                &&& forall|i: int| 0 <= i < found.len() ==> (#[trigger] found[i]).transit_legs < rounds && found[i].transit_legs == ride_count(found[i].raw_legs)
            },
            Err(_) => true,
        },
    decreases n,
{
    if n > 0 {
        found_ride_within(view, ctx, origin, destination, n - 1, stops, rounds);
        journeys_ride_within(view, ctx, origin, destination, n - 1, label_count(view), stops, rounds);
    }
}

proof fn prepared_counts_rides(goal: LookaheadGoal, data: StaticData, plan: QueryPlan, service_date: i32, max_rounds: int, memory: ProfileCache)
    requires
        plan_goal(goal, data, plan, service_date, max_rounds, memory),
        memory.wf(),
        memory_counts_rides(memory@),
    ensures
        surface_counts_rides(*goal.surface),
{
    let surface = *goal.surface;
    let listed = memory.spatial_listed();
    let cells = plan.destination_cells@;
    assert forall|s: int, i: int| 0 <= s < surface.enabled_source_stops@.len() && 0 <= i < surface.matches_by_source_stop@[s]@.len() implies rides_are_counted(
        (#[trigger] surface.matches_by_source_stop@[s]@[i])@,
    ) by {
        let all = surface_profiles(memory@, listed, service_date, cells, s, listed.len() as int);
        assert(surface_entry(surface, s, all));
        assert forall|k: int| 0 <= k < listed.len() implies memory@.spatial.dom().contains(#[trigger] listed[k]) by {
            memory.summaries_are_bounds(listed[k]);
            assert(listed.contains(listed[k]));
        }
        listed_count_rides(memory@, listed, service_date, cells, s, listed.len() as int);
        let row = matches_view(surface.matches_by_source_stop@[s]@);
        assert(row.len() == surface.matches_by_source_stop@[s]@.len());
        assert(row[i] == surface.matches_by_source_stop@[s]@[i]@);
        let keys = match_keys(all);
        stable_order_exists(keys);
        let order = stable_order_of(keys);
        assert(row[i] == all[order[i] as int]);
        assert(order[i] < keys.len());
    }
}

proof fn listed_count_rides(view: CacheView, listed: Seq<StoreKey>, service_date: i32, cells: Seq<u64>, source: int, n: int)
    requires
        memory_counts_rides(view),
        0 <= n <= listed.len(),
        forall|k: int| 0 <= k < listed.len() ==> view.spatial.dom().contains(#[trigger] listed[k]),
    ensures
        forall|i: int| 0 <= i < surface_profiles(view, listed, service_date, cells, source, n).len() ==> rides_are_counted(
            #[trigger] surface_profiles(view, listed, service_date, cells, source, n)[i],
        ),
    decreases n,
{
    if n > 0 {
        listed_count_rides(view, listed, service_date, cells, source, n - 1);
        let before = surface_profiles(view, listed, service_date, cells, source, n - 1);
        let after = surface_profiles(view, listed, service_date, cells, source, n);
        let key = listed[n - 1];
        assert(view.spatial.dom().contains(key));
        assert forall|i: int| 0 <= i < after.len() implies rides_are_counted(#[trigger] after[i]) by {
            if i < before.len() {
                assert(after[i] == before[i]);
            } else {
                assert(after[i] == profiles(view.spatial[key])[i - before.len()]);
                assert(rides_are_counted(view.spatial[key][i - before.len()].profile));
            }
        }
    }
}

/// No journey that a query offers has more changes than it allows: it has at most one
/// ride more than changes are allowed.
pub proof fn offered_journeys_change_no_more_than_allowed(
    ctx: SearchContext,
    data: StaticData,
    realtime: RealtimeView,
    services: Set<Seq<char>>,
    goal: LookaheadGoal,
    plan: QueryPlan,
    service_date: i32,
    allowed: int,
    departure: i32,
    limit: usize,
    service_count: int,
    memory: ProfileCache,
    memory_after: CacheView,
    outcome: QueryOutcome,
    i: int,
)
    requires
        data_ready(data),
        day_context(ctx, data, realtime, services),
        plan_valid(data, plan),
        plan_goal(goal, data, plan, service_date, allowed + 1, memory),
        0 <= allowed,
        allowed + 1 < usize::MAX,
        (allowed + 2) * place_count(data, plan) <= usize::MAX,
        memory.wf(),
        cache_fits(memory@, data.trips@, data.stops@.len() as int),
        ctx.answers(goal, plan, departure, limit, service_count, memory@, memory_after, Ok(outcome)),
        0 <= i < outcome.candidates@.len(),
    ensures
        outcome.candidates@[i].transit_legs == ride_count(outcome.candidates@[i].raw_legs@),
        outcome.candidates@[i].transit_legs <= allowed + 1,
{
    let stops = place_count(data, plan);
    let destination = plan.to_index as int;
    day_context_ready(ctx, data, realtime, services);
    assert((allowed + 2) * data.stops@.len() <= (allowed + 2) * stops) by (nonlinear_arith)
        requires
            data.stops@.len() <= stops,
            0 <= allowed,
    ;
    plan_goal_fits(ctx, goal, data, plan, service_date, allowed + 1, memory);
    fit_memories_count_rides(memory@, data.trips@, data.stops@.len() as int);
    prepared_counts_rides(goal, data, plan, service_date, allowed + 1, memory);
    assert forall|key: StoreKey| memory@.summaries.dom().contains(key) implies memory@.exact.dom().contains(key) by {
        memory.summaries_are_bounds(key);
    }
    query_within(ctx, memory@, goal, plan, departure);
    let view = query_done(ctx, memory@, goal, plan, departure).reach.view;
    reveal(SearchContext::concludes);
    found_ride_within(view, ctx, plan.from_index as int, destination, goal.max_rounds + 1, stops, goal.max_rounds + 1);
    match journeys_of_rounds(view, ctx, plan.from_index as int, destination, goal.max_rounds + 1) {
        Err(_) => {},
        Ok(found) => {
            assert(candidates_view(outcome.candidates@)[i] == outcome.candidates@[i]@);
            offers_are_found(found, limit, i);
            let k = found.index_of(offered(found, limit)[i]);
            assert(found[k].transit_legs < goal.max_rounds + 1);
        },
    }
}

proof fn trunk_counts(ctx: SearchContext, legs: Seq<CachedLeg>, cell: u64, i: int)
    requires
        0 <= i,
    ensures
        match trunk_from(ctx, legs, cell, i) {
            Some(trunk) => trunk.trips.len() == ride_count(trunk.legs) && trunk.legs.len() <= legs.len() - i,
            None => true,
        },
    decreases legs.len() - i,
{
    if i < legs.len() {
        trunk_counts(ctx, legs, cell, i + 1);
        one_leg(legs[i]);
        match trunk_from(ctx, legs, cell, i) {
            Some(trunk) => {
                if trunk.legs.len() == 1 {
                    one_leg(trunk.legs[0]);
                    assert(trunk.legs =~= seq![trunk.legs[0]]);
                }
                match trunk_from(ctx, legs, cell, i + 1) {
                    Some(rest) => rides_add_up(seq![legs[i]], rest.legs),
                    None => {},
                }
            },
            None => {},
        }
    }
}

/// Whether a point to be remembered says how many rides it has.
pub open spec fn insert_counts(point: SpatialInsertView) -> bool {
    point.transit_legs == ride_count(point.trunk_legs)
}

proof fn split_rides(legs: Seq<CachedLeg>, k: int)
    requires
        0 <= k < legs.len(),
    ensures
        ride_count(legs) == ride_count(legs.take(k)) + (if legs[k].is_transit() { 1int } else { 0int }) + ride_count(legs.skip(k + 1)),
{
    one_leg(legs[k]);
    rides_add_up(legs.take(k), seq![legs[k]]);
    rides_add_up(legs.take(k) + seq![legs[k]], legs.skip(k + 1));
    assert(legs.take(k) + seq![legs[k]] + legs.skip(k + 1) =~= legs);
}

proof fn ride_anchors_count(ctx: SearchContext, cell: u64, point: SpatialInsertView, k: int, pos: int)
    requires
        insert_counts(point),
        0 <= k < point.trunk_legs.len(),
    ensures
        ({
            let points = anchors_from(ctx, cell, point, k, ride_count(point.trunk_legs.take(k)) as int, pos);
            forall|i: int| 0 <= i < points.len() ==> insert_counts(#[trigger] points[i])
        }),
    decreases (match point.trunk_legs[k] { CachedLeg::Transit { alight_pos, .. } => alight_pos as int, _ => 0int }) - pos,
{
    let legs = point.trunk_legs;
    let before = ride_count(legs.take(k)) as int;
    match legs[k] {
        CachedLeg::Walk { .. } => {},
        CachedLeg::Transit { alight_pos, .. } => if pos < alight_pos {
            ride_anchors_count(ctx, cell, point, k, pos + 1);
            let rest = anchors_from(ctx, cell, point, k, before, pos + 1);
            let here = anchors_from(ctx, cell, point, k, before, pos);
            split_rides(legs, k);
            if here != rest {
                let first = here[0];
                let ride = first.trunk_legs[0];
                one_leg(ride);
                rides_add_up(seq![ride], legs.skip(k + 1));
                assert(first.trunk_legs =~= seq![ride] + legs.skip(k + 1));
                assert(insert_counts(first));
                assert forall|i: int| 0 <= i < here.len() implies insert_counts(#[trigger] here[i]) by {
                    if i > 0 {
                        assert(here[i] == rest[i - 1]);
                    }
                }
            }
        },
    }
}

proof fn anchors_count(ctx: SearchContext, cell: u64, point: SpatialInsertView, n: int)
    requires
        insert_counts(point),
        n <= point.trunk_legs.len(),
    ensures
        forall|i: int| 0 <= i < anchors_of(ctx, cell, point, n).len() ==> insert_counts(#[trigger] anchors_of(ctx, cell, point, n)[i]),
    decreases n,
{
    if n > 0 {
        anchors_count(ctx, cell, point, n - 1);
        match point.trunk_legs[n - 1] {
            CachedLeg::Walk { .. } => {
                assert(anchors_of(ctx, cell, point, n) == anchors_of(ctx, cell, point, n - 1));
            },
            CachedLeg::Transit { board_pos, .. } => {
                ride_anchors_count(ctx, cell, point, n - 1, board_pos + 1);
                let before = anchors_of(ctx, cell, point, n - 1);
                let more = anchors_from(ctx, cell, point, n - 1, ride_count(point.trunk_legs.take(n - 1)) as int, board_pos + 1);
                let after = anchors_of(ctx, cell, point, n);
                assert forall|i: int| 0 <= i < after.len() implies insert_counts(#[trigger] after[i]) by {
                    if i < before.len() {
                        assert(after[i] == before[i]);
                    } else {
                        assert(after[i] == more[i - before.len()]);
                    }
                }
            },
        }
    }
}

/// What is to be remembered of the way into a cell says how many rides it has.
pub proof fn points_count(ctx: SearchContext, legs: Seq<CachedLeg>, cell: u64, n: int)
    requires
        0 <= n <= legs.len() <= usize::MAX,
    ensures
        forall|i: int| 0 <= i < spatial_points(ctx, legs, cell, n).len() ==> insert_counts(#[trigger] spatial_points(ctx, legs, cell, n)[i]),
    decreases n,
{
    if n > 0 {
        points_count(ctx, legs, cell, n - 1);
        let before = spatial_points(ctx, legs, cell, n - 1);
        let after = spatial_points(ctx, legs, cell, n);
        trunk_counts(ctx, legs, cell, n - 1);
        match base_point(ctx, legs, cell, n - 1) {
            None => {},
            Some(point) => {
                ride_count_bounded(point.trunk_legs);
                assert(insert_counts(point));
                anchors_count(ctx, cell, point, point.trunk_legs.len() as int);
                let more = anchors(ctx, cell, point);
                assert forall|i: int| 0 <= i < after.len() implies insert_counts(#[trigger] after[i]) by {
                    if i < before.len() {
                        assert(after[i] == before[i]);
                    } else if i == before.len() {
                        assert(after[i] == point);
                    } else {
                        assert(after[i] == more[i - before.len() - 1]);
                    }
                }
            },
        }
    }
}

} // verus!
