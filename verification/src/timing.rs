//! The order of the times of a journey: each of its legs begins when the one before
//! it has ended, or later.

use crate::journey::{label_count, path_back, PathBack};
use crate::keyed_store::StoreKey;
use crate::leg::{legs_arrive, CachedLeg, ParentView};
use crate::lookahead::{
    after_egress, best_completion, egress_leg, first_walk_from, first_walk_in_range, query_walks_valid, replaces, rides_left, with_memo,
    LookaheadTally, QueryVirtualWalk, Reach,
};
use crate::model::{saturated_sum, LineRecord, StaticData, StopLineRef, TransferTile, WalkTransfer, INF_TIME};
use crate::number::Real;
use crate::profile_bucket::{MatchView, PointView};
use crate::profile_cache::{
    best_feasible, feasible, lookup_found, matches_view, profile_key, wrapped, CacheCounters, CacheView, LookupView, PreparedSpatialLookup,
};
use crate::profile_lookahead::{after_exact, after_lookahead, after_match, after_matches, rides_after, with_finish, Look, LookaheadGoal};
use crate::query::{after_access, after_seeds, place_count, plan_valid, query_done, query_start, walked_start, QueryPlan};
use crate::query_rounds::{after_finishing, after_query_round, after_query_rounds, after_travel, no_tally, QueryRun};
use crate::realtime::{call_key, departure_with_delay, trip_calls_valid, trip_is_updated};
use crate::relax::{
    after_hubs, after_target, after_tile, after_tiles, after_walks, best_walk, best_walk_facts, pruned_sources, source_hubs, sources_of_hub,
    sources_of_hub_valid, sources_valid, tile_valid, walk_index_valid, walk_sources, walks_valid, WalkSource,
};
use crate::search::{
    after_call, after_line, after_line_from, after_onboard, after_ride, can_ride_on, counted, earliest_trip, earliest_trip_valid,
    improvement_keeps_shape, line_valid, serves, with_improvement, LineScan, RoundMetrics, SearchContext, SearchView, SVRT_WIDTH,
};
use crate::search_laws::{found_departs_in_time, line_ready, none_early};
use crate::subquery::{
    after_first_walks, after_lines, after_local_round, after_local_rounds, after_rides, local_journey, queue_of, queue_prunes, queue_with,
    queued_count, round_begun, search_ready, start_labels, start_labels_fit, stop_lines_valid, LocalSearch, NOT_QUEUED,
};
use crate::transfer_index::{cell_in_matrix, cell_index, EMPTY_TRANSFER_SLOT};
use vstd::prelude::*;

verus! {

/// Whether each leg begins when the one before it has ended, or later, and the
/// first of them not before a time.
pub open spec fn in_time(legs: Seq<CachedLeg>, ready: int) -> bool {
    &&& forall|i: int| 0 < i < legs.len() ==> legs[i - 1].arrival() <= (#[trigger] legs[i]).departure()
    &&& legs.len() > 0 ==> ready <= legs[0].departure()
}

/// When legs are done with that were begun at a time.
pub open spec fn done_at(legs: Seq<CachedLeg>, ready: int) -> int {
    if legs.len() == 0 { ready } else { legs.last().arrival() as int }
}

/// Legs in time, and legs in time after them.
pub proof fn going_on_in_time(a: Seq<CachedLeg>, b: Seq<CachedLeg>, ready: int, between: int)
    requires
        in_time(a, ready),
        in_time(b, between),
        done_at(a, ready) <= between,
    ensures
        in_time(a + b, ready),
        done_at(a + b, ready) == (if b.len() == 0 { done_at(a, ready) } else { done_at(b, between) }),
{
    let both = a + b;
    assert forall|i: int| 0 < i < both.len() implies both[i - 1].arrival() <= (#[trigger] both[i]).departure() by {
        if i < a.len() {
            assert(both[i] == a[i] && both[i - 1] == a[i - 1]);
        } else if i > a.len() {
            assert(both[i] == b[i - a.len()] && both[i - 1] == b[i - a.len() - 1]);
        } else {
            assert(both[i] == b[0] && both[i - 1] == a.last());
        }
    }
    if both.len() > 0 {
        assert(both[0] == if a.len() > 0 { a[0] } else { b[0] });
        assert(both.last() == if b.len() > 0 { b.last() } else { a.last() });
    }
}

/// Whether a search knows when trips depart: the tables of the lines are those of the
/// timetable, it knows of which trips reports speak, and on a line without delays no
/// trip runs early.
pub open spec fn departures_known(ctx: SearchContext) -> bool {
    &&& forall|l: int| 0 <= l < ctx.data.lines@.len() ==> line_ready(#[trigger] ctx.data.lines@[l], ctx.data.trips@, ctx.data.stops@.len() as int)
    &&& forall|l: int| 0 <= l < ctx.data.lines@.len() && (#[trigger] ctx.line_max_positive_delay_secs@[l]) == 0 ==> none_early(ctx, ctx.data.lines@[l])
    &&& forall|t: int| 0 <= t < ctx.data.trips@.len() ==> #[trigger] ctx.trip_has_realtime_update@[t] == trip_is_updated(ctx.realtime@, t)
}

/// When a trip departs from a call, with its delay.
pub open spec fn departs(ctx: SearchContext, trip: usize, stop_pos: usize) -> int {
    departure_with_delay(ctx.realtime@, ctx.data.trips@, trip as int, stop_pos as int)
}

proof fn departure_is_known(ctx: SearchContext, trip: usize, stop_pos: usize)
    requires
        ctx.wf(),
        departures_known(ctx),
        trip < ctx.data.trips@.len(),
        stop_pos < ctx.data.trips@[trip as int].stop_times@.len(),
    ensures
        ctx.departure(trip as int, stop_pos as int) == departs(ctx, trip, stop_pos),
        i32::MIN <= departs(ctx, trip, stop_pos) <= i32::MAX,
{
    let key = call_key(trip as int, stop_pos as int);
    assert(trip_calls_valid(ctx.data.trips@[trip as int], ctx.data.stops@.len() as int));
    assert(ctx.trip_has_realtime_update@[trip as int] == trip_is_updated(ctx.realtime@, trip as int));
    let call = ctx.data.trips@[trip as int].stop_times@[stop_pos as int];
    if ctx.realtime@.deltas.dom().contains(key) {
        ctx.realtime.delays_are_reasonable(key);
        if !ctx.may_differ(trip as int) {
            assert(!ctx.realtime@.deltas[key].changes_schedule());
        }
    }
}

/// Whether the step back from a label fits the times: what it led to was begun when
/// the place that it leads back to had been reached.
pub open spec fn step_in_time(view: SearchView, ctx: SearchContext, destination: int, r: int, s: int) -> bool {
    match view.parents[r][s] {
        None => true,
        Some(parent) => match parent {
            ParentView::Origin => r == 0 && s == view.origin,
            ParentView::Walk { from_stop, duration_secs, .. } => {
                &&& from_stop < view.best.len()
                &&& 0 <= duration_secs
                &&& view.arrivals[r][from_stop as int] + duration_secs <= view.arrivals[r][s]
            },
            ParentView::Transit { trip_index, board_stop, board_pos, alight_stop, .. } => {
                &&& r > 0
                &&& board_stop < view.best.len()
                &&& board_stop != destination
                &&& alight_stop == s
                &&& i32::MIN <= departs(ctx, trip_index, board_pos) <= i32::MAX
                &&& view.parents[r - 1][board_stop as int] is Some ==> view.arrivals[r - 1][board_stop as int] <= departs(ctx, trip_index, board_pos)
            },
            ParentView::Memoized { from_stop, source_round, legs } => {
                &&& s == destination
                &&& from_stop < view.best.len()
                &&& source_round < view.arrivals.len()
                &&& in_time(legs, view.arrivals[source_round as int][from_stop as int] as int)
                &&& legs.len() > 0
                &&& legs.last().arrival() == view.arrivals[r][s]
            },
        },
    }
}

/// Whether a round ahead has not reached a place, unless the way there was
/// remembered.
pub open spec fn not_yet(view: SearchView, destination: int, r: int, s: int) -> bool {
    view.parents[r][s] is Some ==> s == destination && view.parents[r][s]->0 is Memoized
}

/// What stays the same while a search runs: how many places and rounds there are,
/// and where and when it was begun.
pub struct SearchFrame {
    pub stops: int,
    pub rounds: int,
    pub origin: usize,
    pub start: i32,
}

/// Whether the labels of a search in a round fit the times.
pub open spec fn labels_in_time(view: SearchView, ctx: SearchContext, round: int, destination: int, frame: SearchFrame) -> bool {
    let stops = frame.stops;
    let rounds = frame.rounds;
    &&& view.wf(stops, rounds)
    &&& view.best.len() == stops
    &&& view.arrivals.len() == rounds
    &&& view.origin == frame.origin
    &&& 0 <= round < rounds
    &&& 0 <= destination < stops
    &&& view.origin < stops
    &&& view.parents[0][view.origin as int] is Some
    &&& view.origin != destination ==> view.arrivals[0][view.origin as int] == frame.start
    &&& forall|r: int, s: int| 0 <= r < rounds && 0 <= s < stops ==> view.best[s] <= #[trigger] view.arrivals[r][s]
    &&& forall|s: int| 0 <= s < stops && s != destination && (#[trigger] view.parents[round][s]) is Some ==> view.arrivals[round][s] == view.best[s]
    &&& forall|r: int, s: int| round < r < rounds && 0 <= s < stops ==> #[trigger] not_yet(view, destination, r, s)
    &&& forall|r: int, s: int| 0 <= r < rounds && 0 <= s < stops ==> #[trigger] step_in_time(view, ctx, destination, r, s)
}

/// A better arrival that fits the times keeps the labels in time.
proof fn improvement_in_time(view: SearchView, ctx: SearchContext, round: int, destination: int, frame: SearchFrame, stop: int, arrival: i32, parent: ParentView)
    requires
        labels_in_time(view, ctx, round, destination, frame),
        0 <= stop < view.best.len(),
        arrival < view.best[stop] ==> step_in_time(with_improvement(view, round, stop, arrival, parent), ctx, destination, round, stop),
        round == 0 && stop == view.origin ==> arrival >= view.best[stop],
    ensures
        labels_in_time(with_improvement(view, round, stop, arrival, parent), ctx, round, destination, frame),
{
    let after = with_improvement(view, round, stop, arrival, parent);
    let stops = view.best.len() as int;
    let rounds = view.arrivals.len() as int;
    improvement_keeps_shape(view, round, stop, arrival, parent);
    if arrival < view.best[stop] {
        assert(view.parents[round].len() == stops);
        assert(view.arrivals[round].len() == stops);
        assert forall|r: int, s: int| 0 <= r < rounds && 0 <= s < stops implies after.best[s] <= #[trigger] after.arrivals[r][s] by {
            assert(view.best[s] <= view.arrivals[r][s]);
        }
        assert forall|s: int| 0 <= s < stops && s != destination && (#[trigger] after.parents[round][s]) is Some implies after.arrivals[round][s] == after.best[s] by {
            if s != stop {
                assert(view.parents[round][s] == after.parents[round][s]);
            }
        }
        assert forall|r: int, s: int| round < r < rounds && 0 <= s < stops implies #[trigger] not_yet(after, destination, r, s) by {
            assert(not_yet(view, destination, r, s));
        }
        assert forall|r: int, s: int| 0 <= r < rounds && 0 <= s < stops implies #[trigger] step_in_time(after, ctx, destination, r, s) by {
            if r != round || s != stop {
                assert(step_in_time(view, ctx, destination, r, s));
                assert(after.parents[r][s] == view.parents[r][s]);
                assert(after.arrivals[r][s] == view.arrivals[r][s]);
                assert forall|q: int, t: int| 0 <= q < rounds && 0 <= t < stops implies #[trigger] after.arrivals[q][t] <= view.arrivals[q][t] by {
                    assert(view.best[t] <= view.arrivals[q][t]);
                }
                match after.parents[r][s] {
                    None => {},
                    Some(step) => match step {
                        ParentView::Transit { board_stop, .. } => {
                            if r > round {
                                assert(not_yet(view, destination, r, s));
                            } else {
                                assert(after.parents[r - 1][board_stop as int] == view.parents[r - 1][board_stop as int]);
                            }
                        },
                        ParentView::Memoized { from_stop, source_round, legs } => {
                            assert(after.arrivals[source_round as int][from_stop as int] <= view.arrivals[source_round as int][from_stop as int]);
                        },
                        ParentView::Walk { from_stop, .. } => {
                            assert(after.arrivals[r][from_stop as int] <= view.arrivals[r][from_stop as int]);
                        },
                        ParentView::Origin => {},
                    },
                }
            }
        }
        assert(after.parents[0][after.origin as int] is Some);
    }
}

/// Labels with another record of the work fit the times as they did.
proof fn work_takes_no_time(view: SearchView, other: SearchView, ctx: SearchContext, round: int, destination: int, frame: SearchFrame)
    requires
        labels_in_time(view, ctx, round, destination, frame),
        other.best == view.best,
        other.arrivals == view.arrivals,
        other.parents == view.parents,
        other.origin == view.origin,
        other.wf(view.best.len() as int, view.arrivals.len() as int),
    ensures
        labels_in_time(other, ctx, round, destination, frame),
{
    let stops = view.best.len() as int;
    let rounds = view.arrivals.len() as int;
    assert forall|r: int, s: int| round < r < rounds && 0 <= s < stops implies #[trigger] not_yet(other, destination, r, s) by {
        assert(not_yet(view, destination, r, s));
    }
    assert forall|r: int, s: int| 0 <= r < rounds && 0 <= s < stops implies #[trigger] step_in_time(other, ctx, destination, r, s) by {
        assert(step_in_time(view, ctx, destination, r, s));
    }
}

/// Whether the times at which travellers are ready in a round are no earlier than the
/// arrivals of the round before; the destination is left by nobody.
pub open spec fn ready_in_time(view: SearchView, round: int, destination: int, best_before: Seq<i32>) -> bool {
    &&& round > 0
    &&& best_before.len() == view.best.len()
    &&& view.best[destination] <= best_before[destination]
    &&& forall|s: int| 0 <= s < view.best.len() && s != destination && (#[trigger] view.parents[round - 1][s]) is Some ==> view.arrivals[round - 1][s] <= best_before[s]
}

/// Whether a trip was boarded at a call of a line by a traveller who was ready.
pub open spec fn boarded_in_time(ctx: SearchContext, line: LineRecord, destination: int, best_before: Seq<i32>, trip: usize, stop_pos: usize) -> bool {
    &&& trip < ctx.data.trips@.len()
    &&& serves(ctx.data.trips@[trip as int], line.stop_indices@)
    &&& stop_pos < line.stop_indices@.len()
    &&& line.stop_indices@[stop_pos as int] != destination
    &&& best_before[line.stop_indices@[stop_pos as int] as int] <= departs(ctx, trip, stop_pos) <= i32::MAX
}

/// Whether the labels in a round fit the times, and travellers are ready in time.
pub open spec fn riding_in_time(view: SearchView, ctx: SearchContext, round: int, destination: int, frame: SearchFrame, best_before: Seq<i32>) -> bool {
    &&& labels_in_time(view, ctx, round, destination, frame)
    &&& ready_in_time(view, round, destination, best_before)
    &&& ctx.data.stops@.len() <= view.best.len()
}

proof fn onboard_in_time(
    view: SearchView,
    ctx: SearchContext,
    line: LineRecord,
    stop_pos: int,
    destination: int,
    round: int,
    trip: usize,
    boarded_at: usize,
    frame: SearchFrame,
    best_before: Seq<i32>,
)
    requires
        riding_in_time(view, ctx, round, destination, frame, best_before),
        line_valid(line, ctx.data.trips@, ctx.data.stops@.len() as int),
        boarded_in_time(ctx, line, destination, best_before, trip, boarded_at),
        0 <= stop_pos < line.stop_indices@.len(),
    ensures
        riding_in_time(after_onboard(view, ctx, line, stop_pos, destination, round, trip, boarded_at), ctx, round, destination, frame, best_before),
{
    let after = after_onboard(view, ctx, line, stop_pos, destination, round, trip, boarded_at);
    let stops = view.best.len() as int;
    let rounds = view.arrivals.len() as int;
    let stop = line.stop_indices@[stop_pos];
    let board_stop = line.stop_indices@[boarded_at as int];
    assert(stop < ctx.data.stops@.len());
    assert(board_stop < ctx.data.stops@.len());
    let arrival = ctx.arrival(trip as int, stop_pos) as i32;
    let counted_view = SearchView { metrics: after.metrics, ..view };
    work_takes_no_time(view, counted_view, ctx, round, destination, frame);
    let parent = ParentView::Transit { trip_index: trip, board_stop: board_stop, board_pos: boarded_at, alight_stop: stop, alight_pos: stop_pos as usize };
    let improved = with_improvement(counted_view, round, stop as int, arrival, parent);
    if arrival < view.best[stop as int] {
        assert(view.parents[round].len() == stops);
        assert(view.arrivals[round].len() == stops);
        assert(improved.parents[round][stop as int] == Some(parent));
        assert(improved.parents[round - 1] == view.parents[round - 1]);
        assert(improved.arrivals[round - 1] == view.arrivals[round - 1]);
        assert(step_in_time(improved, ctx, destination, round, stop as int));
    }
    improvement_in_time(counted_view, ctx, round, destination, frame, stop as int, arrival, parent);
    assert(after == improved || after == counted_view);
}

proof fn ride_in_time(
    view: SearchView,
    ctx: SearchContext,
    line: LineRecord,
    stop_pos: int,
    n: int,
    destination: int,
    round: int,
    trip: usize,
    boarded_at: usize,
    frame: SearchFrame,
    best_before: Seq<i32>,
)
    requires
        riding_in_time(view, ctx, round, destination, frame, best_before),
        line_valid(line, ctx.data.trips@, ctx.data.stops@.len() as int),
        boarded_in_time(ctx, line, destination, best_before, trip, boarded_at),
        0 <= stop_pos,
        stop_pos + n <= line.stop_indices@.len(),
    ensures
        riding_in_time(after_ride(view, ctx, line, stop_pos, n, destination, round, trip, boarded_at), ctx, round, destination, frame, best_before),
    decreases n,
{
    if n > 0 {
        ride_in_time(view, ctx, line, stop_pos, n - 1, destination, round, trip, boarded_at, frame, best_before);
        let before = after_ride(view, ctx, line, stop_pos, n - 1, destination, round, trip, boarded_at);
        onboard_in_time(before, ctx, line, stop_pos + n - 1, destination, round, trip, boarded_at, frame, best_before);
    }
}

/// Whether a scan under way fits the times.
pub open spec fn scan_in_time(scan: LineScan, ctx: SearchContext, line: LineRecord, round: int, destination: int, frame: SearchFrame, best_before: Seq<i32>) -> bool {
    &&& riding_in_time(scan.view, ctx, round, destination, frame, best_before)
    &&& scan.current is Some ==> boarded_in_time(ctx, line, destination, best_before, scan.current->0, scan.boarded_at)
}

proof fn call_in_time(scan: LineScan, ctx: SearchContext, l: int, stop_pos: int, destination: int, round: int, frame: SearchFrame, best_before: Seq<i32>)
    requires
        ctx.wf(),
        departures_known(ctx),
        0 <= l < ctx.data.lines@.len(),
        scan_in_time(scan, ctx, ctx.data.lines@[l], round, destination, frame, best_before),
        0 <= stop_pos < ctx.data.lines@[l].stop_indices@.len() <= usize::MAX,
    ensures
        scan_in_time(
            after_call(scan, ctx, ctx.data.lines@[l], stop_pos, destination, round, ctx.line_max_positive_delay_secs@[l], best_before),
            ctx,
            ctx.data.lines@[l],
            round,
            destination,
            frame,
            best_before,
        ),
{
    let line = ctx.data.lines@[l];
    let lookback = ctx.line_max_positive_delay_secs@[l];
    let after = after_call(scan, ctx, line, stop_pos, destination, round, lookback, best_before);
    assert(line_ready(line, ctx.data.trips@, ctx.data.stops@.len() as int));
    let view = match scan.current {
        Some(trip) => {
            onboard_in_time(scan.view, ctx, line, stop_pos, destination, round, trip, scan.boarded_at, frame, best_before);
            after_onboard(scan.view, ctx, line, stop_pos, destination, round, trip, scan.boarded_at)
        },
        None => scan.view,
    };
    work_takes_no_time(view, SearchView { metrics: after.view.metrics, ..view }, ctx, round, destination, frame);
    assert(after.view == SearchView { metrics: after.view.metrics, ..view });
    let stop = line.stop_indices@[stop_pos];
    assert(stop < ctx.data.stops@.len());
    let ready_at = best_before[stop as int];
    if ready_at < INF_TIME && ready_at < view.best[destination] {
        let found = earliest_trip(ctx, line, stop_pos, ready_at, lookback, view.metrics).0;
        earliest_trip_valid(ctx, line, stop_pos, ready_at, lookback, view.metrics);
        found_departs_in_time(ctx, line, stop_pos, ready_at, lookback, view.metrics);
        if found is Some {
            departure_is_known(ctx, found->0, stop_pos as usize);
        }
    }
}

proof fn line_from_in_time(scan: LineScan, ctx: SearchContext, l: int, stop_pos: int, destination: int, round: int, frame: SearchFrame, best_before: Seq<i32>)
    requires
        ctx.wf(),
        departures_known(ctx),
        0 <= l < ctx.data.lines@.len(),
        scan_in_time(scan, ctx, ctx.data.lines@[l], round, destination, frame, best_before),
        0 <= stop_pos,
        ctx.data.lines@[l].stop_indices@.len() <= usize::MAX,
    ensures
        riding_in_time(
            after_line_from(scan, ctx, ctx.data.lines@[l], stop_pos, destination, round, ctx.line_max_positive_delay_secs@[l], best_before),
            ctx,
            round,
            destination,
            frame,
            best_before,
        ),
    decreases ctx.data.lines@[l].stop_indices@.len() - stop_pos,
{
    let line = ctx.data.lines@[l];
    let lookback = ctx.line_max_positive_delay_secs@[l];
    assert(line_ready(line, ctx.data.trips@, ctx.data.stops@.len() as int));
    if stop_pos < line.stop_indices@.len() {
        if can_ride_on(scan, ctx, line, stop_pos, best_before) {
            let n = SVRT_WIDTH as int;
            ride_in_time(scan.view, ctx, line, stop_pos, n, destination, round, scan.current->0, scan.boarded_at, frame, best_before);
            let view = after_ride(scan.view, ctx, line, stop_pos, n, destination, round, scan.current->0, scan.boarded_at);
            line_from_in_time(LineScan { view: view, ..scan }, ctx, l, stop_pos + SVRT_WIDTH, destination, round, frame, best_before);
        } else {
            call_in_time(scan, ctx, l, stop_pos, destination, round, frame, best_before);
            let next = after_call(scan, ctx, line, stop_pos, destination, round, lookback, best_before);
            line_from_in_time(next, ctx, l, stop_pos + 1, destination, round, frame, best_before);
        }
    }
}

proof fn line_in_time(view: SearchView, ctx: SearchContext, l: int, start_pos: int, destination: int, round: int, frame: SearchFrame, best_before: Seq<i32>)
    requires
        ctx.wf(),
        departures_known(ctx),
        0 <= l < ctx.data.lines@.len(),
        riding_in_time(view, ctx, round, destination, frame, best_before),
        0 <= start_pos,
    ensures
        riding_in_time(after_line(view, ctx, l, start_pos, destination, round, best_before), ctx, round, destination, frame, best_before),
{
    let line = ctx.data.lines@[l];
    let m = view.metrics;
    let calls = line.stop_indices@.len() - start_pos;
    let begun = RoundMetrics { stop_positions_scanned: counted(m.stop_positions_scanned, if calls > 0 { calls } else { 0 }), ..m };
    let counted_view = SearchView { metrics: begun, ..view };
    work_takes_no_time(view, counted_view, ctx, round, destination, frame);
    line_from_in_time(LineScan { view: counted_view, current: None, boarded_at: 0 }, ctx, l, start_pos, destination, round, frame, best_before);
}

proof fn lines_in_time(view: SearchView, ctx: SearchContext, queue: Seq<usize>, destination: int, round: int, frame: SearchFrame, best_before: Seq<i32>, n: int)
    requires
        ctx.wf(),
        departures_known(ctx),
        riding_in_time(view, ctx, round, destination, frame, best_before),
        n <= queue.len() <= ctx.data.lines@.len(),
    ensures
        riding_in_time(after_lines(view, ctx, queue, destination, round, best_before, n), ctx, round, destination, frame, best_before),
    decreases n,
{
    if n > 0 {
        lines_in_time(view, ctx, queue, destination, round, frame, best_before, n - 1);
        let before = after_lines(view, ctx, queue, destination, round, best_before, n - 1);
        if queue[n - 1] != NOT_QUEUED {
            let m = before.metrics;
            let counted_view = SearchView { metrics: RoundMetrics { lines_scanned: counted(m.lines_scanned, 1), ..m }, ..before };
            work_takes_no_time(before, counted_view, ctx, round, destination, frame);
            line_in_time(counted_view, ctx, n - 1, queue[n - 1] as int, destination, round, frame, best_before);
        }
    }
}

proof fn queue_length(queue: Seq<usize>, lines: Seq<StopLineRef>, n: int)
    requires
        n <= lines.len(),
        forall|i: int| 0 <= i < lines.len() ==> (#[trigger] lines[i]).line_index < queue.len(),
    ensures
        queue_with(queue, lines, n).len() == queue.len(),
    decreases n,
{
    if n > 0 {
        queue_length(queue, lines, n - 1);
    }
}

/// A queue has a place for each line.
pub proof fn queue_of_length(data: StaticData, best_before: Seq<i32>, bound: i32, marked: Seq<usize>, n: int)
    requires
        stop_lines_valid(data),
    ensures
        queue_of(data, best_before, bound, marked, n).len() == data.lines@.len(),
    decreases n,
{
    if n > 0 {
        queue_of_length(data, best_before, bound, marked, n - 1);
        let stop = marked[n - 1];
        if stop < data.stops@.len() {
            let lines = data.stop_to_lines@[stop as int]@;
            queue_length(queue_of(data, best_before, bound, marked, n - 1), lines, lines.len() as int);
        }
    }
}

/// The rides of a round keep the labels in time.
pub proof fn rides_in_time(view: SearchView, ctx: SearchContext, destination: int, round: int, frame: SearchFrame, marked: Seq<usize>)
    requires
        search_ready(ctx),
        departures_known(ctx),
        0 < round < view.arrivals.len(),
        labels_in_time(view, ctx, round - 1, destination, frame),
        ctx.data.stops@.len() <= view.best.len(),
    ensures
        labels_in_time(after_rides(view, ctx, destination, round, marked), ctx, round, destination, frame),
{
    let stops = view.best.len() as int;
    let rounds = view.arrivals.len() as int;
    let queue = queue_of(*ctx.data, view.best, view.best[destination], marked, marked.len() as int);
    queue_of_length(*ctx.data, view.best, view.best[destination], marked, marked.len() as int);
    let begun = round_begun(view, queued_count(queue, queue.len() as int));
    assert(begun.wf(stops, rounds));
    work_takes_no_time(view, begun, ctx, round - 1, destination, frame);
    assert forall|s: int| 0 <= s < stops && s != destination && (#[trigger] begun.parents[round][s]) is Some implies begun.arrivals[round][s] == begun.best[s] by {
        assert(not_yet(begun, destination, round, s));
    }
    assert(labels_in_time(begun, ctx, round, destination, frame));
    assert(ready_in_time(begun, round, destination, view.best));
    lines_in_time(begun, ctx, queue, destination, round, frame, view.best, queue.len() as int);
}

/// Whether stops to walk on from had been reached at the times listed.
pub open spec fn sources_in_time(view: SearchView, round: int, sources: Seq<WalkSource>) -> bool {
    forall|i: int| 0 <= i < sources.len() ==> {
        &&& (#[trigger] sources[i]).0 < view.best.len()
        &&& view.arrivals[round][sources[i].0 as int] <= sources[i].2 < INF_TIME
    }
}

proof fn sources_stay_in_time(view: SearchView, round: int, sources: Seq<WalkSource>, stop: int, arrival: i32, parent: ParentView)
    requires
        sources_in_time(view, round, sources),
        view.wf(view.best.len() as int, view.arrivals.len() as int),
        0 <= round < view.arrivals.len(),
        0 <= stop < view.best.len(),
        view.best[stop] <= view.arrivals[round][stop],
    ensures
        sources_in_time(with_improvement(view, round, stop, arrival, parent), round, sources),
{
    let after = with_improvement(view, round, stop, arrival, parent);
    assert(view.arrivals[round].len() == view.best.len());
    assert forall|i: int| 0 <= i < sources.len() implies ({
        &&& (#[trigger] sources[i]).0 < after.best.len()
        &&& after.arrivals[round][sources[i].0 as int] <= sources[i].2 < INF_TIME
    }) by {
        assert(view.arrivals[round][sources[i].0 as int] <= sources[i].2);
    }
}

/// The best walk to a stop is one of the walks from the sources.
pub proof fn best_walk_in_time(data: StaticData, hub: usize, tile: TransferTile, sources: Seq<WalkSource>, column: int, known: int, n: int)
    requires
        hub < data.transfer_index.hubs@.len(),
        walk_index_valid(data.transfer_index, data.transfers@, data.stops@.len() as int),
        walks_valid(data.transfers@, data.stops@.len() as int),
        tile_valid(tile, data.transfer_index.hubs@[hub as int].stop_indices@, data.transfers@, data.stops@.len() as int),
        sources_valid(data.transfer_index, sources),
        forall|i: int| 0 <= i < sources.len() ==> data.transfer_index.stop_to_hub@[(#[trigger] sources[i]).0 as int] == hub,
        0 <= column < tile.target_stop_indices@.len(),
        0 <= n <= sources.len(),
    ensures
        ({
            let best = best_walk(tile, sources, column, known, n);
            best.edge is Some ==> exists|i: int| {
                &&& 0 <= i < n
                &&& (#[trigger] sources[i]).0 == (best.edge->0).0
                &&& best.arrival == sources[i].2 + data.transfers@[(best.edge->0).0 as int]@[(best.edge->0).1 as int].duration_secs
            }
        }),
    decreases n,
{
    if n > 0 {
        best_walk_in_time(data, hub, tile, sources, column, known, n - 1);
        let source = sources[n - 1];
        let index = data.transfer_index;
        assert(index.stop_to_hub@[source.0 as int] == hub);
        assert(index.stop_to_hub_offset@[source.0 as int] == source.1);
        cell_in_matrix(source.1 as int, column, tile.target_stop_indices@.len() as int, index.hubs@[hub as int].stop_indices@.len() as int);
        assert(index.hubs@[hub as int].stop_indices@[source.1 as int] == source.0);
        let before = best_walk(tile, sources, column, known, n - 1);
        let after = best_walk(tile, sources, column, known, n);
        let cell = cell_index(source.1 as int, column, tile.target_stop_indices@.len() as int);
        if after.edge is Some {
            if tile.transfer_slots@[cell] != EMPTY_TRANSFER_SLOT && source.2 + tile.durations@[cell] < before.arrival {
                assert(sources[n - 1].0 == (after.edge->0).0);
            } else {
                let i = choose|i: int| {
                    &&& 0 <= i < n - 1
                    &&& (#[trigger] sources[i]).0 == (before.edge->0).0
                    &&& before.arrival == sources[i].2 + data.transfers@[(before.edge->0).0 as int]@[(before.edge->0).1 as int].duration_secs
                };
                assert(sources[i].0 == (after.edge->0).0);
            }
        }
    }
}

/// Whether the labels fit the times and so do the stops to walk on from.
pub open spec fn walking_in_time(view: SearchView, ctx: SearchContext, round: int, destination: int, frame: SearchFrame, sources: Seq<WalkSource>) -> bool {
    &&& labels_in_time(view, ctx, round, destination, frame)
    &&& sources_in_time(view, round, sources)
    &&& sources_valid(ctx.data.transfer_index, sources)
    &&& ctx.data.stops@.len() <= view.best.len()
}

proof fn target_in_time(view: SearchView, ctx: SearchContext, hub: usize, tile: TransferTile, all: Seq<WalkSource>, sources: Seq<WalkSource>, column: int, round: int, destination: int, frame: SearchFrame)
    requires
        search_ready(ctx),
        walking_in_time(view, ctx, round, destination, frame, all),
        walking_in_time(view, ctx, round, destination, frame, sources),
        round > 0,
        hub < ctx.data.transfer_index.hubs@.len(),
        tile_valid(tile, ctx.data.transfer_index.hubs@[hub as int].stop_indices@, ctx.data.transfers@, ctx.data.stops@.len() as int),
        forall|i: int| 0 <= i < sources.len() ==> ctx.data.transfer_index.stop_to_hub@[(#[trigger] sources[i]).0 as int] == hub,
        0 <= column < tile.target_stop_indices@.len(),
    ensures
        walking_in_time(after_target(view, ctx.data.transfers@, round, tile, sources, column), ctx, round, destination, frame, all),
        walking_in_time(after_target(view, ctx.data.transfers@, round, tile, sources, column), ctx, round, destination, frame, sources),
{
    let data = *ctx.data;
    let after = after_target(view, data.transfers@, round, tile, sources, column);
    let target = tile.target_stop_indices@[column];
    let known = view.best[target as int] as int;
    let best = best_walk(tile, sources, column, known, sources.len() as int);
    best_walk_facts(data, hub, tile, sources, column, known, sources.len() as int);
    best_walk_in_time(data, hub, tile, sources, column, known, sources.len() as int);
    let counted_view = SearchView { metrics: after.metrics, ..view };
    work_takes_no_time(view, counted_view, ctx, round, destination, frame);
    match best.edge {
        None => {
            assert(after == counted_view);
        },
        Some(edge) => {
            let walk = data.transfers@[edge.0 as int]@[edge.1 as int];
            let i = choose|i: int| {
                &&& 0 <= i < sources.len()
                &&& (#[trigger] sources[i]).0 == edge.0
                &&& best.arrival == sources[i].2 + data.transfers@[edge.0 as int]@[edge.1 as int].duration_secs
            };
            assert(view.arrivals[round][sources[i].0 as int] <= sources[i].2 < INF_TIME);
            assert(0 <= walk.duration_secs <= i32::MAX - INF_TIME);
            let arrival = best.arrival as i32;
            assert(arrival == best.arrival);
            let stop = walk.to_stop as int;
            assert(stop == target);
            let parent = ParentView::Walk { from_stop: edge.0, duration_secs: walk.duration_secs, distance_meters: walk.distance_meters };
            let improved = with_improvement(counted_view, round, stop, arrival, parent);
            assert(view.parents[round].len() == view.best.len());
            assert(view.arrivals[round].len() == view.best.len());
            assert(view.best[edge.0 as int] <= view.arrivals[round][edge.0 as int]);
            assert(view.best[stop] <= view.arrivals[round][stop]);
            assert(arrival < view.best[stop]);
            assert(improved.parents[round][stop] == Some(parent));
            assert(improved.arrivals[round][stop] == arrival);
            assert(improved.arrivals[round][edge.0 as int] <= view.arrivals[round][edge.0 as int]);
            assert(edge.0 != stop);
            assert(step_in_time(improved, ctx, destination, round, stop));
            improvement_in_time(counted_view, ctx, round, destination, frame, stop, arrival, parent);
            sources_stay_in_time(counted_view, round, all, stop, arrival, parent);
            sources_stay_in_time(counted_view, round, sources, stop, arrival, parent);
            assert(after == improved);
        },
    }
}

proof fn tile_in_time(view: SearchView, ctx: SearchContext, hub: usize, tile: TransferTile, all: Seq<WalkSource>, sources: Seq<WalkSource>, round: int, destination: int, frame: SearchFrame, n: int)
    requires
        search_ready(ctx),
        walking_in_time(view, ctx, round, destination, frame, all),
        walking_in_time(view, ctx, round, destination, frame, sources),
        round > 0,
        hub < ctx.data.transfer_index.hubs@.len(),
        tile_valid(tile, ctx.data.transfer_index.hubs@[hub as int].stop_indices@, ctx.data.transfers@, ctx.data.stops@.len() as int),
        forall|i: int| 0 <= i < sources.len() ==> ctx.data.transfer_index.stop_to_hub@[(#[trigger] sources[i]).0 as int] == hub,
        n <= tile.target_stop_indices@.len(),
    ensures
        walking_in_time(after_tile(view, ctx.data.transfers@, round, tile, sources, n), ctx, round, destination, frame, all),
        walking_in_time(after_tile(view, ctx.data.transfers@, round, tile, sources, n), ctx, round, destination, frame, sources),
    decreases n,
{
    if n > 0 {
        tile_in_time(view, ctx, hub, tile, all, sources, round, destination, frame, n - 1);
        let before = after_tile(view, ctx.data.transfers@, round, tile, sources, n - 1);
        target_in_time(before, ctx, hub, tile, all, sources, n - 1, round, destination, frame);
    }
}

proof fn tiles_in_time(view: SearchView, ctx: SearchContext, hub: usize, all: Seq<WalkSource>, sources: Seq<WalkSource>, round: int, destination: int, frame: SearchFrame, n: int)
    requires
        search_ready(ctx),
        walking_in_time(view, ctx, round, destination, frame, all),
        walking_in_time(view, ctx, round, destination, frame, sources),
        round > 0,
        hub < ctx.data.transfer_index.hubs@.len(),
        forall|i: int| 0 <= i < sources.len() ==> ctx.data.transfer_index.stop_to_hub@[(#[trigger] sources[i]).0 as int] == hub,
        n <= ctx.data.transfer_index.hubs@[hub as int].outgoing_tiles@.len(),
    ensures
        ({
            let tiles = ctx.data.transfer_index.hubs@[hub as int].outgoing_tiles@;
            let after = after_tiles(view, ctx.data.transfers@, round, tiles, sources, n);
            walking_in_time(after, ctx, round, destination, frame, all) && walking_in_time(after, ctx, round, destination, frame, sources)
        }),
    decreases n,
{
    if n > 0 {
        let tiles = ctx.data.transfer_index.hubs@[hub as int].outgoing_tiles@;
        tiles_in_time(view, ctx, hub, all, sources, round, destination, frame, n - 1);
        let before = after_tiles(view, ctx.data.transfers@, round, tiles, sources, n - 1);
        let tile = tiles[n - 1];
        assert(tile_valid(
            ctx.data.transfer_index.hubs@[hub as int].outgoing_tiles@[n - 1],
            ctx.data.transfer_index.hubs@[hub as int].stop_indices@,
            ctx.data.transfers@,
            ctx.data.stops@.len() as int,
        ));
        tile_in_time(before, ctx, hub, tile, all, sources, round, destination, frame, tile.target_stop_indices@.len() as int);
    }
}

proof fn hub_sources_in_time(view: SearchView, ctx: SearchContext, hub: usize, sources: Seq<WalkSource>, round: int, n: int)
    requires
        sources_in_time(view, round, sources),
        0 <= n <= sources.len(),
    ensures
        sources_in_time(view, round, sources_of_hub(ctx.data.transfer_index, sources, hub, n)),
    decreases n,
{
    if n > 0 {
        hub_sources_in_time(view, ctx, hub, sources, round, n - 1);
        let before = sources_of_hub(ctx.data.transfer_index, sources, hub, n - 1);
        let after = sources_of_hub(ctx.data.transfer_index, sources, hub, n);
        assert forall|i: int| 0 <= i < after.len() implies ({
            &&& (#[trigger] after[i]).0 < view.best.len()
            &&& view.arrivals[round][after[i].0 as int] <= after[i].2 < INF_TIME
        }) by {
            if i < before.len() {
                assert(after[i] == before[i]);
            } else {
                assert(after[i] == sources[n - 1]);
            }
        }
    }
}

proof fn hubs_in_time(view: SearchView, ctx: SearchContext, sources: Seq<WalkSource>, hubs: Seq<usize>, round: int, destination: int, frame: SearchFrame, n: int)
    requires
        search_ready(ctx),
        walking_in_time(view, ctx, round, destination, frame, sources),
        round > 0,
        n <= hubs.len(),
        forall|i: int| 0 <= i < hubs.len() ==> (#[trigger] hubs[i]) < ctx.data.transfer_index.hubs@.len(),
    ensures
        walking_in_time(after_hubs(view, *ctx.data, round, sources, hubs, n), ctx, round, destination, frame, sources),
    decreases n,
{
    if n > 0 {
        hubs_in_time(view, ctx, sources, hubs, round, destination, frame, n - 1);
        let before = after_hubs(view, *ctx.data, round, sources, hubs, n - 1);
        let hub = hubs[n - 1];
        let own = sources_of_hub(ctx.data.transfer_index, sources, hub, sources.len() as int);
        sources_of_hub_valid(ctx.data.transfer_index, sources, hub, sources.len() as int);
        hub_sources_in_time(before, ctx, hub, sources, round, sources.len() as int);
        tiles_in_time(before, ctx, hub, sources, own, round, destination, frame, ctx.data.transfer_index.hubs@[hub as int].outgoing_tiles@.len() as int);
    }
}

proof fn source_hubs_exist(ctx: SearchContext, sources: Seq<WalkSource>, n: int)
    requires
        search_ready(ctx),
        sources_valid(ctx.data.transfer_index, sources),
        0 <= n <= sources.len(),
    ensures
        forall|i: int| 0 <= i < source_hubs(ctx.data.transfer_index, sources, n).len() ==> (#[trigger] source_hubs(ctx.data.transfer_index, sources, n)[i]) < ctx.data.transfer_index.hubs@.len(),
    decreases n,
{
    if n > 0 {
        source_hubs_exist(ctx, sources, n - 1);
        assert(sources[n - 1].0 < ctx.data.transfer_index.stop_to_hub@.len());
        assert(ctx.data.transfer_index.stop_to_hub@[sources[n - 1].0 as int] < ctx.data.transfer_index.hubs@.len());
        let before = source_hubs(ctx.data.transfer_index, sources, n - 1);
        let after = source_hubs(ctx.data.transfer_index, sources, n);
        assert forall|i: int| 0 <= i < after.len() implies (#[trigger] after[i]) < ctx.data.transfer_index.hubs@.len() by {
            if i < before.len() {
                assert(after[i] == before[i]);
            }
        }
    }
}

proof fn walk_sources_in_time(view: SearchView, ctx: SearchContext, round: int, bound: i32, frontier: Seq<usize>, n: int)
    requires
        search_ready(ctx),
        ctx.data.stops@.len() <= view.best.len(),
        0 <= n <= frontier.len(),
    ensures
        sources_in_time(view, round, walk_sources(ctx.data.transfer_index, view.arrivals[round], bound, frontier, n)),
        sources_valid(ctx.data.transfer_index, walk_sources(ctx.data.transfer_index, view.arrivals[round], bound, frontier, n)),
    decreases n,
{
    if n > 0 {
        walk_sources_in_time(view, ctx, round, bound, frontier, n - 1);
        let before = walk_sources(ctx.data.transfer_index, view.arrivals[round], bound, frontier, n - 1);
        let after = walk_sources(ctx.data.transfer_index, view.arrivals[round], bound, frontier, n);
        assert forall|i: int| 0 <= i < after.len() implies ({
            let source = #[trigger] after[i];
            &&& source.0 < view.best.len()
            &&& view.arrivals[round][source.0 as int] <= source.2 < INF_TIME
            &&& source.0 < ctx.data.transfer_index.stop_to_hub@.len()
            &&& source.1 == ctx.data.transfer_index.stop_to_hub_offset@[source.0 as int]
        }) by {
            if i < before.len() {
                assert(after[i] == before[i]);
            }
        }
    }
}

/// The walks of a round keep the labels in time.
pub proof fn walks_in_time(view: SearchView, ctx: SearchContext, destination: int, round: int, frame: SearchFrame, frontier: Seq<usize>)
    requires
        search_ready(ctx),
        round > 0,
        labels_in_time(view, ctx, round, destination, frame),
        ctx.data.stops@.len() <= view.best.len(),
    ensures
        labels_in_time(after_walks(view, *ctx.data, round, destination, frontier), ctx, round, destination, frame),
{
    let index = ctx.data.transfer_index;
    if frontier.len() > 0 && index.hubs@.len() > 0 {
        let bound = view.best[destination];
        let sources = walk_sources(index, view.arrivals[round], bound, frontier, frontier.len() as int);
        let m = view.metrics;
        let pruned = pruned_sources(index, view.arrivals[round], bound, frontier, frontier.len() as int);
        let begun = SearchView { metrics: RoundMetrics { destination_bound_prunes: counted(m.destination_bound_prunes, pruned), ..m }, ..view };
        work_takes_no_time(view, begun, ctx, round, destination, frame);
        walk_sources_in_time(begun, ctx, round, bound, frontier, frontier.len() as int);
        source_hubs_exist(ctx, sources, sources.len() as int);
        let hubs = source_hubs(index, sources, sources.len() as int);
        hubs_in_time(begun, ctx, sources, hubs, round, destination, frame, hubs.len() as int);
    }
}

/// Whether nothing is reached on foot before the search was begun.
pub open spec fn begun_first(view: SearchView) -> bool {
    forall|s: int| 0 <= s < view.best.len() ==> view.best[view.origin as int] <= #[trigger] view.arrivals[0][s]
}

/// Whether the labels of a search before its first ride fit the times.
pub open spec fn walked_in_time(view: SearchView, ctx: SearchContext, destination: int, frame: SearchFrame) -> bool {
    labels_in_time(view, ctx, 0, destination, frame) && begun_first(view)
}

proof fn first_walk_in_time(view: SearchView, ctx: SearchContext, destination: int, frame: SearchFrame, from_stop: usize, to_stop: int, departure: int, duration: i32, distance: Real)
    requires
        walked_in_time(view, ctx, destination, frame),
        from_stop < view.best.len(),
        0 <= to_stop < view.best.len(),
        view.arrivals[0][from_stop as int] <= departure <= INF_TIME,
        0 <= duration <= i32::MAX - INF_TIME,
    ensures
        ({
            let parent = ParentView::Walk { from_stop: from_stop, duration_secs: duration, distance_meters: distance };
            let after = with_improvement(view, 0, to_stop, (departure + duration) as i32, parent);
            &&& walked_in_time(after, ctx, destination, frame)
            &&& after.arrivals[0][from_stop as int] <= departure
        }),
{
    let parent = ParentView::Walk { from_stop: from_stop, duration_secs: duration, distance_meters: distance };
    assert(view.best[view.origin as int] <= view.arrivals[0][from_stop as int]);
    let arrival = (departure + duration) as i32;
    let after = with_improvement(view, 0, to_stop, arrival, parent);
    assert(view.parents[0].len() == view.best.len());
    assert(view.arrivals[0].len() == view.best.len());
    assert(view.best[to_stop] <= view.arrivals[0][to_stop]);
    if arrival < view.best[to_stop] {
        assert(after.parents[0][to_stop] == Some(parent));
        assert(after.arrivals[0][to_stop] == arrival);
        assert(view.best[from_stop as int] <= view.arrivals[0][from_stop as int]);
        assert(from_stop != to_stop);
        assert(to_stop != view.origin);
        assert(step_in_time(after, ctx, destination, 0, to_stop));
        assert forall|s: int| 0 <= s < after.best.len() implies after.best[after.origin as int] <= #[trigger] after.arrivals[0][s] by {
            assert(view.best[view.origin as int] <= view.arrivals[0][s]);
        }
    }
    improvement_in_time(view, ctx, 0, destination, frame, to_stop, arrival, parent);
}

proof fn first_walks_in_time(search: LocalSearch, ctx: SearchContext, walks: Seq<WalkTransfer>, from_stop: usize, departure: int, destination: int, frame: SearchFrame, n: int)
    requires
        walked_in_time(search.view, ctx, destination, frame),
        from_stop < search.view.best.len(),
        search.view.arrivals[0][from_stop as int] <= departure <= INF_TIME,
        n <= walks.len(),
        forall|i: int| 0 <= i < walks.len() ==> (#[trigger] walks[i]).to_stop < search.view.best.len() && 0 <= walks[i].duration_secs <= i32::MAX - INF_TIME,
    ensures
        walked_in_time(after_first_walks(search, walks, from_stop, departure, destination, n).view, ctx, destination, frame),
        after_first_walks(search, walks, from_stop, departure, destination, n).view.arrivals[0][from_stop as int] <= departure,
    decreases n,
{
    if n > 0 {
        first_walks_in_time(search, ctx, walks, from_stop, departure, destination, frame, n - 1);
        let before = after_first_walks(search, walks, from_stop, departure, destination, n - 1).view;
        let walk = walks[n - 1];
        first_walk_in_time(before, ctx, destination, frame, from_stop, walk.to_stop as int, departure, walk.duration_secs, walk.distance_meters);
    }
}

proof fn start_in_time(ctx: SearchContext, stops: int, rounds: int, origin: int, departure: i32, mark_origin: bool, destination: int)
    requires
        0 <= origin < stops <= usize::MAX,
        0 <= destination < stops,
        0 < rounds,
        departure <= INF_TIME,
    ensures
        walked_in_time(
            start_labels(stops, rounds, origin, departure, mark_origin),
            ctx,
            destination,
            SearchFrame { stops: stops, rounds: rounds, origin: origin as usize, start: departure },
        ),
{
    let view = start_labels(stops, rounds, origin, departure, mark_origin);
    start_labels_fit(stops, rounds, origin, departure, mark_origin);
    assert forall|r: int, s: int| 0 <= r < rounds && 0 <= s < stops implies #[trigger] step_in_time(view, ctx, destination, r, s) by {}
}

proof fn local_rounds_in_time(search: LocalSearch, ctx: SearchContext, destination: int, frame: SearchFrame, round: int, rounds: int)
    requires
        search_ready(ctx),
        departures_known(ctx),
        0 < round,
        rounds + 1 == frame.rounds,
        labels_in_time(search.view, ctx, round - 1, destination, frame),
        ctx.data.stops@.len() <= frame.stops,
    ensures
        ({
            let done = after_local_rounds(search, ctx, destination, round, rounds);
            exists|r: int| labels_in_time(done.view, ctx, r, destination, frame)
        }),
    decreases rounds + 1 - round,
{
    if round > rounds || search.marked.len() == 0 {
        assert(labels_in_time(search.view, ctx, round - 1, destination, frame));
    } else {
        rides_in_time(search.view, ctx, destination, round, frame, search.marked);
        let ridden = after_rides(search.view, ctx, destination, round, search.marked);
        walks_in_time(ridden, ctx, destination, round, frame, ridden.improved);
        local_rounds_in_time(after_local_round(search, ctx, destination, round), ctx, destination, frame, round + 1, rounds);
    }
}

/// A journey that is read back from labels in time is in time: each leg begins when
/// the one before it has ended, or later, and the first not before the search was
/// begun. (Where the search leads back to its origin, the labels of the origin are
/// those of the destination, and no time is known for the first.)
pub proof fn journeys_are_in_time(view: SearchView, ctx: SearchContext, now: int, destination: int, frame: SearchFrame, stop: int, round: int, steps: nat, begun: int)
    requires
        labels_in_time(view, ctx, now, destination, frame),
        0 <= stop < view.best.len(),
        view.best.len() <= usize::MAX,
        0 <= round < view.arrivals.len(),
        begun <= i32::MIN || (begun == frame.start && frame.origin != destination),
    ensures
        match path_back(view, ctx, frame.origin as int, stop, round, steps) {
            PathBack::Legs(legs) => {
                &&& in_time(legs, begun)
                &&& legs.len() > 0 ==> legs.last().arrival() == view.arrivals[round][stop]
                &&& legs.len() == 0 ==> stop == frame.origin && round == 0
                &&& view.parents[round][stop] is Some
            },
            PathBack::Failed(_) => true,
        },
    decreases steps,
{
    let origin = frame.origin as int;
    if !(stop == origin && round == 0) && steps > 0 {
        assert(step_in_time(view, ctx, destination, round, stop));
        let less = (steps - 1) as nat;
        match view.parents[round][stop] {
            None => {},
            Some(parent) => match parent {
                ParentView::Origin => {},
                ParentView::Walk { from_stop, duration_secs, distance_meters } => {
                    journeys_are_in_time(view, ctx, now, destination, frame, from_stop as int, round, less, begun);
                    let arrival = view.arrivals[round][stop];
                    let between = view.arrivals[round][from_stop as int] as int;
                    let leg = CachedLeg::Walk {
                        from_stop: from_stop,
                        to_stop: stop as usize,
                        departure_secs: saturated_sum(arrival as int, -(duration_secs as int)) as i32,
                        arrival_secs: arrival,
                        duration_secs: duration_secs,
                        distance_meters: distance_meters,
                    };
                    assert(in_time(seq![leg], between));
                    match path_back(view, ctx, origin, from_stop as int, round, less) {
                        PathBack::Legs(before) => going_on_in_time(before, seq![leg], begun, between),
                        PathBack::Failed(_) => {},
                    }
                },
                ParentView::Transit { trip_index, board_stop, board_pos, alight_stop, alight_pos } => {
                    journeys_are_in_time(view, ctx, now, destination, frame, board_stop as int, round - 1, less, begun);
                    let between = view.arrivals[round - 1][board_stop as int] as int;
                    let leg = CachedLeg::Transit {
                        trip_index: trip_index,
                        board_stop: board_stop,
                        board_pos: board_pos,
                        alight_stop: alight_stop,
                        alight_pos: alight_pos,
                        departure_secs: departure_with_delay(ctx.realtime@, ctx.data.trips@, trip_index as int, board_pos as int) as i32,
                        arrival_secs: view.arrivals[round][alight_stop as int],
                    };
                    match path_back(view, ctx, origin, board_stop as int, round - 1, less) {
                        PathBack::Legs(before) => {
                            assert(in_time(seq![leg], between));
                            going_on_in_time(before, seq![leg], begun, between);
                        },
                        PathBack::Failed(_) => {},
                    }
                },
                ParentView::Memoized { from_stop, source_round, legs } => {
                    journeys_are_in_time(view, ctx, now, destination, frame, from_stop as int, source_round as int, less, begun);
                    let between = view.arrivals[source_round as int][from_stop as int] as int;
                    match path_back(view, ctx, origin, from_stop as int, source_round as int, less) {
                        PathBack::Legs(before) => going_on_in_time(before, legs, begun, between),
                        PathBack::Failed(_) => {},
                    }
                },
            },
        }
    }
}

/// A journey between two stops is in time: it begins at the time asked for, or later,
/// and ends when it says.
pub proof fn local_journeys_are_in_time(ctx: SearchContext, from_stop: usize, to_stop: usize, departure: i32, rounds: int)
    requires
        search_ready(ctx),
        departures_known(ctx),
        from_stop < ctx.data.stops@.len(),
        to_stop < ctx.data.stops@.len(),
        departure <= INF_TIME,
        0 <= rounds,
    ensures
        match local_journey(ctx, from_stop, to_stop, departure, rounds) {
            Some(local) => {
                &&& in_time(local.legs, departure as int)
                &&& done_at(local.legs, departure as int) == local.arrival_secs
                &&& local.arrival_secs <= INF_TIME
            },
            None => true,
        },
{
    if from_stop != to_stop {
        let stops = ctx.data.stops@.len() as int;
        assert(stops == ctx.data.stops.len());
        let frame = SearchFrame { stops: stops, rounds: rounds + 1, origin: from_stop, start: departure };
        let labels = start_labels(stops, rounds + 1, from_stop as int, departure, true);
        start_in_time(ctx, stops, rounds + 1, from_stop as int, departure, true, to_stop as int);
        let walks = ctx.data.transfers@[from_stop as int]@;
        let start = LocalSearch { view: labels, marked: Seq::empty(), reached: None };
        assert forall|i: int| 0 <= i < walks.len() implies (#[trigger] walks[i]).to_stop < stops && 0 <= walks[i].duration_secs <= i32::MAX - INF_TIME by {
            assert(ctx.data.transfers@[from_stop as int]@[i].to_stop < stops);
        }
        first_walks_in_time(start, ctx, walks, from_stop, departure as int, to_stop as int, frame, walks.len() as int);
        let walked = after_first_walks(start, walks, from_stop, departure as int, to_stop as int, walks.len() as int);
        let begun = LocalSearch { marked: walked.view.improved, ..walked };
        local_rounds_in_time(begun, ctx, to_stop as int, frame, 1, rounds);
        let done = after_local_rounds(begun, ctx, to_stop as int, 1, rounds);
        let now = choose|r: int| labels_in_time(done.view, ctx, r, to_stop as int, frame);
        first_walks_reach(start, walks, from_stop, departure as int, to_stop as int, walks.len() as int);
        local_rounds_reach(begun, ctx, to_stop as int, 1, rounds);
        match done.reached {
            None => {},
            Some(round) => journeys_are_in_time(done.view, ctx, now, to_stop as int, frame, to_stop as int, round, label_count(done.view), departure as int),
        }
    }
}

proof fn first_walks_reach(search: LocalSearch, walks: Seq<WalkTransfer>, from_stop: usize, departure: int, destination: int, n: int)
    requires
        search.reached is Some ==> search.reached->0 == 0,
    ensures
        ({
            let reached = after_first_walks(search, walks, from_stop, departure, destination, n).reached;
            reached is Some ==> reached->0 == 0
        }),
    decreases n,
{
    if n > 0 {
        first_walks_reach(search, walks, from_stop, departure, destination, n - 1);
    }
}

proof fn local_rounds_reach(search: LocalSearch, ctx: SearchContext, destination: int, round: int, rounds: int)
    requires
        0 <= round,
        0 <= rounds,
        search.reached is Some ==> 0 <= search.reached->0 <= rounds,
    ensures
        ({
            let reached = after_local_rounds(search, ctx, destination, round, rounds).reached;
            reached is Some ==> 0 <= reached->0 <= rounds
        }),
    decreases rounds + 1 - round,
{
    if !(round > rounds || search.marked.len() == 0) {
        local_rounds_reach(after_local_round(search, ctx, destination, round), ctx, destination, round + 1, rounds);
    }
}

/// Legs that were done with at a time put at the end of the way to a stop keep the
/// labels in time.
proof fn memo_in_time(
    reach: Reach,
    ctx: SearchContext,
    round: int,
    destination: int,
    frame: SearchFrame,
    source_stop: usize,
    source_round: usize,
    target_round: int,
    arrival: int,
    legs: Seq<CachedLeg>,
)
    requires
        labels_in_time(reach.view, ctx, round, destination, frame),
        round <= target_round < frame.rounds,
        source_stop < frame.stops,
        source_round < frame.rounds,
        in_time(legs, reach.view.arrivals[source_round as int][source_stop as int] as int),
        legs.len() > 0,
        legs.last().arrival() == arrival,
    ensures
        ({
            let after = with_memo(reach, destination, source_stop, source_round, target_round, arrival, legs).view;
            &&& labels_in_time(after, ctx, round, destination, frame)
            &&& after.arrivals[source_round as int][source_stop as int] <= reach.view.arrivals[source_round as int][source_stop as int]
        }),
{
    let view = reach.view;
    let after = with_memo(reach, destination, source_stop, source_round, target_round, arrival, legs).view;
    let stops = frame.stops;
    let rounds = frame.rounds;
    if replaces(reach, destination, arrival, target_round) {
        assert(view.best[destination] <= INF_TIME);
        assert(view.parents[target_round].len() == stops);
        assert(view.arrivals[target_round].len() == stops);
        assert forall|r: int| 0 <= r < rounds implies (#[trigger] after.arrivals[r]).len() == stops by {
            assert(view.arrivals[r].len() == stops);
        }
        assert forall|r: int| 0 <= r < rounds implies (#[trigger] after.parents[r]).len() == stops by {
            assert(view.parents[r].len() == stops);
        }
        assert forall|i: int| 0 <= i < after.improved.len() implies (#[trigger] after.improved[i]) < stops by {
            assert(view.improved[i] < stops);
        }
        assert forall|s: int| 0 <= s < stops implies (#[trigger] after.best[s]) <= INF_TIME by {
            assert(view.best[s] <= INF_TIME);
        }
        assert forall|r: int, s: int| 0 <= r < rounds && 0 <= s < stops implies (#[trigger] after.arrivals[r][s]) <= INF_TIME by {
            assert(view.arrivals[r][s] <= INF_TIME);
        }
        assert forall|r: int, s: int| 0 <= r < rounds && 0 <= s < stops implies after.best[s] <= #[trigger] after.arrivals[r][s] by {
            assert(view.best[s] <= view.arrivals[r][s]);
        }
        assert forall|s: int| 0 <= s < stops && s != destination && (#[trigger] after.parents[round][s]) is Some implies after.arrivals[round][s] == after.best[s] by {
            assert(view.parents[round][s] == after.parents[round][s]);
        }
        assert forall|r: int, s: int| round < r < rounds && 0 <= s < stops implies #[trigger] not_yet(after, destination, r, s) by {
            assert(not_yet(view, destination, r, s));
        }
        assert forall|q: int, t: int| 0 <= q < rounds && 0 <= t < stops implies #[trigger] after.arrivals[q][t] <= view.arrivals[q][t] by {
            assert(view.best[t] <= view.arrivals[q][t]);
        }
        assert forall|r: int, s: int| 0 <= r < rounds && 0 <= s < stops implies #[trigger] step_in_time(after, ctx, destination, r, s) by {
            assert(step_in_time(view, ctx, destination, r, s));
            if r == target_round && s == destination {
                assert(after.arrivals[source_round as int][source_stop as int] <= view.arrivals[source_round as int][source_stop as int]);
            } else {
                assert(after.parents[r][s] == view.parents[r][s]);
                assert(after.arrivals[r][s] == view.arrivals[r][s]);
                match after.parents[r][s] {
                    None => {},
                    Some(step) => match step {
                        ParentView::Transit { board_stop, .. } => {
                            assert(after.parents[r - 1][board_stop as int] == view.parents[r - 1][board_stop as int]);
                        },
                        ParentView::Memoized { from_stop, source_round, legs } => {
                            assert(after.arrivals[source_round as int][from_stop as int] <= view.arrivals[source_round as int][from_stop as int]);
                        },
                        ParentView::Walk { from_stop, .. } => {
                            assert(after.arrivals[r][from_stop as int] <= view.arrivals[r][from_stop as int]);
                        },
                        ParentView::Origin => {},
                    },
                }
            }
        }
    }
}

proof fn egress_in_time(reach: Reach, ctx: SearchContext, goal: LookaheadGoal, frame: SearchFrame, round: int, stops: Seq<usize>, n: int)
    requires
        labels_in_time(reach.view, ctx, round, goal.destination_stop as int, frame),
        goal.fits(ctx, frame.stops, frame.rounds),
        forall|i: int| 0 <= i < stops.len() ==> (#[trigger] stops[i]) < frame.stops,
        n <= stops.len(),
    ensures
        labels_in_time(after_egress(reach, goal.destination_stop as int, round, stops, goal.destination_egress_edges@, n).view, ctx, round, goal.destination_stop as int, frame),
    decreases n,
{
    if n > 0 {
        let walks = goal.destination_egress_edges@;
        egress_in_time(reach, ctx, goal, frame, round, stops, n - 1);
        let before = after_egress(reach, goal.destination_stop as int, round, stops, walks, n - 1);
        let stop = stops[n - 1];
        let ready_at = before.view.arrivals[round][stop as int];
        first_walk_in_range(walks, stop, 0);
        match first_walk_from(walks, stop, 0) {
            None => {},
            Some(i) => if ready_at < INF_TIME {
                let leg = egress_leg(walks[i], ready_at as int);
                assert(0 <= walks[i].duration_secs <= i32::MAX - INF_TIME);
                assert(seq![leg].last() == leg);
                memo_in_time(
                    before,
                    ctx,
                    round,
                    goal.destination_stop as int,
                    frame,
                    stop,
                    round as usize,
                    round,
                    ready_at + walks[i].duration_secs,
                    seq![leg],
                );
            },
        }
    }
}

/// Whether a remembered journey is in time for a traveller who is ready at the last
/// moment, and ends when it says.
pub open spec fn profile_in_time(profile: MatchView) -> bool {
    in_time(profile.trunk_legs, profile.latest_ready_secs as int) && legs_arrive(profile.trunk_legs, profile.boundary_arrival_secs as int)
}

/// Whether the remembered journeys are in time.
pub open spec fn memory_in_time(view: CacheView) -> bool {
    &&& forall|key: StoreKey, i: int| view.exact.dom().contains(key) && 0 <= i < view.exact[key].len() ==> profile_in_time((#[trigger] view.exact[key][i]).profile)
    &&& forall|key: StoreKey, i: int| view.spatial.dom().contains(key) && 0 <= i < view.spatial[key].len() ==> profile_in_time((#[trigger] view.spatial[key][i]).profile)
}

/// Whether the journeys of a prepared lookup are in time.
pub open spec fn surface_in_time(surface: PreparedSpatialLookup) -> bool {
    forall|s: int, i: int| 0 <= s < surface.enabled_source_stops@.len() && 0 <= i < surface.matches_by_source_stop@[s]@.len() ==> profile_in_time(
        (#[trigger] surface.matches_by_source_stop@[s]@[i])@,
    )
}

/// Whether a query under way fits the times: the labels do, and so does all that
/// it may ask for.
pub open spec fn look_in_time(look: Look, ctx: SearchContext, goal: LookaheadGoal, frame: SearchFrame, round: int, stop: usize, ready_at: i32) -> bool {
    &&& search_ready(ctx)
    &&& departures_known(ctx)
    &&& labels_in_time(look.reach.view, ctx, round, goal.destination_stop as int, frame)
    &&& goal.fits(ctx, frame.stops, frame.rounds)
    &&& stop < frame.stops
    &&& look.reach.view.arrivals[round][stop as int] <= ready_at
}

proof fn finish_in_time(look: Look, ctx: SearchContext, goal: LookaheadGoal, frame: SearchFrame, stop: usize, round: int, ready_at: i32, rides: usize, arrival: int, legs: Seq<CachedLeg>)
    requires
        look_in_time(look, ctx, goal, frame, round, stop, ready_at),
        in_time(legs, ready_at as int),
        legs_arrive(legs, arrival),
    ensures
        look_in_time(with_finish(look, goal, stop, round, rides, arrival, legs).0, ctx, goal, frame, round, stop, ready_at),
{
    let target = round + rides;
    if target <= goal.max_rounds {
        memo_in_time(look.reach, ctx, round, goal.destination_stop as int, frame, stop, round as usize, target, arrival, legs);
    }
}

/// What is found feasible is.
pub proof fn found_feasible(points: Seq<PointView>, ready_at: i32, remaining: usize, n: int)
    requires
        0 <= n <= points.len(),
    ensures
        match best_feasible(points, ready_at, remaining, n) {
            Some(i) => 0 <= i < n && feasible(points[i].profile, ready_at, remaining),
            None => true,
        },
    decreases n,
{
    if n > 0 {
        found_feasible(points, ready_at, remaining, n - 1);
    }
}

proof fn exact_in_time(look: Look, ctx: SearchContext, memory: CacheView, goal: LookaheadGoal, frame: SearchFrame, stop: usize, round: int, ready_at: i32)
    requires
        look_in_time(look, ctx, goal, frame, round, stop, ready_at),
        memory_in_time(memory),
        memory.summaries.dom().subset_of(memory.exact.dom()),
    ensures
        look_in_time(after_exact(look, memory, goal, stop, round, ready_at).0, ctx, goal, frame, round, stop, ready_at),
{
    match goal.exact_destination_stop {
        None => {},
        Some(destination) => {
            let t = look.tally;
            let remaining = rides_after(goal, round);
            let key = profile_key(goal.service_date, destination as int, stop as int);
            let bound = look.reach.view.best[goal.destination_stop as int];
            let asked = Look {
                tally: LookaheadTally { profile_lookups: counted(t.profile_lookups, 1), ..t },
                counters: CacheCounters { exact_lookups: wrapped(look.counters.exact_lookups, 1), ..look.counters },
                ..look
            };
            match lookup_found(memory, key, ready_at, remaining, bound) {
                LookupView::Match { arrival_secs, transit_legs, absolute_min_duration_secs, absolute_min_transfers, suffix_legs } => {
                    let points = memory.exact[key];
                    found_feasible(points, ready_at, remaining, points.len() as int);
                    let i = best_feasible(points, ready_at, remaining, points.len() as int)->0;
                    assert(memory.exact.dom().contains(key));
                    assert(profile_in_time(memory.exact[key][i].profile));
                    let counters = CacheCounters { exact_hits: wrapped(asked.counters.exact_hits, 1), ..asked.counters };
                    let hit = Look { tally: LookaheadTally { profile_hits: counted(t.profile_hits, 1), ..asked.tally }, counters: counters, ..asked };
                    finish_in_time(hit, ctx, goal, frame, stop, round, ready_at, transit_legs, arrival_secs as int, suffix_legs);
                },
                _ => {},
            }
        },
    }
}

proof fn completion_in_time(ctx: SearchContext, goal: LookaheadGoal, frame: SearchFrame, found: MatchView, remaining: usize, ready_at: i32, n: int)
    requires
        search_ready(ctx),
        departures_known(ctx),
        goal.fits(ctx, frame.stops, frame.rounds),
        n <= goal.destination_egress_edges@.len(),
        found.boundary_stop < ctx.data.stops@.len(),
        found.boundary_arrival_secs <= INF_TIME,
        profile_in_time(found),
        ready_at <= found.latest_ready_secs,
    ensures
        match best_completion(ctx, goal.destination_stop, found, remaining, goal.destination_egress_edges@, n) {
            Some(best) => in_time(best.legs, ready_at as int) && legs_arrive(best.legs, best.arrival_secs),
            None => true,
        },
    decreases n,
{
    if n > 0 {
        completion_in_time(ctx, goal, frame, found, remaining, ready_at, n - 1);
        let walk = goal.destination_egress_edges@[n - 1];
        let over = found.boundary_arrival_secs;
        let rides = rides_left(remaining, found.transit_legs) as int;
        local_journeys_are_in_time(ctx, found.boundary_stop, walk.from_stop, over, rides);
        match local_journey(ctx, found.boundary_stop, walk.from_stop, over, rides) {
            None => {},
            Some(local) => {
                let arrival = local.arrival_secs + walk.duration_secs;
                let last = CachedLeg::Walk {
                    from_stop: walk.from_stop,
                    to_stop: goal.destination_stop,
                    departure_secs: local.arrival_secs,
                    arrival_secs: arrival as i32,
                    duration_secs: walk.duration_secs,
                    distance_meters: walk.distance_meters,
                };
                let shorter = found.trunk_legs + local.legs;
                let legs = shorter.push(last);
                going_on_in_time(found.trunk_legs, local.legs, ready_at as int, over as int);
                going_on_in_time(shorter, seq![last], ready_at as int, local.arrival_secs as int);
                assert(shorter + seq![last] =~= legs);
                assert(legs.last() == last);
                assert(legs_arrive(legs, arrival as int));
            },
        }
    }
}

proof fn match_in_time(look: Look, ctx: SearchContext, goal: LookaheadGoal, frame: SearchFrame, stop: usize, round: int, ready_at: i32, found: MatchView, hit: bool)
    requires
        look_in_time(look, ctx, goal, frame, round, stop, ready_at),
        profile_in_time(found),
        found.boundary_stop < ctx.data.stops@.len(),
    ensures
        look_in_time(after_match(look, ctx, goal, stop, round, ready_at, found, hit).0, ctx, goal, frame, round, stop, ready_at),
{
    let remaining = rides_after(goal, round);
    let bound = look.reach.view.best[goal.destination_stop as int];
    let t = look.tally;
    assert(bound <= INF_TIME);
    let counted_look = if hit {
        look
    } else {
        Look { tally: LookaheadTally { flat_spatial_mask_hits: counted(t.flat_spatial_mask_hits, 1), profile_hits: counted(t.profile_hits, 1), ..t }, ..look }
    };
    if ready_at <= found.latest_ready_secs && found.boundary_arrival_secs < bound {
        let over = found.boundary_arrival_secs;
        let rides = rides_left(remaining, found.transit_legs) as int;
        let walks = goal.destination_egress_edges@;
        if walks.len() == 0 {
            match goal.exact_destination_stop {
                None => {},
                Some(destination) => {
                    local_journeys_are_in_time(ctx, found.boundary_stop, destination, over, rides);
                    match local_journey(ctx, found.boundary_stop, destination, over, rides) {
                        None => {},
                        Some(local) => {
                            let legs = found.trunk_legs + local.legs;
                            going_on_in_time(found.trunk_legs, local.legs, ready_at as int, over as int);
                            finish_in_time(
                                counted_look,
                                ctx,
                                goal,
                                frame,
                                stop,
                                round,
                                ready_at,
                                counted(found.transit_legs, local.transit_legs as int),
                                local.arrival_secs as int,
                                legs,
                            );
                        },
                    }
                },
            }
        } else {
            completion_in_time(ctx, goal, frame, found, remaining, ready_at, walks.len() as int);
            match best_completion(ctx, goal.destination_stop, found, remaining, walks, walks.len() as int) {
                None => {},
                Some(best) => finish_in_time(counted_look, ctx, goal, frame, stop, round, ready_at, best.transit_legs, best.arrival_secs, best.legs),
            }
        }
    }
}

proof fn matches_in_time(look: Look, ctx: SearchContext, goal: LookaheadGoal, frame: SearchFrame, stop: usize, round: int, ready_at: i32, found: Seq<MatchView>, i: int, hit: bool)
    requires
        look_in_time(look, ctx, goal, frame, round, stop, ready_at),
        0 <= i,
        forall|k: int| 0 <= k < found.len() ==> profile_in_time(#[trigger] found[k]) && found[k].boundary_stop < ctx.data.stops@.len(),
    ensures
        look_in_time(after_matches(look, ctx, goal, stop, round, ready_at, found, i, hit), ctx, goal, frame, round, stop, ready_at),
    decreases found.len() - i,
{
    if i < found.len() {
        match_in_time(look, ctx, goal, frame, stop, round, ready_at, found[i], hit);
        let step = after_match(look, ctx, goal, stop, round, ready_at, found[i], hit);
        if !step.1 {
            matches_in_time(step.0, ctx, goal, frame, stop, round, ready_at, found, i + 1, step.2);
        }
    }
}

proof fn lookahead_in_time(look: Look, ctx: SearchContext, memory: CacheView, goal: LookaheadGoal, frame: SearchFrame, round: int, stops: Seq<usize>, n: int)
    requires
        search_ready(ctx),
        departures_known(ctx),
        labels_in_time(look.reach.view, ctx, round, goal.destination_stop as int, frame),
        goal.fits(ctx, frame.stops, frame.rounds),
        memory_in_time(memory),
        memory.summaries.dom().subset_of(memory.exact.dom()),
        surface_in_time(*goal.surface),
        forall|i: int| 0 <= i < stops.len() ==> (#[trigger] stops[i]) < frame.stops,
        n <= stops.len(),
    ensures
        labels_in_time(after_lookahead(look, ctx, memory, goal, round, stops, n).reach.view, ctx, round, goal.destination_stop as int, frame),
    decreases n,
{
    if n > 0 {
        lookahead_in_time(look, ctx, memory, goal, frame, round, stops, n - 1);
        let before = after_lookahead(look, ctx, memory, goal, round, stops, n - 1);
        let stop = stops[n - 1];
        let ready_at = before.reach.view.arrivals[round][stop as int];
        if ready_at < INF_TIME {
            exact_in_time(before, ctx, memory, goal, frame, stop, round, ready_at);
            let exact = after_exact(before, memory, goal, stop, round, ready_at);
            let surface = *goal.surface;
            if !exact.1 && stop < surface.enabled_source_stops@.len() {
                let row = surface.matches_by_source_stop@[stop as int]@;
                let found = matches_view(row);
                assert forall|k: int| 0 <= k < found.len() implies profile_in_time(#[trigger] found[k]) && found[k].boundary_stop < ctx.data.stops@.len() by {
                    assert(found[k] == surface.matches_by_source_stop@[stop as int]@[k]@);
                }
                let t = exact.0.tally;
                let asked = Look {
                    tally: LookaheadTally {
                        profile_lookups: counted(t.profile_lookups, 1),
                        flat_spatial_mask_checks: counted(t.flat_spatial_mask_checks, 1),
                        ..t
                    },
                    ..exact.0
                };
                matches_in_time(asked, ctx, goal, frame, stop, round, ready_at, found, 0, false);
            }
        }
    }
}

/// Whether a query can be run in time: it knows when trips depart, and all that is
/// remembered is in time.
pub open spec fn query_in_time(ctx: SearchContext, memory: CacheView, goal: LookaheadGoal, frame: SearchFrame) -> bool {
    &&& search_ready(ctx)
    &&& departures_known(ctx)
    &&& goal.fits(ctx, frame.stops, frame.rounds)
    &&& ctx.data.stops@.len() <= frame.stops
    &&& memory_in_time(memory)
    &&& memory.summaries.dom().subset_of(memory.exact.dom())
    &&& surface_in_time(*goal.surface)
}

proof fn finishing_in_time(look: Look, ctx: SearchContext, memory: CacheView, goal: LookaheadGoal, frame: SearchFrame, round: int, stops: Seq<usize>)
    requires
        query_in_time(ctx, memory, goal, frame),
        labels_in_time(look.reach.view, ctx, round, goal.destination_stop as int, frame),
        forall|i: int| 0 <= i < stops.len() ==> (#[trigger] stops[i]) < frame.stops,
    ensures
        labels_in_time(after_finishing(look, ctx, memory, goal, round, stops).reach.view, ctx, round, goal.destination_stop as int, frame),
{
    let walks = goal.destination_egress_edges@;
    let n = stops.len() as int;
    egress_in_time(look.reach, ctx, goal, frame, round, stops, n);
    let walked = if walks.len() > 0 {
        Look { reach: after_egress(look.reach, goal.destination_stop as int, round, stops, walks, n), ..look }
    } else {
        look
    };
    lookahead_in_time(walked, ctx, memory, goal, frame, round, stops, n);
    let asked = after_lookahead(walked, ctx, memory, goal, round, stops, n);
    let done = after_finishing(look, ctx, memory, goal, round, stops);
    work_takes_no_time(asked.reach.view, done.reach.view, ctx, round, goal.destination_stop as int, frame);
}

proof fn walking_on_in_time(first: Look, ctx: SearchContext, memory: CacheView, goal: LookaheadGoal, frame: SearchFrame, round: int, frontier: Seq<usize>)
    requires
        query_in_time(ctx, memory, goal, frame),
        0 < round < frame.rounds,
        labels_in_time(first.reach.view, ctx, round, goal.destination_stop as int, frame),
    ensures
        ({
            let walked = after_walks(first.reach.view, *ctx.data, round, goal.destination_stop as int, frontier);
            let begun = Look { reach: Reach { view: walked, ..first.reach }, ..first };
            let rest = walked.improved.skip(frontier.len() as int);
            &&& labels_in_time(walked, ctx, round, goal.destination_stop as int, frame)
            &&& walked.improved.len() > frontier.len() ==> labels_in_time(
                after_finishing(begun, ctx, memory, goal, round, rest).reach.view,
                ctx,
                round,
                goal.destination_stop as int,
                frame,
            )
        }),
{
    let destination = goal.destination_stop as int;
    walks_in_time(first.reach.view, ctx, destination, round, frame, frontier);
    let walked = after_walks(first.reach.view, *ctx.data, round, destination, frontier);
    let rest = walked.improved.skip(frontier.len() as int);
    if walked.improved.len() > frontier.len() {
        assert forall|i: int| 0 <= i < rest.len() implies (#[trigger] rest[i]) < frame.stops by {
            assert(rest[i] == walked.improved[frontier.len() + i]);
        }
        finishing_in_time(Look { reach: Reach { view: walked, ..first.reach }, ..first }, ctx, memory, goal, frame, round, rest);
    }
}

proof fn riding_on_in_time(begun: Look, ctx: SearchContext, memory: CacheView, goal: LookaheadGoal, frame: SearchFrame, round: int, before: SearchView, marked: Seq<usize>)
    requires
        query_in_time(ctx, memory, goal, frame),
        0 < round < frame.rounds,
        labels_in_time(before, ctx, round - 1, goal.destination_stop as int, frame),
        begun.reach.view == after_rides(before, ctx, goal.destination_stop as int, round, marked),
    ensures
        labels_in_time(begun.reach.view, ctx, round, goal.destination_stop as int, frame),
        labels_in_time(after_finishing(begun, ctx, memory, goal, round, begun.reach.view.improved).reach.view, ctx, round, goal.destination_stop as int, frame),
{
    rides_in_time(before, ctx, goal.destination_stop as int, round, frame, marked);
    finishing_in_time(begun, ctx, memory, goal, frame, round, begun.reach.view.improved);
}

#[verifier::spinoff_prover]
#[verifier::rlimit(40)]
proof fn travel_in_time(run: QueryRun, ctx: SearchContext, memory: CacheView, goal: LookaheadGoal, frame: SearchFrame, round: int)
    requires
        query_in_time(ctx, memory, goal, frame),
        0 < round < frame.rounds,
        labels_in_time(run.reach.view, ctx, round - 1, goal.destination_stop as int, frame),
    ensures
        labels_in_time(after_travel(run, ctx, memory, goal, round).reach.view, ctx, round, goal.destination_stop as int, frame),
{
    let destination = goal.destination_stop as int;
    let best = run.reach.view.best;
    let prunes = queue_prunes(best, best[destination], run.marked, run.marked.len() as int);
    let tally = LookaheadTally { destination_bound_prunes: counted(run.tally.destination_bound_prunes, prunes), ..run.tally };
    let ridden = after_rides(run.reach.view, ctx, destination, round, run.marked);
    let frontier = ridden.improved;
    let begun = Look { reach: Reach { view: ridden, round: run.reach.round }, tally: tally, counters: run.counters };
    riding_on_in_time(begun, ctx, memory, goal, frame, round, run.reach.view, run.marked);
    let first = if frontier.len() > 0 { after_finishing(begun, ctx, memory, goal, round, frontier) } else { begun };
    walking_on_in_time(first, ctx, memory, goal, frame, round, frontier);
}

/// Whether the labels of a search after some round fit the times.
#[verifier::opaque]
pub open spec fn search_in_time(view: SearchView, ctx: SearchContext, destination: int, frame: SearchFrame) -> bool {
    exists|r: int| labels_in_time(view, ctx, r, destination, frame)
}

proof fn round_in_time(run: QueryRun, ctx: SearchContext, memory: CacheView, goal: LookaheadGoal, frame: SearchFrame, round: int)
    requires
        query_in_time(ctx, memory, goal, frame),
        0 < round < frame.rounds,
        labels_in_time(run.reach.view, ctx, round - 1, goal.destination_stop as int, frame),
    ensures
        labels_in_time(after_query_round(run, ctx, memory, goal, round).reach.view, ctx, round, goal.destination_stop as int, frame),
{
    travel_in_time(run, ctx, memory, goal, frame, round);
    let look = after_travel(run, ctx, memory, goal, round);
    let next = after_query_round(run, ctx, memory, goal, round);
    assert(next.reach.view == SearchView { improved: Seq::empty(), ..look.reach.view });
    assert(next.reach.view.wf(frame.stops, frame.rounds));
    work_takes_no_time(look.reach.view, next.reach.view, ctx, round, goal.destination_stop as int, frame);
}

proof fn rounds_in_time(run: QueryRun, ctx: SearchContext, memory: CacheView, goal: LookaheadGoal, frame: SearchFrame, round: int)
    requires
        query_in_time(ctx, memory, goal, frame),
        goal.max_rounds + 1 == frame.rounds,
        0 < round,
        labels_in_time(run.reach.view, ctx, round - 1, goal.destination_stop as int, frame),
    ensures
        search_in_time(after_query_rounds(run, ctx, memory, goal, round).reach.view, ctx, goal.destination_stop as int, frame),
    decreases goal.max_rounds + 1 - round,
{
    if round > goal.max_rounds || run.marked.len() == 0 {
        reveal(search_in_time);
    } else {
        round_in_time(run, ctx, memory, goal, frame, round);
        rounds_in_time(after_query_round(run, ctx, memory, goal, round), ctx, memory, goal, frame, round + 1);
    }
}

proof fn access_in_time(search: LocalSearch, ctx: SearchContext, edges: Seq<QueryVirtualWalk>, departure: int, destination: int, frame: SearchFrame, n: int)
    requires
        walked_in_time(search.view, ctx, destination, frame),
        search.view.arrivals[0][frame.origin as int] <= departure <= INF_TIME,
        query_walks_valid(edges, frame.stops),
        forall|i: int| 0 <= i < edges.len() ==> (#[trigger] edges[i]).to_stop < ctx.data.stops@.len() && edges[i].from_stop == frame.origin,
        forall|i: int| 0 <= i < search.view.improved.len() ==> (#[trigger] search.view.improved[i]) < ctx.data.stops@.len(),
        n <= edges.len(),
    ensures
        ({
            let after = after_access(search, edges, departure, destination, n).view;
            &&& walked_in_time(after, ctx, destination, frame)
            &&& after.arrivals[0][frame.origin as int] <= departure
            &&& forall|i: int| 0 <= i < after.improved.len() ==> (#[trigger] after.improved[i]) < ctx.data.stops@.len()
        }),
    decreases n,
{
    if n > 0 {
        access_in_time(search, ctx, edges, departure, destination, frame, n - 1);
        let before = after_access(search, edges, departure, destination, n - 1).view;
        let after = after_access(search, edges, departure, destination, n).view;
        let edge = edges[n - 1];
        first_walk_in_time(before, ctx, destination, frame, edge.from_stop, edge.to_stop as int, departure, edge.duration_secs, edge.distance_meters);
        assert forall|i: int| 0 <= i < after.improved.len() implies (#[trigger] after.improved[i]) < ctx.data.stops@.len() by {
            if i < before.improved.len() {
                assert(after.improved[i] == before.improved[i]);
            }
        }
    }
}

proof fn seeds_in_time(search: LocalSearch, ctx: SearchContext, seeds: Seq<usize>, destination: int, frame: SearchFrame, n: int)
    requires
        search_ready(ctx),
        walked_in_time(search.view, ctx, destination, frame),
        ctx.data.stops@.len() <= frame.stops,
        forall|i: int| 0 <= i < seeds.len() ==> (#[trigger] seeds[i]) < ctx.data.stops@.len(),
        n <= seeds.len(),
    ensures
        walked_in_time(after_seeds(search, *ctx.data, seeds, destination, n).view, ctx, destination, frame),
    decreases n,
{
    if n > 0 {
        seeds_in_time(search, ctx, seeds, destination, frame, n - 1);
        let before = after_seeds(search, *ctx.data, seeds, destination, n - 1);
        let stop = seeds[n - 1];
        let arrival = before.view.arrivals[0][stop as int];
        if arrival < INF_TIME && arrival < before.view.best[destination] {
            let walks = ctx.data.transfers@[stop as int]@;
            assert forall|i: int| 0 <= i < walks.len() implies (#[trigger] walks[i]).to_stop < before.view.best.len() && 0 <= walks[i].duration_secs <= i32::MAX - INF_TIME by {
                assert(ctx.data.transfers@[stop as int]@[i].to_stop < ctx.data.stops@.len());
            }
            first_walks_in_time(before, ctx, walks, stop, arrival as int, destination, frame, walks.len() as int);
        }
    }
}

/// The frame of the search for a plan.
pub open spec fn plan_frame(data: StaticData, plan: QueryPlan, departure: i32, max_rounds: int) -> SearchFrame {
    SearchFrame { stops: place_count(data, plan), rounds: max_rounds + 1, origin: plan.from_index, start: departure }
}

proof fn walked_start_in_time(ctx: SearchContext, plan: QueryPlan, departure: i32, rounds: int)
    requires
        search_ready(ctx),
        plan_valid(*ctx.data, plan),
        departure <= INF_TIME,
        0 <= rounds,
    ensures
        walked_in_time(walked_start(*ctx.data, plan, departure, rounds).view, ctx, plan.to_index as int, plan_frame(*ctx.data, plan, departure, rounds)),
{
    let data = *ctx.data;
    let frame = plan_frame(data, plan, departure, rounds);
    let destination = plan.to_index as int;
    let origin_is_stop = plan.from_index < data.stops@.len();
    let labels = start_labels(frame.stops, frame.rounds, plan.from_index as int, departure, origin_is_stop);
    let start = LocalSearch { view: labels, marked: Seq::empty(), reached: if plan.from_index == plan.to_index { Some(0) } else { None } };
    start_in_time(ctx, frame.stops, frame.rounds, plan.from_index as int, departure, origin_is_stop, destination);
    if plan.source_access_edges@.len() == 0 {
        let walks = data.transfers@[plan.from_index as int]@;
        assert forall|i: int| 0 <= i < walks.len() implies (#[trigger] walks[i]).to_stop < labels.best.len() && 0 <= walks[i].duration_secs <= i32::MAX - INF_TIME by {
            assert(data.transfers@[plan.from_index as int]@[i].to_stop < data.stops@.len());
        }
        first_walks_in_time(start, ctx, walks, plan.from_index, departure as int, destination, frame, walks.len() as int);
    } else {
        let edges = plan.source_access_edges@;
        access_in_time(start, ctx, edges, departure as int, destination, frame, edges.len() as int);
        let seeded = after_access(start, edges, departure as int, destination, edges.len() as int);
        seeds_in_time(seeded, ctx, seeded.view.improved, destination, frame, seeded.view.improved.len() as int);
    }
}

proof fn query_start_in_time(ctx: SearchContext, memory: CacheView, goal: LookaheadGoal, plan: QueryPlan, departure: i32)
    requires
        query_in_time(ctx, memory, goal, plan_frame(*ctx.data, plan, departure, goal.max_rounds as int)),
        plan_valid(*ctx.data, plan),
        goal.destination_stop == plan.to_index,
        departure <= INF_TIME,
    ensures
        labels_in_time(
            query_start(ctx, memory, goal, plan, departure).reach.view,
            ctx,
            0,
            plan.to_index as int,
            plan_frame(*ctx.data, plan, departure, goal.max_rounds as int),
        ),
{
    let frame = plan_frame(*ctx.data, plan, departure, goal.max_rounds as int);
    let destination = plan.to_index as int;
    walked_start_in_time(ctx, plan, departure, goal.max_rounds as int);
    let walked = walked_start(*ctx.data, plan, departure, goal.max_rounds as int);
    let marked = walked.view.improved;
    let cleared = SearchView { improved: Seq::empty(), ..walked.view };
    assert(cleared.wf(frame.stops, frame.rounds));
    work_takes_no_time(walked.view, cleared, ctx, 0, destination, frame);
    let begun = Look { reach: Reach { view: cleared, round: walked.reached }, tally: no_tally(), counters: memory.counters };
    finishing_in_time(begun, ctx, memory, goal, frame, 0, marked);
}

/// The labels of a query after its last round fit the times.
pub proof fn queries_are_in_time(ctx: SearchContext, memory: CacheView, goal: LookaheadGoal, plan: QueryPlan, departure: i32)
    requires
        query_in_time(ctx, memory, goal, plan_frame(*ctx.data, plan, departure, goal.max_rounds as int)),
        plan_valid(*ctx.data, plan),
        goal.destination_stop == plan.to_index,
        departure <= INF_TIME,
    ensures
        search_in_time(
            query_done(ctx, memory, goal, plan, departure).reach.view,
            ctx,
            plan.to_index as int,
            plan_frame(*ctx.data, plan, departure, goal.max_rounds as int),
        ),
{
    let frame = plan_frame(*ctx.data, plan, departure, goal.max_rounds as int);
    query_start_in_time(ctx, memory, goal, plan, departure);
    rounds_in_time(query_start(ctx, memory, goal, plan, departure), ctx, memory, goal, frame, 1);
}

} // verus!
