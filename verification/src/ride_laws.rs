//! What the scan of a line finds: no ride that could be taken arrives earlier.

use crate::model::{LineRecord, StaticData, StopLineRef, INF_TIME};
use crate::realtime::{call_is_skipped, call_key, trip_calls_valid};
use crate::search::{
    after_call, after_line, after_line_from, after_onboard, after_ride, best_departure_from, best_departure_of_all, boardable,
    can_ride_on, counted, departure_chunk, earliest_trip, first_departure_from, line_valid, ready_time, search_begun, serves, with_departure, BestDeparture, LineScan, RoundMetrics,
    SearchContext, SearchView, SVRT_WIDTH,
};
use crate::search_laws::{
    catchable, delayed_search_is_earliest, delays_within, departs_by_day, line_ready, no_worse, none_early, scanning_never_worsens, scheduled_departure,
    timetable_search_is_earliest,
};
use crate::subquery::{after_lines, after_rides, queue_of, queue_with, queued_count, round_begun, search_ready, stop_lines_valid, NOT_QUEUED};
use crate::temporal::{chronos_start, temporal_len, temporal_trip};
use vstd::prelude::*;

verus! {

/// Whether the trips of a line keep their order: one that departs from a call no later
/// than another departs from every later call no later, and arrives there no later.
pub open spec fn keeps_order(ctx: SearchContext, line: LineRecord) -> bool {
    forall|i: int, j: int, p: int, q: int|
        0 <= i < line.trip_indices@.len() && 0 <= j < line.trip_indices@.len() && 0 <= p < q < line.stop_indices@.len() && #[trigger] departs_no_later(
            ctx,
            line.trip_indices@[i],
            line.trip_indices@[j],
            p,
        ) ==> #[trigger] departs_no_later(ctx, line.trip_indices@[i], line.trip_indices@[j], q) && ctx.arrival(line.trip_indices@[i] as int, q) <= ctx.arrival(
            line.trip_indices@[j] as int,
            q,
        )
}

/// Whether a trip departs from a call no later than another.
pub open spec fn departs_no_later(ctx: SearchContext, a: usize, b: usize, stop_pos: int) -> bool {
    ctx.departure(a as int, stop_pos) <= ctx.departure(b as int, stop_pos)
}

/// Whether the trips of a line go forward in time, and call at all its stops.
pub open spec fn goes_forward(ctx: SearchContext, line: LineRecord) -> bool {
    &&& forall|i: int, p: int, q: int| 0 <= i < line.trip_indices@.len() && 0 <= p < q < line.stop_indices@.len() ==> #[trigger] ctx.departure(line.trip_indices@[i] as int, p)
        <= #[trigger] ctx.arrival(line.trip_indices@[i] as int, q)
    &&& forall|i: int, p: int| 0 <= i < line.trip_indices@.len() && 0 <= p < line.stop_indices@.len() ==> !#[trigger] call_is_skipped(
        ctx.realtime@,
        line.trip_indices@[i] as int,
        p,
    )
}

/// A line on which a scan can be held to what could be ridden: its trips keep their
/// order and go forward in time, and how late they are is known.
pub open spec fn line_is_orderly(ctx: SearchContext, line: LineRecord, lookback: i32) -> bool {
    &&& line_ready(line, ctx.data.trips@, ctx.data.stops@.len() as int)
    &&& keeps_order(ctx, line)
    &&& goes_forward(ctx, line)
    &&& lookback >= 0
    &&& lookback == 0 ==> none_early(ctx, line)
    &&& forall|p: int| 0 <= p < line.stop_indices@.len() ==> #[trigger] delays_within(ctx, line, p, lookback)
}

/// Whether the tables of a line tell what can be caught from a time on: it is late enough
/// for the delays, or no trip departs before the service day begins.
pub open spec fn tables_tell(ctx: SearchContext, line: LineRecord, stop_pos: int, lookback: i32, ready_at: i32) -> bool {
    lookback <= ready_at || departs_by_day(ctx.data.trips@, line, stop_pos)
}

proof fn first_is_of_line(ctx: SearchContext, line: LineRecord, stop_pos: int, ready_at: i32, place: int, m: RoundMetrics)
    requires
        0 <= place,
        0 <= stop_pos,
    ensures
        ({
            let found = first_departure_from(ctx, line, stop_pos, ready_at, place, m).0;
            found is Some ==> line.trip_indices@.contains(found->0)
        }),
    decreases temporal_len(line, stop_pos) - place,
{
    if place < temporal_len(line, stop_pos) {
        match temporal_trip(line, stop_pos, place) {
            None => {},
            Some(trip) => {
                place_is_of_line(line, stop_pos, place);
                let checked = RoundMetrics { trip_departure_checks: counted(m.trip_departure_checks, 1), ..m };
                let looked = RoundMetrics { skipped_stop_checks: counted(checked.skipped_stop_checks, 1), ..checked };
                first_is_of_line(ctx, line, stop_pos, ready_at, place + 1, checked);
                first_is_of_line(ctx, line, stop_pos, ready_at, place + 1, looked);
            },
        }
    }
}

proof fn place_is_of_line(line: LineRecord, stop_pos: int, place: int)
    requires
        temporal_trip(line, stop_pos, place) is Some,
        0 <= place,
        0 <= stop_pos,
    ensures
        line.trip_indices@.contains(temporal_trip(line, stop_pos, place)->0),
{
    let physical = if stop_pos < line.trip_order_indirection_by_stop.len() && place < line.trip_order_indirection_by_stop[stop_pos].len() {
        line.trip_order_indirection_by_stop[stop_pos][place] as int
    } else {
        place
    };
    assert(line.trip_indices@[physical] == temporal_trip(line, stop_pos, place)->0);
}

proof fn best_is_of_line(ctx: SearchContext, line: LineRecord, stop_pos: int, ready_at: i32, place: int, best: BestDeparture)
    requires
        0 <= place,
        0 <= stop_pos,
        best.trip is Some ==> line.trip_indices@.contains(best.trip->0),
    ensures
        ({
            let found = best_departure_from(ctx, line, stop_pos, ready_at, place, best).trip;
            found is Some ==> line.trip_indices@.contains(found->0)
        }),
    decreases temporal_len(line, stop_pos) - place,
{
    if place < temporal_len(line, stop_pos) {
        match temporal_trip(line, stop_pos, place) {
            None => {},
            Some(trip) => {
                place_is_of_line(line, stop_pos, place);
                best_is_of_line(ctx, line, stop_pos, ready_at, place + 1, with_departure(ctx, stop_pos, ready_at, trip, best));
            },
        }
    }
}

proof fn best_of_all_is_of_line(ctx: SearchContext, line: LineRecord, stop_pos: int, ready_at: i32, i: int, best: BestDeparture)
    requires
        0 <= i,
        best.trip is Some ==> line.trip_indices@.contains(best.trip->0),
    ensures
        ({
            let found = best_departure_of_all(ctx, line, stop_pos, ready_at, i, best).trip;
            found is Some ==> line.trip_indices@.contains(found->0)
        }),
    decreases line.trip_indices@.len() - i,
{
    if i < line.trip_indices@.len() {
        assert(line.trip_indices@.contains(line.trip_indices@[i]));
        best_of_all_is_of_line(ctx, line, stop_pos, ready_at, i + 1, with_departure(ctx, stop_pos, ready_at, line.trip_indices@[i], best));
    }
}

proof fn found_is_of_line(ctx: SearchContext, line: LineRecord, stop_pos: int, ready_at: i32, lookback: i32, m: RoundMetrics)
    requires
        0 <= stop_pos,
    ensures
        ({
            let found = earliest_trip(ctx, line, stop_pos, ready_at, lookback, m).0;
            found is Some ==> line.trip_indices@.contains(found->0)
        }),
{
    let begun = search_begun(line, stop_pos, lookback, m);
    let buckets = line.chronos_bucket_start_indices_by_stop@;
    let fallback = RoundMetrics {
        chronos_bucket_fallback_searches: counted(begun.chronos_bucket_fallback_searches, 1),
        chronos_bucket_fallback_non_monotonic: counted(begun.chronos_bucket_fallback_non_monotonic, 1),
        ..begun
    };
    best_of_all_is_of_line(ctx, line, stop_pos, ready_at, 0, BestDeparture { trip: None, departure: INF_TIME as int, metrics: fallback });
    if stop_pos < buckets.len() && buckets[stop_pos]@.len() > 0 {
        let start = chronos_start(buckets[stop_pos]@, ready_at, lookback);
        let binary = RoundMetrics { binary_trip_searches: counted(begun.binary_trip_searches, 1), ..begun };
        first_is_of_line(ctx, line, stop_pos, ready_at, start, binary);
        best_is_of_line(ctx, line, stop_pos, ready_at, start, BestDeparture { trip: None, departure: INF_TIME as int, metrics: binary });
    }
}

/// Where a trip of an orderly line can be caught, one is found that departs no later.
proof fn catch_is_found(ctx: SearchContext, line: LineRecord, stop_pos: int, ready_at: i32, lookback: i32, m: RoundMetrics, i: int)
    requires
        line_is_orderly(ctx, line, lookback),
        0 <= stop_pos < line.stop_indices@.len(),
        tables_tell(ctx, line, stop_pos, lookback, ready_at),
        0 <= i < line.trip_indices@.len(),
        catchable(ctx, line.trip_indices@[i], stop_pos, ready_at),
        ctx.departure(line.trip_indices@[i] as int, stop_pos) < INF_TIME,
    ensures
        ({
            let found = earliest_trip(ctx, line, stop_pos, ready_at, lookback, m).0;
            &&& found is Some
            &&& line.trip_indices@.contains(found->0)
            &&& departs_no_later(ctx, found->0, line.trip_indices@[i], stop_pos)
        }),
{
    let trip = line.trip_indices@[i];
    found_is_of_line(ctx, line, stop_pos, ready_at, lookback, m);
    assert(delays_within(ctx, line, stop_pos, lookback));
    if lookback > 0 {
        delayed_search_is_earliest(ctx, line, stop_pos, ready_at, lookback, m);
    } else {
        timetable_search_is_earliest(ctx, line, stop_pos, ready_at, m);
        assert(!call_is_skipped(ctx.realtime@, trip as int, stop_pos));
        assert(boardable(ctx, trip as int, stop_pos));
        assert(ctx.departure(trip as int, stop_pos) >= scheduled_departure(ctx.data.trips@, trip, stop_pos));
        let found = earliest_trip(ctx, line, stop_pos, ready_at, lookback, m).0;
        assert(found is Some);
        let k = line.trip_indices@.index_of(found->0);
        assert(ctx.departure(line.trip_indices@[k] as int, stop_pos) >= scheduled_departure(ctx.data.trips@, line.trip_indices@[k], stop_pos));
    }
}

/// Whether a stop has been reached no later than by a ride, or the destination has.
pub open spec fn reached_by(view: SearchView, ctx: SearchContext, line: LineRecord, destination: int, trip: usize, stop_pos: int) -> bool {
    ||| view.best[line.stop_indices@[stop_pos] as int] <= ctx.arrival(trip as int, stop_pos)
    ||| view.best[destination] <= ctx.arrival(trip as int, stop_pos)
}

/// Whether a scan rides a trip of the line that is no later than another at a call, or
/// the destination has been reached before that departs where it was to be boarded.
pub open spec fn scan_covers(scan: LineScan, ctx: SearchContext, line: LineRecord, destination: int, trip: usize, boarded_at: int, stop_pos: int) -> bool {
    ||| scan.current is Some && departs_no_later(ctx, scan.current->0, trip, stop_pos)
    ||| scan.view.best[destination] <= ctx.departure(trip as int, boarded_at)
}

/// Whether a scan rides on a trip of the line, if on any.
pub open spec fn scan_of_line(scan: LineScan, ctx: SearchContext, line: LineRecord) -> bool {
    &&& ctx.wf()
    &&& scan.current is Some ==> line.trip_indices@.contains(scan.current->0)
    &&& ctx.data.stops@.len() <= scan.view.best.len()
}

proof fn arrival_is_in_range(ctx: SearchContext, line: LineRecord, trip: usize, stop_pos: int)
    requires
        ctx.wf(),
        line_ready(line, ctx.data.trips@, ctx.data.stops@.len() as int),
        line.trip_indices@.contains(trip),
        0 <= stop_pos < line.stop_indices@.len(),
    ensures
        i32::MIN <= ctx.arrival(trip as int, stop_pos) <= i32::MAX,
{
    let k = line.trip_indices@.index_of(trip);
    assert(line.trip_indices@[k] < ctx.data.trips@.len());
    assert(serves(ctx.data.trips@[trip as int], line.stop_indices@));
    assert(trip_calls_valid(ctx.data.trips@[trip as int], ctx.data.stops@.len() as int));
    let call = ctx.data.trips@[trip as int].stop_times@[stop_pos];
    let key = call_key(trip as int, stop_pos);
    if ctx.realtime@.deltas.dom().contains(key) {
        ctx.realtime.delays_are_reasonable(key);
    }
}

proof fn onboard_reaches(view: SearchView, ctx: SearchContext, line: LineRecord, stop_pos: int, destination: int, round: int, ridden: usize, boarded_at: usize, trip: usize)
    requires
        ctx.wf(),
        line_ready(line, ctx.data.trips@, ctx.data.stops@.len() as int),
        goes_forward(ctx, line),
        line.trip_indices@.contains(ridden),
        0 <= stop_pos < line.stop_indices@.len(),
        0 <= destination < view.best.len(),
        ctx.data.stops@.len() <= view.best.len(),
        ctx.arrival(ridden as int, stop_pos) <= ctx.arrival(trip as int, stop_pos),
    ensures
        reached_by(after_onboard(view, ctx, line, stop_pos, destination, round, ridden, boarded_at), ctx, line, destination, trip, stop_pos),
{
    arrival_is_in_range(ctx, line, ridden, stop_pos);
    let k = line.trip_indices@.index_of(ridden);
    assert(!call_is_skipped(ctx.realtime@, line.trip_indices@[k] as int, stop_pos));
    assert(line.stop_indices@[stop_pos] < ctx.data.stops@.len());
}

proof fn ride_goes_on(view: SearchView, ctx: SearchContext, line: LineRecord, stop_pos: int, k: int, n: int, destination: int, round: int, ridden: usize, boarded_at: usize)
    requires
        line_ready(line, ctx.data.trips@, ctx.data.stops@.len() as int),
        ctx.data.stops@.len() <= view.best.len(),
        0 <= stop_pos,
        0 <= k <= n <= line.stop_indices@.len() - stop_pos,
    ensures
        no_worse(
            after_ride(view, ctx, line, stop_pos, k, destination, round, ridden, boarded_at),
            after_ride(view, ctx, line, stop_pos, n, destination, round, ridden, boarded_at),
        ),
        after_ride(view, ctx, line, stop_pos, n, destination, round, ridden, boarded_at).best.len() == view.best.len(),
    decreases n,
{
    if n > 0 {
        ride_goes_on(view, ctx, line, stop_pos, if k < n { k } else { n - 1 }, n - 1, destination, round, ridden, boarded_at);
        assert(line.stop_indices@[stop_pos + n - 1] < ctx.data.stops@.len());
    }
}

proof fn order_goes_on(ctx: SearchContext, line: LineRecord, a: usize, b: usize, p: int, q: int)
    requires
        keeps_order(ctx, line),
        line.trip_indices@.contains(a),
        line.trip_indices@.contains(b),
        0 <= p <= q < line.stop_indices@.len(),
        departs_no_later(ctx, a, b, p),
    ensures
        departs_no_later(ctx, a, b, q),
        p < q ==> ctx.arrival(a as int, q) <= ctx.arrival(b as int, q),
{
    let i = line.trip_indices@.index_of(a);
    let j = line.trip_indices@.index_of(b);
    assert(departs_no_later(ctx, line.trip_indices@[i], line.trip_indices@[j], p));
    if p < q {
        assert(departs_no_later(ctx, line.trip_indices@[i], line.trip_indices@[j], q));
    }
}

proof fn call_covers(
    scan: LineScan,
    ctx: SearchContext,
    line: LineRecord,
    stop_pos: int,
    destination: int,
    round: int,
    lookback: i32,
    best_before: Seq<i32>,
    i: int,
    p: int,
)
    requires
        scan_of_line(scan, ctx, line),
        line_is_orderly(ctx, line, lookback),
        0 <= i < line.trip_indices@.len(),
        0 <= p <= stop_pos < line.stop_indices@.len(),
        0 <= destination < scan.view.best.len(),
        tables_tell(ctx, line, p, lookback, best_before[line.stop_indices@[p] as int]),
        best_before[line.stop_indices@[p] as int] < INF_TIME,
        catchable(ctx, line.trip_indices@[i], p, best_before[line.stop_indices@[p] as int]),
        ctx.departure(line.trip_indices@[i] as int, p) < INF_TIME,
        p < stop_pos ==> scan_covers(scan, ctx, line, destination, line.trip_indices@[i], p, stop_pos - 1),
    ensures
        ({
            let after = after_call(scan, ctx, line, stop_pos, destination, round, lookback, best_before);
            &&& scan_of_line(after, ctx, line)
            &&& scan_covers(after, ctx, line, destination, line.trip_indices@[i], p, stop_pos)
            &&& no_worse(scan.view, after.view)
            &&& p < stop_pos && scan.current is Some && departs_no_later(ctx, scan.current->0, line.trip_indices@[i], stop_pos - 1) ==> reached_by(
                after.view,
                ctx,
                line,
                destination,
                line.trip_indices@[i],
                stop_pos,
            )
        }),
{
    let trip = line.trip_indices@[i];
    let after = after_call(scan, ctx, line, stop_pos, destination, round, lookback, best_before);
    assert(line.stop_indices@[stop_pos] < ctx.data.stops@.len());
    let view = match scan.current {
        Some(ridden) => after_onboard(scan.view, ctx, line, stop_pos, destination, round, ridden, scan.boarded_at),
        None => scan.view,
    };
    let ready_at = best_before[line.stop_indices@[stop_pos] as int];
    found_is_of_line(ctx, line, stop_pos, ready_at, lookback, view.metrics);
    if p < stop_pos && scan.current is Some && departs_no_later(ctx, scan.current->0, trip, stop_pos - 1) {
        order_goes_on(ctx, line, scan.current->0, trip, stop_pos - 1, stop_pos);
        onboard_reaches(scan.view, ctx, line, stop_pos, destination, round, scan.current->0, scan.boarded_at, trip);
    }
    if p == stop_pos && ready_at < view.best[destination] {
        catch_is_found(ctx, line, stop_pos, ready_at, lookback, view.metrics, i);
    }
    assert(after.view.best == view.best);
}

proof fn scan_reaches(
    scan: LineScan,
    ctx: SearchContext,
    line: LineRecord,
    stop_pos: int,
    destination: int,
    round: int,
    lookback: i32,
    best_before: Seq<i32>,
    i: int,
    p: int,
    q: int,
)
    requires
        scan_of_line(scan, ctx, line),
        line_is_orderly(ctx, line, lookback),
        0 <= i < line.trip_indices@.len(),
        0 <= p < q < line.stop_indices@.len(),
        0 <= stop_pos <= q,
        0 <= destination < scan.view.best.len(),
        ctx.data.stops@.len() <= best_before.len(),
        tables_tell(ctx, line, p, lookback, best_before[line.stop_indices@[p] as int]),
        best_before[line.stop_indices@[p] as int] < INF_TIME,
        catchable(ctx, line.trip_indices@[i], p, best_before[line.stop_indices@[p] as int]),
        ctx.departure(line.trip_indices@[i] as int, p) < INF_TIME,
        p < stop_pos ==> scan_covers(scan, ctx, line, destination, line.trip_indices@[i], p, stop_pos - 1),
    ensures
        reached_by(
            after_line_from(scan, ctx, line, stop_pos, destination, round, lookback, best_before),
            ctx,
            line,
            destination,
            line.trip_indices@[i],
            q,
        ),
    decreases line.stop_indices@.len() - stop_pos,
{
    let trip = line.trip_indices@[i];
    assert(line.trip_indices@.contains(trip));
    assert(ctx.departure(line.trip_indices@[i] as int, p) <= ctx.arrival(line.trip_indices@[i] as int, q));
    assert(line.stop_indices@[q] < ctx.data.stops@.len());
    assert(line.stop_indices@[p] < ctx.data.stops@.len());
    scanning_never_worsens(scan, ctx, line, stop_pos, destination, round, lookback, best_before);
    if scan.view.best[destination] <= ctx.departure(trip as int, p) {
    } else if can_ride_on(scan, ctx, line, stop_pos, best_before) {
        let n = SVRT_WIDTH as int;
        let ridden = scan.current->0;
        let view = after_ride(scan.view, ctx, line, stop_pos, n, destination, round, ridden, scan.boarded_at);
        let next = LineScan { view: view, ..scan };
        ride_goes_on(scan.view, ctx, line, stop_pos, 0, n, destination, round, ridden, scan.boarded_at);
        if stop_pos <= p < stop_pos + n {
            let lane = p - stop_pos;
            let stops = line.stop_indices@.subrange(stop_pos, stop_pos + SVRT_WIDTH);
            let chunk = departure_chunk(ctx.data.trips@[ridden as int], stop_pos);
            assert(stops[lane] == line.stop_indices@[p]);
            assert(ready_time(best_before, stops[lane] as int) >= chunk[lane]);
            assert(departs_no_later(ctx, ridden, trip, p));
        }
        if q < stop_pos + n {
            let k = q - stop_pos;
            let before = after_ride(scan.view, ctx, line, stop_pos, k, destination, round, ridden, scan.boarded_at);
            ride_goes_on(scan.view, ctx, line, stop_pos, 0, k, destination, round, ridden, scan.boarded_at);
            ride_goes_on(scan.view, ctx, line, stop_pos, k + 1, n, destination, round, ridden, scan.boarded_at);
            order_goes_on(ctx, line, ridden, trip, if p < stop_pos { stop_pos - 1 } else { p }, q);
            onboard_reaches(before, ctx, line, q, destination, round, ridden, scan.boarded_at, trip);
            let here = after_ride(scan.view, ctx, line, stop_pos, k + 1, destination, round, ridden, scan.boarded_at);
            assert(here == after_onboard(before, ctx, line, q, destination, round, ridden, scan.boarded_at));
            scanning_never_worsens(next, ctx, line, stop_pos + SVRT_WIDTH, destination, round, lookback, best_before);
        } else {
            if p < stop_pos + n {
                order_goes_on(ctx, line, ridden, trip, if p < stop_pos { stop_pos - 1 } else { p }, stop_pos + n - 1);
            }
            scan_reaches(next, ctx, line, stop_pos + SVRT_WIDTH, destination, round, lookback, best_before, i, p, q);
        }
    } else {
        let next = after_call(scan, ctx, line, stop_pos, destination, round, lookback, best_before);
        if p <= stop_pos {
            call_covers(scan, ctx, line, stop_pos, destination, round, lookback, best_before, i, p);
        } else {
            call_stays_on_line(scan, ctx, line, stop_pos, destination, round, lookback, best_before);
        }
        if stop_pos == q {
            scanning_never_worsens(next, ctx, line, stop_pos + 1, destination, round, lookback, best_before);
        } else {
            scan_reaches(next, ctx, line, stop_pos + 1, destination, round, lookback, best_before, i, p, q);
        }
    }
}

proof fn call_stays_on_line(scan: LineScan, ctx: SearchContext, line: LineRecord, stop_pos: int, destination: int, round: int, lookback: i32, best_before: Seq<i32>)
    requires
        scan_of_line(scan, ctx, line),
        line_ready(line, ctx.data.trips@, ctx.data.stops@.len() as int),
        0 <= stop_pos < line.stop_indices@.len(),
    ensures
        scan_of_line(after_call(scan, ctx, line, stop_pos, destination, round, lookback, best_before), ctx, line),
        after_call(scan, ctx, line, stop_pos, destination, round, lookback, best_before).view.best.len() == scan.view.best.len(),
{
    let view = match scan.current {
        Some(ridden) => after_onboard(scan.view, ctx, line, stop_pos, destination, round, ridden, scan.boarded_at),
        None => scan.view,
    };
    let ready_at = best_before[line.stop_indices@[stop_pos] as int];
    assert(line.stop_indices@[stop_pos] < ctx.data.stops@.len());
    found_is_of_line(ctx, line, stop_pos, ready_at, lookback, view.metrics);
}

/// The scan of a line misses no ride: whoever is ready at a call when a trip departs
/// there reaches every later call no later than that trip, unless the destination has
/// been reached by then. The trips of the line must keep their order; where one
/// overtakes another, a scan that has changed to the one that departs first can arrive
/// later.
pub proof fn scans_miss_no_ride(view: SearchView, ctx: SearchContext, l: int, start_pos: int, destination: int, round: int, best_before: Seq<i32>, i: int, p: int, q: int)
    requires
        ctx.wf(),
        0 <= l < ctx.data.lines@.len(),
        line_is_orderly(ctx, ctx.data.lines@[l], ctx.line_max_positive_delay_secs@[l]),
        ctx.data.stops@.len() <= view.best.len(),
        ctx.data.stops@.len() <= best_before.len(),
        0 <= destination < view.best.len(),
        0 <= i < ctx.data.lines@[l].trip_indices@.len(),
        0 <= start_pos <= p < q < ctx.data.lines@[l].stop_indices@.len(),
        tables_tell(ctx, ctx.data.lines@[l], p, ctx.line_max_positive_delay_secs@[l], best_before[ctx.data.lines@[l].stop_indices@[p] as int]),
        best_before[ctx.data.lines@[l].stop_indices@[p] as int] < INF_TIME,
        catchable(ctx, ctx.data.lines@[l].trip_indices@[i], p, best_before[ctx.data.lines@[l].stop_indices@[p] as int]),
        ctx.departure(ctx.data.lines@[l].trip_indices@[i] as int, p) < INF_TIME,
    ensures
        reached_by(
            after_line(view, ctx, l, start_pos, destination, round, best_before),
            ctx,
            ctx.data.lines@[l],
            destination,
            ctx.data.lines@[l].trip_indices@[i],
            q,
        ),
{
    let line = ctx.data.lines@[l];
    let m = view.metrics;
    let calls = line.stop_indices@.len() - start_pos;
    let begun = RoundMetrics { stop_positions_scanned: counted(m.stop_positions_scanned, if calls > 0 { calls } else { 0 }), ..m };
    let scan = LineScan { view: SearchView { metrics: begun, ..view }, current: None, boarded_at: 0 };
    scan_reaches(scan, ctx, line, start_pos, destination, round, ctx.line_max_positive_delay_secs@[l], best_before, i, p, q);
}

proof fn queue_takes(queue: Seq<usize>, lines: Seq<StopLineRef>, n: int)
    requires
        0 <= n <= lines.len(),
        forall|r: int| 0 <= r < lines.len() ==> (#[trigger] lines[r]).line_index < queue.len(),
    ensures
        queue_with(queue, lines, n).len() == queue.len(),
        forall|l: int| 0 <= l < queue.len() ==> (#[trigger] queue_with(queue, lines, n)[l]) <= queue[l],
        forall|r: int| 0 <= r < n ==> queue_with(queue, lines, n)[(#[trigger] lines[r]).line_index as int] <= lines[r].stop_pos,
    decreases n,
{
    if n > 0 {
        queue_takes(queue, lines, n - 1);
        let before = queue_with(queue, lines, n - 1);
        let after = queue_with(queue, lines, n);
        assert(lines[n - 1].line_index < queue.len());
        assert forall|l: int| 0 <= l < queue.len() implies (#[trigger] after[l]) <= queue[l] by {
            assert(before[l] <= queue[l]);
        }
        assert forall|r: int| 0 <= r < n implies after[(#[trigger] lines[r]).line_index as int] <= lines[r].stop_pos by {
            if r < n - 1 {
                assert(before[lines[r].line_index as int] <= lines[r].stop_pos);
            }
        }
    }
}

proof fn queue_holds(data: StaticData, best_before: Seq<i32>, bound: i32, marked: Seq<usize>, n: int, k: int, r: int)
    requires
        stop_lines_valid(data),
        0 <= n <= marked.len(),
        0 <= k < n ==> {
            &&& marked[k] < data.stops@.len()
            &&& best_before[marked[k] as int] < bound
            &&& 0 <= r < data.stop_to_lines@[marked[k] as int]@.len()
        },
    ensures
        queue_of(data, best_before, bound, marked, n).len() == data.lines@.len(),
        0 <= k < n ==> ({
            let line_ref = data.stop_to_lines@[marked[k] as int]@[r];
            queue_of(data, best_before, bound, marked, n)[line_ref.line_index as int] <= line_ref.stop_pos
        }),
    decreases n,
{
    if n > 0 {
        let stop = marked[n - 1];
        queue_holds(data, best_before, bound, marked, n - 1, k, r);
        let before = queue_of(data, best_before, bound, marked, n - 1);
        if stop < data.stops@.len() {
            let lines = data.stop_to_lines@[stop as int]@;
            assert forall|x: int| 0 <= x < lines.len() implies (#[trigger] lines[x]).line_index < before.len() by {
                assert(data.stop_to_lines@[stop as int]@[x].line_index < data.lines@.len());
            }
            queue_takes(before, lines, lines.len() as int);
            if 0 <= k < n {
                assert(data.stop_to_lines@[marked[k] as int]@[r].line_index < data.lines@.len());
            }
        }
    }
}

proof fn lines_never_worsen(view: SearchView, ctx: SearchContext, queue: Seq<usize>, destination: int, round: int, best_before: Seq<i32>, k: int, n: int)
    requires
        ctx.wf(),
        ctx.data.stops@.len() <= view.best.len(),
        0 <= k <= n <= queue.len() <= ctx.data.lines@.len(),
    ensures
        no_worse(after_lines(view, ctx, queue, destination, round, best_before, k), after_lines(view, ctx, queue, destination, round, best_before, n)),
        after_lines(view, ctx, queue, destination, round, best_before, n).best.len() == view.best.len(),
    decreases n,
{
    if n > 0 {
        lines_never_worsen(view, ctx, queue, destination, round, best_before, if k < n { k } else { n - 1 }, n - 1);
        let before = after_lines(view, ctx, queue, destination, round, best_before, n - 1);
        if queue[n - 1] != NOT_QUEUED {
            let line = ctx.data.lines@[n - 1];
            assert(line_valid(line, ctx.data.trips@, ctx.data.stops@.len() as int));
            let m = RoundMetrics { lines_scanned: counted(before.metrics.lines_scanned, 1), ..before.metrics };
            let start_pos = queue[n - 1] as int;
            let calls = line.stop_indices@.len() - start_pos;
            let begun = RoundMetrics { stop_positions_scanned: counted(m.stop_positions_scanned, if calls > 0 { calls } else { 0 }), ..m };
            let scan = LineScan { view: SearchView { metrics: begun, ..before }, current: None, boarded_at: 0 };
            scanning_never_worsens(scan, ctx, line, start_pos, destination, round, ctx.line_max_positive_delay_secs@[n - 1], best_before);
        }
    }
}

/// The rides of a round miss no ride: from a stop that was reached, every stop that a
/// trip leads to is reached no later than by that trip, unless the destination has been
/// reached by then.
pub proof fn rounds_miss_no_ride(view: SearchView, ctx: SearchContext, destination: int, round: int, marked: Seq<usize>, k: int, r: int, i: int, q: int)
    requires
        search_ready(ctx),
        ctx.data.stops@.len() <= view.best.len(),
        0 <= destination < view.best.len(),
        0 <= k < marked.len(),
        marked[k] < ctx.data.stops@.len(),
        0 <= r < ctx.data.stop_to_lines@[marked[k] as int]@.len(),
        ({
            let line_ref = ctx.data.stop_to_lines@[marked[k] as int]@[r];
            let line = ctx.data.lines@[line_ref.line_index as int];
            let lookback = ctx.line_max_positive_delay_secs@[line_ref.line_index as int];
            let ready_at = view.best[marked[k] as int];
            &&& line_is_orderly(ctx, line, lookback)
            &&& line.stop_indices@[line_ref.stop_pos as int] == marked[k]
            &&& 0 <= i < line.trip_indices@.len()
            &&& line_ref.stop_pos < q < line.stop_indices@.len()
            &&& tables_tell(ctx, line, line_ref.stop_pos as int, lookback, ready_at)
            &&& ready_at < INF_TIME
            &&& catchable(ctx, line.trip_indices@[i], line_ref.stop_pos as int, ready_at)
            &&& ctx.departure(line.trip_indices@[i] as int, line_ref.stop_pos as int) < INF_TIME
        }),
    ensures
        ({
            let line = ctx.data.lines@[ctx.data.stop_to_lines@[marked[k] as int]@[r].line_index as int];
            reached_by(after_rides(view, ctx, destination, round, marked), ctx, line, destination, line.trip_indices@[i], q)
        }),
{
    let line_ref = ctx.data.stop_to_lines@[marked[k] as int]@[r];
    let l = line_ref.line_index as int;
    let p = line_ref.stop_pos as int;
    let line = ctx.data.lines@[l];
    let bound = view.best[destination];
    let ready_at = view.best[marked[k] as int];
    let n = marked.len() as int;
    let queue = queue_of(*ctx.data, view.best, bound, marked, n);
    queue_holds(*ctx.data, view.best, bound, marked, n, if ready_at < bound { k } else { -1 }, r);
    let begun = round_begun(view, queued_count(queue, queue.len() as int));
    assert(ctx.departure(line.trip_indices@[i] as int, p) <= ctx.arrival(line.trip_indices@[i] as int, q));
    assert(line_valid(line, ctx.data.trips@, ctx.data.stops@.len() as int));
    assert(line.stop_indices@[q] < ctx.data.stops@.len());
    if ready_at >= bound {
        lines_never_worsen(begun, ctx, queue, destination, round, view.best, 0, queue.len() as int);
    } else {
        lines_never_worsen(begun, ctx, queue, destination, round, view.best, 0, l);
        lines_never_worsen(begun, ctx, queue, destination, round, view.best, l + 1, queue.len() as int);
        let before = after_lines(begun, ctx, queue, destination, round, view.best, l);
        let m = before.metrics;
        let counted_view = SearchView { metrics: RoundMetrics { lines_scanned: counted(m.lines_scanned, 1), ..m }, ..before };
        assert(queue[l] <= p < NOT_QUEUED);
        scans_miss_no_ride(counted_view, ctx, l, queue[l] as int, destination, round, view.best, i, p, q);
    }
}

} // verus!
