//! What a query finds: no journey within the rides that are allowed arrives earlier.

use crate::candidates::{candidates_view, first_offer_is_earliest, is_listed, journeys_of_rounds, same_journey, same_leg};
use crate::finish_laws::{finishing_is_arrival, is_first_egress, nothing_finished, only_arrival};
use crate::journey::{journey_to, journeys_have_no_gap, label_count, PathBack};
use crate::label_laws::{
    arrival_noted, better_and_better, improvement_is_tidy, labels_shaped, labels_tidy, noted_in, only_better, rides_are_tidy, walk_from_frontier,
    walks_are_tidy,
};
use crate::leg::{legs_arrive, ParentView};
use crate::lookahead::{query_walks_valid, LookaheadTally, QueryVirtualWalk, Reach};
use crate::lines::{lines_at, lines_at_are_calls};
use crate::model::{StaticData, StopLineRef, INF_TIME};
use crate::profile_cache::{CacheView, ProfileCache};
use crate::profile_lookahead::{cache_fits, Look, LookaheadGoal};
use crate::query::{
    after_access, after_seeds, allowed_transfers, data_ready, day_context, place_count, plan_goal, plan_goal_fits, plan_valid, query_done,
    query_start, walked_start, QueryError, QueryOutcome, QueryPlan,
};
use crate::query_rounds::{after_finishing, after_query_round, after_query_rounds, after_travel, no_tally, QueryRun};
use crate::realtime::RealtimeView;
use crate::relax::{after_walks, walks_valid, worth_walking};
use crate::ride_laws::{line_is_orderly, reached_by, rounds_miss_no_ride};
use crate::search::{counted, labels_valid, line_valid, SearchContext, SearchView};
use crate::search_laws::{catchable, departs_by_day, no_worse};
use crate::static_core::StaticCore;
use crate::subquery::{after_first_walks, after_rides, queue_prunes, search_ready, start_labels, LocalSearch};
use crate::transfer_index::{index_correct, HubKey, EMPTY_TRANSFER_SLOT};
use crate::walk_laws::rounds_miss_no_walk;
use vstd::prelude::*;

verus! {

/// Whether the walks of the timetable fit their index.
pub open spec fn walks_fit(data: StaticData) -> bool {
    forall|s: int, slot: int| 0 <= s < data.transfers@.len() && 0 <= slot < data.transfers@[s]@.len() ==> (#[trigger] data.transfers@[s]@[slot]).duration_secs < INF_TIME
        && data.transfers@[s]@.len() <= EMPTY_TRANSFER_SLOT
}

/// Whether an entry of a stop lists a call of a line.
pub open spec fn lists_call(data: StaticData, stop: int, r: int, l: int, p: int) -> bool {
    0 <= r < data.stop_to_lines@[stop]@.len() && data.stop_to_lines@[stop]@[r].line_index == l && data.stop_to_lines@[stop]@[r].stop_pos == p
}

/// Whether a call of a line is listed at its stop.
pub open spec fn call_is_listed(data: StaticData, l: int, p: int) -> bool {
    exists|r: int| #[trigger] lists_call(data, data.lines@[l].stop_indices@[p] as int, r, l, p)
}

/// Whether every call of a line is listed at its stop.
pub open spec fn calls_listed(data: StaticData) -> bool {
    forall|l: int, p: int| 0 <= l < data.lines@.len() && 0 <= p < data.lines@[l].stop_indices@.len() ==> #[trigger] call_is_listed(data, l, p)
}

/// Whether a search can be held to a timetable: its parts fit each other, and its tables
/// list what it has.
pub open spec fn timetable_listed(ctx: SearchContext, keys: Seq<HubKey>) -> bool {
    &&& search_ready(ctx)
    &&& index_correct(ctx.data.transfer_index, keys, ctx.data.transfers@)
    &&& ctx.data.transfer_index.stop_to_hub@.len() == ctx.data.stops@.len()
    &&& walks_fit(*ctx.data)
    &&& calls_listed(*ctx.data)
}

/// Whether the `i`th trip of a line can be ridden from one of its calls to another by who
/// is at the first of them at a time: it runs that day, and departs no earlier. The trips
/// of the line must keep their order.
pub open spec fn ride_possible(ctx: SearchContext, l: int, p: int, i: int, q: int, ready: int) -> bool {
    let line = ctx.data.lines@[l];
    &&& 0 <= l < ctx.data.lines@.len()
    &&& line_is_orderly(ctx, line, ctx.line_max_positive_delay_secs@[l])
    &&& 0 <= p < q < line.stop_indices@.len()
    &&& departs_by_day(ctx.data.trips@, line, p)
    &&& 0 <= i < line.trip_indices@.len()
    &&& ctx.trip_is_available@[line.trip_indices@[i] as int]
    &&& ready <= ctx.departure(line.trip_indices@[i] as int, p) < INF_TIME
}

/// Whether a walk of the timetable leads from one stop to another.
pub open spec fn is_walk(data: StaticData, from: int, slot: int, to: int) -> bool {
    0 <= from < data.transfers@.len() && 0 <= slot < data.transfers@[from]@.len() && data.transfers@[from]@[slot].to_stop == to
}

/// How long a walk takes.
pub open spec fn walk_secs(data: StaticData, from: int, slot: int) -> int {
    data.transfers@[from]@[slot].duration_secs as int
}

/// Whether a walk has a shortcut: from wherever one can walk to its start, one can walk to
/// its end as fast.
pub open spec fn walk_has_shortcuts(data: StaticData, from: int, slot: int, to: int) -> bool {
    forall|w: int, k: int| #[trigger] is_walk(data, w, k, from) ==> exists|j: int| #[trigger] is_walk(data, w, j, to) && walk_secs(data, w, j) <= walk_secs(data, w, k) + walk_secs(
        data,
        from,
        slot,
    )
}

/// Whether a walk to the destination has a shortcut: from wherever one can walk to its
/// start, one can walk to the destination as fast.
pub open spec fn egress_has_shortcuts(data: StaticData, walks: Seq<QueryVirtualWalk>, stop: int, e: int) -> bool {
    forall|w: int, k: int| #[trigger] is_walk(data, w, k, stop) ==> exists|f: int| #[trigger] is_first_egress(walks, w, f) && walks[f].duration_secs <= walk_secs(data, w, k)
        + walks[e].duration_secs
}

/// Whether every ride from a stop that can be taken at a time is taken: where it leads to
/// is reached no later, or the destination is.
pub open spec fn rides_served(view: SearchView, ctx: SearchContext, destination: int, s: int, ready: int) -> bool {
    forall|l: int, p: int, i: int, q: int| #[trigger] ride_possible(ctx, l, p, i, q, ready) && ctx.data.lines@[l].stop_indices@[p] == s ==> reached_by(
        view,
        ctx,
        ctx.data.lines@[l],
        destination,
        ctx.data.lines@[l].trip_indices@[i],
        q,
    )
}

#[verifier::opaque]
spec fn all_explored(view: SearchView, marked: Seq<usize>, ctx: SearchContext, destination: int) -> bool {
    forall|s: int| 0 <= s < ctx.data.stops@.len() && s != destination && (#[trigger] view.best[s]) < INF_TIME && !marked.contains(s as usize) ==> rides_served(
        view,
        ctx,
        destination,
        s,
        view.best[s] as int,
    )
}

#[verifier::opaque]
spec fn rides_taken(before: SearchView, after: SearchView, ctx: SearchContext, destination: int) -> bool {
    forall|s: int| 0 <= s < ctx.data.stops@.len() && s != destination && (#[trigger] before.best[s]) < INF_TIME ==> rides_served(after, ctx, destination, s, before.best[s] as int)
}

spec fn walk_served(view: SearchView, data: StaticData, destination: int, u: int, slot: int, v: int) -> bool {
    view.best[v] <= view.best[u] + walk_secs(data, u, slot) || view.best[destination] <= view.best[u] + walk_secs(data, u, slot)
}

spec fn walks_served(view: SearchView, data: StaticData, destination: int, u: int) -> bool {
    forall|slot: int, v: int| #[trigger] is_walk(data, u, slot, v) && walk_has_shortcuts(data, u, slot, v) ==> walk_served(view, data, destination, u, slot, v)
}

#[verifier::opaque]
spec fn walks_done(view: SearchView, data: StaticData, destination: int) -> bool {
    forall|u: int| 0 <= u < data.stops@.len() && u != destination && (#[trigger] view.best[u]) < INF_TIME ==> walks_served(view, data, destination, u)
}

spec fn egress_served(view: SearchView, data: StaticData, walks: Seq<QueryVirtualWalk>, destination: int, s: int) -> bool {
    forall|e: int| #[trigger] is_first_egress(walks, s, e) && egress_has_shortcuts(data, walks, s, e) ==> view.best[destination] <= view.best[s] + walks[e].duration_secs
}

#[verifier::opaque]
spec fn egress_done(view: SearchView, data: StaticData, walks: Seq<QueryVirtualWalk>, destination: int) -> bool {
    forall|s: int| 0 <= s < data.stops@.len() && s != destination && (#[trigger] view.best[s]) < INF_TIME ==> egress_served(view, data, walks, destination, s)
}

#[verifier::opaque]
spec fn settled(reach: Reach, marked: Seq<usize>, ctx: SearchContext, goal: LookaheadGoal, stops: int, rounds: int) -> bool {
    let destination = goal.destination_stop as int;
    &&& labels_shaped(reach.view, stops, rounds)
    &&& arrival_noted(reach.view, destination)
    &&& ctx.data.stops@.len() <= stops
    &&& all_explored(reach.view, marked, ctx, destination)
    &&& walks_done(reach.view, *ctx.data, destination)
    &&& egress_done(reach.view, *ctx.data, goal.destination_egress_edges@, destination)
    &&& reach.view.best[destination] < INF_TIME ==> reach.round is Some
}

proof fn served_stays_served(before: SearchView, after: SearchView, ctx: SearchContext, destination: int, s: int, ready: int)
    requires
        rides_served(before, ctx, destination, s, ready),
        no_worse(before, after),
        ctx.wf(),
        ctx.data.stops@.len() <= before.best.len(),
        0 <= destination < before.best.len(),
    ensures
        rides_served(after, ctx, destination, s, ready),
{
    assert forall|l: int, p: int, i: int, q: int| #[trigger] ride_possible(ctx, l, p, i, q, ready) && ctx.data.lines@[l].stop_indices@[p] == s implies reached_by(
        after,
        ctx,
        ctx.data.lines@[l],
        destination,
        ctx.data.lines@[l].trip_indices@[i],
        q,
    ) by {
        let line = ctx.data.lines@[l];
        assert(reached_by(before, ctx, line, destination, line.trip_indices@[i], q));
        assert(line.stop_indices@[q] < ctx.data.stops@.len());
        assert(after.best[line.stop_indices@[q] as int] <= before.best[line.stop_indices@[q] as int]);
        assert(after.best[destination] <= before.best[destination]);
    }
}

proof fn marked_are_ridden_from(view: SearchView, ctx: SearchContext, keys: Seq<HubKey>, destination: int, round: int, marked: Seq<usize>, s: int)
    requires
        timetable_listed(ctx, keys),
        ctx.data.stops@.len() <= view.best.len(),
        0 <= destination < view.best.len(),
        0 <= s < ctx.data.stops@.len(),
        s <= usize::MAX,
        marked.contains(s as usize),
        view.best[s] < INF_TIME,
    ensures
        rides_served(after_rides(view, ctx, destination, round, marked), ctx, destination, s, view.best[s] as int),
{
    let k = marked.index_of(s as usize);
    assert(marked[k] == s);
    assert forall|l: int, p: int, i: int, q: int| #[trigger] ride_possible(ctx, l, p, i, q, view.best[s] as int) && ctx.data.lines@[l].stop_indices@[p] == s implies reached_by(
        after_rides(view, ctx, destination, round, marked),
        ctx,
        ctx.data.lines@[l],
        destination,
        ctx.data.lines@[l].trip_indices@[i],
        q,
    ) by {
        let line = ctx.data.lines@[l];
        assert(line.stop_indices@[p] == s);
        assert(call_is_listed(*ctx.data, l, p));
        let r = choose|r: int| #[trigger] lists_call(*ctx.data, ctx.data.lines@[l].stop_indices@[p] as int, r, l, p);
        assert(lists_call(*ctx.data, s, r, l, p));
        let trip = line.trip_indices@[i];
        assert(!crate::realtime::call_is_skipped(ctx.realtime@, line.trip_indices@[i] as int, p));
        assert(catchable(ctx, trip, p, view.best[s]));
        rounds_miss_no_ride(view, ctx, destination, round, marked, k, r, i, q);
    }
}

proof fn finished_is_tidy(before: Reach, after: Reach, destination: int, round: int, stops: int, rounds: int)
    requires
        labels_tidy(before.view, destination, round, stops, rounds),
        only_arrival(before, after, destination, stops, rounds),
    ensures
        labels_tidy(after.view, destination, round, stops, rounds),
        only_better_but(before.view, after.view, destination),
        no_worse(before.view, after.view),
        after.view.flags == before.view.flags,
        after.view.improved == before.view.improved,
        labels_shaped(after.view, stops, rounds),
        arrival_noted(after.view, destination),
{
    reveal(labels_tidy);
    reveal(only_arrival);
    assert forall|s: int| 0 <= s < after.view.flags.len() && (#[trigger] after.view.flags[s]) && s != destination implies after.view.arrivals[round][s] == after.view.best[s] by {
        assert(before.view.flags[s]);
        assert(after.view.arrivals[round][s] == before.view.arrivals[round][s]);
    }
    assert forall|s: int| 0 <= s < before.view.best.len() implies (#[trigger] after.view.best[s]) <= before.view.best[s] by {}
}

spec fn only_better_but(before: SearchView, after: SearchView, destination: int) -> bool {
    forall|s: int| 0 <= s < before.best.len() && s != destination ==> #[trigger] after.best[s] == before.best[s]
}

/// The views of a round: before it, after its rides, after finishing early from the stops
/// they reached, after its walks, and after finishing early once more.
#[verifier::opaque]
spec fn round_views(v0: SearchView, ridden: SearchView, first: SearchView, walked: SearchView, last: SearchView, frontier: Seq<usize>, ctx: SearchContext, goal: LookaheadGoal, round: int, marked: Seq<usize>, stops: int, rounds: int) -> bool {
    let destination = goal.destination_stop as int;
    &&& ridden == after_rides(v0, ctx, destination, round, marked)
    &&& frontier == ridden.improved
    &&& walked == after_walks(first, *ctx.data, round, destination, frontier)
    &&& labels_shaped(v0, stops, rounds)
    &&& labels_tidy(ridden, destination, round, stops, rounds)
    &&& labels_tidy(first, destination, round, stops, rounds)
    &&& labels_tidy(walked, destination, round, stops, rounds)
    &&& no_worse(v0, ridden)
    &&& no_worse(ridden, first)
    &&& only_better(first, walked)
    &&& no_worse(walked, last)
    &&& first.flags == ridden.flags
    &&& first.improved == ridden.improved
    &&& only_better_but(ridden, first, destination)
    &&& only_better_but(walked, last, destination)
    &&& forall|s: int| 0 <= s < stops && (#[trigger] ridden.best[s]) != v0.best[s] ==> ridden.flags[s]
    &&& forall|s: int| 0 <= s < stops && (#[trigger] walked.best[s]) != first.best[s] ==> exists|f: int, slot: int|
        #[trigger] walk_from_frontier(first, *ctx.data, round, destination, frontier, f, slot, s, walked.best[s] as int)
    &&& forall|k: int, e: int|
        0 <= k < frontier.len() && #[trigger] is_first_egress(goal.destination_egress_edges@, frontier[k] as int, e) && frontier[k] != destination && first.arrivals[round][frontier[k] as int]
            < INF_TIME ==> first.best[destination] <= first.arrivals[round][frontier[k] as int] + goal.destination_egress_edges@[e].duration_secs
}

proof fn views_get_better(v0: SearchView, ridden: SearchView, first: SearchView, walked: SearchView, last: SearchView, frontier: Seq<usize>, ctx: SearchContext, goal: LookaheadGoal, round: int, marked: Seq<usize>, stops: int, rounds: int)
    requires
        round_views(v0, ridden, first, walked, last, frontier, ctx, goal, round, marked, stops, rounds),
    ensures
        no_worse(v0, last),
        no_worse(ridden, last),
        no_worse(first, last),
        forall|s: int| 0 <= s < stops && s != goal.destination_stop && !(#[trigger] walked.flags[s]) ==> last.best[s] == v0.best[s],
{
    reveal(round_views);
    assert(first.flags.len() == stops && first.best.len() == stops && ridden.best.len() == stops) by {
        reveal(labels_tidy);
    }
    assert forall|s: int| 0 <= s < first.best.len() implies (#[trigger] last.best[s]) <= first.best[s] by {
        assert(walked.best[s] <= first.best[s]);
    }
    assert forall|s: int| 0 <= s < ridden.best.len() implies (#[trigger] last.best[s]) <= ridden.best[s] by {
        assert(first.best[s] <= ridden.best[s]);
    }
    assert forall|s: int| 0 <= s < v0.best.len() implies (#[trigger] last.best[s]) <= v0.best[s] by {
        assert(ridden.best[s] <= v0.best[s]);
    }
    assert forall|s: int| 0 <= s < stops && s != goal.destination_stop && !(#[trigger] walked.flags[s]) implies last.best[s] == v0.best[s] by {
        assert(last.best[s] == walked.best[s]);
        assert(walked.best[s] == first.best[s]);
        assert(first.best[s] == ridden.best[s]);
        if ridden.best[s] != v0.best[s] {
            assert(ridden.flags[s]);
            assert(first.flags[s]);
        }
    }
}

proof fn round_takes_rides(v0: SearchView, ridden: SearchView, first: SearchView, walked: SearchView, last: SearchView, frontier: Seq<usize>, ctx: SearchContext, keys: Seq<HubKey>, goal: LookaheadGoal, round: int, marked: Seq<usize>, stops: int, rounds: int)
    requires
        round_views(v0, ridden, first, walked, last, frontier, ctx, goal, round, marked, stops, rounds),
        timetable_listed(ctx, keys),
        ctx.data.stops@.len() <= stops,
        goal.destination_stop < stops,
        all_explored(v0, marked, ctx, goal.destination_stop as int),
    ensures
        rides_taken(v0, last, ctx, goal.destination_stop as int),
        all_explored(last, walked.improved, ctx, goal.destination_stop as int),
{
    reveal(round_views);
    let destination = goal.destination_stop as int;
    views_get_better(v0, ridden, first, walked, last, frontier, ctx, goal, round, marked, stops, rounds);
    assert forall|s: int| 0 <= s < ctx.data.stops@.len() && s != destination && (#[trigger] v0.best[s]) < INF_TIME implies rides_served(last, ctx, destination, s, v0.best[s] as int) by {
        if marked.contains(s as usize) {
            marked_are_ridden_from(v0, ctx, keys, destination, round, marked, s);
            served_stays_served(ridden, last, ctx, destination, s, v0.best[s] as int);
        } else {
            assert(rides_served(v0, ctx, destination, s, v0.best[s] as int)) by {
                reveal(all_explored);
            }
            served_stays_served(v0, last, ctx, destination, s, v0.best[s] as int);
        }
    }
    reveal(rides_taken);
    assert forall|s: int| 0 <= s < ctx.data.stops@.len() && s != destination && (#[trigger] last.best[s]) < INF_TIME && !walked.improved.contains(s as usize) implies rides_served(
        last,
        ctx,
        destination,
        s,
        last.best[s] as int,
    ) by {
        assert(!walked.flags[s]) by {
            reveal(labels_tidy);
        }
        assert(last.best[s] == v0.best[s]);
    }
    reveal(all_explored);
}

proof fn tidy_parts(view: SearchView, destination: int, round: int, stops: int, rounds: int)
    requires
        labels_tidy(view, destination, round, stops, rounds),
    ensures
        labels_shaped(view, stops, rounds),
        arrival_noted(view, destination),
        forall|i: int| 0 <= i < view.improved.len() ==> (#[trigger] view.improved[i]) < stops,
{
    reveal(labels_tidy);
}

proof fn listed_is_flagged(view: SearchView, destination: int, round: int, stops: int, rounds: int, s: int)
    requires
        labels_tidy(view, destination, round, stops, rounds),
        0 <= s < stops,
        view.improved.contains(s as usize),
    ensures
        view.flags[s],
        s <= usize::MAX,
{
    reveal(labels_tidy);
    let i = view.improved.index_of(s as usize);
    assert(view.flags[view.improved[i] as int]);
}

proof fn frontier_label(view: SearchView, destination: int, round: int, stops: int, rounds: int, s: int)
    requires
        labels_tidy(view, destination, round, stops, rounds),
        0 <= s < stops,
        view.flags[s],
        s != destination,
    ensures
        view.improved.contains(s as usize),
        view.arrivals[round][s] == view.best[s],
{
    reveal(labels_tidy);
}

proof fn destination_is_no_source(view: SearchView, destination: int, round: int, stops: int, rounds: int)
    requires
        labels_tidy(view, destination, round, stops, rounds),
    ensures
        view.arrivals[round][destination] >= view.best[destination],
{
    reveal(labels_tidy);
}

proof fn round_walks_on(v0: SearchView, ridden: SearchView, first: SearchView, walked: SearchView, last: SearchView, frontier: Seq<usize>, ctx: SearchContext, keys: Seq<HubKey>, goal: LookaheadGoal, round: int, marked: Seq<usize>, stops: int, rounds: int)
    requires
        round_views(v0, ridden, first, walked, last, frontier, ctx, goal, round, marked, stops, rounds),
        timetable_listed(ctx, keys),
        ctx.data.stops@.len() <= stops,
        goal.destination_stop < stops,
        walks_done(v0, *ctx.data, goal.destination_stop as int),
    ensures
        walks_done(last, *ctx.data, goal.destination_stop as int),
{
    reveal(round_views);
    let destination = goal.destination_stop as int;
    let data = *ctx.data;
    views_get_better(v0, ridden, first, walked, last, frontier, ctx, goal, round, marked, stops, rounds);
    assert forall|u: int| 0 <= u < data.stops@.len() && u != destination && (#[trigger] last.best[u]) < INF_TIME implies walks_served(last, data, destination, u) by {
        assert forall|slot: int, v: int| #[trigger] is_walk(data, u, slot, v) && walk_has_shortcuts(data, u, slot, v) implies walk_served(last, data, destination, u, slot, v) by {
            assert(data.transfers@[u]@[slot].to_stop < data.stops@.len());
            assert(0 <= data.transfers@[u]@[slot].duration_secs);
            assert(last.best[v] <= v0.best[v] && last.best[destination] <= v0.best[destination]);
            assert(last.best[destination] <= first.best[destination]);
            assert(last.best[u] == walked.best[u]);
            assert(last.best[v] <= walked.best[v]);
            if walked.best[u] != first.best[u] {
                let (f, k) = choose|f: int, k: int| #[trigger] walk_from_frontier(first, data, round, destination, frontier, f, k, u, walked.best[u] as int);
                let w = frontier[f] as int;
                assert(is_walk(data, w, k, u));
                let j = choose|j: int| #[trigger] is_walk(data, w, j, v) && walk_secs(data, w, j) <= walk_secs(data, w, k) + walk_secs(data, u, slot);
                assert(data.transfers@[w]@[j].duration_secs < INF_TIME);
                rounds_miss_no_walk(first, data, keys, round, destination, frontier, f, j);
            } else if ridden.best[u] != v0.best[u] {
                assert(ridden.flags[u]);
                frontier_label(first, destination, round, stops, rounds, u);
                let f = frontier.index_of(u as usize);
                assert(frontier[f] == u);
                assert(data.transfers@[u]@[slot].duration_secs < INF_TIME);
                if worth_walking(first.arrivals[round], first.best[destination], frontier[f]) {
                    rounds_miss_no_walk(first, data, keys, round, destination, frontier, f, slot);
                }
            } else {
                assert(first.best[u] == ridden.best[u]);
                assert(v0.best[u] < INF_TIME);
                assert(walks_served(v0, data, destination, u)) by {
                    reveal(walks_done);
                }
                assert(walk_served(v0, data, destination, u, slot, v));
            }
        }
    }
    reveal(walks_done);
}

proof fn round_walks_out(v0: SearchView, ridden: SearchView, first: SearchView, walked: SearchView, last: SearchView, frontier: Seq<usize>, ctx: SearchContext, keys: Seq<HubKey>, goal: LookaheadGoal, round: int, marked: Seq<usize>, stops: int, rounds: int)
    requires
        round_views(v0, ridden, first, walked, last, frontier, ctx, goal, round, marked, stops, rounds),
        timetable_listed(ctx, keys),
        ctx.data.stops@.len() <= stops,
        goal.destination_stop < stops,
        egress_done(v0, *ctx.data, goal.destination_egress_edges@, goal.destination_stop as int),
    ensures
        egress_done(last, *ctx.data, goal.destination_egress_edges@, goal.destination_stop as int),
{
    reveal(round_views);
    let destination = goal.destination_stop as int;
    let data = *ctx.data;
    let walks = goal.destination_egress_edges@;
    views_get_better(v0, ridden, first, walked, last, frontier, ctx, goal, round, marked, stops, rounds);
    assert forall|s: int| 0 <= s < data.stops@.len() && s != destination && (#[trigger] last.best[s]) < INF_TIME implies egress_served(last, data, walks, destination, s) by {
        assert forall|e: int| #[trigger] is_first_egress(walks, s, e) && egress_has_shortcuts(data, walks, s, e) implies last.best[destination] <= last.best[s]
            + walks[e].duration_secs by {
            assert(last.best[destination] <= first.best[destination] && last.best[destination] <= v0.best[destination]);
            assert(last.best[s] == walked.best[s]);
            if walked.best[s] != first.best[s] {
                let (f, k) = choose|f: int, k: int| #[trigger] walk_from_frontier(first, data, round, destination, frontier, f, k, s, walked.best[s] as int);
                let w = frontier[f] as int;
                assert(is_walk(data, w, k, s));
                destination_is_no_source(first, destination, round, stops, rounds);
                assert(w != destination);
                let g = choose|g: int| #[trigger] is_first_egress(walks, w, g) && walks[g].duration_secs <= walk_secs(data, w, k) + walks[e].duration_secs;
                assert(is_first_egress(walks, frontier[f] as int, g));
            } else if ridden.best[s] != v0.best[s] {
                assert(ridden.flags[s]);
                frontier_label(first, destination, round, stops, rounds, s);
                let f = frontier.index_of(s as usize);
                assert(frontier[f] == s);
                assert(is_first_egress(walks, frontier[f] as int, e));
            } else {
                assert(first.best[s] == ridden.best[s]);
                assert(v0.best[s] < INF_TIME);
                assert(egress_served(v0, data, walks, destination, s)) by {
                    reveal(egress_done);
                }
            }
        }
    }
    reveal(egress_done);
}

/// The looks of a round: after its rides, after finishing early from the stops they
/// reached, after its walks, and after finishing early once more.
spec fn round_looks(run: QueryRun, ctx: SearchContext, memory: CacheView, goal: LookaheadGoal, round: int) -> (Look, Look, Look, Look) {
    let destination = goal.destination_stop as int;
    let best = run.reach.view.best;
    let prunes = queue_prunes(best, best[destination], run.marked, run.marked.len() as int);
    let tally = LookaheadTally { destination_bound_prunes: counted(run.tally.destination_bound_prunes, prunes), ..run.tally };
    let ridden = after_rides(run.reach.view, ctx, destination, round, run.marked);
    let frontier = ridden.improved;
    let begun = Look { reach: Reach { view: ridden, round: run.reach.round }, tally: tally, counters: run.counters };
    let first = if frontier.len() > 0 { after_finishing(begun, ctx, memory, goal, round, frontier) } else { begun };
    let walked = after_walks(first.reach.view, *ctx.data, round, destination, frontier);
    (begun, first, Look { reach: Reach { view: walked, ..first.reach }, ..first }, after_travel(run, ctx, memory, goal, round))
}

proof fn round_rides_out(run: QueryRun, ctx: SearchContext, memory: CacheView, goal: LookaheadGoal, round: int, stops: int, rounds: int)
    requires
        search_ready(ctx),
        ctx.data.stops@.len() <= stops,
        goal.fits(ctx, stops, rounds),
        labels_shaped(run.reach.view, stops, rounds),
        arrival_noted(run.reach.view, goal.destination_stop as int),
        1 <= round < rounds,
    ensures
        ({
            let destination = goal.destination_stop as int;
            let (begun, first, second, last) = round_looks(run, ctx, memory, goal, round);
            let ridden = begun.reach.view;
            let frontier = ridden.improved;
            &&& labels_tidy(ridden, destination, round, stops, rounds)
            &&& labels_tidy(first.reach.view, destination, round, stops, rounds)
            &&& no_worse(run.reach.view, ridden)
            &&& forall|s: int| 0 <= s < stops && (#[trigger] ridden.best[s]) != run.reach.view.best[s] ==> ridden.flags[s]
            &&& only_arrival(begun.reach, first.reach, destination, stops, rounds)
            &&& forall|k: int, e: int|
                0 <= k < frontier.len() && #[trigger] is_first_egress(goal.destination_egress_edges@, frontier[k] as int, e) && frontier[k] != destination
                    && first.reach.view.arrivals[round][frontier[k] as int] < INF_TIME ==> first.reach.view.best[destination] <= first.reach.view.arrivals[round][frontier[k] as int]
                    + goal.destination_egress_edges@[e].duration_secs
        }),
{
    let destination = goal.destination_stop as int;
    let (begun, first, second, last) = round_looks(run, ctx, memory, goal, round);
    let ridden = begun.reach.view;
    let frontier = ridden.improved;
    rides_are_tidy(run.reach.view, ctx, destination, round, run.marked, stops, rounds);
    tidy_parts(ridden, destination, round, stops, rounds);
    nothing_finished(begun.reach, destination, stops, rounds);
    finishing_is_arrival(begun, ctx, memory, goal, round, frontier, stops, rounds);
    finished_is_tidy(begun.reach, first.reach, destination, round, stops, rounds);
    let fv = first.reach.view;
    assert forall|k: int, e: int|
        0 <= k < frontier.len() && #[trigger] is_first_egress(goal.destination_egress_edges@, frontier[k] as int, e) && frontier[k] != destination && fv.arrivals[round][frontier[k] as int]
            < INF_TIME implies fv.best[destination] <= fv.arrivals[round][frontier[k] as int] + goal.destination_egress_edges@[e].duration_secs by {
        assert(fv.arrivals[round][frontier[k] as int] == ridden.arrivals[round][frontier[k] as int]) by {
            reveal(only_arrival);
        }
    }
}

proof fn round_walks_about(run: QueryRun, ctx: SearchContext, memory: CacheView, goal: LookaheadGoal, round: int, stops: int, rounds: int)
    requires
        search_ready(ctx),
        ctx.data.stops@.len() <= stops,
        goal.fits(ctx, stops, rounds),
        1 <= round < rounds,
        labels_tidy(round_looks(run, ctx, memory, goal, round).1.reach.view, goal.destination_stop as int, round, stops, rounds),
    ensures
        ({
            let destination = goal.destination_stop as int;
            let (begun, first, second, last) = round_looks(run, ctx, memory, goal, round);
            let walked = second.reach.view;
            &&& labels_tidy(walked, destination, round, stops, rounds)
            &&& only_better(first.reach.view, walked)
            &&& forall|s: int| 0 <= s < stops && (#[trigger] walked.best[s]) != first.reach.view.best[s] ==> exists|f: int, slot: int|
                #[trigger] walk_from_frontier(first.reach.view, *ctx.data, round, destination, begun.reach.view.improved, f, slot, s, walked.best[s] as int)
            &&& only_arrival(second.reach, last.reach, destination, stops, rounds)
        }),
{
    let destination = goal.destination_stop as int;
    let (begun, first, second, last) = round_looks(run, ctx, memory, goal, round);
    let frontier = begun.reach.view.improved;
    let walked = second.reach.view;
    walks_are_tidy(first.reach.view, ctx, destination, round, frontier, stops, rounds);
    round_finishes(run, ctx, memory, goal, round, stops, rounds);
}

#[verifier::spinoff_prover]
#[verifier::rlimit(40)]
proof fn round_finishes(run: QueryRun, ctx: SearchContext, memory: CacheView, goal: LookaheadGoal, round: int, stops: int, rounds: int)
    requires
        goal.fits(ctx, stops, rounds),
        1 <= round < rounds,
        labels_tidy(round_looks(run, ctx, memory, goal, round).2.reach.view, goal.destination_stop as int, round, stops, rounds),
    ensures
        only_arrival(
            round_looks(run, ctx, memory, goal, round).2.reach,
            round_looks(run, ctx, memory, goal, round).3.reach,
            goal.destination_stop as int,
            stops,
            rounds,
        ),
{
    let destination = goal.destination_stop as int;
    let (begun, first, second, last) = round_looks(run, ctx, memory, goal, round);
    let frontier = begun.reach.view.improved;
    let walked = second.reach.view;
    let rest = walked.improved.skip(frontier.len() as int);
    tidy_parts(walked, destination, round, stops, rounds);
    if walked.improved.len() > frontier.len() {
        assert forall|i: int| 0 <= i < rest.len() implies (#[trigger] rest[i]) < stops by {
            assert(rest[i] == walked.improved[frontier.len() + i]);
        }
        finishing_is_arrival(second, ctx, memory, goal, round, rest, stops, rounds);
    } else {
        nothing_finished(second.reach, destination, stops, rounds);
    }
}

#[verifier::spinoff_prover]
#[verifier::rlimit(40)]
proof fn round_settles(run: QueryRun, ctx: SearchContext, keys: Seq<HubKey>, memory: CacheView, goal: LookaheadGoal, round: int, stops: int, rounds: int)
    requires
        timetable_listed(ctx, keys),
        goal.fits(ctx, stops, rounds),
        settled(run.reach, run.marked, ctx, goal, stops, rounds),
        1 <= round < rounds,
    ensures
        ({
            let after = after_query_round(run, ctx, memory, goal, round);
            &&& settled(after.reach, after.marked, ctx, goal, stops, rounds)
            &&& no_worse(run.reach.view, after.reach.view)
            &&& rides_taken(run.reach.view, after.reach.view, ctx, goal.destination_stop as int)
        }),
{
    reveal(settled);
    let destination = goal.destination_stop as int;
    let v0 = run.reach.view;
    let (begun, first, second, last) = round_looks(run, ctx, memory, goal, round);
    let ridden = begun.reach.view;
    let fv = first.reach.view;
    let walked = second.reach.view;
    let lv = last.reach.view;
    let frontier = ridden.improved;
    round_rides_out(run, ctx, memory, goal, round, stops, rounds);
    round_walks_about(run, ctx, memory, goal, round, stops, rounds);
    finished_is_tidy(begun.reach, first.reach, destination, round, stops, rounds);
    finished_is_tidy(second.reach, last.reach, destination, round, stops, rounds);
    assert(round_views(v0, ridden, fv, walked, lv, frontier, ctx, goal, round, run.marked, stops, rounds)) by {
        reveal(round_views);
    }
    views_get_better(v0, ridden, fv, walked, lv, frontier, ctx, goal, round, run.marked, stops, rounds);
    round_takes_rides(v0, ridden, fv, walked, lv, frontier, ctx, keys, goal, round, run.marked, stops, rounds);
    round_walks_on(v0, ridden, fv, walked, lv, frontier, ctx, keys, goal, round, run.marked, stops, rounds);
    round_walks_out(v0, ridden, fv, walked, lv, frontier, ctx, keys, goal, round, run.marked, stops, rounds);
    let after = after_query_round(run, ctx, memory, goal, round);
    round_reaches(run, ridden, first.reach, walked, last.reach, destination, stops, rounds);
    noting_changes_nothing(lv, after.reach.view, walked.improved, v0, ctx, goal, stops, rounds);
}

/// A round goes on to the destination from every stop that it reaches on foot, as from those
/// that its rides reach: the destination is then reached no later than on foot from there.
#[verifier::spinoff_prover]
#[verifier::rlimit(60)]
pub proof fn rounds_finish_from_where_they_walk(run: QueryRun, ctx: SearchContext, memory: CacheView, goal: LookaheadGoal, round: int, stops: int, rounds: int, s: int, e: int)
    requires
        search_ready(ctx),
        ctx.data.stops@.len() <= stops,
        goal.fits(ctx, stops, rounds),
        labels_shaped(run.reach.view, stops, rounds),
        arrival_noted(run.reach.view, goal.destination_stop as int),
        1 <= round < rounds,
        0 <= s < stops,
        s != goal.destination_stop,
        is_first_egress(goal.destination_egress_edges@, s, e),
        after_query_round(run, ctx, memory, goal, round).marked.contains(s as usize),
        after_query_round(run, ctx, memory, goal, round).reach.view.best[s] < INF_TIME,
        ({
            let ridden = after_rides(run.reach.view, ctx, goal.destination_stop as int, round, run.marked);
            ridden.improved.contains(s as usize) ==> ridden.best[s] < INF_TIME
        }),
    ensures
        ({
            let after = after_query_round(run, ctx, memory, goal, round).reach.view;
            let ridden = after_rides(run.reach.view, ctx, goal.destination_stop as int, round, run.marked);
            let reached = if ridden.improved.contains(s as usize) { ridden.best[s] } else { after.best[s] };
            after.best[goal.destination_stop as int] <= reached + goal.destination_egress_edges@[e].duration_secs
        }),
{
    let destination = goal.destination_stop as int;
    let walks = goal.destination_egress_edges@;
    let (begun, first, second, last) = round_looks(run, ctx, memory, goal, round);
    let ridden = begun.reach.view;
    let frontier = ridden.improved;
    let walked = second.reach.view;
    round_rides_out(run, ctx, memory, goal, round, stops, rounds);
    round_walks_about(run, ctx, memory, goal, round, stops, rounds);
    finished_is_tidy(begun.reach, first.reach, destination, round, stops, rounds);
    finished_is_tidy(second.reach, last.reach, destination, round, stops, rounds);
    let lv = last.reach.view;
    let fv = first.reach.view;
    assert(fv.best.len() == stops && walked.best.len() == stops) by {
        tidy_parts(fv, destination, round, stops, rounds);
        tidy_parts(walked, destination, round, stops, rounds);
    }
    assert(lv.best[destination] <= walked.best[destination] <= fv.best[destination]);
    listed_is_flagged(walked, destination, round, stops, rounds, s);
    if frontier.contains(s as usize) {
        let k = frontier.index_of(s as usize);
        assert(frontier[k] == s);
        assert(is_first_egress(walks, frontier[k] as int, e));
        listed_is_flagged(fv, destination, round, stops, rounds, s);
        frontier_label(fv, destination, round, stops, rounds, s);
        assert(fv.best[s] == ridden.best[s]);
        assert(lv.best[s] == walked.best[s]);
    } else {
        let at = walked.improved.index_of(s as usize);
        let rest = walked.improved.skip(frontier.len() as int);
        if at < frontier.len() {
            assert(walked.improved[at] == fv.improved[at]);
            assert(frontier[at] == s as usize);
        }
        let k = at - frontier.len();
        assert(rest[k] == s as usize);
        frontier_label(walked, destination, round, stops, rounds, s);
        assert(lv.best[s] == walked.best[s]);
        round_finishes_out(run, ctx, memory, goal, round, stops, rounds, k, e);
    }
}

#[verifier::spinoff_prover]
#[verifier::rlimit(40)]
proof fn round_finishes_out(run: QueryRun, ctx: SearchContext, memory: CacheView, goal: LookaheadGoal, round: int, stops: int, rounds: int, k: int, e: int)
    requires
        goal.fits(ctx, stops, rounds),
        1 <= round < rounds,
        labels_tidy(round_looks(run, ctx, memory, goal, round).2.reach.view, goal.destination_stop as int, round, stops, rounds),
        ({
            let (begun, first, second, last) = round_looks(run, ctx, memory, goal, round);
            let rest = second.reach.view.improved.skip(begun.reach.view.improved.len() as int);
            &&& begun.reach.view.improved.len() <= second.reach.view.improved.len()
            &&& 0 <= k < rest.len()
            &&& rest[k] != goal.destination_stop
            &&& is_first_egress(goal.destination_egress_edges@, rest[k] as int, e)
            &&& second.reach.view.arrivals[round][rest[k] as int] < INF_TIME
        }),
    ensures
        ({
            let (begun, first, second, last) = round_looks(run, ctx, memory, goal, round);
            let rest = second.reach.view.improved.skip(begun.reach.view.improved.len() as int);
            last.reach.view.best[goal.destination_stop as int] <= second.reach.view.arrivals[round][rest[k] as int] + goal.destination_egress_edges@[e].duration_secs
        }),
{
    let destination = goal.destination_stop as int;
    let (begun, first, second, last) = round_looks(run, ctx, memory, goal, round);
    let frontier = begun.reach.view.improved;
    let walked = second.reach.view;
    let rest = walked.improved.skip(frontier.len() as int);
    tidy_parts(walked, destination, round, stops, rounds);
    assert forall|i: int| 0 <= i < rest.len() implies (#[trigger] rest[i]) < stops by {
        assert(rest[i] == walked.improved[frontier.len() + i]);
    }
    finishing_is_arrival(second, ctx, memory, goal, round, rest, stops, rounds);
}

proof fn round_reaches(run: QueryRun, ridden: SearchView, first: Reach, walked: SearchView, last: Reach, destination: int, stops: int, rounds: int)
    requires
        run.reach.view.best.len() == stops,
        0 <= destination < stops,
        run.reach.view.best[destination] < INF_TIME ==> run.reach.round is Some,
        only_arrival(Reach { view: ridden, round: run.reach.round }, first, destination, stops, rounds),
        only_arrival(Reach { view: walked, ..first }, last, destination, stops, rounds),
        only_better(first.view, walked),
        forall|s: int| 0 <= s < stops && (#[trigger] ridden.best[s]) != run.reach.view.best[s] ==> ridden.flags[s],
    ensures
        last.view.best[destination] < INF_TIME ==> last.view.flags[destination] || last.round is Some,
{
    reveal(only_arrival);
    if last.view.best[destination] < INF_TIME && last.round is None {
        assert(last.view.best[destination] == walked.best[destination]);
        assert(first.round is None);
        assert(first.view.best[destination] == ridden.best[destination]);
        assert(run.reach.round is None);
        if walked.best[destination] != first.view.best[destination] {
            assert(walked.flags[destination]);
        } else if ridden.best[destination] != run.reach.view.best[destination] {
            assert(ridden.flags[destination]);
            assert(first.view.flags[destination]);
        }
    }
}

proof fn noting_changes_nothing(view: SearchView, noted: SearchView, marked: Seq<usize>, v0: SearchView, ctx: SearchContext, goal: LookaheadGoal, stops: int, rounds: int)
    requires
        noted == (SearchView { improved: noted.improved, ..view }),
        labels_shaped(view, stops, rounds),
        arrival_noted(view, goal.destination_stop as int),
        all_explored(view, marked, ctx, goal.destination_stop as int),
        walks_done(view, *ctx.data, goal.destination_stop as int),
        egress_done(view, *ctx.data, goal.destination_egress_edges@, goal.destination_stop as int),
        rides_taken(v0, view, ctx, goal.destination_stop as int),
    ensures
        labels_shaped(noted, stops, rounds),
        arrival_noted(noted, goal.destination_stop as int),
        all_explored(noted, marked, ctx, goal.destination_stop as int),
        walks_done(noted, *ctx.data, goal.destination_stop as int),
        egress_done(noted, *ctx.data, goal.destination_egress_edges@, goal.destination_stop as int),
        rides_taken(v0, noted, ctx, goal.destination_stop as int),
{
    let destination = goal.destination_stop as int;
    if view.best[destination] < INF_TIME {
        let r = choose|r: int| #[trigger] noted_in(view, destination, r);
        assert(noted_in(noted, destination, r));
    }
    assert forall|s: int, ready: int| #[trigger] rides_served(view, ctx, destination, s, ready) implies rides_served(noted, ctx, destination, s, ready) by {
        assert forall|l: int, p: int, i: int, q: int| #[trigger] ride_possible(ctx, l, p, i, q, ready) && ctx.data.lines@[l].stop_indices@[p] == s implies reached_by(
            noted,
            ctx,
            ctx.data.lines@[l],
            destination,
            ctx.data.lines@[l].trip_indices@[i],
            q,
        ) by {
            assert(reached_by(view, ctx, ctx.data.lines@[l], destination, ctx.data.lines@[l].trip_indices@[i], q));
        }
    }
    assert(all_explored(noted, marked, ctx, destination)) by {
        reveal(all_explored);
        assert forall|s: int| 0 <= s < ctx.data.stops@.len() && s != destination && (#[trigger] noted.best[s]) < INF_TIME && !marked.contains(s as usize) implies rides_served(
            noted,
            ctx,
            destination,
            s,
            noted.best[s] as int,
        ) by {
            assert(rides_served(view, ctx, destination, s, view.best[s] as int));
        }
    }
    assert(rides_taken(v0, noted, ctx, destination)) by {
        reveal(rides_taken);
        assert forall|s: int| 0 <= s < ctx.data.stops@.len() && s != destination && (#[trigger] v0.best[s]) < INF_TIME implies rides_served(
            noted,
            ctx,
            destination,
            s,
            v0.best[s] as int,
        ) by {
            assert(rides_served(view, ctx, destination, s, v0.best[s] as int));
        }
    }
    assert(walks_done(noted, *ctx.data, destination)) by {
        reveal(walks_done);
        assert forall|u: int| 0 <= u < ctx.data.stops@.len() && u != destination && (#[trigger] noted.best[u]) < INF_TIME implies walks_served(noted, *ctx.data, destination, u) by {
            assert(walks_served(view, *ctx.data, destination, u));
            assert forall|slot: int, v: int| #[trigger] is_walk(*ctx.data, u, slot, v) && walk_has_shortcuts(*ctx.data, u, slot, v) implies walk_served(
                noted,
                *ctx.data,
                destination,
                u,
                slot,
                v,
            ) by {
                assert(walk_served(view, *ctx.data, destination, u, slot, v));
            }
        }
    }
    assert(egress_done(noted, *ctx.data, goal.destination_egress_edges@, destination)) by {
        reveal(egress_done);
        assert forall|s: int| 0 <= s < ctx.data.stops@.len() && s != destination && (#[trigger] noted.best[s]) < INF_TIME implies egress_served(
            noted,
            *ctx.data,
            goal.destination_egress_edges@,
            destination,
            s,
        ) by {
            assert(egress_served(view, *ctx.data, goal.destination_egress_edges@, destination, s));
        }
    }
}

/// Whether one can be at a stop at a time without a ride: at the origin when the query
/// departs, or after a walk from there.
pub open spec fn can_walk_to(data: StaticData, plan: QueryPlan, departure: i32, stop: int, time: int) -> bool {
    ||| stop == plan.from_index && time == departure
    ||| plan.source_access_edges@.len() == 0 && exists|slot: int| #[trigger] is_walk(data, plan.from_index as int, slot, stop) && time == departure + walk_secs(
        data,
        plan.from_index as int,
        slot,
    )
    ||| exists|e: int|
        0 <= e < plan.source_access_edges@.len() && (#[trigger] plan.source_access_edges@[e]).to_stop == stop && time == departure + plan.source_access_edges@[e].duration_secs
}

/// Whether who rides a trip and gets off at a call is at a stop at a time: there, or after
/// a walk on from there.
pub open spec fn ride_leads_to(ctx: SearchContext, l: int, i: int, q: int, stop: int, time: int) -> bool {
    let line = ctx.data.lines@[l];
    let off = line.stop_indices@[q] as int;
    let arrival = ctx.arrival(line.trip_indices@[i] as int, q);
    ||| stop == off && time == arrival
    ||| exists|slot: int| #[trigger] is_walk(*ctx.data, off, slot, stop) && walk_has_shortcuts(*ctx.data, off, slot, stop) && time == arrival + walk_secs(*ctx.data, off, slot)
}

/// Whether one can go on by a ride from a stop at a time, and so be at another.
pub open spec fn goes_on(ctx: SearchContext, from: int, ready: int, l: int, p: int, i: int, q: int, stop: int, time: int) -> bool {
    &&& 0 <= from < ctx.data.stops@.len()
    &&& ride_possible(ctx, l, p, i, q, ready)
    &&& ctx.data.lines@[l].stop_indices@[p] == from
    &&& ride_leads_to(ctx, l, i, q, stop, time)
}

/// Whether one can be at a stop at a time after so many rides: each on a trip that runs
/// that day, boarded no earlier than one is there, with a walk on between two rides, or
/// none. A walk on must have shortcuts.
pub open spec fn can_be_at(ctx: SearchContext, plan: QueryPlan, departure: i32, stop: int, time: int, rides: nat) -> bool
    decreases rides,
{
    if rides == 0 {
        can_walk_to(*ctx.data, plan, departure, stop, time)
    } else {
        exists|from: int, ready: int, l: int, p: int, i: int, q: int|
            can_be_at(ctx, plan, departure, from, ready, (rides - 1) as nat) && #[trigger] goes_on(ctx, from, ready, l, p, i, q, stop, time)
    }
}

/// Whether one can be at the destination at a time after so many rides: there as at any
/// stop, or after a walk from one.
pub open spec fn can_arrive(ctx: SearchContext, plan: QueryPlan, departure: i32, time: int, rides: nat) -> bool {
    let walks = plan.destination_egress_edges@;
    ||| can_be_at(ctx, plan, departure, plan.to_index as int, time, rides)
    ||| exists|stop: int, ready: int, e: int| {
        &&& 0 <= stop < ctx.data.stops@.len()
        &&& can_be_at(ctx, plan, departure, stop, ready, rides)
        &&& #[trigger] is_first_egress(walks, stop, e)
        &&& egress_has_shortcuts(*ctx.data, walks, stop, e)
        &&& time == #[trigger] (ready + walks[e].duration_secs)
    }
}

#[verifier::opaque]
spec fn covers(view: SearchView, ctx: SearchContext, plan: QueryPlan, departure: i32, rides: nat) -> bool {
    forall|stop: int, time: int| #[trigger] can_be_at(ctx, plan, departure, stop, time, rides) ==> 0 <= stop < view.best.len() && (view.best[stop] <= time || view.best[plan.to_index as int] <= time)
}

proof fn covered_stays_covered(before: SearchView, after: SearchView, ctx: SearchContext, plan: QueryPlan, departure: i32, rides: nat)
    requires
        covers(before, ctx, plan, departure, rides),
        no_worse(before, after),
        plan.to_index < before.best.len(),
    ensures
        covers(after, ctx, plan, departure, rides),
{
    reveal(covers);
    assert forall|stop: int, time: int| #[trigger] can_be_at(ctx, plan, departure, stop, time, rides) implies 0 <= stop < after.best.len() && (after.best[stop] <= time
        || after.best[plan.to_index as int] <= time) by {
        assert(after.best[stop] <= before.best[stop]);
        assert(after.best[plan.to_index as int] <= before.best[plan.to_index as int]);
    }
}

proof fn ride_on_is_covered(
    before: SearchView,
    after: SearchView,
    ctx: SearchContext,
    keys: Seq<HubKey>,
    destination: int,
    from: int,
    ready: int,
    l: int,
    p: int,
    i: int,
    q: int,
    stop: int,
    time: int,
)
    requires
        timetable_listed(ctx, keys),
        goes_on(ctx, from, ready, l, p, i, q, stop, time),
        before.best[from] <= ready || before.best[destination] <= ready,
        no_worse(before, after),
        ctx.data.stops@.len() <= before.best.len(),
        0 <= destination < before.best.len(),
        rides_taken(before, after, ctx, destination),
        walks_done(after, *ctx.data, destination),
        after.best[destination] <= INF_TIME,
    ensures
        0 <= stop < after.best.len(),
        after.best[stop] <= time || after.best[destination] <= time,
{
    let data = *ctx.data;
    let line = ctx.data.lines@[l];
    let trip = line.trip_indices@[i];
    let off = line.stop_indices@[q] as int;
    let arrival = ctx.arrival(trip as int, q);
    assert(line.stop_indices@[q] < data.stops@.len());
    assert(ctx.departure(line.trip_indices@[i] as int, p) <= ctx.arrival(line.trip_indices@[i] as int, q));
    assert(after.best[destination] <= before.best[destination]);
    let walks_on = !(stop == off && time == arrival);
    let slot = choose|slot: int| #[trigger] is_walk(data, off, slot, stop) && walk_has_shortcuts(data, off, slot, stop) && time == arrival + walk_secs(data, off, slot);
    if walks_on {
        assert(data.transfers@[off]@[slot].to_stop < data.stops@.len());
        assert(0 <= data.transfers@[off]@[slot].duration_secs);
    }
    assert(ready <= arrival <= time);
    if before.best[destination] > ready {
        assert(from != destination);
        assert(before.best[from] < INF_TIME);
        assert(rides_served(after, ctx, destination, from, before.best[from] as int)) by {
            reveal(rides_taken);
        }
        assert(ride_possible(ctx, l, p, i, q, before.best[from] as int));
        assert(reached_by(after, ctx, line, destination, trip, q));
        if after.best[destination] > arrival && walks_on {
            assert(after.best[off] <= arrival);
            assert(off != destination);
            assert(after.best[off] < INF_TIME);
            assert(walks_served(after, data, destination, off)) by {
                reveal(walks_done);
            }
            assert(walk_served(after, data, destination, off, slot, stop));
        }
    }
}

proof fn one_ride_more_is_covered(before: SearchView, after: SearchView, ctx: SearchContext, keys: Seq<HubKey>, plan: QueryPlan, departure: i32, rides: nat)
    requires
        timetable_listed(ctx, keys),
        rides > 0,
        covers(before, ctx, plan, departure, (rides - 1) as nat),
        no_worse(before, after),
        ctx.data.stops@.len() <= before.best.len(),
        plan.to_index < before.best.len(),
        rides_taken(before, after, ctx, plan.to_index as int),
        walks_done(after, *ctx.data, plan.to_index as int),
        after.best[plan.to_index as int] <= INF_TIME,
    ensures
        covers(after, ctx, plan, departure, rides),
{
    let destination = plan.to_index as int;
    assert forall|stop: int, time: int| #[trigger] can_be_at(ctx, plan, departure, stop, time, rides) implies 0 <= stop < after.best.len() && (after.best[stop] <= time
        || after.best[destination] <= time) by {
        let (from, ready, l, p, i, q) = choose|from: int, ready: int, l: int, p: int, i: int, q: int|
            can_be_at(ctx, plan, departure, from, ready, (rides - 1) as nat) && #[trigger] goes_on(ctx, from, ready, l, p, i, q, stop, time);
        assert(before.best[from] <= ready || before.best[destination] <= ready) by {
            reveal(covers);
        }
        ride_on_is_covered(before, after, ctx, keys, destination, from, ready, l, p, i, q, stop, time);
    }
    reveal(covers);
}

proof fn idle_rounds_are_covered(view: SearchView, ctx: SearchContext, keys: Seq<HubKey>, plan: QueryPlan, departure: i32, n: nat, rides: nat)
    requires
        timetable_listed(ctx, keys),
        covers(view, ctx, plan, departure, n),
        ctx.data.stops@.len() <= view.best.len(),
        plan.to_index < view.best.len(),
        all_explored(view, Seq::empty(), ctx, plan.to_index as int),
        walks_done(view, *ctx.data, plan.to_index as int),
        view.best[plan.to_index as int] <= INF_TIME,
        n <= rides,
    ensures
        covers(view, ctx, plan, departure, rides),
    decreases rides - n,
{
    if n < rides {
        idle_rounds_are_covered(view, ctx, keys, plan, departure, n, (rides - 1) as nat);
        assert(rides_taken(view, view, ctx, plan.to_index as int)) by {
            reveal(all_explored);
            reveal(rides_taken);
        }
        one_ride_more_is_covered(view, view, ctx, keys, plan, departure, rides);
    }
}

proof fn idle_query_covers(reach: Reach, marked: Seq<usize>, ctx: SearchContext, keys: Seq<HubKey>, goal: LookaheadGoal, plan: QueryPlan, departure: i32, n: nat, stops: int, rounds: int, rides: nat)
    requires
        timetable_listed(ctx, keys),
        goal.destination_stop == plan.to_index,
        plan.to_index < stops,
        settled(reach, marked, ctx, goal, stops, rounds),
        marked.len() == 0,
        reach.view.best[plan.to_index as int] <= INF_TIME,
        covers(reach.view, ctx, plan, departure, n),
        n <= rides,
    ensures
        covers(reach.view, ctx, plan, departure, rides),
{
    reveal(settled);
    assert(marked =~= Seq::<usize>::empty());
    idle_rounds_are_covered(reach.view, ctx, keys, plan, departure, n, rides);
}

proof fn round_covers(
    before: Reach,
    after: Reach,
    marked: Seq<usize>,
    next: Seq<usize>,
    ctx: SearchContext,
    keys: Seq<HubKey>,
    goal: LookaheadGoal,
    plan: QueryPlan,
    departure: i32,
    round: nat,
    stops: int,
    rounds: int,
    rides: nat,
)
    requires
        timetable_listed(ctx, keys),
        goal.destination_stop == plan.to_index,
        plan.to_index < stops,
        settled(before, marked, ctx, goal, stops, rounds),
        settled(after, next, ctx, goal, stops, rounds),
        before.view.best[plan.to_index as int] <= INF_TIME,
        no_worse(before.view, after.view),
        rides_taken(before.view, after.view, ctx, plan.to_index as int),
        round >= 1,
        covers(before.view, ctx, plan, departure, if rides < round { rides } else { (round - 1) as nat }),
    ensures
        after.view.best[plan.to_index as int] <= INF_TIME,
        covers(after.view, ctx, plan, departure, if rides < round { rides } else { round }),
{
    reveal(settled);
    assert(after.view.best[plan.to_index as int] <= before.view.best[plan.to_index as int]);
    if rides < round {
        covered_stays_covered(before.view, after.view, ctx, plan, departure, rides);
    } else {
        one_ride_more_is_covered(before.view, after.view, ctx, keys, plan, departure, round);
    }
}

#[verifier::opaque]
spec fn one_round(run: QueryRun, ctx: SearchContext, memory: CacheView, goal: LookaheadGoal, round: int) -> QueryRun {
    after_query_round(run, ctx, memory, goal, round)
}

#[verifier::opaque]
spec fn all_rounds(run: QueryRun, ctx: SearchContext, memory: CacheView, goal: LookaheadGoal, round: int) -> QueryRun {
    after_query_rounds(run, ctx, memory, goal, round)
}

proof fn rounds_run_on(run: QueryRun, ctx: SearchContext, memory: CacheView, goal: LookaheadGoal, round: int)
    ensures
        all_rounds(run, ctx, memory, goal, round) == if round > goal.max_rounds || run.marked.len() == 0 {
            run
        } else {
            all_rounds(one_round(run, ctx, memory, goal, round), ctx, memory, goal, round + 1)
        },
{
    reveal(one_round);
    reveal(all_rounds);
}

proof fn one_round_settles(run: QueryRun, ctx: SearchContext, keys: Seq<HubKey>, memory: CacheView, goal: LookaheadGoal, round: int, stops: int, rounds: int)
    requires
        timetable_listed(ctx, keys),
        goal.fits(ctx, stops, rounds),
        settled(run.reach, run.marked, ctx, goal, stops, rounds),
        1 <= round < rounds,
    ensures
        ({
            let after = one_round(run, ctx, memory, goal, round);
            &&& settled(after.reach, after.marked, ctx, goal, stops, rounds)
            &&& no_worse(run.reach.view, after.reach.view)
            &&& rides_taken(run.reach.view, after.reach.view, ctx, goal.destination_stop as int)
        }),
{
    reveal(one_round);
    round_settles(run, ctx, keys, memory, goal, round, stops, rounds);
}

proof fn rounds_cover(run: QueryRun, ctx: SearchContext, keys: Seq<HubKey>, memory: CacheView, goal: LookaheadGoal, plan: QueryPlan, departure: i32, round: int, stops: int, rides: nat)
    requires
        timetable_listed(ctx, keys),
        goal.fits(ctx, stops, goal.max_rounds + 1),
        goal.destination_stop == plan.to_index,
        settled(run.reach, run.marked, ctx, goal, stops, goal.max_rounds + 1),
        run.reach.view.best[plan.to_index as int] <= INF_TIME,
        1 <= round,
        rides <= goal.max_rounds,
        covers(run.reach.view, ctx, plan, departure, if rides < round { rides } else { (round - 1) as nat }),
    ensures
        ({
            let done = all_rounds(run, ctx, memory, goal, round);
            &&& settled(done.reach, done.marked, ctx, goal, stops, goal.max_rounds + 1)
            &&& covers(done.reach.view, ctx, plan, departure, rides)
        }),
    decreases goal.max_rounds + 1 - round,
{
    let rounds = goal.max_rounds + 1;
    rounds_run_on(run, ctx, memory, goal, round);
    if round > goal.max_rounds {
    } else if run.marked.len() == 0 {
        if rides >= round {
            idle_query_covers(run.reach, run.marked, ctx, keys, goal, plan, departure, (round - 1) as nat, stops, rounds, rides);
        }
    } else {
        let after = one_round(run, ctx, memory, goal, round);
        one_round_settles(run, ctx, keys, memory, goal, round, stops, rounds);
        round_covers(run.reach, after.reach, run.marked, after.marked, ctx, keys, goal, plan, departure, round as nat, stops, rounds, rides);
        rounds_cover(after, ctx, keys, memory, goal, plan, departure, round + 1, stops, rides);
    }
}

/// A search after walks from a stop that was reached at a time.
spec fn walked_on(search: LocalSearch, data: StaticData, x: usize, ready: int, destination: int) -> LocalSearch {
    after_first_walks(search, data.transfers@[x as int]@, x, ready, destination, data.transfers@[x as int]@.len() as int)
}

proof fn first_walks_are_tidy(search: LocalSearch, data: StaticData, x: usize, ready: int, destination: int, n: int, stops: int, rounds: int)
    requires
        labels_tidy(search.view, destination, 0, stops, rounds),
        walks_valid(data.transfers@, data.stops@.len() as int),
        data.stops@.len() <= stops,
        x < data.transfers@.len(),
        0 <= n <= data.transfers@[x as int]@.len(),
        i32::MIN <= ready <= INF_TIME,
    ensures
        ({
            let walks = data.transfers@[x as int]@;
            let after = after_first_walks(search, walks, x, ready, destination, n);
            &&& labels_tidy(after.view, destination, 0, stops, rounds)
            &&& only_better(search.view, after.view)
            &&& search.view.flags.len() == search.view.best.len() == stops
            &&& forall|k: int| 0 <= k < n ==> after.view.best[(#[trigger] walks[k]).to_stop as int] <= ready + walks[k].duration_secs
            &&& forall|s: int| 0 <= s < stops && (#[trigger] after.view.best[s]) != search.view.best[s] ==> exists|k: int|
                #[trigger] is_walk(data, x as int, k, s) && after.view.best[s] == ready + walk_secs(data, x as int, k)
            &&& after.view.best[destination] != search.view.best[destination] ==> after.reached is Some
            &&& search.reached is Some ==> after.reached is Some
        }),
    decreases n,
{
    assert(search.view.best.len() == stops && search.view.flags.len() == stops && 0 <= destination < stops) by {
        reveal(labels_tidy);
    }
    if n > 0 {
        let walks = data.transfers@[x as int]@;
        first_walks_are_tidy(search, data, x, ready, destination, n - 1, stops, rounds);
        let before = after_first_walks(search, walks, x, ready, destination, n - 1);
        let after = after_first_walks(search, walks, x, ready, destination, n);
        let walk = walks[n - 1];
        assert(data.transfers@[x as int]@[n - 1].to_stop < data.stops@.len());
        assert(0 <= data.transfers@[x as int]@[n - 1].duration_secs <= i32::MAX - INF_TIME);
        let candidate = (ready + walk.duration_secs) as i32;
        assert(candidate == ready + walk.duration_secs);
        let parent = ParentView::Walk { from_stop: x, duration_secs: walk.duration_secs, distance_meters: walk.distance_meters };
        improvement_is_tidy(before.view, 0, walk.to_stop as int, candidate, parent, destination, stops, rounds);
        better_and_better(search.view, before.view, after.view);
        assert forall|k: int| 0 <= k < n implies after.view.best[(#[trigger] walks[k]).to_stop as int] <= ready + walks[k].duration_secs by {
            assert(data.transfers@[x as int]@[k].to_stop < data.stops@.len());
            assert(after.view.best[walks[k].to_stop as int] <= before.view.best[walks[k].to_stop as int]);
        }
        assert forall|s: int| 0 <= s < stops && (#[trigger] after.view.best[s]) != search.view.best[s] implies exists|k: int|
            #[trigger] is_walk(data, x as int, k, s) && after.view.best[s] == ready + walk_secs(data, x as int, k) by {
            if after.view.best[s] != before.view.best[s] {
                assert(is_walk(data, x as int, n - 1, s));
            } else {
                let k = choose|k: int| #[trigger] is_walk(data, x as int, k, s) && before.view.best[s] == ready + walk_secs(data, x as int, k);
                assert(is_walk(data, x as int, k, s));
            }
        }
    }
}

proof fn walking_on_serves(search: LocalSearch, data: StaticData, x: usize, ready: int, destination: int, stops: int, rounds: int, u: int)
    requires
        labels_tidy(search.view, destination, 0, stops, rounds),
        walks_valid(data.transfers@, data.stops@.len() as int),
        data.stops@.len() <= stops,
        x < data.transfers@.len() == data.stops@.len(),
        i32::MIN <= ready <= INF_TIME,
        search.view.best[x as int] == ready,
        0 <= u < data.stops@.len(),
        u == x || walked_on(search, data, x, ready, destination).view.best[u] != search.view.best[u] || walks_served(search.view, data, destination, u),
    ensures
        walks_served(walked_on(search, data, x, ready, destination).view, data, destination, u),
{
    let walks = data.transfers@[x as int]@;
    let after = walked_on(search, data, x, ready, destination).view;
    first_walks_are_tidy(search, data, x, ready, destination, walks.len() as int, stops, rounds);
    assert(0 <= destination < stops) by {
        reveal(labels_tidy);
    }
    assert forall|slot: int, v: int| #[trigger] is_walk(data, u, slot, v) && walk_has_shortcuts(data, u, slot, v) implies walk_served(after, data, destination, u, slot, v) by {
        assert(data.transfers@[u]@[slot].to_stop < data.stops@.len());
        assert(after.best[v] <= search.view.best[v] && after.best[destination] <= search.view.best[destination]);
        if after.best[u] != search.view.best[u] {
            let k = choose|k: int| #[trigger] is_walk(data, x as int, k, u) && after.best[u] == ready + walk_secs(data, x as int, k);
            let j = choose|j: int| #[trigger] is_walk(data, x as int, j, v) && walk_secs(data, x as int, j) <= walk_secs(data, x as int, k) + walk_secs(data, u, slot);
            assert(after.best[walks[j].to_stop as int] <= ready + walks[j].duration_secs);
        } else if u == x {
            assert(after.best[walks[slot].to_stop as int] <= ready + walks[slot].duration_secs);
        } else {
            assert(walk_served(search.view, data, destination, u, slot, v));
        }
    }
}

/// Whether a stop is still to be walked on from.
spec fn is_waiting(seeds: Seq<usize>, n: int, u: int) -> bool {
    exists|j: int| n <= j < seeds.len() && #[trigger] seeds[j] == u
}

spec fn walks_done_but(view: SearchView, data: StaticData, destination: int, seeds: Seq<usize>, n: int) -> bool {
    forall|u: int| 0 <= u < data.stops@.len() && u != destination && (#[trigger] view.best[u]) < INF_TIME && !is_waiting(seeds, n, u) ==> walks_served(view, data, destination, u)
}

proof fn seeds_are_walked_from(search: LocalSearch, data: StaticData, seeds: Seq<usize>, destination: int, n: int, stops: int, rounds: int)
    requires
        labels_tidy(search.view, destination, 0, stops, rounds),
        walks_valid(data.transfers@, data.stops@.len() as int),
        data.transfers@.len() == data.stops@.len() <= stops,
        seeds == search.view.improved,
        forall|i: int| 0 <= i < seeds.len() ==> (#[trigger] seeds[i]) < data.stops@.len(),
        forall|u: int| 0 <= u < data.stops@.len() && !(#[trigger] search.view.flags[u]) ==> search.view.best[u] >= INF_TIME,
        0 <= n <= seeds.len(),
    ensures
        ({
            let after = after_seeds(search, data, seeds, destination, n);
            &&& labels_tidy(after.view, destination, 0, stops, rounds)
            &&& only_better(search.view, after.view)
            &&& search.view.flags.len() == search.view.best.len() == stops
            &&& walks_done_but(after.view, data, destination, seeds, n)
            &&& after.view.best[destination] != search.view.best[destination] ==> after.reached is Some
            &&& search.reached is Some ==> after.reached is Some
        }),
    decreases n,
{
    assert(search.view.best.len() == stops && search.view.flags.len() == stops && 0 <= destination < stops <= usize::MAX) by {
        reveal(labels_tidy);
    }
    if n <= 0 {
        assert forall|u: int| 0 <= u < data.stops@.len() && u != destination && (#[trigger] search.view.best[u]) < INF_TIME && !is_waiting(seeds, n, u) implies walks_served(
            search.view,
            data,
            destination,
            u,
        ) by {
            assert(search.view.flags[u]);
            frontier_label(search.view, destination, 0, stops, rounds, u);
            let j = seeds.index_of(u as usize);
            assert(seeds[j] == u);
        }
    } else {
        seeds_are_walked_from(search, data, seeds, destination, n - 1, stops, rounds);
        let before = after_seeds(search, data, seeds, destination, n - 1);
        let after = after_seeds(search, data, seeds, destination, n);
        let x = seeds[n - 1];
        let ready = before.view.arrivals[0][x as int];
        assert(search.view.flags[x as int]) by {
            reveal(labels_tidy);
        }
        assert(before.view.flags[x as int]);
        if x != destination {
            frontier_label(before.view, destination, 0, stops, rounds, x as int);
        } else {
            destination_is_no_source(before.view, destination, 0, stops, rounds);
        }
        let walks = data.transfers@[x as int]@;
        if ready < INF_TIME && ready < before.view.best[destination] {
            first_walks_are_tidy(before, data, x, ready as int, destination, walks.len() as int, stops, rounds);
            better_and_better(search.view, before.view, after.view);
            assert(after == walked_on(before, data, x, ready as int, destination));
        }
        assert forall|u: int| 0 <= u < data.stops@.len() && u != destination && (#[trigger] after.view.best[u]) < INF_TIME && !is_waiting(seeds, n, u) implies walks_served(
            after.view,
            data,
            destination,
            u,
        ) by {
            if ready < INF_TIME && ready < before.view.best[destination] {
                if u != x && after.view.best[u] == before.view.best[u] {
                    if is_waiting(seeds, n - 1, u) {
                        let j = choose|j: int| n - 1 <= j < seeds.len() && #[trigger] seeds[j] == u;
                        assert(seeds[j] == u);
                    }
                    assert(walks_served(before.view, data, destination, u));
                }
                walking_on_serves(before, data, x, ready as int, destination, stops, rounds, u);
            } else if u == x {
                assert forall|slot: int, v: int| #[trigger] is_walk(data, u, slot, v) && walk_has_shortcuts(data, u, slot, v) implies walk_served(
                    after.view,
                    data,
                    destination,
                    u,
                    slot,
                    v,
                ) by {
                    assert(0 <= data.transfers@[u]@[slot].duration_secs);
                }
            } else {
                if is_waiting(seeds, n - 1, u) {
                    let j = choose|j: int| n - 1 <= j < seeds.len() && #[trigger] seeds[j] == u;
                    assert(seeds[j] == u);
                }
            }
        }
    }
}

proof fn access_is_tidy(search: LocalSearch, data: StaticData, edges: Seq<QueryVirtualWalk>, departure: int, destination: int, n: int, stops: int, rounds: int)
    requires
        labels_tidy(search.view, destination, 0, stops, rounds),
        data.stops@.len() <= stops,
        query_walks_valid(edges, stops),
        forall|i: int| 0 <= i < edges.len() ==> (#[trigger] edges[i]).to_stop < data.stops@.len(),
        forall|i: int| 0 <= i < search.view.improved.len() ==> (#[trigger] search.view.improved[i]) < data.stops@.len(),
        0 <= n <= edges.len(),
        i32::MIN <= departure <= INF_TIME,
    ensures
        ({
            let after = after_access(search, edges, departure, destination, n);
            &&& labels_tidy(after.view, destination, 0, stops, rounds)
            &&& only_better(search.view, after.view)
            &&& search.view.flags.len() == search.view.best.len() == stops
            &&& forall|k: int| 0 <= k < n ==> after.view.best[(#[trigger] edges[k]).to_stop as int] <= departure + edges[k].duration_secs
            &&& forall|i: int| 0 <= i < after.view.improved.len() ==> (#[trigger] after.view.improved[i]) < data.stops@.len()
            &&& after.view.best[destination] != search.view.best[destination] ==> after.reached is Some
            &&& search.reached is Some ==> after.reached is Some
        }),
    decreases n,
{
    assert(search.view.best.len() == stops && search.view.flags.len() == stops && 0 <= destination < stops) by {
        reveal(labels_tidy);
    }
    if n > 0 {
        access_is_tidy(search, data, edges, departure, destination, n - 1, stops, rounds);
        let before = after_access(search, edges, departure, destination, n - 1);
        let after = after_access(search, edges, departure, destination, n);
        let edge = edges[n - 1];
        let candidate = (departure + edge.duration_secs) as i32;
        assert(0 <= edge.duration_secs <= i32::MAX - INF_TIME);
        assert(candidate == departure + edge.duration_secs);
        assert(edge.to_stop < data.stops@.len());
        let parent = ParentView::Walk { from_stop: edge.from_stop, duration_secs: edge.duration_secs, distance_meters: edge.distance_meters };
        improvement_is_tidy(before.view, 0, edge.to_stop as int, candidate, parent, destination, stops, rounds);
        better_and_better(search.view, before.view, after.view);
        assert forall|k: int| 0 <= k < n implies after.view.best[(#[trigger] edges[k]).to_stop as int] <= departure + edges[k].duration_secs by {
            assert(after.view.best[edges[k].to_stop as int] <= before.view.best[edges[k].to_stop as int]);
        }
        assert forall|i: int| 0 <= i < after.view.improved.len() implies (#[trigger] after.view.improved[i]) < data.stops@.len() by {
            if i < before.view.improved.len() {
                assert(after.view.improved[i] == before.view.improved[i]);
            }
        }
    }
}

proof fn start_is_tidy(stops: int, rounds: int, origin: int, departure: i32, mark_origin: bool, destination: int)
    requires
        0 <= origin < stops <= usize::MAX,
        0 <= destination < stops,
        0 < rounds,
        departure <= INF_TIME,
    ensures
        labels_tidy(start_labels(stops, rounds, origin, departure, mark_origin), destination, 0, stops, rounds),
{
    reveal(labels_tidy);
    let view = start_labels(stops, rounds, origin, departure, mark_origin);
    if destination == origin {
        assert(noted_in(view, destination, 0));
    }
    assert forall|r: int| 0 <= r < rounds implies (#[trigger] view.arrivals[r])[destination] >= view.best[destination] by {}
    if mark_origin {
        assert(view.improved[0] == origin as usize);
    }
}

/// What holds of the labels with which a query starts its rounds.
spec fn well_started(view: SearchView, reached: Option<int>, ctx: SearchContext, plan: QueryPlan, departure: i32, stops: int, rounds: int) -> bool {
    let destination = plan.to_index as int;
    &&& labels_tidy(view, destination, 0, stops, rounds)
    &&& view.best.len() == view.flags.len() == stops
    &&& forall|u: int| 0 <= u < ctx.data.stops@.len() && !(#[trigger] view.flags[u]) ==> view.best[u] >= INF_TIME
    &&& walks_done(view, *ctx.data, destination)
    &&& covers(view, ctx, plan, departure, 0)
    &&& view.best[destination] <= INF_TIME
    &&& view.best[destination] < INF_TIME ==> reached is Some
}

proof fn plain_start_is_well(ctx: SearchContext, plan: QueryPlan, departure: i32, rounds: int)
    requires
        search_ready(ctx),
        plan_valid(*ctx.data, plan),
        plan.source_access_edges@.len() == 0,
        departure <= INF_TIME,
        0 <= rounds,
    ensures
        ({
            let walked = walked_start(*ctx.data, plan, departure, rounds);
            well_started(walked.view, walked.reached, ctx, plan, departure, place_count(*ctx.data, plan), rounds + 1)
        }),
{
    let data = *ctx.data;
    let stops = place_count(data, plan);
    let destination = plan.to_index as int;
    let x = plan.from_index;
    let labels = start_labels(stops, rounds + 1, x as int, departure, true);
    let start = LocalSearch { view: labels, marked: Seq::empty(), reached: if plan.from_index == plan.to_index { Some(0) } else { None } };
    start_is_tidy(stops, rounds + 1, x as int, departure, true, destination);
    let walks = data.transfers@[x as int]@;
    first_walks_are_tidy(start, data, x, departure as int, destination, walks.len() as int, stops, rounds + 1);
    let walked = walked_start(data, plan, departure, rounds);
    assert(walked == walked_on(start, data, x, departure as int, destination));
    let view = walked.view;
    assert forall|u: int| 0 <= u < data.stops@.len() && !(#[trigger] view.flags[u]) implies view.best[u] >= INF_TIME by {
        assert(!labels.flags[u]);
        assert(view.best[u] == labels.best[u]);
    }
    assert(walks_done(view, data, destination)) by {
        assert forall|u: int| 0 <= u < data.stops@.len() && u != destination && (#[trigger] view.best[u]) < INF_TIME implies walks_served(view, data, destination, u) by {
            walking_on_serves(start, data, x, departure as int, destination, stops, rounds + 1, u);
        }
        reveal(walks_done);
    }
    assert(view.best[destination] <= labels.best[destination]);
    assert(covers(view, ctx, plan, departure, 0)) by {
        reveal(covers);
        assert forall|stop: int, time: int| #[trigger] can_be_at(ctx, plan, departure, stop, time, 0) implies 0 <= stop < view.best.len() && (view.best[stop] <= time
            || view.best[destination] <= time) by {
            if stop == x && time == departure {
                assert(view.best[stop] <= labels.best[stop]);
            } else {
                let slot = choose|slot: int| #[trigger] is_walk(data, x as int, slot, stop) && time == departure + walk_secs(data, x as int, slot);
                assert(data.transfers@[x as int]@[slot].to_stop < data.stops@.len());
                assert(view.best[walks[slot].to_stop as int] <= departure + walks[slot].duration_secs);
            }
        }
    }
}

proof fn placed_start_is_well(ctx: SearchContext, plan: QueryPlan, departure: i32, rounds: int)
    requires
        search_ready(ctx),
        plan_valid(*ctx.data, plan),
        plan.source_access_edges@.len() > 0,
        departure <= INF_TIME,
        0 <= rounds,
    ensures
        ({
            let walked = walked_start(*ctx.data, plan, departure, rounds);
            well_started(walked.view, walked.reached, ctx, plan, departure, place_count(*ctx.data, plan), rounds + 1)
        }),
{
    let data = *ctx.data;
    let stops = place_count(data, plan);
    let destination = plan.to_index as int;
    let x = plan.from_index;
    let origin_is_stop = x < data.stops@.len();
    let labels = start_labels(stops, rounds + 1, x as int, departure, origin_is_stop);
    let start = LocalSearch { view: labels, marked: Seq::empty(), reached: if plan.from_index == plan.to_index { Some(0) } else { None } };
    start_is_tidy(stops, rounds + 1, x as int, departure, origin_is_stop, destination);
    let edges = plan.source_access_edges@;
    access_is_tidy(start, data, edges, departure as int, destination, edges.len() as int, stops, rounds + 1);
    let seeded = after_access(start, edges, departure as int, destination, edges.len() as int);
    assert forall|u: int| 0 <= u < data.stops@.len() && !(#[trigger] seeded.view.flags[u]) implies seeded.view.best[u] >= INF_TIME by {
        assert(!labels.flags[u]);
        assert(seeded.view.best[u] == labels.best[u]);
    }
    let seeds = seeded.view.improved;
    seeds_are_walked_from(seeded, data, seeds, destination, seeds.len() as int, stops, rounds + 1);
    let walked = walked_start(data, plan, departure, rounds);
    let view = walked.view;
    assert(walked == after_seeds(seeded, data, seeds, destination, seeds.len() as int));
    assert forall|u: int| 0 <= u < data.stops@.len() && !(#[trigger] view.flags[u]) implies view.best[u] >= INF_TIME by {
        assert(!seeded.view.flags[u]);
        assert(view.best[u] == seeded.view.best[u]);
    }
    assert(walks_done(view, data, destination)) by {
        reveal(walks_done);
    }
    assert(view.best[destination] <= seeded.view.best[destination] <= labels.best[destination]);
    assert(covers(view, ctx, plan, departure, 0)) by {
        reveal(covers);
        assert forall|stop: int, time: int| #[trigger] can_be_at(ctx, plan, departure, stop, time, 0) implies 0 <= stop < view.best.len() && (view.best[stop] <= time
            || view.best[destination] <= time) by {
            if stop == x && time == departure {
                assert(view.best[stop] <= seeded.view.best[stop] <= labels.best[stop]);
            } else {
                let e = choose|e: int| 0 <= e < edges.len() && (#[trigger] edges[e]).to_stop == stop && time == departure + edges[e].duration_secs;
                assert(edges[e].to_stop < data.stops@.len());
                assert(view.best[edges[e].to_stop as int] <= seeded.view.best[edges[e].to_stop as int]);
            }
        }
    }
}

proof fn start_settles(begun: Reach, looked: Reach, marked: Seq<usize>, ctx: SearchContext, goal: LookaheadGoal, plan: QueryPlan, departure: i32, walked: SearchView, stops: int, rounds: int)
    requires
        ctx.data.stops@.len() <= stops,
        walks_valid(ctx.data.transfers@, ctx.data.stops@.len() as int),
        well_started(walked, begun.round, ctx, plan, departure, stops, rounds),
        begun.view == (SearchView { improved: Seq::empty(), ..walked }),
        marked == walked.improved,
        goal.destination_stop == plan.to_index < stops,
        only_arrival(begun, looked, plan.to_index as int, stops, rounds),
        forall|k: int, e: int|
            0 <= k < marked.len() && #[trigger] is_first_egress(goal.destination_egress_edges@, marked[k] as int, e) && marked[k] != goal.destination_stop && begun.view.arrivals[0][marked[k] as int]
                < INF_TIME ==> looked.view.best[goal.destination_stop as int] <= begun.view.arrivals[0][marked[k] as int] + goal.destination_egress_edges@[e].duration_secs,
    ensures
        settled(looked, marked, ctx, goal, stops, rounds),
        looked.view.best[plan.to_index as int] <= INF_TIME,
        covers(looked.view, ctx, plan, departure, 0),
{
    let destination = plan.to_index as int;
    let data = *ctx.data;
    let view = looked.view;
    let walks = goal.destination_egress_edges@;
    assert(labels_shaped(view, stops, rounds) && arrival_noted(view, destination) && no_worse(walked, view) && only_better_but(walked, view, destination)) by {
        reveal(only_arrival);
    }
    assert(view.best[destination] < INF_TIME ==> looked.round is Some) by {
        reveal(only_arrival);
    }
    covered_stays_covered(walked, view, ctx, plan, departure, 0);
    assert(all_explored(view, marked, ctx, destination)) by {
        assert forall|s: int| 0 <= s < data.stops@.len() && s != destination && (#[trigger] view.best[s]) < INF_TIME && !marked.contains(s as usize) implies rides_served(
            view,
            ctx,
            destination,
            s,
            view.best[s] as int,
        ) by {
            assert(view.best[s] == walked.best[s]);
            assert(walked.flags[s]);
            frontier_label(walked, destination, 0, stops, rounds, s);
        }
        reveal(all_explored);
    }
    assert(walks_done(view, data, destination)) by {
        assert forall|u: int| 0 <= u < data.stops@.len() && u != destination && (#[trigger] view.best[u]) < INF_TIME implies walks_served(view, data, destination, u) by {
            assert(view.best[u] == walked.best[u]);
            assert(walks_served(walked, data, destination, u)) by {
                reveal(walks_done);
            }
            assert forall|slot: int, v: int| #[trigger] is_walk(data, u, slot, v) && walk_has_shortcuts(data, u, slot, v) implies walk_served(view, data, destination, u, slot, v) by {
                assert(data.transfers@[u]@[slot].to_stop < data.stops@.len());
                assert(walk_served(walked, data, destination, u, slot, v));
                assert(view.best[v] <= walked.best[v] && view.best[destination] <= walked.best[destination]);
            }
        }
        reveal(walks_done);
    }
    assert(egress_done(view, data, walks, destination)) by {
        assert forall|s: int| 0 <= s < data.stops@.len() && s != destination && (#[trigger] view.best[s]) < INF_TIME implies egress_served(view, data, walks, destination, s) by {
            assert(view.best[s] == walked.best[s]);
            assert(walked.flags[s]);
            frontier_label(walked, destination, 0, stops, rounds, s);
            let k = marked.index_of(s as usize);
            assert(marked[k] == s) by {
                reveal(labels_tidy);
            }
            assert forall|e: int| #[trigger] is_first_egress(walks, s, e) && egress_has_shortcuts(data, walks, s, e) implies view.best[destination] <= view.best[s]
                + walks[e].duration_secs by {
                assert(is_first_egress(walks, marked[k] as int, e));
            }
        }
        reveal(egress_done);
    }
    reveal(settled);
}

proof fn query_is_settled(ctx: SearchContext, keys: Seq<HubKey>, memory: CacheView, goal: LookaheadGoal, plan: QueryPlan, departure: i32, rides: nat)
    requires
        timetable_listed(ctx, keys),
        plan_valid(*ctx.data, plan),
        goal.fits(ctx, place_count(*ctx.data, plan), goal.max_rounds + 1),
        goal.destination_stop == plan.to_index,
        departure <= INF_TIME,
        rides <= goal.max_rounds,
    ensures
        ({
            let done = query_done(ctx, memory, goal, plan, departure);
            &&& settled(done.reach, done.marked, ctx, goal, place_count(*ctx.data, plan), goal.max_rounds + 1)
            &&& covers(done.reach.view, ctx, plan, departure, rides)
        }),
{
    let stops = place_count(*ctx.data, plan);
    let rounds = goal.max_rounds + 1;
    if plan.source_access_edges@.len() == 0 {
        plain_start_is_well(ctx, plan, departure, goal.max_rounds as int);
    } else {
        placed_start_is_well(ctx, plan, departure, goal.max_rounds as int);
    }
    let walked = walked_start(*ctx.data, plan, departure, goal.max_rounds as int);
    let marked = walked.view.improved;
    tidy_parts(walked.view, plan.to_index as int, 0, stops, rounds);
    let begun = Look {
        reach: Reach { view: SearchView { improved: Seq::empty(), ..walked.view }, round: walked.reached },
        tally: no_tally(),
        counters: memory.counters,
    };
    assert(arrival_noted(begun.reach.view, plan.to_index as int)) by {
        if walked.view.best[plan.to_index as int] < INF_TIME {
            let r = choose|r: int| #[trigger] noted_in(walked.view, plan.to_index as int, r);
            assert(noted_in(begun.reach.view, plan.to_index as int, r));
        }
    }
    finishing_is_arrival(begun, ctx, memory, goal, 0, marked, stops, rounds);
    let started = query_start(ctx, memory, goal, plan, departure);
    start_settles(begun.reach, started.reach, marked, ctx, goal, plan, departure, walked.view, stops, rounds);
    rounds_cover(started, ctx, keys, memory, goal, plan, departure, 1, stops, rides);
    reveal(all_rounds);
}

proof fn found_arrive(view: SearchView, ctx: SearchContext, origin: int, destination: int, n: int)
    requires
        view.wf(view.best.len() as int, view.arrivals.len() as int),
        labels_valid(view, *ctx.data),
        0 <= destination < view.best.len() <= usize::MAX,
        origin == view.origin,
        origin != destination,
        0 <= n <= view.arrivals.len(),
        journeys_of_rounds(view, ctx, origin, destination, n) is Ok,
    ensures
        ({
            let found = journeys_of_rounds(view, ctx, origin, destination, n)->Ok_0;
            &&& found.len() <= n
            &&& forall|i: int| 0 <= i < found.len() ==> legs_arrive((#[trigger] found[i]).raw_legs, found[i].arrival_secs as int)
            &&& forall|r: int| #[trigger] noted_in(view, destination, r) && r < n && view.best[destination] < INF_TIME ==> exists|i: int|
                0 <= i < found.len() && (#[trigger] found[i]).arrival_secs == view.best[destination]
        }),
    decreases n,
{
    if n > 0 {
        found_arrive(view, ctx, origin, destination, n - 1);
        let before = journeys_of_rounds(view, ctx, origin, destination, n - 1)->Ok_0;
        let found = journeys_of_rounds(view, ctx, origin, destination, n)->Ok_0;
        let round = n - 1;
        journeys_have_no_gap(view, ctx, origin, destination, round, label_count(view));
        assert forall|i: int| 0 <= i < found.len() implies legs_arrive((#[trigger] found[i]).raw_legs, found[i].arrival_secs as int) by {
            if i < before.len() {
                assert(found[i] == before[i]);
            }
        }
        assert forall|r: int| #[trigger] noted_in(view, destination, r) && r < n && view.best[destination] < INF_TIME implies exists|i: int|
            0 <= i < found.len() && (#[trigger] found[i]).arrival_secs == view.best[destination] by {
            if r < n - 1 {
                let i = choose|i: int| 0 <= i < before.len() && (#[trigger] before[i]).arrival_secs == view.best[destination];
                assert(found[i] == before[i]);
            } else {
                match journey_to(view, ctx, origin, destination, round) {
                    PathBack::Failed(_) => {},
                    PathBack::Legs(legs) => {
                        assert(legs_arrive(legs, view.best[destination] as int));
                        if is_listed(before, legs) {
                            let i = choose|i: int| 0 <= i < before.len() && same_journey((#[trigger] before[i]).raw_legs, legs);
                            assert(found[i] == before[i]);
                            assert(same_leg(before[i].raw_legs[legs.len() - 1], legs[legs.len() - 1]));
                            assert(found[i].arrival_secs == view.best[destination]);
                        } else {
                            assert(found[before.len() as int].arrival_secs == view.best[destination]);
                        }
                    },
                }
            }
        }
    }
}

proof fn arrivals_are_covered(view: SearchView, ctx: SearchContext, goal: LookaheadGoal, plan: QueryPlan, departure: i32, reach: Reach, marked: Seq<usize>, stops: int, rounds: int, time: int, rides: nat)
    requires
        view == reach.view,
        settled(reach, marked, ctx, goal, stops, rounds),
        covers(view, ctx, plan, departure, rides),
        goal.destination_stop == plan.to_index < stops,
        *goal.destination_egress_edges == plan.destination_egress_edges,
        query_walks_valid(plan.destination_egress_edges@, stops),
        can_arrive(ctx, plan, departure, time, rides),
        time < INF_TIME,
    ensures
        view.best[plan.to_index as int] <= time,
{
    reveal(settled);
    reveal(covers);
    reveal(egress_done);
    let destination = plan.to_index as int;
    let walks = plan.destination_egress_edges@;
    if !can_be_at(ctx, plan, departure, destination, time, rides) {
        let (stop, ready, e) = choose|stop: int, ready: int, e: int| {
            &&& 0 <= stop < ctx.data.stops@.len()
            &&& can_be_at(ctx, plan, departure, stop, ready, rides)
            &&& #[trigger] is_first_egress(walks, stop, e)
            &&& egress_has_shortcuts(*ctx.data, walks, stop, e)
            &&& time == #[trigger] (ready + walks[e].duration_secs)
        };
        assert(0 <= walks[e].duration_secs);
        if view.best[destination] > ready && stop != destination {
            assert(view.best[stop] <= ready);
            assert(egress_served(view, *ctx.data, walks, destination, stop));
        }
    }
}

/// The first journey that a query offers arrives no later than any other with as many
/// rides as are allowed: on trips that run that day, each boarded no earlier than the
/// traveller is there, with a walk before the first, after the last and between two. A
/// query says that there is no journey only where there is none.
///
/// Where a trip overtakes another of its line, a ride on it may be missed; so the trips
/// of the lines that are ridden must keep their order. A search does not walk on from
/// where it came on foot; so the walks after a ride must have shortcuts.
pub proof fn first_journeys_arrive_earliest(
    ctx: SearchContext,
    keys: Seq<HubKey>,
    goal: LookaheadGoal,
    plan: QueryPlan,
    departure: i32,
    limit: usize,
    services: int,
    memory: CacheView,
    memory_after: CacheView,
    result: Result<QueryOutcome, QueryError>,
    time: int,
    rides: nat,
)
    requires
        timetable_listed(ctx, keys),
        plan_valid(*ctx.data, plan),
        plan.from_index != plan.to_index,
        goal.fits(ctx, place_count(*ctx.data, plan), goal.max_rounds + 1),
        goal.destination_stop == plan.to_index,
        *goal.destination_egress_edges == plan.destination_egress_edges,
        departure <= INF_TIME,
        ctx.answers(goal, plan, departure, limit, services, memory, memory_after, result),
        rides <= goal.max_rounds,
        can_arrive(ctx, plan, departure, time, rides),
        time < INF_TIME,
    ensures
        match result {
            Ok(outcome) => outcome.candidates@.len() > 0 && outcome.candidates@[0].arrival_secs <= time,
            Err(error) => error is Path,
        },
{
    let stops = place_count(*ctx.data, plan);
    let done = query_done(ctx, memory, goal, plan, departure);
    let view = done.reach.view;
    let destination = plan.to_index as int;
    query_is_settled(ctx, keys, memory, goal, plan, departure, rides);
    arrivals_are_covered(view, ctx, goal, plan, departure, done.reach, done.marked, stops, goal.max_rounds + 1, time, rides);
    assert(done.reach.round is Some && arrival_noted(view, destination)) by {
        reveal(settled);
    }
    let r = choose|r: int| #[trigger] noted_in(view, destination, r);
    reveal(SearchContext::concludes);
    match journeys_of_rounds(view, ctx, plan.from_index as int, destination, goal.max_rounds + 1) {
        Err(_) => {},
        Ok(found) => {
            found_arrive(view, ctx, plan.from_index as int, destination, goal.max_rounds + 1);
            assert(noted_in(view, destination, r));
            let i = choose|i: int| 0 <= i < found.len() && (#[trigger] found[i]).arrival_secs == view.best[destination];
            first_offer_is_earliest(found, limit, i);
            assert(candidates_view(result->Ok_0.candidates@)[0] == result->Ok_0.candidates@[0]@);
        },
    }
}

/// With so many changes allowed the first journey that a query on a day offers arrives no
/// later than any other with at most one ride more: on trips of the services of the day
/// that are not canceled, at the times that are known of them. A query allows as many
/// changes as were asked for, up to eight.
pub proof fn queries_offer_the_earliest_journey(
    ctx: SearchContext,
    data: StaticData,
    realtime: RealtimeView,
    services: Set<Seq<char>>,
    keys: Seq<HubKey>,
    goal: LookaheadGoal,
    plan: QueryPlan,
    service_date: i32,
    departure: i32,
    asked: Option<usize>,
    default: usize,
    limit: usize,
    memory: ProfileCache,
    memory_after: CacheView,
    result: Result<QueryOutcome, QueryError>,
    time: int,
    rides: nat,
)
    requires
        data_ready(data),
        day_context(ctx, data, realtime, services),
        timetable_listed(ctx, keys),
        plan_valid(data, plan),
        plan.from_index != plan.to_index,
        plan_goal(goal, data, plan, service_date, allowed_transfers(asked, default) + 1, memory),
        10 * place_count(data, plan) <= usize::MAX,
        departure <= INF_TIME,
        memory.wf(),
        cache_fits(memory@, data.trips@, data.stops@.len() as int),
        ctx.answers(goal, plan, departure, limit, services.len() as int, memory@, memory_after, result),
        rides <= (if asked is Some { asked->0 } else { default }) + 1,
        rides <= 9,
        can_arrive(ctx, plan, departure, time, rides),
        time < INF_TIME,
    ensures
        match result {
            Ok(outcome) => outcome.candidates@.len() > 0 && outcome.candidates@[0].arrival_secs <= time,
            Err(error) => error is Path,
        },
{
    let rounds = allowed_transfers(asked, default) + 1;
    assert((rounds + 1) * data.stops@.len() <= 10 * place_count(data, plan)) by (nonlinear_arith)
        requires
            0 <= rounds + 1 <= 10,
            0 <= data.stops@.len() <= place_count(data, plan),
    ;
    assert(place_count(data, plan) > 0);
    assert(rounds < usize::MAX);
    plan_goal_fits(ctx, goal, data, plan, service_date, rounds, memory);
    first_journeys_arrive_earliest(ctx, keys, goal, plan, departure, limit, services.len() as int, memory@, memory_after, result, time, rides);
}

/// A timetable that was assembled lists what it has.
pub proof fn assembled_calls_are_listed(core: StaticCore, data: StaticData)
    requires
        core.has_lines(),
        data.stops == core.stops,
        data.lines == core.lines,
        data.stop_to_lines == core.stop_to_lines,
        forall|l: int| 0 <= l < core.lines@.len() ==> line_valid(#[trigger] core.lines@[l], core.trips@, core.stops@.len() as int),
    ensures
        calls_listed(data),
{
    assert forall|l: int, p: int| 0 <= l < data.lines@.len() && 0 <= p < data.lines@[l].stop_indices@.len() implies #[trigger] call_is_listed(data, l, p) by {
        let stop = data.lines@[l].stop_indices@[p] as int;
        assert(core.lines@[l].stop_indices@[p] < core.stops@.len());
        assert(core.lines.len() == core.lines@.len());
        assert forall|k: int| 0 <= k < core.lines@.len() implies (#[trigger] core.lines@[k]).stop_indices@.len() <= usize::MAX by {
            assert(core.lines@[k].stop_indices.len() == core.lines@[k].stop_indices@.len());
        }
        lines_at_are_calls(core.lines@, stop, core.lines@.len() as int);
        let entry = StopLineRef { line_index: l as usize, stop_pos: p as usize };
        assert(core.lines@[l].stop_indices.len() == core.lines@[l].stop_indices@.len());
        assert(core.stop_to_lines@[stop]@ == lines_at(core.lines@, stop, core.lines@.len() as int));
        let r = lines_at(core.lines@, stop, core.lines@.len() as int).index_of(entry);
        assert(lists_call(data, stop, r, l, p));
    }
}

} // verus!
