//! What finishing a journey early does to the labels: it changes only those of the
//! destination, and only for the better.

use crate::label_laws::{arrival_noted, labels_shaped, noted_in};
use crate::leg::CachedLeg;
use crate::lookahead::{
    after_egress, best_completion, egress_leg, first_walk_from, first_walk_in_range, query_walks_valid, replaces, rides_left, with_memo,
    LookaheadTally, QueryVirtualWalk, Reach,
};
use crate::model::INF_TIME;
use crate::profile_bucket::MatchView;
use crate::profile_cache::{lookup_found, matches_view, profile_key, wrapped, CacheCounters, CacheView, LookupView};
use crate::profile_lookahead::{
    after_exact, after_lookahead, after_match, after_matches, after_surface, rides_after, with_finish, Look, LookaheadGoal,
};
use crate::query_rounds::after_finishing;
use crate::search::{counted, SearchContext, SearchView};
use crate::subquery::local_journey;
use vstd::prelude::*;

verus! {

/// Whether only the labels of the destination have changed, and only for the better; and
/// whether the destination counts as reached if its best arrival has changed.
#[verifier::opaque]
pub open spec fn only_arrival(before: Reach, after: Reach, destination: int, stops: int, rounds: int) -> bool {
    &&& labels_shaped(before.view, stops, rounds)
    &&& labels_shaped(after.view, stops, rounds)
    &&& 0 <= destination < stops
    &&& arrival_noted(after.view, destination)
    &&& after.view.flags == before.view.flags
    &&& after.view.improved == before.view.improved
    &&& after.view.origin == before.view.origin
    &&& after.view.best[destination] <= before.view.best[destination]
    &&& forall|s: int| 0 <= s < stops && s != destination ==> #[trigger] after.view.best[s] == before.view.best[s]
    &&& forall|r: int, s: int| 0 <= r < rounds && 0 <= s < stops && s != destination ==> #[trigger] after.view.arrivals[r][s] == before.view.arrivals[r][s]
    &&& after.view.best[destination] != before.view.best[destination] ==> after.round is Some
    &&& before.round is Some ==> after.round is Some
}

proof fn arrival_by_arrival(a: Reach, b: Reach, c: Reach, destination: int, stops: int, rounds: int)
    requires
        only_arrival(a, b, destination, stops, rounds),
        only_arrival(b, c, destination, stops, rounds),
    ensures
        only_arrival(a, c, destination, stops, rounds),
{
    reveal(only_arrival);
    assert forall|s: int| 0 <= s < stops && s != destination implies #[trigger] c.view.best[s] == a.view.best[s] by {
        assert(b.view.best[s] == a.view.best[s]);
    }
    assert forall|r: int, s: int| 0 <= r < rounds && 0 <= s < stops && s != destination implies #[trigger] c.view.arrivals[r][s] == a.view.arrivals[r][s] by {
        assert(b.view.arrivals[r][s] == a.view.arrivals[r][s]);
    }
}

/// Labels that are in shape stay as they are if nothing is done.
pub proof fn nothing_finished(reach: Reach, destination: int, stops: int, rounds: int)
    requires
        labels_shaped(reach.view, stops, rounds),
        arrival_noted(reach.view, destination),
        0 <= destination < stops,
    ensures
        only_arrival(reach, reach, destination, stops, rounds),
{
    reveal(only_arrival);
}

proof fn goes_on_from(before: Reach, after: Reach, destination: int, stops: int, rounds: int)
    requires
        only_arrival(before, after, destination, stops, rounds),
    ensures
        labels_shaped(after.view, stops, rounds),
        arrival_noted(after.view, destination),
        0 <= destination < stops,
        only_arrival(after, after, destination, stops, rounds),
{
    reveal(only_arrival);
}

proof fn memo_is_arrival(reach: Reach, destination: int, source_stop: usize, source_round: usize, target_round: int, arrival: int, legs: Seq<CachedLeg>, stops: int, rounds: int)
    requires
        labels_shaped(reach.view, stops, rounds),
        arrival_noted(reach.view, destination),
        0 <= destination < stops,
        0 <= target_round < rounds,
        i32::MIN <= arrival,
    ensures
        only_arrival(reach, with_memo(reach, destination, source_stop, source_round, target_round, arrival, legs), destination, stops, rounds),
        with_memo(reach, destination, source_stop, source_round, target_round, arrival, legs).view.best[destination] <= arrival,
{
    reveal(only_arrival);
    let view = reach.view;
    let after = with_memo(reach, destination, source_stop, source_round, target_round, arrival, legs).view;
    if replaces(reach, destination, arrival, target_round) {
        assert(arrival as i32 == arrival);
        assert(view.arrivals[target_round].len() == stops);
        assert(view.parents[target_round].len() == stops);
        assert forall|r: int| 0 <= r < rounds implies (#[trigger] after.arrivals[r]).len() == stops by {
            assert(view.arrivals[r].len() == stops);
        }
        assert forall|r: int| 0 <= r < rounds implies (#[trigger] after.parents[r]).len() == stops by {
            assert(view.parents[r].len() == stops);
        }
        assert forall|r: int| 0 <= r < rounds implies (#[trigger] after.arrivals[r])[destination] >= after.best[destination] by {
            assert(view.arrivals[r][destination] >= view.best[destination]);
        }
        assert(noted_in(after, destination, target_round));
    }
}

/// Whether a walk to the destination is the first that is listed from its stop.
pub open spec fn is_first_egress(walks: Seq<QueryVirtualWalk>, stop: int, e: int) -> bool {
    &&& 0 <= e < walks.len()
    &&& walks[e].from_stop == stop
    &&& forall|j: int| 0 <= j < e ==> (#[trigger] walks[j]).from_stop != stop
}

proof fn first_egress_is_found(walks: Seq<QueryVirtualWalk>, stop: usize, e: int, i: int)
    requires
        is_first_egress(walks, stop as int, e),
        0 <= i <= e,
    ensures
        first_walk_from(walks, stop, i) == Some(e),
    decreases e - i,
{
    if i < e {
        assert(walks[i].from_stop != stop);
        first_egress_is_found(walks, stop, e, i + 1);
    }
}

proof fn egress_is_arrival(reach: Reach, destination: int, round: int, list: Seq<usize>, walks: Seq<QueryVirtualWalk>, n: int, stops: int, rounds: int)
    requires
        labels_shaped(reach.view, stops, rounds),
        arrival_noted(reach.view, destination),
        0 <= destination < stops,
        0 <= round < rounds,
        query_walks_valid(walks, stops),
        0 <= n <= list.len(),
        forall|i: int| 0 <= i < list.len() ==> (#[trigger] list[i]) < stops,
    ensures
        only_arrival(reach, after_egress(reach, destination, round, list, walks, n), destination, stops, rounds),
        forall|k: int, e: int|
            0 <= k < n && #[trigger] is_first_egress(walks, list[k] as int, e) && list[k] != destination && reach.view.arrivals[round][list[k] as int] < INF_TIME ==> after_egress(
                reach,
                destination,
                round,
                list,
                walks,
                n,
            ).view.best[destination] <= reach.view.arrivals[round][list[k] as int] + walks[e].duration_secs,
    decreases n,
{
    nothing_finished(reach, destination, stops, rounds);
    if n > 0 {
        egress_is_arrival(reach, destination, round, list, walks, n - 1, stops, rounds);
        let before = after_egress(reach, destination, round, list, walks, n - 1);
        goes_on_from(reach, before, destination, stops, rounds);
        let stop = list[n - 1];
        let ready_at = before.view.arrivals[round][stop as int];
        first_walk_in_range(walks, stop, 0);
        assert(stop < stops);
        assert(stop != destination ==> ready_at == reach.view.arrivals[round][stop as int]) by {
            reveal(only_arrival);
        }
        let after = after_egress(reach, destination, round, list, walks, n);
        match first_walk_from(walks, stop, 0) {
            None => {},
            Some(i) => if ready_at < INF_TIME {
                memo_is_arrival(before, destination, stop, round as usize, round, ready_at + walks[i].duration_secs, seq![egress_leg(walks[i], ready_at as int)], stops, rounds);
                arrival_by_arrival(reach, before, after, destination, stops, rounds);
            },
        }
        assert(after.view.best[destination] <= before.view.best[destination]) by {
            reveal(only_arrival);
        }
        assert forall|k: int, e: int|
            0 <= k < n && #[trigger] is_first_egress(walks, list[k] as int, e) && list[k] != destination && reach.view.arrivals[round][list[k] as int] < INF_TIME implies after.view.best[destination]
            <= reach.view.arrivals[round][list[k] as int] + walks[e].duration_secs by {
            if k == n - 1 {
                first_egress_is_found(walks, stop, e, 0);
            }
        }
    }
}

proof fn finish_is_arrival(look: Look, goal: LookaheadGoal, stop: usize, round: int, rides: usize, arrival: int, legs: Seq<CachedLeg>, stops: int, rounds: int)
    requires
        labels_shaped(look.reach.view, stops, rounds),
        arrival_noted(look.reach.view, goal.destination_stop as int),
        goal.destination_stop < stops,
        goal.max_rounds + 1 == rounds,
        0 <= round < rounds,
        i32::MIN <= arrival,
    ensures
        only_arrival(look.reach, with_finish(look, goal, stop, round, rides, arrival, legs).0.reach, goal.destination_stop as int, stops, rounds),
{
    nothing_finished(look.reach, goal.destination_stop as int, stops, rounds);
    if round + rides <= goal.max_rounds {
        memo_is_arrival(look.reach, goal.destination_stop as int, stop, round as usize, round + rides, arrival, legs, stops, rounds);
    }
}

proof fn exact_is_arrival(look: Look, memory: CacheView, goal: LookaheadGoal, stop: usize, round: int, ready_at: i32, stops: int, rounds: int)
    requires
        labels_shaped(look.reach.view, stops, rounds),
        arrival_noted(look.reach.view, goal.destination_stop as int),
        goal.destination_stop < stops,
        goal.max_rounds + 1 == rounds,
        0 <= round < rounds,
    ensures
        only_arrival(look.reach, after_exact(look, memory, goal, stop, round, ready_at).0.reach, goal.destination_stop as int, stops, rounds),
{
    nothing_finished(look.reach, goal.destination_stop as int, stops, rounds);
    match goal.exact_destination_stop {
        None => {},
        Some(destination) => {
            let t = look.tally;
            let remaining = rides_after(goal, round);
            let key = profile_key(goal.service_date, destination as int, stop as int);
            let bound = look.reach.view.best[goal.destination_stop as int];
            match lookup_found(memory, key, ready_at, remaining, bound) {
                LookupView::Match { arrival_secs, transit_legs, suffix_legs, .. } => {
                    let asked = Look {
                        tally: LookaheadTally { profile_lookups: counted(t.profile_lookups, 1), ..t },
                        counters: CacheCounters { exact_lookups: wrapped(look.counters.exact_lookups, 1), ..look.counters },
                        ..look
                    };
                    let counters = CacheCounters { exact_hits: wrapped(asked.counters.exact_hits, 1), ..asked.counters };
                    let hit = Look { tally: LookaheadTally { profile_hits: counted(t.profile_hits, 1), ..asked.tally }, counters: counters, ..asked };
                    finish_is_arrival(hit, goal, stop, round, transit_legs, arrival_secs as int, suffix_legs, stops, rounds);
                },
                _ => {},
            }
        },
    }
}

proof fn completion_is_late_enough(ctx: SearchContext, destination: usize, found: MatchView, remaining: usize, walks: Seq<QueryVirtualWalk>, n: int, stops: int)
    requires
        query_walks_valid(walks, stops),
        0 <= n <= walks.len(),
    ensures
        best_completion(ctx, destination, found, remaining, walks, n) is Some ==> i32::MIN <= best_completion(ctx, destination, found, remaining, walks, n)->0.arrival_secs,
    decreases n,
{
    if n > 0 {
        completion_is_late_enough(ctx, destination, found, remaining, walks, n - 1, stops);
        assert(0 <= walks[n - 1].duration_secs);
    }
}

proof fn match_is_arrival(look: Look, ctx: SearchContext, goal: LookaheadGoal, stop: usize, round: int, ready_at: i32, found: MatchView, hit: bool, stops: int, rounds: int)
    requires
        labels_shaped(look.reach.view, stops, rounds),
        arrival_noted(look.reach.view, goal.destination_stop as int),
        goal.fits(ctx, stops, rounds),
        0 <= round < rounds,
    ensures
        only_arrival(look.reach, after_match(look, ctx, goal, stop, round, ready_at, found, hit).0.reach, goal.destination_stop as int, stops, rounds),
{
    nothing_finished(look.reach, goal.destination_stop as int, stops, rounds);
    let remaining = rides_after(goal, round);
    let t = look.tally;
    let counted_look = if hit {
        look
    } else {
        Look { tally: LookaheadTally { flat_spatial_mask_hits: counted(t.flat_spatial_mask_hits, 1), profile_hits: counted(t.profile_hits, 1), ..t }, ..look }
    };
    let over = found.boundary_arrival_secs;
    let left = rides_left(remaining, found.transit_legs) as int;
    let walks = goal.destination_egress_edges@;
    if walks.len() == 0 {
        match goal.exact_destination_stop {
            None => {},
            Some(destination) => {
                match local_journey(ctx, found.boundary_stop, destination, over, left) {
                    None => {},
                    Some(local) => {
                        let rides = counted(found.transit_legs, local.transit_legs as int);
                        finish_is_arrival(counted_look, goal, stop, round, rides, local.arrival_secs as int, found.trunk_legs + local.legs, stops, rounds);
                    },
                }
            },
        }
    } else {
        completion_is_late_enough(ctx, goal.destination_stop, found, remaining, walks, walks.len() as int, stops);
        match best_completion(ctx, goal.destination_stop, found, remaining, walks, walks.len() as int) {
            None => {},
            Some(best) => finish_is_arrival(counted_look, goal, stop, round, best.transit_legs, best.arrival_secs, best.legs, stops, rounds),
        }
    }
}

proof fn matches_are_arrival(look: Look, ctx: SearchContext, goal: LookaheadGoal, stop: usize, round: int, ready_at: i32, found: Seq<MatchView>, i: int, hit: bool, stops: int, rounds: int)
    requires
        labels_shaped(look.reach.view, stops, rounds),
        arrival_noted(look.reach.view, goal.destination_stop as int),
        goal.fits(ctx, stops, rounds),
        0 <= round < rounds,
        0 <= i,
    ensures
        only_arrival(look.reach, after_matches(look, ctx, goal, stop, round, ready_at, found, i, hit).reach, goal.destination_stop as int, stops, rounds),
    decreases found.len() - i,
{
    let destination = goal.destination_stop as int;
    nothing_finished(look.reach, destination, stops, rounds);
    if i < found.len() {
        match_is_arrival(look, ctx, goal, stop, round, ready_at, found[i], hit, stops, rounds);
        let step = after_match(look, ctx, goal, stop, round, ready_at, found[i], hit);
        if !step.1 {
            goes_on_from(look.reach, step.0.reach, destination, stops, rounds);
            matches_are_arrival(step.0, ctx, goal, stop, round, ready_at, found, i + 1, step.2, stops, rounds);
            arrival_by_arrival(
                look.reach,
                step.0.reach,
                after_matches(step.0, ctx, goal, stop, round, ready_at, found, i + 1, step.2).reach,
                destination,
                stops,
                rounds,
            );
        }
    }
}

proof fn surface_is_arrival(look: Look, ctx: SearchContext, goal: LookaheadGoal, stop: usize, round: int, ready_at: i32, stops: int, rounds: int)
    requires
        labels_shaped(look.reach.view, stops, rounds),
        arrival_noted(look.reach.view, goal.destination_stop as int),
        goal.fits(ctx, stops, rounds),
        0 <= round < rounds,
    ensures
        only_arrival(look.reach, after_surface(look, ctx, goal, stop, round, ready_at).reach, goal.destination_stop as int, stops, rounds),
{
    nothing_finished(look.reach, goal.destination_stop as int, stops, rounds);
    let surface = *goal.surface;
    let t = look.tally;
    let asked = Look {
        tally: LookaheadTally { profile_lookups: counted(t.profile_lookups, 1), flat_spatial_mask_checks: counted(t.flat_spatial_mask_checks, 1), ..t },
        ..look
    };
    matches_are_arrival(asked, ctx, goal, stop, round, ready_at, matches_view(surface.matches_by_source_stop@[stop as int]@), 0, false, stops, rounds);
}

proof fn lookahead_is_arrival(look: Look, ctx: SearchContext, memory: CacheView, goal: LookaheadGoal, round: int, list: Seq<usize>, n: int, stops: int, rounds: int)
    requires
        labels_shaped(look.reach.view, stops, rounds),
        arrival_noted(look.reach.view, goal.destination_stop as int),
        goal.fits(ctx, stops, rounds),
        0 <= round < rounds,
        n <= list.len(),
    ensures
        only_arrival(look.reach, after_lookahead(look, ctx, memory, goal, round, list, n).reach, goal.destination_stop as int, stops, rounds),
    decreases n,
{
    let destination = goal.destination_stop as int;
    nothing_finished(look.reach, destination, stops, rounds);
    if n > 0 {
        lookahead_is_arrival(look, ctx, memory, goal, round, list, n - 1, stops, rounds);
        let before = after_lookahead(look, ctx, memory, goal, round, list, n - 1);
        goes_on_from(look.reach, before.reach, destination, stops, rounds);
        let stop = list[n - 1];
        let ready_at = before.reach.view.arrivals[round][stop as int];
        if ready_at < INF_TIME {
            exact_is_arrival(before, memory, goal, stop, round, ready_at, stops, rounds);
            let exact = after_exact(before, memory, goal, stop, round, ready_at);
            arrival_by_arrival(look.reach, before.reach, exact.0.reach, destination, stops, rounds);
            if !exact.1 {
                goes_on_from(before.reach, exact.0.reach, destination, stops, rounds);
                surface_is_arrival(exact.0, ctx, goal, stop, round, ready_at, stops, rounds);
                arrival_by_arrival(look.reach, exact.0.reach, after_surface(exact.0, ctx, goal, stop, round, ready_at).reach, destination, stops, rounds);
            }
        }
    }
}

/// Finishing early from a list of stops changes only the labels of the destination; and it
/// reaches the destination no later than on foot from any of them.
pub proof fn finishing_is_arrival(look: Look, ctx: SearchContext, memory: CacheView, goal: LookaheadGoal, round: int, list: Seq<usize>, stops: int, rounds: int)
    requires
        labels_shaped(look.reach.view, stops, rounds),
        arrival_noted(look.reach.view, goal.destination_stop as int),
        goal.fits(ctx, stops, rounds),
        0 <= round < rounds,
        forall|i: int| 0 <= i < list.len() ==> (#[trigger] list[i]) < stops,
    ensures
        only_arrival(look.reach, after_finishing(look, ctx, memory, goal, round, list).reach, goal.destination_stop as int, stops, rounds),
        forall|k: int, e: int|
            0 <= k < list.len() && #[trigger] is_first_egress(goal.destination_egress_edges@, list[k] as int, e) && list[k] != goal.destination_stop
                && look.reach.view.arrivals[round][list[k] as int] < INF_TIME ==> after_finishing(look, ctx, memory, goal, round, list).reach.view.best[goal.destination_stop as int]
                <= look.reach.view.arrivals[round][list[k] as int] + goal.destination_egress_edges@[e].duration_secs,
{
    let destination = goal.destination_stop as int;
    let walks = goal.destination_egress_edges@;
    let n = list.len() as int;
    nothing_finished(look.reach, destination, stops, rounds);
    egress_is_arrival(look.reach, destination, round, list, walks, n, stops, rounds);
    let walked = if walks.len() > 0 { Look { reach: after_egress(look.reach, destination, round, list, walks, n), ..look } } else { look };
    goes_on_from(look.reach, walked.reach, destination, stops, rounds);
    lookahead_is_arrival(walked, ctx, memory, goal, round, list, n, stops, rounds);
    let asked = after_lookahead(walked, ctx, memory, goal, round, list, n);
    arrival_by_arrival(look.reach, walked.reach, asked.reach, destination, stops, rounds);
    let after = after_finishing(look, ctx, memory, goal, round, list);
    assert(after.reach.view == (SearchView { metrics: after.reach.view.metrics, ..asked.reach.view }) && after.reach.round == asked.reach.round);
    assert(only_arrival(look.reach, after.reach, destination, stops, rounds)) by {
        reveal(only_arrival);
        if after.reach.view.best[destination] < INF_TIME {
            let r = choose|r: int| #[trigger] noted_in(asked.reach.view, destination, r);
            assert(noted_in(after.reach.view, destination, r));
        }
    }
    assert(after.reach.view.best[destination] <= walked.reach.view.best[destination]) by {
        reveal(only_arrival);
    }
}

} // verus!
