//! Using remembered journeys while a query runs.

use crate::leg::{combine_cached_leg_sequences, leading_on, legs_arrive, legs_lead, legs_valid, ride_count, CachedLeg};
use crate::lookahead::{
    best_completion, match_valid, memo_keeps_labels, query_walks_valid, record_memoized_destination_improvement, replaces, rides_left, round_valid,
    round_view, with_memo, LocalSubqueryCache, LookaheadTally, QueryVirtualWalk, Reach,
};
use crate::model::{saturated_sum, saturating_sum, TripRecord, INF_TIME};
use crate::profile_bucket::{untouched, MatchView, PointView, SpatialProfileMatch};
use crate::profile_cache::{
    best_feasible, invalidated, lookup_found, matches_view, profile_key, wrapped, CacheCounters, CacheView, LookupView, PreparedSpatialLookup,
    ProfileCache, ProfileLookupDecision,
};
use crate::keyed_store::StoreKey;
use crate::search::{count_up, counted, on_the_way, SearchContext, SearchState, SearchView};
use crate::subquery::{labels_ready, local_journey, search_ready, LocalSubqueryResult};
use vstd::prelude::*;

verus! {

/// What a query looks for: the day, the destination, what is remembered of its
/// surroundings, and the walks to it.
pub struct LookaheadGoal<'a> {
    pub service_date: i32,
    pub destination_stop: usize,
    pub exact_destination_stop: Option<usize>,
    pub surface: &'a PreparedSpatialLookup,
    pub destination_egress_edges: &'a Vec<QueryVirtualWalk>,
    pub max_rounds: usize,
}

/// A query under way: the labels, the counts of what was asked for, and the
/// counts that the cache keeps.
pub struct Look {
    pub reach: Reach,
    pub tally: LookaheadTally,
    pub counters: CacheCounters,
}

/// Whether a remembered journey leads from a stop to a destination, ends when it says
/// and has so many rides, and its legs are valid.
pub open spec fn suffix_fits(profile: MatchView, trips: Seq<TripRecord>, stops: int, source: int, destination: int) -> bool {
    &&& legs_valid(profile.trunk_legs, trips, stops)
    &&& legs_lead(profile.trunk_legs, source, destination, stops)
    &&& legs_arrive(profile.trunk_legs, profile.boundary_arrival_secs as int)
    &&& profile.transit_legs == ride_count(profile.trunk_legs)
}

/// Whether the remembered journeys fit the timetable.
pub open spec fn cache_fits(view: CacheView, trips: Seq<TripRecord>, stops: int) -> bool {
    &&& forall|key: StoreKey, i: int| view.exact.dom().contains(key) && 0 <= i < view.exact[key].len() ==> suffix_fits(
        (#[trigger] view.exact[key][i]).profile,
        trips,
        stops,
        key.2 as int,
        key.1 as int,
    )
    &&& forall|key: StoreKey, i: int| view.spatial.dom().contains(key) && 0 <= i < view.spatial[key].len() ==> match_valid(
        (#[trigger] view.spatial[key][i]).profile,
        trips,
        stops,
        key.2 as int,
    )
}

/// Whether a prepared lookup fits the timetable.
pub open spec fn surface_valid(surface: PreparedSpatialLookup, trips: Seq<TripRecord>, stops: int) -> bool {
    &&& surface.enabled_source_stops@.len() == surface.matches_by_source_stop@.len()
    &&& forall|s: int, i: int| 0 <= s < surface.matches_by_source_stop@.len() && 0 <= i < surface.matches_by_source_stop@[s]@.len() ==> match_valid(
        (#[trigger] surface.matches_by_source_stop@[s]@[i])@,
        trips,
        stops,
        s,
    )
}

impl LookaheadGoal<'_> {
    /// Whether what is looked for fits the timetable and the labels.
    pub open spec fn fits(self, ctx: SearchContext, stops: int, rounds: int) -> bool {
        &&& self.destination_stop < stops
        &&& self.exact_destination_stop is Some ==> self.exact_destination_stop->0 == self.destination_stop && self.destination_stop < ctx.data.stops@.len()
        &&& surface_valid(*self.surface, ctx.data.trips@, ctx.data.stops@.len() as int)
        &&& query_walks_valid(self.destination_egress_edges@, stops)
        &&& forall|i: int| 0 <= i < self.destination_egress_edges@.len() ==> (#[trigger] self.destination_egress_edges@[i]).from_stop < ctx.data.stops@.len()
            && self.destination_egress_edges@[i].to_stop == self.destination_stop
        &&& self.max_rounds + 1 == rounds
        &&& self.max_rounds < usize::MAX
        &&& (self.max_rounds + 1) * ctx.data.stops@.len() <= usize::MAX
    }
}

/// The labels after a finished journey was put at the end of the way to a stop,
/// and whether it improved the destination. It must stay within the rounds.
pub open spec fn with_finish(look: Look, goal: LookaheadGoal, stop: usize, current_round: int, rides: usize, arrival: int, legs: Seq<CachedLeg>) -> (Look, bool) {
    let target = current_round + rides;
    if target > goal.max_rounds || !replaces(look.reach, goal.destination_stop as int, arrival, target) {
        (look, false)
    } else {
        (
            Look {
                reach: with_memo(look.reach, goal.destination_stop as int, stop, current_round as usize, target, arrival, legs),
                tally: LookaheadTally { profile_bound_improvements: counted(look.tally.profile_bound_improvements, 1), ..look.tally },
                counters: CacheCounters { bound_improvements: wrapped(look.counters.bound_improvements, 1), ..look.counters },
            },
            true,
        )
    }
}

/// The rides that are left in a round.
pub open spec fn rides_after(goal: LookaheadGoal, current_round: int) -> usize {
    if goal.max_rounds > current_round { (goal.max_rounds - current_round) as usize } else { 0 }
}

/// The query after asking for a journey to the very destination, and whether
/// the stop is done with.
pub open spec fn after_exact(look: Look, memory: CacheView, goal: LookaheadGoal, stop: usize, current_round: int, ready_at: i32) -> (Look, bool) {
    match goal.exact_destination_stop {
        None => (look, false),
        Some(destination) => {
            let t = look.tally;
            let remaining = rides_after(goal, current_round);
            let bound = look.reach.view.best[goal.destination_stop as int];
            let asked = Look {
                tally: LookaheadTally { profile_lookups: counted(t.profile_lookups, 1), ..t },
                counters: CacheCounters { exact_lookups: wrapped(look.counters.exact_lookups, 1), ..look.counters },
                ..look
            };
            let pruned = LookaheadTally { destination_bound_prunes: counted(t.destination_bound_prunes, 1), ..asked.tally };
            match lookup_found(memory, profile_key(goal.service_date, destination as int, stop as int), ready_at, remaining, bound) {
                LookupView::Miss => (asked, false),
                LookupView::SummaryPruned => (Look { tally: pruned, ..asked }, true),
                LookupView::Match { arrival_secs, transit_legs, absolute_min_duration_secs, absolute_min_transfers, suffix_legs } => {
                    let counters = CacheCounters { exact_hits: wrapped(asked.counters.exact_hits, 1), ..asked.counters };
                    if absolute_min_transfers > remaining || saturated_sum(ready_at as int, absolute_min_duration_secs as int) >= bound {
                        (Look { tally: pruned, counters: counters, ..asked }, true)
                    } else {
                        let hit = Look {
                            tally: LookaheadTally { profile_hits: counted(t.profile_hits, 1), ..asked.tally },
                            counters: counters,
                            ..asked
                        };
                        (with_finish(hit, goal, stop, current_round, transit_legs, arrival_secs as int, suffix_legs).0, false)
                    }
                },
            }
        },
    }
}

/// The query after one remembered journey to the border was tried, whether it
/// improved the destination, and whether the stop counts as a hit.
pub open spec fn after_match(
    look: Look,
    ctx: SearchContext,
    goal: LookaheadGoal,
    stop: usize,
    current_round: int,
    ready_at: i32,
    found: MatchView,
    hit: bool,
) -> (Look, bool, bool) {
    let remaining = rides_after(goal, current_round);
    let bound = look.reach.view.best[goal.destination_stop as int];
    let t = look.tally;
    if ready_at > found.latest_ready_secs || found.absolute_min_transfers > remaining {
        (look, false, hit)
    } else if saturated_sum(ready_at as int, found.absolute_min_duration_secs as int) >= bound {
        (Look { tally: LookaheadTally { destination_bound_prunes: counted(t.destination_bound_prunes, 1), ..t }, ..look }, false, hit)
    } else {
        let counted_look = if hit {
            look
        } else {
            Look {
                tally: LookaheadTally {
                    flat_spatial_mask_hits: counted(t.flat_spatial_mask_hits, 1),
                    profile_hits: counted(t.profile_hits, 1),
                    ..t
                },
                ..look
            }
        };
        if found.boundary_arrival_secs >= bound {
            (counted_look, false, true)
        } else if goal.destination_egress_edges@.len() == 0 {
            match goal.exact_destination_stop {
                None => (counted_look, false, true),
                Some(destination) => match local_journey(
                    ctx,
                    found.boundary_stop,
                    destination,
                    found.boundary_arrival_secs,
                    rides_left(remaining, found.transit_legs) as int,
                ) {
                    None => (counted_look, false, true),
                    Some(local) => {
                        let rides = counted(found.transit_legs, local.transit_legs as int);
                        if local.arrival_secs >= bound {
                            (counted_look, false, true)
                        } else {
                            let done = with_finish(counted_look, goal, stop, current_round, rides, local.arrival_secs as int, found.trunk_legs + local.legs);
                            (done.0, done.1, true)
                        }
                    },
                },
            }
        } else {
            let walks = goal.destination_egress_edges@;
            match best_completion(ctx, goal.destination_stop, found, remaining, walks, walks.len() as int) {
                None => (counted_look, false, true),
                Some(best) => if best.arrival_secs >= bound {
                    (counted_look, false, true)
                } else {
                    let done = with_finish(counted_look, goal, stop, current_round, best.transit_legs, best.arrival_secs, best.legs);
                    (done.0, done.1, true)
                },
            }
        }
    }
}

/// The query after the remembered journeys to the border from the `i`th on were
/// tried, up to the first that improves the destination.
pub open spec fn after_matches(
    look: Look,
    ctx: SearchContext,
    goal: LookaheadGoal,
    stop: usize,
    current_round: int,
    ready_at: i32,
    found: Seq<MatchView>,
    i: int,
    hit: bool,
) -> Look
    decreases found.len() - i,
{
    if i >= found.len() {
        look
    } else {
        let step = after_match(look, ctx, goal, stop, current_round, ready_at, found[i], hit);
        if step.1 { step.0 } else { after_matches(step.0, ctx, goal, stop, current_round, ready_at, found, i + 1, step.2) }
    }
}

/// The query after asking for journeys to the surroundings of the destination.
pub open spec fn after_surface(look: Look, ctx: SearchContext, goal: LookaheadGoal, stop: usize, current_round: int, ready_at: i32) -> Look {
    let surface = *goal.surface;
    if surface.enabled_source_stops@.len() == 0 {
        look
    } else {
        let t = look.tally;
        let asked = Look {
            tally: LookaheadTally {
                profile_lookups: counted(t.profile_lookups, 1),
                flat_spatial_mask_checks: counted(t.flat_spatial_mask_checks, 1),
                ..t
            },
            ..look
        };
        let fewest = if stop < surface.absolute_min_transfers_by_source_stop@.len() {
            surface.absolute_min_transfers_by_source_stop@[stop as int]
        } else {
            usize::MAX
        };
        let shortest = if stop < surface.absolute_min_duration_by_source_stop@.len() {
            surface.absolute_min_duration_by_source_stop@[stop as int]
        } else {
            i32::MAX
        };
        if !(stop < surface.enabled_source_stops@.len() && surface.enabled_source_stops@[stop as int]) || fewest > rides_after(goal, current_round) {
            asked
        } else if saturated_sum(ready_at as int, shortest as int) >= look.reach.view.best[goal.destination_stop as int] {
            Look { tally: LookaheadTally { destination_bound_prunes: counted(t.destination_bound_prunes, 1), ..asked.tally }, ..asked }
        } else {
            after_matches(asked, ctx, goal, stop, current_round, ready_at, matches_view(surface.matches_by_source_stop@[stop as int]@), 0, false)
        }
    }
}

/// The query after everything remembered was tried from the first `n` stops.
pub open spec fn after_lookahead(look: Look, ctx: SearchContext, memory: CacheView, goal: LookaheadGoal, current_round: int, stops: Seq<usize>, n: int) -> Look
    decreases n,
{
    if n <= 0 {
        look
    } else {
        let before = after_lookahead(look, ctx, memory, goal, current_round, stops, n - 1);
        let stop = stops[n - 1];
        let ready_at = before.reach.view.arrivals[current_round][stop as int];
        if ready_at >= INF_TIME {
            before
        } else {
            let exact = after_exact(before, memory, goal, stop, current_round, ready_at);
            if exact.1 { exact.0 } else { after_surface(exact.0, ctx, goal, stop, current_round, ready_at) }
        }
    }
}

proof fn best_feasible_in_range(points: Seq<PointView>, ready_at: i32, remaining: usize, n: int)
    requires
        0 <= n <= points.len(),
    ensures
        match best_feasible(points, ready_at, remaining, n) {
            Some(i) => 0 <= i < n,
            None => true,
        },
    decreases n,
{
    if n > 0 {
        best_feasible_in_range(points, ready_at, remaining, n - 1);
    }
}

proof fn legs_valid_with_more_stops(legs: Seq<CachedLeg>, trips: Seq<TripRecord>, stops: int, more: int)
    requires
        legs_valid(legs, trips, stops),
        stops <= more,
    ensures
        legs_valid(legs, trips, more),
{
    assert forall|i: int| 0 <= i < legs.len() implies crate::leg::leg_valid(#[trigger] legs[i], trips, more) by {
        assert(crate::leg::leg_valid(legs[i], trips, stops));
    }
}

/// Everything that a lookahead changes.
pub open spec fn look_of(state: SearchState, round: Option<usize>, tally: LookaheadTally, counters: CacheCounters) -> Look {
    Look { reach: Reach { view: state@, round: round_view(round) }, tally: tally, counters: counters }
}

/// What stays as it was through a lookahead: the improved stops and the memory.
pub open spec fn lookahead_frame(before: SearchView, after: SearchView) -> bool {
    after.improved == before.improved && after.flags == before.flags && after.metrics == before.metrics
}

impl<'a> SearchContext<'a> {
    fn finish(
        &self,
        goal: &LookaheadGoal,
        stop: usize,
        current_round: usize,
        rides: usize,
        arrival: i32,
        legs: Vec<CachedLeg>,
        state: &mut SearchState,
        destination_round: &mut Option<usize>,
        tally: &mut LookaheadTally,
        memory: &mut ProfileCache,
    ) -> (improved: bool)
        requires
            labels_ready(old(state)@, *self, old(state)@.best.len() as int, old(state)@.arrivals.len() as int),
            round_valid(round_view(*old(destination_round)), old(state)@.arrivals.len() as int),
            goal.fits(*self, old(state)@.best.len() as int, old(state)@.arrivals.len() as int),
            current_round < old(state)@.arrivals.len(),
            on_the_way(old(state)@, *self.data, stop as int),
            goal.destination_stop < self.data.stops@.len() || goal.destination_stop != old(state)@.origin,
            legs_valid(legs@, self.data.trips@, old(state)@.best.len() as int),
            legs_lead(legs@, stop as int, goal.destination_stop as int, self.data.stops@.len() as int),
            legs_arrive(legs@, arrival as int),
            old(memory).wf(),
        ensures
            labels_ready(final(state)@, *self, old(state)@.best.len() as int, old(state)@.arrivals.len() as int),
            final(state)@.origin == old(state)@.origin,
            round_valid(round_view(*final(destination_round)), old(state)@.arrivals.len() as int),
            lookahead_frame(old(state)@, final(state)@),
            final(memory).wf(),
            final(memory)@ == (CacheView { counters: final(memory)@.counters, ..old(memory)@ }),
            final(memory).spatial_listed() == old(memory).spatial_listed(),
            (look_of(*final(state), *final(destination_round), *final(tally), final(memory)@.counters), improved) == with_finish(
                look_of(*old(state), *old(destination_round), *old(tally), old(memory)@.counters),
                *goal,
                stop,
                current_round as int,
                rides,
                arrival as int,
                legs@,
            ),
    {
        let ghost stops = state@.best.len() as int;
        let ghost rounds = state@.arrivals.len() as int;
        if rides > goal.max_rounds || current_round > goal.max_rounds - rides {
            return false;
        }
        let target: usize = current_round + rides;
        proof {
            memo_keeps_labels(
                Reach { view: state@, round: round_view(*destination_round) },
                *self,
                stops,
                rounds,
                goal.destination_stop as int,
                stop,
                current_round,
                target as int,
                arrival as int,
                legs@,
            );
        }
        let improved: bool = record_memoized_destination_improvement(
            goal.destination_stop,
            stop,
            current_round,
            target,
            arrival,
            legs,
            state,
            destination_round,
        );
        if improved {
            tally.profile_bound_improvements = count_up(tally.profile_bound_improvements, 1);
            memory.note_bound_improvement();
        }
        improved
    }

    fn look_exact(
        &self,
        goal: &LookaheadGoal,
        stop: usize,
        current_round: usize,
        ready_at: i32,
        remaining: usize,
        state: &mut SearchState,
        destination_round: &mut Option<usize>,
        tally: &mut LookaheadTally,
        memory: &mut ProfileCache,
    ) -> (done: bool)
        requires
            labels_ready(old(state)@, *self, old(state)@.best.len() as int, old(state)@.arrivals.len() as int),
            round_valid(round_view(*old(destination_round)), old(state)@.arrivals.len() as int),
            goal.fits(*self, old(state)@.best.len() as int, old(state)@.arrivals.len() as int),
            current_round < old(state)@.arrivals.len(),
            on_the_way(old(state)@, *self.data, stop as int),
            goal.destination_stop < self.data.stops@.len() || goal.destination_stop != old(state)@.origin,
            remaining == rides_after(*goal, current_round as int),
            old(memory).wf(),
            cache_fits(old(memory)@, self.data.trips@, self.data.stops@.len() as int),
        ensures
            labels_ready(final(state)@, *self, old(state)@.best.len() as int, old(state)@.arrivals.len() as int),
            final(state)@.origin == old(state)@.origin,
            round_valid(round_view(*final(destination_round)), old(state)@.arrivals.len() as int),
            lookahead_frame(old(state)@, final(state)@),
            final(memory).wf(),
            final(memory)@ == (CacheView { counters: final(memory)@.counters, ..old(memory)@ }),
            final(memory).spatial_listed() == old(memory).spatial_listed(),
            (look_of(*final(state), *final(destination_round), *final(tally), final(memory)@.counters), done) == after_exact(
                look_of(*old(state), *old(destination_round), *old(tally), old(memory)@.counters),
                old(memory)@,
                *goal,
                stop,
                current_round as int,
                ready_at,
            ),
    {
        let ghost stops = state@.best.len() as int;
        match goal.exact_destination_stop {
            None => false,
            Some(destination) => {
                tally.profile_lookups = count_up(tally.profile_lookups, 1);
                let bound: i32 = state.best[goal.destination_stop];
                let ghost key = profile_key(goal.service_date, destination as int, stop as int);
                let ghost content = memory@;
                let decision: ProfileLookupDecision = memory.lookup_bounded(goal.service_date, destination, stop, ready_at, remaining, bound);
                match decision {
                    ProfileLookupDecision::Miss => false,
                    ProfileLookupDecision::SummaryPruned => {
                        tally.destination_bound_prunes = count_up(tally.destination_bound_prunes, 1);
                        true
                    },
                    ProfileLookupDecision::Match(found) => {
                        if found.absolute_min_transfers > remaining || saturating_sum(ready_at, found.absolute_min_duration_secs) >= bound {
                            tally.destination_bound_prunes = count_up(tally.destination_bound_prunes, 1);
                            true
                        } else {
                            tally.profile_hits = count_up(tally.profile_hits, 1);
                            proof {
                                let points = content.exact[key];
                                best_feasible_in_range(points, ready_at, remaining, points.len() as int);
                                let i = best_feasible(points, ready_at, remaining, points.len() as int)->0;
                                old(memory).summaries_are_bounds(key);
                                assert(content.exact.dom().contains(key));
                                assert(found.suffix_legs@ == points[i].profile.trunk_legs);
                                legs_valid_with_more_stops(found.suffix_legs@, self.data.trips@, self.data.stops@.len() as int, stops);
                            }
                            let _ = self.finish(
                                goal,
                                stop,
                                current_round,
                                found.transit_legs,
                                found.arrival_secs,
                                found.suffix_legs,
                                state,
                                destination_round,
                                tally,
                                memory,
                            );
                            false
                        }
                    },
                }
            },
        }
    }

    #[verifier::rlimit(40)]
    fn look_match(
        &self,
        goal: &LookaheadGoal,
        stop: usize,
        current_round: usize,
        ready_at: i32,
        remaining: usize,
        found: &SpatialProfileMatch,
        hit: &mut bool,
        state: &mut SearchState,
        destination_round: &mut Option<usize>,
        tally: &mut LookaheadTally,
        memory: &mut ProfileCache,
        local_cache: &mut LocalSubqueryCache,
    ) -> (improved: bool)
        requires
            search_ready(*self),
            labels_ready(old(state)@, *self, old(state)@.best.len() as int, old(state)@.arrivals.len() as int),
            round_valid(round_view(*old(destination_round)), old(state)@.arrivals.len() as int),
            goal.fits(*self, old(state)@.best.len() as int, old(state)@.arrivals.len() as int),
            current_round < old(state)@.arrivals.len(),
            on_the_way(old(state)@, *self.data, stop as int),
            goal.destination_stop < self.data.stops@.len() || goal.destination_stop != old(state)@.origin,
            remaining == rides_after(*goal, current_round as int),
            match_valid(found@, self.data.trips@, self.data.stops@.len() as int, stop as int),
            old(memory).wf(),
            old(local_cache).correct(*self),
        ensures
            labels_ready(final(state)@, *self, old(state)@.best.len() as int, old(state)@.arrivals.len() as int),
            final(state)@.origin == old(state)@.origin,
            round_valid(round_view(*final(destination_round)), old(state)@.arrivals.len() as int),
            lookahead_frame(old(state)@, final(state)@),
            final(memory).wf(),
            final(local_cache).correct(*self),
            final(memory)@ == (CacheView { counters: final(memory)@.counters, ..old(memory)@ }),
            final(memory).spatial_listed() == old(memory).spatial_listed(),
            (look_of(*final(state), *final(destination_round), *final(tally), final(memory)@.counters), improved, *final(hit)) == after_match(
                look_of(*old(state), *old(destination_round), *old(tally), old(memory)@.counters),
                *self,
                *goal,
                stop,
                current_round as int,
                ready_at,
                found@,
                *old(hit),
            ),
    {
        let ghost stops = state@.best.len() as int;
        let bound: i32 = state.best[goal.destination_stop];
        assert(state@.best[goal.destination_stop as int] <= INF_TIME);
        if ready_at > found.latest_ready_secs || found.absolute_min_transfers > remaining {
            return false;
        }
        if saturating_sum(ready_at, found.absolute_min_duration_secs) >= bound {
            tally.destination_bound_prunes = count_up(tally.destination_bound_prunes, 1);
            return false;
        }
        if !*hit {
            tally.flat_spatial_mask_hits = count_up(tally.flat_spatial_mask_hits, 1);
            tally.profile_hits = count_up(tally.profile_hits, 1);
            *hit = true;
        }
        if found.boundary_arrival_secs >= bound {
            return false;
        }
        proof {
            assert((remaining + 1) * self.data.stops@.len() <= (goal.max_rounds + 1) * self.data.stops@.len()) by (nonlinear_arith)
                requires
                    remaining <= goal.max_rounds,
            ;
        }
        if goal.destination_egress_edges.len() == 0 {
            match goal.exact_destination_stop {
                None => false,
                Some(destination) => {
                    let left: usize = if remaining > found.transit_legs { remaining - found.transit_legs } else { 0 };
                    proof {
                        assert((left + 1) * self.data.stops@.len() <= (remaining + 1) * self.data.stops@.len()) by (nonlinear_arith)
                            requires
                                left <= remaining,
                        ;
                    }
                    let local: Option<LocalSubqueryResult> = self.lookup_or_compute_local_subquery(
                        found.boundary_stop,
                        destination,
                        found.boundary_arrival_secs,
                        left,
                        local_cache,
                    );
                    match local {
                        None => false,
                        Some(result) => {
                            let rides: usize = count_up(found.transit_legs, result.transit_legs);
                            if result.arrival_secs >= bound {
                                return false;
                            }
                            let legs: Vec<CachedLeg> = combine_cached_leg_sequences(&found.trunk_legs, &result.legs);
                            proof {
                                assert forall|i: int| 0 <= i < legs@.len() implies crate::leg::leg_valid(#[trigger] legs@[i], self.data.trips@, stops) by {
                                    if i < found.trunk_legs@.len() {
                                        assert(crate::leg::leg_valid(found.trunk_legs@[i], self.data.trips@, self.data.stops@.len() as int));
                                    } else {
                                        assert(crate::leg::leg_valid(result.legs@[i - found.trunk_legs@.len()], self.data.trips@, self.data.stops@.len() as int));
                                    }
                                }
                                leading_on(
                                    found.trunk_legs@,
                                    result.legs@,
                                    stop as int,
                                    found.boundary_stop as int,
                                    destination as int,
                                    self.data.stops@.len() as int,
                                );
                            }
                            self.finish(goal, stop, current_round, rides, result.arrival_secs, legs, state, destination_round, tally, memory)
                        },
                    }
                },
            }
        } else {
            let best: Option<(i32, usize, Vec<CachedLeg>)> = self.best_virtual_destination_completion(
                goal.destination_stop,
                found,
                remaining,
                goal.destination_egress_edges,
                local_cache,
                Ghost(stops),
                Ghost(stop as int),
            );
            match best {
                None => false,
                Some((arrival, rides, legs)) => {
                    if arrival >= bound {
                        return false;
                    }
                    self.finish(goal, stop, current_round, rides, arrival, legs, state, destination_round, tally, memory)
                },
            }
        }
    }

    fn look_surface(
        &self,
        goal: &LookaheadGoal,
        stop: usize,
        current_round: usize,
        ready_at: i32,
        remaining: usize,
        state: &mut SearchState,
        destination_round: &mut Option<usize>,
        tally: &mut LookaheadTally,
        memory: &mut ProfileCache,
        local_cache: &mut LocalSubqueryCache,
    )
        requires
            search_ready(*self),
            labels_ready(old(state)@, *self, old(state)@.best.len() as int, old(state)@.arrivals.len() as int),
            round_valid(round_view(*old(destination_round)), old(state)@.arrivals.len() as int),
            goal.fits(*self, old(state)@.best.len() as int, old(state)@.arrivals.len() as int),
            current_round < old(state)@.arrivals.len(),
            on_the_way(old(state)@, *self.data, stop as int),
            goal.destination_stop < self.data.stops@.len() || goal.destination_stop != old(state)@.origin,
            remaining == rides_after(*goal, current_round as int),
            old(memory).wf(),
            old(local_cache).correct(*self),
        ensures
            labels_ready(final(state)@, *self, old(state)@.best.len() as int, old(state)@.arrivals.len() as int),
            final(state)@.origin == old(state)@.origin,
            round_valid(round_view(*final(destination_round)), old(state)@.arrivals.len() as int),
            lookahead_frame(old(state)@, final(state)@),
            final(memory).wf(),
            final(local_cache).correct(*self),
            final(memory)@ == (CacheView { counters: final(memory)@.counters, ..old(memory)@ }),
            final(memory).spatial_listed() == old(memory).spatial_listed(),
            look_of(*final(state), *final(destination_round), *final(tally), final(memory)@.counters) == after_surface(
                look_of(*old(state), *old(destination_round), *old(tally), old(memory)@.counters),
                *self,
                *goal,
                stop,
                current_round as int,
                ready_at,
            ),
    {
        let ghost stops = state@.best.len() as int;
        let ghost rounds = state@.arrivals.len() as int;
        let surface: &PreparedSpatialLookup = goal.surface;
        if surface.enabled_source_stops.len() == 0 {
            return;
        }
        tally.profile_lookups = count_up(tally.profile_lookups, 1);
        tally.flat_spatial_mask_checks = count_up(tally.flat_spatial_mask_checks, 1);
        if !(stop < surface.enabled_source_stops.len() && surface.enabled_source_stops[stop]) {
            return;
        }
        let fewest: usize = if stop < surface.absolute_min_transfers_by_source_stop.len() {
            surface.absolute_min_transfers_by_source_stop[stop]
        } else {
            usize::MAX
        };
        if fewest > remaining {
            return;
        }
        let shortest: i32 = if stop < surface.absolute_min_duration_by_source_stop.len() {
            surface.absolute_min_duration_by_source_stop[stop]
        } else {
            i32::MAX
        };
        if saturating_sum(ready_at, shortest) >= state.best[goal.destination_stop] {
            tally.destination_bound_prunes = count_up(tally.destination_bound_prunes, 1);
            return;
        }
        let matches: &Vec<SpatialProfileMatch> = &surface.matches_by_source_stop[stop];
        let ghost found = matches_view(matches@);
        let ghost start_memory = memory@;
        let ghost listed = memory.spatial_listed();
        let ghost start_view = state@;
        let ghost expected = after_matches(
            look_of(*state, *destination_round, *tally, memory@.counters),
            *self,
            *goal,
            stop,
            current_round as int,
            ready_at,
            found,
            0,
            false,
        );
        let mut hit: bool = false;
        let mut i: usize = 0;
        while i < matches.len()
            invariant_except_break
                expected == after_matches(
                    look_of(*state, *destination_round, *tally, memory@.counters),
                    *self,
                    *goal,
                    stop,
                    current_round as int,
                    ready_at,
                    found,
                    i as int,
                    hit,
                ),
            invariant
                i <= matches.len(),
                found == matches_view(matches@),
                *matches == goal.surface.matches_by_source_stop@[stop as int],
                stop < goal.surface.matches_by_source_stop@.len(),
                search_ready(*self),
                labels_ready(state@, *self, stops, rounds),
                state@.origin == old(state)@.origin,
                round_valid(round_view(*destination_round), rounds),
                goal.fits(*self, stops, rounds),
                current_round < rounds,
                on_the_way(state@, *self.data, stop as int),
                goal.destination_stop < self.data.stops@.len() || goal.destination_stop != state@.origin,
                remaining == rides_after(*goal, current_round as int),
                memory.wf(),
                local_cache.correct(*self),
                memory@ == (CacheView { counters: memory@.counters, ..start_memory }),
                memory.spatial_listed() == listed,
                lookahead_frame(start_view, state@),
            ensures
                expected == look_of(*state, *destination_round, *tally, memory@.counters),
            decreases matches.len() - i,
        {
            assert(match_valid(goal.surface.matches_by_source_stop@[stop as int]@[i as int]@, self.data.trips@, self.data.stops@.len() as int, stop as int));
            assert(found[i as int] == matches@[i as int]@);
            let improved: bool = self.look_match(
                goal,
                stop,
                current_round,
                ready_at,
                remaining,
                &matches[i],
                &mut hit,
                state,
                destination_round,
                tally,
                memory,
                local_cache,
            );
            if improved {
                break;
            }
            i = i + 1;
        }
    }

    /// Tries to finish the journey from each of the stops, from the given place
    /// in the list on, with what is remembered.
    pub fn apply_profile_lookahead(
        &self,
        goal: &LookaheadGoal,
        current_round: usize,
        candidate_stops: &Vec<usize>,
        from: usize,
        state: &mut SearchState,
        destination_round: &mut Option<usize>,
        tally: &mut LookaheadTally,
        memory: &mut ProfileCache,
        local_cache: &mut LocalSubqueryCache,
    )
        requires
            search_ready(*self),
            labels_ready(old(state)@, *self, old(state)@.best.len() as int, old(state)@.arrivals.len() as int),
            round_valid(round_view(*old(destination_round)), old(state)@.arrivals.len() as int),
            goal.fits(*self, old(state)@.best.len() as int, old(state)@.arrivals.len() as int),
            current_round < old(state)@.arrivals.len(),
            from <= candidate_stops@.len(),
            forall|i: int| 0 <= i < candidate_stops@.len() ==> on_the_way(old(state)@, *self.data, #[trigger] candidate_stops@[i] as int),
            goal.destination_stop < self.data.stops@.len() || goal.destination_stop != old(state)@.origin,
            old(memory).wf(),
            cache_fits(old(memory)@, self.data.trips@, self.data.stops@.len() as int),
            old(local_cache).correct(*self),
        ensures
            labels_ready(final(state)@, *self, old(state)@.best.len() as int, old(state)@.arrivals.len() as int),
            final(state)@.origin == old(state)@.origin,
            round_valid(round_view(*final(destination_round)), old(state)@.arrivals.len() as int),
            lookahead_frame(old(state)@, final(state)@),
            final(memory).wf(),
            final(local_cache).correct(*self),
            final(memory)@ == (CacheView { counters: final(memory)@.counters, ..old(memory)@ }),
            final(memory).spatial_listed() == old(memory).spatial_listed(),
            look_of(*final(state), *final(destination_round), *final(tally), final(memory)@.counters) == after_lookahead(
                look_of(*old(state), *old(destination_round), *old(tally), old(memory)@.counters),
                *self,
                old(memory)@,
                *goal,
                current_round as int,
                candidate_stops@.skip(from as int),
                candidate_stops@.len() - from,
            ),
    {
        let ghost stops = state@.best.len() as int;
        let ghost rounds = state@.arrivals.len() as int;
        let ghost content = memory@;
        let ghost listed = memory.spatial_listed();
        let ghost start_view = state@;
        let ghost list = candidate_stops@.skip(from as int);
        let ghost start = look_of(*state, *destination_round, *tally, memory@.counters);
        let remaining: usize = if goal.max_rounds > current_round { goal.max_rounds - current_round } else { 0 };
        let mut i: usize = from;
        while i < candidate_stops.len()
            invariant
                from <= i <= candidate_stops.len(),
                list == candidate_stops@.skip(from as int),
                start == look_of(*old(state), *old(destination_round), *old(tally), old(memory)@.counters),
                content == old(memory)@,
                search_ready(*self),
                labels_ready(state@, *self, stops, rounds),
                state@.origin == old(state)@.origin,
                round_valid(round_view(*destination_round), rounds),
                goal.fits(*self, stops, rounds),
                current_round < rounds,
                forall|k: int| 0 <= k < candidate_stops@.len() ==> on_the_way(state@, *self.data, #[trigger] candidate_stops@[k] as int),
                goal.destination_stop < self.data.stops@.len() || goal.destination_stop != state@.origin,
                remaining == rides_after(*goal, current_round as int),
                memory.wf(),
                cache_fits(content, self.data.trips@, self.data.stops@.len() as int),
                local_cache.correct(*self),
                memory@ == (CacheView { counters: memory@.counters, ..content }),
                memory.spatial_listed() == listed,
                lookahead_frame(start_view, state@),
                look_of(*state, *destination_round, *tally, memory@.counters) == after_lookahead(
                    start,
                    *self,
                    content,
                    *goal,
                    current_round as int,
                    list,
                    i - from,
                ),
            decreases candidate_stops.len() - i,
        {
            let stop: usize = candidate_stops[i];
            assert(list[i - from] == stop);
            assert(on_the_way(state@, *self.data, candidate_stops@[i as int] as int));
            assert(state@.arrivals[current_round as int].len() == stops);
            let ready_at: i32 = state.arrivals[current_round][stop];
            if ready_at < INF_TIME {
                proof {
                    assert(cache_fits(memory@, self.data.trips@, self.data.stops@.len() as int)) by {
                        assert(memory@.exact == content.exact && memory@.spatial == content.spatial);
                    }
                    exact_ignores_counters(
                        look_of(*state, *destination_round, *tally, memory@.counters),
                        memory@,
                        content,
                        *goal,
                        stop,
                        current_round as int,
                        ready_at,
                    );
                }
                let done: bool = self.look_exact(goal, stop, current_round, ready_at, remaining, state, destination_round, tally, memory);
                if !done {
                    self.look_surface(goal, stop, current_round, ready_at, remaining, state, destination_round, tally, memory, local_cache);
                }
            }
            i = i + 1;
        }
    }
}

proof fn exact_ignores_counters(look: Look, a: CacheView, b: CacheView, goal: LookaheadGoal, stop: usize, current_round: int, ready_at: i32)
    requires
        a == (CacheView { counters: a.counters, ..b }),
    ensures
        after_exact(look, a, goal, stop, current_round, ready_at) == after_exact(look, b, goal, stop, current_round, ready_at),
{
}

/// What is left of a bucket was in it.
pub proof fn untouched_come_from(points: Seq<PointView>, changed: Seq<usize>, n: int, i: int)
    requires
        0 <= n <= points.len(),
        0 <= i < untouched(points, changed, n).len(),
    ensures
        points.contains(untouched(points, changed, n)[i]),
    decreases n,
{
    if n > 0 {
        let before = untouched(points, changed, n - 1);
        if i < before.len() {
            untouched_come_from(points, changed, n - 1, i);
            assert(untouched(points, changed, n)[i] == before[i]);
        } else {
            assert(untouched(points, changed, n)[i] == points[n - 1]);
        }
    }
}

/// What is left of a memory that fits the timetable when the journeys on changed
/// trips are forgotten fits it too.
pub proof fn forgetting_keeps_the_memory_fit(view: CacheView, after: CacheView, changed: Seq<usize>, trips: Seq<TripRecord>, stops: int)
    requires
        cache_fits(view, trips, stops),
        after.exact == invalidated(view.exact, changed),
        after.spatial == invalidated(view.spatial, changed),
    ensures
        cache_fits(after, trips, stops),
{
    assert forall|key: StoreKey, i: int| after.exact.dom().contains(key) && 0 <= i < after.exact[key].len() implies suffix_fits(
        (#[trigger] after.exact[key][i]).profile,
        trips,
        stops,
        key.2 as int,
        key.1 as int,
    ) by {
        let points = view.exact[key];
        untouched_come_from(points, changed, points.len() as int, i);
        let j = points.index_of(after.exact[key][i]);
        assert(view.exact[key][j] == after.exact[key][i]);
    }
    assert forall|key: StoreKey, i: int| after.spatial.dom().contains(key) && 0 <= i < after.spatial[key].len() implies match_valid(
        (#[trigger] after.spatial[key][i]).profile,
        trips,
        stops,
        key.2 as int,
    ) by {
        let points = view.spatial[key];
        untouched_come_from(points, changed, points.len() as int, i);
        let j = points.index_of(after.spatial[key][i]);
        assert(view.spatial[key][j] == after.spatial[key][i]);
    }
}

} // verus!
