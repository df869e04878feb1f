//! The rounds of a query.

use crate::lookahead::{after_egress, round_valid, round_view, LocalSubqueryCache, LookaheadTally, Reach};
use crate::profile_cache::{CacheCounters, CacheView, ProfileCache};
use crate::profile_lookahead::{after_lookahead, cache_fits, look_of, Look, LookaheadGoal};
use crate::relax::after_walks;
use crate::search::{count_up, counted, labels_valid, on_the_way, RoundMetrics, SearchContext, SearchState, SearchView};
use crate::subquery::{after_rides, labels_ready, queue_prunes, search_ready};
use vstd::prelude::*;

verus! {

/// What a round did.
#[derive(Clone, Copy, Debug, PartialEq, Eq, Structural)]
pub struct RoundRecord {
    pub round: usize,
    pub marked_stops: usize,
    pub improvements: usize,
    pub metrics: RoundMetrics,
    pub destination_arrival_secs: Option<i32>,
}

/// The work of a query in all.
#[derive(Clone, Copy, Debug, PartialEq, Eq, Structural)]
pub struct QueryPerformanceCounters {
    pub rounds_executed: usize,
    pub queued_lines_total: usize,
    pub chronos_bucket_lookups: usize,
    pub chronos_indirection_lookups: usize,
    pub chronos_bucket_fallback_searches: usize,
    pub chronos_bucket_fallback_end_of_service: usize,
    pub chronos_bucket_fallback_non_monotonic: usize,
    pub chronos_bucket_lookback_secs_total: u64,
    pub chronos_bucket_lookback_secs_max: i32,
    pub flat_spatial_mask_populated_sources: usize,
    pub flat_spatial_mask_materialized_matches: usize,
    pub flat_spatial_mask_checks: usize,
    pub flat_spatial_mask_hits: usize,
    pub stop_positions_scanned: usize,
    pub onboard_arrival_evaluations: usize,
    pub actual_arrival_calls: usize,
    pub actual_departure_calls: usize,
    pub skipped_stop_checks: usize,
    pub trip_searches: usize,
    pub binary_trip_searches: usize,
    pub trip_departure_checks: usize,
    pub transfer_relaxations: usize,
    pub transfer_improvements: usize,
    pub profile_lookups: usize,
    pub profile_hits: usize,
    pub profile_bound_improvements: usize,
    pub destination_bound_prunes: usize,
}

/// A query under way.
pub struct QueryRun {
    pub reach: Reach,
    pub marked: Seq<usize>,
    pub tally: LookaheadTally,
    pub counters: CacheCounters,
    pub totals: QueryPerformanceCounters,
    pub trace: Seq<RoundRecord>,
}

/// No work at all.
pub open spec fn no_totals() -> QueryPerformanceCounters {
    QueryPerformanceCounters {
        rounds_executed: 0,
        queued_lines_total: 0,
        chronos_bucket_lookups: 0,
        chronos_indirection_lookups: 0,
        chronos_bucket_fallback_searches: 0,
        chronos_bucket_fallback_end_of_service: 0,
        chronos_bucket_fallback_non_monotonic: 0,
        chronos_bucket_lookback_secs_total: 0,
        chronos_bucket_lookback_secs_max: 0,
        flat_spatial_mask_populated_sources: 0,
        flat_spatial_mask_materialized_matches: 0,
        flat_spatial_mask_checks: 0,
        flat_spatial_mask_hits: 0,
        stop_positions_scanned: 0,
        onboard_arrival_evaluations: 0,
        actual_arrival_calls: 0,
        actual_departure_calls: 0,
        skipped_stop_checks: 0,
        trip_searches: 0,
        binary_trip_searches: 0,
        trip_departure_checks: 0,
        transfer_relaxations: 0,
        transfer_improvements: 0,
        profile_lookups: 0,
        profile_hits: 0,
        profile_bound_improvements: 0,
        destination_bound_prunes: 0,
    }
}

/// No work at all.
pub fn empty_totals() -> (totals: QueryPerformanceCounters)
    ensures
        totals == no_totals(),
{
    QueryPerformanceCounters {
        rounds_executed: 0,
        queued_lines_total: 0,
        chronos_bucket_lookups: 0,
        chronos_indirection_lookups: 0,
        chronos_bucket_fallback_searches: 0,
        chronos_bucket_fallback_end_of_service: 0,
        chronos_bucket_fallback_non_monotonic: 0,
        chronos_bucket_lookback_secs_total: 0,
        chronos_bucket_lookback_secs_max: 0,
        flat_spatial_mask_populated_sources: 0,
        flat_spatial_mask_materialized_matches: 0,
        flat_spatial_mask_checks: 0,
        flat_spatial_mask_hits: 0,
        stop_positions_scanned: 0,
        onboard_arrival_evaluations: 0,
        actual_arrival_calls: 0,
        actual_departure_calls: 0,
        skipped_stop_checks: 0,
        trip_searches: 0,
        binary_trip_searches: 0,
        trip_departure_checks: 0,
        transfer_relaxations: 0,
        transfer_improvements: 0,
        profile_lookups: 0,
        profile_hits: 0,
        profile_bound_improvements: 0,
        destination_bound_prunes: 0,
    }
}

/// No lookups at all.
pub open spec fn no_tally() -> LookaheadTally {
    LookaheadTally {
        profile_lookups: 0,
        profile_hits: 0,
        profile_bound_improvements: 0,
        destination_bound_prunes: 0,
        flat_spatial_mask_checks: 0,
        flat_spatial_mask_hits: 0,
    }
}

/// By how much a count has grown.
pub open spec fn grown(after: usize, before: usize) -> int {
    if after > before { after - before } else { 0 }
}

/// By how much a count has grown.
pub fn growth(after: usize, before: usize) -> (more: usize)
    ensures
        more == grown(after, before),
{
    if after > before { after - before } else { 0 }
}

/// The work of a round with the lookups that it made.
pub open spec fn with_lookups(m: RoundMetrics, after: LookaheadTally, before: LookaheadTally) -> RoundMetrics {
    RoundMetrics {
        profile_lookups: counted(m.profile_lookups, grown(after.profile_lookups, before.profile_lookups)),
        profile_hits: counted(m.profile_hits, grown(after.profile_hits, before.profile_hits)),
        profile_bound_improvements: counted(m.profile_bound_improvements, grown(after.profile_bound_improvements, before.profile_bound_improvements)),
        destination_bound_prunes: counted(m.destination_bound_prunes, grown(after.destination_bound_prunes, before.destination_bound_prunes)),
        flat_spatial_mask_checks: counted(m.flat_spatial_mask_checks, grown(after.flat_spatial_mask_checks, before.flat_spatial_mask_checks)),
        flat_spatial_mask_hits: counted(m.flat_spatial_mask_hits, grown(after.flat_spatial_mask_hits, before.flat_spatial_mask_hits)),
        ..m
    }
}

fn add_lookups(m: RoundMetrics, after: &LookaheadTally, before: &LookaheadTally) -> (metrics: RoundMetrics)
    ensures
        metrics == with_lookups(m, *after, *before),
{
    let mut metrics: RoundMetrics = m;
    metrics.profile_lookups = count_up(m.profile_lookups, growth(after.profile_lookups, before.profile_lookups));
    metrics.profile_hits = count_up(m.profile_hits, growth(after.profile_hits, before.profile_hits));
    metrics.profile_bound_improvements = count_up(m.profile_bound_improvements, growth(after.profile_bound_improvements, before.profile_bound_improvements));
    metrics.destination_bound_prunes = count_up(m.destination_bound_prunes, growth(after.destination_bound_prunes, before.destination_bound_prunes));
    metrics.flat_spatial_mask_checks = count_up(m.flat_spatial_mask_checks, growth(after.flat_spatial_mask_checks, before.flat_spatial_mask_checks));
    metrics.flat_spatial_mask_hits = count_up(m.flat_spatial_mask_hits, growth(after.flat_spatial_mask_hits, before.flat_spatial_mask_hits));
    metrics
}

/// The work of a query with one more round.
pub open spec fn with_round(t: QueryPerformanceCounters, m: RoundMetrics) -> QueryPerformanceCounters {
    let lookback = t.chronos_bucket_lookback_secs_total + m.chronos_bucket_lookback_secs_total;
    QueryPerformanceCounters {
        rounds_executed: counted(t.rounds_executed, 1),
        queued_lines_total: counted(t.queued_lines_total, m.queued_lines as int),
        chronos_bucket_lookups: counted(t.chronos_bucket_lookups, m.chronos_bucket_lookups as int),
        chronos_indirection_lookups: counted(t.chronos_indirection_lookups, m.chronos_indirection_lookups as int),
        chronos_bucket_fallback_searches: counted(t.chronos_bucket_fallback_searches, m.chronos_bucket_fallback_searches as int),
        chronos_bucket_fallback_end_of_service: counted(t.chronos_bucket_fallback_end_of_service, m.chronos_bucket_fallback_end_of_service as int),
        chronos_bucket_fallback_non_monotonic: counted(t.chronos_bucket_fallback_non_monotonic, m.chronos_bucket_fallback_non_monotonic as int),
        chronos_bucket_lookback_secs_total: if lookback > u64::MAX { u64::MAX } else { lookback as u64 },
        chronos_bucket_lookback_secs_max: if m.chronos_bucket_lookback_secs_max > t.chronos_bucket_lookback_secs_max {
            m.chronos_bucket_lookback_secs_max
        } else {
            t.chronos_bucket_lookback_secs_max
        },
        flat_spatial_mask_checks: counted(t.flat_spatial_mask_checks, m.flat_spatial_mask_checks as int),
        flat_spatial_mask_hits: counted(t.flat_spatial_mask_hits, m.flat_spatial_mask_hits as int),
        stop_positions_scanned: counted(t.stop_positions_scanned, m.stop_positions_scanned as int),
        onboard_arrival_evaluations: counted(t.onboard_arrival_evaluations, m.onboard_arrival_evaluations as int),
        actual_arrival_calls: counted(t.actual_arrival_calls, m.actual_arrival_calls as int),
        actual_departure_calls: counted(t.actual_departure_calls, m.actual_departure_calls as int),
        skipped_stop_checks: counted(t.skipped_stop_checks, m.skipped_stop_checks as int),
        trip_searches: counted(t.trip_searches, m.trip_searches as int),
        binary_trip_searches: counted(t.binary_trip_searches, m.binary_trip_searches as int),
        trip_departure_checks: counted(t.trip_departure_checks, m.trip_departure_checks as int),
        transfer_relaxations: counted(t.transfer_relaxations, m.transfer_relaxations as int),
        transfer_improvements: counted(t.transfer_improvements, m.transfer_improvements as int),
        ..t
    }
}

fn add_round(t: QueryPerformanceCounters, m: &RoundMetrics) -> (totals: QueryPerformanceCounters)
    ensures
        totals == with_round(t, *m),
{
    let mut totals: QueryPerformanceCounters = t;
    totals.rounds_executed = count_up(t.rounds_executed, 1);
    totals.queued_lines_total = count_up(t.queued_lines_total, m.queued_lines);
    totals.chronos_bucket_lookups = count_up(t.chronos_bucket_lookups, m.chronos_bucket_lookups);
    totals.chronos_indirection_lookups = count_up(t.chronos_indirection_lookups, m.chronos_indirection_lookups);
    totals.chronos_bucket_fallback_searches = count_up(t.chronos_bucket_fallback_searches, m.chronos_bucket_fallback_searches);
    totals.chronos_bucket_fallback_end_of_service = count_up(t.chronos_bucket_fallback_end_of_service, m.chronos_bucket_fallback_end_of_service);
    totals.chronos_bucket_fallback_non_monotonic = count_up(t.chronos_bucket_fallback_non_monotonic, m.chronos_bucket_fallback_non_monotonic);
    totals.chronos_bucket_lookback_secs_total = if t.chronos_bucket_lookback_secs_total > u64::MAX - m.chronos_bucket_lookback_secs_total {
        u64::MAX
    } else {
        t.chronos_bucket_lookback_secs_total + m.chronos_bucket_lookback_secs_total
    };
    totals.chronos_bucket_lookback_secs_max = if m.chronos_bucket_lookback_secs_max > t.chronos_bucket_lookback_secs_max {
        m.chronos_bucket_lookback_secs_max
    } else {
        t.chronos_bucket_lookback_secs_max
    };
    totals.flat_spatial_mask_checks = count_up(t.flat_spatial_mask_checks, m.flat_spatial_mask_checks);
    totals.flat_spatial_mask_hits = count_up(t.flat_spatial_mask_hits, m.flat_spatial_mask_hits);
    totals.stop_positions_scanned = count_up(t.stop_positions_scanned, m.stop_positions_scanned);
    totals.onboard_arrival_evaluations = count_up(t.onboard_arrival_evaluations, m.onboard_arrival_evaluations);
    totals.actual_arrival_calls = count_up(t.actual_arrival_calls, m.actual_arrival_calls);
    totals.actual_departure_calls = count_up(t.actual_departure_calls, m.actual_departure_calls);
    totals.skipped_stop_checks = count_up(t.skipped_stop_checks, m.skipped_stop_checks);
    totals.trip_searches = count_up(t.trip_searches, m.trip_searches);
    totals.binary_trip_searches = count_up(t.binary_trip_searches, m.binary_trip_searches);
    totals.trip_departure_checks = count_up(t.trip_departure_checks, m.trip_departure_checks);
    totals.transfer_relaxations = count_up(t.transfer_relaxations, m.transfer_relaxations);
    totals.transfer_improvements = count_up(t.transfer_improvements, m.transfer_improvements);
    totals
}

/// The labels with another record of the work.
pub open spec fn with_metrics(view: SearchView, metrics: RoundMetrics) -> SearchView {
    SearchView { metrics: metrics, ..view }
}

/// A query after walking to the destination and asking for remembered journeys
/// from the given stops, with the lookups counted as work of the round.
pub open spec fn after_finishing(look: Look, ctx: SearchContext, memory: CacheView, goal: LookaheadGoal, round: int, stops: Seq<usize>) -> Look {
    let walks = goal.destination_egress_edges@;
    let n = stops.len() as int;
    let walked = if walks.len() > 0 {
        Look { reach: after_egress(look.reach, goal.destination_stop as int, round, stops, walks, n), ..look }
    } else {
        look
    };
    let asked = after_lookahead(walked, ctx, memory, goal, round, stops, n);
    Look {
        reach: Reach { view: with_metrics(asked.reach.view, with_lookups(asked.reach.view.metrics, asked.tally, look.tally)), ..asked.reach },
        ..asked
    }
}

/// What a query knows after the rides and walks of a round, and each time the ways
/// to finish from the stops just reached.
pub open spec fn after_travel(run: QueryRun, ctx: SearchContext, memory: CacheView, goal: LookaheadGoal, round: int) -> Look {
    let destination = goal.destination_stop as int;
    let best = run.reach.view.best;
    let prunes = queue_prunes(best, best[destination], run.marked, run.marked.len() as int);
    let tally = LookaheadTally { destination_bound_prunes: counted(run.tally.destination_bound_prunes, prunes), ..run.tally };
    let ridden = after_rides(run.reach.view, ctx, destination, round, run.marked);
    let frontier = ridden.improved;
    let begun = Look { reach: Reach { view: ridden, round: run.reach.round }, tally: tally, counters: run.counters };
    let first = if frontier.len() > 0 { after_finishing(begun, ctx, memory, goal, round, frontier) } else { begun };
    let walked = after_walks(first.reach.view, *ctx.data, round, destination, frontier);
    let rest = walked.improved.skip(frontier.len() as int);
    let second_begun = Look { reach: Reach { view: walked, ..first.reach }, ..first };
    if walked.improved.len() > frontier.len() { after_finishing(second_begun, ctx, memory, goal, round, rest) } else { second_begun }
}

/// A query with a round noted, after which it knows what it knows.
pub open spec fn with_round_noted(run: QueryRun, look: Look, destination: int, round: int) -> QueryRun {
    let view = look.reach.view;
    let reached = if view.flags[destination] { Some(round) } else { look.reach.round };
    let m = view.metrics;
    QueryRun {
        reach: Reach { view: SearchView { improved: Seq::empty(), ..view }, round: reached },
        marked: view.improved,
        tally: LookaheadTally { destination_bound_prunes: counted(look.tally.destination_bound_prunes, m.destination_bound_prunes as int), ..look.tally },
        counters: look.counters,
        totals: with_round(run.totals, m),
        trace: run.trace.push(
            RoundRecord {
                round: round as usize,
                marked_stops: run.marked.len() as usize,
                improvements: view.improved.len() as usize,
                metrics: m,
                destination_arrival_secs: match reached {
                    Some(r) => Some(view.arrivals[r][destination]),
                    None => None,
                },
            },
        ),
    }
}

/// A query after one more round.
pub open spec fn after_query_round(run: QueryRun, ctx: SearchContext, memory: CacheView, goal: LookaheadGoal, round: int) -> QueryRun {
    with_round_noted(run, after_travel(run, ctx, memory, goal, round), goal.destination_stop as int, round)
}

/// A query after the rounds from `round` on.
pub open spec fn after_query_rounds(run: QueryRun, ctx: SearchContext, memory: CacheView, goal: LookaheadGoal, round: int) -> QueryRun
    decreases goal.max_rounds + 1 - round,
{
    if round > goal.max_rounds || run.marked.len() == 0 {
        run
    } else {
        after_query_rounds(after_query_round(run, ctx, memory, goal, round), ctx, memory, goal, round + 1)
    }
}

/// What a query keeps while it runs.
pub struct QueryState {
    pub labels: SearchState,
    pub destination_round: Option<usize>,
    pub marked: Vec<usize>,
    pub tally: LookaheadTally,
    pub totals: QueryPerformanceCounters,
    pub trace: Vec<RoundRecord>,
}

impl QueryState {
    /// The query with the counts that the cache keeps.
    pub open spec fn run(&self, counters: CacheCounters) -> QueryRun {
        QueryRun {
            reach: Reach { view: self.labels@, round: round_view(self.destination_round) },
            marked: self.marked@,
            tally: self.tally,
            counters: counters,
            totals: self.totals,
            trace: self.trace@,
        }
    }

    /// Whether the query fits the timetable.
    pub open spec fn fits(&self, ctx: SearchContext, stops: int, rounds: int) -> bool {
        &&& labels_ready(self.labels@, ctx, stops, rounds)
        &&& round_valid(round_view(self.destination_round), rounds)
        &&& forall|i: int| 0 <= i < self.marked@.len() ==> on_the_way(self.labels@, *ctx.data, #[trigger] self.marked@[i] as int)
    }
}

/// The numbers, copied.
pub fn copy_indices(list: &Vec<usize>) -> (copy: Vec<usize>)
    ensures
        copy@ == list@,
{
    let mut copy: Vec<usize> = Vec::new();
    let mut i: usize = 0;
    while i < list.len()
        invariant
            i <= list.len(),
            copy@ == list@.take(i as int),
        decreases list.len() - i,
    {
        copy.push(list[i]);
        i = i + 1;
        assert(copy@ =~= list@.take(i as int));
    }
    assert(list@.take(i as int) =~= list@);
    copy
}

impl<'a> SearchContext<'a> {
    /// Walks to the destination and asks for remembered journeys from the stops of
    /// a list, from the given place on.
    pub fn finish_from(
        &self,
        goal: &LookaheadGoal,
        round: usize,
        stops_list: &Vec<usize>,
        from: usize,
        labels: &mut SearchState,
        destination_round: &mut Option<usize>,
        tally: &mut LookaheadTally,
        memory: &mut ProfileCache,
        local_cache: &mut LocalSubqueryCache,
    )
        requires
            search_ready(*self),
            labels_ready(old(labels)@, *self, old(labels)@.best.len() as int, old(labels)@.arrivals.len() as int),
            round_valid(round_view(*old(destination_round)), old(labels)@.arrivals.len() as int),
            goal.fits(*self, old(labels)@.best.len() as int, old(labels)@.arrivals.len() as int),
            round < old(labels)@.arrivals.len(),
            from <= stops_list@.len(),
            forall|i: int| 0 <= i < stops_list@.len() ==> on_the_way(old(labels)@, *self.data, #[trigger] stops_list@[i] as int),
            goal.destination_stop < self.data.stops@.len() || goal.destination_stop != old(labels)@.origin,
            old(memory).wf(),
            cache_fits(old(memory)@, self.data.trips@, self.data.stops@.len() as int),
            old(local_cache).correct(*self),
        ensures
            labels_ready(final(labels)@, *self, old(labels)@.best.len() as int, old(labels)@.arrivals.len() as int),
            final(labels)@.origin == old(labels)@.origin,
            round_valid(round_view(*final(destination_round)), old(labels)@.arrivals.len() as int),
            final(labels)@.improved == old(labels)@.improved,
            final(labels)@.flags == old(labels)@.flags,
            final(memory).wf(),
            final(local_cache).correct(*self),
            final(memory)@ == (CacheView { counters: final(memory)@.counters, ..old(memory)@ }),
            final(memory).spatial_listed() == old(memory).spatial_listed(),
            look_of(*final(labels), *final(destination_round), *final(tally), final(memory)@.counters) == after_finishing(
                look_of(*old(labels), *old(destination_round), *old(tally), old(memory)@.counters),
                *self,
                old(memory)@,
                *goal,
                round as int,
                stops_list@.skip(from as int),
            ),
    {
        let ghost stops = labels@.best.len() as int;
        let ghost rounds = labels@.arrivals.len() as int;
        let ghost list = stops_list@.skip(from as int);
        let ghost start = look_of(*labels, *destination_round, *tally, memory@.counters);
        let tally_before: LookaheadTally = *tally;
        if goal.destination_egress_edges.len() > 0 {
            self.apply_virtual_destination_egress(
                goal.destination_stop,
                round,
                stops_list,
                from,
                goal.destination_egress_edges,
                labels,
                destination_round,
            );
        }
        self.apply_profile_lookahead(goal, round, stops_list, from, labels, destination_round, tally, memory, local_cache);
        let ghost asked = labels@;
        labels.metrics = add_lookups(labels.metrics, tally, &tally_before);
        proof {
            assert(labels@ == with_metrics(asked, labels@.metrics));
            assert(asked.wf(stops, rounds));
            assert(labels@.wf(stops, rounds));
            assert(labels_valid(asked, *self.data));
            assert(labels_valid(labels@, *self.data));
        }
    }

    fn travel(
        &self,
        goal: &LookaheadGoal,
        round: usize,
        state: &mut QueryState,
        memory: &mut ProfileCache,
        local_cache: &mut LocalSubqueryCache,
        Ghost(stops): Ghost<int>,
    )
        requires
            search_ready(*self),
            goal.max_rounds < usize::MAX,
            goal.fits(*self, stops, goal.max_rounds + 1),
            old(state).fits(*self, stops, goal.max_rounds + 1),
            goal.destination_stop < self.data.stops@.len() || goal.destination_stop != old(state).labels@.origin,
            round <= goal.max_rounds,
            old(memory).wf(),
            cache_fits(old(memory)@, self.data.trips@, self.data.stops@.len() as int),
            old(local_cache).correct(*self),
        ensures
            labels_ready(final(state).labels@, *self, stops, goal.max_rounds + 1),
            final(state).labels@.origin == old(state).labels@.origin,
            round_valid(round_view(final(state).destination_round), goal.max_rounds + 1),
            final(state).marked == old(state).marked,
            final(state).totals == old(state).totals,
            final(state).trace == old(state).trace,
            final(memory).wf(),
            final(local_cache).correct(*self),
            final(memory)@ == (CacheView { counters: final(memory)@.counters, ..old(memory)@ }),
            final(memory).spatial_listed() == old(memory).spatial_listed(),
            look_of(final(state).labels, final(state).destination_round, final(state).tally, final(memory)@.counters) == after_travel(
                old(state).run(old(memory)@.counters),
                *self,
                old(memory)@,
                *goal,
                round as int,
            ),
    {
        let ghost rounds = goal.max_rounds + 1;
        let ghost content = memory@;
        let destination: usize = goal.destination_stop;
        let prunes: usize = self.scan_marked_lines(destination, round, &state.marked, &mut state.labels);
        state.tally.destination_bound_prunes = count_up(state.tally.destination_bound_prunes, prunes);
        let frontier: Vec<usize> = copy_indices(&state.labels.improved);
        let ghost ridden = state.labels@;
        proof {
            assert forall|i: int| 0 <= i < frontier@.len() implies on_the_way(ridden, *self.data, #[trigger] frontier@[i] as int) by {
                assert(on_the_way(ridden, *self.data, ridden.improved[i] as int));
            }
            assert(frontier@.skip(0) =~= frontier@);
        }
        if frontier.len() > 0 {
            self.finish_from(
                goal,
                round,
                &frontier,
                0,
                &mut state.labels,
                &mut state.destination_round,
                &mut state.tally,
                memory,
                local_cache,
            );
        }
        let ghost first = look_of(state.labels, state.destination_round, state.tally, memory@.counters);
        self.relax_transfers_tiled(destination, &frontier, round, &mut state.labels);
        let ghost walked = state.labels@;
        let reached_stops: Vec<usize> = copy_indices(&state.labels.improved);
        proof {
            assert forall|i: int| 0 <= i < reached_stops@.len() implies on_the_way(walked, *self.data, #[trigger] reached_stops@[i] as int) by {
                assert(on_the_way(walked, *self.data, walked.improved[i] as int));
            }
            assert(memory@.exact == content.exact && memory@.spatial == content.spatial);
            assert(cache_fits(memory@, self.data.trips@, self.data.stops@.len() as int));
        }
        if reached_stops.len() > frontier.len() {
            let ghost begun = look_of(state.labels, state.destination_round, state.tally, memory@.counters);
            let ghost held = memory@;
            self.finish_from(
                goal,
                round,
                &reached_stops,
                frontier.len(),
                &mut state.labels,
                &mut state.destination_round,
                &mut state.tally,
                memory,
                local_cache,
            );
            proof {
                finishing_ignores_counters(begun, *self, held, content, *goal, round as int, reached_stops@.skip(frontier@.len() as int));
            }
        }
    }

    fn run_query_round(
        &self,
        goal: &LookaheadGoal,
        round: usize,
        state: &mut QueryState,
        memory: &mut ProfileCache,
        local_cache: &mut LocalSubqueryCache,
        Ghost(stops): Ghost<int>,
    )
        requires
            search_ready(*self),
            goal.max_rounds < usize::MAX,
            goal.fits(*self, stops, goal.max_rounds + 1),
            old(state).fits(*self, stops, goal.max_rounds + 1),
            goal.destination_stop < self.data.stops@.len() || goal.destination_stop != old(state).labels@.origin,
            round <= goal.max_rounds,
            old(memory).wf(),
            cache_fits(old(memory)@, self.data.trips@, self.data.stops@.len() as int),
            old(local_cache).correct(*self),
        ensures
            final(state).fits(*self, stops, goal.max_rounds + 1),
            final(state).labels@.origin == old(state).labels@.origin,
            final(state).labels@.improved.len() == 0,
            final(memory).wf(),
            final(local_cache).correct(*self),
            final(memory)@ == (CacheView { counters: final(memory)@.counters, ..old(memory)@ }),
            final(memory).spatial_listed() == old(memory).spatial_listed(),
            final(state).run(final(memory)@.counters) == after_query_round(old(state).run(old(memory)@.counters), *self, old(memory)@, *goal, round as int),
    {
        let ghost rounds = goal.max_rounds + 1;
        let destination: usize = goal.destination_stop;
        self.travel(goal, round, state, memory, local_cache, Ghost(stops));
        let ghost second = state.labels@;
        assert(second.flags.len() == stops);
        if state.labels.flags[destination] {
            state.destination_round = Some(round);
        }
        let metrics: RoundMetrics = state.labels.metrics;
        state.tally.destination_bound_prunes = count_up(state.tally.destination_bound_prunes, metrics.destination_bound_prunes);
        state.totals = add_round(state.totals, &metrics);
        let arrival: Option<i32> = match state.destination_round {
            Some(r) => {
                assert(second.arrivals[r as int].len() == stops);
                Some(state.labels.arrivals[r][destination])
            },
            None => None,
        };
        let improvements: usize = state.labels.improved.len();
        state.trace.push(
            RoundRecord {
                round: round,
                marked_stops: state.marked.len(),
                improvements: improvements,
                metrics: metrics,
                destination_arrival_secs: arrival,
            },
        );
        let mut next: Vec<usize> = Vec::new();
        std::mem::swap(&mut next, &mut state.labels.improved);
        state.marked = next;
        proof {
            assert(state.labels@.improved =~= Seq::<usize>::empty());
            assert(state.labels@ == (SearchView { improved: Seq::empty(), ..second }));
            assert(second.wf(stops, rounds));
            assert(state.labels@.wf(stops, rounds));
            assert(labels_valid(second, *self.data));
            assert(labels_valid(state.labels@, *self.data));
            assert forall|i: int| 0 <= i < state.marked@.len() implies on_the_way(state.labels@, *self.data, #[trigger] state.marked@[i] as int) by {
                assert(on_the_way(second, *self.data, second.improved[i] as int));
            }
        }
    }

    /// Runs the rounds of a query.
    pub fn run_query_rounds(
        &self,
        goal: &LookaheadGoal,
        state: &mut QueryState,
        memory: &mut ProfileCache,
        local_cache: &mut LocalSubqueryCache,
        Ghost(stops): Ghost<int>,
    )
        requires
            search_ready(*self),
            goal.max_rounds < usize::MAX,
            goal.fits(*self, stops, goal.max_rounds + 1),
            old(state).fits(*self, stops, goal.max_rounds + 1),
            goal.destination_stop < self.data.stops@.len() || goal.destination_stop != old(state).labels@.origin,
            old(memory).wf(),
            cache_fits(old(memory)@, self.data.trips@, self.data.stops@.len() as int),
            old(local_cache).correct(*self),
        ensures
            final(state).fits(*self, stops, goal.max_rounds + 1),
            final(state).labels@.origin == old(state).labels@.origin,
            final(memory).wf(),
            final(memory)@ == (CacheView { counters: final(memory)@.counters, ..old(memory)@ }),
            final(memory).spatial_listed() == old(memory).spatial_listed(),
            final(state).run(final(memory)@.counters) == after_query_rounds(old(state).run(old(memory)@.counters), *self, old(memory)@, *goal, 1),
    {
        let ghost content = memory@;
        let ghost listed = memory.spatial_listed();
        let ghost done = after_query_rounds(state.run(memory@.counters), *self, content, *goal, 1);
        let mut round: usize = 1;
        while round <= goal.max_rounds && state.marked.len() > 0
            invariant
                1 <= round <= goal.max_rounds + 1,
                content == old(memory)@,
                search_ready(*self),
                goal.max_rounds < usize::MAX,
                goal.fits(*self, stops, goal.max_rounds + 1),
                state.fits(*self, stops, goal.max_rounds + 1),
                state.labels@.origin == old(state).labels@.origin,
                goal.destination_stop < self.data.stops@.len() || goal.destination_stop != state.labels@.origin,
                memory.wf(),
                cache_fits(content, self.data.trips@, self.data.stops@.len() as int),
                memory@ == (CacheView { counters: memory@.counters, ..content }),
                memory.spatial_listed() == listed,
                local_cache.correct(*self),
                done == after_query_rounds(state.run(memory@.counters), *self, content, *goal, round as int),
            decreases goal.max_rounds + 1 - round,
        {
            let ghost held = memory@;
            let ghost before = state.run(memory@.counters);
            proof {
                assert(memory@.exact == content.exact && memory@.spatial == content.spatial);
                assert(cache_fits(memory@, self.data.trips@, self.data.stops@.len() as int));
            }
            self.run_query_round(goal, round, state, memory, local_cache, Ghost(stops));
            proof {
                round_ignores_counters(before, *self, held, content, *goal, round as int);
            }
            round = round + 1;
        }
    }
}

proof fn lookahead_ignores_counters(look: Look, ctx: SearchContext, a: CacheView, b: CacheView, goal: LookaheadGoal, round: int, stops: Seq<usize>, n: int)
    requires
        a == (CacheView { counters: a.counters, ..b }),
    ensures
        after_lookahead(look, ctx, a, goal, round, stops, n) == after_lookahead(look, ctx, b, goal, round, stops, n),
    decreases n,
{
    if n > 0 {
        lookahead_ignores_counters(look, ctx, a, b, goal, round, stops, n - 1);
    }
}

proof fn finishing_ignores_counters(look: Look, ctx: SearchContext, a: CacheView, b: CacheView, goal: LookaheadGoal, round: int, stops: Seq<usize>)
    requires
        a == (CacheView { counters: a.counters, ..b }),
    ensures
        after_finishing(look, ctx, a, goal, round, stops) == after_finishing(look, ctx, b, goal, round, stops),
{
    let walks = goal.destination_egress_edges@;
    let n = stops.len() as int;
    let walked = if walks.len() > 0 {
        Look { reach: after_egress(look.reach, goal.destination_stop as int, round, stops, walks, n), ..look }
    } else {
        look
    };
    lookahead_ignores_counters(walked, ctx, a, b, goal, round, stops, n);
}

proof fn round_ignores_counters(run: QueryRun, ctx: SearchContext, a: CacheView, b: CacheView, goal: LookaheadGoal, round: int)
    requires
        a == (CacheView { counters: a.counters, ..b }),
    ensures
        after_query_round(run, ctx, a, goal, round) == after_query_round(run, ctx, b, goal, round),
{
    let destination = goal.destination_stop as int;
    let best = run.reach.view.best;
    let prunes = queue_prunes(best, best[destination], run.marked, run.marked.len() as int);
    let tally = LookaheadTally { destination_bound_prunes: counted(run.tally.destination_bound_prunes, prunes), ..run.tally };
    let ridden = after_rides(run.reach.view, ctx, destination, round, run.marked);
    let frontier = ridden.improved;
    let begun = Look { reach: Reach { view: ridden, round: run.reach.round }, tally: tally, counters: run.counters };
    finishing_ignores_counters(begun, ctx, a, b, goal, round, frontier);
    let first = if frontier.len() > 0 { after_finishing(begun, ctx, b, goal, round, frontier) } else { begun };
    let walked = after_walks(first.reach.view, *ctx.data, round, destination, frontier);
    let rest = walked.improved.skip(frontier.len() as int);
    let second_begun = Look { reach: Reach { view: walked, ..first.reach }, ..first };
    finishing_ignores_counters(second_begun, ctx, a, b, goal, round, rest);
}

/// What a query does depends on what is remembered, not on how often it was
/// asked for before.
pub proof fn rounds_ignore_counters(run: QueryRun, ctx: SearchContext, a: CacheView, b: CacheView, goal: LookaheadGoal, round: int)
    requires
        a == (CacheView { counters: a.counters, ..b }),
    ensures
        after_query_rounds(run, ctx, a, goal, round) == after_query_rounds(run, ctx, b, goal, round),
    decreases goal.max_rounds + 1 - round,
{
    if !(round > goal.max_rounds || run.marked.len() == 0) {
        round_ignores_counters(run, ctx, a, b, goal, round);
        rounds_ignore_counters(after_query_round(run, ctx, b, goal, round), ctx, a, b, goal, round + 1);
    }
}

} // verus!
