//! Finishing a journey early: by a walk to the destination, or with a journey
//! remembered from an earlier query.

use crate::leg::{combine_cached_leg_sequences, copy_legs, leading_on, leg_valid, legs_arrive, legs_lead, legs_valid, ride_count, CachedLeg, ParentStep, ParentView};
use crate::model::{PolylinePoint, TripRecord, INF_TIME};
use crate::number::Real;
use crate::profile_bucket::{MatchView, SpatialProfileMatch};
use crate::search::{count_up, counted, on_the_way, parent_valid, SearchContext, SearchState, SearchView};
use crate::subquery::{found_arrives, labels_ready, local_journey, local_view, search_ready, LocalSubqueryResult};
use vstd::prelude::*;

verus! {

/// A walk between a place of a query and a stop.
#[derive(Clone, Debug)]
pub struct QueryVirtualWalk {
    pub from_stop: usize,
    pub to_stop: usize,
    pub duration_secs: i32,
    pub distance_meters: Real,
    pub polyline: Vec<PolylinePoint>,
    pub segment_way_ids: Vec<Option<i64>>,
}

/// How often remembered journeys were asked for and used.
#[derive(Clone, Copy, Debug, PartialEq, Eq, Structural)]
pub struct LookaheadTally {
    pub profile_lookups: usize,
    pub profile_hits: usize,
    pub profile_bound_improvements: usize,
    pub destination_bound_prunes: usize,
    pub flat_spatial_mask_checks: usize,
    pub flat_spatial_mask_hits: usize,
}

/// A finished journey: the arrival, the rides it takes and its legs.
pub struct CompletionView {
    pub arrival_secs: int,
    pub transit_legs: usize,
    pub legs: Seq<CachedLeg>,
}

/// The labels with the round in which the destination was reached last.
pub struct Reach {
    pub view: SearchView,
    pub round: Option<int>,
}

/// Whether an arrival at the destination replaces the best one: it is earlier,
/// or as early in an earlier round.
pub open spec fn replaces(reach: Reach, destination: int, arrival: int, target_round: int) -> bool {
    ||| arrival < reach.view.best[destination]
    ||| arrival == reach.view.best[destination] && (reach.round is None || target_round < reach.round->0)
}

/// The labels after a remembered journey was put at the end of the way to a
/// stop.
pub open spec fn with_memo(
    reach: Reach,
    destination: int,
    source_stop: usize,
    source_round: usize,
    target_round: int,
    arrival: int,
    legs: Seq<CachedLeg>,
) -> Reach {
    if replaces(reach, destination, arrival, target_round) {
        let view = reach.view;
        Reach {
            view: SearchView {
                best: view.best.update(destination, arrival as i32),
                arrivals: view.arrivals.update(target_round, view.arrivals[target_round].update(destination, arrival as i32)),
                parents: view.parents.update(
                    target_round,
                    view.parents[target_round].update(
                        destination,
                        Some(ParentView::Memoized { from_stop: source_stop, source_round: source_round, legs: legs }),
                    ),
                ),
                ..view
            },
            round: Some(target_round),
        }
    } else {
        reach
    }
}

/// A remembered journey keeps the labels in shape.
pub proof fn memo_keeps_labels(
    reach: Reach,
    ctx: SearchContext,
    stops: int,
    rounds: int,
    destination: int,
    source_stop: usize,
    source_round: usize,
    target_round: int,
    arrival: int,
    legs: Seq<CachedLeg>,
)
    requires
        labels_ready(reach.view, ctx, stops, rounds),
        0 <= destination < stops,
        on_the_way(reach.view, *ctx.data, source_stop as int),
        source_round < rounds,
        0 <= target_round < rounds,
        i32::MIN <= arrival,
        legs_valid(legs, ctx.data.trips@, stops),
        legs_lead(legs, source_stop as int, destination, ctx.data.stops@.len() as int),
        legs_arrive(legs, arrival),
        destination < ctx.data.stops@.len() || destination != reach.view.origin,
    ensures
        labels_ready(with_memo(reach, destination, source_stop, source_round, target_round, arrival, legs).view, ctx, stops, rounds),
{
    let after = with_memo(reach, destination, source_stop, source_round, target_round, arrival, legs).view;
    let view = reach.view;
    if replaces(reach, destination, arrival, target_round) {
        assert(view.best[destination] <= INF_TIME);
        assert(view.arrivals[target_round].len() == stops);
        assert(view.parents[target_round].len() == stops);
        assert forall|r: int| 0 <= r < rounds implies (#[trigger] after.arrivals[r]).len() == stops by {
            assert(view.arrivals[r].len() == stops);
        }
        assert forall|r: int| 0 <= r < rounds implies (#[trigger] after.parents[r]).len() == stops by {
            assert(view.parents[r].len() == stops);
        }
        assert forall|i: int| 0 <= i < after.improved.len() implies (#[trigger] after.improved[i]) < stops by {
            assert(view.improved[i] < stops);
        }
        assert forall|s: int| 0 <= s < stops implies (#[trigger] after.best[s]) <= INF_TIME by {
            assert(view.best[s] <= INF_TIME);
        }
        assert forall|r: int, s: int| 0 <= r < rounds && 0 <= s < stops implies (#[trigger] after.arrivals[r][s]) <= INF_TIME by {
            assert(view.arrivals[r][s] <= INF_TIME);
        }
        assert forall|r: int, s: int| 0 <= r < after.parents.len() && 0 <= s < after.best.len() && (#[trigger] after.parents[r][s]) is Some implies parent_valid(
            after.parents[r][s]->0,
            *ctx.data,
            after.best.len() as int,
            after.arrivals.len() as int,
            after.origin,
            s,
            after.arrivals[r][s],
        ) by {
            if r == target_round && s == destination {
                reveal(parent_valid);
            } else {
                assert(after.parents[r][s] == view.parents[r][s]);
                assert(after.arrivals[r][s] == view.arrivals[r][s]) by {
                    assert(view.arrivals[r].len() == stops);
                }
            }
        }
    }
}

/// The round as a mathematical number.
pub open spec fn round_view(round: Option<usize>) -> Option<int> {
    match round {
        Some(value) => Some(value as int),
        None => None,
    }
}

/// Puts a remembered journey at the end of the way to a stop, if it improves
/// the arrival at the destination; says whether it did.
pub fn record_memoized_destination_improvement(
    destination_stop: usize,
    source_stop: usize,
    source_round: usize,
    target_round: usize,
    candidate_arrival: i32,
    suffix_legs: Vec<CachedLeg>,
    state: &mut SearchState,
    destination_round: &mut Option<usize>,
) -> (improved: bool)
    requires
        old(state)@.wf(old(state)@.best.len() as int, old(state)@.arrivals.len() as int),
        destination_stop < old(state)@.best.len(),
        target_round < old(state)@.arrivals.len(),
    ensures
        (Reach { view: final(state)@, round: round_view(*final(destination_round)) }) == with_memo(
            (Reach { view: old(state)@, round: round_view(*old(destination_round)) }),
            destination_stop as int,
            source_stop,
            source_round,
            target_round as int,
            candidate_arrival as int,
            suffix_legs@,
        ),
        improved == replaces(
            (Reach { view: old(state)@, round: round_view(*old(destination_round)) }),
            destination_stop as int,
            candidate_arrival as int,
            target_round as int,
        ),
        *final(destination_round) is Some && *old(destination_round) is None ==> improved,
        *final(destination_round) is Some && !improved ==> *final(destination_round) == *old(destination_round),
        improved ==> *final(destination_round) == Some(target_round),
{
    let best: i32 = state.best[destination_stop];
    let replace: bool = if candidate_arrival < best {
        true
    } else if candidate_arrival > best {
        false
    } else {
        match *destination_round {
            Some(current) => target_round < current,
            None => true,
        }
    };
    if !replace {
        return false;
    }
    let ghost before = state@;
    let ghost reach = Reach { view: before, round: round_view(*destination_round) };
    let ghost legs = suffix_legs@;
    assert(before.arrivals[target_round as int].len() == before.best.len());
    assert(before.parents[target_round as int].len() == before.best.len());
    state.best.set(destination_stop, candidate_arrival);
    state.arrivals[target_round].set(destination_stop, candidate_arrival);
    state.parents[target_round].set(
        destination_stop,
        Some(ParentStep::Memoized { from_stop: source_stop, source_round: source_round, legs: suffix_legs }),
    );
    *destination_round = Some(target_round);
    proof {
        let after = with_memo(reach, destination_stop as int, source_stop, source_round, target_round as int, candidate_arrival as int, legs).view;
        assert(state@.arrivals =~= after.arrivals) by {
            assert forall|r: int| 0 <= r < after.arrivals.len() implies state@.arrivals[r] == after.arrivals[r] by {
                assert(state@.arrivals[r] =~= after.arrivals[r]);
            }
        }
        assert(state@.parents =~= after.parents) by {
            assert forall|r: int| 0 <= r < after.parents.len() implies state@.parents[r] == after.parents[r] by {
                assert(state@.parents[r] =~= after.parents[r]);
            }
        }
        assert(state@ == after);
    }
    true
}

/// Whether walks of a query lead between known stops and take times that can be
/// added to any arrival.
pub open spec fn query_walks_valid(walks: Seq<QueryVirtualWalk>, stops: int) -> bool {
    forall|i: int| 0 <= i < walks.len() ==> {
        &&& (#[trigger] walks[i]).from_stop < stops
        &&& walks[i].to_stop < stops
        &&& 0 <= walks[i].duration_secs <= i32::MAX - INF_TIME
    }
}

/// The first walk from a stop, among those from the `i`th on.
pub open spec fn first_walk_from(walks: Seq<QueryVirtualWalk>, stop: usize, i: int) -> Option<int>
    decreases walks.len() - i,
{
    if i >= walks.len() {
        None
    } else if walks[i].from_stop == stop {
        Some(i)
    } else {
        first_walk_from(walks, stop, i + 1)
    }
}

/// The walk along an edge that is begun at a time.
pub open spec fn egress_leg(walk: QueryVirtualWalk, ready_at: int) -> CachedLeg {
    CachedLeg::Walk {
        from_stop: walk.from_stop,
        to_stop: walk.to_stop,
        departure_secs: ready_at as i32,
        arrival_secs: (ready_at + walk.duration_secs) as i32,
        duration_secs: walk.duration_secs,
        distance_meters: walk.distance_meters,
    }
}

/// The labels after walking to the destination from the first `n` stops.
pub open spec fn after_egress(reach: Reach, destination: int, round: int, stops: Seq<usize>, walks: Seq<QueryVirtualWalk>, n: int) -> Reach
    decreases n,
{
    if n <= 0 {
        reach
    } else {
        let before = after_egress(reach, destination, round, stops, walks, n - 1);
        let stop = stops[n - 1];
        let ready_at = before.view.arrivals[round][stop as int];
        match first_walk_from(walks, stop, 0) {
            None => before,
            Some(i) => if ready_at >= INF_TIME {
                before
            } else {
                with_memo(before, destination, stop, round as usize, round, ready_at + walks[i].duration_secs, seq![egress_leg(walks[i], ready_at as int)])
            },
        }
    }
}

/// The first walk from a stop is one of the walks and from that stop.
pub proof fn first_walk_in_range(walks: Seq<QueryVirtualWalk>, stop: usize, i: int)
    requires
        0 <= i,
    ensures
        match first_walk_from(walks, stop, i) {
            Some(at) => i <= at < walks.len() && walks[at].from_stop == stop,
            None => true,
        },
    decreases walks.len() - i,
{
    if i < walks.len() && walks[i].from_stop != stop {
        first_walk_in_range(walks, stop, i + 1);
    }
}

fn find_walk_from(walks: &Vec<QueryVirtualWalk>, stop: usize) -> (found: Option<usize>)
    ensures
        round_view(found) == first_walk_from(walks@, stop, 0),
        found is Some ==> found->0 < walks@.len() && walks@[found->0 as int].from_stop == stop,
{
    proof {
        first_walk_in_range(walks@, stop, 0);
    }
    let mut i: usize = 0;
    while i < walks.len()
        invariant
            i <= walks.len(),
            first_walk_from(walks@, stop, 0) == first_walk_from(walks@, stop, i as int),
        decreases walks.len() - i,
    {
        if walks[i].from_stop == stop {
            return Some(i);
        }
        i = i + 1;
    }
    None
}

/// Whether a round is one of the rounds of the labels.
pub open spec fn round_valid(round: Option<int>, rounds: int) -> bool {
    round is Some ==> 0 <= round->0 < rounds
}

impl<'a> SearchContext<'a> {
    /// Walks to the destination from each of the stops that has a walk there.
    pub fn apply_virtual_destination_egress(
        &self,
        destination_stop: usize,
        current_round: usize,
        candidate_stops: &Vec<usize>,
        from: usize,
        destination_egress_edges: &Vec<QueryVirtualWalk>,
        state: &mut SearchState,
        destination_round: &mut Option<usize>,
    )
        requires
            labels_ready(old(state)@, *self, old(state)@.best.len() as int, old(state)@.arrivals.len() as int),
            round_valid(round_view(*old(destination_round)), old(state)@.arrivals.len() as int),
            destination_stop < old(state)@.best.len(),
            current_round < old(state)@.arrivals.len(),
            from <= candidate_stops@.len(),
            forall|i: int| 0 <= i < candidate_stops@.len() ==> on_the_way(old(state)@, *self.data, #[trigger] candidate_stops@[i] as int),
            destination_stop < self.data.stops@.len() || destination_stop != old(state)@.origin,
            forall|i: int| 0 <= i < destination_egress_edges@.len() ==> (#[trigger] destination_egress_edges@[i]).to_stop == destination_stop,
            query_walks_valid(destination_egress_edges@, old(state)@.best.len() as int),
        ensures
            labels_ready(final(state)@, *self, old(state)@.best.len() as int, old(state)@.arrivals.len() as int),
            final(state)@.origin == old(state)@.origin,
            round_valid(round_view(*final(destination_round)), old(state)@.arrivals.len() as int),
            (Reach { view: final(state)@, round: round_view(*final(destination_round)) }) == after_egress(
                (Reach { view: old(state)@, round: round_view(*old(destination_round)) }),
                destination_stop as int,
                current_round as int,
                candidate_stops@.skip(from as int),
                destination_egress_edges@,
                candidate_stops@.len() - from,
            ),
            final(state)@.improved == old(state)@.improved,
            final(state)@.flags == old(state)@.flags,
    {
        let ghost start = Reach { view: state@, round: round_view(*destination_round) };
        let ghost stops = state@.best.len() as int;
        let ghost rounds = state@.arrivals.len() as int;
        let ghost list = candidate_stops@.skip(from as int);
        let mut i: usize = from;
        while i < candidate_stops.len()
            invariant
                from <= i <= candidate_stops.len(),
                list == candidate_stops@.skip(from as int),
                start == (Reach { view: old(state)@, round: round_view(*old(destination_round)) }),
                labels_ready(state@, *self, stops, rounds),
                state@.origin == old(state)@.origin,
                round_valid(round_view(*destination_round), rounds),
                destination_stop < stops,
                current_round < rounds,
                forall|k: int| 0 <= k < candidate_stops@.len() ==> on_the_way(state@, *self.data, #[trigger] candidate_stops@[k] as int),
                destination_stop < self.data.stops@.len() || destination_stop != state@.origin,
                forall|k: int| 0 <= k < destination_egress_edges@.len() ==> (#[trigger] destination_egress_edges@[k]).to_stop == destination_stop,
                query_walks_valid(destination_egress_edges@, stops),
                state@.improved == start.view.improved,
                state@.flags == start.view.flags,
                (Reach { view: state@, round: round_view(*destination_round) }) == after_egress(
                    start,
                    destination_stop as int,
                    current_round as int,
                    list,
                    destination_egress_edges@,
                    i - from,
                ),
            decreases candidate_stops.len() - i,
        {
            let stop: usize = candidate_stops[i];
            assert(list[i - from] == stop);
            assert(on_the_way(state@, *self.data, candidate_stops@[i as int] as int));
            let found: Option<usize> = find_walk_from(destination_egress_edges, stop);
            match found {
                None => {},
                Some(at) => {
                    let walk: &QueryVirtualWalk = &destination_egress_edges[at];
                    assert(destination_egress_edges@[at as int].to_stop < stops);
                    assert(state@.arrivals[current_round as int].len() == stops);
                    let ready_at: i32 = state.arrivals[current_round][stop];
                    if ready_at < INF_TIME {
                        let arrival: i32 = ready_at + walk.duration_secs;
                        let mut legs: Vec<CachedLeg> = Vec::new();
                        legs.push(
                            CachedLeg::Walk {
                                from_stop: walk.from_stop,
                                to_stop: walk.to_stop,
                                departure_secs: ready_at,
                                arrival_secs: arrival,
                                duration_secs: walk.duration_secs,
                                distance_meters: walk.distance_meters,
                            },
                        );
                        assert(legs@ =~= seq![egress_leg(*walk, ready_at as int)]);
                        proof {
                            memo_keeps_labels(
                                Reach { view: state@, round: round_view(*destination_round) },
                                *self,
                                stops,
                                rounds,
                                destination_stop as int,
                                stop,
                                current_round,
                                current_round as int,
                                arrival as int,
                                legs@,
                            );
                        }
                        let _ = record_memoized_destination_improvement(
                            destination_stop,
                            stop,
                            current_round,
                            current_round,
                            arrival,
                            legs,
                            state,
                            destination_round,
                        );
                    }
                },
            }
            i = i + 1;
        }
    }
}

/// One remembered search between two stops.
pub struct LocalEntry {
    pub from_stop: usize,
    pub to_stop: usize,
    pub departure_secs: i32,
    pub remaining_transit_legs: usize,
    pub result: Option<LocalSubqueryResult>,
}

/// The searches between two stops that a query has made.
pub struct LocalSubqueryCache {
    pub entries: Vec<LocalEntry>,
}

impl LocalSubqueryCache {
    /// Whether every entry is what the search gives.
    pub open spec fn correct(&self, ctx: SearchContext) -> bool {
        forall|i: int| 0 <= i < self.entries@.len() ==> {
            let entry = #[trigger] self.entries@[i];
            &&& local_view(entry.result) == local_journey(ctx, entry.from_stop, entry.to_stop, entry.departure_secs, entry.remaining_transit_legs as int)
            &&& entry.result is Some ==> entry.result->0.arrival_secs <= INF_TIME && legs_valid(entry.result->0.legs@, ctx.data.trips@, ctx.data.stops@.len() as int)
                && legs_lead(entry.result->0.legs@, entry.from_stop as int, entry.to_stop as int, ctx.data.stops@.len() as int)
                && found_arrives(entry.result->0, entry.departure_secs)
        }
    }

    /// A cache without searches.
    pub fn new() -> (cache: LocalSubqueryCache)
        ensures
            forall|ctx: SearchContext| #[trigger] cache.correct(ctx),
    {
        LocalSubqueryCache { entries: Vec::new() }
    }
}

fn copy_local(result: &Option<LocalSubqueryResult>) -> (copy: Option<LocalSubqueryResult>)
    ensures
        local_view(copy) == local_view(*result),
        copy is Some ==> result is Some && copy->0.legs@ == result->0.legs@ && copy->0.arrival_secs == result->0.arrival_secs,
{
    match result {
        None => None,
        Some(found) => {
            let legs: Vec<CachedLeg> = copy_legs(&found.legs, 0);
            assert(legs@ =~= found.legs@);
            Some(LocalSubqueryResult { arrival_secs: found.arrival_secs, transit_legs: found.transit_legs, legs: legs })
        },
    }
}

/// Whether a search between two stops can be made.
pub open spec fn local_search_possible(ctx: SearchContext, from_stop: usize, to_stop: usize, departure: i32, remaining: usize) -> bool {
    &&& search_ready(ctx)
    &&& from_stop < ctx.data.stops@.len()
    &&& to_stop < ctx.data.stops@.len()
    &&& departure <= INF_TIME
    &&& (remaining + 1) * ctx.data.stops@.len() <= usize::MAX
    &&& remaining < usize::MAX
}

impl<'a> SearchContext<'a> {
    /// The journey between two stops, searched for once.
    pub fn lookup_or_compute_local_subquery(
        &self,
        from_stop: usize,
        to_stop: usize,
        departure_secs: i32,
        remaining_transit_legs: usize,
        cache: &mut LocalSubqueryCache,
    ) -> (result: Option<LocalSubqueryResult>)
        requires
            local_search_possible(*self, from_stop, to_stop, departure_secs, remaining_transit_legs),
            old(cache).correct(*self),
        ensures
            final(cache).correct(*self),
            local_view(result) == local_journey(*self, from_stop, to_stop, departure_secs, remaining_transit_legs as int),
            result is Some ==> result->0.arrival_secs <= INF_TIME && legs_valid(result->0.legs@, self.data.trips@, self.data.stops@.len() as int)
                && legs_lead(result->0.legs@, from_stop as int, to_stop as int, self.data.stops@.len() as int)
                && found_arrives(result->0, departure_secs),
    {
        let mut i: usize = 0;
        while i < cache.entries.len()
            invariant
                i <= cache.entries.len(),
                cache.correct(*self),
                *cache == *old(cache),
            decreases cache.entries.len() - i,
        {
            let entry: &LocalEntry = &cache.entries[i];
            if entry.from_stop == from_stop && entry.to_stop == to_stop && entry.departure_secs == departure_secs
                && entry.remaining_transit_legs == remaining_transit_legs {
                return copy_local(&entry.result);
            }
            i = i + 1;
        }
        let computed: Option<LocalSubqueryResult> = self.compute_local_subquery(from_stop, to_stop, departure_secs, remaining_transit_legs);
        let copy: Option<LocalSubqueryResult> = copy_local(&computed);
        let ghost before = cache.entries@;
        cache.entries.push(
            LocalEntry {
                from_stop: from_stop,
                to_stop: to_stop,
                departure_secs: departure_secs,
                remaining_transit_legs: remaining_transit_legs,
                result: computed,
            },
        );
        proof {
            assert forall|k: int| 0 <= k < cache.entries@.len() implies ({
                let entry = #[trigger] cache.entries@[k];
                &&& local_view(entry.result) == local_journey(*self, entry.from_stop, entry.to_stop, entry.departure_secs, entry.remaining_transit_legs as int)
                &&& entry.result is Some ==> entry.result->0.arrival_secs <= INF_TIME && legs_valid(entry.result->0.legs@, self.data.trips@, self.data.stops@.len() as int)
                    && legs_lead(entry.result->0.legs@, entry.from_stop as int, entry.to_stop as int, self.data.stops@.len() as int)
                    && found_arrives(entry.result->0, entry.departure_secs)
            }) by {
                if k < before.len() {
                    assert(cache.entries@[k] == before[k]);
                }
            }
        }
        copy
    }
}

/// The rides that are left after a remembered journey.
pub open spec fn rides_left(remaining: usize, used: usize) -> usize {
    if remaining > used { (remaining - used) as usize } else { 0 }
}

/// The best of the ways to go on from the border to the destination: over the
/// first `n` stops with a walk there. Of equally early ones the one with fewer
/// rides, then the first.
pub open spec fn best_completion(ctx: SearchContext, destination: usize, found: MatchView, remaining: usize, walks: Seq<QueryVirtualWalk>, n: int) -> Option<CompletionView>
    decreases n,
{
    if n <= 0 {
        None
    } else {
        let before = best_completion(ctx, destination, found, remaining, walks, n - 1);
        let walk = walks[n - 1];
        match local_journey(ctx, found.boundary_stop, walk.from_stop, found.boundary_arrival_secs, rides_left(remaining, found.transit_legs) as int) {
            None => before,
            Some(local) => {
                let arrival = local.arrival_secs + walk.duration_secs;
                let rides = counted(found.transit_legs, local.transit_legs as int);
                let last = CachedLeg::Walk {
                    from_stop: walk.from_stop,
                    to_stop: destination,
                    departure_secs: local.arrival_secs,
                    arrival_secs: arrival as i32,
                    duration_secs: walk.duration_secs,
                    distance_meters: walk.distance_meters,
                };
                let legs = (found.trunk_legs + local.legs).push(last);
                let better = match before {
                    None => true,
                    Some(best) => arrival < best.arrival_secs || (arrival == best.arrival_secs && rides < best.transit_legs),
                };
                if better { Some(CompletionView { arrival_secs: arrival, transit_legs: rides, legs: legs }) } else { before }
            },
        }
    }
}

/// Whether a remembered journey leads from a stop to another of the timetable, ends
/// when it says and has so many rides, and its legs are valid.
pub open spec fn match_valid(found: MatchView, trips: Seq<TripRecord>, stops: int, source: int) -> bool {
    &&& found.boundary_stop < stops
    &&& legs_valid(found.trunk_legs, trips, stops)
    &&& legs_lead(found.trunk_legs, source, found.boundary_stop as int, stops)
    &&& legs_arrive(found.trunk_legs, found.boundary_arrival_secs as int)
    &&& found.transit_legs == ride_count(found.trunk_legs)
}

proof fn joined_legs_valid(a: Seq<CachedLeg>, b: Seq<CachedLeg>, trips: Seq<TripRecord>, stops: int, more: int)
    requires
        legs_valid(a, trips, stops),
        legs_valid(b, trips, stops),
        stops <= more,
    ensures
        legs_valid(a + b, trips, more),
{
    assert forall|i: int| 0 <= i < (a + b).len() implies leg_valid(#[trigger] (a + b)[i], trips, more) by {
        if i < a.len() {
            assert(leg_valid(a[i], trips, stops));
        } else {
            assert(leg_valid(b[i - a.len()], trips, stops));
        }
    }
}

proof fn completed_legs(trunk: Seq<CachedLeg>, local: Seq<CachedLeg>, last: CachedLeg, trips: Seq<TripRecord>, statics: int, places: int, source: int, over: int)
    requires
        legs_valid(trunk, trips, statics),
        legs_valid(local, trips, statics),
        leg_valid(last, trips, places),
        statics <= places,
        legs_lead(trunk, source, over, statics),
        legs_lead(local, over, last.source() as int, statics),
        over < statics,
        last.source() < statics,
    ensures
        legs_valid((trunk + local).push(last), trips, places),
        legs_lead((trunk + local).push(last), source, last.target() as int, statics),
{
    let shorter = trunk + local;
    let legs = shorter.push(last);
    joined_legs_valid(trunk, local, trips, statics, places);
    assert forall|k: int| 0 <= k < legs.len() implies leg_valid(#[trigger] legs[k], trips, places) by {
        if k < shorter.len() {
            assert(leg_valid(shorter[k], trips, places));
        }
    }
    leading_on(trunk, local, source, over, last.source() as int, statics);
    leading_on(shorter, seq![last], source, last.source() as int, last.target() as int, statics);
    assert(shorter + seq![last] =~= legs);
}

impl<'a> SearchContext<'a> {
    /// Goes on from the border to the destination, over the stop that gives the
    /// earliest arrival.
    pub fn best_virtual_destination_completion(
        &self,
        destination_stop: usize,
        spatial_match: &SpatialProfileMatch,
        remaining_transit_legs: usize,
        destination_egress_edges: &Vec<QueryVirtualWalk>,
        cache: &mut LocalSubqueryCache,
        Ghost(stops): Ghost<int>,
        Ghost(source): Ghost<int>,
    ) -> (best: Option<(i32, usize, Vec<CachedLeg>)>)
        requires
            search_ready(*self),
            self.data.stops@.len() <= stops,
            destination_stop < stops,
            match_valid(spatial_match@, self.data.trips@, self.data.stops@.len() as int, source),
            spatial_match.boundary_arrival_secs <= INF_TIME,
            (remaining_transit_legs + 1) * self.data.stops@.len() <= usize::MAX,
            remaining_transit_legs < usize::MAX,
            query_walks_valid(destination_egress_edges@, stops),
            forall|i: int| 0 <= i < destination_egress_edges@.len() ==> (#[trigger] destination_egress_edges@[i]).from_stop < self.data.stops@.len(),
            old(cache).correct(*self),
        ensures
            final(cache).correct(*self),
            (match best {
                None => None,
                Some(found) => Some(CompletionView { arrival_secs: found.0 as int, transit_legs: found.1, legs: found.2@ }),
            }) == best_completion(*self, destination_stop, spatial_match@, remaining_transit_legs, destination_egress_edges@, destination_egress_edges@.len() as int),
            best is Some ==> legs_valid((best->0).2@, self.data.trips@, stops) && legs_lead((best->0).2@, source, destination_stop as int, self.data.stops@.len() as int)
                && legs_arrive((best->0).2@, (best->0).0 as int),
    {
        let left: usize = if remaining_transit_legs > spatial_match.transit_legs { remaining_transit_legs - spatial_match.transit_legs } else { 0 };
        proof {
            assert((left + 1) * self.data.stops@.len() <= (remaining_transit_legs + 1) * self.data.stops@.len()) by (nonlinear_arith)
                requires
                    left <= remaining_transit_legs,
            ;
        }
        let mut best: Option<(i32, usize, Vec<CachedLeg>)> = None;
        let mut i: usize = 0;
        while i < destination_egress_edges.len()
            invariant
                i <= destination_egress_edges.len(),
                search_ready(*self),
                self.data.stops@.len() <= stops,
                destination_stop < stops,
                match_valid(spatial_match@, self.data.trips@, self.data.stops@.len() as int, source),
                spatial_match.boundary_arrival_secs <= INF_TIME,
                left == rides_left(remaining_transit_legs, spatial_match.transit_legs),
                (left + 1) * self.data.stops@.len() <= usize::MAX,
                left < usize::MAX,
                query_walks_valid(destination_egress_edges@, stops),
                forall|k: int| 0 <= k < destination_egress_edges@.len() ==> (#[trigger] destination_egress_edges@[k]).from_stop < self.data.stops@.len(),
                cache.correct(*self),
                (match best {
                    None => None,
                    Some(found) => Some(CompletionView { arrival_secs: found.0 as int, transit_legs: found.1, legs: found.2@ }),
                }) == best_completion(*self, destination_stop, spatial_match@, remaining_transit_legs, destination_egress_edges@, i as int),
                best is Some ==> legs_valid((best->0).2@, self.data.trips@, stops) && legs_lead((best->0).2@, source, destination_stop as int, self.data.stops@.len() as int)
                && legs_arrive((best->0).2@, (best->0).0 as int),
            decreases destination_egress_edges.len() - i,
        {
            let walk: &QueryVirtualWalk = &destination_egress_edges[i];
            assert(destination_egress_edges@[i as int].from_stop < self.data.stops@.len());
            let local: Option<LocalSubqueryResult> = self.lookup_or_compute_local_subquery(
                spatial_match.boundary_stop,
                walk.from_stop,
                spatial_match.boundary_arrival_secs,
                left,
                cache,
            );
            match local {
                None => {},
                Some(found) => {
                    let arrival: i32 = found.arrival_secs + walk.duration_secs;
                    let rides: usize = count_up(spatial_match.transit_legs, found.transit_legs);
                    let mut legs: Vec<CachedLeg> = combine_cached_leg_sequences(&spatial_match.trunk_legs, &found.legs);
                    let last: CachedLeg = CachedLeg::Walk {
                        from_stop: walk.from_stop,
                        to_stop: destination_stop,
                        departure_secs: found.arrival_secs,
                        arrival_secs: arrival,
                        duration_secs: walk.duration_secs,
                        distance_meters: walk.distance_meters,
                    };
                    legs.push(last);
                    proof {
                        completed_legs(
                            spatial_match.trunk_legs@,
                            found.legs@,
                            last,
                            self.data.trips@,
                            self.data.stops@.len() as int,
                            stops,
                            source,
                            spatial_match.boundary_stop as int,
                        );
                    }
                    let better: bool = match &best {
                        None => true,
                        Some(current) => arrival < current.0 || (arrival == current.0 && rides < current.1),
                    };
                    if better {
                        best = Some((arrival, rides, legs));
                    }
                },
            }
            i = i + 1;
        }
        best
    }
}

} // verus!
