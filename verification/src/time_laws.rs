//! What travellers can rely on: the journeys that a query offers, and those that are
//! remembered, are in time.

use crate::assembly::core_ready;
use crate::candidates::{candidates_view, journeys_of_rounds, offered, offers_are_found};
use crate::insertions::{
    anchors, anchors_from, anchors_of, base_point, insert_view, inserts_view, leg_is_static, remembers_from, spatial_points, static_legs,
    static_legs_join, trunk_from, SpatialInsertView,
};
use crate::journey::label_count;
use crate::keyed_store::StoreKey;
use crate::leg::{legs_arrive, legs_lead, ride_count, CachedLeg};
use crate::lines::built_lines_are_valid;
use crate::model::{StaticData, INF_TIME};
use crate::order::{stable_order_exists, stable_order_of};
use crate::profile_cache::{
    exact_come_from, exact_point, invalidated, match_keys, matches_view, profile_key, profiles, spatial_come_from, spatial_point, surface_entry, surface_profiles, was_held,
    CacheView, ProfileCache, ProfileInsertionPoint, SpatialProfileInsertionPoint,
};
use crate::profile_lookahead::{cache_fits, untouched_come_from, LookaheadGoal};
use crate::query::{
    data_ready, day_context, day_context_ready, place_count, plan_goal, plan_goal_fits, plan_valid, query_done, QueryOutcome, QueryPlan,
};
use crate::realtime::RealtimeView;
use crate::search::{line_valid, SearchContext, SearchView};
use crate::search_laws::{line_ready, none_early};
use crate::static_core::StaticCore;
use crate::timing::{
    departures_known, in_time, journeys_are_in_time, labels_in_time, memory_in_time, plan_frame, profile_in_time, queries_are_in_time, search_in_time,
    surface_in_time, SearchFrame,
};
use vstd::prelude::*;

verus! {

proof fn found_in_time(view: SearchView, ctx: SearchContext, now: int, destination: int, frame: SearchFrame, n: int, begun: int)
    requires
        labels_in_time(view, ctx, now, destination, frame),
        view.best.len() <= usize::MAX,
        n <= view.arrivals.len(),
        begun <= i32::MIN || (begun == frame.start && frame.origin != destination),
    ensures
        match journeys_of_rounds(view, ctx, frame.origin as int, destination, n) {
            Ok(found) => forall|i: int| 0 <= i < found.len() ==> in_time((#[trigger] found[i]).raw_legs, begun),
            Err(_) => true,
        },
        match journeys_of_rounds(view, ctx, frame.origin as int, destination, n) {
            Ok(found) => found.len() <= (if n > 0 { n } else { 0 }),
            Err(_) => true,
        },
    decreases n,
{
    if n > 0 {
        found_in_time(view, ctx, now, destination, frame, n - 1, begun);
        journeys_are_in_time(view, ctx, now, destination, frame, destination, n - 1, label_count(view), begun);
    }
}

proof fn prepared_in_time(goal: LookaheadGoal, data: StaticData, plan: QueryPlan, service_date: i32, max_rounds: int, memory: ProfileCache)
    requires
        plan_goal(goal, data, plan, service_date, max_rounds, memory),
        memory.wf(),
        memory_in_time(memory@),
    ensures
        surface_in_time(*goal.surface),
{
    let surface = *goal.surface;
    let listed = memory.spatial_listed();
    let cells = plan.destination_cells@;
    assert forall|s: int, i: int| 0 <= s < surface.enabled_source_stops@.len() && 0 <= i < surface.matches_by_source_stop@[s]@.len() implies profile_in_time(
        (#[trigger] surface.matches_by_source_stop@[s]@[i])@,
    ) by {
        let all = surface_profiles(memory@, listed, service_date, cells, s, listed.len() as int);
        assert(surface_entry(surface, s, all));
        assert forall|k: int| 0 <= k < listed.len() implies memory@.spatial.dom().contains(#[trigger] listed[k]) by {
            memory.summaries_are_bounds(listed[k]);
            assert(listed.contains(listed[k]));
        }
        listed_in_time(memory@, listed, service_date, cells, s, listed.len() as int);
        let row = matches_view(surface.matches_by_source_stop@[s]@);
        assert(row.len() == surface.matches_by_source_stop@[s]@.len());
        assert(row[i] == surface.matches_by_source_stop@[s]@[i]@);
        let keys = match_keys(all);
        stable_order_exists(keys);
        let order = stable_order_of(keys);
        assert(row[i] == all[order[i] as int]);
        assert(order[i] < keys.len());
    }
}

proof fn listed_in_time(view: CacheView, listed: Seq<StoreKey>, service_date: i32, cells: Seq<u64>, source: int, n: int)
    requires
        memory_in_time(view),
        0 <= n <= listed.len(),
        forall|k: int| 0 <= k < listed.len() ==> view.spatial.dom().contains(#[trigger] listed[k]),
    ensures
        forall|i: int| 0 <= i < surface_profiles(view, listed, service_date, cells, source, n).len() ==> profile_in_time(
            #[trigger] surface_profiles(view, listed, service_date, cells, source, n)[i],
        ),
    decreases n,
{
    if n > 0 {
        listed_in_time(view, listed, service_date, cells, source, n - 1);
        let before = surface_profiles(view, listed, service_date, cells, source, n - 1);
        let after = surface_profiles(view, listed, service_date, cells, source, n);
        let key = listed[n - 1];
        assert(view.spatial.dom().contains(key));
        assert forall|i: int| 0 <= i < after.len() implies profile_in_time(#[trigger] after[i]) by {
            if i < before.len() {
                assert(after[i] == before[i]);
            } else {
                assert(after[i] == profiles(view.spatial[key])[i - before.len()]);
                assert(profile_in_time(view.spatial[key][i - before.len()].profile));
            }
        }
    }
}

/// A search over a timetable that was built knows when trips depart, where on lines
/// without delays no trip runs early.
pub proof fn built_departures_are_known(core: StaticCore, ctx: SearchContext, data: StaticData, realtime: RealtimeView, services: Set<Seq<char>>)
    requires
        core_ready(core),
        data.lines == core.lines,
        data.trips == core.trips,
        data.stops == core.stops,
        day_context(ctx, data, realtime, services),
        forall|l: int| 0 <= l < data.lines@.len() && (#[trigger] ctx.line_max_positive_delay_secs@[l]) == 0 ==> none_early(ctx, data.lines@[l]),
    ensures
        departures_known(ctx),
{
    built_lines_are_valid(core.lines@, core.trips@, core.active_trip_indices@, core.stops@.len() as int);
    assert forall|l: int| 0 <= l < ctx.data.lines@.len() implies line_ready(#[trigger] ctx.data.lines@[l], ctx.data.trips@, ctx.data.stops@.len() as int) by {
        assert(line_valid(core.lines@[l], core.trips@, core.stops@.len() as int));
    }
}

/// What a query on a day is run with, and what it remembers, in order for its
/// journeys to be in time.
pub open spec fn day_in_time(
    ctx: SearchContext,
    data: StaticData,
    realtime: RealtimeView,
    services: Set<Seq<char>>,
    goal: LookaheadGoal,
    plan: QueryPlan,
    service_date: i32,
    departure: i32,
    memory: ProfileCache,
) -> bool {
    &&& data_ready(data)
    &&& day_context(ctx, data, realtime, services)
    &&& departures_known(ctx)
    &&& plan_valid(data, plan)
    &&& plan_goal(goal, data, plan, service_date, goal.max_rounds as int, memory)
    &&& goal.max_rounds < usize::MAX
    &&& (goal.max_rounds + 1) * place_count(data, plan) <= usize::MAX
    &&& departure <= INF_TIME
    &&& memory.wf()
    &&& cache_fits(memory@, data.trips@, data.stops@.len() as int)
    &&& memory_in_time(memory@)
}

/// The time before which no leg of a journey begins: that of the query. From a place
/// to itself nothing is promised of the first leg.
pub open spec fn earliest_begin(plan: QueryPlan, departure: i32) -> int {
    if plan.from_index == plan.to_index { i32::MIN as int } else { departure as int }
}

/// The journeys that a query offers are in time: each leg begins when the one before
/// it has ended, or later, and the first not before the time of the query. (The search
/// trusts that on a line without delays no trip runs early.)
#[verifier::spinoff_prover]
#[verifier::rlimit(40)]
pub proof fn offered_journeys_are_in_time(
    ctx: SearchContext,
    data: StaticData,
    realtime: RealtimeView,
    services: Set<Seq<char>>,
    goal: LookaheadGoal,
    plan: QueryPlan,
    service_date: i32,
    departure: i32,
    limit: usize,
    service_count: int,
    memory: ProfileCache,
    memory_after: CacheView,
    outcome: QueryOutcome,
    i: int,
)
    requires
        day_in_time(ctx, data, realtime, services, goal, plan, service_date, departure, memory),
        ctx.answers(goal, plan, departure, limit, service_count, memory@, memory_after, Ok(outcome)),
        0 <= i < outcome.candidates@.len(),
    ensures
        in_time(outcome.candidates@[i].raw_legs@, earliest_begin(plan, departure)),
{
    let frame = plan_frame(data, plan, departure, goal.max_rounds as int);
    let destination = plan.to_index as int;
    day_context_ready(ctx, data, realtime, services);
    assert((goal.max_rounds + 1) * data.stops@.len() <= (goal.max_rounds + 1) * place_count(data, plan)) by (nonlinear_arith)
        requires
            data.stops@.len() <= place_count(data, plan),
    ;
    plan_goal_fits(ctx, goal, data, plan, service_date, goal.max_rounds as int, memory);
    prepared_in_time(goal, data, plan, service_date, goal.max_rounds as int, memory);
    assert forall|key: StoreKey| memory@.summaries.dom().contains(key) implies memory@.exact.dom().contains(key) by {
        memory.summaries_are_bounds(key);
    }
    queries_are_in_time(ctx, memory@, goal, plan, departure);
    let view = query_done(ctx, memory@, goal, plan, departure).reach.view;
    reveal(search_in_time);
    let now = choose|r: int| labels_in_time(view, ctx, r, destination, frame);
    reveal(SearchContext::concludes);
    let begun = earliest_begin(plan, departure);
    found_in_time(view, ctx, now, destination, frame, goal.max_rounds + 1, begun);
    match journeys_of_rounds(view, ctx, plan.from_index as int, destination, goal.max_rounds + 1) {
        Err(_) => {},
        Ok(found) => {
            assert(candidates_view(outcome.candidates@)[i] == outcome.candidates@[i]@);
            offers_are_found(found, limit, i);
            let k = found.index_of(offered(found, limit)[i]);
            assert(in_time(found[k].raw_legs, begun));
        },
    }
}

proof fn rest_in_time(legs: Seq<CachedLeg>, ready: int, i: int)
    requires
        in_time(legs, ready),
        0 <= i < legs.len(),
    ensures
        in_time(legs.skip(i), legs[i].departure() as int),
{
    let rest = legs.skip(i);
    assert forall|k: int| 0 < k < rest.len() implies rest[k - 1].arrival() <= (#[trigger] rest[k]).departure() by {
        assert(rest[k] == legs[i + k] && rest[k - 1] == legs[i + k - 1]);
    }
}

proof fn static_legs_in_time(legs: Seq<CachedLeg>, from: int, to: int, stops: int, n: int)
    requires
        legs_lead(legs, from, to, stops),
        in_time(legs, i32::MIN as int),
        0 <= n <= legs.len(),
    ensures
        in_time(static_legs(legs, stops, n), i32::MIN as int),
    decreases n,
{
    if n > 0 {
        static_legs_in_time(legs, from, to, stops, n - 1);
        let before = static_legs(legs, stops, n - 1);
        let after = static_legs(legs, stops, n);
        let leg = legs[n - 1];
        if leg_is_static(leg, stops) {
            static_legs_join(legs, from, to, stops, n - 1);
            assert(n > 1 ==> leg.source() < stops && legs[n - 2].target() == leg.source());
            if before.len() > 0 {
                if n > 2 {
                    assert(legs[n - 2].source() < stops);
                } else {
                    assert(static_legs(legs, stops, 0).len() == 0);
                }
                assert(leg_is_static(legs[n - 2], stops));
                assert(before.last() == legs[n - 2]);
            }
            assert forall|i: int| 0 < i < after.len() implies after[i - 1].arrival() <= (#[trigger] after[i]).departure() by {
                if i < before.len() {
                    assert(after[i] == before[i] && after[i - 1] == before[i - 1]);
                } else {
                    assert(after[i] == legs[n - 1] && after[i - 1] == legs[n - 2]);
                }
            }
        }
    }
}

proof fn trunk_in_time(ctx: SearchContext, legs: Seq<CachedLeg>, cell: u64, i: int)
    requires
        in_time(legs, i32::MIN as int),
        0 <= i < legs.len(),
    ensures
        match trunk_from(ctx, legs, cell, i) {
            Some(trunk) => in_time(trunk.legs, legs[i].departure() as int) && trunk.legs.len() > 0,
            None => true,
        },
    decreases legs.len() - i,
{
    if i + 1 < legs.len() {
        trunk_in_time(ctx, legs, cell, i + 1);
        match trunk_from(ctx, legs, cell, i + 1) {
            Some(trunk) => {
                assert(legs[i].arrival() <= legs[i + 1].departure());
                let longer = seq![legs[i]] + trunk.legs;
                assert forall|k: int| 0 < k < longer.len() implies longer[k - 1].arrival() <= (#[trigger] longer[k]).departure() by {
                    assert(longer[k] == trunk.legs[k - 1]);
                    if k > 1 {
                        assert(longer[k - 1] == trunk.legs[k - 2]);
                    }
                }
            },
            None => {},
        }
    } else {
        assert(trunk_from(ctx, legs, cell, i + 1) is None);
    }
}

/// Whether a point to be remembered is in time.
pub open spec fn insert_in_time(point: SpatialInsertView) -> bool {
    in_time(point.trunk_legs, point.latest_ready_secs as int)
}

/// Whether points to be remembered are in time.
pub open spec fn inserts_in_time(points: Seq<SpatialInsertView>) -> bool {
    forall|i: int| 0 <= i < points.len() ==> insert_in_time(#[trigger] points[i])
}

proof fn joined_inserts_in_time(a: Seq<SpatialInsertView>, b: Seq<SpatialInsertView>)
    requires
        inserts_in_time(a),
        inserts_in_time(b),
    ensures
        inserts_in_time(a + b),
{
    assert forall|i: int| 0 <= i < (a + b).len() implies insert_in_time(#[trigger] (a + b)[i]) by {
        if i < a.len() {
            assert(insert_in_time(a[i]));
        } else {
            assert(insert_in_time(b[i - a.len()]));
        }
    }
}

proof fn ride_anchors_in_time(ctx: SearchContext, cell: u64, point: SpatialInsertView, k: int, rides_before: int, pos: int)
    requires
        insert_in_time(point),
        0 <= k < point.trunk_legs.len(),
    ensures
        inserts_in_time(anchors_from(ctx, cell, point, k, rides_before, pos)),
    decreases (match point.trunk_legs[k] { CachedLeg::Transit { alight_pos, .. } => alight_pos as int, _ => 0int }) - pos,
{
    let legs = point.trunk_legs;
    match legs[k] {
        CachedLeg::Walk { .. } => {},
        CachedLeg::Transit { trip_index, alight_pos, .. } => if pos < alight_pos {
            ride_anchors_in_time(ctx, cell, point, k, rides_before, pos + 1);
            let rest = anchors_from(ctx, cell, point, k, rides_before, pos + 1);
            let here = anchors_from(ctx, cell, point, k, rides_before, pos);
            if here != rest {
                let first = here[0];
                let onward = first.trunk_legs;
                assert(onward.skip(1) =~= legs.skip(k + 1));
                assert(onward[0].departure() == first.latest_ready_secs && onward[0].arrival() == legs[k].arrival());
                assert forall|i: int| 0 < i < onward.len() implies onward[i - 1].arrival() <= (#[trigger] onward[i]).departure() by {
                    assert(onward[i] == legs[k + i]);
                    if i > 1 {
                        assert(onward[i - 1] == legs[k + i - 1]);
                    }
                }
                assert(insert_in_time(first));
                joined_inserts_in_time(seq![first], rest);
                assert(here == seq![first] + rest);
            }
        },
    }
}

proof fn anchors_in_time(ctx: SearchContext, cell: u64, point: SpatialInsertView, n: int)
    requires
        insert_in_time(point),
        n <= point.trunk_legs.len(),
    ensures
        inserts_in_time(anchors_of(ctx, cell, point, n)),
    decreases n,
{
    if n > 0 {
        anchors_in_time(ctx, cell, point, n - 1);
        match point.trunk_legs[n - 1] {
            CachedLeg::Walk { .. } => {},
            CachedLeg::Transit { board_pos, .. } => {
                let rides = ride_count(point.trunk_legs.take(n - 1)) as int;
                ride_anchors_in_time(ctx, cell, point, n - 1, rides, board_pos + 1);
                joined_inserts_in_time(anchors_of(ctx, cell, point, n - 1), anchors_from(ctx, cell, point, n - 1, rides, board_pos + 1));
            },
        }
    }
}

proof fn points_in_time(ctx: SearchContext, legs: Seq<CachedLeg>, cell: u64, n: int)
    requires
        in_time(legs, i32::MIN as int),
        n <= legs.len(),
    ensures
        inserts_in_time(spatial_points(ctx, legs, cell, n)),
    decreases n,
{
    if n > 0 {
        points_in_time(ctx, legs, cell, n - 1);
        let before = spatial_points(ctx, legs, cell, n - 1);
        trunk_in_time(ctx, legs, cell, n - 1);
        match base_point(ctx, legs, cell, n - 1) {
            None => {},
            Some(point) => {
                assert(insert_in_time(point));
                anchors_in_time(ctx, cell, point, point.trunk_legs.len() as int);
                joined_inserts_in_time(before, seq![point]);
                assert(before.push(point) =~= before + seq![point]);
                joined_inserts_in_time(before.push(point), anchors(ctx, cell, point));
            },
        }
    }
}

/// Whether what a query leaves to be remembered is in time.
pub open spec fn insertions_in_time(exacts: Seq<ProfileInsertionPoint>, spatials: Seq<SpatialProfileInsertionPoint>) -> bool {
    &&& forall|i: int| 0 <= i < exacts.len() ==> in_time((#[trigger] exacts[i]).suffix_legs@, exacts[i].latest_ready_secs as int) && legs_arrive(
        exacts[i].suffix_legs@,
        exacts[i].arrival_secs as int,
    )
    &&& forall|i: int| 0 <= i < spatials.len() ==> in_time((#[trigger] spatials[i]).trunk_legs@, spatials[i].latest_ready_secs as int) && legs_arrive(
        spatials[i].trunk_legs@,
        spatials[i].boundary_arrival_secs as int,
    )
}

/// What a query leaves to be remembered is in time for whoever is ready when it says.
pub proof fn insertions_are_in_time(
    ctx: SearchContext,
    data: StaticData,
    realtime: RealtimeView,
    services: Set<Seq<char>>,
    goal: LookaheadGoal,
    plan: QueryPlan,
    service_date: i32,
    departure: i32,
    limit: usize,
    service_count: int,
    memory: ProfileCache,
    memory_after: CacheView,
    outcome: QueryOutcome,
)
    requires
        day_in_time(ctx, data, realtime, services, goal, plan, service_date, departure, memory),
        ctx.answers(goal, plan, departure, limit, service_count, memory@, memory_after, Ok(outcome)),
    ensures
        insertions_in_time(outcome.profile_insertions@, outcome.spatial_insertions@),
{
    reveal(SearchContext::concludes);
    assert(ctx.insertions_fit(plan, outcome));
    let journeys = candidates_view(outcome.candidates@);
    assert(outcome.candidates@.len() > 0);
    offered_journeys_are_in_time(ctx, data, realtime, services, goal, plan, service_date, departure, limit, service_count, memory, memory_after, outcome, 0);
    let first = outcome.candidates@[0].raw_legs@;
    assert(journeys[0].raw_legs == first);
    let stops = data.stops@.len() as int;
    static_legs_in_time(first, plan.from_index as int, plan.to_index as int, stops, first.len() as int);
    let legs = static_legs(first, stops, first.len() as int);
    assert(ctx.remembers(plan, first, outcome));
    assert forall|i: int| 0 <= i < outcome.profile_insertions@.len() implies in_time(
        (#[trigger] outcome.profile_insertions@[i]).suffix_legs@,
        outcome.profile_insertions@[i].latest_ready_secs as int,
    ) by {
        assert(remembers_from(outcome.profile_insertions@[i], legs, i));
        rest_in_time(legs, i32::MIN as int, i);
    }
    match plan.destination_cell_for_insert {
        None => {
            assert(inserts_view(outcome.spatial_insertions@).len() == 0);
        },
        Some(cell) => {
            points_in_time(ctx, legs, cell, legs.len() as int);
            assert forall|i: int| 0 <= i < outcome.spatial_insertions@.len() implies in_time(
                (#[trigger] outcome.spatial_insertions@[i]).trunk_legs@,
                outcome.spatial_insertions@[i].latest_ready_secs as int,
            ) by {
                assert(inserts_view(outcome.spatial_insertions@)[i] == insert_view(outcome.spatial_insertions@[i]));
                assert(insert_in_time(inserts_view(outcome.spatial_insertions@)[i]));
            }
        },
    }
}

/// A memory in time stays so when it remembers what is in time.
pub proof fn remembering_keeps_the_memory_in_time(
    before: CacheView,
    after: CacheView,
    plan: QueryPlan,
    service_date: i32,
    exacts: Seq<ProfileInsertionPoint>,
    spatials: Seq<SpatialProfileInsertionPoint>,
)
    requires
        memory_in_time(before),
        insertions_in_time(exacts, spatials),
        match plan.exact_destination_stop {
            Some(destination) => exact_come_from(before.exact, after.exact, service_date, destination, exacts, exacts.len() as int),
            None => after.exact == before.exact,
        },
        match plan.destination_cell_for_insert {
            Some(cell) => spatial_come_from(before.spatial, after.spatial, service_date, cell, spatials, spatials.len() as int),
            None => after.spatial == before.spatial,
        },
    ensures
        memory_in_time(after),
{
    assert forall|key: StoreKey, i: int| after.exact.dom().contains(key) && 0 <= i < after.exact[key].len() implies profile_in_time((#[trigger] after.exact[key][i]).profile) by {
        let point = after.exact[key][i];
        if plan.exact_destination_stop is Some && !was_held(before.exact, key, point) {
            let destination = plan.exact_destination_stop->0;
            let j = choose|j: int|
                0 <= j < exacts.len() && key == profile_key(service_date, destination as int, (#[trigger] exacts[j]).source_stop as int) && point == exact_point(destination, exacts[j]);
            assert(in_time(exacts[j].suffix_legs@, exacts[j].latest_ready_secs as int));
        } else if plan.exact_destination_stop is Some {
            let j = before.exact[key].index_of(point);
            assert(before.exact[key][j] == point);
        }
    }
    assert forall|key: StoreKey, i: int| after.spatial.dom().contains(key) && 0 <= i < after.spatial[key].len() implies profile_in_time((#[trigger] after.spatial[key][i]).profile) by {
        let point = after.spatial[key][i];
        if plan.destination_cell_for_insert is Some && !was_held(before.spatial, key, point) {
            let cell = plan.destination_cell_for_insert->0;
            let j = choose|j: int|
                0 <= j < spatials.len() && key == profile_key(service_date, cell as int, (#[trigger] spatials[j]).source_stop as int) && point == spatial_point(spatials[j]);
            assert(in_time(spatials[j].trunk_legs@, spatials[j].latest_ready_secs as int));
        } else if plan.destination_cell_for_insert is Some {
            let j = before.spatial[key].index_of(point);
            assert(before.spatial[key][j] == point);
        }
    }
}

/// What is left of a memory in time when the journeys on changed trips are forgotten
/// is in time too.
pub proof fn forgetting_keeps_the_memory_in_time(before: CacheView, after: CacheView, changed: Seq<usize>)
    requires
        memory_in_time(before),
        after.exact == invalidated(before.exact, changed),
        after.spatial == invalidated(before.spatial, changed),
    ensures
        memory_in_time(after),
{
    assert forall|key: StoreKey, i: int| after.exact.dom().contains(key) && 0 <= i < after.exact[key].len() implies profile_in_time((#[trigger] after.exact[key][i]).profile) by {
        let points = before.exact[key];
        untouched_come_from(points, changed, points.len() as int, i);
        let j = points.index_of(after.exact[key][i]);
        assert(before.exact[key][j] == after.exact[key][i]);
    }
    assert forall|key: StoreKey, i: int| after.spatial.dom().contains(key) && 0 <= i < after.spatial[key].len() implies profile_in_time((#[trigger] after.spatial[key][i]).profile) by {
        let points = before.spatial[key];
        untouched_come_from(points, changed, points.len() as int, i);
        let j = points.index_of(after.spatial[key][i]);
        assert(before.spatial[key][j] == after.spatial[key][i]);
    }
}

} // verus!
