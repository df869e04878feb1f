//! What is said along a way, and how its ends are found.

use crate::control::{attaches, TokenError};
use crate::directions::{
    directions_before, line_directions, DirectionView, LineMeasures, Maneuver, Turn, TurnDirectionNarrative,
};
use crate::number::Real;
use crate::order::{arranged, position_before, stable_order_covers, stable_order_exists, stable_order_of};
use crate::query_input::{distance_keys, is_beyond, nearest, within_distance, ProjectedStopCandidate};
use crate::stop_laws::{agree_but_case, texts_agree};
use crate::street_diff::{poll_plan_of, PollPlan};
use crate::text::trim_text;
use crate::walk_geometry::{fitted_ways, segment_count, WalkView};
use vstd::prelude::*;
use vstd::string::*;

verus! {

/// Whether a line comes from one road to another that has a name: the two are different
/// ways, and what they are called is not the same.
pub open spec fn enters_named_road(walk: WalkView, names: Map<i64, String>, p: int) -> bool {
    &&& 0 < p < walk.ways.len()
    &&& walk.ways[p - 1] is Some
    &&& walk.ways[p] is Some
    &&& walk.ways[p - 1] != walk.ways[p]
    &&& names.dom().contains(walk.ways[p]->0)
    &&& trim_text(names[walk.ways[p]->0]@).len() > 0
    &&& names.dom().contains(walk.ways[p - 1]->0) ==> !agree_but_case(trim_text(names[walk.ways[p - 1]->0]@), trim_text(names[walk.ways[p]->0]@))
}

/// Whether a direction tells of a turn in a point: what is to be done, into which street,
/// and where.
pub open spec fn tells_turn(direction: DirectionView, walk: WalkView, measures: LineMeasures, p: int, street: Seq<char>) -> bool {
    &&& measures.turns@[p] == Turn::Left ==> direction.maneuver == Maneuver::TurnLeft && direction.instruction == "Svolta a sinistra"@ + " su "@ + street
    &&& measures.turns@[p] == Turn::Right ==> direction.maneuver == Maneuver::TurnRight && direction.instruction == "Svolta a destra"@ + " su "@ + street
    &&& measures.turns@[p] == Turn::Straight ==> direction.maneuver == Maneuver::Continue && direction.instruction == "Continua dritto"@ + " su "@ + street
    &&& direction.street_name == Some(street)
    &&& direction.distance_meters == measures.distances@[p]
    &&& direction.lat == walk.points[p].lat
    &&& direction.lon == walk.points[p].lon
}

proof fn turns_are_given(walk: WalkView, ways: Seq<Option<i64>>, names: Map<i64, String>, measures: LineMeasures, narrative: TurnDirectionNarrative, n: int, p: int)
    requires
        ways == fitted_ways(walk.ways, segment_count(walk.points.len() as int)),
        0 < p < n < walk.points.len(),
        enters_named_road(walk, names, p),
    ensures
        exists|d: int|
            0 < d < directions_before(walk, ways, names, measures, narrative, n).directions.len() && tells_turn(
                #[trigger] directions_before(walk, ways, names, measures, narrative, n).directions[d],
                walk,
                measures,
                p,
                trim_text(names[walk.ways[p]->0]@),
            ),
        directions_before(walk, ways, names, measures, narrative, n).directions.len() >= 1,
    decreases n,
{
    let before = directions_before(walk, ways, names, measures, narrative, n - 1);
    let after = directions_before(walk, ways, names, measures, narrative, n);
    let street = trim_text(names[walk.ways[p]->0]@);
    directions_are_some(walk, ways, names, measures, narrative, n - 1);
    if p < n - 1 {
        turns_are_given(walk, ways, names, measures, narrative, n - 1, p);
        let d = choose|d: int| 0 < d < before.directions.len() && tells_turn(#[trigger] before.directions[d], walk, measures, p, street);
        assert(after.directions[d] == before.directions[d]);
    } else {
        assert(ways[p] == walk.ways[p] && ways[p - 1] == walk.ways[p - 1]);
        if names.dom().contains(walk.ways[p - 1]->0) {
            let a = trim_text(names[walk.ways[p - 1]->0]@);
            texts_agree(a, street);
        }
        let d = before.directions.len() as int;
        assert(tells_turn(after.directions[d], walk, measures, p, street));
    }
}

proof fn directions_are_some(walk: WalkView, ways: Seq<Option<i64>>, names: Map<i64, String>, measures: LineMeasures, narrative: TurnDirectionNarrative, n: int)
    ensures
        directions_before(walk, ways, names, measures, narrative, n).directions.len() >= 1,
    decreases n,
{
    if n > 1 {
        directions_are_some(walk, ways, names, measures, narrative, n - 1);
    }
}

/// Wherever a line enters another road with a name of its own, the traveller is told which
/// way to turn, into which street, and where: left where the line turns left, right where
/// it turns right.
pub proof fn turns_are_told(walk: WalkView, names: Map<i64, String>, measures: LineMeasures, destination: Seq<char>, narrative: TurnDirectionNarrative, p: int)
    requires
        enters_named_road(walk, names, p),
        p + 1 < walk.points.len(),
    ensures
        exists|d: int| 0 < d < line_directions(walk, names, measures, destination, narrative).len() - 1 && tells_turn(
            #[trigger] line_directions(walk, names, measures, destination, narrative)[d],
            walk,
            measures,
            p,
            trim_text(names[walk.ways[p]->0]@),
        ),
{
    let ways = fitted_ways(walk.ways, segment_count(walk.points.len() as int));
    let n = walk.points.len() - 1;
    turns_are_given(walk, ways, names, measures, narrative, n, p);
    let given = directions_before(walk, ways, names, measures, narrative, n).directions;
    let street = trim_text(names[walk.ways[p]->0]@);
    let d = choose|d: int| 0 < d < given.len() && tells_turn(#[trigger] given[d], walk, measures, p, street);
    assert(line_directions(walk, names, measures, destination, narrative)[d] == given[d]);
}

proof fn within_are_near(candidates: Seq<ProjectedStopCandidate>, limit: Real, n: int)
    requires
        0 <= n <= candidates.len(),
    ensures
        within_distance(candidates, limit, n).len() <= n,
        forall|i: int| 0 <= i < within_distance(candidates, limit, n).len() ==> candidates.contains(#[trigger] within_distance(candidates, limit, n)[i])
            && !is_beyond(within_distance(candidates, limit, n)[i].distance_meters, limit),
        forall|k: int| 0 <= k < n && !is_beyond((#[trigger] candidates[k]).distance_meters, limit) ==> within_distance(candidates, limit, n).contains(candidates[k]),
    decreases n,
{
    if n > 0 {
        within_are_near(candidates, limit, n - 1);
        let before = within_distance(candidates, limit, n - 1);
        let after = within_distance(candidates, limit, n);
        assert forall|i: int| 0 <= i < after.len() implies candidates.contains(#[trigger] after[i]) && !is_beyond(after[i].distance_meters, limit) by {
            if i < before.len() {
                assert(after[i] == before[i]);
            } else {
                assert(candidates[n - 1] == after[i]);
            }
        }
        assert forall|k: int| 0 <= k < n && !is_beyond((#[trigger] candidates[k]).distance_meters, limit) implies after.contains(candidates[k]) by {
            if k < n - 1 {
                let at = before.index_of(candidates[k]);
                assert(after[at] == candidates[k]);
            } else {
                assert(after.last() == candidates[k]);
            }
        }
    }
}

/// Of the stops near a place the nearest are taken, the nearest first, up to the limit and
/// none beyond the radius; one within the radius is left out only where all that are taken
/// are as near.
pub proof fn nearest_stops_are_taken(candidates: Seq<ProjectedStopCandidate>, max_radius: Real, limit: int, i: int, j: int, k: int)
    requires
        0 <= limit,
        candidates.len() <= usize::MAX,
    ensures
        ({
            let taken = nearest(candidates, max_radius, limit);
            &&& taken.len() <= limit
            &&& 0 <= i < taken.len() ==> candidates.contains(taken[i]) && !is_beyond(taken[i].distance_meters, max_radius)
            &&& 0 <= i < j < taken.len() ==> taken[i].distance_meters.total_rank() <= taken[j].distance_meters.total_rank()
            &&& 0 <= k < candidates.len() && !is_beyond(candidates[k].distance_meters, max_radius) && !taken.contains(candidates[k]) ==> taken.len() == limit && (0 <= i < taken.len()
                ==> taken[i].distance_meters.total_rank() <= candidates[k].distance_meters.total_rank())
        }),
{
    let near = within_distance(candidates, max_radius, candidates.len() as int);
    within_are_near(candidates, max_radius, candidates.len() as int);
    let keys = distance_keys(near);
    stable_order_exists(keys);
    let order = stable_order_of(keys);
    stable_order_covers(keys, order);
    let sorted = arranged(near, order);
    let taken = nearest(candidates, max_radius, limit);
    assert forall|a: int| 0 <= a < sorted.len() implies order[a] < near.len() && #[trigger] sorted[a] == near[order[a] as int] by {
        assert(order[a] < keys.len());
    }
    assert forall|a: int, b: int| 0 <= a < b < sorted.len() implies (#[trigger] sorted[a]).distance_meters.total_rank() <= (#[trigger] sorted[b]).distance_meters.total_rank() by {
        assert(order[a] < keys.len() && order[b] < keys.len());
        assert(position_before(keys, order[a] as int, order[b] as int));
    }
    if 0 <= i < taken.len() {
        assert(taken[i] == sorted[i]);
    }
    if 0 <= i < j < taken.len() {
        assert(taken[j] == sorted[j]);
    }
    if 0 <= k < candidates.len() && !is_beyond(candidates[k].distance_meters, max_radius) && !taken.contains(candidates[k]) {
        assert(near.contains(candidates[k]));
        let at = near.index_of(candidates[k]);
        assert(order.contains(at as usize));
        let place = order.index_of(at as usize);
        assert(sorted[place] == candidates[k]);
        if place < taken.len() {
            assert(taken[place] == sorted[place]);
        }
        if 0 <= i < taken.len() {
            assert(sorted[i].distance_meters.total_rank() <= sorted[place].distance_meters.total_rank());
        }
    }
}

/// A token goes with a request where a descriptor is given and the request is to the same
/// origin as the descriptor, and with no other.
pub proof fn tokens_stay_with_their_origin(descriptor: Seq<char>, own: Seq<char>, other: Seq<char>)
    ensures
        attaches(None, None, Some(other)) == Ok::<bool, TokenError>(false),
        attaches(Some(descriptor), Some(own), Some(own)) == Ok::<bool, TokenError>(true),
        own != other ==> attaches(Some(descriptor), Some(own), Some(other)) == Ok::<bool, TokenError>(false),
        attaches(Some(descriptor), None, Some(other)) is Err,
        attaches(Some(descriptor), Some(own), None) is Err,
{
}

/// Whether a plan applies a list of changes.
pub open spec fn plan_applies(plan: PollPlan, sequence: u64) -> bool {
    match plan {
        PollPlan::UpToDate { .. } => false,
        PollPlan::Apply { first, last } => first <= sequence <= last,
    }
}

/// Of the changes of a map those are applied that are newer than what was applied last, or
/// else than the map, up to the newest; none where it is not known how new the map is.
pub proof fn missing_changes_are_applied(applied: Option<u64>, taken_with: Option<u64>, remote: u64, sequence: u64)
    ensures
        applied is Some ==> (plan_applies(poll_plan_of(applied, taken_with, remote), sequence) <==> applied->0 < sequence <= remote),
        applied is None && taken_with is Some ==> (plan_applies(poll_plan_of(applied, taken_with, remote), sequence) <==> taken_with->0 < sequence <= remote),
        applied is None && taken_with is None ==> !plan_applies(poll_plan_of(applied, taken_with, remote), sequence),
{
}

} // verus!
