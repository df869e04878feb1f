//! Routes on streets between two places.

use crate::number::Real;
use crate::street_overlay::{nearest_of, pick_snap, SnapError, SnapResult};
use crate::street_search::{
    explored_count, leads, none_shorter, shortest_street_way, streets_consistent, way_cost, StreetNetwork, StreetOverlayEdges, StreetView, StreetWay,
};
use crate::street_tags::StreetMode;
use crate::text::joined;
use vstd::prelude::*;

verus! {

/// Why there is no route.
#[derive(Clone, Copy, Debug, PartialEq, Eq, Structural)]
pub enum RouteError {
    /// One of the places is not on the network.
    Snap(SnapError),
    /// No way leads from one place to the other.
    NoRoute,
}

/// A route: where it enters and leaves the network, and the way between.
#[derive(Clone, Debug)]
pub struct FoundRoute {
    pub source: SnapResult,
    pub target: SnapResult,
    pub way: StreetWay,
}

/// Where a place is on the network, of candidates.
pub open spec fn snapped(candidates: Seq<SnapResult>, max_distance: Real) -> Result<SnapResult, SnapError> {
    match nearest_of(candidates, candidates.len() as int) {
        None => Err(SnapError::EmptyGraph),
        Some(best) => if !best.distance_meters.is_nan_spec() && !max_distance.is_nan_spec() && max_distance.rank() < best.distance_meters.rank() {
            Err(SnapError::TooFar)
        } else {
            Ok(best)
        },
    }
}

/// Whether candidates are nodes of the network with its overlay.
pub open spec fn on_network(candidates: Seq<SnapResult>, network: StreetNetwork, overlay: StreetOverlayEdges) -> bool {
    forall|i: int| 0 <= i < candidates.len() ==> (#[trigger] candidates[i]).node_index < network.node_count + overlay.added_node_count
}

proof fn nearest_is_one(candidates: Seq<SnapResult>, n: int)
    requires
        0 <= n <= candidates.len(),
    ensures
        nearest_of(candidates, n) is Some ==> exists|i: int| 0 <= i < candidates.len() && nearest_of(candidates, n) == Some(#[trigger] candidates[i]),
    decreases n,
{
    if n > 0 {
        nearest_is_one(candidates, n - 1);
        assert(nearest_of(candidates, n) == nearest_of(candidates, n - 1) || nearest_of(candidates, n) == Some(candidates[n - 1]));
    }
}

/// Finds a route between two places, given the nodes near each. It goes by a
/// shortest way between the nearest of them. There is none only where a place is
/// not on the network, or every way takes longer than can be counted.
pub fn find_street_route(
    network: &StreetNetwork,
    overlay: &StreetOverlayEdges,
    max_snap_distance: Real,
    from: &Vec<SnapResult>,
    to: &Vec<SnapResult>,
) -> (result: Result<FoundRoute, RouteError>)
    requires
        streets_consistent((StreetView { network: *network, overlay: *overlay })),
        on_network(from@, *network, *overlay),
        on_network(to@, *network, *overlay),
    ensures
        match (snapped(from@, max_snap_distance), snapped(to@, max_snap_distance)) {
            (Err(error), _) => result == Err::<FoundRoute, RouteError>(RouteError::Snap(error)),
            (Ok(_), Err(error)) => result == Err::<FoundRoute, RouteError>(RouteError::Snap(error)),
            (Ok(source), Ok(target)) => {
                let streets = StreetView { network: *network, overlay: *overlay };
                match result {
                    Ok(route) => {
                        &&& route.source == source
                        &&& route.target == target
                        &&& leads(streets, source.node_index, target.node_index, route.way.hops@)
                        &&& way_cost(route.way.hops@) == route.way.cost_secs
                        &&& none_shorter(streets, source.node_index, target.node_index, route.way.cost_secs as int)
                        &&& route.way.meeting_hop <= route.way.hops@.len()
                        &&& source.node_index == target.node_index ==> route.way.hops@.len() == 0 && route.way.explored_forward_nodes == 1
                            && route.way.explored_backward_nodes == 1
                        &&& source.node_index != target.node_index ==> {
                            &&& explored_count(streets, false, source.node_index, route.way.cost_secs as int, route.way.explored_forward_nodes)
                            &&& explored_count(streets, true, target.node_index, route.way.cost_secs as int, route.way.explored_backward_nodes)
                        }
                    },
                    Err(error) => error == RouteError::NoRoute && source.node_index != target.node_index && none_shorter(
                        streets,
                        source.node_index,
                        target.node_index,
                        u32::MAX as int,
                    ),
                }
            },
        },
{
    proof {
        nearest_is_one(from@, from@.len() as int);
        nearest_is_one(to@, to@.len() as int);
    }
    let source: SnapResult = match pick_snap(from, max_snap_distance) {
        Ok(source) => source,
        Err(error) => {
            return Err(RouteError::Snap(error));
        },
    };
    let target: SnapResult = match pick_snap(to, max_snap_distance) {
        Ok(target) => target,
        Err(error) => {
            return Err(RouteError::Snap(error));
        },
    };
    match shortest_street_way(network, overlay, source.node_index, target.node_index) {
        Some(way) => Ok(FoundRoute { source: source, target: target, way: way }),
        None => Err(RouteError::NoRoute),
    }
}

/// The name of a mode.
pub open spec fn mode_name(mode: StreetMode) -> Seq<char> {
    match mode {
        StreetMode::Walk => "walk"@,
        StreetMode::Drive => "drive"@,
    }
}

/// What is told of why there is no route.
pub open spec fn route_error_text(error: RouteError, mode: StreetMode) -> Seq<char> {
    match error {
        RouteError::Snap(SnapError::EmptyGraph) => mode_name(mode) + " street graph is empty"@,
        RouteError::Snap(SnapError::TooFar) => "no "@ + mode_name(mode) + " street node found within "@ + (match mode {
            StreetMode::Walk => "500"@,
            StreetMode::Drive => "2000"@,
        }) + " meters of the requested coordinate"@,
        RouteError::NoRoute => "no "@ + mode_name(mode) + " route found between the requested coordinates"@,
    }
}

impl RouteError {
    /// Tells why there is no route.
    pub fn message(self, mode: StreetMode) -> (text: String)
        ensures
            text@ == route_error_text(self, mode),
    {
        match self {
            RouteError::Snap(SnapError::EmptyGraph) => joined(mode.as_str(), " street graph is empty"),
            RouteError::Snap(SnapError::TooFar) => {
                let mut text: String = joined("no ", mode.as_str());
                text.append(" street node found within ");
                text.append(
                    match mode {
                        StreetMode::Walk => "500",
                        StreetMode::Drive => "2000",
                    },
                );
                text.append(" meters of the requested coordinate");
                text
            },
            RouteError::NoRoute => {
                let mut text: String = joined("no ", mode.as_str());
                text.append(" route found between the requested coordinates");
                text
            },
        }
    }
}

} // verus!
