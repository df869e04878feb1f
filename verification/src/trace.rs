//! What is told of how a query went.

use crate::query_rounds::QueryPerformanceCounters;
use vstd::prelude::*;

verus! {

/// How long the parts of a round took, in microseconds.
#[derive(Clone, Copy, Debug, PartialEq, Eq, Structural)]
pub struct RaptorRoundTimingBreakdownUs {
    pub round_total_us: u128,
    pub round_other_us: u128,
    pub best_before_clone_us: u128,
    pub queue_build_us: u128,
    pub line_scan_us: u128,
    pub line_scan_other_us: u128,
    pub line_scan_onboard_us: u128,
    pub line_scan_trip_search_us: u128,
    pub line_scan_trip_search_binary_partition_us: u128,
    pub line_scan_trip_search_binary_scan_us: u128,
    pub line_scan_trip_search_linear_scan_us: u128,
    pub line_scan_candidate_compare_us: u128,
    pub destination_egress_pre_transfer_us: u128,
    pub profile_lookup_pre_transfer_us: u128,
    pub transfer_relax_us: u128,
    pub destination_egress_post_transfer_us: u128,
    pub profile_lookup_post_transfer_us: u128,
}

/// Whether times can be added up.
pub open spec fn times_add_up(a: RaptorRoundTimingBreakdownUs, b: RaptorRoundTimingBreakdownUs) -> bool {
    &&& a.round_total_us + b.round_total_us <= u128::MAX
    &&& a.round_other_us + b.round_other_us <= u128::MAX
    &&& a.best_before_clone_us + b.best_before_clone_us <= u128::MAX
    &&& a.queue_build_us + b.queue_build_us <= u128::MAX
    &&& a.line_scan_us + b.line_scan_us <= u128::MAX
    &&& a.line_scan_other_us + b.line_scan_other_us <= u128::MAX
    &&& a.line_scan_onboard_us + b.line_scan_onboard_us <= u128::MAX
    &&& a.line_scan_trip_search_us + b.line_scan_trip_search_us <= u128::MAX
    &&& a.line_scan_trip_search_binary_partition_us + b.line_scan_trip_search_binary_partition_us <= u128::MAX
    &&& a.line_scan_trip_search_binary_scan_us + b.line_scan_trip_search_binary_scan_us <= u128::MAX
    &&& a.line_scan_trip_search_linear_scan_us + b.line_scan_trip_search_linear_scan_us <= u128::MAX
    &&& a.line_scan_candidate_compare_us + b.line_scan_candidate_compare_us <= u128::MAX
    &&& a.destination_egress_pre_transfer_us + b.destination_egress_pre_transfer_us <= u128::MAX
    &&& a.profile_lookup_pre_transfer_us + b.profile_lookup_pre_transfer_us <= u128::MAX
    &&& a.transfer_relax_us + b.transfer_relax_us <= u128::MAX
    &&& a.destination_egress_post_transfer_us + b.destination_egress_post_transfer_us <= u128::MAX
    &&& a.profile_lookup_post_transfer_us + b.profile_lookup_post_transfer_us <= u128::MAX
}

/// Times added up, part by part.
pub open spec fn times_sum(a: RaptorRoundTimingBreakdownUs, b: RaptorRoundTimingBreakdownUs) -> RaptorRoundTimingBreakdownUs {
    RaptorRoundTimingBreakdownUs {
        round_total_us: (a.round_total_us + b.round_total_us) as u128,
        round_other_us: (a.round_other_us + b.round_other_us) as u128,
        best_before_clone_us: (a.best_before_clone_us + b.best_before_clone_us) as u128,
        queue_build_us: (a.queue_build_us + b.queue_build_us) as u128,
        line_scan_us: (a.line_scan_us + b.line_scan_us) as u128,
        line_scan_other_us: (a.line_scan_other_us + b.line_scan_other_us) as u128,
        line_scan_onboard_us: (a.line_scan_onboard_us + b.line_scan_onboard_us) as u128,
        line_scan_trip_search_us: (a.line_scan_trip_search_us + b.line_scan_trip_search_us) as u128,
        line_scan_trip_search_binary_partition_us: (a.line_scan_trip_search_binary_partition_us + b.line_scan_trip_search_binary_partition_us) as u128,
        line_scan_trip_search_binary_scan_us: (a.line_scan_trip_search_binary_scan_us + b.line_scan_trip_search_binary_scan_us) as u128,
        line_scan_trip_search_linear_scan_us: (a.line_scan_trip_search_linear_scan_us + b.line_scan_trip_search_linear_scan_us) as u128,
        line_scan_candidate_compare_us: (a.line_scan_candidate_compare_us + b.line_scan_candidate_compare_us) as u128,
        destination_egress_pre_transfer_us: (a.destination_egress_pre_transfer_us + b.destination_egress_pre_transfer_us) as u128,
        profile_lookup_pre_transfer_us: (a.profile_lookup_pre_transfer_us + b.profile_lookup_pre_transfer_us) as u128,
        transfer_relax_us: (a.transfer_relax_us + b.transfer_relax_us) as u128,
        destination_egress_post_transfer_us: (a.destination_egress_post_transfer_us + b.destination_egress_post_transfer_us) as u128,
        profile_lookup_post_transfer_us: (a.profile_lookup_post_transfer_us + b.profile_lookup_post_transfer_us) as u128,
    }
}

impl RaptorRoundTimingBreakdownUs {
    /// No time at all.
    pub fn zero() -> (times: RaptorRoundTimingBreakdownUs)
        ensures
            times == (RaptorRoundTimingBreakdownUs {
                round_total_us: 0,
                round_other_us: 0,
                best_before_clone_us: 0,
                queue_build_us: 0,
                line_scan_us: 0,
                line_scan_other_us: 0,
                line_scan_onboard_us: 0,
                line_scan_trip_search_us: 0,
                line_scan_trip_search_binary_partition_us: 0,
                line_scan_trip_search_binary_scan_us: 0,
                line_scan_trip_search_linear_scan_us: 0,
                line_scan_candidate_compare_us: 0,
                destination_egress_pre_transfer_us: 0,
                profile_lookup_pre_transfer_us: 0,
                transfer_relax_us: 0,
                destination_egress_post_transfer_us: 0,
                profile_lookup_post_transfer_us: 0,
            }),
    {
        RaptorRoundTimingBreakdownUs {
            round_total_us: 0,
            round_other_us: 0,
            best_before_clone_us: 0,
            queue_build_us: 0,
            line_scan_us: 0,
            line_scan_other_us: 0,
            line_scan_onboard_us: 0,
            line_scan_trip_search_us: 0,
            line_scan_trip_search_binary_partition_us: 0,
            line_scan_trip_search_binary_scan_us: 0,
            line_scan_trip_search_linear_scan_us: 0,
            line_scan_candidate_compare_us: 0,
            destination_egress_pre_transfer_us: 0,
            profile_lookup_pre_transfer_us: 0,
            transfer_relax_us: 0,
            destination_egress_post_transfer_us: 0,
            profile_lookup_post_transfer_us: 0,
        }
    }

    /// Adds the times of another round, part by part.
    pub fn accumulate(&mut self, other: &RaptorRoundTimingBreakdownUs)
        requires
            times_add_up(*old(self), *other),
        ensures
            *final(self) == times_sum(*old(self), *other),
    {
        self.round_total_us = self.round_total_us + other.round_total_us;
        self.round_other_us = self.round_other_us + other.round_other_us;
        self.best_before_clone_us = self.best_before_clone_us + other.best_before_clone_us;
        self.queue_build_us = self.queue_build_us + other.queue_build_us;
        self.line_scan_us = self.line_scan_us + other.line_scan_us;
        self.line_scan_other_us = self.line_scan_other_us + other.line_scan_other_us;
        self.line_scan_onboard_us = self.line_scan_onboard_us + other.line_scan_onboard_us;
        self.line_scan_trip_search_us = self.line_scan_trip_search_us + other.line_scan_trip_search_us;
        self.line_scan_trip_search_binary_partition_us = self.line_scan_trip_search_binary_partition_us + other.line_scan_trip_search_binary_partition_us;
        self.line_scan_trip_search_binary_scan_us = self.line_scan_trip_search_binary_scan_us + other.line_scan_trip_search_binary_scan_us;
        self.line_scan_trip_search_linear_scan_us = self.line_scan_trip_search_linear_scan_us + other.line_scan_trip_search_linear_scan_us;
        self.line_scan_candidate_compare_us = self.line_scan_candidate_compare_us + other.line_scan_candidate_compare_us;
        self.destination_egress_pre_transfer_us = self.destination_egress_pre_transfer_us + other.destination_egress_pre_transfer_us;
        self.profile_lookup_pre_transfer_us = self.profile_lookup_pre_transfer_us + other.profile_lookup_pre_transfer_us;
        self.transfer_relax_us = self.transfer_relax_us + other.transfer_relax_us;
        self.destination_egress_post_transfer_us = self.destination_egress_post_transfer_us + other.destination_egress_post_transfer_us;
        self.profile_lookup_post_transfer_us = self.profile_lookup_post_transfer_us + other.profile_lookup_post_transfer_us;
    }
}

/// How long the parts of a query took, in milliseconds.
#[derive(Clone, Copy, Debug, PartialEq, Eq, Structural)]
pub struct QueryTimingBreakdown {
    pub request_setup_ms: u128,
    pub coordinate_projection_ms: u128,
    pub pedestrian_lookup_ms: u128,
    pub trip_mask_ms: u128,
    pub flat_spatial_mask_ms: u128,
    pub state_init_ms: u128,
    pub initial_walk_ms: u128,
    pub profile_lookup_ms: u128,
    pub rounds_ms: u128,
    pub reconstruct_ms: u128,
    pub hydrate_ms: u128,
}

/// How places were joined to stops.
#[derive(Clone, Debug)]
pub struct CoordinateRoutingTrace {
    pub source_virtualized: bool,
    pub destination_virtualized: bool,
    pub source_seed_count: usize,
    pub destination_seed_count: usize,
    pub connector_strategy: String,
    pub source_asymptotic_connectors: usize,
    pub destination_asymptotic_connectors: usize,
}

/// How a round of a query went.
#[derive(Clone, Debug)]
pub struct QueryRoundTrace {
    pub round: usize,
    pub marked_stops: usize,
    pub queued_lines: usize,
    pub lines_scanned: usize,
    pub improvements: usize,
    pub best_before_clone_ms: u128,
    pub queue_build_ms: u128,
    pub line_scan_ms: u128,
    pub transfer_relax_ms: u128,
    pub timings_us: RaptorRoundTimingBreakdownUs,
    pub stop_positions_scanned: usize,
    pub onboard_arrival_evaluations: usize,
    pub actual_arrival_calls: usize,
    pub actual_departure_calls: usize,
    pub skipped_stop_checks: usize,
    pub profile_lookups: usize,
    pub profile_hits: usize,
    pub profile_bound_improvements: usize,
    pub trip_searches: usize,
    pub binary_trip_searches: usize,
    pub trip_departure_checks: usize,
    pub transfer_relaxations: usize,
    pub transfer_improvements: usize,
    pub destination_time: Option<String>,
}

/// How a query went.
#[derive(Clone, Debug)]
pub struct QueryTrace {
    pub service_date: String,
    pub query_runtime_ms: u128,
    pub active_services: usize,
    pub shadow_delta_count: usize,
    pub canceled_trip_count: usize,
    pub timings: QueryTimingBreakdown,
    pub round_timing_totals_us: RaptorRoundTimingBreakdownUs,
    pub coordinate_routing: Option<CoordinateRoutingTrace>,
    pub counters: QueryPerformanceCounters,
    pub rounds: Vec<QueryRoundTrace>,
}

/// How places are joined to stops.
pub fn connector_strategy(source_virtualized: bool, destination_virtualized: bool, has_forest: bool) -> (name: &'static str)
    ensures
        name@ == if source_virtualized || destination_virtualized {
            if has_forest { "hpf-local-forest"@ } else { "stop-knn-haversine-fallback"@ }
        } else {
            "discrete-stop-query"@
        },
{
    if source_virtualized || destination_virtualized {
        if has_forest { "hpf-local-forest" } else { "stop-knn-haversine-fallback" }
    } else {
        "discrete-stop-query"
    }
}

} // verus!
