//! The labels of a search and the scan of one line.

use crate::leg::{legs_arrive, legs_lead, legs_valid, ride_valid, ParentStep, ParentView};
use crate::model::{LineRecord, StaticData, TripRecord, INF_TIME};
use crate::realtime::{arrival_with_delay, call_is_skipped, departure_with_delay, trip_calls_valid, RealtimeStore};
use crate::temporal::{
    chronos_bucket_start_index, chronos_start, line_temporal_search_len, line_trip_index_at_temporal_position, temporal_len,
    temporal_trip,
};
use vstd::prelude::*;

verus! {

/// Number of calls that a scan looks at together.
pub const SVRT_WIDTH: usize = 8;

/// How much work a round took.
#[derive(Clone, Copy, Debug, PartialEq, Eq, Structural)]
pub struct RoundMetrics {
    pub queued_lines: usize,
    pub lines_scanned: usize,
    pub chronos_bucket_lookups: usize,
    pub chronos_indirection_lookups: usize,
    pub chronos_bucket_fallback_searches: usize,
    pub chronos_bucket_fallback_end_of_service: usize,
    pub chronos_bucket_fallback_non_monotonic: usize,
    pub chronos_bucket_lookback_secs_total: u64,
    pub chronos_bucket_lookback_secs_max: i32,
    pub flat_spatial_mask_checks: usize,
    pub flat_spatial_mask_hits: usize,
    pub stop_positions_scanned: usize,
    pub onboard_arrival_evaluations: usize,
    pub actual_arrival_calls: usize,
    pub actual_departure_calls: usize,
    pub skipped_stop_checks: usize,
    pub profile_lookups: usize,
    pub profile_hits: usize,
    pub profile_bound_improvements: usize,
    pub trip_searches: usize,
    pub binary_trip_searches: usize,
    pub trip_departure_checks: usize,
    pub transfer_relaxations: usize,
    pub transfer_improvements: usize,
    pub destination_bound_prunes: usize,
}

/// A count after more has been added; it stops at its limit.
pub open spec fn counted(count: usize, more: int) -> usize {
    if count + more > usize::MAX { usize::MAX } else { (count + more) as usize }
}

/// Adds to a count, which stops at its limit.
pub fn count_up(count: usize, more: usize) -> (sum: usize)
    ensures
        sum == counted(count, more as int),
{
    if count > usize::MAX - more { usize::MAX } else { count + more }
}

/// A round without work.
pub open spec fn no_work() -> RoundMetrics {
    RoundMetrics {
        queued_lines: 0,
        lines_scanned: 0,
        chronos_bucket_lookups: 0,
        chronos_indirection_lookups: 0,
        chronos_bucket_fallback_searches: 0,
        chronos_bucket_fallback_end_of_service: 0,
        chronos_bucket_fallback_non_monotonic: 0,
        chronos_bucket_lookback_secs_total: 0,
        chronos_bucket_lookback_secs_max: 0,
        flat_spatial_mask_checks: 0,
        flat_spatial_mask_hits: 0,
        stop_positions_scanned: 0,
        onboard_arrival_evaluations: 0,
        actual_arrival_calls: 0,
        actual_departure_calls: 0,
        skipped_stop_checks: 0,
        profile_lookups: 0,
        profile_hits: 0,
        profile_bound_improvements: 0,
        trip_searches: 0,
        binary_trip_searches: 0,
        trip_departure_checks: 0,
        transfer_relaxations: 0,
        transfer_improvements: 0,
        destination_bound_prunes: 0,
    }
}

/// A round without work.
pub fn empty_metrics() -> (metrics: RoundMetrics)
    ensures
        metrics == no_work(),
{
    RoundMetrics {
        queued_lines: 0,
        lines_scanned: 0,
        chronos_bucket_lookups: 0,
        chronos_indirection_lookups: 0,
        chronos_bucket_fallback_searches: 0,
        chronos_bucket_fallback_end_of_service: 0,
        chronos_bucket_fallback_non_monotonic: 0,
        chronos_bucket_lookback_secs_total: 0,
        chronos_bucket_lookback_secs_max: 0,
        flat_spatial_mask_checks: 0,
        flat_spatial_mask_hits: 0,
        stop_positions_scanned: 0,
        onboard_arrival_evaluations: 0,
        actual_arrival_calls: 0,
        actual_departure_calls: 0,
        skipped_stop_checks: 0,
        profile_lookups: 0,
        profile_hits: 0,
        profile_bound_improvements: 0,
        trip_searches: 0,
        binary_trip_searches: 0,
        trip_departure_checks: 0,
        transfer_relaxations: 0,
        transfer_improvements: 0,
        destination_bound_prunes: 0,
    }
}

/// What a search reads: the timetable, the realtime reports, and which trips
/// run on the day.
pub struct SearchContext<'a> {
    pub data: &'a StaticData,
    pub realtime: &'a RealtimeStore,
    pub trip_is_available: &'a Vec<bool>,
    pub trip_has_realtime_update: &'a Vec<bool>,
    pub line_max_positive_delay_secs: &'a Vec<i32>,
}

/// The labels of a search: the best arrival at each stop, and for each round the
/// arrivals it found and how; with the stops that the current round improved, and
/// the origin.
pub struct SearchState {
    pub best: Vec<i32>,
    pub arrivals: Vec<Vec<i32>>,
    pub parents: Vec<Vec<Option<ParentStep>>>,
    pub improved: Vec<usize>,
    pub flags: Vec<bool>,
    pub metrics: RoundMetrics,
    pub origin: usize,
}

/// The labels of a search as sequences.
pub struct SearchView {
    pub best: Seq<i32>,
    pub arrivals: Seq<Seq<i32>>,
    pub parents: Seq<Seq<Option<ParentView>>>,
    pub improved: Seq<usize>,
    pub flags: Seq<bool>,
    pub metrics: RoundMetrics,
    pub origin: usize,
}

/// How a stop was reached, if it was.
pub open spec fn parent_view(parent: Option<ParentStep>) -> Option<ParentView> {
    match parent {
        Some(step) => Some(step@),
        None => None,
    }
}

/// The arrivals of each round.
pub open spec fn arrival_rows(rows: Seq<Vec<i32>>) -> Seq<Seq<i32>> {
    Seq::new(rows.len(), |r: int| rows[r]@)
}

/// How each round reached its stops.
pub open spec fn parent_rows(rows: Seq<Vec<Option<ParentStep>>>) -> Seq<Seq<Option<ParentView>>> {
    Seq::new(rows.len(), |r: int| Seq::new(rows[r]@.len(), |s: int| parent_view(rows[r]@[s])))
}

impl SearchState {
    /// The labels as sequences.
    pub open spec fn view(&self) -> SearchView {
        SearchView {
            best: self.best@,
            arrivals: arrival_rows(self.arrivals@),
            parents: parent_rows(self.parents@),
            improved: self.improved@,
            flags: self.flags@,
            metrics: self.metrics,
            origin: self.origin,
        }
    }
}

impl SearchView {
    /// Whether the labels are for `stops` stops and `rounds` rounds, with no best
    /// arrival beyond the unreachable one.
    pub open spec fn wf(self, stops: int, rounds: int) -> bool {
        &&& self.best.len() == stops
        &&& self.flags.len() == stops
        &&& self.arrivals.len() == rounds
        &&& self.parents.len() == rounds
        &&& forall|r: int| 0 <= r < rounds ==> (#[trigger] self.arrivals[r]).len() == stops
        &&& forall|r: int| 0 <= r < rounds ==> (#[trigger] self.parents[r]).len() == stops
        &&& forall|i: int| 0 <= i < self.improved.len() ==> (#[trigger] self.improved[i]) < stops
        &&& forall|s: int| 0 <= s < stops ==> (#[trigger] self.best[s]) <= INF_TIME
        &&& forall|r: int, s: int| 0 <= r < rounds && 0 <= s < stops ==> (#[trigger] self.arrivals[r][s]) <= INF_TIME
    }
}

/// The labels after a better arrival at a stop; unchanged where it is no better.
pub open spec fn with_improvement(view: SearchView, round: int, stop: int, arrival: i32, parent: ParentView) -> SearchView {
    if arrival >= view.best[stop] {
        view
    } else {
        SearchView {
            best: view.best.update(stop, arrival),
            arrivals: view.arrivals.update(round, view.arrivals[round].update(stop, arrival)),
            parents: view.parents.update(round, view.parents[round].update(stop, Some(parent))),
            improved: if view.flags[stop] { view.improved } else { view.improved.push(stop as usize) },
            flags: view.flags.update(stop, true),
            ..view
        }
    }
}

impl SearchState {
    /// Notes an arrival at a stop if it is the best so far, and says whether it
    /// was.
    pub fn record_stop_improvement(&mut self, round: usize, stop_index: usize, candidate_arrival: i32, parent: ParentStep) -> (improved: bool)
        requires
            old(self)@.wf(old(self)@.best.len() as int, old(self)@.arrivals.len() as int),
            stop_index < old(self)@.best.len(),
            round < old(self)@.arrivals.len(),
        ensures
            final(self)@ == with_improvement(old(self)@, round as int, stop_index as int, candidate_arrival, parent@),
            improved == (candidate_arrival < old(self)@.best[stop_index as int]),
            final(self)@.wf(old(self)@.best.len() as int, old(self)@.arrivals.len() as int),
    {
        if candidate_arrival >= self.best[stop_index] {
            return false;
        }
        let ghost before = self@;
        assert(before.arrivals[round as int].len() == before.best.len());
        assert(before.parents[round as int].len() == before.best.len());
        self.best.set(stop_index, candidate_arrival);
        self.arrivals[round].set(stop_index, candidate_arrival);
        self.parents[round].set(stop_index, Some(parent));
        if !self.flags[stop_index] {
            self.flags.set(stop_index, true);
            self.improved.push(stop_index);
        }
        proof {
            let after = with_improvement(before, round as int, stop_index as int, candidate_arrival, parent@);
            assert(self@.flags =~= after.flags);
            assert(self@.arrivals =~= after.arrivals) by {
                assert forall|r: int| 0 <= r < after.arrivals.len() implies self@.arrivals[r] == after.arrivals[r] by {
                    assert(self@.arrivals[r] =~= after.arrivals[r]);
                }
            }
            assert(self@.parents =~= after.parents) by {
                assert forall|r: int| 0 <= r < after.parents.len() implies self@.parents[r] == after.parents[r] by {
                    assert(self@.parents[r] =~= after.parents[r]);
                }
            }
            assert(self@ == after);
            improvement_keeps_shape(before, round as int, stop_index as int, candidate_arrival, parent@);
        }
        true
    }
}

/// A better arrival keeps the shape of the labels.
pub proof fn improvement_keeps_shape(view: SearchView, round: int, stop: int, arrival: i32, parent: ParentView)
    requires
        view.wf(view.best.len() as int, view.arrivals.len() as int),
        0 <= stop < view.best.len(),
        0 <= round < view.arrivals.len(),
    ensures
        with_improvement(view, round, stop, arrival, parent).wf(view.best.len() as int, view.arrivals.len() as int),
{
    let after = with_improvement(view, round, stop, arrival, parent);
    let stops = view.best.len() as int;
    let rounds = view.arrivals.len() as int;
    if arrival < view.best[stop] {
        assert(view.arrivals[round].len() == stops);
        assert(view.parents[round].len() == stops);
        assert forall|r: int| 0 <= r < rounds implies (#[trigger] after.arrivals[r]).len() == stops by {
            assert(view.arrivals[r].len() == stops);
        }
        assert forall|r: int| 0 <= r < rounds implies (#[trigger] after.parents[r]).len() == stops by {
            assert(view.parents[r].len() == stops);
        }
        assert forall|i: int| 0 <= i < after.improved.len() implies (#[trigger] after.improved[i]) < stops by {
            if i < view.improved.len() {
                assert(view.improved[i] < stops);
            }
        }
        assert forall|s: int| 0 <= s < stops implies (#[trigger] after.best[s]) <= INF_TIME by {
            assert(view.best[s] <= INF_TIME);
        }
        assert forall|r: int, s: int| 0 <= r < rounds && 0 <= s < stops implies (#[trigger] after.arrivals[r][s]) <= INF_TIME by {
            assert(view.arrivals[r][s] <= INF_TIME);
            assert(view.best[s] <= INF_TIME);
        }
    }
}

/// Whether a place can be on the way: a stop of the timetable, or the origin.
pub open spec fn on_the_way(view: SearchView, data: StaticData, stop: int) -> bool {
    0 <= stop < view.best.len() && (stop < data.stops@.len() || stop == view.origin)
}

/// Whether a step back from the label of a stop leads to a label, and what was
/// done in between leads to the stop: a ride on a trip of the timetable, or legs
/// without a gap that end when the stop is reached. Nothing leads to an origin that
/// is no stop of the timetable.
#[verifier::opaque]
pub open spec fn parent_valid(parent: ParentView, data: StaticData, places: int, rounds: int, origin: usize, stop: int, arrival: i32) -> bool {
    let statics = data.stops@.len() as int;
    match parent {
        ParentView::Origin => stop == origin,
        ParentView::Walk { from_stop, .. } => {
            &&& from_stop < places && (from_stop < statics || from_stop == origin)
            &&& stop < statics || stop != origin
        },
        ParentView::Transit { trip_index, board_stop, board_pos, alight_stop, alight_pos } => {
            &&& ride_valid(data.trips@, trip_index as int, board_stop, board_pos, alight_stop, alight_pos)
            &&& board_stop < statics
            &&& alight_stop == stop
            &&& stop < statics
        },
        ParentView::Memoized { from_stop, source_round, legs } => {
            &&& from_stop < places && (from_stop < statics || from_stop == origin)
            &&& stop < statics || stop != origin
            &&& source_round < rounds
            &&& legs_valid(legs, data.trips@, places)
            &&& legs_lead(legs, from_stop as int, stop, statics)
            &&& legs_arrive(legs, arrival as int)
        },
    }
}

/// Whether every step back from a label is valid.
pub open spec fn labels_valid(view: SearchView, data: StaticData) -> bool {
    &&& data.stops@.len() <= view.best.len()
    &&& forall|i: int| 0 <= i < view.improved.len() ==> on_the_way(view, data, #[trigger] view.improved[i] as int)
    &&& forall|r: int, s: int| 0 <= r < view.parents.len() && 0 <= s < view.best.len() && (#[trigger] view.parents[r][s]) is Some ==> parent_valid(
        view.parents[r][s]->0,
        data,
        view.best.len() as int,
        view.arrivals.len() as int,
        view.origin,
        s,
        view.arrivals[r][s],
    )
}

/// A better arrival keeps the steps back valid.
pub proof fn improvement_keeps_labels(view: SearchView, data: StaticData, round: int, stop: int, arrival: i32, parent: ParentView)
    requires
        view.wf(view.best.len() as int, view.arrivals.len() as int),
        labels_valid(view, data),
        parent_valid(parent, data, view.best.len() as int, view.arrivals.len() as int, view.origin, stop, arrival),
        on_the_way(view, data, stop),
        0 <= stop < view.best.len(),
        0 <= round < view.arrivals.len(),
    ensures
        labels_valid(with_improvement(view, round, stop, arrival, parent), data),
{
    let after = with_improvement(view, round, stop, arrival, parent);
    assert(view.parents[round].len() == view.best.len());
    assert forall|r: int, s: int| 0 <= r < after.parents.len() && 0 <= s < after.best.len() && (#[trigger] after.parents[r][s]) is Some implies parent_valid(
        after.parents[r][s]->0,
        data,
        after.best.len() as int,
        after.arrivals.len() as int,
        after.origin,
        s,
        after.arrivals[r][s],
    ) by {
        if arrival < view.best[stop] && !(r == round && s == stop) {
            assert(after.parents[r][s] == view.parents[r][s]);
            assert(after.arrivals[r][s] == view.arrivals[r][s]) by {
                assert(view.arrivals[r].len() == view.best.len());
            }
        }
    }
}

/// Whether a trip calls at stops, one after the other.
pub open spec fn serves(trip: TripRecord, stops: Seq<usize>) -> bool {
    &&& trip.stop_times@.len() == stops.len()
    &&& forall|p: int| 0 <= p < stops.len() ==> (#[trigger] trip.stop_times@[p]).stop_index == stops[p]
}

/// Whether the tables of a line fit its trips, and its stops and trips exist.
pub open spec fn line_valid(line: LineRecord, trips: Seq<TripRecord>, stop_count: int) -> bool {
    &&& forall|p: int| 0 <= p < line.stop_indices@.len() ==> (#[trigger] line.stop_indices@[p]) < stop_count
    &&& forall|i: int| 0 <= i < line.trip_indices@.len() ==> (#[trigger] line.trip_indices@[i]) < trips.len()
        && serves(trips[line.trip_indices@[i] as int], line.stop_indices@)
    &&& line.scheduled_departures_by_stop@.len() == line.stop_indices@.len()
    &&& forall|p: int| 0 <= p < line.stop_indices@.len() ==> (#[trigger] line.scheduled_departures_by_stop@[p])@.len() >= temporal_len(line, p)
}

impl SearchContext<'_> {
    /// Whether the parts fit each other.
    pub open spec fn wf(self) -> bool {
        &&& self.realtime.wf()
        &&& self.trip_is_available@.len() == self.data.trips@.len()
        &&& self.trip_has_realtime_update@.len() == self.data.trips@.len()
        &&& self.line_max_positive_delay_secs@.len() == self.data.lines@.len()
        &&& forall|t: int| 0 <= t < self.data.trips@.len() ==> trip_calls_valid(#[trigger] self.data.trips@[t], self.data.stops@.len() as int)
        &&& forall|l: int| 0 <= l < self.data.lines@.len() ==> line_valid(#[trigger] self.data.lines@[l], self.data.trips@, self.data.stops@.len() as int)
    }

    /// Whether a trip may differ from the timetable.
    pub open spec fn may_differ(self, trip: int) -> bool {
        if trip < self.trip_has_realtime_update@.len() { self.trip_has_realtime_update@[trip] } else { true }
    }

    /// When a trip departs from a call, as far as a search needs to know.
    pub open spec fn departure(self, trip: int, stop_pos: int) -> int {
        if self.may_differ(trip) {
            departure_with_delay(self.realtime@, self.data.trips@, trip, stop_pos)
        } else {
            self.data.trips@[trip].stop_times@[stop_pos].departure_secs as int
        }
    }

    /// When a trip arrives at a call, as far as a search needs to know.
    pub open spec fn arrival(self, trip: int, stop_pos: int) -> int {
        if self.may_differ(trip) {
            arrival_with_delay(self.realtime@, self.data.trips@, trip, stop_pos)
        } else {
            self.data.trips@[trip].stop_times@[stop_pos].arrival_secs as int
        }
    }

    fn trip_may_differ(&self, trip_index: usize) -> (differs: bool)
        ensures
            differs == self.may_differ(trip_index as int),
    {
        if trip_index < self.trip_has_realtime_update.len() { self.trip_has_realtime_update[trip_index] } else { true }
    }
}

/// The work after a departure was looked up.
pub open spec fn departure_counted(ctx: SearchContext, metrics: RoundMetrics, trip: int) -> RoundMetrics {
    if ctx.may_differ(trip) {
        RoundMetrics { actual_departure_calls: counted(metrics.actual_departure_calls, 1), ..metrics }
    } else {
        metrics
    }
}

/// The labels after a ride has reached one more call: the arrival counts where
/// the call is not left out and the arrival is before the best one at the
/// destination.
pub open spec fn after_onboard(
    view: SearchView,
    ctx: SearchContext,
    line: LineRecord,
    stop_pos: int,
    destination: int,
    round: int,
    trip: usize,
    boarded_at: usize,
) -> SearchView {
    let m = view.metrics;
    let evaluated = RoundMetrics { onboard_arrival_evaluations: counted(m.onboard_arrival_evaluations, 1), ..m };
    let checked = if ctx.may_differ(trip as int) {
        RoundMetrics { skipped_stop_checks: counted(evaluated.skipped_stop_checks, 1), ..evaluated }
    } else {
        evaluated
    };
    if ctx.may_differ(trip as int) && call_is_skipped(ctx.realtime@, trip as int, stop_pos) {
        SearchView { metrics: checked, ..view }
    } else {
        let called = if ctx.may_differ(trip as int) {
            RoundMetrics { actual_arrival_calls: counted(checked.actual_arrival_calls, 1), ..checked }
        } else {
            checked
        };
        let arrival = ctx.arrival(trip as int, stop_pos);
        let stop = line.stop_indices@[stop_pos];
        if arrival < view.best[destination] {
            with_improvement(
                SearchView { metrics: called, ..view },
                round,
                stop as int,
                arrival as i32,
                ParentView::Transit {
                    trip_index: trip,
                    board_stop: line.stop_indices@[boarded_at as int],
                    board_pos: boarded_at,
                    alight_stop: stop,
                    alight_pos: stop_pos as usize,
                },
            )
        } else {
            SearchView {
                metrics: RoundMetrics { destination_bound_prunes: counted(called.destination_bound_prunes, 1), ..called },
                ..view
            }
        }
    }
}

impl<'a> SearchContext<'a> {
    /// The departure of a trip from a call, with the work counted.
    pub fn scan_departure_for_trip(&self, trip_index: usize, stop_pos: usize, metrics: &mut RoundMetrics) -> (departure: i32)
        requires
            self.wf(),
            trip_index < self.data.trips@.len(),
            stop_pos < self.data.trips@[trip_index as int].stop_times@.len(),
        ensures
            departure == self.departure(trip_index as int, stop_pos as int),
            *final(metrics) == departure_counted(*self, *old(metrics), trip_index as int),
    {
        assert(trip_calls_valid(self.data.trips@[trip_index as int], self.data.stops@.len() as int));
        if self.trip_may_differ(trip_index) {
            metrics.actual_departure_calls = count_up(metrics.actual_departure_calls, 1);
            self.realtime.actual_departure(&self.data.trips, trip_index, stop_pos)
        } else {
            self.data.trips[trip_index].stop_times[stop_pos].departure_secs
        }
    }

    /// Carries a ride to one more call.
    pub fn evaluate_onboard_arrival(
        &self,
        line: &LineRecord,
        stop_pos: usize,
        destination_stop: usize,
        round: usize,
        state: &mut SearchState,
        trip_index: usize,
        boarded_at: usize,
    )
        requires
            self.wf(),
            line_valid(*line, self.data.trips@, self.data.stops@.len() as int),
            stop_pos < line.stop_indices@.len(),
            boarded_at <= stop_pos,
            trip_index < self.data.trips@.len(),
            serves(self.data.trips@[trip_index as int], line.stop_indices@),
            old(state)@.wf(old(state)@.best.len() as int, old(state)@.arrivals.len() as int),
            self.data.stops@.len() <= old(state)@.best.len(),
            destination_stop < old(state)@.best.len(),
            round < old(state)@.arrivals.len(),
            labels_valid(old(state)@, *self.data),
        ensures
            final(state)@ == after_onboard(old(state)@, *self, *line, stop_pos as int, destination_stop as int, round as int, trip_index, boarded_at),
            final(state)@.wf(old(state)@.best.len() as int, old(state)@.arrivals.len() as int),
            labels_valid(final(state)@, *self.data),
            final(state)@.origin == old(state)@.origin,
    {
        assert(trip_calls_valid(self.data.trips@[trip_index as int], self.data.stops@.len() as int));
        assert(line.stop_indices@[stop_pos as int] < self.data.stops@.len());
        let stop_index: usize = line.stop_indices[stop_pos];
        let destination_bound: i32 = state.best[destination_stop];
        state.metrics.onboard_arrival_evaluations = count_up(state.metrics.onboard_arrival_evaluations, 1);
        assert(state@.wf(old(state)@.best.len() as int, old(state)@.arrivals.len() as int)) by {
            assert(state@ == (SearchView { metrics: state@.metrics, ..old(state)@ }));
        }
        let differs: bool = self.trip_may_differ(trip_index);
        if differs {
            state.metrics.skipped_stop_checks = count_up(state.metrics.skipped_stop_checks, 1);
            if self.realtime.is_stop_skipped(trip_index, stop_pos) {
                return;
            }
            state.metrics.actual_arrival_calls = count_up(state.metrics.actual_arrival_calls, 1);
        }
        let arrival: i32 = if differs {
            self.realtime.actual_arrival(&self.data.trips, trip_index, stop_pos)
        } else {
            self.data.trips[trip_index].stop_times[stop_pos].arrival_secs
        };
        if arrival < destination_bound {
            proof {
                let board_stop = line.stop_indices@[boarded_at as int];
                assert(board_stop < self.data.stops@.len());
                reveal(parent_valid);
                improvement_keeps_labels(
                    state@,
                    *self.data,
                    round as int,
                    stop_index as int,
                    arrival,
                    ParentView::Transit { trip_index: trip_index, board_stop: board_stop, board_pos: boarded_at, alight_stop: stop_index, alight_pos: stop_pos },
                );
            }
            let _ = state.record_stop_improvement(
                round,
                stop_index,
                arrival,
                ParentStep::Transit {
                    trip_index: trip_index,
                    board_stop: line.stop_indices[boarded_at],
                    board_pos: boarded_at,
                    alight_stop: stop_index,
                    alight_pos: stop_pos,
                },
            );
        } else {
            state.metrics.destination_bound_prunes = count_up(state.metrics.destination_bound_prunes, 1);
        }
    }
}

/// Whether a trip can be boarded at a call by a search that trusts the
/// timetable: it runs, and the call is not left out.
pub open spec fn boardable(ctx: SearchContext, trip: int, stop_pos: int) -> bool {
    ctx.trip_is_available@[trip] && !call_is_skipped(ctx.realtime@, trip, stop_pos)
}

/// Whether a trip can be boarded at a call by a search that asks the realtime
/// reports only of trips they speak of.
pub open spec fn boardable_if_reported(ctx: SearchContext, trip: int, stop_pos: int) -> bool {
    ctx.trip_is_available@[trip] && !(ctx.may_differ(trip) && call_is_skipped(ctx.realtime@, trip, stop_pos))
}

/// The first place from `place` on whose trip runs and departs no earlier than
/// the ready time by the timetable; with the work counted.
pub open spec fn first_departure_from(
    ctx: SearchContext,
    line: LineRecord,
    stop_pos: int,
    ready_at: i32,
    place: int,
    m: RoundMetrics,
) -> (Option<usize>, RoundMetrics)
    decreases temporal_len(line, stop_pos) - place,
{
    if place >= temporal_len(line, stop_pos) {
        (None, m)
    } else {
        match temporal_trip(line, stop_pos, place) {
            None => (None, m),
            Some(trip) => {
                let checked = RoundMetrics { trip_departure_checks: counted(m.trip_departure_checks, 1), ..m };
                if !ctx.trip_is_available@[trip as int] {
                    first_departure_from(ctx, line, stop_pos, ready_at, place + 1, checked)
                } else {
                    let looked = RoundMetrics { skipped_stop_checks: counted(checked.skipped_stop_checks, 1), ..checked };
                    if boardable(ctx, trip as int, stop_pos) && line.scheduled_departures_by_stop@[stop_pos]@[place] >= ready_at {
                        (Some(trip), looked)
                    } else {
                        first_departure_from(ctx, line, stop_pos, ready_at, place + 1, looked)
                    }
                }
            },
        }
    }
}

/// A trip and its departure, the earliest found so far.
pub struct BestDeparture {
    pub trip: Option<usize>,
    pub departure: int,
    pub metrics: RoundMetrics,
}

/// The earliest departure after one more trip was looked at: it must run, not
/// leave the call out, depart no earlier than the ready time and before the
/// best.
pub open spec fn with_departure(ctx: SearchContext, stop_pos: int, ready_at: i32, trip: usize, best: BestDeparture) -> BestDeparture {
    let m = best.metrics;
    let checked = RoundMetrics { trip_departure_checks: counted(m.trip_departure_checks, 1), ..m };
    if !ctx.trip_is_available@[trip as int] {
        BestDeparture { metrics: checked, ..best }
    } else {
        let looked = if ctx.may_differ(trip as int) {
            RoundMetrics { skipped_stop_checks: counted(checked.skipped_stop_checks, 1), ..checked }
        } else {
            checked
        };
        if !boardable_if_reported(ctx, trip as int, stop_pos) {
            BestDeparture { metrics: looked, ..best }
        } else {
            let called = departure_counted(ctx, looked, trip as int);
            let departure = ctx.departure(trip as int, stop_pos);
            if departure >= ready_at && departure < best.departure {
                BestDeparture { trip: Some(trip), departure: departure, metrics: called }
            } else {
                BestDeparture { metrics: called, ..best }
            }
        }
    }
}

/// The earliest departure among the places from `place` on and what was found
/// before.
pub open spec fn best_departure_from(
    ctx: SearchContext,
    line: LineRecord,
    stop_pos: int,
    ready_at: i32,
    place: int,
    best: BestDeparture,
) -> BestDeparture
    decreases temporal_len(line, stop_pos) - place,
{
    if place >= temporal_len(line, stop_pos) {
        best
    } else {
        match temporal_trip(line, stop_pos, place) {
            None => best,
            Some(trip) => best_departure_from(ctx, line, stop_pos, ready_at, place + 1, with_departure(ctx, stop_pos, ready_at, trip, best)),
        }
    }
}

/// The earliest departure among the trips of a line from the `i`th on and what
/// was found before.
pub open spec fn best_departure_of_all(
    ctx: SearchContext,
    line: LineRecord,
    stop_pos: int,
    ready_at: i32,
    i: int,
    best: BestDeparture,
) -> BestDeparture
    decreases line.trip_indices@.len() - i,
{
    if i >= line.trip_indices@.len() {
        best
    } else {
        best_departure_of_all(ctx, line, stop_pos, ready_at, i + 1, with_departure(ctx, stop_pos, ready_at, line.trip_indices@[i], best))
    }
}

/// Whether the departures at a call of a line are listed in an order of their
/// own.
pub open spec fn has_own_order(line: LineRecord, stop_pos: int) -> bool {
    stop_pos < line.trip_order_indirection_by_stop@.len() && line.trip_order_indirection_by_stop@[stop_pos]@.len() > 0
}

/// The work after a trip search has begun.
pub open spec fn search_begun(line: LineRecord, stop_pos: int, lookback: i32, m: RoundMetrics) -> RoundMetrics {
    let total = m.chronos_bucket_lookback_secs_total + lookback as u64;
    RoundMetrics {
        trip_searches: counted(m.trip_searches, 1),
        chronos_bucket_lookups: counted(m.chronos_bucket_lookups, 1),
        chronos_bucket_lookback_secs_total: if total > u64::MAX { u64::MAX } else { total as u64 },
        chronos_bucket_lookback_secs_max: if lookback > m.chronos_bucket_lookback_secs_max { lookback } else { m.chronos_bucket_lookback_secs_max },
        chronos_indirection_lookups: if has_own_order(line, stop_pos) { counted(m.chronos_indirection_lookups, 1) } else { m.chronos_indirection_lookups },
        ..m
    }
}

/// The work after a search that found nothing at the end of the service.
pub open spec fn ended(found: Option<usize>, m: RoundMetrics) -> RoundMetrics {
    if found is None {
        RoundMetrics { chronos_bucket_fallback_end_of_service: counted(m.chronos_bucket_fallback_end_of_service, 1), ..m }
    } else {
        m
    }
}

/// The trip of a line that a traveller who is ready at a call takes, and the
/// work of finding it. Without delays that is the first departure in the
/// order of the timetable; with delays, the earliest actual departure from the
/// bucket of the ready time less the greatest delay on.
pub open spec fn earliest_trip(
    ctx: SearchContext,
    line: LineRecord,
    stop_pos: int,
    ready_at: i32,
    lookback: i32,
    m: RoundMetrics,
) -> (Option<usize>, RoundMetrics) {
    let begun = search_begun(line, stop_pos, lookback, m);
    let buckets = line.chronos_bucket_start_indices_by_stop@;
    if !(stop_pos < buckets.len() && buckets[stop_pos]@.len() > 0) {
        let fallback = RoundMetrics {
            chronos_bucket_fallback_searches: counted(begun.chronos_bucket_fallback_searches, 1),
            chronos_bucket_fallback_non_monotonic: counted(begun.chronos_bucket_fallback_non_monotonic, 1),
            ..begun
        };
        let best = best_departure_of_all(ctx, line, stop_pos, ready_at, 0, BestDeparture { trip: None, departure: INF_TIME as int, metrics: fallback });
        (best.trip, best.metrics)
    } else {
        let start = chronos_start(buckets[stop_pos]@, ready_at, lookback);
        if start >= temporal_len(line, stop_pos) {
            (None, ended(None, begun))
        } else {
            let binary = RoundMetrics { binary_trip_searches: counted(begun.binary_trip_searches, 1), ..begun };
            if lookback == 0 {
                let found = first_departure_from(ctx, line, stop_pos, ready_at, start, binary);
                (found.0, ended(found.0, found.1))
            } else {
                let best = best_departure_from(ctx, line, stop_pos, ready_at, start, BestDeparture { trip: None, departure: INF_TIME as int, metrics: binary });
                (best.trip, ended(best.trip, best.metrics))
            }
        }
    }
}

proof fn temporal_trip_valid(line: LineRecord, trips: Seq<TripRecord>, stop_count: int, stop_pos: int, place: int)
    requires
        line_valid(line, trips, stop_count),
        0 <= stop_pos,
        0 <= place,
        temporal_trip(line, stop_pos, place) is Some,
    ensures
        temporal_trip(line, stop_pos, place)->0 < trips.len(),
        serves(trips[temporal_trip(line, stop_pos, place)->0 as int], line.stop_indices@),
{
    let physical = if stop_pos < line.trip_order_indirection_by_stop.len() && place < line.trip_order_indirection_by_stop[stop_pos].len() {
        line.trip_order_indirection_by_stop[stop_pos][place] as int
    } else {
        place
    };
    assert(line.trip_indices@[physical] < trips.len());
}

impl<'a> SearchContext<'a> {
    fn consider_departure(
        &self,
        stop_pos: usize,
        ready_at: i32,
        trip_index: usize,
        best_trip: &mut Option<usize>,
        best_departure: &mut i32,
        metrics: &mut RoundMetrics,
    )
        requires
            self.wf(),
            trip_index < self.data.trips@.len(),
            stop_pos < self.data.trips@[trip_index as int].stop_times@.len(),
        ensures
            ({
                let before = BestDeparture { trip: *old(best_trip), departure: *old(best_departure) as int, metrics: *old(metrics) };
                let after = BestDeparture { trip: *final(best_trip), departure: *final(best_departure) as int, metrics: *final(metrics) };
                after == with_departure(*self, stop_pos as int, ready_at, trip_index, before)
            }),
    {
        metrics.trip_departure_checks = count_up(metrics.trip_departure_checks, 1);
        if !self.trip_is_available[trip_index] {
            return;
        }
        if self.trip_may_differ(trip_index) {
            metrics.skipped_stop_checks = count_up(metrics.skipped_stop_checks, 1);
            if self.realtime.is_stop_skipped(trip_index, stop_pos) {
                return;
            }
        }
        let departure: i32 = self.scan_departure_for_trip(trip_index, stop_pos, metrics);
        if departure >= ready_at && departure < *best_departure {
            *best_departure = departure;
            *best_trip = Some(trip_index);
        }
    }

    /// Looks at every trip of a line for the earliest departure.
    pub fn find_earliest_trip_linear_fallback(&self, line: &LineRecord, stop_pos: usize, ready_at: i32, metrics: &mut RoundMetrics) -> (found: Option<usize>)
        requires
            self.wf(),
            line_valid(*line, self.data.trips@, self.data.stops@.len() as int),
            stop_pos < line.stop_indices@.len(),
        ensures
            ({
                let best = best_departure_of_all(*self, *line, stop_pos as int, ready_at, 0, BestDeparture { trip: None, departure: INF_TIME as int, metrics: *old(metrics) });
                found == best.trip && *final(metrics) == best.metrics
            }),
    {
        let mut best_trip: Option<usize> = None;
        let mut best_departure: i32 = INF_TIME;
        let ghost start = BestDeparture { trip: None, departure: INF_TIME as int, metrics: *metrics };
        let mut i: usize = 0;
        while i < line.trip_indices.len()
            invariant
                i <= line.trip_indices.len(),
                self.wf(),
                line_valid(*line, self.data.trips@, self.data.stops@.len() as int),
                stop_pos < line.stop_indices@.len(),
                best_departure_of_all(*self, *line, stop_pos as int, ready_at, 0, start) == best_departure_of_all(
                    *self,
                    *line,
                    stop_pos as int,
                    ready_at,
                    i as int,
                    BestDeparture { trip: best_trip, departure: best_departure as int, metrics: *metrics },
                ),
            decreases line.trip_indices.len() - i,
        {
            assert(line.trip_indices@[i as int] < self.data.trips@.len());
            self.consider_departure(stop_pos, ready_at, line.trip_indices[i], &mut best_trip, &mut best_departure, metrics);
            i = i + 1;
        }
        best_trip
    }

    /// Finds the trip of a line that a traveller who is ready at a call takes.
    pub fn find_earliest_trip(&self, line: &LineRecord, stop_pos: usize, ready_at: i32, line_max_positive_delay_secs: i32, metrics: &mut RoundMetrics) -> (found: Option<usize>)
        requires
            self.wf(),
            line_valid(*line, self.data.trips@, self.data.stops@.len() as int),
            stop_pos < line.stop_indices@.len(),
            line_max_positive_delay_secs >= 0,
        ensures
            (found, *final(metrics)) == earliest_trip(*self, *line, stop_pos as int, ready_at, line_max_positive_delay_secs, *old(metrics)),
            found is Some ==> found->0 < self.data.trips@.len() && serves(self.data.trips@[found->0 as int], line.stop_indices@),
    {
        proof {
            earliest_trip_valid(*self, *line, stop_pos as int, ready_at, line_max_positive_delay_secs, *metrics);
        }
        metrics.trip_searches = count_up(metrics.trip_searches, 1);
        metrics.chronos_bucket_lookups = count_up(metrics.chronos_bucket_lookups, 1);
        let lookback: u64 = line_max_positive_delay_secs as u64;
        metrics.chronos_bucket_lookback_secs_total = if metrics.chronos_bucket_lookback_secs_total > u64::MAX - lookback {
            u64::MAX
        } else {
            metrics.chronos_bucket_lookback_secs_total + lookback
        };
        if line_max_positive_delay_secs > metrics.chronos_bucket_lookback_secs_max {
            metrics.chronos_bucket_lookback_secs_max = line_max_positive_delay_secs;
        }
        if stop_pos < line.trip_order_indirection_by_stop.len() && line.trip_order_indirection_by_stop[stop_pos].len() > 0 {
            metrics.chronos_indirection_lookups = count_up(metrics.chronos_indirection_lookups, 1);
        }
        let start_index: usize = match chronos_bucket_start_index(line, stop_pos, ready_at, line_max_positive_delay_secs) {
            Some(start) => start,
            None => {
                metrics.chronos_bucket_fallback_searches = count_up(metrics.chronos_bucket_fallback_searches, 1);
                metrics.chronos_bucket_fallback_non_monotonic = count_up(metrics.chronos_bucket_fallback_non_monotonic, 1);
                return self.find_earliest_trip_linear_fallback(line, stop_pos, ready_at, metrics);
            },
        };
        let search_len: usize = line_temporal_search_len(line, stop_pos);
        if start_index >= search_len {
            metrics.chronos_bucket_fallback_end_of_service = count_up(metrics.chronos_bucket_fallback_end_of_service, 1);
            return None;
        }
        metrics.binary_trip_searches = count_up(metrics.binary_trip_searches, 1);
        let ghost binary = *metrics;
        if line_max_positive_delay_secs == 0 {
            let found: Option<usize> = self.find_first_departure(line, stop_pos, ready_at, start_index, search_len, metrics);
            if found.is_none() {
                metrics.chronos_bucket_fallback_end_of_service = count_up(metrics.chronos_bucket_fallback_end_of_service, 1);
            }
            return found;
        }
        let mut best_trip: Option<usize> = None;
        let mut best_departure: i32 = INF_TIME;
        let ghost start = BestDeparture { trip: None, departure: INF_TIME as int, metrics: binary };
        let ghost goal = best_departure_from(*self, *line, stop_pos as int, ready_at, start_index as int, start);
        let mut place: usize = start_index;
        while place < search_len
            invariant_except_break
                goal == best_departure_from(
                    *self,
                    *line,
                    stop_pos as int,
                    ready_at,
                    place as int,
                    BestDeparture { trip: best_trip, departure: best_departure as int, metrics: *metrics },
                ),
            invariant
                place <= search_len,
                search_len == temporal_len(*line, stop_pos as int),
                self.wf(),
                line_valid(*line, self.data.trips@, self.data.stops@.len() as int),
                stop_pos < line.stop_indices@.len(),
            ensures
                goal == (BestDeparture { trip: best_trip, departure: best_departure as int, metrics: *metrics }),
            decreases search_len - place,
        {
            match line_trip_index_at_temporal_position(line, stop_pos, place) {
                None => {
                    break;
                },
                Some(trip_index) => {
                    proof {
                        temporal_trip_valid(*line, self.data.trips@, self.data.stops@.len() as int, stop_pos as int, place as int);
                    }
                    self.consider_departure(stop_pos, ready_at, trip_index, &mut best_trip, &mut best_departure, metrics);
                },
            }
            place = place + 1;
        }
        if best_trip.is_none() {
            metrics.chronos_bucket_fallback_end_of_service = count_up(metrics.chronos_bucket_fallback_end_of_service, 1);
        }
        best_trip
    }

    fn find_first_departure(&self, line: &LineRecord, stop_pos: usize, ready_at: i32, start_index: usize, search_len: usize, metrics: &mut RoundMetrics) -> (found: Option<usize>)
        requires
            self.wf(),
            line_valid(*line, self.data.trips@, self.data.stops@.len() as int),
            stop_pos < line.stop_indices@.len(),
            search_len == temporal_len(*line, stop_pos as int),
            start_index <= search_len,
        ensures
            (found, *final(metrics)) == first_departure_from(*self, *line, stop_pos as int, ready_at, start_index as int, *old(metrics)),
    {
        let ghost goal = first_departure_from(*self, *line, stop_pos as int, ready_at, start_index as int, *metrics);
        let mut place: usize = start_index;
        while place < search_len
            invariant
                place <= search_len,
                search_len == temporal_len(*line, stop_pos as int),
                self.wf(),
                line_valid(*line, self.data.trips@, self.data.stops@.len() as int),
                stop_pos < line.stop_indices@.len(),
                goal == first_departure_from(*self, *line, stop_pos as int, ready_at, start_index as int, *old(metrics)),
                goal == first_departure_from(*self, *line, stop_pos as int, ready_at, place as int, *metrics),
            decreases search_len - place,
        {
            match line_trip_index_at_temporal_position(line, stop_pos, place) {
                None => {
                    return None;
                },
                Some(trip_index) => {
                    proof {
                        temporal_trip_valid(*line, self.data.trips@, self.data.stops@.len() as int, stop_pos as int, place as int);
                    }
                    metrics.trip_departure_checks = count_up(metrics.trip_departure_checks, 1);
                    if self.trip_is_available[trip_index] {
                        metrics.skipped_stop_checks = count_up(metrics.skipped_stop_checks, 1);
                        assert(line.scheduled_departures_by_stop@[stop_pos as int]@.len() >= temporal_len(*line, stop_pos as int));
                        if !self.realtime.is_stop_skipped(trip_index, stop_pos) && line.scheduled_departures_by_stop[stop_pos][place] >= ready_at {
                            return Some(trip_index);
                        }
                    }
                },
            }
            place = place + 1;
        }
        None
    }
}

proof fn best_from_valid(ctx: SearchContext, line: LineRecord, stop_pos: int, ready_at: i32, place: int, best: BestDeparture)
    requires
        line_valid(line, ctx.data.trips@, ctx.data.stops@.len() as int),
        0 <= stop_pos,
        0 <= place,
        best.trip is Some ==> best.trip->0 < ctx.data.trips@.len() && serves(ctx.data.trips@[best.trip->0 as int], line.stop_indices@),
    ensures
        ({
            let found = best_departure_from(ctx, line, stop_pos, ready_at, place, best).trip;
            found is Some ==> found->0 < ctx.data.trips@.len() && serves(ctx.data.trips@[found->0 as int], line.stop_indices@)
        }),
    decreases temporal_len(line, stop_pos) - place,
{
    if place < temporal_len(line, stop_pos) {
        match temporal_trip(line, stop_pos, place) {
            None => {},
            Some(trip) => {
                temporal_trip_valid(line, ctx.data.trips@, ctx.data.stops@.len() as int, stop_pos, place);
                best_from_valid(ctx, line, stop_pos, ready_at, place + 1, with_departure(ctx, stop_pos, ready_at, trip, best));
            },
        }
    }
}

proof fn best_of_all_valid(ctx: SearchContext, line: LineRecord, stop_pos: int, ready_at: i32, i: int, best: BestDeparture)
    requires
        line_valid(line, ctx.data.trips@, ctx.data.stops@.len() as int),
        0 <= i,
        best.trip is Some ==> best.trip->0 < ctx.data.trips@.len() && serves(ctx.data.trips@[best.trip->0 as int], line.stop_indices@),
    ensures
        ({
            let found = best_departure_of_all(ctx, line, stop_pos, ready_at, i, best).trip;
            found is Some ==> found->0 < ctx.data.trips@.len() && serves(ctx.data.trips@[found->0 as int], line.stop_indices@)
        }),
    decreases line.trip_indices@.len() - i,
{
    if i < line.trip_indices@.len() {
        assert(line.trip_indices@[i] < ctx.data.trips@.len());
        best_of_all_valid(ctx, line, stop_pos, ready_at, i + 1, with_departure(ctx, stop_pos, ready_at, line.trip_indices@[i], best));
    }
}

proof fn first_from_valid(ctx: SearchContext, line: LineRecord, stop_pos: int, ready_at: i32, place: int, m: RoundMetrics)
    requires
        line_valid(line, ctx.data.trips@, ctx.data.stops@.len() as int),
        0 <= stop_pos,
        0 <= place,
    ensures
        ({
            let found = first_departure_from(ctx, line, stop_pos, ready_at, place, m).0;
            found is Some ==> found->0 < ctx.data.trips@.len() && serves(ctx.data.trips@[found->0 as int], line.stop_indices@)
        }),
    decreases temporal_len(line, stop_pos) - place,
{
    if place < temporal_len(line, stop_pos) {
        match temporal_trip(line, stop_pos, place) {
            None => {},
            Some(trip) => {
                temporal_trip_valid(line, ctx.data.trips@, ctx.data.stops@.len() as int, stop_pos, place);
                let checked = RoundMetrics { trip_departure_checks: counted(m.trip_departure_checks, 1), ..m };
                let looked = RoundMetrics { skipped_stop_checks: counted(checked.skipped_stop_checks, 1), ..checked };
                first_from_valid(ctx, line, stop_pos, ready_at, place + 1, checked);
                first_from_valid(ctx, line, stop_pos, ready_at, place + 1, looked);
            },
        }
    }
}

/// A trip that is found is a trip of the line.
pub proof fn earliest_trip_valid(ctx: SearchContext, line: LineRecord, stop_pos: int, ready_at: i32, lookback: i32, m: RoundMetrics)
    requires
        line_valid(line, ctx.data.trips@, ctx.data.stops@.len() as int),
        0 <= stop_pos,
    ensures
        ({
            let found = earliest_trip(ctx, line, stop_pos, ready_at, lookback, m).0;
            found is Some ==> found->0 < ctx.data.trips@.len() && serves(ctx.data.trips@[found->0 as int], line.stop_indices@)
        }),
{
    let begun = search_begun(line, stop_pos, lookback, m);
    let buckets = line.chronos_bucket_start_indices_by_stop@;
    let fallback = RoundMetrics {
        chronos_bucket_fallback_searches: counted(begun.chronos_bucket_fallback_searches, 1),
        chronos_bucket_fallback_non_monotonic: counted(begun.chronos_bucket_fallback_non_monotonic, 1),
        ..begun
    };
    best_of_all_valid(ctx, line, stop_pos, ready_at, 0, BestDeparture { trip: None, departure: INF_TIME as int, metrics: fallback });
    if stop_pos < buckets.len() && buckets[stop_pos]@.len() > 0 {
        let start = chronos_start(buckets[stop_pos]@, ready_at, lookback);
        let binary = RoundMetrics { binary_trip_searches: counted(begun.binary_trip_searches, 1), ..begun };
        first_from_valid(ctx, line, stop_pos, ready_at, start, binary);
        best_from_valid(ctx, line, stop_pos, ready_at, start, BestDeparture { trip: None, departure: INF_TIME as int, metrics: binary });
    }
}

/// A scan under way: the labels, and the trip that is ridden with the position
/// where it was boarded.
pub struct LineScan {
    pub view: SearchView,
    pub current: Option<usize>,
    pub boarded_at: usize,
}

/// A scan after one call: the ride reaches it; then the earliest trip that can
/// be boarded there is taken if it departs before the one ridden.
pub open spec fn after_call(
    scan: LineScan,
    ctx: SearchContext,
    line: LineRecord,
    stop_pos: int,
    destination: int,
    round: int,
    lookback: i32,
    best_before: Seq<i32>,
) -> LineScan {
    let view = match scan.current {
        Some(trip) => after_onboard(scan.view, ctx, line, stop_pos, destination, round, trip, scan.boarded_at),
        None => scan.view,
    };
    let ready_at = best_before[line.stop_indices@[stop_pos] as int];
    if ready_at >= INF_TIME || ready_at >= view.best[destination] {
        let m = view.metrics;
        LineScan {
            view: SearchView { metrics: RoundMetrics { destination_bound_prunes: counted(m.destination_bound_prunes, 1), ..m }, ..view },
            ..scan
        }
    } else {
        let found = earliest_trip(ctx, line, stop_pos, ready_at, lookback, view.metrics);
        match found.0 {
            None => LineScan { view: SearchView { metrics: found.1, ..view }, ..scan },
            Some(candidate) => {
                let looked = departure_counted(ctx, found.1, candidate as int);
                match scan.current {
                    None => LineScan { view: SearchView { metrics: looked, ..view }, current: Some(candidate), boarded_at: stop_pos as usize },
                    Some(active) => {
                        let both = SearchView { metrics: departure_counted(ctx, looked, active as int), ..view };
                        if ctx.departure(candidate as int, stop_pos) < ctx.departure(active as int, stop_pos) {
                            LineScan { view: both, current: Some(candidate), boarded_at: stop_pos as usize }
                        } else {
                            LineScan { view: both, ..scan }
                        }
                    },
                }
            },
        }
    }
}

/// Whether someone waiting at one of the next calls was there before the ridden
/// trip departs, so that an earlier trip might be caught.
pub open spec fn catchup_possible(stop_indices: Seq<usize>, best_before: Seq<i32>, departures: Seq<i32>) -> bool {
    exists|lane: int|
        0 <= lane < stop_indices.len() && lane < departures.len() && #[trigger] ready_time(best_before, stop_indices[lane] as int) < departures[lane]
}

/// When a traveller is ready at a stop; never at one that is not known.
pub open spec fn ready_time(best_before: Seq<i32>, stop: int) -> i32 {
    if stop < best_before.len() { best_before[stop] } else { INF_TIME }
}

/// The labels after a ride has passed the next `n` calls without a change of
/// trips.
pub open spec fn after_ride(
    view: SearchView,
    ctx: SearchContext,
    line: LineRecord,
    stop_pos: int,
    n: int,
    destination: int,
    round: int,
    trip: usize,
    boarded_at: usize,
) -> SearchView
    decreases n,
{
    if n <= 0 {
        view
    } else {
        after_onboard(
            after_ride(view, ctx, line, stop_pos, n - 1, destination, round, trip, boarded_at),
            ctx,
            line,
            stop_pos + n - 1,
            destination,
            round,
            trip,
            boarded_at,
        )
    }
}

/// The scheduled departures of a trip at the next calls.
pub open spec fn departure_chunk(trip: TripRecord, stop_pos: int) -> Seq<i32> {
    Seq::new(SVRT_WIDTH as nat, |lane: int| trip.stop_times@[stop_pos + lane].departure_secs)
}

/// Whether a scan can pass the next calls together: the ridden trip runs by the
/// timetable and nobody waiting there could catch an earlier one.
pub open spec fn can_ride_on(scan: LineScan, ctx: SearchContext, line: LineRecord, stop_pos: int, best_before: Seq<i32>) -> bool {
    &&& scan.current is Some
    &&& line.stop_indices@.len() - stop_pos >= SVRT_WIDTH
    &&& !ctx.may_differ(scan.current->0 as int)
    &&& !catchup_possible(
        line.stop_indices@.subrange(stop_pos, stop_pos + SVRT_WIDTH),
        best_before,
        departure_chunk(ctx.data.trips@[scan.current->0 as int], stop_pos),
    )
}

/// The scan from a call to the end of the line.
pub open spec fn after_line_from(
    scan: LineScan,
    ctx: SearchContext,
    line: LineRecord,
    stop_pos: int,
    destination: int,
    round: int,
    lookback: i32,
    best_before: Seq<i32>,
) -> SearchView
    decreases line.stop_indices@.len() - stop_pos,
{
    if stop_pos >= line.stop_indices@.len() {
        scan.view
    } else if can_ride_on(scan, ctx, line, stop_pos, best_before) {
        let view = after_ride(scan.view, ctx, line, stop_pos, SVRT_WIDTH as int, destination, round, scan.current->0, scan.boarded_at);
        after_line_from(LineScan { view: view, ..scan }, ctx, line, stop_pos + SVRT_WIDTH, destination, round, lookback, best_before)
    } else {
        after_line_from(
            after_call(scan, ctx, line, stop_pos, destination, round, lookback, best_before),
            ctx,
            line,
            stop_pos + 1,
            destination,
            round,
            lookback,
            best_before,
        )
    }
}

/// The labels after the scan of a line from a call on.
pub open spec fn after_line(
    view: SearchView,
    ctx: SearchContext,
    line_index: int,
    start_pos: int,
    destination: int,
    round: int,
    best_before: Seq<i32>,
) -> SearchView {
    let line = ctx.data.lines@[line_index];
    let m = view.metrics;
    let calls = line.stop_indices@.len() - start_pos;
    let begun = RoundMetrics { stop_positions_scanned: counted(m.stop_positions_scanned, if calls > 0 { calls } else { 0 }), ..m };
    after_line_from(
        LineScan { view: SearchView { metrics: begun, ..view }, current: None, boarded_at: 0 },
        ctx,
        line,
        start_pos,
        destination,
        round,
        ctx.line_max_positive_delay_secs@[line_index],
        best_before,
    )
}

/// Whether someone waiting at one of the next calls was there before the ridden
/// trip departs.
pub fn svrt_chunk_has_catchup_candidate_scalar(stop_indices: &[usize], best_before_round: &Vec<i32>, departure_secs: &[i32]) -> (possible: bool)
    ensures
        possible == catchup_possible(stop_indices@, best_before_round@, departure_secs@),
{
    let mut lane: usize = 0;
    while lane < stop_indices.len() && lane < departure_secs.len()
        invariant
            lane <= stop_indices.len(),
            lane <= departure_secs.len(),
            forall|k: int| 0 <= k < lane ==> #[trigger] ready_time(best_before_round@, stop_indices@[k] as int) >= departure_secs@[k],
        decreases stop_indices.len() - lane,
    {
        let stop_index: usize = stop_indices[lane];
        let ready: i32 = if stop_index < best_before_round.len() { best_before_round[stop_index] } else { INF_TIME };
        assert(ready == ready_time(best_before_round@, stop_indices@[lane as int] as int));
        if ready < departure_secs[lane] {
            return true;
        }
        lane = lane + 1;
    }
    false
}

fn scheduled_departure_chunk(trip: &TripRecord, start_pos: usize) -> (departures: Vec<i32>)
    requires
        start_pos + SVRT_WIDTH <= trip.stop_times@.len(),
    ensures
        departures@ == departure_chunk(*trip, start_pos as int),
{
    let mut departures: Vec<i32> = Vec::new();
    let mut lane: usize = 0;
    while lane < SVRT_WIDTH
        invariant
            lane <= SVRT_WIDTH,
            start_pos + SVRT_WIDTH <= trip.stop_times.len(),
            departures.len() == lane,
            forall|k: int| 0 <= k < lane ==> #[trigger] departures[k] == departure_chunk(*trip, start_pos as int)[k],
        decreases SVRT_WIDTH - lane,
    {
        departures.push(trip.stop_times[start_pos + lane].departure_secs);
        lane = lane + 1;
    }
    assert(departures@ =~= departure_chunk(*trip, start_pos as int));
    departures
}

impl<'a> SearchContext<'a> {
    /// Takes a scan over one call of a line.
    pub fn scan_line_scalar_step(
        &self,
        line: &LineRecord,
        stop_pos: usize,
        destination_stop: usize,
        round: usize,
        line_max_positive_delay_secs: i32,
        best_before_round: &Vec<i32>,
        state: &mut SearchState,
        current_trip: &mut Option<usize>,
        boarded_at: &mut usize,
    )
        requires
            self.wf(),
            line_valid(*line, self.data.trips@, self.data.stops@.len() as int),
            stop_pos < line.stop_indices@.len(),
            line_max_positive_delay_secs >= 0,
            old(state)@.wf(old(state)@.best.len() as int, old(state)@.arrivals.len() as int),
            self.data.stops@.len() <= old(state)@.best.len(),
            best_before_round@.len() == old(state)@.best.len(),
            destination_stop < old(state)@.best.len(),
            round < old(state)@.arrivals.len(),
            labels_valid(old(state)@, *self.data),
            *old(boarded_at) <= stop_pos,
            *old(current_trip) is Some ==> (*old(current_trip))->0 < self.data.trips@.len()
                && serves(self.data.trips@[(*old(current_trip))->0 as int], line.stop_indices@),
        ensures
            (LineScan { view: final(state)@, current: *final(current_trip), boarded_at: *final(boarded_at) }) == after_call(
                (LineScan { view: old(state)@, current: *old(current_trip), boarded_at: *old(boarded_at) }),
                *self,
                *line,
                stop_pos as int,
                destination_stop as int,
                round as int,
                line_max_positive_delay_secs,
                best_before_round@,
            ),
            final(state)@.wf(old(state)@.best.len() as int, old(state)@.arrivals.len() as int),
            labels_valid(final(state)@, *self.data),
            final(state)@.origin == old(state)@.origin,
            *final(boarded_at) <= stop_pos,
            *final(current_trip) is Some ==> (*final(current_trip))->0 < self.data.trips@.len()
                && serves(self.data.trips@[(*final(current_trip))->0 as int], line.stop_indices@),
    {
        let ghost stops = state@.best.len() as int;
        let ghost rounds = state@.arrivals.len() as int;
        assert(line.stop_indices@[stop_pos as int] < self.data.stops@.len());
        let stop_index: usize = line.stop_indices[stop_pos];
        match *current_trip {
            Some(trip_index) => {
                self.evaluate_onboard_arrival(line, stop_pos, destination_stop, round, state, trip_index, *boarded_at);
            },
            None => {},
        }
        let ghost ridden = state@;
        let destination_bound: i32 = state.best[destination_stop];
        let ready_at: i32 = best_before_round[stop_index];
        if ready_at >= INF_TIME || ready_at >= destination_bound {
            state.metrics.destination_bound_prunes = count_up(state.metrics.destination_bound_prunes, 1);
            assert(state@ == (SearchView { metrics: state@.metrics, ..ridden }));
            return;
        }
        let mut metrics: RoundMetrics = state.metrics;
        let candidate: Option<usize> = self.find_earliest_trip(line, stop_pos, ready_at, line_max_positive_delay_secs, &mut metrics);
        match candidate {
            Some(candidate_trip) => {
                let candidate_departure: i32 = self.scan_departure_for_trip(candidate_trip, stop_pos, &mut metrics);
                let replace: bool = match *current_trip {
                    Some(active_trip) => {
                        let active_departure: i32 = self.scan_departure_for_trip(active_trip, stop_pos, &mut metrics);
                        candidate_departure < active_departure
                    },
                    None => true,
                };
                if replace {
                    *current_trip = Some(candidate_trip);
                    *boarded_at = stop_pos;
                }
            },
            None => {},
        }
        state.metrics = metrics;
        assert(state@ == (SearchView { metrics: state@.metrics, ..ridden }));
    }

    /// Scans a line from a call to its end.
    pub fn scan_line(
        &self,
        line_index: usize,
        start_pos: usize,
        destination_stop: usize,
        round: usize,
        best_before_round: &Vec<i32>,
        state: &mut SearchState,
    )
        requires
            self.wf(),
            line_index < self.data.lines@.len(),
            self.line_max_positive_delay_secs@[line_index as int] >= 0,
            start_pos < self.data.lines@[line_index as int].stop_indices@.len(),
            old(state)@.wf(old(state)@.best.len() as int, old(state)@.arrivals.len() as int),
            self.data.stops@.len() <= old(state)@.best.len(),
            best_before_round@.len() == old(state)@.best.len(),
            destination_stop < old(state)@.best.len(),
            round < old(state)@.arrivals.len(),
            labels_valid(old(state)@, *self.data),
        ensures
            labels_valid(final(state)@, *self.data),
            final(state)@.origin == old(state)@.origin,
            final(state)@ == after_line(old(state)@, *self, line_index as int, start_pos as int, destination_stop as int, round as int, best_before_round@),
            final(state)@.wf(old(state)@.best.len() as int, old(state)@.arrivals.len() as int),
    {
        let ghost stops = state@.best.len() as int;
        let ghost rounds = state@.arrivals.len() as int;
        let ghost goal = after_line(state@, *self, line_index as int, start_pos as int, destination_stop as int, round as int, best_before_round@);
        let line: &LineRecord = &self.data.lines[line_index];
        assert(line_valid(self.data.lines@[line_index as int], self.data.trips@, self.data.stops@.len() as int));
        let lookback: i32 = self.line_max_positive_delay_secs[line_index];
        let mut current_trip: Option<usize> = None;
        let mut boarded_at: usize = 0;
        state.metrics.stop_positions_scanned = count_up(state.metrics.stop_positions_scanned, line.stop_indices.len() - start_pos);
        assert(state@ == (SearchView { metrics: state@.metrics, ..old(state)@ }));
        let mut stop_pos: usize = start_pos;
        while stop_pos < line.stop_indices.len()
            invariant
                stop_pos <= line.stop_indices.len(),
                *line == self.data.lines@[line_index as int],
                lookback == self.line_max_positive_delay_secs@[line_index as int],
                lookback >= 0,
                self.wf(),
                line_valid(*line, self.data.trips@, self.data.stops@.len() as int),
                start_pos < line.stop_indices@.len(),
                state@.wf(stops, rounds),
                state@.best.len() == stops,
                state@.arrivals.len() == rounds,
                self.data.stops@.len() <= stops,
                best_before_round@.len() == stops,
                destination_stop < stops,
                round < rounds,
                labels_valid(state@, *self.data),
                state@.origin == old(state)@.origin,
                boarded_at <= stop_pos,
                current_trip is Some ==> current_trip->0 < self.data.trips@.len()
                    && serves(self.data.trips@[current_trip->0 as int], line.stop_indices@),
                goal == after_line_from(
                    LineScan { view: state@, current: current_trip, boarded_at: boarded_at },
                    *self,
                    *line,
                    stop_pos as int,
                    destination_stop as int,
                    round as int,
                    lookback,
                    best_before_round@,
                ),
            decreases line.stop_indices.len() - stop_pos,
        {
            let ghost here = LineScan { view: state@, current: current_trip, boarded_at: boarded_at };
            let remaining: usize = line.stop_indices.len() - stop_pos;
            let ride_on: bool = match current_trip {
                Some(trip_index) => {
                    if !self.trip_may_differ(trip_index) && remaining >= SVRT_WIDTH {
                        let departures: Vec<i32> = scheduled_departure_chunk(&self.data.trips[trip_index], stop_pos);
                        !svrt_chunk_has_catchup_candidate_scalar(
                            vstd::slice::slice_subrange(line.stop_indices.as_slice(), stop_pos, stop_pos + SVRT_WIDTH),
                            best_before_round,
                            departures.as_slice(),
                        )
                    } else {
                        false
                    }
                },
                None => false,
            };
            assert(ride_on == can_ride_on(here, *self, *line, stop_pos as int, best_before_round@));
            if ride_on {
                let trip_index: usize = current_trip.unwrap();
                let mut lane: usize = 0;
                while lane < SVRT_WIDTH
                    invariant
                        lane <= SVRT_WIDTH,
                        stop_pos + SVRT_WIDTH <= line.stop_indices.len(),
                        self.wf(),
                        line_valid(*line, self.data.trips@, self.data.stops@.len() as int),
                        state@.wf(stops, rounds),
                        state@.best.len() == stops,
                        state@.arrivals.len() == rounds,
                        self.data.stops@.len() <= stops,
                        destination_stop < stops,
                        round < rounds,
                        labels_valid(state@, *self.data),
                        state@.origin == old(state)@.origin,
                        boarded_at <= stop_pos,
                        trip_index < self.data.trips@.len(),
                        serves(self.data.trips@[trip_index as int], line.stop_indices@),
                        state@ == after_ride(here.view, *self, *line, stop_pos as int, lane as int, destination_stop as int, round as int, trip_index, boarded_at),
                    decreases SVRT_WIDTH - lane,
                {
                    self.evaluate_onboard_arrival(line, stop_pos + lane, destination_stop, round, state, trip_index, boarded_at);
                    lane = lane + 1;
                }
                stop_pos = stop_pos + SVRT_WIDTH;
            } else {
                self.scan_line_scalar_step(line, stop_pos, destination_stop, round, lookback, best_before_round, state, &mut current_trip, &mut boarded_at);
                stop_pos = stop_pos + 1;
            }
        }
    }
}

} // verus!
