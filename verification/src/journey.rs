//! Reading a journey back from the labels of a search.

use crate::leg::{leading_on, legs_arrive, legs_lead, legs_valid, CachedLeg, ParentStep, ParentView};
use crate::model::{saturated_sum, saturating_difference};
use crate::realtime::departure_with_delay;
use crate::search::{labels_valid, parent_valid, parent_view, SearchContext, SearchState, SearchView};
use vstd::prelude::*;

verus! {

/// Why no journey could be read back.
#[derive(Clone, Copy, Debug, PartialEq, Eq, Structural)]
pub enum PathError {
    /// A stop on the way back was never reached in the round that needs it.
    Unreached(usize),
    /// The way back is longer than there are labels, so it goes in circles.
    Circular,
}

/// What the way back from a label gives: the legs in travel order, or why there
/// are none.
pub enum PathBack {
    Legs(Seq<CachedLeg>),
    Failed(PathError),
}

/// A way back with more legs at its end.
pub open spec fn then_legs(path: PathBack, legs: Seq<CachedLeg>) -> PathBack {
    match path {
        PathBack::Legs(before) => PathBack::Legs(before + legs),
        PathBack::Failed(error) => PathBack::Failed(error),
    }
}

/// The legs of the way back from a stop in a round to the origin, of at most
/// `steps` steps.
pub open spec fn path_back(view: SearchView, ctx: SearchContext, origin: int, stop: int, round: int, steps: nat) -> PathBack
    decreases steps,
{
    if stop == origin && round == 0 {
        PathBack::Legs(Seq::empty())
    } else if steps == 0 {
        PathBack::Failed(PathError::Circular)
    } else {
        match view.parents[round][stop] {
            None => PathBack::Failed(PathError::Unreached(stop as usize)),
            Some(parent) => match parent {
                ParentView::Origin => PathBack::Legs(Seq::empty()),
                ParentView::Walk { from_stop, duration_secs, distance_meters } => {
                    let arrival = view.arrivals[round][stop];
                    let leg = CachedLeg::Walk {
                        from_stop: from_stop,
                        to_stop: stop as usize,
                        departure_secs: saturated_sum(arrival as int, -(duration_secs as int)) as i32,
                        arrival_secs: arrival,
                        duration_secs: duration_secs,
                        distance_meters: distance_meters,
                    };
                    then_legs(path_back(view, ctx, origin, from_stop as int, round, (steps - 1) as nat), seq![leg])
                },
                ParentView::Transit { trip_index, board_stop, board_pos, alight_stop, alight_pos } => {
                    let leg = CachedLeg::Transit {
                        trip_index: trip_index,
                        board_stop: board_stop,
                        board_pos: board_pos,
                        alight_stop: alight_stop,
                        alight_pos: alight_pos,
                        departure_secs: departure_with_delay(ctx.realtime@, ctx.data.trips@, trip_index as int, board_pos as int) as i32,
                        arrival_secs: view.arrivals[round][alight_stop as int],
                    };
                    then_legs(path_back(view, ctx, origin, board_stop as int, if round > 0 { round - 1 } else { 0 }, (steps - 1) as nat), seq![leg])
                },
                ParentView::Memoized { from_stop, source_round, legs } => then_legs(
                    path_back(view, ctx, origin, from_stop as int, source_round as int, (steps - 1) as nat),
                    legs,
                ),
            },
        }
    }
}

/// The most steps that a way back can take without going in circles.
pub open spec fn label_count(view: SearchView) -> nat {
    (view.arrivals.len() * view.best.len()) as nat
}

/// The journey to a stop in a round.
pub open spec fn journey_to(view: SearchView, ctx: SearchContext, origin: int, destination: int, round: int) -> PathBack {
    path_back(view, ctx, origin, destination, round, label_count(view))
}

/// Legs in the opposite order.
pub open spec fn reversed(legs: Seq<CachedLeg>) -> Seq<CachedLeg> {
    Seq::new(legs.len(), |i: int| legs[legs.len() - 1 - i])
}

fn reverse_legs(legs: &Vec<CachedLeg>) -> (result: Vec<CachedLeg>)
    ensures
        result@ == reversed(legs@),
{
    let mut result: Vec<CachedLeg> = Vec::new();
    let mut i: usize = legs.len();
    while i > 0
        invariant
            i <= legs.len(),
            result@.len() == legs.len() - i,
            forall|k: int| 0 <= k < result@.len() ==> #[trigger] result@[k] == legs@[legs.len() - 1 - k],
        decreases i,
    {
        i = i - 1;
        result.push(legs[i]);
    }
    assert(result@ =~= reversed(legs@));
    result
}

impl<'a> SearchContext<'a> {
    /// Reads the journey to a stop in a round back from the labels.
    pub fn reconstruct_path(&self, from_index: usize, to_index: usize, destination_round: usize, state: &SearchState) -> (result: Result<Vec<CachedLeg>, PathError>)
        requires
            self.wf(),
            state@.wf(state@.best.len() as int, state@.arrivals.len() as int),
            labels_valid(state@, *self.data),
            to_index < state@.best.len(),
            destination_round < state@.arrivals.len(),
            label_count(state@) <= usize::MAX,
        ensures
            match result {
                Ok(legs) => journey_to(state@, *self, from_index as int, to_index as int, destination_round as int) == PathBack::Legs(legs@),
                Err(error) => journey_to(state@, *self, from_index as int, to_index as int, destination_round as int) == PathBack::Failed(error),
            },
    {
        let ghost view = state@;
        let stop_count: usize = state.best.len();
        let ghost rounds = state@.arrivals.len();
        let limit: usize = state.arrivals.len() * stop_count;
        let ghost goal = journey_to(view, *self, from_index as int, to_index as int, destination_round as int);
        let mut backward: Vec<CachedLeg> = Vec::new();
        let mut stop: usize = to_index;
        let mut round: usize = destination_round;
        let mut steps: usize = limit;
        assert(reversed(backward@) =~= Seq::<CachedLeg>::empty());
        proof {
            then_nothing(path_back(view, *self, from_index as int, stop as int, round as int, steps as nat));
        }
        loop
            invariant
                self.wf(),
                view == state@,
                view.wf(stop_count as int, rounds as int),
                view.best.len() == stop_count,
                view.arrivals.len() == rounds,
                labels_valid(view, *self.data),
                stop < stop_count,
                round < rounds,
                goal == journey_to(view, *self, from_index as int, to_index as int, destination_round as int),
                goal == then_legs(path_back(view, *self, from_index as int, stop as int, round as int, steps as nat), reversed(backward@)),
            decreases steps,
        {
            if stop == from_index && round == 0 {
                let legs: Vec<CachedLeg> = reverse_legs(&backward);
                assert(Seq::<CachedLeg>::empty() + legs@ =~= legs@);
                return Ok(legs);
            }
            if steps == 0 {
                return Err(PathError::Circular);
            }
            assert(view.parents[round as int].len() == stop_count);
            assert(view.arrivals[round as int].len() == stop_count);
            let ghost known = view.parents[round as int][stop as int];
            assert(known == parent_view(state.parents@[round as int]@[stop as int]));
            let parent: &ParentStep = match &state.parents[round][stop] {
                None => {
                    return Err(PathError::Unreached(stop));
                },
                Some(parent) => parent,
            };
            assert(known == Some(parent@));
            assert(parent_valid(parent@, *self.data, stop_count as int, rounds as int, view.origin, stop as int, view.arrivals[round as int][stop as int]));
            proof {
                reveal(parent_valid);
            }
            let ghost before = backward@;
            match parent {
                ParentStep::Origin => {
                    let legs: Vec<CachedLeg> = reverse_legs(&backward);
                    assert(Seq::<CachedLeg>::empty() + legs@ =~= legs@);
                    return Ok(legs);
                },
                ParentStep::Walk { from_stop, duration_secs, distance_meters } => {
                    let arrival: i32 = state.arrivals[round][stop];
                    let leg: CachedLeg = CachedLeg::Walk {
                        from_stop: *from_stop,
                        to_stop: stop,
                        departure_secs: saturating_difference(arrival, *duration_secs),
                        arrival_secs: arrival,
                        duration_secs: *duration_secs,
                        distance_meters: *distance_meters,
                    };
                    backward.push(leg);
                    proof {
                        push_reversed(path_back(view, *self, from_index as int, *from_stop as int, round as int, (steps - 1) as nat), before, leg);
                    }
                    stop = *from_stop;
                },
                ParentStep::Transit { trip_index, board_stop, board_pos, alight_stop, alight_pos } => {
                    assert(crate::realtime::trip_calls_valid(self.data.trips@[*trip_index as int], self.data.stops@.len() as int));
                    let departure: i32 = self.realtime.actual_departure(&self.data.trips, *trip_index, *board_pos);
                    let leg: CachedLeg = CachedLeg::Transit {
                        trip_index: *trip_index,
                        board_stop: *board_stop,
                        board_pos: *board_pos,
                        alight_stop: *alight_stop,
                        alight_pos: *alight_pos,
                        departure_secs: departure,
                        arrival_secs: state.arrivals[round][*alight_stop],
                    };
                    backward.push(leg);
                    let next: usize = if round > 0 { round - 1 } else { 0 };
                    proof {
                        push_reversed(path_back(view, *self, from_index as int, *board_stop as int, next as int, (steps - 1) as nat), before, leg);
                    }
                    stop = *board_stop;
                    round = next;
                },
                ParentStep::Memoized { from_stop, source_round, legs } => {
                    let mut i: usize = legs.len();
                    assert(reversed(backward@) =~= legs@.skip(i as int) + reversed(before));
                    while i > 0
                        invariant
                            i <= legs.len(),
                            reversed(backward@) == legs@.skip(i as int) + reversed(before),
                        decreases i,
                    {
                        i = i - 1;
                        let ghost shorter = backward@;
                        backward.push(legs[i]);
                        assert(reversed(backward@) =~= seq![legs@[i as int]] + reversed(shorter));
                        assert(reversed(backward@) =~= legs@.skip(i as int) + reversed(before));
                    }
                    proof {
                        assert(legs@.skip(0) =~= legs@);
                        let rest = path_back(view, *self, from_index as int, *from_stop as int, *source_round as int, (steps - 1) as nat);
                        regroup(rest, legs@, reversed(before));
                    }
                    stop = *from_stop;
                    round = *source_round;
                },
            }
            steps = steps - 1;
        }
    }
}

proof fn then_nothing(path: PathBack)
    ensures
        then_legs(path, Seq::empty()) == path,
{
    match path {
        PathBack::Legs(legs) => {
            assert(legs + Seq::<CachedLeg>::empty() =~= legs);
        },
        PathBack::Failed(_) => {},
    }
}

proof fn regroup(path: PathBack, a: Seq<CachedLeg>, b: Seq<CachedLeg>)
    ensures
        then_legs(then_legs(path, a), b) == then_legs(path, a + b),
{
    match path {
        PathBack::Legs(legs) => {
            assert((legs + a) + b =~= legs + (a + b));
        },
        PathBack::Failed(_) => {},
    }
}

proof fn push_reversed(path: PathBack, before: Seq<CachedLeg>, leg: CachedLeg)
    ensures
        then_legs(then_legs(path, seq![leg]), reversed(before)) == then_legs(path, reversed(before.push(leg))),
{
    assert(reversed(before.push(leg)) =~= seq![leg] + reversed(before));
    regroup(path, seq![leg], reversed(before));
}

/// A journey that is read back is one: its rides are on calls of trips of the
/// timetable, each leg begins where the one before it ended, the first at the
/// origin, and the last ends at the stop when the label says.
pub proof fn journeys_have_no_gap(view: SearchView, ctx: SearchContext, origin: int, stop: int, round: int, steps: nat)
    requires
        view.wf(view.best.len() as int, view.arrivals.len() as int),
        labels_valid(view, *ctx.data),
        0 <= stop < view.best.len(),
        view.best.len() <= usize::MAX,
        0 <= round < view.arrivals.len(),
        origin == view.origin,
    ensures
        match path_back(view, ctx, origin, stop, round, steps) {
            PathBack::Legs(legs) => {
                &&& legs_valid(legs, ctx.data.trips@, view.best.len() as int)
                &&& legs_lead(legs, origin, stop, ctx.data.stops@.len() as int)
                &&& stop == origin && stop >= ctx.data.stops@.len() ==> legs.len() == 0
                &&& legs.len() > 0 ==> legs_arrive(legs, view.arrivals[round][stop] as int)
            },
            PathBack::Failed(_) => true,
        },
    decreases steps,
{
    let statics = ctx.data.stops@.len() as int;
    if !(stop == origin && round == 0) && steps > 0 {
        match view.parents[round][stop] {
            None => {},
            Some(parent) => {
                assert(parent_valid(parent, *ctx.data, view.best.len() as int, view.arrivals.len() as int, view.origin, stop, view.arrivals[round][stop]));
                reveal(parent_valid);
                match parent {
                    ParentView::Origin => {},
                    ParentView::Walk { from_stop, duration_secs, distance_meters } => {
                        journeys_have_no_gap(view, ctx, origin, from_stop as int, round, (steps - 1) as nat);
                        let arrival = view.arrivals[round][stop];
                        let leg = CachedLeg::Walk {
                            from_stop: from_stop,
                            to_stop: stop as usize,
                            departure_secs: saturated_sum(arrival as int, -(duration_secs as int)) as i32,
                            arrival_secs: arrival,
                            duration_secs: duration_secs,
                            distance_meters: distance_meters,
                        };
                        match path_back(view, ctx, origin, from_stop as int, round, (steps - 1) as nat) {
                            PathBack::Legs(before) => leading_on(before, seq![leg], origin, from_stop as int, stop, statics),
                            PathBack::Failed(_) => {},
                        }
                    },
                    ParentView::Transit { trip_index, board_stop, board_pos, alight_stop, alight_pos } => {
                        let earlier = if round > 0 { round - 1 } else { 0 };
                        journeys_have_no_gap(view, ctx, origin, board_stop as int, earlier, (steps - 1) as nat);
                        let leg = CachedLeg::Transit {
                            trip_index: trip_index,
                            board_stop: board_stop,
                            board_pos: board_pos,
                            alight_stop: alight_stop,
                            alight_pos: alight_pos,
                            departure_secs: departure_with_delay(ctx.realtime@, ctx.data.trips@, trip_index as int, board_pos as int) as i32,
                            arrival_secs: view.arrivals[round][alight_stop as int],
                        };
                        match path_back(view, ctx, origin, board_stop as int, earlier, (steps - 1) as nat) {
                            PathBack::Legs(before) => leading_on(before, seq![leg], origin, board_stop as int, stop, statics),
                            PathBack::Failed(_) => {},
                        }
                    },
                    ParentView::Memoized { from_stop, source_round, legs } => {
                        journeys_have_no_gap(view, ctx, origin, from_stop as int, source_round as int, (steps - 1) as nat);
                        match path_back(view, ctx, origin, from_stop as int, source_round as int, (steps - 1) as nat) {
                            PathBack::Legs(before) => leading_on(before, legs, origin, from_stop as int, stop, statics),
                            PathBack::Failed(_) => {},
                        }
                    },
                }
            },
        }
    }
}

} // verus!
