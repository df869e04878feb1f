//! Legs of a journey and how a stop was reached.

use crate::model::TripRecord;
use crate::number::Real;
use vstd::prelude::*;

verus! {

/// One leg of a journey: a walk, or a ride on a trip between two of its calls.
#[derive(Clone, Copy, Debug, PartialEq, Eq, Structural)]
pub enum CachedLeg {
    Walk {
        from_stop: usize,
        to_stop: usize,
        departure_secs: i32,
        arrival_secs: i32,
        duration_secs: i32,
        distance_meters: Real,
    },
    Transit {
        trip_index: usize,
        board_stop: usize,
        board_pos: usize,
        alight_stop: usize,
        alight_pos: usize,
        departure_secs: i32,
        arrival_secs: i32,
    },
}

/// How a stop was reached in a round.
#[derive(Clone, Debug)]
pub enum ParentStep {
    Origin,
    Walk { from_stop: usize, duration_secs: i32, distance_meters: Real },
    Transit { trip_index: usize, board_stop: usize, board_pos: usize, alight_stop: usize, alight_pos: usize },
    Memoized { from_stop: usize, source_round: usize, legs: Vec<CachedLeg> },
}

/// How a stop was reached in a round, with the remembered legs as a sequence.
pub enum ParentView {
    Origin,
    Walk { from_stop: usize, duration_secs: i32, distance_meters: Real },
    Transit { trip_index: usize, board_stop: usize, board_pos: usize, alight_stop: usize, alight_pos: usize },
    Memoized { from_stop: usize, source_round: usize, legs: Seq<CachedLeg> },
}

impl ParentStep {
    /// The step with the remembered legs as a sequence.
    pub open spec fn view(&self) -> ParentView {
        match *self {
            ParentStep::Origin => ParentView::Origin,
            ParentStep::Walk { from_stop, duration_secs, distance_meters } => ParentView::Walk { from_stop, duration_secs, distance_meters },
            ParentStep::Transit { trip_index, board_stop, board_pos, alight_stop, alight_pos } => ParentView::Transit {
                trip_index,
                board_stop,
                board_pos,
                alight_stop,
                alight_pos,
            },
            ParentStep::Memoized { from_stop, source_round, legs } => ParentView::Memoized { from_stop, source_round, legs: legs@ },
        }
    }
}

impl CachedLeg {
    /// Whether the leg is a ride.
    pub open spec fn is_transit(self) -> bool {
        self is Transit
    }

    /// The stop where the leg begins.
    pub open spec fn source(self) -> usize {
        match self {
            CachedLeg::Walk { from_stop, .. } => from_stop,
            CachedLeg::Transit { board_stop, .. } => board_stop,
        }
    }

    /// The stop where the leg ends.
    pub open spec fn target(self) -> usize {
        match self {
            CachedLeg::Walk { to_stop, .. } => to_stop,
            CachedLeg::Transit { alight_stop, .. } => alight_stop,
        }
    }

    /// When the leg begins.
    pub open spec fn departure(self) -> i32 {
        match self {
            CachedLeg::Walk { departure_secs, .. } => departure_secs,
            CachedLeg::Transit { departure_secs, .. } => departure_secs,
        }
    }

    /// When the leg ends.
    pub open spec fn arrival(self) -> i32 {
        match self {
            CachedLeg::Walk { arrival_secs, .. } => arrival_secs,
            CachedLeg::Transit { arrival_secs, .. } => arrival_secs,
        }
    }

    /// The trip that is ridden.
    pub open spec fn trip(self) -> Option<usize> {
        match self {
            CachedLeg::Walk { .. } => None,
            CachedLeg::Transit { trip_index, .. } => Some(trip_index),
        }
    }

    /// The stop where the leg begins.
    pub fn source_stop(&self) -> (stop: usize)
        ensures
            stop == self.source(),
    {
        match self {
            CachedLeg::Walk { from_stop, .. } => *from_stop,
            CachedLeg::Transit { board_stop, .. } => *board_stop,
        }
    }

    /// When the leg begins.
    pub fn departure_secs(&self) -> (secs: i32)
        ensures
            secs == self.departure(),
    {
        match self {
            CachedLeg::Walk { departure_secs, .. } => *departure_secs,
            CachedLeg::Transit { departure_secs, .. } => *departure_secs,
        }
    }

    /// When the leg ends.
    pub fn arrival_secs(&self) -> (secs: i32)
        ensures
            secs == self.arrival(),
    {
        match self {
            CachedLeg::Walk { arrival_secs, .. } => *arrival_secs,
            CachedLeg::Transit { arrival_secs, .. } => *arrival_secs,
        }
    }

    /// The trip that is ridden.
    pub fn trip_index(&self) -> (trip: Option<usize>)
        ensures
            trip == self.trip(),
    {
        match self {
            CachedLeg::Walk { .. } => None,
            CachedLeg::Transit { trip_index, .. } => Some(*trip_index),
        }
    }
}

/// Whether a ride is on a trip of the timetable, from a call of it at one stop to
/// a call at another that is no earlier.
pub open spec fn ride_valid(trips: Seq<TripRecord>, trip: int, board_stop: usize, board_pos: usize, alight_stop: usize, alight_pos: usize) -> bool {
    &&& trip < trips.len()
    &&& board_pos <= alight_pos < trips[trip].stop_times@.len()
    &&& trips[trip].stop_times@[board_pos as int].stop_index == board_stop
    &&& trips[trip].stop_times@[alight_pos as int].stop_index == alight_stop
}

/// Whether a leg is between known stops, and a ride on calls of a trip of the
/// timetable.
pub open spec fn leg_valid(leg: CachedLeg, trips: Seq<TripRecord>, stops: int) -> bool {
    match leg {
        CachedLeg::Walk { from_stop, to_stop, .. } => from_stop < stops && to_stop < stops,
        CachedLeg::Transit { trip_index, board_stop, board_pos, alight_stop, alight_pos, .. } => ride_valid(
            trips,
            trip_index as int,
            board_stop,
            board_pos,
            alight_stop,
            alight_pos,
        ) && board_stop < stops && alight_stop < stops,
    }
}

/// Whether every leg is valid.
pub open spec fn legs_valid(legs: Seq<CachedLeg>, trips: Seq<TripRecord>, stops: int) -> bool {
    forall|i: int| 0 <= i < legs.len() ==> leg_valid(#[trigger] legs[i], trips, stops)
}

/// Whether each leg begins where the one before it ends, at a stop of the
/// timetable.
pub open spec fn legs_join(legs: Seq<CachedLeg>, statics: int) -> bool {
    forall|i: int| 0 < i < legs.len() ==> legs[i - 1].target() == (#[trigger] legs[i]).source() && legs[i].source() < statics
}

/// Whether legs lead from one place to another without a gap.
pub open spec fn legs_lead(legs: Seq<CachedLeg>, from: int, to: int, statics: int) -> bool {
    &&& legs_join(legs, statics)
    &&& if legs.len() == 0 { from == to } else { legs[0].source() == from && legs.last().target() == to }
}

/// Whether there are legs, and the last of them ends at a time.
pub open spec fn legs_arrive(legs: Seq<CachedLeg>, time: int) -> bool {
    legs.len() > 0 && legs.last().arrival() == time
}

/// Legs that lead to a stop of the timetable, and legs that lead on from it.
pub proof fn leading_on(a: Seq<CachedLeg>, b: Seq<CachedLeg>, from: int, over: int, to: int, statics: int)
    requires
        legs_lead(a, from, over, statics),
        legs_lead(b, over, to, statics),
        over < statics || a.len() == 0 || b.len() == 0,
    ensures
        legs_lead(a + b, from, to, statics),
{
    let both = a + b;
    assert forall|i: int| 0 < i < both.len() implies both[i - 1].target() == (#[trigger] both[i]).source() && both[i].source() < statics by {
        if i < a.len() {
            assert(both[i] == a[i] && both[i - 1] == a[i - 1]);
        } else if i > a.len() {
            assert(both[i] == b[i - a.len()] && both[i - 1] == b[i - a.len() - 1]);
        } else {
            assert(both[i] == b[0] && both[i - 1] == a.last());
        }
    }
    if both.len() > 0 {
        assert(both[0] == if a.len() > 0 { a[0] } else { b[0] });
        assert(both.last() == if b.len() > 0 { b.last() } else { a.last() });
    }
}

/// What is left of legs behind one of them leads on from where that ends.
pub proof fn rest_leads(legs: Seq<CachedLeg>, from: int, to: int, k: int, statics: int)
    requires
        legs_lead(legs, from, to, statics),
        0 <= k < legs.len(),
    ensures
        legs_lead(legs.skip(k + 1), legs[k].target() as int, to, statics),
        legs_lead(legs.skip(k), legs[k].source() as int, to, statics),
{
    assert forall|from_leg: int| 0 <= from_leg <= legs.len() implies #[trigger] legs_join(legs.skip(from_leg), statics) by {
        let rest = legs.skip(from_leg);
        assert forall|i: int| 0 < i < rest.len() implies rest[i - 1].target() == (#[trigger] rest[i]).source() && rest[i].source() < statics by {
            assert(rest[i] == legs[from_leg + i]);
            assert(rest[i - 1] == legs[from_leg + i - 1]);
        }
    }
    assert(legs_join(legs.skip(k + 1), statics));
    assert(legs_join(legs.skip(k), statics));
    if k + 1 < legs.len() {
        assert(legs[k + 1].source() == legs[k].target());
        assert(legs.skip(k + 1).last() == legs.last());
    }
    assert(legs.skip(k).last() == legs.last());
}

/// Legs from one of them up to another lead to where that begins.
pub proof fn part_leads(legs: Seq<CachedLeg>, a: int, b: int, statics: int)
    requires
        legs_join(legs, statics),
        0 <= a <= b < legs.len(),
    ensures
        legs_lead(legs.subrange(a, b), legs[a].source() as int, legs[b].source() as int, statics),
{
    let part = legs.subrange(a, b);
    assert forall|i: int| 0 < i < part.len() implies part[i - 1].target() == (#[trigger] part[i]).source() && part[i].source() < statics by {
        assert(part[i] == legs[a + i]);
        assert(part[i - 1] == legs[a + i - 1]);
    }
    if a < b {
        assert(part.last() == legs[b - 1]);
        assert(legs[b].source() == legs[b - 1].target());
    }
}

/// Number of rides among the legs.
pub open spec fn ride_count(legs: Seq<CachedLeg>) -> nat
    decreases legs.len(),
{
    if legs.len() == 0 {
        0
    } else {
        ride_count(legs.drop_last()) + (if legs.last().is_transit() { 1nat } else { 0nat })
    }
}

/// There are no more rides than legs.
pub proof fn ride_count_bounded(legs: Seq<CachedLeg>)
    ensures
        ride_count(legs) <= legs.len(),
    decreases legs.len(),
{
    if legs.len() > 0 {
        ride_count_bounded(legs.drop_last());
    }
}

/// Counts the rides among the legs.
pub fn count_rides(legs: &Vec<CachedLeg>) -> (count: usize)
    ensures
        count == ride_count(legs@),
{
    let mut count: usize = 0;
    let mut i: usize = 0;
    while i < legs.len()
        invariant
            i <= legs.len(),
            count <= i,
            count == ride_count(legs@.take(i as int)),
        decreases legs.len() - i,
    {
        assert(legs@.take(i + 1).drop_last() =~= legs@.take(i as int));
        match legs[i] {
            CachedLeg::Transit { .. } => {
                count = count + 1;
            },
            CachedLeg::Walk { .. } => {},
        }
        i = i + 1;
    }
    assert(legs@.take(i as int) =~= legs@);
    count
}

/// The legs from `from` on, copied.
pub fn copy_legs(legs: &Vec<CachedLeg>, from: usize) -> (copy: Vec<CachedLeg>)
    requires
        from <= legs.len(),
    ensures
        copy@ == legs@.skip(from as int),
{
    let mut copy: Vec<CachedLeg> = Vec::new();
    let mut i: usize = from;
    while i < legs.len()
        invariant
            from <= i <= legs.len(),
            copy@ == legs@.subrange(from as int, i as int),
        decreases legs.len() - i,
    {
        copy.push(legs[i]);
        i = i + 1;
        assert(copy@ =~= legs@.subrange(from as int, i as int));
    }
    assert(copy@ =~= legs@.skip(from as int));
    copy
}

/// The legs of one journey after those of another.
pub fn combine_cached_leg_sequences(left: &Vec<CachedLeg>, right: &Vec<CachedLeg>) -> (combined: Vec<CachedLeg>)
    ensures
        combined@ == left@ + right@,
{
    let mut combined: Vec<CachedLeg> = copy_legs(left, 0);
    assert(combined@ =~= left@);
    let mut i: usize = 0;
    while i < right.len()
        invariant
            i <= right.len(),
            combined@ == left@ + right@.take(i as int),
        decreases right.len() - i,
    {
        combined.push(right[i]);
        i = i + 1;
        assert(combined@ =~= left@ + right@.take(i as int));
    }
    assert(right@.take(i as int) =~= right@);
    combined
}

} // verus!
