//! The journeys that a query offers.

use crate::journey::{journey_to, label_count, journeys_have_no_gap, PathBack, PathError};
use crate::leg::{copy_legs, count_rides, legs_arrive, legs_lead, legs_valid, ride_count, CachedLeg};
use crate::model::INF_TIME;
use crate::order::{arranged, is_stable_order, stable_order, stable_order_covers, stable_order_exists, stable_order_of, OrderKey};
use crate::search::{labels_valid, parent_view, SearchContext, SearchState, SearchView};
use vstd::prelude::*;

verus! {

/// A journey that a round found.
#[derive(Clone, Debug)]
pub struct QueryItineraryCandidate {
    pub round: usize,
    pub arrival_secs: i32,
    pub transit_legs: usize,
    pub raw_legs: Vec<CachedLeg>,
}

/// A journey that a round found, with its legs as a sequence.
pub struct CandidateView {
    pub round: usize,
    pub arrival_secs: i32,
    pub transit_legs: usize,
    pub raw_legs: Seq<CachedLeg>,
}

impl QueryItineraryCandidate {
    /// The journey with its legs as a sequence.
    pub open spec fn view(&self) -> CandidateView {
        CandidateView { round: self.round, arrival_secs: self.arrival_secs, transit_legs: self.transit_legs, raw_legs: self.raw_legs@ }
    }
}

/// Journeys with their legs as sequences.
pub open spec fn candidates_view(candidates: Seq<QueryItineraryCandidate>) -> Seq<CandidateView> {
    Seq::new(candidates.len(), |i: int| candidates[i]@)
}

/// Whether two legs look the same to a traveller: the same walk, or the same
/// ride, at the same times.
pub open spec fn same_leg(a: CachedLeg, b: CachedLeg) -> bool {
    match (a, b) {
        (
            CachedLeg::Walk { from_stop: f, to_stop: t, departure_secs: d, arrival_secs: r, .. },
            CachedLeg::Walk { from_stop, to_stop, departure_secs, arrival_secs, .. },
        ) => f == from_stop && t == to_stop && d == departure_secs && r == arrival_secs,
        (
            CachedLeg::Transit { trip_index: i, board_stop: f, alight_stop: t, departure_secs: d, arrival_secs: r, .. },
            CachedLeg::Transit { trip_index, board_stop, alight_stop, departure_secs, arrival_secs, .. },
        ) => i == trip_index && f == board_stop && t == alight_stop && d == departure_secs && r == arrival_secs,
        _ => false,
    }
}

/// Whether two journeys look the same leg by leg.
pub open spec fn same_journey(a: Seq<CachedLeg>, b: Seq<CachedLeg>) -> bool {
    a.len() == b.len() && forall|i: int| 0 <= i < a.len() ==> same_leg(#[trigger] a[i], b[i])
}

/// Whether a journey looks like one of those listed.
pub open spec fn is_listed(listed: Seq<CandidateView>, legs: Seq<CachedLeg>) -> bool {
    exists|i: int| 0 <= i < listed.len() && same_journey((#[trigger] listed[i]).raw_legs, legs)
}

/// The journeys of the first `n` rounds that reached the destination, each once;
/// or why one could not be read back.
pub open spec fn journeys_of_rounds(view: SearchView, ctx: SearchContext, origin: int, destination: int, n: int) -> Result<Seq<CandidateView>, PathError>
    decreases n,
{
    if n <= 0 {
        Ok(Seq::empty())
    } else {
        match journeys_of_rounds(view, ctx, origin, destination, n - 1) {
            Err(error) => Err(error),
            Ok(listed) => {
                let round = n - 1;
                if view.arrivals[round][destination] >= INF_TIME || view.parents[round][destination] is None {
                    Ok(listed)
                } else {
                    match journey_to(view, ctx, origin, destination, round) {
                        PathBack::Failed(error) => Err(error),
                        PathBack::Legs(legs) => if is_listed(listed, legs) {
                            Ok(listed)
                        } else {
                            Ok(
                                listed.push(
                                    CandidateView {
                                        round: round as usize,
                                        arrival_secs: view.arrivals[round][destination],
                                        transit_legs: ride_count(legs) as usize,
                                        raw_legs: legs,
                                    },
                                ),
                            )
                        },
                    }
                }
            },
        }
    }
}

/// Sort key of a journey: arrival, rides, round.
pub open spec fn arrival_key(candidate: CandidateView) -> OrderKey {
    (candidate.arrival_secs as i128, candidate.transit_legs as i128, candidate.round as i128)
}

/// Sort keys of journeys.
pub open spec fn arrival_keys(candidates: Seq<CandidateView>) -> Seq<OrderKey> {
    Seq::new(candidates.len(), |i: int| arrival_key(candidates[i]))
}

/// Number of changes between vehicles.
pub open spec fn changes(candidate: CandidateView) -> int {
    if candidate.transit_legs > 0 { candidate.transit_legs - 1 } else { 0 }
}

/// Whether a journey has fewer changes than another; with as many, whether it
/// arrives earlier; then whether its round is earlier.
pub open spec fn fewer_changes(a: CandidateView, b: CandidateView) -> bool {
    ||| changes(a) < changes(b)
    ||| changes(a) == changes(b) && a.arrival_secs < b.arrival_secs
    ||| changes(a) == changes(b) && a.arrival_secs == b.arrival_secs && a.round < b.round
}

/// The place of the journey with the fewest changes among the first `n`.
pub open spec fn fewest_changes(candidates: Seq<CandidateView>, n: int) -> int
    decreases n,
{
    if n <= 1 {
        0
    } else {
        let best = fewest_changes(candidates, n - 1);
        if fewer_changes(candidates[n - 1], candidates[best]) { n - 1 } else { best }
    }
}

/// Sorted journeys with the one of fewest changes in the second place, where it
/// is not the first already.
pub open spec fn with_fewest_second(sorted: Seq<CandidateView>) -> Seq<CandidateView> {
    let fewest = fewest_changes(sorted, sorted.len() as int);
    if fewest <= 0 || fewest >= sorted.len() {
        sorted
    } else {
        seq![sorted[0], sorted[fewest]] + sorted.subrange(1, fewest) + sorted.subrange(fewest + 1, sorted.len() as int)
    }
}

/// The journeys offered: the earliest arrival first, then the fewest changes,
/// then the others by arrival; at most so many, and at least one.
pub open spec fn offered(found: Seq<CandidateView>, limit: usize) -> Seq<CandidateView> {
    let sorted = arranged(found, stable_order_of(arrival_keys(found)));
    let all = with_fewest_second(sorted);
    let most = if limit > 1 { limit as int } else { 1 };
    if all.len() > most { all.take(most) } else { all }
}

fn legs_look_same(a: &CachedLeg, b: &CachedLeg) -> (same: bool)
    ensures
        same == same_leg(*a, *b),
{
    match (*a, *b) {
        (
            CachedLeg::Walk { from_stop: f, to_stop: t, departure_secs: d, arrival_secs: r, .. },
            CachedLeg::Walk { from_stop, to_stop, departure_secs, arrival_secs, .. },
        ) => f == from_stop && t == to_stop && d == departure_secs && r == arrival_secs,
        (
            CachedLeg::Transit { trip_index: i, board_stop: f, alight_stop: t, departure_secs: d, arrival_secs: r, .. },
            CachedLeg::Transit { trip_index, board_stop, alight_stop, departure_secs, arrival_secs, .. },
        ) => i == trip_index && f == board_stop && t == alight_stop && d == departure_secs && r == arrival_secs,
        _ => false,
    }
}

fn journeys_look_same(a: &Vec<CachedLeg>, b: &Vec<CachedLeg>) -> (same: bool)
    ensures
        same == same_journey(a@, b@),
{
    if a.len() != b.len() {
        return false;
    }
    let mut i: usize = 0;
    while i < a.len()
        invariant
            i <= a.len(),
            a@.len() == b@.len(),
            forall|k: int| 0 <= k < i ==> same_leg(#[trigger] a@[k], b@[k]),
        decreases a.len() - i,
    {
        if !legs_look_same(&a[i], &b[i]) {
            assert(!same_leg(a@[i as int], b@[i as int]));
            return false;
        }
        i = i + 1;
    }
    true
}

fn journey_is_listed(listed: &Vec<QueryItineraryCandidate>, legs: &Vec<CachedLeg>) -> (found: bool)
    ensures
        found == is_listed(candidates_view(listed@), legs@),
{
    let mut i: usize = 0;
    while i < listed.len()
        invariant
            i <= listed.len(),
            forall|k: int| 0 <= k < i ==> !same_journey((#[trigger] candidates_view(listed@)[k]).raw_legs, legs@),
        decreases listed.len() - i,
    {
        assert(candidates_view(listed@)[i as int].raw_legs == listed@[i as int].raw_legs@);
        if journeys_look_same(&listed[i].raw_legs, legs) {
            return true;
        }
        i = i + 1;
    }
    false
}

fn copy_candidate(candidate: &QueryItineraryCandidate) -> (copy: QueryItineraryCandidate)
    ensures
        copy@ == candidate@,
{
    let legs: Vec<CachedLeg> = copy_legs(&candidate.raw_legs, 0);
    assert(legs@ =~= candidate.raw_legs@);
    QueryItineraryCandidate {
        round: candidate.round,
        arrival_secs: candidate.arrival_secs,
        transit_legs: candidate.transit_legs,
        raw_legs: legs,
    }
}

fn change_count(candidate: &QueryItineraryCandidate) -> (count: usize)
    ensures
        count == changes(candidate@),
{
    if candidate.transit_legs > 0 { candidate.transit_legs - 1 } else { 0 }
}

fn find_fewest_changes(sorted: &Vec<QueryItineraryCandidate>) -> (place: usize)
    ensures
        place == fewest_changes(candidates_view(sorted@), sorted@.len() as int),
        sorted@.len() > 0 ==> place < sorted@.len(),
{
    let ghost view = candidates_view(sorted@);
    let mut best: usize = 0;
    let mut i: usize = 1;
    while i < sorted.len()
        invariant
            1 <= i,
            i <= sorted.len() || i == 1,
            view == candidates_view(sorted@),
            best < i,
            best == fewest_changes(view, i as int),
        decreases sorted.len() - i,
    {
        assert(view[i as int] == sorted@[i as int]@ && view[best as int] == sorted@[best as int]@);
        let next: usize = change_count(&sorted[i]);
        let current: usize = change_count(&sorted[best]);
        let better: bool = if next != current {
            next < current
        } else if sorted[i].arrival_secs != sorted[best].arrival_secs {
            sorted[i].arrival_secs < sorted[best].arrival_secs
        } else {
            sorted[i].round < sorted[best].round
        };
        if better {
            best = i;
        }
        i = i + 1;
    }
    best
}

fn sort_by_arrival(found: &Vec<QueryItineraryCandidate>) -> (sorted: Vec<QueryItineraryCandidate>)
    ensures
        candidates_view(sorted@) == arranged(candidates_view(found@), stable_order_of(arrival_keys(candidates_view(found@)))),
        sorted@.len() == found@.len(),
        is_stable_order(arrival_keys(candidates_view(found@)), stable_order_of(arrival_keys(candidates_view(found@)))),
{
    let ghost view = candidates_view(found@);
    let mut keys: Vec<OrderKey> = Vec::new();
    let mut i: usize = 0;
    while i < found.len()
        invariant
            i <= found.len(),
            view == candidates_view(found@),
            keys@.len() == i,
            forall|k: int| 0 <= k < i ==> #[trigger] keys@[k] == arrival_key(view[k]),
        decreases found.len() - i,
    {
        assert(view[i as int] == found@[i as int]@);
        keys.push((found[i].arrival_secs as i128, found[i].transit_legs as i128, found[i].round as i128));
        i = i + 1;
    }
    assert(keys@ =~= arrival_keys(view));
    let order: Vec<usize> = stable_order(&keys);
    let mut sorted: Vec<QueryItineraryCandidate> = Vec::new();
    let mut j: usize = 0;
    while j < order.len()
        invariant
            j <= order.len(),
            view == candidates_view(found@),
            keys@.len() == found@.len(),
            is_stable_order(keys@, order@),
            sorted@.len() == j,
            forall|k: int| 0 <= k < j ==> (#[trigger] sorted@[k])@ == view[order@[k] as int],
        decreases order.len() - j,
    {
        assert(view[order@[j as int] as int] == found@[order@[j as int] as int]@);
        sorted.push(copy_candidate(&found[order[j]]));
        j = j + 1;
    }
    assert(candidates_view(sorted@) =~= arranged(view, order@));
    sorted
}

/// Chooses and orders the journeys that are offered.
pub fn order_candidates(found: Vec<QueryItineraryCandidate>, limit: usize) -> (ordered: Vec<QueryItineraryCandidate>)
    ensures
        candidates_view(ordered@) == offered(candidates_view(found@), limit),
        forall|i: int| 0 <= i < ordered@.len() ==> exists|k: int| 0 <= k < found@.len() && (#[trigger] ordered@[i])@ == (#[trigger] found@[k])@,
{
    let sorted: Vec<QueryItineraryCandidate> = sort_by_arrival(&found);
    let ghost view = candidates_view(sorted@);
    let fewest: usize = find_fewest_changes(&sorted);
    let ghost all = with_fewest_second(view);
    let most: usize = if limit > 1 { limit } else { 1 };
    let count: usize = if sorted.len() > most { most } else { sorted.len() };
    assert(all.len() == view.len());
    let mut ordered: Vec<QueryItineraryCandidate> = Vec::new();
    let mut i: usize = 0;
    while i < count
        invariant
            i <= count,
            count <= sorted.len(),
            view == candidates_view(sorted@),
            all == with_fewest_second(view),
            fewest == fewest_changes(view, view.len() as int),
            sorted@.len() > 0 ==> fewest < sorted@.len(),
            ordered@.len() == i,
            forall|k: int| 0 <= k < i ==> (#[trigger] ordered@[k])@ == all[k],
            forall|k: int| 0 <= k < i ==> exists|m: int| 0 <= m < sorted@.len() && (#[trigger] ordered@[k])@ == (#[trigger] sorted@[m])@,
        decreases count - i,
    {
        let source: usize = if fewest == 0 || i == 0 {
            i
        } else if i == 1 {
            fewest
        } else if i <= fewest {
            i - 1
        } else {
            i
        };
        assert(view[source as int] == sorted@[source as int]@);
        assert(all[i as int] == view[source as int]);
        let ghost before = ordered@;
        ordered.push(copy_candidate(&sorted[source]));
        assert(ordered@[i as int]@ == sorted@[source as int]@);
        assert forall|k: int| 0 <= k < i + 1 implies exists|m: int| 0 <= m < sorted@.len() && (#[trigger] ordered@[k])@ == (#[trigger] sorted@[m])@ by {
            if k < i {
                assert(ordered@[k] == before[k]);
            } else {
                assert(ordered@[k]@ == sorted@[source as int]@);
            }
        }
        i = i + 1;
    }
    assert(candidates_view(ordered@) =~= offered(candidates_view(found@), limit));
    assert forall|i: int| 0 <= i < ordered@.len() implies exists|k: int| 0 <= k < found@.len() && (#[trigger] ordered@[i])@ == (#[trigger] found@[k])@ by {
        let m = choose|m: int| 0 <= m < sorted@.len() && ordered@[i]@ == (#[trigger] sorted@[m])@;
        let keys = arrival_keys(candidates_view(found@));
        let order = stable_order_of(keys);
        assert(candidates_view(sorted@)[m] == sorted@[m]@);
        assert(arranged(candidates_view(found@), order)[m] == candidates_view(found@)[order[m] as int]);
        assert(order[m] < keys.len());
        assert(found@[order[m] as int]@ == ordered@[i]@);
    }
    ordered
}

impl<'a> SearchContext<'a> {
    /// Reads back and orders the journeys that a query offers.
    pub fn collect_query_itinerary_candidates(&self, from_index: usize, to_index: usize, limit: usize, state: &SearchState) -> (result: Result<Vec<QueryItineraryCandidate>, PathError>)
        requires
            self.wf(),
            state@.wf(state@.best.len() as int, state@.arrivals.len() as int),
            labels_valid(state@, *self.data),
            state@.origin == from_index,
            to_index < state@.best.len(),
            label_count(state@) <= usize::MAX,
        ensures
            match journeys_of_rounds(state@, *self, from_index as int, to_index as int, state@.arrivals.len() as int) {
                Err(error) => result == Err::<Vec<QueryItineraryCandidate>, PathError>(error),
                Ok(found) => result is Ok && candidates_view(result->Ok_0@) == offered(found, limit),
            },
            result is Ok ==> forall|i: int| 0 <= i < result->Ok_0@.len() ==> legs_valid((#[trigger] result->Ok_0@[i]).raw_legs@, self.data.trips@, state@.best.len() as int)
                && legs_lead(result->Ok_0@[i].raw_legs@, from_index as int, to_index as int, self.data.stops@.len() as int)
                && (result->Ok_0@[i].raw_legs@.len() > 0 ==> legs_arrive(result->Ok_0@[i].raw_legs@, result->Ok_0@[i].arrival_secs as int)),
    {
        let ghost view = state@;
        let ghost stops = view.best.len() as int;
        let mut found: Vec<QueryItineraryCandidate> = Vec::new();
        assert(candidates_view(found@) =~= Seq::<CandidateView>::empty());
        let stop_count: usize = state.best.len();
        let mut round: usize = 0;
        while round < state.arrivals.len()
            invariant
                round <= state.arrivals.len(),
                view == state@,
                stops == view.best.len(),
                stop_count == stops,
                self.wf(),
                view.wf(stops, view.arrivals.len() as int),
                labels_valid(view, *self.data),
                to_index < stops,
                label_count(view) <= usize::MAX,
                journeys_of_rounds(view, *self, from_index as int, to_index as int, round as int) == Ok::<Seq<CandidateView>, PathError>(candidates_view(found@)),
                view.origin == from_index,
                forall|i: int| 0 <= i < found@.len() ==> legs_valid((#[trigger] found@[i]).raw_legs@, self.data.trips@, stops)
                    && legs_lead(found@[i].raw_legs@, from_index as int, to_index as int, self.data.stops@.len() as int)
                    && (found@[i].raw_legs@.len() > 0 ==> legs_arrive(found@[i].raw_legs@, found@[i].arrival_secs as int)),
            decreases state.arrivals.len() - round,
        {
            assert(view.arrivals[round as int].len() == stops);
            assert(view.parents[round as int].len() == stops);
            assert(view.parents[round as int][to_index as int] == parent_view(state.parents@[round as int]@[to_index as int]));
            let arrival: i32 = state.arrivals[round][to_index];
            if arrival < INF_TIME && state.parents[round][to_index].is_some() {
                proof {
                    journeys_have_no_gap(view, *self, from_index as int, to_index as int, round as int, label_count(view));
                }
                match self.reconstruct_path(from_index, to_index, round, state) {
                    Err(error) => {
                        proof {
                            journeys_keep_error(view, *self, from_index as int, to_index as int, round + 1, view.arrivals.len() as int, error);
                        }
                        return Err(error);
                    },
                    Ok(legs) => {
                        if !journey_is_listed(&found, &legs) {
                            let transit_legs: usize = count_rides(&legs);
                            let ghost before = found@;
                            let ghost legs_view = legs@;
                            found.push(QueryItineraryCandidate { round: round, arrival_secs: arrival, transit_legs: transit_legs, raw_legs: legs });
                            assert(candidates_view(found@) =~= candidates_view(before).push(found@[before.len() as int]@));
                        }
                    },
                }
            }
            round = round + 1;
        }
        let ghost all = found@;
        let ordered: Vec<QueryItineraryCandidate> = order_candidates(found, limit);
        assert forall|i: int| 0 <= i < ordered@.len() implies legs_valid((#[trigger] ordered@[i]).raw_legs@, self.data.trips@, stops)
            && legs_lead(ordered@[i].raw_legs@, from_index as int, to_index as int, self.data.stops@.len() as int)
            && (ordered@[i].raw_legs@.len() > 0 ==> legs_arrive(ordered@[i].raw_legs@, ordered@[i].arrival_secs as int)) by {
            let k = choose|k: int| 0 <= k < all.len() && ordered@[i]@ == (#[trigger] all[k])@;
            assert(legs_valid(all[k].raw_legs@, self.data.trips@, stops));
        }
        Ok(ordered)
    }
}

proof fn journeys_keep_error(view: SearchView, ctx: SearchContext, origin: int, destination: int, n: int, m: int, error: PathError)
    requires
        n <= m,
        journeys_of_rounds(view, ctx, origin, destination, n) == Err::<Seq<CandidateView>, PathError>(error),
    ensures
        journeys_of_rounds(view, ctx, origin, destination, m) == Err::<Seq<CandidateView>, PathError>(error),
    decreases m - n,
{
    if n < m {
        journeys_keep_error(view, ctx, origin, destination, n, m - 1, error);
    }
}

spec fn place_offered(sorted: Seq<CandidateView>, i: int) -> int {
    let fewest = fewest_changes(sorted, sorted.len() as int);
    if fewest <= 0 || fewest >= sorted.len() {
        i
    } else if i == 0 {
        0
    } else if i == 1 {
        fewest
    } else if i <= fewest {
        i - 1
    } else {
        i
    }
}

proof fn offer_is_at(found: Seq<CandidateView>, limit: usize, i: int)
    requires
        found.len() <= usize::MAX,
        0 <= i < offered(found, limit).len(),
    ensures
        ({
            let order = stable_order_of(arrival_keys(found));
            let at = place_offered(arranged(found, order), i);
            &&& is_stable_order(arrival_keys(found), order)
            &&& 0 <= at < order.len()
            &&& order[at] < found.len()
            &&& offered(found, limit)[i] == found[order[at] as int]
        }),
{
    let keys = arrival_keys(found);
    let order = stable_order_of(keys);
    stable_order_exists(keys);
    let sorted = arranged(found, order);
    let all = with_fewest_second(sorted);
    let at = place_offered(sorted, i);
    assert(offered(found, limit)[i] == all[i]);
    assert(all[i] == sorted[at]);
    assert(order[at] < keys.len());
    assert(sorted[at] == found[order[at] as int]);
}

/// Each journey offered is one that was found.
pub proof fn offers_are_found(found: Seq<CandidateView>, limit: usize, i: int)
    requires
        found.len() <= usize::MAX,
        0 <= i < offered(found, limit).len(),
    ensures
        found.contains(offered(found, limit)[i]),
{
    offer_is_at(found, limit, i);
}

/// No more journeys are offered than were asked for, but for one at least.
pub proof fn offers_are_no_more_than_asked(found: Seq<CandidateView>, limit: usize)
    ensures
        offered(found, limit).len() <= (if limit > 1 { limit as int } else { 1 }),
{
}

/// Whether no two journeys of a list look the same.
pub open spec fn all_differ(listed: Seq<CandidateView>) -> bool {
    forall|i: int, j: int| 0 <= i < listed.len() && 0 <= j < listed.len() && i != j ==> !same_journey((#[trigger] listed[i]).raw_legs, (#[trigger] listed[j]).raw_legs)
}

proof fn likeness_is_mutual(a: Seq<CachedLeg>, b: Seq<CachedLeg>)
    requires
        same_journey(a, b),
    ensures
        same_journey(b, a),
{
    assert forall|i: int| 0 <= i < b.len() implies same_leg(#[trigger] b[i], a[i]) by {
        assert(same_leg(a[i], b[i]));
    }
}

/// No two journeys that the rounds found look the same.
pub proof fn found_journeys_differ(view: SearchView, ctx: SearchContext, origin: int, destination: int, n: int)
    ensures
        match journeys_of_rounds(view, ctx, origin, destination, n) {
            Ok(found) => all_differ(found),
            Err(_) => true,
        },
    decreases n,
{
    if n > 0 {
        found_journeys_differ(view, ctx, origin, destination, n - 1);
        match (journeys_of_rounds(view, ctx, origin, destination, n - 1), journeys_of_rounds(view, ctx, origin, destination, n)) {
            (Ok(before), Ok(after)) => {
                if after.len() > before.len() {
                    let last = after.last();
                    assert(!is_listed(before, last.raw_legs));
                    assert forall|i: int, j: int| 0 <= i < after.len() && 0 <= j < after.len() && i != j implies !same_journey(
                        (#[trigger] after[i]).raw_legs,
                        (#[trigger] after[j]).raw_legs,
                    ) by {
                        if i < before.len() && j < before.len() {
                            assert(after[i] == before[i] && after[j] == before[j]);
                        } else if same_journey(after[i].raw_legs, after[j].raw_legs) {
                            likeness_is_mutual(after[i].raw_legs, after[j].raw_legs);
                            let k = if i < before.len() { i } else { j };
                            assert(before[k] == after[k]);
                            assert(same_journey(before[k].raw_legs, last.raw_legs));
                        }
                    }
                }
            },
            _ => {},
        }
    }
}

/// No two journeys that are offered look the same.
pub proof fn offers_differ(found: Seq<CandidateView>, limit: usize)
    requires
        found.len() <= usize::MAX,
        all_differ(found),
    ensures
        all_differ(offered(found, limit)),
{
    let offers = offered(found, limit);
    let keys = arrival_keys(found);
    let order = stable_order_of(keys);
    let sorted = arranged(found, order);
    assert forall|i: int, j: int| 0 <= i < offers.len() && 0 <= j < offers.len() && i != j implies !same_journey(
        (#[trigger] offers[i]).raw_legs,
        (#[trigger] offers[j]).raw_legs,
    ) by {
        offer_is_at(found, limit, i);
        offer_is_at(found, limit, j);
        let a = place_offered(sorted, i);
        let b = place_offered(sorted, j);
        assert(a != b);
        if a < b {
            assert(crate::order::position_before(keys, order[a] as int, order[b] as int));
        } else {
            assert(crate::order::position_before(keys, order[b] as int, order[a] as int));
        }
        assert(order[a] != order[b]);
    }
}

/// The first journey offered arrives no later than any that was found.
pub proof fn first_offer_is_earliest(found: Seq<CandidateView>, limit: usize, i: int)
    requires
        0 <= i < found.len() <= usize::MAX,
    ensures
        offered(found, limit).len() > 0,
        offered(found, limit)[0].arrival_secs <= found[i].arrival_secs,
{
    let keys = arrival_keys(found);
    let order = stable_order_of(keys);
    let sorted = arranged(found, order);
    stable_order_exists(keys);
    stable_order_covers(keys, order);
    let all = with_fewest_second(sorted);
    assert(all[0] == sorted[0]);
    assert(offered(found, limit)[0] == sorted[0]);
    assert(order.contains(i as usize));
    let p = choose|p: int| 0 <= p < order.len() && order[p] == i as usize;
    if p > 0 {
        assert(crate::order::position_before(keys, order[0] as int, order[p] as int));
    }
    assert(keys[order[0] as int] == arrival_key(sorted[0]));
    assert(keys[order[p] as int] == arrival_key(found[i]));
}

/// A journey with no more changes than any found is among the first two
/// offered, where two are asked for.
pub proof fn second_offer_has_fewest_changes(found: Seq<CandidateView>, limit: usize, i: int)
    requires
        0 <= i < found.len() <= usize::MAX,
        limit >= 2,
    ensures
        exists|k: int| 0 <= k < 2 && k < offered(found, limit).len() && changes(#[trigger] offered(found, limit)[k]) <= changes(found[i]),
{
    let keys = arrival_keys(found);
    let order = stable_order_of(keys);
    let sorted = arranged(found, order);
    stable_order_exists(keys);
    stable_order_covers(keys, order);
    assert(order.contains(i as usize));
    let p = choose|p: int| 0 <= p < order.len() && order[p] == i as usize;
    fewest_is_fewest(sorted, sorted.len() as int, p);
    let fewest = fewest_changes(sorted, sorted.len() as int);
    let all = with_fewest_second(sorted);
    if fewest == 0 {
        assert(offered(found, limit)[0] == sorted[0]);
        assert(changes(offered(found, limit)[0]) <= changes(found[i]));
    } else {
        assert(all[1] == sorted[fewest]);
        assert(offered(found, limit)[1] == sorted[fewest]);
        assert(changes(offered(found, limit)[1]) <= changes(found[i]));
    }
}

proof fn fewest_is_fewest(sorted: Seq<CandidateView>, n: int, p: int)
    requires
        0 <= p < n <= sorted.len(),
    ensures
        0 <= fewest_changes(sorted, n) < n,
        changes(sorted[fewest_changes(sorted, n)]) <= changes(sorted[p]),
    decreases n,
{
    if n > 1 {
        fewest_is_fewest(sorted, n - 1, if p < n - 1 { p } else { 0 });
        if p < n - 1 {
            fewest_is_fewest(sorted, n - 1, p);
        }
    }
}

} // verus!
