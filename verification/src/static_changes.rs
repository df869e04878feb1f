//! What has changed between two timetables.

use crate::model::{RouteRecord, StaticData, StopRecord, TripRecord};
use crate::records::{
    route_records_equivalent, routes_equivalent, routes_view, stop_records_equivalent, stops_equivalent, stops_view, trip_records_equivalent,
    trip_refers, trips_equivalent, trips_view, RouteView, StopView, TripView,
};
use crate::static_core::StaticCore;
use crate::text_map::TextMap;
use crate::text_order::texts_view;
use vstd::prelude::*;

verus! {

/// Where the first `n` records listed are, by their ids. Of two records with the
/// same id the one listed last is found.
pub open spec fn listed_by_id(ids: Seq<Seq<char>>, listed: Seq<usize>, n: int) -> Map<Seq<char>, usize>
    decreases n,
{
    if n <= 0 {
        Map::empty()
    } else {
        listed_by_id(ids, listed, n - 1).insert(ids[listed[n - 1] as int], listed[n - 1])
    }
}

/// The ids of stops.
pub open spec fn ids_of_stops(stops: Seq<StopView>) -> Seq<Seq<char>> {
    Seq::new(stops.len(), |i: int| stops[i].id)
}

/// The ids of routes.
pub open spec fn ids_of_routes(routes: Seq<RouteView>) -> Seq<Seq<char>> {
    Seq::new(routes.len(), |i: int| routes[i].id)
}

/// The ids of trips.
pub open spec fn ids_of_trips(trips: Seq<TripView>) -> Seq<Seq<char>> {
    Seq::new(trips.len(), |i: int| trips[i].id)
}

/// Where the stops in service are, by their ids.
pub open spec fn stops_by_id(stops: Seq<StopView>, active: Seq<usize>) -> Map<Seq<char>, usize> {
    listed_by_id(ids_of_stops(stops), active, active.len() as int)
}

/// Where the routes in service are, by their ids.
pub open spec fn routes_by_id(routes: Seq<RouteView>, active: Seq<usize>) -> Map<Seq<char>, usize> {
    listed_by_id(ids_of_routes(routes), active, active.len() as int)
}

/// Where the trips in service are, by their ids.
pub open spec fn trips_by_id(trips: Seq<TripView>, active: Seq<usize>) -> Map<Seq<char>, usize> {
    listed_by_id(ids_of_trips(trips), active, active.len() as int)
}

/// Whether all numbers listed are below a count.
pub open spec fn listed_within(listed: Seq<usize>, count: int) -> bool {
    forall|i: int| 0 <= i < listed.len() ==> (#[trigger] listed[i]) < count
}

/// What is found by id is one of the records listed, and has that id.
pub proof fn listed_ids_are_listed(ids: Seq<Seq<char>>, listed: Seq<usize>, n: int)
    requires
        0 <= n <= listed.len(),
    ensures
        forall|id: Seq<char>| #[trigger] listed_by_id(ids, listed, n).dom().contains(id) ==> {
            let at = listed_by_id(ids, listed, n)[id];
            ids[at as int] == id && exists|i: int| 0 <= i < n && #[trigger] listed[i] == at
        },
    decreases n,
{
    if n > 0 {
        listed_ids_are_listed(ids, listed, n - 1);
        let earlier = listed_by_id(ids, listed, n - 1);
        assert forall|id: Seq<char>| #[trigger] listed_by_id(ids, listed, n).dom().contains(id) implies {
            let at = listed_by_id(ids, listed, n)[id];
            ids[at as int] == id && exists|i: int| 0 <= i < n && #[trigger] listed[i] == at
        } by {
            if id == ids[listed[n - 1] as int] {
                assert(listed[n - 1] == listed_by_id(ids, listed, n)[id]);
            } else {
                assert(earlier.dom().contains(id));
                let i = choose|i: int| 0 <= i < n - 1 && #[trigger] listed[i] == earlier[id];
                assert(listed[i] == listed_by_id(ids, listed, n)[id]);
            }
        }
    }
}

/// Finds the stops in service by their ids.
pub fn find_stops_by_id(stops: &Vec<StopRecord>, active: &Vec<usize>) -> (lookup: TextMap<usize>)
    requires
        listed_within(active@, stops@.len() as int),
    ensures
        lookup.wf(),
        lookup@ == stops_by_id(stops_view(stops@), active@),
        lookup.slots().len() <= active@.len(),
{
    let mut lookup: TextMap<usize> = TextMap::new();
    let mut i: usize = 0;
    while i < active.len()
        invariant
            i <= active.len(),
            listed_within(active@, stops@.len() as int),
            lookup.wf(),
            lookup@ == listed_by_id(ids_of_stops(stops_view(stops@)), active@, i as int),
            lookup.slots().len() <= i,
        decreases active.len() - i,
    {
        assert(active@[i as int] < stops@.len());
        lookup.insert(stops[active[i]].id.clone(), active[i]);
        i = i + 1;
    }
    lookup
}

/// Finds the routes in service by their ids.
pub fn find_routes_by_id(routes: &Vec<RouteRecord>, active: &Vec<usize>) -> (lookup: TextMap<usize>)
    requires
        listed_within(active@, routes@.len() as int),
    ensures
        lookup.wf(),
        lookup@ == routes_by_id(routes_view(routes@), active@),
        lookup.slots().len() <= active@.len(),
{
    let mut lookup: TextMap<usize> = TextMap::new();
    let mut i: usize = 0;
    while i < active.len()
        invariant
            i <= active.len(),
            listed_within(active@, routes@.len() as int),
            lookup.wf(),
            lookup@ == listed_by_id(ids_of_routes(routes_view(routes@)), active@, i as int),
            lookup.slots().len() <= i,
        decreases active.len() - i,
    {
        assert(active@[i as int] < routes@.len());
        lookup.insert(routes[active[i]].id.clone(), active[i]);
        i = i + 1;
    }
    lookup
}

/// Finds the trips in service by their ids.
pub fn find_trips_by_id(trips: &Vec<TripRecord>, active: &Vec<usize>) -> (lookup: TextMap<usize>)
    requires
        listed_within(active@, trips@.len() as int),
    ensures
        lookup.wf(),
        lookup@ == trips_by_id(trips_view(trips@), active@),
        lookup.slots().len() <= active@.len(),
{
    let mut lookup: TextMap<usize> = TextMap::new();
    let mut i: usize = 0;
    while i < active.len()
        invariant
            i <= active.len(),
            listed_within(active@, trips@.len() as int),
            lookup.wf(),
            lookup@ == listed_by_id(ids_of_trips(trips_view(trips@)), active@, i as int),
            lookup.slots().len() <= i,
        decreases active.len() - i,
    {
        assert(active@[i as int] < trips@.len());
        lookup.insert(trips[active[i]].id.clone(), active[i]);
        i = i + 1;
    }
    lookup
}

/// The ids that have changed: those that only one side has, and those that both
/// have with different contents.
pub open spec fn changed_ids(previous: Map<Seq<char>, usize>, next: Map<Seq<char>, usize>, same: spec_fn(usize, usize) -> bool) -> Set<Seq<char>> {
    Set::new(
        |id: Seq<char>|
            (previous.dom().contains(id) || next.dom().contains(id)) && !(previous.dom().contains(id) && next.dom().contains(id) && same(previous[id], next[id])),
    )
}

/// Whether a list holds the members of a set, each once.
pub open spec fn lists_set(texts: Seq<String>, members: Set<Seq<char>>) -> bool {
    &&& texts_view(texts).no_duplicates()
    &&& texts_view(texts).to_set() == members
}

proof fn pushed_text(texts: Seq<String>, text: String)
    ensures
        texts_view(texts.push(text)) == texts_view(texts).push(text@),
{
    assert(texts_view(texts.push(text)) =~= texts_view(texts).push(text@));
}

fn collect_changed(previous: &TextMap<usize>, next: &TextMap<usize>, unchanged: &Vec<bool>, Ghost(same): Ghost<spec_fn(usize, usize) -> bool>) -> (changed: Vec<String>)
    requires
        previous.wf(),
        next.wf(),
        unchanged@.len() == next.slots().len(),
        forall|i: int| 0 <= i < unchanged@.len() ==> #[trigger] unchanged@[i] == (previous@.dom().contains(next.slots()[i]) && same(previous@[next.slots()[i]], next@[next.slots()[i]])),
    ensures
        lists_set(changed@, changed_ids(previous@, next@, same)),
        changed@.len() <= previous.slots().len() + next.slots().len(),
{
    let mut changed: Vec<String> = Vec::new();
    let mut i: usize = 0;
    proof {
        next.slots_match();
        previous.slots_match();
    }
    while i < next.len()
        invariant
            i <= next.slots().len(),
            next.wf(),
            next.slots().no_duplicates(),
            unchanged@.len() == next.slots().len(),
            changed@.len() <= i,
            texts_view(changed@).no_duplicates(),
            forall|id: Seq<char>| #[trigger] texts_view(changed@).contains(id) <==> exists|k: int| 0 <= k < i && next.slots()[k] == id && !(#[trigger] unchanged@[k]),
        decreases next.slots().len() - i,
    {
        let ghost before = changed@;
        let ghost key = next.slots()[i as int];
        let ghost shown = texts_view(before);
        if !unchanged[i] {
            let text: String = next.key_at(i).clone();
            changed.push(text);
            proof {
                pushed_text(before, text);
                assert(!shown.contains(key)) by {
                    if shown.contains(key) {
                        let k = choose|k: int| 0 <= k < i && next.slots()[k] == key && !(#[trigger] unchanged@[k]);
                        assert(next.slots()[k] != next.slots()[i as int]);
                    }
                }
            }
        }
        proof {
            assert forall|id: Seq<char>| #[trigger] texts_view(changed@).contains(id) <==> exists|k: int| 0 <= k < i + 1 && next.slots()[k] == id && !(#[trigger] unchanged@[k]) by {
                let longer = texts_view(changed@);
                if longer.contains(id) {
                    let at = choose|at: int| 0 <= at < longer.len() && longer[at] == id;
                    if at < shown.len() {
                        assert(shown[at] == id);
                        assert(shown.contains(id));
                    } else {
                        assert(!unchanged@[i as int]);
                    }
                }
                if exists|k: int| 0 <= k < i + 1 && next.slots()[k] == id && !(#[trigger] unchanged@[k]) {
                    let k = choose|k: int| 0 <= k < i + 1 && next.slots()[k] == id && !(#[trigger] unchanged@[k]);
                    if k < i {
                        assert(shown.contains(id));
                        let at = choose|at: int| 0 <= at < shown.len() && shown[at] == id;
                        assert(longer[at] == id);
                    } else {
                        assert(longer[shown.len() as int] == id);
                    }
                }
            }
        }
        i = i + 1;
    }
    let ghost fresh = texts_view(changed@);
    proof {
        assert forall|id: Seq<char>| #[trigger] fresh.contains(id) implies next@.dom().contains(id) by {
            let k = choose|k: int| 0 <= k < next.slots().len() && next.slots()[k] == id && !(#[trigger] unchanged@[k]);
            assert(next.slots().contains(id));
        }
    }
    let mut j: usize = 0;
    while j < previous.len()
        invariant
            j <= previous.slots().len(),
            previous.wf(),
            next.wf(),
            previous.slots().no_duplicates(),
            changed@.len() <= next.slots().len() + j,
            texts_view(changed@).no_duplicates(),
            forall|id: Seq<char>| #[trigger] fresh.contains(id) ==> next@.dom().contains(id),
            forall|id: Seq<char>| #[trigger] texts_view(changed@).contains(id) <==> fresh.contains(id) || exists|k: int| 0 <= k < j && #[trigger] previous.slots()[k] == id && !next@.dom().contains(id),
        decreases previous.slots().len() - j,
    {
        let ghost before = changed@;
        let ghost shown = texts_view(before);
        let ghost key = previous.slots()[j as int];
        let gone: bool = next.get(previous.key_at(j).as_str()).is_none();
        if gone {
            let text: String = previous.key_at(j).clone();
            changed.push(text);
            proof {
                pushed_text(before, text);
                assert(!shown.contains(key)) by {
                    if shown.contains(key) {
                        let k = choose|k: int| 0 <= k < j && #[trigger] previous.slots()[k] == key && !next@.dom().contains(key);
                        assert(previous.slots()[k] != previous.slots()[j as int]);
                    }
                }
            }
        }
        proof {
            assert forall|id: Seq<char>| #[trigger] texts_view(changed@).contains(id) <==> fresh.contains(id) || exists|k: int| 0 <= k < j + 1 && #[trigger] previous.slots()[k] == id && !next@.dom().contains(id) by {
                let longer = texts_view(changed@);
                if longer.contains(id) {
                    let at = choose|at: int| 0 <= at < longer.len() && longer[at] == id;
                    if at < shown.len() {
                        assert(shown[at] == id);
                        assert(shown.contains(id));
                    } else {
                        assert(previous.slots()[j as int] == id);
                    }
                }
                if fresh.contains(id) || exists|k: int| 0 <= k < j + 1 && #[trigger] previous.slots()[k] == id && !next@.dom().contains(id) {
                    if fresh.contains(id) {
                        assert(shown.contains(id));
                    } else {
                        let k = choose|k: int| 0 <= k < j + 1 && #[trigger] previous.slots()[k] == id && !next@.dom().contains(id);
                        if k < j {
                            assert(shown.contains(id));
                        }
                    }
                    if shown.contains(id) {
                        let at = choose|at: int| 0 <= at < shown.len() && shown[at] == id;
                        assert(longer[at] == id);
                    } else {
                        assert(longer[shown.len() as int] == id);
                    }
                }
            }
        }
        j = j + 1;
    }
    proof {
        let members = changed_ids(previous@, next@, same);
        assert forall|id: Seq<char>| #[trigger] texts_view(changed@).to_set().contains(id) <==> members.contains(id) by {
            assert(texts_view(changed@).to_set().contains(id) <==> texts_view(changed@).contains(id));
            if members.contains(id) {
                if next@.dom().contains(id) {
                    assert(next.slots().contains(id));
                    let k = choose|k: int| 0 <= k < next.slots().len() && next.slots()[k] == id;
                    assert(!unchanged@[k]);
                    assert(fresh.contains(id));
                } else {
                    assert(previous.slots().contains(id));
                    let k = choose|k: int| 0 <= k < previous.slots().len() && previous.slots()[k] == id;
                    assert(previous.slots()[k] == id);
                }
            }
            if texts_view(changed@).contains(id) {
                if fresh.contains(id) {
                    let k = choose|k: int| 0 <= k < next.slots().len() && next.slots()[k] == id && !(#[trigger] unchanged@[k]);
                    assert(next.slots().contains(id));
                } else {
                    let k = choose|k: int| 0 <= k < previous.slots().len() && #[trigger] previous.slots()[k] == id && !next@.dom().contains(id);
                    assert(previous.slots().contains(id));
                }
            }
        }
        assert(texts_view(changed@).to_set() =~= members);
    }
    changed
}

/// The stops that differ between two lists, by id.
pub open spec fn changed_stop_ids(previous: Seq<StopView>, previous_active: Seq<usize>, next: Seq<StopView>, next_active: Seq<usize>) -> Set<Seq<char>> {
    changed_ids(
        stops_by_id(previous, previous_active),
        stops_by_id(next, next_active),
        |a: usize, b: usize| stops_equivalent(previous[a as int], next[b as int]),
    )
}

/// The routes that differ between two lists, by id.
pub open spec fn changed_route_ids(previous: Seq<RouteView>, previous_active: Seq<usize>, next: Seq<RouteView>, next_active: Seq<usize>) -> Set<Seq<char>> {
    changed_ids(
        routes_by_id(previous, previous_active),
        routes_by_id(next, next_active),
        |a: usize, b: usize| routes_equivalent(previous[a as int], next[b as int]),
    )
}

/// The stops, routes and trips of a timetable, and which of them are in service.
pub struct Tables {
    pub stops: Seq<StopView>,
    pub active_stops: Seq<usize>,
    pub routes: Seq<RouteView>,
    pub active_routes: Seq<usize>,
    pub trips: Seq<TripView>,
    pub active_trips: Seq<usize>,
}

/// The tables of a timetable.
pub open spec fn tables_of(data: StaticData) -> Tables {
    Tables {
        stops: stops_view(data.stops@),
        active_stops: data.active_stop_indices@,
        routes: routes_view(data.routes@),
        active_routes: data.active_route_indices@,
        trips: trips_view(data.trips@),
        active_trips: data.active_trip_indices@,
    }
}

/// The tables of a timetable without walks.
pub open spec fn tables_of_core(core: StaticCore) -> Tables {
    Tables {
        stops: stops_view(core.stops@),
        active_stops: core.active_stop_indices@,
        routes: routes_view(core.routes@),
        active_routes: core.active_route_indices@,
        trips: trips_view(core.trips@),
        active_trips: core.active_trip_indices@,
    }
}

impl Tables {
    /// What is in service is there, and the trips in service refer to routes and
    /// stops that are there.
    pub open spec fn wf(self) -> bool {
        &&& listed_within(self.active_stops, self.stops.len() as int)
        &&& listed_within(self.active_routes, self.routes.len() as int)
        &&& listed_within(self.active_trips, self.trips.len() as int)
        &&& forall|i: int| 0 <= i < self.active_trips.len() ==> trip_refers(self.trips[#[trigger] self.active_trips[i] as int], self.routes.len() as int, self.stops.len() as int)
    }
}

/// The trips that differ between two timetables, by id.
pub open spec fn changed_trip_ids(previous: Tables, next: Tables) -> Set<Seq<char>> {
    changed_ids(
        trips_by_id(previous.trips, previous.active_trips),
        trips_by_id(next.trips, next.active_trips),
        |a: usize, b: usize| trips_equivalent(previous.trips[a as int], previous.routes, previous.stops, next.trips[b as int], next.routes, next.stops),
    )
}

/// Collects the stops that differ between two lists.
pub fn collect_changed_stop_ids_from_slices(
    previous_stops: &Vec<StopRecord>,
    previous_active_indices: &Vec<usize>,
    next_stops: &Vec<StopRecord>,
    next_active_indices: &Vec<usize>,
) -> (changed: Vec<String>)
    requires
        listed_within(previous_active_indices@, previous_stops@.len() as int),
        listed_within(next_active_indices@, next_stops@.len() as int),
    ensures
        lists_set(changed@, changed_stop_ids(stops_view(previous_stops@), previous_active_indices@, stops_view(next_stops@), next_active_indices@)),
        changed@.len() <= previous_active_indices@.len() + next_active_indices@.len(),
{
    let previous: TextMap<usize> = find_stops_by_id(previous_stops, previous_active_indices);
    let next: TextMap<usize> = find_stops_by_id(next_stops, next_active_indices);
    let ghost before = stops_view(previous_stops@);
    let ghost after = stops_view(next_stops@);
    let ghost same = |a: usize, b: usize| stops_equivalent(before[a as int], after[b as int]);
    let mut unchanged: Vec<bool> = Vec::new();
    proof {
        listed_ids_are_listed(ids_of_stops(before), previous_active_indices@, previous_active_indices@.len() as int);
        listed_ids_are_listed(ids_of_stops(after), next_active_indices@, next_active_indices@.len() as int);
    }
    let mut i: usize = 0;
    while i < next.len()
        invariant
            i <= next.slots().len(),
            previous.wf(),
            next.wf(),
            before == stops_view(previous_stops@),
            after == stops_view(next_stops@),
            same == |a: usize, b: usize| stops_equivalent(before[a as int], after[b as int]),
            listed_within(previous_active_indices@, previous_stops@.len() as int),
            listed_within(next_active_indices@, next_stops@.len() as int),
            forall|id: Seq<char>| #[trigger] previous@.dom().contains(id) ==> exists|k: int| 0 <= k < previous_active_indices@.len() && #[trigger] previous_active_indices@[k] == previous@[id],
            forall|id: Seq<char>| #[trigger] next@.dom().contains(id) ==> exists|k: int| 0 <= k < next_active_indices@.len() && #[trigger] next_active_indices@[k] == next@[id],
            unchanged@.len() == i,
            forall|k: int| 0 <= k < i ==> #[trigger] unchanged@[k] == (previous@.dom().contains(next.slots()[k]) && same(previous@[next.slots()[k]], next@[next.slots()[k]])),
        decreases next.slots().len() - i,
    {
        let here: usize = *next.value_at(i);
        let known: bool = match previous.get(next.key_at(i).as_str()) {
            Some(there) => stop_records_equivalent(&previous_stops[*there], &next_stops[here]),
            None => false,
        };
        unchanged.push(known);
        i = i + 1;
    }
    collect_changed(&previous, &next, &unchanged, Ghost(same))
}

/// Collects the stops that differ between two timetables.
pub fn collect_changed_stop_ids(previous: &StaticData, next: &StaticCore) -> (changed: Vec<String>)
    requires
        tables_of(*previous).wf(),
        tables_of_core(*next).wf(),
    ensures
        lists_set(changed@, changed_stop_ids(stops_view(previous.stops@), previous.active_stop_indices@, stops_view(next.stops@), next.active_stop_indices@)),
        changed@.len() <= previous.active_stop_indices@.len() + next.active_stop_indices@.len(),
{
    collect_changed_stop_ids_from_slices(&previous.stops, &previous.active_stop_indices, &next.stops, &next.active_stop_indices)
}

/// Collects the routes that differ between two timetables.
pub fn collect_changed_route_ids(previous_data: &StaticData, next_core: &StaticCore) -> (changed: Vec<String>)
    requires
        tables_of(*previous_data).wf(),
        tables_of_core(*next_core).wf(),
    ensures
        lists_set(
            changed@,
            changed_route_ids(routes_view(previous_data.routes@), previous_data.active_route_indices@, routes_view(next_core.routes@), next_core.active_route_indices@),
        ),
        changed@.len() <= previous_data.active_route_indices@.len() + next_core.active_route_indices@.len(),
{
    let previous_active_indices: &Vec<usize> = &previous_data.active_route_indices;
    let next_active_indices: &Vec<usize> = &next_core.active_route_indices;
    let previous: TextMap<usize> = find_routes_by_id(&previous_data.routes, previous_active_indices);
    let next: TextMap<usize> = find_routes_by_id(&next_core.routes, next_active_indices);
    let ghost before = routes_view(previous_data.routes@);
    let ghost after = routes_view(next_core.routes@);
    let ghost same = |a: usize, b: usize| routes_equivalent(before[a as int], after[b as int]);
    let mut unchanged: Vec<bool> = Vec::new();
    proof {
        listed_ids_are_listed(ids_of_routes(before), previous_active_indices@, previous_active_indices@.len() as int);
        listed_ids_are_listed(ids_of_routes(after), next_active_indices@, next_active_indices@.len() as int);
    }
    let mut i: usize = 0;
    while i < next.len()
        invariant
            i <= next.slots().len(),
            previous.wf(),
            next.wf(),
            before == routes_view(previous_data.routes@),
            after == routes_view(next_core.routes@),
            same == |a: usize, b: usize| routes_equivalent(before[a as int], after[b as int]),
            listed_within(previous_active_indices@, previous_data.routes@.len() as int),
            listed_within(next_active_indices@, next_core.routes@.len() as int),
            forall|id: Seq<char>| #[trigger] previous@.dom().contains(id) ==> exists|k: int| 0 <= k < previous_active_indices@.len() && #[trigger] previous_active_indices@[k] == previous@[id],
            forall|id: Seq<char>| #[trigger] next@.dom().contains(id) ==> exists|k: int| 0 <= k < next_active_indices@.len() && #[trigger] next_active_indices@[k] == next@[id],
            unchanged@.len() == i,
            forall|k: int| 0 <= k < i ==> #[trigger] unchanged@[k] == (previous@.dom().contains(next.slots()[k]) && same(previous@[next.slots()[k]], next@[next.slots()[k]])),
        decreases next.slots().len() - i,
    {
        let here: usize = *next.value_at(i);
        let known: bool = match previous.get(next.key_at(i).as_str()) {
            Some(there) => route_records_equivalent(&previous_data.routes[*there], &next_core.routes[here]),
            None => false,
        };
        unchanged.push(known);
        i = i + 1;
    }
    collect_changed(&previous, &next, &unchanged, Ghost(same))
}

/// Collects the trips that differ between two timetables.
pub fn collect_changed_trip_ids(previous_data: &StaticData, next_core: &StaticCore) -> (changed: Vec<String>)
    requires
        tables_of(*previous_data).wf(),
        tables_of_core(*next_core).wf(),
    ensures
        lists_set(changed@, changed_trip_ids(tables_of(*previous_data), tables_of_core(*next_core))),
        changed@.len() <= previous_data.active_trip_indices@.len() + next_core.active_trip_indices@.len(),
{
    let previous_active_indices: &Vec<usize> = &previous_data.active_trip_indices;
    let next_active_indices: &Vec<usize> = &next_core.active_trip_indices;
    let previous: TextMap<usize> = find_trips_by_id(&previous_data.trips, previous_active_indices);
    let next: TextMap<usize> = find_trips_by_id(&next_core.trips, next_active_indices);
    let ghost before = tables_of(*previous_data);
    let ghost after = tables_of_core(*next_core);
    let ghost same = |a: usize, b: usize| trips_equivalent(before.trips[a as int], before.routes, before.stops, after.trips[b as int], after.routes, after.stops);
    let mut unchanged: Vec<bool> = Vec::new();
    proof {
        listed_ids_are_listed(ids_of_trips(before.trips), previous_active_indices@, previous_active_indices@.len() as int);
        listed_ids_are_listed(ids_of_trips(after.trips), next_active_indices@, next_active_indices@.len() as int);
    }
    let mut i: usize = 0;
    while i < next.len()
        invariant
            i <= next.slots().len(),
            previous.wf(),
            next.wf(),
            before == tables_of(*previous_data),
            after == tables_of_core(*next_core),
            before.wf(),
            after.wf(),
            previous_active_indices@ == before.active_trips,
            next_active_indices@ == after.active_trips,
            same == |a: usize, b: usize| trips_equivalent(before.trips[a as int], before.routes, before.stops, after.trips[b as int], after.routes, after.stops),
            forall|id: Seq<char>| #[trigger] previous@.dom().contains(id) ==> exists|k: int| 0 <= k < previous_active_indices@.len() && #[trigger] previous_active_indices@[k] == previous@[id],
            forall|id: Seq<char>| #[trigger] next@.dom().contains(id) ==> exists|k: int| 0 <= k < next_active_indices@.len() && #[trigger] next_active_indices@[k] == next@[id],
            unchanged@.len() == i,
            forall|k: int| 0 <= k < i ==> #[trigger] unchanged@[k] == (previous@.dom().contains(next.slots()[k]) && same(previous@[next.slots()[k]], next@[next.slots()[k]])),
        decreases next.slots().len() - i,
    {
        let here: usize = *next.value_at(i);
        let known: bool = match previous.get(next.key_at(i).as_str()) {
            Some(there) => trip_records_equivalent(
                &previous_data.trips[*there],
                &previous_data.routes,
                &previous_data.stops,
                &next_core.trips[here],
                &next_core.routes,
                &next_core.stops,
            ),
            None => false,
        };
        unchanged.push(known);
        i = i + 1;
    }
    collect_changed(&previous, &next, &unchanged, Ghost(same))
}

/// How far two timetables are apart.
#[derive(Clone, Copy, Debug, PartialEq, Eq, Structural)]
pub struct StaticDiffSummary {
    pub differential_applied: bool,
    pub mutated_entities: usize,
    pub total_entities: usize,
}

/// The greater of two counts.
pub open spec fn greater(a: nat, b: nat) -> nat {
    if a >= b { a } else { b }
}

fn greater_of(a: usize, b: usize) -> (count: usize)
    ensures
        count == greater(a as nat, b as nat),
{
    if a >= b { a } else { b }
}

/// How many stops, routes and trips differ between two timetables.
pub open spec fn mutated_count(previous: Tables, next: Tables) -> nat {
    changed_stop_ids(previous.stops, previous.active_stops, next.stops, next.active_stops).len()
        + changed_route_ids(previous.routes, previous.active_routes, next.routes, next.active_routes).len()
        + changed_trip_ids(previous, next).len()
}

/// How many stops, routes and trips the greater timetable has, each by itself.
pub open spec fn entity_count(previous: Tables, next: Tables) -> nat {
    greater(previous.active_stops.len(), next.active_stops.len()) + greater(previous.active_routes.len(), next.active_routes.len())
        + greater(previous.active_trips.len(), next.active_trips.len())
}

/// Counts what differs between two timetables.
pub fn summarize_static_divergence(previous: &StaticData, next: &StaticCore) -> (summary: StaticDiffSummary)
    requires
        tables_of(*previous).wf(),
        tables_of_core(*next).wf(),
        previous.active_stop_indices@.len() + next.active_stop_indices@.len() + previous.active_route_indices@.len() + next.active_route_indices@.len()
            + previous.active_trip_indices@.len() + next.active_trip_indices@.len() <= usize::MAX,
    ensures
        summary.mutated_entities == mutated_count(tables_of(*previous), tables_of_core(*next)),
        summary.total_entities == entity_count(tables_of(*previous), tables_of_core(*next)),
        summary.differential_applied == (summary.mutated_entities > 0),
{
    let changed_stops: Vec<String> = collect_changed_stop_ids(previous, next);
    let changed_routes: Vec<String> = collect_changed_route_ids(previous, next);
    let changed_trips: Vec<String> = collect_changed_trip_ids(previous, next);
    proof {
        texts_view(changed_stops@).unique_seq_to_set();
        texts_view(changed_routes@).unique_seq_to_set();
        texts_view(changed_trips@).unique_seq_to_set();
    }
    let mutated_entities: usize = changed_stops.len() + changed_routes.len() + changed_trips.len();
    let total_entities: usize = greater_of(previous.active_stop_indices.len(), next.active_stop_indices.len()) + greater_of(
        previous.active_route_indices.len(),
        next.active_route_indices.len(),
    ) + greater_of(previous.active_trip_indices.len(), next.active_trip_indices.len());
    StaticDiffSummary { differential_applied: mutated_entities > 0, mutated_entities: mutated_entities, total_entities: total_entities }
}

} // verus!
