//! Directions along the line of a walk or a drive.

use crate::number::Real;
use crate::stop_search::same_but_case;
use crate::text::{ascii_lowercase, joined, same_text, text_view, trim_text, trimmed};
use crate::walk_geometry::{fitted_ways, normalize_segment_way_ids, segment_count, WalkGeometry, WalkView};
use std::collections::HashMap;
use vstd::prelude::*;
use vstd::string::*;

verus! {

/// Which way a line turns in a point.
#[derive(Clone, Copy, Debug, PartialEq, Eq, Structural)]
pub enum Turn {
    Straight,
    Left,
    Right,
}

/// What is to be done in a point.
#[derive(Clone, Copy, Debug, PartialEq, Eq, Structural)]
pub enum Maneuver {
    Depart,
    Continue,
    TurnLeft,
    TurnRight,
    Arrive,
}

impl Maneuver {
    /// The name of what is to be done.
    pub fn as_str(self) -> (name: &'static str)
        ensures
            name@ == match self {
                Maneuver::Depart => "depart"@,
                Maneuver::Continue => "continue"@,
                Maneuver::TurnLeft => "turn-left"@,
                Maneuver::TurnRight => "turn-right"@,
                Maneuver::Arrive => "arrive"@,
            },
    {
        match self {
            Maneuver::Depart => "depart",
            Maneuver::Continue => "continue",
            Maneuver::TurnLeft => "turn-left",
            Maneuver::TurnRight => "turn-right",
            Maneuver::Arrive => "arrive",
        }
    }
}

/// Whether directions are for walking or for driving.
#[derive(Clone, Copy, Debug, PartialEq, Eq, Structural)]
pub enum TurnDirectionNarrative {
    Walk,
    Drive,
}

/// A direction.
#[derive(Clone, Debug)]
pub struct WalkDirection {
    pub maneuver: Maneuver,
    pub instruction: String,
    pub street_name: Option<String>,
    pub distance_meters: Real,
    pub lat: Real,
    pub lon: Real,
}

/// What a direction says.
pub struct DirectionView {
    pub maneuver: Maneuver,
    pub instruction: Seq<char>,
    pub street_name: Option<Seq<char>>,
    pub distance_meters: Real,
    pub lat: Real,
    pub lon: Real,
}

impl WalkDirection {
    /// What the direction says.
    pub open spec fn view(&self) -> DirectionView {
        DirectionView {
            maneuver: self.maneuver,
            instruction: self.instruction@,
            street_name: text_view(self.street_name),
            distance_meters: self.distance_meters,
            lat: self.lat,
            lon: self.lon,
        }
    }
}

/// What directions say.
pub open spec fn directions_view(directions: Seq<WalkDirection>) -> Seq<DirectionView> {
    Seq::new(directions.len(), |i: int| directions[i]@)
}

/// The name of a way, without white space around it, if it has one.
pub open spec fn way_label(way: Option<i64>, names: Map<i64, String>) -> Option<Seq<char>> {
    match way {
        Some(id) => if names.dom().contains(id) && trim_text(names[id]@).len() > 0 { Some(trim_text(names[id]@)) } else { None },
        None => None,
    }
}

/// The name of a way.
pub fn road_label_for_way(way_id: Option<i64>, way_names: &HashMap<i64, String>) -> (label: Option<String>)
    ensures
        text_view(label) == way_label(way_id, way_names@),
{
    match way_id {
        Some(id) => match way_names.get(&id) {
            Some(name) => {
                let short: String = trimmed(name.as_str());
                if short.as_str().is_empty() { None } else { Some(short) }
            },
            None => None,
        },
        None => None,
    }
}

/// Whether two ways are the same road: the same way, or ways whose names are the
/// same but for case and white space around them.
pub open spec fn same_road(a: Option<i64>, b: Option<i64>, names: Map<i64, String>) -> bool {
    match (a, b) {
        (Some(x), Some(y)) => x == y || names.dom().contains(x) && names.dom().contains(y) && same_but_case(trim_text(names[x]@), trim_text(names[y]@)),
        (None, None) => true,
        _ => false,
    }
}

/// Whether two ways are the same road.
pub fn same_road_identity(previous_way_id: Option<i64>, next_way_id: Option<i64>, way_names: &HashMap<i64, String>) -> (same: bool)
    ensures
        same == same_road(previous_way_id, next_way_id, way_names@),
{
    match (previous_way_id, next_way_id) {
        (Some(x), Some(y)) => {
            if x == y {
                return true;
            }
            match (way_names.get(&x), way_names.get(&y)) {
                (Some(a), Some(b)) => same_text(ascii_lowercase(trimmed(a.as_str()).as_str()).as_str(), ascii_lowercase(trimmed(b.as_str()).as_str()).as_str()),
                _ => false,
            }
        },
        (None, None) => true,
        _ => false,
    }
}

/// What is said of a maneuver, with the name of a street where it is known.
pub open spec fn on_street(what: Seq<char>, street: Option<Seq<char>>) -> Seq<char> {
    match street {
        Some(name) => what + " su "@ + name,
        None => what,
    }
}

fn say_on_street(what: &str, street: &Option<String>) -> (text: String)
    ensures
        text@ == on_street(what@, text_view(*street)),
{
    let mut text: String = what.to_owned();
    match street {
        Some(name) => {
            text.append(" su ");
            text.append(name.as_str());
        },
        None => {},
    }
    text
}

/// What is said at the beginning.
pub open spec fn departure_text(narrative: TurnDirectionNarrative, street: Option<Seq<char>>) -> Seq<char> {
    match narrative {
        TurnDirectionNarrative::Walk => on_street("Parti a piedi"@, street),
        TurnDirectionNarrative::Drive => on_street("Parti in auto"@, street),
    }
}

/// What is said in a turn.
pub open spec fn turn_text(turn: Turn, street: Option<Seq<char>>) -> Seq<char> {
    match turn {
        Turn::Left => on_street("Svolta a sinistra"@, street),
        Turn::Right => on_street("Svolta a destra"@, street),
        Turn::Straight => on_street("Continua dritto"@, street),
    }
}

/// What is said at the end.
pub open spec fn arrival_text(destination: Seq<char>) -> Seq<char> {
    if trim_text(destination).len() == 0 { "Arrivo a destinazione"@ } else { "Arrivo a "@ + trim_text(destination) }
}

/// What is to be done in a turn.
pub open spec fn turn_maneuver(turn: Turn) -> Maneuver {
    match turn {
        Turn::Left => Maneuver::TurnLeft,
        Turn::Right => Maneuver::TurnRight,
        Turn::Straight => Maneuver::Continue,
    }
}

/// The name of the first way, from the `k`th on, that has one.
pub open spec fn first_label(ways: Seq<Option<i64>>, names: Map<i64, String>, k: int) -> Option<Seq<char>>
    decreases ways.len() - k,
{
    if k < 0 || k >= ways.len() {
        None
    } else if way_label(ways[k], names) is Some {
        way_label(ways[k], names)
    } else {
        first_label(ways, names, k + 1)
    }
}

fn find_first_label(ways: &Vec<Option<i64>>, way_names: &HashMap<i64, String>) -> (label: Option<String>)
    ensures
        text_view(label) == first_label(ways@, way_names@, 0),
{
    let mut k: usize = 0;
    while k < ways.len()
        invariant
            k <= ways@.len(),
            first_label(ways@, way_names@, 0) == first_label(ways@, way_names@, k as int),
        decreases ways.len() - k,
    {
        let label: Option<String> = road_label_for_way(ways[k], way_names);
        if label.is_some() {
            return label;
        }
        k = k + 1;
    }
    None
}

/// What was measured along a line: how it turns in each point, how far each point
/// is along it, and for each point the first before it that is within the least
/// distance between two directions.
pub struct LineMeasures {
    pub turns: Vec<Turn>,
    pub distances: Vec<Real>,
    pub close_from: Vec<usize>,
}

/// Whether measures are those of a line of so many points.
pub open spec fn measures_fit(measures: LineMeasures, points: int) -> bool {
    measures.turns@.len() == points && measures.distances@.len() == points && measures.close_from@.len() == points
}

/// Whether a direction is given in a point: where the road changes, unless the
/// line goes straight on to a road without a name, or the last direction is close
/// and the road has no name.
pub open spec fn gives_direction(ways: Seq<Option<i64>>, names: Map<i64, String>, measures: LineMeasures, pivot: int, last: int) -> bool {
    let street = way_label(ways[pivot], names);
    &&& ways[pivot - 1] is Some && ways[pivot] is Some
    &&& !same_road(ways[pivot - 1], ways[pivot], names)
    &&& !(measures.turns@[pivot] == Turn::Straight && street is None)
    &&& !(street is None && last >= measures.close_from@[pivot])
}

/// The direction in a point.
pub open spec fn turn_direction(walk: WalkView, ways: Seq<Option<i64>>, names: Map<i64, String>, measures: LineMeasures, pivot: int) -> DirectionView {
    let street = way_label(ways[pivot], names);
    DirectionView {
        maneuver: turn_maneuver(measures.turns@[pivot]),
        instruction: turn_text(measures.turns@[pivot], street),
        street_name: street,
        distance_meters: measures.distances@[pivot],
        lat: walk.points[pivot].lat,
        lon: walk.points[pivot].lon,
    }
}

/// Directions given so far, and the point of the last.
pub struct Given {
    pub directions: Seq<DirectionView>,
    pub last: int,
}

/// The directions up to before a point.
pub open spec fn directions_before(walk: WalkView, ways: Seq<Option<i64>>, names: Map<i64, String>, measures: LineMeasures, narrative: TurnDirectionNarrative, n: int) -> Given
    decreases n,
{
    if n <= 1 {
        let street = first_label(ways, names, 0);
        let start = DirectionView {
            maneuver: Maneuver::Depart,
            instruction: departure_text(narrative, street),
            street_name: street,
            distance_meters: Real { bits: 0 },
            lat: walk.points[0].lat,
            lon: walk.points[0].lon,
        };
        Given { directions: seq![start], last: 0 }
    } else {
        let before = directions_before(walk, ways, names, measures, narrative, n - 1);
        if gives_direction(ways, names, measures, n - 1, before.last) {
            Given { directions: before.directions.push(turn_direction(walk, ways, names, measures, n - 1)), last: n - 1 }
        } else {
            before
        }
    }
}

/// The directions along a line: at its beginning, in its turns, and at its end.
pub open spec fn line_directions(walk: WalkView, names: Map<i64, String>, measures: LineMeasures, destination: Seq<char>, narrative: TurnDirectionNarrative) -> Seq<DirectionView> {
    let count = walk.points.len() as int;
    if count < 2 {
        Seq::empty()
    } else {
        let ways = fitted_ways(walk.ways, segment_count(count));
        let end = DirectionView {
            maneuver: Maneuver::Arrive,
            instruction: arrival_text(destination),
            street_name: None,
            distance_meters: measures.distances@[count - 1],
            lat: walk.points[count - 1].lat,
            lon: walk.points[count - 1].lon,
        };
        directions_before(walk, ways, names, measures, narrative, count - 1).directions.push(end)
    }
}

fn push_direction(directions: &mut Vec<WalkDirection>, direction: WalkDirection)
    ensures
        directions_view(final(directions)@) == directions_view(old(directions)@).push(direction@),
{
    let ghost before = directions@;
    directions.push(direction);
    assert(directions_view(directions@) =~= directions_view(before).push(direction@));
}

fn turn_in(geometry: &WalkGeometry, turn: Turn, street_name: Option<String>, distance: Real, pivot: usize) -> (direction: WalkDirection)
    requires
        pivot < geometry.polyline@.len(),
    ensures
        direction@ == (DirectionView {
            maneuver: turn_maneuver(turn),
            instruction: turn_text(turn, text_view(street_name)),
            street_name: text_view(street_name),
            distance_meters: distance,
            lat: geometry.polyline@[pivot as int].lat,
            lon: geometry.polyline@[pivot as int].lon,
        }),
{
    let (maneuver, what) = match turn {
        Turn::Left => (Maneuver::TurnLeft, "Svolta a sinistra"),
        Turn::Right => (Maneuver::TurnRight, "Svolta a destra"),
        Turn::Straight => (Maneuver::Continue, "Continua dritto"),
    };
    let instruction: String = say_on_street(what, &street_name);
    WalkDirection {
        maneuver: maneuver,
        instruction: instruction,
        street_name: street_name,
        distance_meters: distance,
        lat: geometry.polyline[pivot].lat,
        lon: geometry.polyline[pivot].lon,
    }
}

/// Gives directions along a line that was measured.
pub fn build_turn_directions(
    geometry: &WalkGeometry,
    way_names: &HashMap<i64, String>,
    destination_name: &str,
    narrative: TurnDirectionNarrative,
    measures: &LineMeasures,
) -> (directions: Vec<WalkDirection>)
    requires
        measures_fit(*measures, geometry.polyline@.len() as int),
    ensures
        directions_view(directions@) == line_directions(geometry@, way_names@, *measures, destination_name@, narrative),
{
    let mut directions: Vec<WalkDirection> = Vec::new();
    let count: usize = geometry.polyline.len();
    if count < 2 {
        assert(directions_view(directions@) =~= Seq::<DirectionView>::empty());
        return directions;
    }
    let ways: Vec<Option<i64>> = normalize_segment_way_ids(&geometry.polyline, &geometry.segment_way_ids);
    let start_street: Option<String> = find_first_label(&ways, way_names);
    let begin: &str = match narrative {
        TurnDirectionNarrative::Walk => "Parti a piedi",
        TurnDirectionNarrative::Drive => "Parti in auto",
    };
    let instruction: String = say_on_street(begin, &start_street);
    push_direction(
        &mut directions,
        WalkDirection {
            maneuver: Maneuver::Depart,
            instruction: instruction,
            street_name: start_street,
            distance_meters: Real { bits: 0 },
            lat: geometry.polyline[0].lat,
            lon: geometry.polyline[0].lon,
        },
    );
    assert(directions_view(directions@) =~= directions_before(geometry@, ways@, way_names@, *measures, narrative, 1).directions);
    let mut last: usize = 0;
    let mut pivot: usize = 1;
    while pivot < count - 1
        invariant
            count == geometry.polyline@.len(),
            count >= 2,
            1 <= pivot <= count - 1,
            measures_fit(*measures, count as int),
            ways@ == fitted_ways(geometry@.ways, segment_count(count as int)),
            directions_view(directions@) == directions_before(geometry@, ways@, way_names@, *measures, narrative, pivot as int).directions,
            last == directions_before(geometry@, ways@, way_names@, *measures, narrative, pivot as int).last,
        decreases count - pivot,
    {
        let changes: bool = ways[pivot - 1].is_some() && ways[pivot].is_some() && !same_road_identity(ways[pivot - 1], ways[pivot], way_names);
        if changes {
            let turn: Turn = measures.turns[pivot];
            let street_name: Option<String> = road_label_for_way(ways[pivot], way_names);
            let unnamed: bool = street_name.is_none();
            let skipped: bool = unnamed && (turn == Turn::Straight || last >= measures.close_from[pivot]);
            if !skipped {
                push_direction(&mut directions, turn_in(geometry, turn, street_name, measures.distances[pivot], pivot));
                last = pivot;
            }
        }
        pivot = pivot + 1;
    }
    let destination: String = trimmed(destination_name);
    let arrival: String = if destination.as_str().is_empty() { "Arrivo a destinazione".to_owned() } else { joined("Arrivo a ", destination.as_str()) };
    push_direction(
        &mut directions,
        WalkDirection {
            maneuver: Maneuver::Arrive,
            instruction: arrival,
            street_name: None,
            distance_meters: measures.distances[count - 1],
            lat: geometry.polyline[count - 1].lat,
            lon: geometry.polyline[count - 1].lon,
        },
    );
    directions
}

/// Gives directions for a walk.
pub fn build_walk_directions(geometry: &WalkGeometry, way_names: &HashMap<i64, String>, destination_name: &str, measures: &LineMeasures) -> (directions: Vec<WalkDirection>)
    requires
        measures_fit(*measures, geometry.polyline@.len() as int),
    ensures
        directions_view(directions@) == line_directions(geometry@, way_names@, *measures, destination_name@, TurnDirectionNarrative::Walk),
{
    build_turn_directions(geometry, way_names, destination_name, TurnDirectionNarrative::Walk, measures)
}

/// Gives directions for a drive.
pub fn build_road_directions(geometry: &WalkGeometry, way_names: &HashMap<i64, String>, destination_name: &str, measures: &LineMeasures) -> (directions: Vec<WalkDirection>)
    requires
        measures_fit(*measures, geometry.polyline@.len() as int),
    ensures
        directions_view(directions@) == line_directions(geometry@, way_names@, *measures, destination_name@, TurnDirectionNarrative::Drive),
{
    build_turn_directions(geometry, way_names, destination_name, TurnDirectionNarrative::Drive, measures)
}

/// Directions begin at the beginning of a line and end at its end, and say nothing
/// of arriving before.
pub proof fn directions_begin_and_end(walk: WalkView, names: Map<i64, String>, measures: LineMeasures, destination: Seq<char>, narrative: TurnDirectionNarrative)
    requires
        walk.points.len() >= 2,
    ensures
        ({
            let directions = line_directions(walk, names, measures, destination, narrative);
            &&& directions.len() >= 2
            &&& directions[0].maneuver == Maneuver::Depart
            &&& directions.last().maneuver == Maneuver::Arrive
            &&& forall|i: int| 0 < i < directions.len() - 1 ==> (#[trigger] directions[i]).maneuver != Maneuver::Depart && directions[i].maneuver != Maneuver::Arrive
        }),
{
    let ways = fitted_ways(walk.ways, segment_count(walk.points.len() as int));
    directions_between(walk, ways, names, measures, narrative, walk.points.len() - 1);
    let before = directions_before(walk, ways, names, measures, narrative, walk.points.len() - 1).directions;
    let directions = line_directions(walk, names, measures, destination, narrative);
    assert forall|i: int| 0 < i < directions.len() - 1 implies (#[trigger] directions[i]).maneuver != Maneuver::Depart && directions[i].maneuver != Maneuver::Arrive by {
        assert(directions[i] == before[i]);
    }
}

proof fn directions_between(walk: WalkView, ways: Seq<Option<i64>>, names: Map<i64, String>, measures: LineMeasures, narrative: TurnDirectionNarrative, n: int)
    ensures
        ({
            let given = directions_before(walk, ways, names, measures, narrative, n).directions;
            &&& given.len() >= 1
            &&& given[0].maneuver == Maneuver::Depart
            &&& forall|i: int| 0 < i < given.len() ==> (#[trigger] given[i]).maneuver != Maneuver::Depart && given[i].maneuver != Maneuver::Arrive
        }),
    decreases n,
{
    if n > 1 {
        directions_between(walk, ways, names, measures, narrative, n - 1);
    }
}

} // verus!
