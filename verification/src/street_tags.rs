//! What the tags of ways say: who may use them, in which direction, and how fast.

use crate::config::{clamp_real, clamped_real};
use crate::number::Real;
use crate::text::{
    ascii_lower_text, ascii_lowercase, chars_of, contains_text, is_digit, occurs_in, push_char, same_text, text_between, text_view, trim_text, trimmed,
};
use vstd::prelude::*;
use vstd::string::*;

verus! {

/// How streets are travelled.
#[derive(Clone, Copy, Debug, PartialEq, Eq, Structural, Hash)]
pub enum StreetMode {
    Walk,
    Drive,
}

/// The mode that a text names, in any case and with white space around it; to
/// drive where nothing is given.
pub open spec fn mode_of(value: Option<Seq<char>>) -> Option<StreetMode> {
    match value {
        None => Some(StreetMode::Drive),
        Some(text) => {
            let plain = ascii_lower_text(trim_text(text));
            if plain == "walk"@ || plain == "foot"@ || plain == "pedestrian"@ {
                Some(StreetMode::Walk)
            } else if plain == "drive"@ || plain == "car"@ || plain == "auto"@ {
                Some(StreetMode::Drive)
            } else {
                None
            }
        },
    }
}

impl StreetMode {
    /// The mode that a text names; the text as it was understood where it names
    /// none.
    pub fn parse(value: Option<&str>) -> (mode: Result<StreetMode, String>)
        ensures
            ({
                let given = match value {
                    Some(text) => Some(text@),
                    None => None,
                };
                match mode {
                    Ok(found) => mode_of(given) == Some(found),
                    Err(text) => mode_of(given) is None && text@ == ascii_lower_text(trim_text(given->0)),
                }
            }),
    {
        match value {
            None => Ok(StreetMode::Drive),
            Some(text) => {
                let plain: String = ascii_lowercase(trimmed(text).as_str());
                let name: &str = plain.as_str();
                if same_text(name, "walk") || same_text(name, "foot") || same_text(name, "pedestrian") {
                    Ok(StreetMode::Walk)
                } else if same_text(name, "drive") || same_text(name, "car") || same_text(name, "auto") {
                    Ok(StreetMode::Drive)
                } else {
                    Err(plain)
                }
            },
        }
    }

    /// The name of the mode.
    pub fn as_str(self) -> (name: &'static str)
        ensures
            name@ == match self {
                StreetMode::Walk => "walk"@,
                StreetMode::Drive => "drive"@,
            },
    {
        match self {
            StreetMode::Walk => "walk",
            StreetMode::Drive => "drive",
        }
    }

    /// The speed in metres per second between a place and the network: 1.35 on
    /// foot, 8.33 by car.
    pub fn connector_speed_mps(self) -> (speed: Real)
        ensures
            speed.bits == match self {
                StreetMode::Walk => 4608758678669597082u64,
                StreetMode::Drive => 4620878991166757929u64,
            },
    {
        match self {
            StreetMode::Walk => Real { bits: 4608758678669597082 },
            StreetMode::Drive => Real { bits: 4620878991166757929 },
        }
    }

    /// The metres within which a place is on the network: 500 on foot, 2000 by
    /// car.
    pub fn max_snap_distance_meters(self) -> (distance: Real)
        ensures
            distance.bits == match self {
                StreetMode::Walk => 4647503709213818880u64,
                StreetMode::Drive => 4656510908468559872u64,
            },
    {
        match self {
            StreetMode::Walk => Real { bits: 4647503709213818880 },
            StreetMode::Drive => Real { bits: 4656510908468559872 },
        }
    }
}

/// The name of a mode is understood as the mode.
pub proof fn mode_names_are_understood(mode: StreetMode)
    ensures
        mode_of(
            Some(
                match mode {
                    StreetMode::Walk => "walk"@,
                    StreetMode::Drive => "drive"@,
                },
            ),
        ) == Some(mode),
{
    reveal_strlit("walk");
    reveal_strlit("drive");
    reveal_strlit("foot");
    reveal_strlit("pedestrian");
    match mode {
        StreetMode::Walk => {
            assert(trim_text("walk"@) == "walk"@);
            assert(ascii_lower_text("walk"@) =~= "walk"@);
        },
        StreetMode::Drive => {
            assert(trim_text("drive"@) == "drive"@);
            assert(ascii_lower_text("drive"@) =~= "drive"@);
            assert("drive"@.len() == 5 && "walk"@.len() == 4 && "foot"@.len() == 4 && "pedestrian"@.len() == 10);
        },
    }
}

/// The tags of a way, in the order in which they were written.
#[derive(Clone, Debug)]
pub struct Tags {
    pub pairs: Vec<(String, String)>,
}

/// What the first `n` of pairs say: the last with a key counts.
pub open spec fn pairs_map(pairs: Seq<(String, String)>, n: int) -> Map<Seq<char>, String>
    decreases n,
{
    if n <= 0 { Map::empty() } else { pairs_map(pairs, n - 1).insert(pairs[n - 1].0@, pairs[n - 1].1) }
}

proof fn longer_pairs(pairs: Seq<(String, String)>, pair: (String, String), n: int)
    requires
        n <= pairs.len(),
    ensures
        pairs_map(pairs.push(pair), n) == pairs_map(pairs, n),
    decreases n,
{
    if n > 0 {
        longer_pairs(pairs, pair, n - 1);
    }
}

impl Tags {
    /// What the tags say.
    pub open spec fn view(&self) -> Map<Seq<char>, String> {
        pairs_map(self.pairs@, self.pairs@.len() as int)
    }

    /// No tags.
    pub fn new() -> (tags: Tags)
        ensures
            tags@ == Map::<Seq<char>, String>::empty(),
            tags.pairs@.len() == 0,
    {
        Tags { pairs: Vec::new() }
    }

    /// Takes a tag in, in place of one with the same key.
    pub fn insert(&mut self, key: String, value: String)
        ensures
            final(self)@ == old(self)@.insert(key@, value),
            final(self).pairs@ == old(self).pairs@.push((key, value)),
    {
        proof {
            longer_pairs(self.pairs@, (key, value), self.pairs@.len() as int);
        }
        self.pairs.push((key, value));
    }

    /// The value of a tag.
    pub fn get(&self, key: &str) -> (value: Option<&String>)
        ensures
            value is Some <==> self@.dom().contains(key@),
            value is Some ==> *value->0 == self@[key@],
    {
        let mut i: usize = self.pairs.len();
        while i > 0
            invariant
                i <= self.pairs@.len(),
                self@.dom().contains(key@) == pairs_map(self.pairs@, i as int).dom().contains(key@),
                self@.dom().contains(key@) ==> self@[key@] == pairs_map(self.pairs@, i as int)[key@],
            decreases i,
        {
            if same_text(self.pairs[i - 1].0.as_str(), key) {
                return Some(&self.pairs[i - 1].1);
            }
            i = i - 1;
        }
        None
    }
}

/// What a tag says, if it is there.
pub open spec fn tag(tags: Map<Seq<char>, String>, key: Seq<char>) -> Option<Seq<char>> {
    if tags.dom().contains(key) { Some(tags[key]@) } else { None }
}

fn tag_is(tags: &Tags, key: &str, value: &str) -> (is: bool)
    ensures
        is == (tag(tags@, key@) == Some(value@)),
{
    match tags.get(key) {
        Some(found) => same_text(found.as_str(), value),
        None => false,
    }
}

/// Whether a tag forbids a way.
pub open spec fn forbidden_by(tags: Map<Seq<char>, String>, key: Seq<char>) -> bool {
    tag(tags, key) == Some("no"@) || tag(tags, key) == Some("private"@)
}

fn is_forbidden_by(tags: &Tags, key: &str) -> (forbidden: bool)
    ensures
        forbidden == forbidden_by(tags@, key@),
{
    tag_is(tags, key, "no") || tag_is(tags, key, "private")
}

/// Whether a kind of road is not for walking.
pub open spec fn unwalkable_road(kind: Seq<char>) -> bool {
    kind == "motorway"@ || kind == "motorway_link"@ || kind == "trunk"@ || kind == "trunk_link"@ || kind == "construction"@ || kind == "proposed"@ || kind == "raceway"@
        || kind == "bus_guideway"@
}

/// Whether a kind of road is not for driving.
pub open spec fn undriveable_road(kind: Seq<char>) -> bool {
    kind == "footway"@ || kind == "path"@ || kind == "cycleway"@ || kind == "steps"@ || kind == "bridleway"@ || kind == "corridor"@ || kind == "pedestrian"@
        || kind == "platform"@ || kind == "construction"@ || kind == "proposed"@ || kind == "raceway"@ || kind == "bus_guideway"@
}

/// Whether a way can be walked: it is no area, nothing forbids it, and it is a
/// road for walking, or without being a road a platform.
pub open spec fn walkable(tags: Map<Seq<char>, String>) -> bool {
    &&& tag(tags, "area"@) != Some("yes"@)
    &&& !forbidden_by(tags, "access"@)
    &&& !forbidden_by(tags, "foot"@) && tag(tags, "foot"@) != Some("use_sidepath"@)
    &&& tag(tags, "pedestrian"@) != Some("no"@)
    &&& match tag(tags, "highway"@) {
        Some(kind) => !unwalkable_road(kind),
        None => tag(tags, "railway"@) == Some("platform"@) || tag(tags, "public_transport"@) == Some("platform"@),
    }
}

/// Whether a way can be driven: it is no area, nothing forbids it, and it is a
/// road for driving.
pub open spec fn driveable(tags: Map<Seq<char>, String>) -> bool {
    &&& tag(tags, "area"@) != Some("yes"@)
    &&& !forbidden_by(tags, "access"@)
    &&& !forbidden_by(tags, "motor_vehicle"@)
    &&& !forbidden_by(tags, "motorcar"@)
    &&& match tag(tags, "highway"@) {
        Some(kind) => !undriveable_road(kind),
        None => false,
    }
}

/// Whether a way can be walked.
pub fn is_walkable_tags(tags: &Tags) -> (walk: bool)
    ensures
        walk == walkable(tags@),
{
    if tag_is(tags, "area", "yes") || is_forbidden_by(tags, "access") || is_forbidden_by(tags, "foot") || tag_is(tags, "foot", "use_sidepath") || tag_is(tags, "pedestrian", "no") {
        return false;
    }
    match tags.get("highway") {
        Some(highway) => {
            let kind: &str = highway.as_str();
            !(same_text(kind, "motorway") || same_text(kind, "motorway_link") || same_text(kind, "trunk") || same_text(kind, "trunk_link") || same_text(kind, "construction")
                || same_text(kind, "proposed") || same_text(kind, "raceway") || same_text(kind, "bus_guideway"))
        },
        None => tag_is(tags, "railway", "platform") || tag_is(tags, "public_transport", "platform"),
    }
}

/// Whether a way can be driven.
pub fn is_driveable_tags(tags: &Tags) -> (drive: bool)
    ensures
        drive == driveable(tags@),
{
    if tag_is(tags, "area", "yes") || is_forbidden_by(tags, "access") || is_forbidden_by(tags, "motor_vehicle") || is_forbidden_by(tags, "motorcar") {
        return false;
    }
    match tags.get("highway") {
        Some(highway) => {
            let kind: &str = highway.as_str();
            !(same_text(kind, "footway") || same_text(kind, "path") || same_text(kind, "cycleway") || same_text(kind, "steps") || same_text(kind, "bridleway")
                || same_text(kind, "corridor") || same_text(kind, "pedestrian") || same_text(kind, "platform") || same_text(kind, "construction")
                || same_text(kind, "proposed") || same_text(kind, "raceway") || same_text(kind, "bus_guideway"))
        },
        None => false,
    }
}

/// Whether a way is part of the network of a mode.
pub open spec fn in_network(mode: StreetMode, tags: Map<Seq<char>, String>) -> bool {
    match mode {
        StreetMode::Walk => walkable(tags),
        StreetMode::Drive => driveable(tags),
    }
}

/// Whether a way is part of the network of a mode.
pub fn matches_mode_way(mode: StreetMode, tags: &Tags) -> (part: bool)
    ensures
        part == in_network(mode, tags@),
{
    match mode {
        StreetMode::Walk => is_walkable_tags(tags),
        StreetMode::Drive => is_driveable_tags(tags),
    }
}

/// In which direction a way is travelled.
#[derive(Clone, Copy, Debug, PartialEq, Eq, Structural)]
pub enum TravelDirection {
    Both,
    ForwardOnly,
    ReverseOnly,
}

/// In which direction a way is travelled: on foot in both; by car as it says, and
/// roundabouts only forward.
pub open spec fn direction_of(mode: StreetMode, tags: Map<Seq<char>, String>) -> TravelDirection {
    let oneway = tag(tags, "oneway"@);
    if mode == StreetMode::Walk {
        TravelDirection::Both
    } else if tag(tags, "junction"@) == Some("roundabout"@) {
        TravelDirection::ForwardOnly
    } else if oneway == Some("-1"@) {
        TravelDirection::ReverseOnly
    } else if oneway == Some("yes"@) || oneway == Some("true"@) || oneway == Some("1"@) {
        TravelDirection::ForwardOnly
    } else {
        TravelDirection::Both
    }
}

/// In which direction a way is travelled.
pub fn way_direction(mode: StreetMode, tags: &Tags) -> (direction: TravelDirection)
    ensures
        direction == direction_of(mode, tags@),
{
    if mode == StreetMode::Walk {
        TravelDirection::Both
    } else if tag_is(tags, "junction", "roundabout") {
        TravelDirection::ForwardOnly
    } else if tag_is(tags, "oneway", "-1") {
        TravelDirection::ReverseOnly
    } else if tag_is(tags, "oneway", "yes") || tag_is(tags, "oneway", "true") || tag_is(tags, "oneway", "1") {
        TravelDirection::ForwardOnly
    } else {
        TravelDirection::Both
    }
}

/// What stands before the first semicolon.
pub open spec fn before_semicolon(text: Seq<char>) -> Seq<char>
    decreases text.len(),
{
    if text.len() == 0 || text[0] == ';' { Seq::empty() } else { seq![text[0]] + before_semicolon(text.drop_first()) }
}

/// Whether a character can be part of a number.
pub open spec fn is_numeric(c: char) -> bool {
    is_digit(c) || c == '.'
}

/// The first run of characters that can be part of a number, from a place on.
pub open spec fn numeric_run(text: Seq<char>, from: int, begun: bool) -> Seq<char>
    decreases text.len() - from,
{
    if from < 0 || from >= text.len() {
        Seq::empty()
    } else if is_numeric(text[from]) {
        seq![text[from]] + numeric_run(text, from + 1, true)
    } else if begun {
        Seq::empty()
    } else {
        numeric_run(text, from + 1, false)
    }
}

/// A speed as it is written: its number, and whether it is in miles per hour.
#[derive(Clone, Debug)]
pub struct WrittenSpeed {
    pub number: String,
    pub in_mph: bool,
}

/// The first of the speeds that a tag gives, in lower case.
pub open spec fn first_speed(raw: Seq<char>) -> Seq<char> {
    ascii_lower_text(trim_text(before_semicolon(raw)))
}

fn take_before_semicolon(raw: &str) -> (text: String)
    ensures
        text@ == before_semicolon(raw@),
{
    let chars: Vec<char> = chars_of(raw);
    let mut end: usize = 0;
    assert(chars@.take(0) + before_semicolon(chars@.skip(0)) =~= before_semicolon(chars@)) by {
        assert(chars@.skip(0) =~= chars@);
    }
    while end < chars.len() && chars[end] != ';'
        invariant
            end <= chars@.len(),
            chars@.take(end as int) + before_semicolon(chars@.skip(end as int)) == before_semicolon(chars@),
        decreases chars.len() - end,
    {
        proof {
            let rest = chars@.skip(end as int);
            assert(rest[0] == chars@[end as int]);
            assert(rest.drop_first() =~= chars@.skip(end + 1));
            assert(chars@.take(end + 1) + before_semicolon(chars@.skip(end + 1)) =~= chars@.take(end as int) + (seq![rest[0]] + before_semicolon(rest.drop_first())));
        }
        end = end + 1;
    }
    proof {
        let rest = chars@.skip(end as int);
        assert(before_semicolon(rest) =~= Seq::<char>::empty());
        assert(chars@.take(end as int) =~= before_semicolon(chars@));
        assert(chars@.subrange(0, end as int) =~= chars@.take(end as int));
    }
    text_between(&chars, 0, end)
}

/// Reads a speed as it is written: the first one where several are given. A speed
/// with a colon in it is none.
pub fn read_osm_speed(raw: &str) -> (speed: Option<WrittenSpeed>)
    ensures
        ({
            let value = first_speed(raw@);
            match speed {
                Some(written) => {
                    &&& value.len() > 0 && !value.contains(':')
                    &&& written.number@ == numeric_run(value, 0, false)
                    &&& written.in_mph == occurs_in("mph"@, value)
                },
                None => value.len() == 0 || value.contains(':'),
            }
        }),
{
    let value: String = ascii_lowercase(trimmed(take_before_semicolon(raw).as_str()).as_str());
    let chars: Vec<char> = chars_of(value.as_str());
    if chars.len() == 0 {
        return None;
    }
    let mut colon: usize = 0;
    while colon < chars.len()
        invariant
            colon <= chars@.len(),
            chars@ == first_speed(raw@),
            forall|k: int| 0 <= k < colon ==> chars@[k] != ':',
        decreases chars.len() - colon,
    {
        if chars[colon] == ':' {
            assert(chars@[colon as int] == ':');
            assert(chars@.contains(':'));
            return None;
        }
        colon = colon + 1;
    }
    assert(!chars@.contains(':'));
    let mut number: String = String::new();
    let mut i: usize = 0;
    let mut begun: bool = false;
    let mut done: bool = false;
    assert(number@ + numeric_run(chars@, 0, false) =~= numeric_run(chars@, 0, false));
    while i < chars.len() && !done
        invariant
            i <= chars@.len(),
            done ==> number@ == numeric_run(chars@, 0, false),
            !done ==> number@ + numeric_run(chars@, i as int, begun) == numeric_run(chars@, 0, false),
        decreases chars.len() - i,
    {
        let c: char = chars[i];
        let ghost before = number@;
        if ('0' <= c && c <= '9') || c == '.' {
            push_char(&mut number, c);
            begun = true;
            assert(number@ + numeric_run(chars@, i + 1, true) =~= before + (seq![c] + numeric_run(chars@, i + 1, true)));
        } else if begun {
            done = true;
            assert(before + Seq::<char>::empty() =~= before);
        }
        i = i + 1;
    }
    assert(!done ==> numeric_run(chars@, i as int, begun) =~= Seq::<char>::empty());
    assert(!done ==> number@ =~= number@ + numeric_run(chars@, i as int, begun));
    let in_mph: bool = contains_text(value.as_str(), "mph");
    Some(WrittenSpeed { number: number, in_mph: in_mph })
}

/// The usual speed on a kind of road, in metres per second.
pub open spec fn road_speed(kind: Option<Seq<char>>) -> u64 {
    if kind == Some("motorway"@) {
        4629887597796382474
    } else if kind == Some("motorway_link"@) {
        4626947591664639672
    } else if kind == Some("trunk"@) {
        4628512592535150920
    } else if kind == Some("trunk_link"@) || kind == Some("primary"@) {
        4626165091229384049
    } else if kind == Some("primary_link"@) || kind == Some("secondary"@) {
        4625385405543895532
    } else if kind == Some("secondary_link"@) || kind == Some("tertiary"@) {
        4624008992907780424
    } else if kind == Some("tertiary_link"@) {
        4622443992037269176
    } else if kind == Some("residential"@) || kind == Some("living_street"@) {
        4620878991166757929
    } else if kind == Some("service"@) {
        4617946021909432893
    } else if kind == Some("track"@) {
        4616381021038921646
    } else {
        4622443992037269176
    }
}

fn usual_speed(tags: &Tags) -> (speed: Real)
    ensures
        speed.bits == road_speed(tag(tags@, "highway"@)),
{
    let bits: u64 = if tag_is(tags, "highway", "motorway") {
        4629887597796382474
    } else if tag_is(tags, "highway", "motorway_link") {
        4626947591664639672
    } else if tag_is(tags, "highway", "trunk") {
        4628512592535150920
    } else if tag_is(tags, "highway", "trunk_link") || tag_is(tags, "highway", "primary") {
        4626165091229384049
    } else if tag_is(tags, "highway", "primary_link") || tag_is(tags, "highway", "secondary") {
        4625385405543895532
    } else if tag_is(tags, "highway", "secondary_link") || tag_is(tags, "highway", "tertiary") {
        4624008992907780424
    } else if tag_is(tags, "highway", "tertiary_link") {
        4622443992037269176
    } else if tag_is(tags, "highway", "residential") || tag_is(tags, "highway", "living_street") {
        4620878991166757929
    } else if tag_is(tags, "highway", "service") {
        4617946021909432893
    } else if tag_is(tags, "highway", "track") {
        4616381021038921646
    } else {
        4622443992037269176
    };
    Real { bits: bits }
}

/// The speed on a way in metres per second: on foot always the same; by car what
/// its speed limit was measured to be, between 4 and 40, or else what is usual on
/// its kind of road.
pub fn way_speed_mps(mode: StreetMode, tags: &Tags, max_speed: Option<Real>) -> (speed: Real)
    ensures
        speed == match mode {
            StreetMode::Walk => Real { bits: 4608758678669597082u64 },
            StreetMode::Drive => match max_speed {
                Some(limit) => clamped_real(limit, Real { bits: 4616189618054758400u64 }, Real { bits: 4630826316843712512u64 }),
                None => Real { bits: road_speed(tag(tags@, "highway"@)) },
            },
        },
{
    match mode {
        StreetMode::Walk => mode.connector_speed_mps(),
        StreetMode::Drive => match max_speed {
            Some(limit) => clamp_real(limit, Real { bits: 4616189618054758400 }, Real { bits: 4630826316843712512 }),
            None => usual_speed(tags),
        },
    }
}

/// The name that tags give a way, if it is not blank.
pub open spec fn tagged_name(tags: Map<Seq<char>, String>) -> Option<Seq<char>> {
    match tag(tags, "name"@) {
        Some(name) => if trim_text(name).len() > 0 { Some(trim_text(name)) } else { None },
        None => None,
    }
}

/// The name that tags give a way.
pub fn way_name(tags: &Tags) -> (name: Option<String>)
    ensures
        text_view(name) == tagged_name(tags@),
{
    match tags.get("name") {
        Some(name) => {
            let short: String = trimmed(name.as_str());
            if short.as_str().is_empty() { None } else { Some(short) }
        },
        None => None,
    }
}

} // verus!
