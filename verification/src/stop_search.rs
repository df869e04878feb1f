//! Finding stops by what is typed.

use crate::model::{StaticData, StopRecord};
use crate::number::Real;
use crate::sources::{text_writes, RecordHasher};
use crate::static_changes::listed_within;
use crate::text::{
    ascii_lower_text, ascii_lowercase, begins_with, contains_text, copy_text, joined, lowercase, lowercase_text, occurs_in, same_text, starts_with, text_view,
    trim_text, trimmed,
};
use crate::text_order::{is_text_order, text_order, text_order_of, texts_view};
use std::collections::hash_map::DefaultHasher;
use vstd::bytes::spec_u64_to_le_bytes;
use vstd::prelude::*;
use vstd::std_specs::hash::DefaultHasherAdditionalSpecFns;
use vstd::string::*;

verus! {

/// Whether two texts are the same but for the case of Latin letters.
pub open spec fn same_but_case(a: Seq<char>, b: Seq<char>) -> bool {
    ascii_lower_text(a) == ascii_lower_text(b)
}

fn equal_but_case(a: &str, b: &str) -> (same: bool)
    ensures
        same == same_but_case(a@, b@),
{
    same_text(ascii_lowercase(a).as_str(), ascii_lowercase(b).as_str())
}

/// How well a stop fits a query: by its id, its code, the beginning of its search
/// text, or a part of it. Every stop fits an empty query.
pub open spec fn stop_score(stop: StopRecord, query: Seq<char>, needle: Seq<char>) -> Option<int> {
    if needle.len() == 0 || same_but_case(stop.id@, query) {
        Some(0)
    } else if stop.code is Some && same_but_case(stop.code->0@, query) {
        Some(1)
    } else if begins_with(stop.search_blob@, needle) {
        Some(2)
    } else if occurs_in(needle, stop.search_blob@) {
        Some(3)
    } else {
        None
    }
}

fn score_stop(stop: &StopRecord, query: &str, needle: &str) -> (score: Option<u8>)
    ensures
        match stop_score(*stop, query@, needle@) {
            Some(value) => score == Some(value as u8),
            None => score is None,
        },
{
    if needle.is_empty() || equal_but_case(stop.id.as_str(), query) {
        return Some(0);
    }
    let by_code: bool = match &stop.code {
        Some(code) => equal_but_case(code.as_str(), query),
        None => false,
    };
    if by_code {
        Some(1)
    } else if starts_with(stop.search_blob.as_str(), needle) {
        Some(2)
    } else if contains_text(stop.search_blob.as_str(), needle) {
        Some(3)
    } else {
        None
    }
}

/// The stops among the first `n` listed that fit a query.
pub open spec fn fitting_stops(stops: Seq<StopRecord>, listed: Seq<usize>, query: Seq<char>, needle: Seq<char>, n: int) -> Seq<usize>
    decreases n,
{
    if n <= 0 {
        Seq::empty()
    } else {
        let before = fitting_stops(stops, listed, query, needle, n - 1);
        if stop_score(stops[listed[n - 1] as int], query, needle) is Some { before.push(listed[n - 1]) } else { before }
    }
}

/// The ids of stops.
pub open spec fn ids_at(stops: Seq<StopRecord>, places: Seq<usize>) -> Seq<Seq<char>> {
    Seq::new(places.len(), |i: int| stops[places[i] as int].id@)
}

/// Of the first `n` stops in an order those with a score.
pub open spec fn with_score(stops: Seq<StopRecord>, ordered: Seq<usize>, query: Seq<char>, needle: Seq<char>, score: int, n: int) -> Seq<usize>
    decreases n,
{
    if n <= 0 {
        Seq::empty()
    } else {
        let before = with_score(stops, ordered, query, needle, score, n - 1);
        if stop_score(stops[ordered[n - 1] as int], query, needle) == Some(score) { before.push(ordered[n - 1]) } else { before }
    }
}

/// Stops in the order of their ids.
pub open spec fn by_id(stops: Seq<StopRecord>, places: Seq<usize>) -> Seq<usize> {
    Seq::new(places.len(), |i: int| places[text_order_of(ids_at(stops, places))[i] as int])
}

/// The stops in an order with scores below `n`, the best first.
pub open spec fn scored_below(stops: Seq<StopRecord>, ordered: Seq<usize>, query: Seq<char>, needle: Seq<char>, n: int) -> Seq<usize>
    decreases n,
{
    if n <= 0 {
        Seq::empty()
    } else {
        scored_below(stops, ordered, query, needle, n - 1) + with_score(stops, ordered, query, needle, n - 1, ordered.len() as int)
    }
}

/// The stops that are found for a query: the best fitting first, those that fit
/// as well as each other in the order of their ids, and no more than the limit.
pub open spec fn found_stops(stops: Seq<StopRecord>, listed: Seq<usize>, query: Seq<char>, needle: Seq<char>, limit: int) -> Seq<usize> {
    let ordered = by_id(stops, fitting_stops(stops, listed, query, needle, listed.len() as int));
    let all = scored_below(stops, ordered, query, needle, 4);
    if all.len() <= limit { all } else { all.take(limit) }
}

proof fn fitting_within(stops: Seq<StopRecord>, listed: Seq<usize>, query: Seq<char>, needle: Seq<char>, n: int)
    requires
        0 <= n <= listed.len(),
        listed_within(listed, stops.len() as int),
    ensures
        listed_within(fitting_stops(stops, listed, query, needle, n), stops.len() as int),
    decreases n,
{
    if n > 0 {
        fitting_within(stops, listed, query, needle, n - 1);
        assert(listed[n - 1] < stops.len());
    }
}

fn order_by_id(stops: &Vec<StopRecord>, places: &Vec<usize>) -> (ordered: Vec<usize>)
    requires
        listed_within(places@, stops@.len() as int),
    ensures
        ordered@ == by_id(stops@, places@),
        listed_within(ordered@, stops@.len() as int),
{
    let mut ids: Vec<String> = Vec::new();
    let mut i: usize = 0;
    while i < places.len()
        invariant
            i <= places.len(),
            listed_within(places@, stops@.len() as int),
            ids@.len() == i,
            forall|k: int| 0 <= k < i ==> (#[trigger] ids@[k])@ == stops@[places@[k] as int].id@,
        decreases places.len() - i,
    {
        assert(places@[i as int] < stops@.len());
        ids.push(stops[places[i]].id.clone());
        i = i + 1;
    }
    assert(texts_view(ids@) =~= ids_at(stops@, places@));
    let order: Vec<usize> = text_order(&ids);
    let mut ordered: Vec<usize> = Vec::new();
    let mut k: usize = 0;
    while k < order.len()
        invariant
            k <= order.len(),
            listed_within(places@, stops@.len() as int),
            is_text_order(ids_at(stops@, places@), order@),
            ordered@.len() == k,
            forall|j: int| 0 <= j < k ==> #[trigger] ordered@[j] == places@[order@[j] as int],
            listed_within(ordered@, stops@.len() as int),
        decreases order.len() - k,
    {
        assert(order@[k as int] < ids_at(stops@, places@).len());
        let place: usize = places[order[k]];
        assert(places@[order@[k as int] as int] < stops@.len());
        ordered.push(place);
        k = k + 1;
    }
    assert(ordered@ =~= by_id(stops@, places@));
    ordered
}

/// Finds stops for a query whose lower-case form is known.
pub fn rank_stops(stops: &Vec<StopRecord>, listed: &Vec<usize>, query: &str, needle: &str, limit: usize) -> (found: Vec<usize>)
    requires
        listed_within(listed@, stops@.len() as int),
    ensures
        found@ == found_stops(stops@, listed@, query@, needle@, limit as int),
{
    let mut fitting: Vec<usize> = Vec::new();
    let mut i: usize = 0;
    assert(fitting@ =~= Seq::<usize>::empty());
    while i < listed.len()
        invariant
            i <= listed.len(),
            listed_within(listed@, stops@.len() as int),
            fitting@ == fitting_stops(stops@, listed@, query@, needle@, i as int),
        decreases listed.len() - i,
    {
        assert(listed@[i as int] < stops@.len());
        if score_stop(&stops[listed[i]], query, needle).is_some() {
            fitting.push(listed[i]);
        }
        i = i + 1;
    }
    proof {
        fitting_within(stops@, listed@, query@, needle@, listed@.len() as int);
    }
    let ordered: Vec<usize> = order_by_id(stops, &fitting);
    let mut found: Vec<usize> = Vec::new();
    let mut score: u8 = 0;
    assert(found@ =~= scored_below(stops@, ordered@, query@, needle@, 0));
    while score < 4
        invariant
            score <= 4,
            listed_within(ordered@, stops@.len() as int),
            found@ == scored_below(stops@, ordered@, query@, needle@, score as int),
        decreases 4 - score,
    {
        let ghost before = found@;
        let mut k: usize = 0;
        assert(before + with_score(stops@, ordered@, query@, needle@, score as int, 0) =~= before);
        while k < ordered.len()
            invariant
                k <= ordered.len(),
                score < 4,
                listed_within(ordered@, stops@.len() as int),
                found@ == before + with_score(stops@, ordered@, query@, needle@, score as int, k as int),
            decreases ordered.len() - k,
        {
            assert(ordered@[k as int] < stops@.len());
            let hit: bool = match score_stop(&stops[ordered[k]], query, needle) {
                Some(value) => value == score,
                None => false,
            };
            if hit {
                found.push(ordered[k]);
            }
            k = k + 1;
            assert(found@ =~= before + with_score(stops@, ordered@, query@, needle@, score as int, k as int));
        }
        score = score + 1;
    }
    if found.len() > limit {
        found.truncate(limit);
        assert(found@ =~= scored_below(stops@, ordered@, query@, needle@, 4).take(limit as int));
    }
    found
}

/// Finds stops for a query.
pub fn search_stops(data: &StaticData, query: &str, limit: usize) -> (found: Vec<usize>)
    requires
        listed_within(data.active_stop_indices@, data.stops@.len() as int),
    ensures
        found@ == found_stops(data.stops@, data.active_stop_indices@, query@, lowercase_text(trim_text(query@)), limit as int),
{
    let needle: String = lowercase(trimmed(query).as_str());
    rank_stops(&data.stops, &data.active_stop_indices, query, needle.as_str(), limit)
}

proof fn scored_below_fit(stops: Seq<StopRecord>, ordered: Seq<usize>, query: Seq<char>, needle: Seq<char>, score: int, n: int)
    ensures
        forall|i: int| 0 <= i < with_score(stops, ordered, query, needle, score, n).len() ==> stop_score(
            stops[#[trigger] with_score(stops, ordered, query, needle, score, n)[i] as int],
            query,
            needle,
        ) == Some(score),
    decreases n,
{
    if n > 0 {
        scored_below_fit(stops, ordered, query, needle, score, n - 1);
        let before = with_score(stops, ordered, query, needle, score, n - 1);
        let longer = with_score(stops, ordered, query, needle, score, n);
        assert forall|i: int| 0 <= i < longer.len() implies stop_score(stops[#[trigger] longer[i] as int], query, needle) == Some(score) by {
            if i < before.len() {
                assert(longer[i] == before[i]);
            }
        }
    }
}

proof fn scores_ascend(stops: Seq<StopRecord>, ordered: Seq<usize>, query: Seq<char>, needle: Seq<char>, n: int)
    ensures
        ({
            let all = scored_below(stops, ordered, query, needle, n);
            &&& forall|i: int| 0 <= i < all.len() ==> stop_score(stops[#[trigger] all[i] as int], query, needle) is Some && stop_score(stops[all[i] as int], query, needle)->0 < n
            &&& forall|i: int, j: int| 0 <= i <= j < all.len() ==> stop_score(stops[#[trigger] all[i] as int], query, needle)->0 <= stop_score(
                stops[#[trigger] all[j] as int],
                query,
                needle,
            )->0
        }),
    decreases n,
{
    if n > 0 {
        scores_ascend(stops, ordered, query, needle, n - 1);
        scored_below_fit(stops, ordered, query, needle, n - 1, ordered.len() as int);
        let before = scored_below(stops, ordered, query, needle, n - 1);
        let last = with_score(stops, ordered, query, needle, n - 1, ordered.len() as int);
        let all = scored_below(stops, ordered, query, needle, n);
        assert forall|i: int| 0 <= i < all.len() implies #[trigger] all[i] == (if i < before.len() { before[i] } else { last[i - before.len()] }) by {}
        assert forall|i: int| 0 <= i < all.len() implies stop_score(stops[#[trigger] all[i] as int], query, needle) is Some && stop_score(stops[all[i] as int], query, needle)->0 < n by {
            if i < before.len() {
                assert(stop_score(stops[before[i] as int], query, needle) is Some);
            } else {
                assert(stop_score(stops[last[i - before.len()] as int], query, needle) == Some(n - 1));
            }
        }
        assert forall|i: int, j: int| 0 <= i <= j < all.len() implies stop_score(stops[#[trigger] all[i] as int], query, needle)->0 <= stop_score(
            stops[#[trigger] all[j] as int],
            query,
            needle,
        )->0 by {
            if j < before.len() {
                assert(stop_score(stops[before[i] as int], query, needle)->0 <= stop_score(stops[before[j] as int], query, needle)->0);
            } else {
                assert(stop_score(stops[last[j - before.len()] as int], query, needle) == Some(n - 1));
            }
        }
    }
}

/// A stop that fits a query better is found before one that fits it worse, and
/// every stop that is found fits.
pub proof fn better_stops_come_first(stops: Seq<StopRecord>, listed: Seq<usize>, query: Seq<char>, needle: Seq<char>, limit: int, i: int, j: int)
    requires
        0 <= limit,
        0 <= i <= j < found_stops(stops, listed, query, needle, limit).len(),
    ensures
        ({
            let found = found_stops(stops, listed, query, needle, limit);
            let first = stop_score(stops[found[i] as int], query, needle);
            let second = stop_score(stops[found[j] as int], query, needle);
            first is Some && second is Some && first->0 <= second->0
        }),
{
    let ordered = by_id(stops, fitting_stops(stops, listed, query, needle, listed.len() as int));
    scores_ascend(stops, ordered, query, needle, 4);
    let all = scored_below(stops, ordered, query, needle, 4);
    let found = found_stops(stops, listed, query, needle, limit);
    assert(found[i] == all[i] && found[j] == all[j]);
}

/// What is told of a stop.
#[derive(Clone, Debug)]
pub struct StopSearchResult {
    pub global_id: u64,
    pub feed_id: String,
    pub local_id: String,
    pub id: String,
    pub code: Option<String>,
    pub name: String,
    pub latitude: Option<Real>,
    pub longitude: Option<Real>,
    pub is_virtual: bool,
}

/// How many results are given where so many, or no number, were asked for: at
/// least one, at most `most`.
pub open spec fn limit_within(asked: Option<usize>, usual: usize, most: usize) -> usize {
    let number = match asked {
        Some(value) => value,
        None => usual,
    };
    if number < 1 {
        1
    } else if number > most {
        most
    } else {
        number
    }
}

fn limited(asked: Option<usize>, usual: usize, most: usize) -> (limit: usize)
    ensures
        limit == limit_within(asked, usual, most),
{
    let number: usize = match asked {
        Some(value) => value,
        None => usual,
    };
    if number < 1 {
        1
    } else if number > most {
        most
    } else {
        number
    }
}

/// How many stops are given to who searches for some.
pub fn stop_search_limit(asked: Option<usize>) -> (limit: usize)
    ensures
        limit == limit_within(asked, 12, 50),
{
    limited(asked, 12, 50)
}

/// How many delays are given to who asks for a sample.
pub fn delay_sample_limit(asked: Option<usize>) -> (limit: usize)
    ensures
        limit == limit_within(asked, 24, 200),
{
    limited(asked, 24, 200)
}

/// Tells of a stop of the timetable.
pub fn stop_result(stop: &StopRecord) -> (result: StopSearchResult)
    ensures
        result.global_id == stop.global_id,
        result.feed_id@ == stop.feed_id@,
        result.local_id@ == stop.local_id@,
        result.id@ == stop.id@,
        text_view(result.code) == text_view(stop.code),
        result.name@ == stop.name@,
        result.latitude == stop.latitude,
        result.longitude == stop.longitude,
        !result.is_virtual,
{
    StopSearchResult {
        global_id: stop.global_id,
        feed_id: stop.feed_id.clone(),
        local_id: stop.local_id.clone(),
        id: stop.id.clone(),
        code: copy_text(&stop.code),
        name: stop.name.clone(),
        latitude: stop.latitude,
        longitude: stop.longitude,
        is_virtual: false,
    }
}

/// The number of a place that is no stop: a hash of its label and of where it is,
/// behind sixteen bits that are set.
pub open spec fn virtual_number(label: Seq<char>, latitude: Real, longitude: Real) -> u64 {
    let hash = DefaultHasher::spec_finish(text_writes(label) + seq![spec_u64_to_le_bytes(latitude.bits), spec_u64_to_le_bytes(longitude.bits)]);
    0xFFFF_0000_0000_0000u64 | (hash & 0x0000_FFFF_FFFF_FFFF)
}

/// The number of a place that is no stop.
pub fn virtual_stop_global_id(label: &str, latitude: Real, longitude: Real) -> (number: u64)
    ensures
        number == virtual_number(label@, latitude, longitude),
{
    let mut hasher: RecordHasher = RecordHasher::new();
    hasher.write_text(label);
    hasher.write_number(latitude.bits);
    hasher.write_number(longitude.bits);
    assert(hasher@ =~= text_writes(label@) + seq![spec_u64_to_le_bytes(latitude.bits), spec_u64_to_le_bytes(longitude.bits)]);
    0xFFFF_0000_0000_0000 | (hasher.finish() & 0x0000_FFFF_FFFF_FFFF)
}

/// Tells of a place that is no stop. `local_id` is the place as it is written with
/// six digits behind the point, `shown` with five.
pub fn virtual_stop_result(label: &str, latitude: Real, longitude: Real, local_id: &str, shown: &str) -> (result: StopSearchResult)
    ensures
        result.global_id == virtual_number(label@, latitude, longitude),
        result.feed_id@ == "virtual"@,
        result.local_id@ == local_id@,
        result.id@ == "virtual:"@ + local_id@,
        result.code is None,
        result.name@ == label@ + " ("@ + shown@ + ")"@,
        result.latitude == Some(latitude),
        result.longitude == Some(longitude),
        result.is_virtual,
{
    let mut name: String = joined(label, " (");
    name.append(shown);
    name.append(")");
    StopSearchResult {
        global_id: virtual_stop_global_id(label, latitude, longitude),
        feed_id: "virtual".to_owned(),
        local_id: local_id.to_owned(),
        id: joined("virtual:", local_id),
        code: None,
        name: name,
        latitude: Some(latitude),
        longitude: Some(longitude),
        is_virtual: true,
    }
}

/// Where a stop is that a query names: by its number, or by its id, or with a
/// single feed by its local id.
pub open spec fn named_stop(data: StaticData, stop_id: Option<Seq<char>>, stop_gid: Option<u64>) -> Option<usize> {
    if stop_gid is Some && data.stop_lookup_by_global_id@.dom().contains(stop_gid->0) {
        Some(data.stop_lookup_by_global_id@[stop_gid->0])
    } else if stop_id is Some && data.stop_lookup@.dom().contains(stop_id->0) {
        Some(data.stop_lookup@[stop_id->0])
    } else if stop_id is Some && data.feeds@.len() == 1 {
        first_local(data.stops@, data.active_stop_indices@, stop_id->0, 0)
    } else {
        None
    }
}

/// The first stop listed, from the `k`th on, with a local id.
pub open spec fn first_local(stops: Seq<StopRecord>, listed: Seq<usize>, local_id: Seq<char>, k: int) -> Option<usize>
    decreases listed.len() - k,
{
    if k < 0 || k >= listed.len() {
        None
    } else if stops[listed[k] as int].local_id@ == local_id {
        Some(listed[k])
    } else {
        first_local(stops, listed, local_id, k + 1)
    }
}

fn find_local(data: &StaticData, id: &str) -> (stop: Option<usize>)
    requires
        listed_within(data.active_stop_indices@, data.stops@.len() as int),
    ensures
        stop == first_local(data.stops@, data.active_stop_indices@, id@, 0),
{
    let mut k: usize = 0;
    while k < data.active_stop_indices.len()
        invariant
            k <= data.active_stop_indices.len(),
            listed_within(data.active_stop_indices@, data.stops@.len() as int),
            first_local(data.stops@, data.active_stop_indices@, id@, 0) == first_local(data.stops@, data.active_stop_indices@, id@, k as int),
        decreases data.active_stop_indices.len() - k,
    {
        let index: usize = data.active_stop_indices[k];
        assert(data.active_stop_indices@[k as int] < data.stops@.len());
        if same_text(data.stops[index].local_id.as_str(), id) {
            return Some(index);
        }
        k = k + 1;
    }
    None
}

/// Finds the stop that a query names.
pub fn resolve_stop_query(data: &StaticData, stop_id: Option<&str>, stop_gid: Option<u64>) -> (stop: Option<usize>)
    requires
        listed_within(data.active_stop_indices@, data.stops@.len() as int),
    ensures
        stop == named_stop(
            *data,
            match stop_id {
                Some(id) => Some(id@),
                None => None,
            },
            stop_gid,
        ),
{
    match stop_gid {
        Some(gid) => match data.stop_lookup_by_global_id.get(&gid) {
            Some(index) => {
                return Some(*index);
            },
            None => {},
        },
        None => {},
    }
    match stop_id {
        None => None,
        Some(id) => {
            match data.stop_lookup.get(id) {
                Some(index) => {
                    return Some(*index);
                },
                None => {},
            }
            if data.feeds.len() != 1 {
                return None;
            }
            find_local(data, id)
        },
    }
}

} // verus!
