//! Journeys as they are offered: how crowded they are, which is the best in what,
//! and what they are called.

use crate::candidates::QueryItineraryCandidate;
use crate::leg::CachedLeg;
use crate::order::{arranged, is_stable_order, stable_order, stable_order_of, OrderKey};
use crate::text::{decimal, decimal_text, joined, push_char};
use crate::text_order::{is_text_order, text_order, text_order_of, texts_view};
use vstd::prelude::*;

verus! {

/// Legs of a journey that are shown as one: from one leg up to before another.
#[derive(Clone, Copy, Debug, PartialEq, Eq, Structural)]
pub struct LegRun {
    pub start: usize,
    pub end: usize,
}

/// The end of the walks that begin with a leg.
pub open spec fn walks_end(legs: Seq<CachedLeg>, from: int) -> int
    decreases legs.len() - from,
{
    if 0 <= from < legs.len() && !legs[from].is_transit() { walks_end(legs, from + 1) } else { from }
}

/// The legs from one on, as they are shown: each ride by itself, and walks one
/// after the other as one.
pub open spec fn runs_from(legs: Seq<CachedLeg>, from: int) -> Seq<LegRun>
    decreases legs.len() - from,
{
    if from < 0 || from >= legs.len() {
        Seq::empty()
    } else if legs[from].is_transit() {
        seq![LegRun { start: from as usize, end: (from + 1) as usize }] + runs_from(legs, from + 1)
    } else {
        let end = walks_end(legs, from);
        if from < end <= legs.len() { seq![LegRun { start: from as usize, end: end as usize }] + runs_from(legs, end) } else { Seq::empty() }
    }
}

/// Groups the legs of a journey as they are shown.
pub fn leg_runs(legs: &Vec<CachedLeg>) -> (runs: Vec<LegRun>)
    ensures
        runs@ == runs_from(legs@, 0),
{
    let mut runs: Vec<LegRun> = Vec::new();
    let mut index: usize = 0;
    assert(runs@ + runs_from(legs@, 0) =~= runs_from(legs@, 0));
    while index < legs.len()
        invariant
            index <= legs@.len(),
            runs@ + runs_from(legs@, index as int) == runs_from(legs@, 0),
        decreases legs.len() - index,
    {
        let start: usize = index;
        let walk: bool = match legs[index] {
            CachedLeg::Walk { .. } => true,
            CachedLeg::Transit { .. } => false,
        };
        if walk {
            let mut more: bool = true;
            while more
                invariant
                    start <= index <= legs@.len(),
                    index == start ==> more && start < legs@.len() && !legs@[start as int].is_transit(),
                    walks_end(legs@, start as int) == walks_end(legs@, index as int),
                    !more ==> walks_end(legs@, index as int) == index,
                    more ==> index < legs@.len() && !legs@[index as int].is_transit(),
                decreases legs.len() - index, more as int,
            {
                index = index + 1;
                more = if index < legs.len() {
                    match legs[index] {
                        CachedLeg::Walk { .. } => true,
                        CachedLeg::Transit { .. } => false,
                    }
                } else {
                    false
                };
            }
        } else {
            index = index + 1;
        }
        let ghost before = runs@;
        let run: LegRun = LegRun { start: start, end: index };
        runs.push(run);
        assert(runs@ + runs_from(legs@, index as int) =~= before + (seq![run] + runs_from(legs@, index as int)));
    }
    assert(runs@ + runs_from(legs@, index as int) =~= runs@);
    runs
}

/// What is known of the rides of a journey.
#[derive(Clone, Copy, Debug, PartialEq, Eq, Structural)]
pub struct RideReport {
    pub has_gtfs_rt: bool,
    pub occupancy_score: Option<u16>,
    pub is_canceled: bool,
}

/// How crowded a journey is.
#[derive(Clone, Copy, Debug, PartialEq, Eq, Structural)]
pub enum CrowdingLevel {
    Unknown,
    Low,
    Medium,
    High,
}

impl CrowdingLevel {
    /// The name of the level.
    pub fn as_str(self) -> (name: &'static str)
        ensures
            name@ == match self {
                CrowdingLevel::Unknown => "unknown"@,
                CrowdingLevel::Low => "low"@,
                CrowdingLevel::Medium => "medium"@,
                CrowdingLevel::High => "high"@,
            },
    {
        match self {
            CrowdingLevel::Unknown => "unknown",
            CrowdingLevel::Low => "low",
            CrowdingLevel::Medium => "medium",
            CrowdingLevel::High => "high",
        }
    }
}

/// What is known of a journey from its rides.
#[derive(Clone, Copy, Debug, PartialEq, Eq, Structural)]
pub struct ItineraryPassiveMetrics {
    pub transit_leg_count: usize,
    pub transit_legs_with_gtfs_rt: usize,
    pub occupancy_covered_transit_legs: usize,
    pub crowding_score: Option<u16>,
    pub crowding_level: CrowdingLevel,
    pub canceled_transit_legs: usize,
    pub has_canceled_legs: bool,
}

/// How many of the first `n` rides have live data.
pub open spec fn live_rides(rides: Seq<RideReport>, n: int) -> int
    decreases n,
{
    if n <= 0 { 0 } else { live_rides(rides, n - 1) + if rides[n - 1].has_gtfs_rt { 1int } else { 0int } }
}

/// Of how many of the first `n` rides it is known how crowded they are.
pub open spec fn covered_rides(rides: Seq<RideReport>, n: int) -> int
    decreases n,
{
    if n <= 0 { 0 } else { covered_rides(rides, n - 1) + if rides[n - 1].occupancy_score is Some { 1int } else { 0int } }
}

/// How many of the first `n` rides are canceled.
pub open spec fn canceled_rides(rides: Seq<RideReport>, n: int) -> int
    decreases n,
{
    if n <= 0 { 0 } else { canceled_rides(rides, n - 1) + if rides[n - 1].is_canceled { 1int } else { 0int } }
}

/// The sum of how crowded the first `n` rides are, as far as it can be counted.
pub open spec fn crowding_total(rides: Seq<RideReport>, n: int) -> int
    decreases n,
{
    if n <= 0 {
        0
    } else {
        let before = crowding_total(rides, n - 1);
        match rides[n - 1].occupancy_score {
            Some(score) => if before + score > u16::MAX { u16::MAX as int } else { before + score },
            None => before,
        }
    }
}

/// How crowded a journey is, by its score.
pub open spec fn level_of(score: Option<u16>, covered: int) -> CrowdingLevel {
    match score {
        None => CrowdingLevel::Unknown,
        Some(value) => if covered == 0 {
            CrowdingLevel::Unknown
        } else if value <= 35 {
            CrowdingLevel::Low
        } else if value <= 70 {
            CrowdingLevel::Medium
        } else {
            CrowdingLevel::High
        },
    }
}

/// How crowded a journey is, by its score.
pub fn passive_occupancy_level(score: Option<u16>, covered_legs: usize) -> (level: CrowdingLevel)
    ensures
        level == level_of(score, covered_legs as int),
{
    match score {
        None => CrowdingLevel::Unknown,
        Some(value) => if covered_legs == 0 {
            CrowdingLevel::Unknown
        } else if value <= 35 {
            CrowdingLevel::Low
        } else if value <= 70 {
            CrowdingLevel::Medium
        } else {
            CrowdingLevel::High
        },
    }
}

/// How crowded a ride is: its percentage, no more than 150, or else a number for
/// its status.
pub open spec fn occupancy_score_of(status: Option<i32>, percentage: Option<u32>) -> Option<u16> {
    if percentage is Some {
        Some(if percentage->0 < 150 { percentage->0 as u16 } else { 150u16 })
    } else if status == Some(0i32) {
        Some(0u16)
    } else if status == Some(1i32) {
        Some(20u16)
    } else if status == Some(2i32) {
        Some(45u16)
    } else if status == Some(3i32) {
        Some(75u16)
    } else if status == Some(4i32) {
        Some(90u16)
    } else if status == Some(5i32) {
        Some(100u16)
    } else if status == Some(6i32) {
        Some(110u16)
    } else if status == Some(8i32) {
        Some(120u16)
    } else {
        None
    }
}

/// How crowded a ride is.
pub fn passive_occupancy_score(occupancy_status: Option<i32>, occupancy_percentage: Option<u32>) -> (score: Option<u16>)
    ensures
        score == occupancy_score_of(occupancy_status, occupancy_percentage),
{
    match occupancy_percentage {
        Some(percentage) => {
            return Some(if percentage < 150 { percentage as u16 } else { 150 });
        },
        None => {},
    }
    match occupancy_status {
        Some(value) => if value == 0 {
            Some(0)
        } else if value == 1 {
            Some(20)
        } else if value == 2 {
            Some(45)
        } else if value == 3 {
            Some(75)
        } else if value == 4 {
            Some(90)
        } else if value == 5 {
            Some(100)
        } else if value == 6 {
            Some(110)
        } else if value == 8 {
            Some(120)
        } else {
            None
        },
        None => None,
    }
}

/// What is known of a journey from its rides.
pub open spec fn metrics_of(rides: Seq<RideReport>) -> ItineraryPassiveMetrics {
    let n = rides.len() as int;
    let covered = covered_rides(rides, n);
    let score = if covered > 0 { Some((crowding_total(rides, n) / covered) as u16) } else { None };
    ItineraryPassiveMetrics {
        transit_leg_count: n as usize,
        transit_legs_with_gtfs_rt: live_rides(rides, n) as usize,
        occupancy_covered_transit_legs: covered as usize,
        crowding_score: score,
        crowding_level: level_of(score, covered),
        canceled_transit_legs: canceled_rides(rides, n) as usize,
        has_canceled_legs: canceled_rides(rides, n) > 0,
    }
}

/// Sums up what is known of the rides of a journey. There are no more rides than
/// a mean of scores can be taken of.
pub fn score_itinerary_passive_metrics(rides: &Vec<RideReport>) -> (metrics: ItineraryPassiveMetrics)
    requires
        covered_rides(rides@, rides@.len() as int) <= u16::MAX,
    ensures
        metrics == metrics_of(rides@),
{
    let mut live: usize = 0;
    let mut covered: usize = 0;
    let mut total: u16 = 0;
    let mut canceled: usize = 0;
    let mut i: usize = 0;
    while i < rides.len()
        invariant
            i <= rides@.len(),
            live == live_rides(rides@, i as int),
            covered == covered_rides(rides@, i as int),
            total == crowding_total(rides@, i as int),
            canceled == canceled_rides(rides@, i as int),
            live <= i,
            covered <= i,
            canceled <= i,
        decreases rides.len() - i,
    {
        let ride: RideReport = rides[i];
        if ride.has_gtfs_rt {
            live = live + 1;
        }
        match ride.occupancy_score {
            Some(score) => {
                covered = covered + 1;
                total = if score > 65535 - total { 65535 } else { total + score };
            },
            None => {},
        }
        if ride.is_canceled {
            canceled = canceled + 1;
        }
        i = i + 1;
    }
    let score: Option<u16> = if covered > 0 { Some(total / covered as u16) } else { None };
    ItineraryPassiveMetrics {
        transit_leg_count: rides.len(),
        transit_legs_with_gtfs_rt: live,
        occupancy_covered_transit_legs: covered,
        crowding_score: score,
        crowding_level: passive_occupancy_level(score, covered),
        canceled_transit_legs: canceled,
        has_canceled_legs: canceled > 0,
    }
}

/// A number with a sign, in decimal digits.
pub open spec fn signed_text(n: int) -> Seq<char> {
    if n < 0 { seq!['-'] + decimal_text((-n) as nat) } else { decimal_text(n as nat) }
}

fn push_signed(text: &mut String, n: i64)
    requires
        n > i64::MIN,
    ensures
        final(text)@ == old(text)@ + signed_text(n as int),
{
    let ghost before = text@;
    if n < 0 {
        push_char(text, '-');
        text.append(decimal((-n) as u64).as_str());
    } else {
        text.append(decimal(n as u64).as_str());
    }
    assert(text@ =~= before + signed_text(n as int));
}

/// The id of a journey: the round that found it, its arrival and its changes.
pub open spec fn itinerary_id(round: int, arrival_secs: int, transfers: int) -> Seq<char> {
    "round-"@ + decimal_text(round as nat) + seq!['-'] + signed_text(arrival_secs) + seq!['-'] + decimal_text(transfers as nat)
}

/// How many changes a journey has.
pub open spec fn transfers_of(transit_legs: int) -> int {
    if transit_legs > 0 { transit_legs - 1 } else { 0 }
}

/// A journey as it is offered, but for its legs: those are found by its place
/// among the journeys that were found.
#[derive(Clone, Debug)]
pub struct QueryItineraryResponse {
    pub place: usize,
    pub id: String,
    pub label: String,
    pub badges: Vec<String>,
    pub is_recommended: bool,
    pub is_fastest: bool,
    pub is_fewest_transfers: bool,
    pub is_best_realtime: bool,
    pub is_least_crowded: bool,
    pub departure_secs: i32,
    pub arrival_secs: i32,
    pub duration_seconds: i32,
    pub transfers: usize,
    pub metrics: ItineraryPassiveMetrics,
}

/// What is compared of a journey.
pub struct Offer {
    pub place: int,
    pub id: Seq<char>,
    pub arrival_secs: i32,
    pub duration: int,
    pub transfers: int,
    pub metrics: ItineraryPassiveMetrics,
}

/// What is compared of the `i`th journey.
pub open spec fn offer_of(candidate: QueryItineraryCandidate, rides: Seq<RideReport>, departure_secs: i32, place: int) -> Offer {
    let transfers = transfers_of(candidate.transit_legs as int);
    Offer {
        place: place,
        id: itinerary_id(candidate.round as int, candidate.arrival_secs as int, transfers),
        arrival_secs: candidate.arrival_secs,
        duration: candidate.arrival_secs - departure_secs,
        transfers: transfers,
        metrics: metrics_of(rides),
    }
}

/// What is compared of journeys.
pub open spec fn offers_of(candidates: Seq<QueryItineraryCandidate>, rides: Seq<Vec<RideReport>>, departure_secs: i32) -> Seq<Offer> {
    Seq::new(candidates.len(), |i: int| offer_of(candidates[i], rides[i]@, departure_secs, i))
}

/// How crowded a journey is, for comparing: those of which it is not known last.
pub open spec fn crowding_rank(score: Option<u16>) -> int {
    match score {
        Some(value) => value as int,
        None => 65536,
    }
}

/// The key by which journeys are ordered: those with canceled rides last, then
/// by duration, changes, rides with live data, how crowded they are, and of how
/// many rides that is known.
pub open spec fn offer_key(offer: Offer) -> OrderKey {
    (
        (((if offer.metrics.has_canceled_legs { 0x1_0000_0000int } else { 0 }) + offer.duration + 0x8000_0000) * 0x1_0000_0000_0000_0000 + offer.transfers) as i128,
        (0xFFFF_FFFF_FFFF_FFFF - offer.metrics.transit_legs_with_gtfs_rt) as i128,
        (crowding_rank(offer.metrics.crowding_score) * 0x1_0000_0000_0000_0000 + 0xFFFF_FFFF_FFFF_FFFF - offer.metrics.occupancy_covered_transit_legs) as i128,
    )
}

/// The ids of journeys.
pub open spec fn offer_ids(offers: Seq<Offer>) -> Seq<Seq<char>> {
    Seq::new(offers.len(), |i: int| offers[i].id)
}

/// The keys of journeys.
pub open spec fn offer_keys(offers: Seq<Offer>) -> Seq<OrderKey> {
    Seq::new(offers.len(), |i: int| offer_key(offers[i]))
}

/// Journeys in the order in which they are offered: by their keys, and those with
/// equal keys by their ids.
pub open spec fn ordered_offers(offers: Seq<Offer>) -> Seq<Offer> {
    let by_id = arranged(offers, text_order_of(offer_ids(offers)));
    arranged(by_id, stable_order_of(offer_keys(by_id)))
}

/// The least duration of the first `n` journeys.
pub open spec fn least_duration(offers: Seq<Offer>, n: int) -> int
    decreases n,
{
    if n <= 1 {
        if offers.len() > 0 { offers[0].duration } else { 0 }
    } else {
        let before = least_duration(offers, n - 1);
        if offers[n - 1].duration < before { offers[n - 1].duration } else { before }
    }
}

/// The least number of changes of the first `n` journeys.
pub open spec fn least_transfers(offers: Seq<Offer>, n: int) -> int
    decreases n,
{
    if n <= 1 {
        if offers.len() > 0 { offers[0].transfers } else { 0 }
    } else {
        let before = least_transfers(offers, n - 1);
        if offers[n - 1].transfers < before { offers[n - 1].transfers } else { before }
    }
}

/// The most rides with live data of the first `n` journeys.
pub open spec fn most_live(offers: Seq<Offer>, n: int) -> int
    decreases n,
{
    if n <= 0 {
        0
    } else {
        let before = most_live(offers, n - 1);
        let here = offers[n - 1].metrics.transit_legs_with_gtfs_rt as int;
        if here > before { here } else { before }
    }
}

/// How crowded the least crowded of the first `n` journeys is, of those of which
/// it is known.
pub open spec fn least_crowding(offers: Seq<Offer>, n: int) -> Option<u16>
    decreases n,
{
    if n <= 0 {
        None
    } else {
        let before = least_crowding(offers, n - 1);
        let metrics = offers[n - 1].metrics;
        if metrics.occupancy_covered_transit_legs > 0 && metrics.crowding_score is Some {
            if before is Some && before->0 <= metrics.crowding_score->0 { before } else { metrics.crowding_score }
        } else {
            before
        }
    }
}

/// The best of journeys.
#[derive(Clone, Copy, Debug, PartialEq, Eq, Structural)]
pub struct Bests {
    pub duration: i32,
    pub transfers: usize,
    pub live: usize,
    pub crowding: Option<u16>,
}

/// The label of a journey: what it is the best in, first of all its speed.
pub open spec fn label_of(index: int, recommended: bool, fastest: bool, fewest: bool, live: bool, uncrowded: bool) -> Seq<char> {
    if fastest {
        "Piu veloce"@
    } else if live {
        "Migliori dati RT"@
    } else if uncrowded {
        "Meno affollato"@
    } else if fewest {
        "Meno cambi"@
    } else if recommended {
        "Consigliato"@
    } else {
        "Alternativa "@ + decimal_text((index + 1) as nat)
    }
}

fn alternative(index: usize) -> (text: String)
    requires
        index < usize::MAX,
    ensures
        text@ == "Alternativa "@ + decimal_text((index + 1) as nat),
{
    joined("Alternativa ", decimal((index + 1) as u64).as_str())
}

/// The label of a journey.
pub fn build_itinerary_label(index: usize, is_recommended: bool, is_fastest: bool, is_fewest_transfers: bool, is_best_realtime: bool, is_least_crowded: bool) -> (label: String)
    requires
        index < usize::MAX,
    ensures
        label@ == label_of(index as int, is_recommended, is_fastest, is_fewest_transfers, is_best_realtime, is_least_crowded),
{
    if is_fastest {
        "Piu veloce".to_owned()
    } else if is_best_realtime {
        "Migliori dati RT".to_owned()
    } else if is_least_crowded {
        "Meno affollato".to_owned()
    } else if is_fewest_transfers {
        "Meno cambi".to_owned()
    } else if is_recommended {
        "Consigliato".to_owned()
    } else {
        alternative(index)
    }
}

/// A list with one more text, where a condition holds.
pub open spec fn with_badge(badges: Seq<Seq<char>>, holds: bool, badge: Seq<char>) -> Seq<Seq<char>> {
    if holds { badges.push(badge) } else { badges }
}

/// The badges of a journey: all that it is the best in, and whether some of its
/// rides are canceled.
pub open spec fn badges_of(index: int, recommended: bool, fastest: bool, fewest: bool, live: bool, uncrowded: bool, canceled: bool) -> Seq<Seq<char>> {
    let a = with_badge(Seq::empty(), recommended, "Consigliato"@);
    let b = with_badge(a, fastest, "Piu veloce"@);
    let c = with_badge(b, fewest, "Meno cambi"@);
    let d = with_badge(c, live, "Migliori dati RT"@);
    let e = with_badge(d, uncrowded, "Meno affollato"@);
    let f = with_badge(e, canceled, "Contiene CANCELED"@);
    if f.len() == 0 { seq!["Alternativa "@ + decimal_text((index + 1) as nat)] } else { f }
}

fn push_badge(badges: &mut Vec<String>, holds: bool, badge: &str)
    ensures
        texts_view(final(badges)@) == with_badge(texts_view(old(badges)@), holds, badge@),
{
    if holds {
        let ghost before = badges@;
        badges.push(badge.to_owned());
        assert(texts_view(badges@) =~= texts_view(before).push(badge@));
    }
}

/// The badges of a journey.
pub fn build_itinerary_badges(
    index: usize,
    is_recommended: bool,
    is_fastest: bool,
    is_fewest_transfers: bool,
    is_best_realtime: bool,
    is_least_crowded: bool,
    has_canceled_legs: bool,
) -> (badges: Vec<String>)
    requires
        index < usize::MAX,
    ensures
        texts_view(badges@) == badges_of(index as int, is_recommended, is_fastest, is_fewest_transfers, is_best_realtime, is_least_crowded, has_canceled_legs),
{
    let mut badges: Vec<String> = Vec::new();
    assert(texts_view(badges@) =~= Seq::<Seq<char>>::empty());
    push_badge(&mut badges, is_recommended, "Consigliato");
    push_badge(&mut badges, is_fastest, "Piu veloce");
    push_badge(&mut badges, is_fewest_transfers, "Meno cambi");
    push_badge(&mut badges, is_best_realtime, "Migliori dati RT");
    push_badge(&mut badges, is_least_crowded, "Meno affollato");
    push_badge(&mut badges, has_canceled_legs, "Contiene CANCELED");
    assert(texts_view(badges@).len() == badges@.len());
    if badges.len() == 0 {
        badges.push(alternative(index));
        assert(texts_view(badges@) =~= seq!["Alternativa "@ + decimal_text((index + 1) as nat)]);
    }
    badges
}

/// Whether a response is a journey as it is offered in a place.
pub open spec fn is_response(response: QueryItineraryResponse, offer: Offer, departure_secs: i32, bests: Bests, index: int) -> bool {
    let recommended = index == 0;
    let fastest = offer.duration == bests.duration;
    let fewest = offer.transfers == bests.transfers;
    let live = bests.live > 0 && offer.metrics.transit_legs_with_gtfs_rt == bests.live;
    let uncrowded = bests.crowding is Some && offer.metrics.occupancy_covered_transit_legs > 0 && offer.metrics.crowding_score == bests.crowding;
    &&& response.place == offer.place
    &&& response.id@ == offer.id
    &&& response.departure_secs == departure_secs
    &&& response.arrival_secs == offer.arrival_secs
    &&& response.duration_seconds == offer.duration
    &&& response.transfers == offer.transfers
    &&& response.metrics == offer.metrics
    &&& response.is_recommended == recommended
    &&& response.is_fastest == fastest
    &&& response.is_fewest_transfers == fewest
    &&& response.is_best_realtime == live
    &&& response.is_least_crowded == uncrowded
    &&& response.label@ == label_of(index, recommended, fastest, fewest, live, uncrowded)
    &&& texts_view(response.badges@) == badges_of(index, recommended, fastest, fewest, live, uncrowded, offer.metrics.has_canceled_legs)
}

/// The best of journeys.
pub open spec fn bests_of(offers: Seq<Offer>, bests: Bests) -> bool {
    let n = offers.len() as int;
    bests.duration == least_duration(offers, n) && bests.transfers == least_transfers(offers, n) && bests.live == most_live(offers, n) && bests.crowding == least_crowding(offers, n)
}

/// Whether journeys can be compared: their durations can be counted, and so can
/// their scores.
pub open spec fn candidates_fit(candidates: Seq<QueryItineraryCandidate>, rides: Seq<Vec<RideReport>>, departure_secs: i32) -> bool {
    &&& candidates.len() == rides.len()
    &&& forall|i: int| 0 <= i < candidates.len() ==> {
        &&& i32::MIN <= (#[trigger] candidates[i]).arrival_secs - departure_secs <= i32::MAX
        &&& covered_rides(rides[i]@, rides[i]@.len() as int) <= u16::MAX
    }
}

fn plain_response(candidate: &QueryItineraryCandidate, rides: &Vec<RideReport>, departure_secs: i32, place: usize) -> (response: QueryItineraryResponse)
    requires
        i32::MIN <= candidate.arrival_secs - departure_secs <= i32::MAX,
        covered_rides(rides@, rides@.len() as int) <= u16::MAX,
    ensures
        ({
            let offer = offer_of(*candidate, rides@, departure_secs, place as int);
            &&& response.place == place
            &&& response.id@ == offer.id
            &&& response.departure_secs == departure_secs
            &&& response.arrival_secs == offer.arrival_secs
            &&& response.duration_seconds == offer.duration
            &&& response.transfers == offer.transfers
            &&& response.metrics == offer.metrics
        }),
{
    let transfers: usize = if candidate.transit_legs > 0 { candidate.transit_legs - 1 } else { 0 };
    let mut id: String = joined("round-", decimal(candidate.round as u64).as_str());
    push_char(&mut id, '-');
    push_signed(&mut id, candidate.arrival_secs as i64);
    push_char(&mut id, '-');
    id.append(decimal(transfers as u64).as_str());
    assert(id@ =~= itinerary_id(candidate.round as int, candidate.arrival_secs as int, transfers as int));
    QueryItineraryResponse {
        place: place,
        id: id,
        label: String::new(),
        badges: Vec::new(),
        is_recommended: false,
        is_fastest: false,
        is_fewest_transfers: false,
        is_best_realtime: false,
        is_least_crowded: false,
        departure_secs: departure_secs,
        arrival_secs: candidate.arrival_secs,
        duration_seconds: candidate.arrival_secs - departure_secs,
        transfers: transfers,
        metrics: score_itinerary_passive_metrics(rides),
    }
}

/// Whether a response says what is compared of a journey.
pub open spec fn says(response: QueryItineraryResponse, offer: Offer) -> bool {
    &&& response.place == offer.place
    &&& response.id@ == offer.id
    &&& response.arrival_secs == offer.arrival_secs
    &&& response.duration_seconds == offer.duration
    &&& response.transfers == offer.transfers
    &&& response.metrics == offer.metrics
}

fn find_bests(responses: &Vec<QueryItineraryResponse>, Ghost(offers): Ghost<Seq<Offer>>) -> (bests: Bests)
    requires
        responses@.len() == offers.len(),
        forall|i: int| 0 <= i < offers.len() ==> says(#[trigger] responses@[i], offers[i]),
    ensures
        bests_of(offers, bests),
{
    let mut bests: Bests = Bests { duration: 0, transfers: 0, live: 0, crowding: None };
    let mut i: usize = 0;
    while i < responses.len()
        invariant
            i <= responses@.len(),
            responses@.len() == offers.len(),
            forall|k: int| 0 <= k < offers.len() ==> says(#[trigger] responses@[k], offers[k]),
            i > 0 ==> bests.duration == least_duration(offers, i as int) && bests.transfers == least_transfers(offers, i as int),
            i == 0 ==> bests.duration == 0 && bests.transfers == 0,
            bests.live == most_live(offers, i as int),
            bests.crowding == least_crowding(offers, i as int),
        decreases responses.len() - i,
    {
        let response: &QueryItineraryResponse = &responses[i];
        assert(says(responses@[i as int], offers[i as int]));
        if i == 0 || response.duration_seconds < bests.duration {
            bests.duration = response.duration_seconds;
        }
        if i == 0 || response.transfers < bests.transfers {
            bests.transfers = response.transfers;
        }
        if response.metrics.transit_legs_with_gtfs_rt > bests.live {
            bests.live = response.metrics.transit_legs_with_gtfs_rt;
        }
        if response.metrics.occupancy_covered_transit_legs > 0 {
            match response.metrics.crowding_score {
                Some(score) => match bests.crowding {
                    Some(best) => {
                        if score < best {
                            bests.crowding = Some(score);
                        }
                    },
                    None => {
                        bests.crowding = Some(score);
                    },
                },
                None => {},
            }
        }
        i = i + 1;
    }
    bests
}

fn copy_response(response: &QueryItineraryResponse) -> (copy: QueryItineraryResponse)
    ensures
        copy.place == response.place,
        copy.id@ == response.id@,
        copy.departure_secs == response.departure_secs,
        copy.arrival_secs == response.arrival_secs,
        copy.duration_seconds == response.duration_seconds,
        copy.transfers == response.transfers,
        copy.metrics == response.metrics,
{
    QueryItineraryResponse {
        place: response.place,
        id: response.id.clone(),
        label: String::new(),
        badges: Vec::new(),
        is_recommended: false,
        is_fastest: false,
        is_fewest_transfers: false,
        is_best_realtime: false,
        is_least_crowded: false,
        departure_secs: response.departure_secs,
        arrival_secs: response.arrival_secs,
        duration_seconds: response.duration_seconds,
        transfers: response.transfers,
        metrics: response.metrics,
    }
}

fn key_of(response: &QueryItineraryResponse, Ghost(offer): Ghost<Offer>) -> (key: OrderKey)
    requires
        says(*response, offer),
    ensures
        key == offer_key(offer),
{
    let canceled: i128 = if response.metrics.has_canceled_legs { 0x1_0000_0000 } else { 0 };
    let crowding: i128 = match response.metrics.crowding_score {
        Some(score) => score as i128,
        None => 65536,
    };
    (
        (canceled + response.duration_seconds as i128 + 0x8000_0000) * 0x1_0000_0000_0000_0000 + response.transfers as i128,
        0xFFFF_FFFF_FFFF_FFFF - response.metrics.transit_legs_with_gtfs_rt as i128,
        crowding * 0x1_0000_0000_0000_0000 + 0xFFFF_FFFF_FFFF_FFFF - response.metrics.occupancy_covered_transit_legs as i128,
    )
}

fn order_responses(responses: Vec<QueryItineraryResponse>, departure_secs: i32, Ghost(offers): Ghost<Seq<Offer>>) -> (ordered: Vec<QueryItineraryResponse>)
    requires
        responses@.len() == offers.len(),
        forall|i: int| 0 <= i < offers.len() ==> says(#[trigger] responses@[i], offers[i]) && responses@[i].departure_secs == departure_secs,
    ensures
        ordered@.len() == offers.len(),
        ordered_offers(offers).len() == offers.len(),
        forall|i: int| 0 <= i < offers.len() ==> says(#[trigger] ordered@[i], ordered_offers(offers)[i]) && ordered@[i].departure_secs == departure_secs,
{
    let mut ids: Vec<String> = Vec::new();
    let mut i: usize = 0;
    while i < responses.len()
        invariant
            i <= responses@.len(),
            responses@.len() == offers.len(),
            forall|k: int| 0 <= k < offers.len() ==> says(#[trigger] responses@[k], offers[k]),
            ids@.len() == i,
            forall|k: int| 0 <= k < i ==> (#[trigger] ids@[k])@ == offers[k].id,
        decreases responses.len() - i,
    {
        assert(says(responses@[i as int], offers[i as int]));
        ids.push(responses[i].id.clone());
        i = i + 1;
    }
    assert(texts_view(ids@) =~= offer_ids(offers));
    let id_order: Vec<usize> = text_order(&ids);
    let ghost by_id = arranged(offers, id_order@);
    let mut keys: Vec<OrderKey> = Vec::new();
    let mut k: usize = 0;
    while k < id_order.len()
        invariant
            k <= id_order@.len(),
            is_text_order(offer_ids(offers), id_order@),
            by_id == arranged(offers, id_order@),
            responses@.len() == offers.len(),
            forall|j: int| 0 <= j < offers.len() ==> says(#[trigger] responses@[j], offers[j]),
            keys@ =~= offer_keys(by_id).take(k as int),
        decreases id_order.len() - k,
    {
        assert(id_order@[k as int] < offer_ids(offers).len());
        let at: usize = id_order[k];
        assert(says(responses@[at as int], offers[at as int]));
        keys.push(key_of(&responses[at], Ghost(by_id[k as int])));
        k = k + 1;
    }
    assert(offer_keys(by_id).take(k as int) =~= offer_keys(by_id));
    let order: Vec<usize> = stable_order(&keys);
    let mut ordered: Vec<QueryItineraryResponse> = Vec::new();
    let mut n: usize = 0;
    while n < order.len()
        invariant
            n <= order@.len(),
            is_text_order(offer_ids(offers), id_order@),
            by_id == arranged(offers, id_order@),
            keys@ == offer_keys(by_id),
            is_stable_order(keys@, order@),
            responses@.len() == offers.len(),
            forall|j: int| 0 <= j < offers.len() ==> says(#[trigger] responses@[j], offers[j]) && responses@[j].departure_secs == departure_secs,
            ordered@.len() == n,
            forall|j: int| 0 <= j < n ==> says(#[trigger] ordered@[j], by_id[order@[j] as int]) && ordered@[j].departure_secs == departure_secs,
        decreases order.len() - n,
    {
        assert(order@[n as int] < keys@.len());
        let at: usize = id_order[order[n]];
        assert(id_order@[order@[n as int] as int] < offer_ids(offers).len());
        assert(says(responses@[at as int], offers[at as int]));
        let copy: QueryItineraryResponse = copy_response(&responses[at]);
        ordered.push(copy);
        n = n + 1;
    }
    proof {
        assert(ordered_offers(offers) == arranged(by_id, order@));
        assert forall|j: int| 0 <= j < offers.len() implies says(#[trigger] ordered@[j], ordered_offers(offers)[j]) by {
            assert(ordered_offers(offers)[j] == by_id[order@[j] as int]);
        }
    }
    ordered
}

/// Makes the journeys that were found ready to be offered, given what is known of
/// their rides: puts them in order, and says which is the best in what.
pub fn hydrate_query_itinerary_candidates(candidates: &Vec<QueryItineraryCandidate>, rides: &Vec<Vec<RideReport>>, departure_secs: i32) -> (responses: Vec<QueryItineraryResponse>)
    requires
        candidates_fit(candidates@, rides@, departure_secs),
    ensures
        ({
            let offers = offers_of(candidates@, rides@, departure_secs);
            &&& responses@.len() == candidates@.len()
            &&& exists|bests: Bests| {
                &&& #[trigger] bests_of(offers, bests)
                &&& forall|i: int| 0 <= i < responses@.len() ==> is_response(#[trigger] responses@[i], ordered_offers(offers)[i], departure_secs, bests, i)
            }
        }),
{
    let ghost offers = offers_of(candidates@, rides@, departure_secs);
    let mut plain: Vec<QueryItineraryResponse> = Vec::new();
    let mut i: usize = 0;
    while i < candidates.len()
        invariant
            i <= candidates@.len(),
            candidates_fit(candidates@, rides@, departure_secs),
            offers == offers_of(candidates@, rides@, departure_secs),
            plain@.len() == i,
            forall|k: int| 0 <= k < i ==> says(#[trigger] plain@[k], offers[k]) && plain@[k].departure_secs == departure_secs,
        decreases candidates.len() - i,
    {
        assert(i32::MIN <= candidates@[i as int].arrival_secs - departure_secs <= i32::MAX);
        let response: QueryItineraryResponse = plain_response(&candidates[i], &rides[i], departure_secs, i);
        assert(says(response, offers[i as int]));
        plain.push(response);
        i = i + 1;
    }
    let bests: Bests = find_bests(&plain, Ghost(offers));
    let mut responses: Vec<QueryItineraryResponse> = order_responses(plain, departure_secs, Ghost(offers));
    let ghost ordered = ordered_offers(offers);
    let mut n: usize = 0;
    while n < responses.len()
        invariant
            n <= responses.len(),
            responses@.len() == offers.len(),
            ordered.len() == offers.len(),
            bests_of(offers, bests),
            forall|k: int| n <= k < responses@.len() ==> says(#[trigger] responses@[k], ordered[k]) && responses@[k].departure_secs == departure_secs,
            forall|k: int| 0 <= k < n ==> is_response(#[trigger] responses@[k], ordered[k], departure_secs, bests, k),
        decreases responses.len() - n,
    {
        assert(says(responses@[n as int], ordered[n as int]));
        let mut response: QueryItineraryResponse = copy_response(&responses[n]);
        let recommended: bool = n == 0;
        let fastest: bool = response.duration_seconds == bests.duration;
        let fewest: bool = response.transfers == bests.transfers;
        let live: bool = bests.live > 0 && response.metrics.transit_legs_with_gtfs_rt == bests.live;
        let uncrowded: bool = match (bests.crowding, response.metrics.crowding_score) {
            (Some(best), Some(score)) => response.metrics.occupancy_covered_transit_legs > 0 && score == best,
            _ => false,
        };
        response.is_recommended = recommended;
        response.is_fastest = fastest;
        response.is_fewest_transfers = fewest;
        response.is_best_realtime = live;
        response.is_least_crowded = uncrowded;
        response.label = build_itinerary_label(n, recommended, fastest, fewest, live, uncrowded);
        response.badges = build_itinerary_badges(n, recommended, fastest, fewest, live, uncrowded, response.metrics.has_canceled_legs);
        assert(is_response(response, ordered[n as int], departure_secs, bests, n as int));
        responses.set(n, response);
        n = n + 1;
    }
    responses
}

/// Journeys with canceled rides are offered after all others, and of two that
/// are alike in that the quicker is offered first.
pub proof fn better_journeys_come_first(offers: Seq<Offer>, i: int, j: int)
    requires
        offers.len() <= usize::MAX,
        forall|k: int| 0 <= k < offers.len() ==> {
            &&& i32::MIN <= (#[trigger] offers[k]).duration <= i32::MAX
            &&& 0 <= offers[k].transfers <= usize::MAX
        },
        0 <= i < j < offers.len(),
    ensures
        ({
            let first = ordered_offers(offers)[i];
            let second = ordered_offers(offers)[j];
            &&& first.metrics.has_canceled_legs ==> second.metrics.has_canceled_legs
            &&& first.metrics.has_canceled_legs == second.metrics.has_canceled_legs ==> first.duration <= second.duration
        }),
{
    let ids = offer_ids(offers);
    crate::text_order::text_order_exists(ids);
    let id_order = text_order_of(ids);
    let by_id = arranged(offers, id_order);
    let keys = offer_keys(by_id);
    crate::order::stable_order_exists(keys);
    let order = stable_order_of(keys);
    assert(crate::order::position_before(keys, order[i] as int, order[j] as int));
    let a = by_id[order[i] as int];
    let b = by_id[order[j] as int];
    assert(a == offers[id_order[order[i] as int] as int]);
    assert(b == offers[id_order[order[j] as int] as int]);
    assert(keys[order[i] as int].0 <= keys[order[j] as int].0);
}

} // verus!
