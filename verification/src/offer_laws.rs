//! What the journeys that are offered say of each other, and how crowded they are.

use crate::itinerary::{
    bests_of, is_response, least_crowding, least_duration, least_transfers, level_of, most_live, occupancy_score_of, offer_ids, offer_key, offer_keys, ordered_offers, Bests,
    CrowdingLevel, Offer, QueryItineraryResponse,
};
use crate::order::{arranged, stable_order_covers, stable_order_exists, stable_order_of};
use crate::realtime::{carriage_percentages, mean_percentage, severity, total, worst_status, CarriageDetails};
use crate::text_order::{text_order_covers, text_order_exists, text_order_of};
use vstd::prelude::*;

verus! {

/// Whether it is known how crowded a journey is.
pub open spec fn crowding_known(offer: Offer) -> bool {
    offer.metrics.occupancy_covered_transit_legs > 0 && offer.metrics.crowding_score is Some
}

proof fn bests_are_best(offers: Seq<Offer>, n: int)
    requires
        1 <= n <= offers.len(),
    ensures
        forall|k: int| 0 <= k < n ==> least_duration(offers, n) <= (#[trigger] offers[k]).duration,
        exists|k: int| 0 <= k < n && least_duration(offers, n) == (#[trigger] offers[k]).duration,
        forall|k: int| 0 <= k < n ==> least_transfers(offers, n) <= (#[trigger] offers[k]).transfers,
        exists|k: int| 0 <= k < n && least_transfers(offers, n) == (#[trigger] offers[k]).transfers,
        forall|k: int| 0 <= k < n ==> most_live(offers, n) >= (#[trigger] offers[k]).metrics.transit_legs_with_gtfs_rt,
        most_live(offers, n) > 0 ==> exists|k: int| 0 <= k < n && most_live(offers, n) == (#[trigger] offers[k]).metrics.transit_legs_with_gtfs_rt,
        forall|k: int| 0 <= k < n && crowding_known(#[trigger] offers[k]) ==> least_crowding(offers, n) is Some && least_crowding(offers, n)->0 <= offers[k].metrics.crowding_score->0,
        least_crowding(offers, n) is Some ==> exists|k: int|
            0 <= k < n && crowding_known(#[trigger] offers[k]) && least_crowding(offers, n) == offers[k].metrics.crowding_score,
    decreases n,
{
    let last = offers[n - 1];
    assert(0 <= n - 1 < n);
    if n > 1 {
        bests_are_best(offers, n - 1);
        let a = choose|k: int| 0 <= k < n - 1 && least_duration(offers, n - 1) == (#[trigger] offers[k]).duration;
        assert(least_duration(offers, n) == offers[a].duration || least_duration(offers, n) == last.duration);
        let b = choose|k: int| 0 <= k < n - 1 && least_transfers(offers, n - 1) == (#[trigger] offers[k]).transfers;
        assert(least_transfers(offers, n) == offers[b].transfers || least_transfers(offers, n) == last.transfers);
        if most_live(offers, n) > 0 {
            if most_live(offers, n) == most_live(offers, n - 1) {
                let c = choose|k: int| 0 <= k < n - 1 && most_live(offers, n - 1) == (#[trigger] offers[k]).metrics.transit_legs_with_gtfs_rt;
                assert(most_live(offers, n) == offers[c].metrics.transit_legs_with_gtfs_rt);
            } else {
                assert(most_live(offers, n) == offers[n - 1].metrics.transit_legs_with_gtfs_rt);
            }
        }
        if least_crowding(offers, n) is Some {
            if least_crowding(offers, n) == least_crowding(offers, n - 1) {
                let d = choose|k: int| 0 <= k < n - 1 && crowding_known(#[trigger] offers[k]) && least_crowding(offers, n - 1) == offers[k].metrics.crowding_score;
                assert(crowding_known(offers[d]));
            } else {
                assert(crowding_known(offers[n - 1]));
            }
        }
    } else {
        assert(most_live(offers, 0) == 0);
        assert(least_crowding(offers, 0) is None);
        assert(most_live(offers, 1) == last.metrics.transit_legs_with_gtfs_rt);
        assert(offers[0] == last);
    }
}

/// A journey is called the fastest if and only if no other is faster; the one with the
/// fewest changes if none has fewer; the one with the best live data if it has some and
/// none has it of more rides; and the least crowded if it is known how crowded it is, and
/// none of which it is known is less so.
pub proof fn badges_tell_the_best(offers: Seq<Offer>, bests: Bests, response: QueryItineraryResponse, offer: Offer, departure_secs: i32, index: int)
    requires
        bests_of(offers, bests),
        offers.contains(offer),
        is_response(response, offer, departure_secs, bests, index),
    ensures
        response.is_fastest <==> forall|k: int| 0 <= k < offers.len() ==> offer.duration <= (#[trigger] offers[k]).duration,
        response.is_fewest_transfers <==> forall|k: int| 0 <= k < offers.len() ==> offer.transfers <= (#[trigger] offers[k]).transfers,
        response.is_best_realtime <==> offer.metrics.transit_legs_with_gtfs_rt > 0 && forall|k: int|
            0 <= k < offers.len() ==> offer.metrics.transit_legs_with_gtfs_rt >= (#[trigger] offers[k]).metrics.transit_legs_with_gtfs_rt,
        response.is_least_crowded <==> crowding_known(offer) && forall|k: int|
            0 <= k < offers.len() && crowding_known(#[trigger] offers[k]) ==> offer.metrics.crowding_score->0 <= offers[k].metrics.crowding_score->0,
        response.is_recommended <==> index == 0,
{
    let n = offers.len() as int;
    bests_are_best(offers, n);
    let at = offers.index_of(offer);
    assert(offers[at] == offer);
    let a = choose|k: int| 0 <= k < n && least_duration(offers, n) == (#[trigger] offers[k]).duration;
    assert(offers[a].duration == bests.duration);
    let b = choose|k: int| 0 <= k < n && least_transfers(offers, n) == (#[trigger] offers[k]).transfers;
    assert(offers[b].transfers == bests.transfers);
    if most_live(offers, n) > 0 {
        let c = choose|k: int| 0 <= k < n && most_live(offers, n) == (#[trigger] offers[k]).metrics.transit_legs_with_gtfs_rt;
        assert(offers[c].metrics.transit_legs_with_gtfs_rt == bests.live);
    }
    if least_crowding(offers, n) is Some {
        let d = choose|k: int| 0 <= k < n && crowding_known(#[trigger] offers[k]) && least_crowding(offers, n) == offers[k].metrics.crowding_score;
        assert(crowding_known(offers[d]));
    }
}

/// Every journey that was found is offered, each in a place of its own.
pub proof fn every_journey_is_offered(offers: Seq<Offer>, k: int)
    requires
        0 <= k < offers.len() <= usize::MAX,
    ensures
        ordered_offers(offers).len() == offers.len(),
        ordered_offers(offers).contains(offers[k]),
        forall|i: int| 0 <= i < offers.len() ==> offers.contains(#[trigger] ordered_offers(offers)[i]),
{
    let ids = offer_ids(offers);
    text_order_exists(ids);
    let id_order = text_order_of(ids);
    text_order_covers(ids, id_order);
    let by_id = arranged(offers, id_order);
    let keys = offer_keys(by_id);
    stable_order_exists(keys);
    let order = stable_order_of(keys);
    stable_order_covers(keys, order);
    let ordered = ordered_offers(offers);
    assert(id_order.contains(k as usize));
    let p = id_order.index_of(k as usize);
    assert(by_id[p] == offers[k]);
    assert(order.contains(p as usize));
    let q = order.index_of(p as usize);
    assert(ordered[q] == by_id[p]);
    assert forall|i: int| 0 <= i < offers.len() implies offers.contains(#[trigger] ordered[i]) by {
        assert(order[i] < keys.len());
        assert(id_order[order[i] as int] < ids.len());
        assert(ordered[i] == offers[id_order[order[i] as int] as int]);
    }
}

/// Of two journeys that are alike in whether a ride is canceled, and as quick, the one with
/// fewer changes is offered first; of two that are alike in that too, the one with live
/// data of more rides.
pub proof fn fewer_changes_come_first(offers: Seq<Offer>, i: int, j: int)
    requires
        offers.len() <= usize::MAX,
        forall|k: int| 0 <= k < offers.len() ==> {
            &&& i32::MIN <= (#[trigger] offers[k]).duration <= i32::MAX
            &&& 0 <= offers[k].transfers <= usize::MAX
        },
        0 <= i < j < offers.len(),
    ensures
        ({
            let first = ordered_offers(offers)[i];
            let second = ordered_offers(offers)[j];
            let alike = first.metrics.has_canceled_legs == second.metrics.has_canceled_legs && first.duration == second.duration;
            &&& alike ==> first.transfers <= second.transfers
            &&& alike && first.transfers == second.transfers ==> first.metrics.transit_legs_with_gtfs_rt >= second.metrics.transit_legs_with_gtfs_rt
        }),
{
    let ids = offer_ids(offers);
    text_order_exists(ids);
    let id_order = text_order_of(ids);
    let by_id = arranged(offers, id_order);
    let keys = offer_keys(by_id);
    stable_order_exists(keys);
    let order = stable_order_of(keys);
    assert(crate::order::position_before(keys, order[i] as int, order[j] as int));
    let a = by_id[order[i] as int];
    let b = by_id[order[j] as int];
    assert(a == offers[id_order[order[i] as int] as int]);
    assert(b == offers[id_order[order[j] as int] as int]);
    assert(keys[order[i] as int] == offer_key(a));
    assert(keys[order[j] as int] == offer_key(b));
}

/// A ride is as crowded as it is reported to be in percent, up to half as much again as it
/// has room for; a status stands for more the fuller it says that the vehicle is, and what
/// cannot be boarded counts as the fullest. Of a ride with neither nothing is known.
pub proof fn fuller_rides_score_higher(status: Option<i32>, fuller: Option<i32>, percentage: u32)
    ensures
        occupancy_score_of(status, Some(percentage)) == Some(if percentage < 150 { percentage as u16 } else { 150u16 }),
        status is Some && fuller is Some && 0 <= status->0 < fuller->0 <= 6 ==> {
            &&& occupancy_score_of(status, None) is Some && occupancy_score_of(fuller, None) is Some
            &&& occupancy_score_of(status, None)->0 < occupancy_score_of(fuller, None)->0 < occupancy_score_of(Some(8i32), None)->0
        },
        occupancy_score_of(Some(0i32), None) == Some(0u16),
        occupancy_score_of(Some(7i32), None) is None,
        occupancy_score_of(None, None) is None,
{
}

/// A journey is hardly crowded up to a score of 35, crowded above 70, and something between
/// in between; where no ride says how crowded it is, nothing is known.
pub proof fn crowding_levels_follow_scores(score: u16, covered: int)
    ensures
        covered > 0 ==> (level_of(Some(score), covered) == CrowdingLevel::Low <==> score <= 35),
        covered > 0 ==> (level_of(Some(score), covered) == CrowdingLevel::Medium <==> 35 < score <= 70),
        covered > 0 ==> (level_of(Some(score), covered) == CrowdingLevel::High <==> score > 70),
        level_of(Some(score), 0) == CrowdingLevel::Unknown,
        level_of(None, covered) == CrowdingLevel::Unknown,
{
}

/// The status of a vehicle without one of its own is that of one of its carriages, and none
/// is fuller.
pub proof fn worst_carriages_count(carriages: Seq<CarriageDetails>, n: int)
    requires
        0 <= n <= carriages.len(),
    ensures
        match worst_status(carriages, n) {
            Some(worst) => {
                &&& exists|i: int| 0 <= i < n && (#[trigger] carriages[i]).occupancy_status == Some(worst)
                &&& 0 <= worst <= 6 ==> forall|i: int|
                    0 <= i < n && (#[trigger] carriages[i]).occupancy_status is Some ==> 0 <= carriages[i].occupancy_status->0 <= worst
            },
            None => forall|i: int| 0 <= i < n ==> (#[trigger] carriages[i]).occupancy_status is None,
        },
    decreases n,
{
    worst_is_worst(carriages, n);
}

proof fn worst_is_worst(carriages: Seq<CarriageDetails>, n: int)
    requires
        0 <= n <= carriages.len(),
    ensures
        match worst_status(carriages, n) {
            Some(worst) => {
                &&& exists|i: int| 0 <= i < n && (#[trigger] carriages[i]).occupancy_status == Some(worst)
                &&& forall|i: int| 0 <= i < n && (#[trigger] carriages[i]).occupancy_status is Some ==> severity(carriages[i].occupancy_status->0) <= severity(worst)
            },
            None => forall|i: int| 0 <= i < n ==> (#[trigger] carriages[i]).occupancy_status is None,
        },
    decreases n,
{
    if n > 0 {
        worst_is_worst(carriages, n - 1);
        match worst_status(carriages, n) {
            Some(worst) => {
                if carriages[n - 1].occupancy_status != Some(worst) {
                    let i = choose|i: int| 0 <= i < n - 1 && (#[trigger] carriages[i]).occupancy_status == Some(worst);
                    assert(carriages[i].occupancy_status == Some(worst));
                }
            },
            None => {},
        }
    }
}

proof fn totals_are_between(values: Seq<int>, low: int, high: int)
    requires
        forall|i: int| 0 <= i < values.len() ==> low <= #[trigger] values[i] <= high,
    ensures
        low * values.len() <= total(values) <= high * values.len(),
    decreases values.len(),
{
    if values.len() > 0 {
        let rest = values.drop_last();
        totals_are_between(rest, low, high);
        assert(low <= values[values.len() - 1] <= high);
        assert(low * values.len() == low * rest.len() + low) by (nonlinear_arith)
            requires
                values.len() == rest.len() + 1,
        ;
        assert(high * values.len() == high * rest.len() + high) by (nonlinear_arith)
            requires
                values.len() == rest.len() + 1,
        ;
    } else {
        assert(low * 0 == 0 && high * 0 == 0);
    }
}

proof fn percentages_are_reported(carriages: Seq<CarriageDetails>, n: int, low: int, high: int)
    requires
        0 <= n <= carriages.len(),
        forall|i: int| 0 <= i < carriages.len() && (#[trigger] carriages[i]).occupancy_percentage is Some && carriages[i].occupancy_percentage->0 >= 0 ==> low
            <= carriages[i].occupancy_percentage->0 <= high,
    ensures
        forall|k: int| 0 <= k < carriage_percentages(carriages, n).len() ==> low <= #[trigger] carriage_percentages(carriages, n)[k] <= high,
    decreases n,
{
    if n > 0 {
        percentages_are_reported(carriages, n - 1, low, high);
        let before = carriage_percentages(carriages, n - 1);
        let after = carriage_percentages(carriages, n);
        assert forall|k: int| 0 <= k < after.len() implies low <= #[trigger] after[k] <= high by {
            if k < before.len() {
                assert(after[k] == before[k]);
            } else {
                assert(carriages[n - 1].occupancy_percentage is Some);
            }
        }
    }
}

/// The percentage of a vehicle without one of its own lies between the least and the
/// greatest of its carriages'.
pub proof fn means_lie_between(carriages: Seq<CarriageDetails>, low: int, high: int)
    requires
        0 <= low <= high <= u32::MAX,
        forall|i: int| 0 <= i < carriages.len() && (#[trigger] carriages[i]).occupancy_percentage is Some && carriages[i].occupancy_percentage->0 >= 0 ==> low
            <= carriages[i].occupancy_percentage->0 <= high,
    ensures
        mean_percentage(carriages) is Some ==> low <= mean_percentage(carriages)->0 <= high,
{
    let values = carriage_percentages(carriages, carriages.len() as int);
    percentages_are_reported(carriages, carriages.len() as int, low, high);
    if values.len() > 0 {
        totals_are_between(values, low, high);
        let sum = total(values);
        let count = values.len() as int;
        assert(low <= sum / count <= high) by (nonlinear_arith)
            requires
                low * count <= sum <= high * count,
                count > 0,
        ;
    }
}

} // verus!
