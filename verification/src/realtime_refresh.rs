//! A refresh of everything that realtime feeds say.

use crate::hydration::{display_name, route_display_name};
use crate::keyed_store::StoreKey;
use crate::model::{FeedConfig, StaticData};
use crate::order::{sorted_unique, strictly_ascending};
use crate::realtime::{
    after_trip_updates, after_vehicles, call_key, delay_walk, max_option_u64, realtime_data_valid, trip_is_updated, trip_of, update_delays_valid,
    updates_in_call_order, vehicle_valid, DelaySample, FeedRealtimeStatus, RealtimeStore, RealtimeView, StopDelta, TripUpdate, TripUpdateFeed,
    VehicleFeed, VehicleReport, VehicleSnapshot,
};
use crate::realtime_feed::shows_vehicle;
use crate::text::{copy_text, joined, text_view};
use crate::text_order::texts_view;
use vstd::prelude::*;

verus! {

/// What came of asking the two endpoints of a feed: a message, or why there is
/// none. What came of an endpoint that a feed does not have is not looked at.
pub struct FetchedFeed {
    pub trip_updates: Result<TripUpdateFeed, String>,
    pub vehicle_positions: Result<VehicleFeed, String>,
}

/// The trip updates of a feed, where it has an endpoint for them that answered.
pub open spec fn fetched_trips(feed: FeedConfig, fetched: FetchedFeed) -> Option<TripUpdateFeed> {
    if feed.trip_updates_url is Some && fetched.trip_updates is Ok { Some(fetched.trip_updates->Ok_0) } else { None }
}

/// The vehicle positions of a feed, where it has an endpoint for them that
/// answered.
pub open spec fn fetched_vehicles(feed: FeedConfig, fetched: FetchedFeed) -> Option<VehicleFeed> {
    if feed.vehicle_positions_url is Some && fetched.vehicle_positions is Ok { Some(fetched.vehicle_positions->Ok_0) } else { None }
}

/// What is said when the trip updates of a feed could not be had.
pub open spec fn trip_error(feed: FeedConfig, fetched: FetchedFeed) -> Option<Seq<char>> {
    if feed.trip_updates_url is Some && fetched.trip_updates is Err {
        Some("feed "@ + feed.id@ + " trip updates refresh failed: "@ + fetched.trip_updates->Err_0@)
    } else {
        None
    }
}

/// What is said when the vehicle positions of a feed could not be had.
pub open spec fn vehicle_error(feed: FeedConfig, fetched: FetchedFeed) -> Option<Seq<char>> {
    if feed.vehicle_positions_url is Some && fetched.vehicle_positions is Err {
        Some("feed "@ + feed.id@ + " vehicle positions refresh failed: "@ + fetched.vehicle_positions->Err_0@)
    } else {
        None
    }
}

/// What is known after a feed was taken over.
pub open spec fn after_feed(view: RealtimeView, data: StaticData, feed: FeedConfig, fetched: FetchedFeed) -> RealtimeView {
    let with_trips = match fetched_trips(feed, fetched) {
        Some(message) => after_trip_updates(view, data, feed.feed_index, message.updates@, message.updates@.len() as int),
        None => view,
    };
    match fetched_vehicles(feed, fetched) {
        Some(message) => after_vehicles(with_trips, data, feed.feed_index, message.vehicles@, message.vehicles@.len() as int),
        None => with_trips,
    }
}

/// What is known after the first `n` feeds were taken over.
pub open spec fn after_feeds(view: RealtimeView, data: StaticData, feeds: Seq<FeedConfig>, fetched: Seq<FetchedFeed>, n: int) -> RealtimeView
    decreases n,
{
    if n <= 0 { view } else { after_feed(after_feeds(view, data, feeds, fetched, n - 1), data, feeds[n - 1], fetched[n - 1]) }
}

/// A text, with another behind it where there is one.
pub open spec fn with_text(texts: Seq<Seq<char>>, text: Option<Seq<char>>) -> Seq<Seq<char>> {
    match text {
        Some(value) => texts.push(value),
        None => texts,
    }
}

/// What is said of the endpoints of the first `n` feeds that did not answer.
pub open spec fn errors_of(feeds: Seq<FeedConfig>, fetched: Seq<FetchedFeed>, n: int) -> Seq<Seq<char>>
    decreases n,
{
    if n <= 0 {
        Seq::empty()
    } else {
        with_text(with_text(errors_of(feeds, fetched, n - 1), trip_error(feeds[n - 1], fetched[n - 1])), vehicle_error(feeds[n - 1], fetched[n - 1]))
    }
}

/// How many trip updates the first `n` feeds gave.
pub open spec fn trip_entities_of(feeds: Seq<FeedConfig>, fetched: Seq<FetchedFeed>, n: int) -> int
    decreases n,
{
    if n <= 0 {
        0
    } else {
        trip_entities_of(feeds, fetched, n - 1) + match fetched_trips(feeds[n - 1], fetched[n - 1]) {
            Some(message) => message.updates@.len() as int,
            None => 0,
        }
    }
}

/// The vehicles that the first `n` feeds reported, each with the id of its feed.
pub open spec fn reported_vehicles(feeds: Seq<FeedConfig>, fetched: Seq<FetchedFeed>, n: int) -> Seq<(Seq<char>, VehicleReport)>
    decreases n,
{
    if n <= 0 {
        Seq::empty()
    } else {
        reported_vehicles(feeds, fetched, n - 1) + match fetched_vehicles(feeds[n - 1], fetched[n - 1]) {
            Some(message) => Seq::new(message.vehicles@.len(), |i: int| (feeds[n - 1].id@, message.vehicles@[i])),
            None => Seq::empty(),
        }
    }
}

/// The later of two times.
pub open spec fn later(a: Option<u64>, b: Option<u64>) -> Option<u64> {
    crate::realtime::greater_option(a, b)
}

/// The latest time of the trip updates of the first `n` feeds.
pub open spec fn trip_time_of(feeds: Seq<FeedConfig>, fetched: Seq<FetchedFeed>, n: int) -> Option<u64>
    decreases n,
{
    if n <= 0 {
        None
    } else {
        match fetched_trips(feeds[n - 1], fetched[n - 1]) {
            Some(message) => later(trip_time_of(feeds, fetched, n - 1), message.timestamp),
            None => trip_time_of(feeds, fetched, n - 1),
        }
    }
}

/// The latest time of the vehicle positions of the first `n` feeds.
pub open spec fn vehicle_time_of(feeds: Seq<FeedConfig>, fetched: Seq<FetchedFeed>, n: int) -> Option<u64>
    decreases n,
{
    if n <= 0 {
        None
    } else {
        match fetched_vehicles(feeds[n - 1], fetched[n - 1]) {
            Some(message) => later(vehicle_time_of(feeds, fetched, n - 1), message.timestamp),
            None => vehicle_time_of(feeds, fetched, n - 1),
        }
    }
}

/// What is said of both endpoints of a feed.
pub open spec fn feed_error(feed: FeedConfig, fetched: FetchedFeed) -> Option<Seq<char>> {
    match (trip_error(feed, fetched), vehicle_error(feed, fetched)) {
        (Some(trips), Some(vehicles)) => Some(trips + "; "@ + vehicles),
        (Some(trips), None) => Some(trips),
        (None, other) => other,
    }
}

/// Whether a status says how the refresh of a feed went.
pub open spec fn status_fits(status: FeedRealtimeStatus, feed: FeedConfig, fetched: FetchedFeed, now: Seq<char>) -> bool {
    &&& status.feed_id@ == feed.id@
    &&& text_view(status.trip_update_url) == text_view(feed.trip_updates_url)
    &&& text_view(status.vehicle_positions_url) == text_view(feed.vehicle_positions_url)
    &&& match fetched_trips(feed, fetched) {
        Some(message) => status.trip_update_entities == message.updates@.len() && status.trip_feed_timestamp == message.timestamp && text_view(status.last_trip_refresh) == Some(now),
        None => status.trip_update_entities == 0 && status.trip_feed_timestamp is None && status.last_trip_refresh is None,
    }
    &&& match fetched_vehicles(feed, fetched) {
        Some(message) => status.vehicle_count == message.vehicles@.len() && status.vehicle_feed_timestamp == message.timestamp && text_view(status.last_vehicle_refresh) == Some(now),
        None => status.vehicle_count == 0 && status.vehicle_feed_timestamp is None && status.last_vehicle_refresh is None,
    }
    &&& text_view(status.last_error) == feed_error(feed, fetched)
}

/// How a refresh went.
pub struct RealtimeState {
    pub trip_entities: usize,
    pub vehicle_entities: usize,
    pub trip_feed_timestamp: Option<u64>,
    pub vehicle_feed_timestamp: Option<u64>,
    pub refreshed_at: String,
    pub feed_statuses: Vec<FeedRealtimeStatus>,
    pub vehicles: Vec<VehicleSnapshot>,
    pub last_error: Option<String>,
}

/// What came of a refresh: how it went, which trips changed by it, and whether it
/// failed.
pub struct RealtimeRefreshResult {
    pub state: RealtimeState,
    pub changed_trip_indices: Vec<usize>,
    pub terminal_error: Option<String>,
}

/// Texts one after the other, with a semicolon and a space between two.
pub open spec fn joined_errors(parts: Seq<Seq<char>>) -> Seq<char>
    decreases parts.len(),
{
    if parts.len() == 0 {
        Seq::empty()
    } else if parts.len() == 1 {
        parts[0]
    } else {
        joined_errors(parts.drop_last()) + "; "@ + parts.last()
    }
}

/// What is said of all errors, if there are any.
pub open spec fn error_text(errors: Seq<Seq<char>>) -> Option<Seq<char>> {
    if errors.len() == 0 { None } else { Some(joined_errors(errors)) }
}

fn join_errors(parts: &Vec<String>) -> (text: String)
    ensures
        text@ == joined_errors(texts_view(parts@)),
{
    let mut text: String = String::new();
    let mut i: usize = 0;
    let ghost all = texts_view(parts@);
    assert(text@ =~= joined_errors(all.take(0)));
    while i < parts.len()
        invariant
            i <= parts.len(),
            all == texts_view(parts@),
            text@ == joined_errors(all.take(i as int)),
        decreases parts.len() - i,
    {
        if i > 0 {
            text.append("; ");
        }
        text.append(parts[i].as_str());
        assert(all.take(i + 1).drop_last() =~= all.take(i as int));
        i = i + 1;
        if i == 1 {
            assert(text@ =~= all.take(1)[0]);
        }
    }
    assert(all.take(i as int) =~= all);
    text
}

/// Whether the state says how a refresh of feeds went.
pub open spec fn state_fits(state: RealtimeState, feeds: Seq<FeedConfig>, fetched: Seq<FetchedFeed>, now: Seq<char>, n: int) -> bool {
    let reported = reported_vehicles(feeds, fetched, n);
    &&& state.trip_entities == trip_entities_of(feeds, fetched, n)
    &&& state.vehicle_entities == reported.len()
    &&& state.trip_feed_timestamp == trip_time_of(feeds, fetched, n)
    &&& state.vehicle_feed_timestamp == vehicle_time_of(feeds, fetched, n)
    &&& state.refreshed_at@ == now
    &&& state.feed_statuses@.len() == n
    &&& forall|i: int| 0 <= i < n ==> status_fits(#[trigger] state.feed_statuses@[i], feeds[i], fetched[i], now)
    &&& state.vehicles@.len() == reported.len()
    &&& forall|i: int| 0 <= i < reported.len() ==> shows_vehicle(#[trigger] state.vehicles@[i], reported[i].0, reported[i].1)
}

/// Whether the messages of feeds can be taken over: no delay is without a size,
/// and the updates can be counted.
pub open spec fn messages_valid(feeds: Seq<FeedConfig>, fetched: Seq<FetchedFeed>) -> bool {
    &&& feeds.len() == fetched.len()
    &&& trip_entities_of(feeds, fetched, feeds.len() as int) <= usize::MAX
    &&& forall|f: int, i: int| 0 <= f < fetched.len() && fetched[f].trip_updates is Ok && 0 <= i < fetched[f].trip_updates->Ok_0.updates@.len() ==> update_delays_valid(
        #[trigger] fetched[f].trip_updates->Ok_0.updates@[i],
    )
    &&& forall|f: int, i: int| 0 <= f < fetched.len() && fetched[f].vehicle_positions is Ok && 0 <= i < fetched[f].vehicle_positions->Ok_0.vehicles@.len() ==> vehicle_valid(
        #[trigger] fetched[f].vehicle_positions->Ok_0.vehicles@[i],
    )
}

proof fn fewer_entities(feeds: Seq<FeedConfig>, fetched: Seq<FetchedFeed>, n: int, m: int)
    requires
        n <= m,
    ensures
        trip_entities_of(feeds, fetched, n) <= trip_entities_of(feeds, fetched, m),
    decreases m - n,
{
    if n < m {
        fewer_entities(feeds, fetched, n, m - 1);
    }
}

fn failure_text(feed_id: &String, what: &str, error: &String) -> (text: String)
    ensures
        text@ == "feed "@ + feed_id@ + what@ + error@,
{
    let mut text: String = joined("feed ", feed_id.as_str());
    text.append(what);
    text.append(error.as_str());
    text
}

struct Progress {
    state: RealtimeState,
    errors: Vec<String>,
}

fn push_error(errors: &mut Vec<String>, message: &String)
    ensures
        texts_view(final(errors)@) == texts_view(old(errors)@).push(message@),
{
    let ghost before = errors@;
    errors.push(message.clone());
    assert(texts_view(errors@) =~= texts_view(before).push(message@));
}

impl Progress {
    spec fn fits(&self, feeds: Seq<FeedConfig>, fetched: Seq<FetchedFeed>, now: Seq<char>, n: int) -> bool {
        state_fits(self.state, feeds, fetched, now, n) && texts_view(self.errors@) == errors_of(feeds, fetched, n)
    }

    fn take_trips(&mut self, store: &mut RealtimeStore, data: &StaticData, feed: &FeedConfig, fetched: &FetchedFeed, now: &str, status: &mut FeedRealtimeStatus)
        requires
            old(store).wf(),
            realtime_data_valid(*data),
            feed.trip_updates_url is Some && fetched.trip_updates is Ok ==> {
                &&& old(self).state.trip_entities + fetched.trip_updates->Ok_0.updates@.len() <= usize::MAX
                &&& forall|i: int| 0 <= i < fetched.trip_updates->Ok_0.updates@.len() ==> update_delays_valid(#[trigger] fetched.trip_updates->Ok_0.updates@[i])
            },
            old(status).trip_update_entities == 0 && old(status).trip_feed_timestamp is None && old(status).last_trip_refresh is None && old(status).last_error is None,
        ensures
            final(store).wf(),
            final(store)@ == match fetched_trips(*feed, *fetched) {
                Some(message) => after_trip_updates(old(store)@, *data, feed.feed_index, message.updates@, message.updates@.len() as int),
                None => old(store)@,
            },
            texts_view(final(self).errors@) == with_text(texts_view(old(self).errors@), trip_error(*feed, *fetched)),
            text_view(final(status).last_error) == trip_error(*feed, *fetched),
            *final(status) == (FeedRealtimeStatus {
                trip_update_entities: final(status).trip_update_entities,
                trip_feed_timestamp: final(status).trip_feed_timestamp,
                last_trip_refresh: final(status).last_trip_refresh,
                last_error: final(status).last_error,
                ..*old(status)
            }),
            final(self).state == (RealtimeState {
                trip_entities: final(self).state.trip_entities,
                trip_feed_timestamp: final(self).state.trip_feed_timestamp,
                ..old(self).state
            }),
            match fetched_trips(*feed, *fetched) {
                Some(message) => {
                    &&& final(status).trip_update_entities == message.updates@.len()
                    &&& final(status).trip_feed_timestamp == message.timestamp
                    &&& text_view(final(status).last_trip_refresh) == Some(now@)
                    &&& final(self).state.trip_entities == old(self).state.trip_entities + message.updates@.len()
                    &&& final(self).state.trip_feed_timestamp == later(old(self).state.trip_feed_timestamp, message.timestamp)
                },
                None => {
                    &&& final(status).trip_update_entities == 0
                    &&& final(status).trip_feed_timestamp is None
                    &&& final(status).last_trip_refresh is None
                    &&& final(self).state.trip_entities == old(self).state.trip_entities
                    &&& final(self).state.trip_feed_timestamp == old(self).state.trip_feed_timestamp
                },
            },
    {
        if feed.trip_updates_url.is_none() {
            return;
        }
        match &fetched.trip_updates {
            Ok(message) => {
                let (count, time) = store.refresh_trip_updates(data, feed, message);
                self.state.trip_entities = self.state.trip_entities + count;
                status.trip_update_entities = count;
                status.trip_feed_timestamp = time;
                status.last_trip_refresh = Some(now.to_owned());
                self.state.trip_feed_timestamp = max_option_u64(self.state.trip_feed_timestamp, time);
            },
            Err(error) => {
                let message: String = failure_text(&feed.id, " trip updates refresh failed: ", error);
                push_error(&mut self.errors, &message);
                status.last_error = Some(message);
            },
        }
    }

    fn take_vehicles(&mut self, store: &mut RealtimeStore, data: &StaticData, feed: &FeedConfig, fetched: &FetchedFeed, now: &str, status: &mut FeedRealtimeStatus, Ghost(reported): Ghost<Seq<(Seq<char>, VehicleReport)>>)
        requires
            old(store).wf(),
            realtime_data_valid(*data),
            feed.vehicle_positions_url is Some && fetched.vehicle_positions is Ok ==> forall|i: int|
                0 <= i < fetched.vehicle_positions->Ok_0.vehicles@.len() ==> vehicle_valid(#[trigger] fetched.vehicle_positions->Ok_0.vehicles@[i]),
            old(status).vehicle_count == 0 && old(status).vehicle_feed_timestamp is None && old(status).last_vehicle_refresh is None,
            old(self).state.vehicle_entities == reported.len(),
            old(self).state.vehicles@.len() == reported.len(),
            forall|i: int| 0 <= i < reported.len() ==> shows_vehicle(#[trigger] old(self).state.vehicles@[i], reported[i].0, reported[i].1),
        ensures
            final(store).wf(),
            final(store)@ == match fetched_vehicles(*feed, *fetched) {
                Some(message) => after_vehicles(old(store)@, *data, feed.feed_index, message.vehicles@, message.vehicles@.len() as int),
                None => old(store)@,
            },
            texts_view(final(self).errors@) == with_text(texts_view(old(self).errors@), vehicle_error(*feed, *fetched)),
            text_view(final(status).last_error) == match (text_view(old(status).last_error), vehicle_error(*feed, *fetched)) {
                (Some(first), Some(second)) => Some(first + "; "@ + second),
                (Some(first), None) => Some(first),
                (None, other) => other,
            },
            *final(status) == (FeedRealtimeStatus {
                vehicle_count: final(status).vehicle_count,
                vehicle_feed_timestamp: final(status).vehicle_feed_timestamp,
                last_vehicle_refresh: final(status).last_vehicle_refresh,
                last_error: final(status).last_error,
                ..*old(status)
            }),
            final(self).state == (RealtimeState {
                vehicle_entities: final(self).state.vehicle_entities,
                vehicle_feed_timestamp: final(self).state.vehicle_feed_timestamp,
                vehicles: final(self).state.vehicles,
                ..old(self).state
            }),
            match fetched_vehicles(*feed, *fetched) {
                Some(message) => {
                    let all = reported + Seq::new(message.vehicles@.len(), |i: int| (feed.id@, message.vehicles@[i]));
                    &&& final(status).vehicle_count == message.vehicles@.len()
                    &&& final(status).vehicle_feed_timestamp == message.timestamp
                    &&& text_view(final(status).last_vehicle_refresh) == Some(now@)
                    &&& final(self).state.vehicle_entities == all.len()
                    &&& final(self).state.vehicle_feed_timestamp == later(old(self).state.vehicle_feed_timestamp, message.timestamp)
                    &&& final(self).state.vehicles@.len() == all.len()
                    &&& forall|i: int| 0 <= i < all.len() ==> shows_vehicle(#[trigger] final(self).state.vehicles@[i], all[i].0, all[i].1)
                },
                None => {
                    &&& final(status).vehicle_count == 0
                    &&& final(status).vehicle_feed_timestamp is None
                    &&& final(status).last_vehicle_refresh is None
                    &&& final(self).state == old(self).state
                },
            },
    {
        if feed.vehicle_positions_url.is_none() {
            return;
        }
        match &fetched.vehicle_positions {
            Ok(message) => {
                let mut vehicles: Vec<VehicleSnapshot> = store.refresh_vehicle_positions(data, feed, message);
                let count: usize = vehicles.len();
                let ghost shown = vehicles@;
                let ghost before = self.state.vehicles@;
                self.state.vehicles.append(&mut vehicles);
                self.state.vehicle_entities = self.state.vehicles.len();
                status.vehicle_count = count;
                status.vehicle_feed_timestamp = message.timestamp;
                status.last_vehicle_refresh = Some(now.to_owned());
                self.state.vehicle_feed_timestamp = max_option_u64(self.state.vehicle_feed_timestamp, message.timestamp);
                proof {
                    let all = reported + Seq::new(message.vehicles@.len(), |i: int| (feed.id@, message.vehicles@[i]));
                    assert(self.state.vehicles@ =~= before + shown);
                    assert forall|i: int| 0 <= i < all.len() implies shows_vehicle(#[trigger] self.state.vehicles@[i], all[i].0, all[i].1) by {
                        if i < reported.len() {
                            assert(self.state.vehicles@[i] == before[i]);
                        } else {
                            assert(self.state.vehicles@[i] == shown[i - reported.len()]);
                        }
                    }
                }
            },
            Err(error) => {
                let message: String = failure_text(&feed.id, " vehicle positions refresh failed: ", error);
                push_error(&mut self.errors, &message);
                match &status.last_error {
                    Some(existing) => {
                        let mut both: String = joined(existing.as_str(), "; ");
                        both.append(message.as_str());
                        status.last_error = Some(both);
                    },
                    None => {
                        status.last_error = Some(message);
                    },
                }
            },
        }
    }
}

/// What is known when nothing is.
pub open spec fn knows_nothing(view: RealtimeView) -> bool {
    view.deltas == Map::<StoreKey, StopDelta>::empty() && view.metrics.dom() == Set::<StoreKey>::empty() && view.canceled == Map::<StoreKey, bool>::empty()
}

impl RealtimeStore {
    /// Forgets what was known and takes over what the feeds have given. Trips that
    /// differ from the timetable before or after have changed. A refresh has
    /// failed if nothing came and something went wrong.
    pub fn refresh(&mut self, data: &StaticData, feeds: &Vec<FeedConfig>, fetched: &Vec<FetchedFeed>, now: &str) -> (result: RealtimeRefreshResult)
        requires
            old(self).wf(),
            realtime_data_valid(*data),
            messages_valid(feeds@, fetched@),
        ensures
            final(self).wf(),
            exists|empty: RealtimeView| #[trigger] knows_nothing(empty) && final(self)@ == after_feeds(empty, *data, feeds@, fetched@, feeds@.len() as int),
            state_fits(result.state, feeds@, fetched@, now@, feeds@.len() as int),
            text_view(result.state.last_error) == error_text(errors_of(feeds@, fetched@, feeds@.len() as int)),
            strictly_ascending(result.changed_trip_indices@),
            forall|trip: usize| #[trigger] result.changed_trip_indices@.contains(trip) <==> trip_is_updated(old(self)@, trip as int) || trip_is_updated(final(self)@, trip as int),
            text_view(result.terminal_error) == if result.state.trip_entities == 0 && result.state.vehicle_entities == 0 {
                text_view(result.state.last_error)
            } else {
                None
            },
    {
        let mut changed: Vec<usize> = self.updated_trip_indices();
        let ghost before = changed@;
        let ghost start = self@;
        self.clear();
        let ghost empty = self@;
        assert(empty.metrics.dom() =~= Set::<StoreKey>::empty());
        assert(knows_nothing(empty));
        let mut progress: Progress = Progress {
            state: RealtimeState {
                trip_entities: 0,
                vehicle_entities: 0,
                trip_feed_timestamp: None,
                vehicle_feed_timestamp: None,
                refreshed_at: now.to_owned(),
                feed_statuses: Vec::new(),
                vehicles: Vec::new(),
                last_error: None,
            },
            errors: Vec::new(),
        };
        assert(texts_view(progress.errors@) =~= errors_of(feeds@, fetched@, 0));
        let mut n: usize = 0;
        while n < feeds.len()
            invariant
                n <= feeds@.len(),
                self.wf(),
                realtime_data_valid(*data),
                messages_valid(feeds@, fetched@),
                self@ == after_feeds(empty, *data, feeds@, fetched@, n as int),
                progress.fits(feeds@, fetched@, now@, n as int),
            decreases feeds.len() - n,
        {
            let feed: &FeedConfig = &feeds[n];
            let one: &FetchedFeed = &fetched[n];
            let ghost earlier = progress;
            proof {
                fewer_entities(feeds@, fetched@, n + 1, feeds@.len() as int);
                assert(fetched@[n as int] == *one);
            }
            let mut status: FeedRealtimeStatus = FeedRealtimeStatus {
                feed_id: feed.id.clone(),
                trip_update_url: copy_text(&feed.trip_updates_url),
                vehicle_positions_url: copy_text(&feed.vehicle_positions_url),
                trip_update_entities: 0,
                vehicle_count: 0,
                trip_feed_timestamp: None,
                vehicle_feed_timestamp: None,
                last_trip_refresh: None,
                last_vehicle_refresh: None,
                last_error: None,
            };
            progress.take_trips(self, data, feed, one, now, &mut status);
            progress.take_vehicles(self, data, feed, one, now, &mut status, Ghost(reported_vehicles(feeds@, fetched@, n as int)));
            assert(status_fits(status, feeds@[n as int], fetched@[n as int], now@));
            let ghost statuses = progress.state.feed_statuses@;
            progress.state.feed_statuses.push(status);
            n = n + 1;
            proof {
                assert forall|i: int| 0 <= i < n implies status_fits(#[trigger] progress.state.feed_statuses@[i], feeds@[i], fetched@[i], now@) by {
                    if i < n - 1 {
                        assert(progress.state.feed_statuses@[i] == earlier.state.feed_statuses@[i]);
                    }
                }
                if fetched_vehicles(*feed, *one) is None {
                    assert(reported_vehicles(feeds@, fetched@, n as int) =~= reported_vehicles(feeds@, fetched@, n - 1));
                }
            }
        }
        let ghost counted = progress.state;
        let error: Option<String> = if progress.errors.len() == 0 { None } else { Some(join_errors(&progress.errors)) };
        assert(texts_view(progress.errors@).len() == progress.errors@.len());
        let mut state: RealtimeState = progress.state;
        state.last_error = error;
        let mut after: Vec<usize> = self.updated_trip_indices();
        let ghost later_changes = after@;
        changed.append(&mut after);
        assert(changed@ =~= before + later_changes);
        let changed_trip_indices: Vec<usize> = sorted_unique(&changed);
        proof {
            assert forall|trip: usize| #[trigger] changed_trip_indices@.contains(trip) <==> trip_is_updated(start, trip as int) || trip_is_updated(self@, trip as int) by {
                assert(changed_trip_indices@.contains(trip) <==> changed@.contains(trip));
                if changed@.contains(trip) {
                    let at = choose|at: int| 0 <= at < changed@.len() && changed@[at] == trip;
                    if at < before.len() {
                        assert(before[at] == trip);
                        assert(before.contains(trip));
                    } else {
                        assert(later_changes[at - before.len()] == trip);
                        assert(later_changes.contains(trip));
                    }
                }
                if before.contains(trip) {
                    let at = choose|at: int| 0 <= at < before.len() && before[at] == trip;
                    assert(changed@[at] == trip);
                }
                if later_changes.contains(trip) {
                    let at = choose|at: int| 0 <= at < later_changes.len() && later_changes[at] == trip;
                    assert(changed@[before.len() + at] == trip);
                }
            }
        }
        let terminal_error: Option<String> = if state.trip_entities == 0 && state.vehicle_entities == 0 { copy_text(&state.last_error) } else { None };
        RealtimeRefreshResult { state: state, changed_trip_indices: changed_trip_indices, terminal_error: terminal_error }
    }
}

/// Whether all that is known is of calls of trips of the timetable.
pub open spec fn deltas_fit(view: RealtimeView, data: StaticData) -> bool {
    forall|key: StoreKey| #[trigger] view.deltas.dom().contains(key) ==> is_call(key, data)
}

/// Whether a key is that of a call of a trip of the timetable.
pub open spec fn is_call(key: StoreKey, data: StaticData) -> bool {
    key.1 < data.trips@.len() && key.2 < data.trips@[key.1 as int].stop_times@.len() && key == call_key(key.1 as int, key.2 as int)
}

proof fn walks_stay_on_calls(base: Map<StoreKey, StopDelta>, data: StaticData, trip: int, placed: Seq<(int, int)>, update: TripUpdate, n: int)
    requires
        0 <= trip < data.trips@.len(),
        data.trips@.len() <= usize::MAX,
        data.trips@[trip].stop_times@.len() <= usize::MAX,
        n <= data.trips@[trip].stop_times@.len(),
        forall|key: StoreKey| #[trigger] base.dom().contains(key) ==> is_call(key, data),
    ensures
        forall|key: StoreKey| #[trigger] delay_walk(base, trip, placed, update, n).deltas.dom().contains(key) ==> is_call(key, data),
    decreases n,
{
    if n > 0 {
        walks_stay_on_calls(base, data, trip, placed, update, n - 1);
        let before = delay_walk(base, trip, placed, update, n - 1).deltas;
        assert forall|key: StoreKey| #[trigger] delay_walk(base, trip, placed, update, n).deltas.dom().contains(key) implies is_call(key, data) by {
            if key != call_key(trip, n - 1) {
                assert(before.dom().contains(key));
            }
        }
    }
}

proof fn updates_stay_on_calls(view: RealtimeView, data: StaticData, feed_index: u16, updates: Seq<TripUpdate>, n: int)
    requires
        realtime_data_valid(data),
        sizes_fit(data),
        deltas_fit(view, data),
    ensures
        deltas_fit(after_trip_updates(view, data, feed_index, updates, n), data),
    decreases n,
{
    if n > 0 {
        updates_stay_on_calls(view, data, feed_index, updates, n - 1);
        let before = after_trip_updates(view, data, feed_index, updates, n - 1);
        let update = updates[n - 1];
        match trip_of(data.trip_lookup_by_feed@, feed_index, update.trip_id) {
            None => {},
            Some(trip) => {
                let record = data.trips@[trip as int];
                let placed = updates_in_call_order(data.stops@, record, update.stop_time_updates@);
                assert(data.trip_lookup_by_feed@[feed_index as int]@.dom().contains(update.trip_id->0@));
                assert(record.stop_times@.len() <= usize::MAX);
                walks_stay_on_calls(before.deltas, data, trip as int, placed, update, record.stop_times@.len() as int);
            },
        }
    }
}

/// Whether trips and their calls can be counted.
pub open spec fn sizes_fit(data: StaticData) -> bool {
    data.trips@.len() <= usize::MAX && forall|t: int| 0 <= t < data.trips@.len() ==> (#[trigger] data.trips@[t]).stop_times@.len() <= usize::MAX
}

proof fn vehicles_keep_deltas(view: RealtimeView, data: StaticData, feed_index: u16, vehicles: Seq<VehicleReport>, n: int)
    ensures
        after_vehicles(view, data, feed_index, vehicles, n).deltas == view.deltas,
    decreases n,
{
    if n > 0 {
        vehicles_keep_deltas(view, data, feed_index, vehicles, n - 1);
    }
}

/// After a refresh all that is known is of calls of trips of the timetable, so
/// that it can be shown.
pub proof fn refreshes_stay_on_calls(view: RealtimeView, data: StaticData, feeds: Seq<FeedConfig>, fetched: Seq<FetchedFeed>, n: int)
    requires
        realtime_data_valid(data),
        sizes_fit(data),
        knows_nothing(view),
    ensures
        deltas_fit(after_feeds(view, data, feeds, fetched, n), data),
    decreases n,
{
    if n > 0 {
        refreshes_stay_on_calls(view, data, feeds, fetched, n - 1);
        let before = after_feeds(view, data, feeds, fetched, n - 1);
        let feed = feeds[n - 1];
        let one = fetched[n - 1];
        let tripped = match fetched_trips(feed, one) {
            Some(message) => after_trip_updates(before, data, feed.feed_index, message.updates@, message.updates@.len() as int),
            None => before,
        };
        match fetched_trips(feed, one) {
            Some(message) => {
                updates_stay_on_calls(before, data, feed.feed_index, message.updates@, message.updates@.len() as int);
            },
            None => {},
        }
        match fetched_vehicles(feed, one) {
            Some(message) => {
                vehicles_keep_deltas(tripped, data, feed.feed_index, message.vehicles@, message.vehicles@.len() as int);
            },
            None => {},
        }
    }
}

/// Whether a sample shows what is known of a call.
pub open spec fn shows_delta(sample: DelaySample, data: StaticData, key: StoreKey, delta: StopDelta) -> bool {
    let trip = data.trips@[key.1 as int];
    let call = trip.stop_times@[key.2 as int];
    let stop = data.stops@[call.stop_index as int];
    let route = data.routes@[trip.route_index as int];
    &&& sample.feed_id@ == trip.feed_id@
    &&& sample.trip_id@ == trip.id@
    &&& sample.route_label@ == display_name(text_view(route.short_name), text_view(route.long_name), route.id@)
    &&& sample.stop_id@ == stop.id@
    &&& sample.stop_name@ == stop.name@
    &&& sample.stop_sequence == call.stop_sequence
    &&& sample.arrival_delay_secs == delta.arrival_delay_secs
    &&& sample.departure_delay_secs == delta.departure_delay_secs
    &&& sample.skipped == delta.skipped
}

impl RealtimeStore {
    /// Shows what is known of calls, of no more than a number of them.
    pub fn delay_samples(&self, data: &StaticData, limit: usize) -> (samples: Vec<DelaySample>)
        requires
            self.wf(),
            realtime_data_valid(*data),
            forall|t: int| 0 <= t < data.trips@.len() ==> (#[trigger] data.trips@[t]).route_index < data.routes@.len(),
            deltas_fit(self@, *data),
        ensures
            samples@.len() == if self.delta_keys().len() < limit { self.delta_keys().len() } else { limit as nat },
            forall|i: int| 0 <= i < samples@.len() ==> shows_delta(#[trigger] samples@[i], *data, self.delta_keys()[i], self@.deltas[self.delta_keys()[i]]),
    {
        let mut samples: Vec<DelaySample> = Vec::new();
        let count: usize = self.delta_count();
        let mut i: usize = 0;
        while i < count && i < limit
            invariant
                self.wf(),
                realtime_data_valid(*data),
                forall|t: int| 0 <= t < data.trips@.len() ==> (#[trigger] data.trips@[t]).route_index < data.routes@.len(),
                deltas_fit(self@, *data),
                count == self.delta_keys().len(),
                i <= count,
                i <= limit,
                samples@.len() == i,
                forall|k: int| 0 <= k < i ==> shows_delta(#[trigger] samples@[k], *data, self.delta_keys()[k], self@.deltas[self.delta_keys()[k]]),
            decreases count - i,
        {
            let (trip_index, stop_pos, delta) = self.delta_at(i);
            let ghost key = self.delta_keys()[i as int];
            assert(is_call(key, *data));
            assert(key.1 == trip_index && key.2 == stop_pos);
            assert(crate::realtime::trip_calls_valid(data.trips@[trip_index as int], data.stops@.len() as int));
            assert(data.trips@[trip_index as int].stop_times@[stop_pos as int].stop_index < data.stops@.len());
            let stop_index: usize = data.trips[trip_index].stop_times[stop_pos].stop_index;
            let route_index: usize = data.trips[trip_index].route_index;
            samples.push(
                DelaySample {
                    feed_id: data.trips[trip_index].feed_id.clone(),
                    trip_id: data.trips[trip_index].id.clone(),
                    route_label: route_display_name(&data.routes[route_index]),
                    stop_id: data.stops[stop_index].id.clone(),
                    stop_name: data.stops[stop_index].name.clone(),
                    stop_sequence: data.trips[trip_index].stop_times[stop_pos].stop_sequence,
                    arrival_delay_secs: delta.arrival_delay_secs,
                    departure_delay_secs: delta.departure_delay_secs,
                    skipped: delta.skipped,
                },
            );
            i = i + 1;
        }
        samples
    }
}

} // verus!
