//! Feeds as a routing descriptor lists them.

use crate::config::RawFeedConfig;
use crate::records::copy_texts;
use crate::text::{copy_text, text_view, trim_text, trimmed};
use crate::text_order::texts_view;
use vstd::hash_map::StringHashMap;
use vstd::prelude::*;

verus! {

/// A timetable that a descriptor lists.
#[derive(Clone, Debug)]
pub struct RoutingStaticFeedDescriptor {
    pub id: Option<String>,
    pub namespace: Option<String>,
    pub feed_id: Option<String>,
    pub url: String,
}

/// The live data of a feed that a descriptor lists.
#[derive(Clone, Debug)]
pub struct RoutingRealtimeFeedDescriptor {
    pub namespace: Option<String>,
    pub feed_id: Option<String>,
    pub trip_updates_url: Option<String>,
    pub vehicle_positions_url: Option<String>,
}

/// What a descriptor lists.
#[derive(Clone, Debug)]
pub struct RoutingDescriptor {
    pub static_feeds: Vec<RoutingStaticFeedDescriptor>,
    pub realtime_feeds: Vec<RoutingRealtimeFeedDescriptor>,
}

/// Why a descriptor gives no feeds.
#[derive(Clone, Copy, Debug, PartialEq, Eq, Structural)]
pub enum DescriptorError {
    /// A timetable has neither a feed id nor a namespace nor an id.
    MissingKey,
    /// No timetable is listed.
    NoFeeds,
}

/// The first of two texts that is given.
pub open spec fn first_given(primary: Option<String>, fallback: Option<String>) -> Option<Seq<char>> {
    if primary is Some { text_view(primary) } else { text_view(fallback) }
}

/// The key of a feed: the first of two texts that is given, without white space
/// around it, if it is not blank.
pub open spec fn feed_key(given: Option<Seq<char>>) -> Option<Seq<char>> {
    match given {
        Some(text) => if trim_text(text).len() > 0 { Some(trim_text(text)) } else { None },
        None => None,
    }
}

/// The key of a feed.
pub fn descriptor_feed_key(primary: &Option<String>, fallback: &Option<String>) -> (key: Option<String>)
    ensures
        text_view(key) == feed_key(first_given(*primary, *fallback)),
{
    let given: &Option<String> = if primary.is_some() { primary } else { fallback };
    match given {
        Some(text) => {
            let short: String = trimmed(text.as_str());
            if short.as_str().is_empty() { None } else { Some(short) }
        },
        None => None,
    }
}

/// The key of a timetable: its feed id, or else its namespace, or else its id.
pub open spec fn static_key(feed: RoutingStaticFeedDescriptor) -> Option<Seq<char>> {
    feed_key(
        if feed.feed_id is Some {
            text_view(feed.feed_id)
        } else if feed.namespace is Some {
            text_view(feed.namespace)
        } else {
            text_view(feed.id)
        },
    )
}

/// Where the live data of a key is among the first `n` listed: the last wins.
pub open spec fn realtime_places(feeds: Seq<RoutingRealtimeFeedDescriptor>, n: int) -> Map<Seq<char>, usize>
    decreases n,
{
    if n <= 0 {
        Map::empty()
    } else {
        match feed_key(first_given(feeds[n - 1].feed_id, feeds[n - 1].namespace)) {
            Some(key) => realtime_places(feeds, n - 1).insert(key, (n - 1) as usize),
            None => realtime_places(feeds, n - 1),
        }
    }
}

/// Where a feed of an id is among the first `n` of a manifest: the last wins.
pub open spec fn manifest_places(feeds: Seq<RawFeedConfig>, n: int) -> Map<Seq<char>, usize>
    decreases n,
{
    if n <= 0 {
        Map::empty()
    } else {
        manifest_places(feeds, n - 1).insert(feeds[n - 1].id@, (n - 1) as usize)
    }
}

/// Where something is by its key, or else by a namespace.
pub open spec fn place_of(places: Map<Seq<char>, usize>, key: Seq<char>, namespace: Option<String>) -> Option<usize> {
    if places.dom().contains(key) {
        Some(places[key])
    } else if namespace is Some && places.dom().contains(namespace->0@) {
        Some(places[namespace->0@])
    } else {
        None
    }
}

fn find_place(places: &StringHashMap<usize>, key: &String, namespace: &Option<String>) -> (place: Option<usize>)
    ensures
        place == place_of(places@, key@, *namespace),
{
    match places.get(key.as_str()) {
        Some(place) => Some(*place),
        None => match namespace {
            Some(name) => match places.get(name.as_str()) {
                Some(place) => Some(*place),
                None => None,
            },
            None => None,
        },
    }
}

/// Whether a feed is made of a timetable of a descriptor: with the live data of
/// its key, and the dependencies that the manifest has for it.
pub open spec fn feed_described(feed: RawFeedConfig, listed: RoutingStaticFeedDescriptor, descriptor: RoutingDescriptor, base: Seq<RawFeedConfig>) -> bool {
    let realtime = place_of(realtime_places(descriptor.realtime_feeds@, descriptor.realtime_feeds@.len() as int), feed.id@, listed.namespace);
    let known = place_of(manifest_places(base, base.len() as int), feed.id@, listed.namespace);
    &&& static_key(listed) == Some(feed.id@)
    &&& feed.static_gtfs@ == listed.url@
    &&& !feed.static_gtfs_allow_invalid_tls
    &&& text_view(feed.trip_updates_url) == match realtime {
        Some(place) => text_view(descriptor.realtime_feeds@[place as int].trip_updates_url),
        None => None,
    }
    &&& text_view(feed.vehicle_positions_url) == match realtime {
        Some(place) => text_view(descriptor.realtime_feeds@[place as int].vehicle_positions_url),
        None => None,
    }
    &&& texts_view(feed.depends_on@) == match known {
        Some(place) => texts_view(base[place as int].depends_on@),
        None => Seq::empty(),
    }
}

proof fn realtime_places_within(feeds: Seq<RoutingRealtimeFeedDescriptor>, n: int)
    requires
        0 <= n <= feeds.len(),
        feeds.len() <= usize::MAX,
    ensures
        forall|key: Seq<char>| #[trigger] realtime_places(feeds, n).dom().contains(key) ==> realtime_places(feeds, n)[key] < n,
    decreases n,
{
    if n > 0 {
        realtime_places_within(feeds, n - 1);
        let earlier = realtime_places(feeds, n - 1);
        assert forall|key: Seq<char>| #[trigger] realtime_places(feeds, n).dom().contains(key) implies realtime_places(feeds, n)[key] < n by {
            if earlier.dom().contains(key) {
                assert(earlier[key] < n - 1);
            }
        }
    }
}

proof fn manifest_places_within(feeds: Seq<RawFeedConfig>, n: int)
    requires
        0 <= n <= feeds.len(),
        feeds.len() <= usize::MAX,
    ensures
        forall|key: Seq<char>| #[trigger] manifest_places(feeds, n).dom().contains(key) ==> manifest_places(feeds, n)[key] < n,
    decreases n,
{
    if n > 0 {
        manifest_places_within(feeds, n - 1);
        let earlier = manifest_places(feeds, n - 1);
        assert forall|key: Seq<char>| #[trigger] manifest_places(feeds, n).dom().contains(key) implies manifest_places(feeds, n)[key] < n by {
            if earlier.dom().contains(key) {
                assert(earlier[key] < n - 1);
            }
        }
    }
}

/// Makes the feeds of a manifest of a descriptor.
pub fn descriptor_feeds(descriptor: &RoutingDescriptor, base: &Vec<RawFeedConfig>) -> (result: Result<Vec<RawFeedConfig>, DescriptorError>)
    ensures
        match result {
            Ok(feeds) => {
                &&& descriptor.static_feeds@.len() > 0
                &&& feeds@.len() == descriptor.static_feeds@.len()
                &&& forall|i: int| 0 <= i < feeds@.len() ==> feed_described(#[trigger] feeds@[i], descriptor.static_feeds@[i], *descriptor, base@)
            },
            Err(DescriptorError::MissingKey) => exists|i: int| 0 <= i < descriptor.static_feeds@.len() && static_key(#[trigger] descriptor.static_feeds@[i]) is None,
            Err(DescriptorError::NoFeeds) => descriptor.static_feeds@.len() == 0,
        },
{
    let mut realtime: StringHashMap<usize> = StringHashMap::new();
    assert(realtime@ =~= Map::<Seq<char>, usize>::empty());
    let mut r: usize = 0;
    while r < descriptor.realtime_feeds.len()
        invariant
            r <= descriptor.realtime_feeds.len(),
            realtime@ == realtime_places(descriptor.realtime_feeds@, r as int),
        decreases descriptor.realtime_feeds.len() - r,
    {
        match descriptor_feed_key(&descriptor.realtime_feeds[r].feed_id, &descriptor.realtime_feeds[r].namespace) {
            Some(key) => {
                realtime.insert(key, r);
            },
            None => {},
        }
        r = r + 1;
    }
    let mut known: StringHashMap<usize> = StringHashMap::new();
    assert(known@ =~= Map::<Seq<char>, usize>::empty());
    let mut b: usize = 0;
    while b < base.len()
        invariant
            b <= base.len(),
            known@ == manifest_places(base@, b as int),
        decreases base.len() - b,
    {
        known.insert(base[b].id.clone(), b);
        b = b + 1;
    }
    proof {
        realtime_places_within(descriptor.realtime_feeds@, descriptor.realtime_feeds.len() as int);
        manifest_places_within(base@, base.len() as int);
    }
    let mut feeds: Vec<RawFeedConfig> = Vec::new();
    let mut i: usize = 0;
    while i < descriptor.static_feeds.len()
        invariant
            i <= descriptor.static_feeds.len(),
            realtime@ == realtime_places(descriptor.realtime_feeds@, descriptor.realtime_feeds@.len() as int),
            known@ == manifest_places(base@, base@.len() as int),
            forall|key: Seq<char>| #[trigger] realtime@.dom().contains(key) ==> realtime@[key] < descriptor.realtime_feeds@.len(),
            forall|key: Seq<char>| #[trigger] known@.dom().contains(key) ==> known@[key] < base@.len(),
            feeds@.len() == i,
            forall|k: int| 0 <= k < i ==> feed_described(#[trigger] feeds@[k], descriptor.static_feeds@[k], *descriptor, base@),
        decreases descriptor.static_feeds.len() - i,
    {
        let listed: &RoutingStaticFeedDescriptor = &descriptor.static_feeds[i];
        let fallback: &Option<String> = if listed.namespace.is_some() { &listed.namespace } else { &listed.id };
        let id: String = match descriptor_feed_key(&listed.feed_id, fallback) {
            Some(key) => key,
            None => {
                assert(static_key(descriptor.static_feeds@[i as int]) is None);
                return Err(DescriptorError::MissingKey);
            },
        };
        let live: Option<usize> = find_place(&realtime, &id, &listed.namespace);
        let (trip_updates_url, vehicle_positions_url) = match live {
            Some(place) => (
                copy_text(&descriptor.realtime_feeds[place].trip_updates_url),
                copy_text(&descriptor.realtime_feeds[place].vehicle_positions_url),
            ),
            None => (None, None),
        };
        let depends_on: Vec<String> = match find_place(&known, &id, &listed.namespace) {
            Some(place) => copy_texts(&base[place].depends_on),
            None => Vec::new(),
        };
        proof {
            if place_of(known@, id@, listed.namespace) is None {
                assert(texts_view(depends_on@) =~= Seq::<Seq<char>>::empty());
            }
        }
        let feed: RawFeedConfig = RawFeedConfig {
            id: id,
            static_gtfs: listed.url.clone(),
            static_gtfs_allow_invalid_tls: false,
            trip_updates_url: trip_updates_url,
            vehicle_positions_url: vehicle_positions_url,
            depends_on: depends_on,
        };
        assert(feed_described(feed, *listed, *descriptor, base@));
        feeds.push(feed);
        i = i + 1;
    }
    if feeds.len() == 0 {
        return Err(DescriptorError::NoFeeds);
    }
    Ok(feeds)
}

} // verus!
