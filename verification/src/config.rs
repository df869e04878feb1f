//! How the engine is configured: from a manifest, or from single settings.

use crate::feed_graph::{dependencies_fit, feed_id_fault, validate_feed_dependencies, validate_feed_id, FeedError, FeedErrorView};
use crate::model::FeedConfig;
use crate::number::Real;
use crate::records::copy_texts;
use crate::sources::{
    default_osm_pbf_source, directory_of, directory_of_file, feed_cache, feed_fits, feed_path, map_fits, path_from, prepare_sources, resolve_path_from,
    sole_map_fits, source_path, source_url, sources_fit,
};
use crate::text::{ascii_lower_text, ascii_lowercase, copy_text, joined, parse_number, parsed_number, same_text, text_view, trim_text, trimmed};
use crate::text_order::texts_view;
use vstd::prelude::*;

verus! {

/// Where the configuration is read from.
#[derive(Clone, Debug)]
pub enum ConfigSource {
    /// The manifest under a path.
    Manifest(String),
    /// Single settings of the environment.
    Environment,
}

/// The path of the manifest of a workspace, where none is named.
pub open spec fn default_manifest(workspace_root: Seq<char>) -> Seq<char> {
    path_from(workspace_root, "alpha-raptor.toml"@)
}

/// The path of the manifest of a workspace, where none is named.
pub fn default_manifest_path(workspace_root: &str) -> (path: String)
    ensures
        path@ == default_manifest(workspace_root@),
{
    resolve_path_from(workspace_root, "alpha-raptor.toml")
}

/// Where the configuration of a workspace is read from: the manifest that is named;
/// else the one of the workspace, if it is there; else the environment.
pub fn config_source(workspace_root: &str, named: Option<String>, default_exists: bool) -> (source: ConfigSource)
    ensures
        match text_view(named) {
            Some(path) => source matches ConfigSource::Manifest(chosen) && chosen@ == path_from(workspace_root@, path),
            None => if default_exists {
                source matches ConfigSource::Manifest(chosen) && chosen@ == default_manifest(workspace_root@)
            } else {
                source is Environment
            },
        },
{
    match named {
        Some(path) => ConfigSource::Manifest(resolve_path_from(workspace_root, path.as_str())),
        None => if default_exists { ConfigSource::Manifest(default_manifest_path(workspace_root)) } else { ConfigSource::Environment },
    }
}

/// The metres within which stops are joined by walks, where nothing is given: 450.
pub const DEFAULT_WALK_RADIUS_METERS: u64 = 4646624099911598080;

/// The walking speed in metres per second, where nothing is given: 1.35.
pub const DEFAULT_WALK_SPEED_MPS: u64 = 4608758678669597082;

/// How far timetables may be apart to be merged, where nothing is given: 0.05.
pub const DEFAULT_STATIC_DIFF_TOLERANCE: u64 = 4587366580439587226;

/// How many stops a place is joined to, where nothing is given.
pub const DEFAULT_DVNI_KNN_CANDIDATES: usize = 5;

/// The metres within which a place is joined to stops: 1500.
pub const DEFAULT_DVNI_MAX_WALK_RADIUS_METERS: u64 = 4654311885213007872;

/// The metres to which walks are followed from stops: 4000.
pub const DEFAULT_HPF_MAX_DISTANCE_METERS: u64 = 4661014508095930368;

/// The metres within which a place is on the network: 140.
pub const DEFAULT_HPF_SNAP_TOLERANCE_METERS: u64 = 4639129828656676864;

/// The scale in metres of the penalty for distance from the network: 40.
pub const DEFAULT_HPF_SNAP_QUADRATIC_KAPPA_METERS: u64 = 4630826316843712512;

/// How many nodes are looked at around a place, where nothing is given.
pub const DEFAULT_HPF_SEARCH_WINDOW: usize = 512;

/// The seconds between two looks for map changes, where nothing is given.
pub const DEFAULT_OSM_DIFF_POLL_INTERVAL_SECS: u64 = 1800;

/// The seconds between two realtime refreshes, where nothing is given.
pub const DEFAULT_REFRESH_INTERVAL_SECS: u64 = 45;

/// The seconds between two looks for new timetables, where nothing is given.
pub const DEFAULT_STATIC_RELOAD_INTERVAL_SECS: u64 = 600;

/// How many feeds can be numbered.
pub const MAX_FEEDS: usize = 65536;

/// Where the map is read from in a workspace, where nothing is given.
pub const DEFAULT_OSM_PBF: &'static str = "data/osm/lazio-latest.osm.pbf";

/// Where a single feed is read from, where nothing is given.
pub const DEFAULT_STATIC_GTFS: &'static str = "data/gtfs/rome_static_gtfs.zip";

/// The id of a single feed, where nothing is given.
pub const DEFAULT_FEED_ID: &'static str = "roma";

/// Where trip updates are read from, where nothing is given.
pub const DEFAULT_TRIP_UPDATES_URL: &'static str = "https://romamobilita.it/sites/default/files/rome_rtgtfs_trip_updates_feed.pb";

/// Where vehicle positions are read from, where nothing is given.
pub const DEFAULT_VEHICLE_POSITIONS_URL: &'static str = "https://romamobilita.it/sites/default/files/rome_rtgtfs_vehicle_positions_feed.pb";

/// A feed as a manifest gives it.
#[derive(Clone, Debug)]
pub struct RawFeedConfig {
    pub id: String,
    pub static_gtfs: String,
    pub static_gtfs_allow_invalid_tls: bool,
    pub trip_updates_url: Option<String>,
    pub vehicle_positions_url: Option<String>,
    pub depends_on: Vec<String>,
}

/// Where map changes are found, as a manifest gives it.
#[derive(Clone, Debug)]
pub struct RawOsmDiffConfig {
    pub state_url: String,
    pub diff_base_url: Option<String>,
    pub poll_interval_secs: Option<u64>,
    pub allow_invalid_tls: Option<bool>,
}

/// The numbers of a configuration, where they are given.
#[derive(Clone, Copy, Debug)]
pub struct RawSettings {
    pub walk_radius_meters: Option<Real>,
    pub walk_speed_mps: Option<Real>,
    pub max_transfer_candidates: Option<usize>,
    pub refresh_interval_secs: Option<u64>,
    pub static_reload_interval_secs: Option<u64>,
    pub static_diff_tolerance: Option<Real>,
    pub default_max_transfers: Option<usize>,
    pub dvni_knn_candidates: Option<usize>,
    pub dvni_max_walk_radius_meters: Option<Real>,
    pub hpf_max_distance_meters: Option<Real>,
    pub hpf_snap_tolerance_meters: Option<Real>,
    pub hpf_snap_quadratic_kappa_meters: Option<Real>,
    pub hpf_search_window: Option<usize>,
    pub hpf_defer_rebuild_on_bootstrap: Option<bool>,
}

/// The numbers of a configuration.
#[derive(Clone, Copy, Debug, PartialEq, Eq, Structural)]
pub struct Settings {
    pub walk_radius_meters: Real,
    pub walk_speed_mps: Real,
    pub max_transfer_candidates: usize,
    pub refresh_interval_secs: u64,
    pub static_reload_interval_secs: u64,
    pub static_diff_tolerance: Real,
    pub default_max_transfers: usize,
    pub dvni_knn_candidates: usize,
    pub dvni_max_walk_radius_meters: Real,
    pub hpf_max_distance_meters: Real,
    pub hpf_snap_tolerance_meters: Real,
    pub hpf_snap_quadratic_kappa_meters: Real,
    pub hpf_search_window: usize,
    pub hpf_defer_rebuild_on_bootstrap: bool,
}

/// A value, or else another.
pub open spec fn or_else<T>(value: Option<T>, other: T) -> T {
    match value {
        Some(given) => given,
        None => other,
    }
}

pub(crate) fn or_default<T: Copy>(value: Option<T>, other: T) -> (chosen: T)
    ensures
        chosen == or_else(value, other),
{
    match value {
        Some(given) => given,
        None => other,
    }
}

/// A number brought between two others. What is not a number stays as it is.
pub open spec fn clamped_real(value: Real, low: Real, high: Real) -> Real {
    if value.is_nan_spec() {
        value
    } else if value.rank() < low.rank() {
        low
    } else if value.rank() > high.rank() {
        high
    } else {
        value
    }
}

/// Brings a number between two others.
pub fn clamp_real(value: Real, low: Real, high: Real) -> (clamped: Real)
    requires
        !low.is_nan_spec(),
        !high.is_nan_spec(),
    ensures
        clamped == clamped_real(value, low, high),
{
    if value.less_than(low) { low } else if high.less_than(value) { high } else { value }
}

/// A count brought between two others.
pub open spec fn clamped_count(value: usize, low: usize, high: usize) -> usize {
    if value < low { low } else if value > high { high } else { value }
}

fn clamp_count(value: usize, low: usize, high: usize) -> (clamped: usize)
    ensures
        clamped == clamped_count(value, low, high),
{
    if value < low { low } else if value > high { high } else { value }
}

/// A number by its bits.
pub open spec fn number_of(bits: u64) -> Real {
    Real { bits: bits }
}

/// The numbers of a configuration: as given, or else the usual ones, each within
/// its range.
pub open spec fn settings_of(raw: RawSettings) -> Settings {
    Settings {
        walk_radius_meters: or_else(raw.walk_radius_meters, number_of(DEFAULT_WALK_RADIUS_METERS)),
        walk_speed_mps: or_else(raw.walk_speed_mps, number_of(DEFAULT_WALK_SPEED_MPS)),
        max_transfer_candidates: or_else(raw.max_transfer_candidates, 12),
        refresh_interval_secs: or_else(raw.refresh_interval_secs, DEFAULT_REFRESH_INTERVAL_SECS),
        static_reload_interval_secs: or_else(raw.static_reload_interval_secs, DEFAULT_STATIC_RELOAD_INTERVAL_SECS),
        static_diff_tolerance: or_else(raw.static_diff_tolerance, number_of(DEFAULT_STATIC_DIFF_TOLERANCE)),
        default_max_transfers: or_else(raw.default_max_transfers, 4),
        dvni_knn_candidates: clamped_count(or_else(raw.dvni_knn_candidates, DEFAULT_DVNI_KNN_CANDIDATES), 1, 16),
        dvni_max_walk_radius_meters: clamped_real(
            or_else(raw.dvni_max_walk_radius_meters, number_of(DEFAULT_DVNI_MAX_WALK_RADIUS_METERS)),
            number_of(4632233691727265792),
            number_of(4662219572839972864),
        ),
        hpf_max_distance_meters: clamped_real(
            or_else(raw.hpf_max_distance_meters, number_of(DEFAULT_HPF_MAX_DISTANCE_METERS)),
            number_of(4643000109586448384),
            number_of(4671226772094713856),
        ),
        hpf_snap_tolerance_meters: clamped_real(
            or_else(raw.hpf_snap_tolerance_meters, number_of(DEFAULT_HPF_SNAP_TOLERANCE_METERS)),
            number_of(4627730092099895296),
            number_of(4652007308841189376),
        ),
        hpf_snap_quadratic_kappa_meters: clamped_real(
            or_else(raw.hpf_snap_quadratic_kappa_meters, number_of(DEFAULT_HPF_SNAP_QUADRATIC_KAPPA_METERS)),
            number_of(4617315517961601024),
            number_of(4662219572839972864),
        ),
        hpf_search_window: clamped_count(or_else(raw.hpf_search_window, DEFAULT_HPF_SEARCH_WINDOW), 64, 16384),
        hpf_defer_rebuild_on_bootstrap: or_else(raw.hpf_defer_rebuild_on_bootstrap, false),
    }
}

/// Chooses the numbers of a configuration.
pub fn choose_settings(raw: RawSettings) -> (settings: Settings)
    ensures
        settings == settings_of(raw),
{
    Settings {
        walk_radius_meters: or_default(raw.walk_radius_meters, Real { bits: DEFAULT_WALK_RADIUS_METERS }),
        walk_speed_mps: or_default(raw.walk_speed_mps, Real { bits: DEFAULT_WALK_SPEED_MPS }),
        max_transfer_candidates: or_default(raw.max_transfer_candidates, 12),
        refresh_interval_secs: or_default(raw.refresh_interval_secs, DEFAULT_REFRESH_INTERVAL_SECS),
        static_reload_interval_secs: or_default(raw.static_reload_interval_secs, DEFAULT_STATIC_RELOAD_INTERVAL_SECS),
        static_diff_tolerance: or_default(raw.static_diff_tolerance, Real { bits: DEFAULT_STATIC_DIFF_TOLERANCE }),
        default_max_transfers: or_default(raw.default_max_transfers, 4),
        dvni_knn_candidates: clamp_count(or_default(raw.dvni_knn_candidates, DEFAULT_DVNI_KNN_CANDIDATES), 1, 16),
        dvni_max_walk_radius_meters: clamp_real(
            or_default(raw.dvni_max_walk_radius_meters, Real { bits: DEFAULT_DVNI_MAX_WALK_RADIUS_METERS }),
            Real { bits: 4632233691727265792 },
            Real { bits: 4662219572839972864 },
        ),
        hpf_max_distance_meters: clamp_real(
            or_default(raw.hpf_max_distance_meters, Real { bits: DEFAULT_HPF_MAX_DISTANCE_METERS }),
            Real { bits: 4643000109586448384 },
            Real { bits: 4671226772094713856 },
        ),
        hpf_snap_tolerance_meters: clamp_real(
            or_default(raw.hpf_snap_tolerance_meters, Real { bits: DEFAULT_HPF_SNAP_TOLERANCE_METERS }),
            Real { bits: 4627730092099895296 },
            Real { bits: 4652007308841189376 },
        ),
        hpf_snap_quadratic_kappa_meters: clamp_real(
            or_default(raw.hpf_snap_quadratic_kappa_meters, Real { bits: DEFAULT_HPF_SNAP_QUADRATIC_KAPPA_METERS }),
            Real { bits: 4617315517961601024 },
            Real { bits: 4662219572839972864 },
        ),
        hpf_search_window: clamp_count(or_default(raw.hpf_search_window, DEFAULT_HPF_SEARCH_WINDOW), 64, 16384),
        hpf_defer_rebuild_on_bootstrap: or_default(raw.hpf_defer_rebuild_on_bootstrap, false),
    }
}

/// The settings with a range are within it, whatever was given, unless a number
/// given is not a number.
pub proof fn settings_are_within_range(raw: RawSettings)
    requires
        raw.dvni_max_walk_radius_meters is Some ==> !raw.dvni_max_walk_radius_meters->0.is_nan_spec(),
        raw.hpf_max_distance_meters is Some ==> !raw.hpf_max_distance_meters->0.is_nan_spec(),
        raw.hpf_snap_tolerance_meters is Some ==> !raw.hpf_snap_tolerance_meters->0.is_nan_spec(),
        raw.hpf_snap_quadratic_kappa_meters is Some ==> !raw.hpf_snap_quadratic_kappa_meters->0.is_nan_spec(),
    ensures
        1 <= settings_of(raw).dvni_knn_candidates <= 16,
        64 <= settings_of(raw).hpf_search_window <= 16384,
        number_of(4632233691727265792).rank() <= settings_of(raw).dvni_max_walk_radius_meters.rank() <= number_of(4662219572839972864).rank(),
        number_of(4643000109586448384).rank() <= settings_of(raw).hpf_max_distance_meters.rank() <= number_of(4671226772094713856).rank(),
        number_of(4627730092099895296).rank() <= settings_of(raw).hpf_snap_tolerance_meters.rank() <= number_of(4652007308841189376).rank(),
        number_of(4617315517961601024).rank() <= settings_of(raw).hpf_snap_quadratic_kappa_meters.rank() <= number_of(4662219572839972864).rank(),
{
}

/// Where map changes are found, and how often to look.
#[derive(Clone, Debug)]
pub struct OsmDiffConfig {
    pub state_url: String,
    pub diff_base_url: Option<String>,
    pub poll_interval_secs: u64,
    pub allow_invalid_tls: bool,
}

/// Whether a place for map changes is as given, with at least a minute between
/// two looks.
pub open spec fn diff_configured(diff: Option<OsmDiffConfig>, raw: Option<RawOsmDiffConfig>, inherited_tls: bool) -> bool {
    match (diff, raw) {
        (None, None) => true,
        (Some(diff), Some(raw)) => {
            let interval = or_else(raw.poll_interval_secs, DEFAULT_OSM_DIFF_POLL_INTERVAL_SECS);
            &&& diff.state_url@ == raw.state_url@
            &&& text_view(diff.diff_base_url) == text_view(raw.diff_base_url)
            &&& diff.poll_interval_secs == if interval < 60 { 60 } else { interval }
            &&& diff.allow_invalid_tls == or_else(raw.allow_invalid_tls, inherited_tls)
        },
        _ => false,
    }
}

fn configure_diff(raw: &Option<RawOsmDiffConfig>, inherited_tls: bool) -> (diff: Option<OsmDiffConfig>)
    ensures
        diff_configured(diff, *raw, inherited_tls),
{
    match raw {
        None => None,
        Some(raw) => {
            let interval: u64 = or_default(raw.poll_interval_secs, DEFAULT_OSM_DIFF_POLL_INTERVAL_SECS);
            Some(
                OsmDiffConfig {
                    state_url: raw.state_url.clone(),
                    diff_base_url: copy_text(&raw.diff_base_url),
                    poll_interval_secs: if interval < 60 { 60 } else { interval },
                    allow_invalid_tls: or_default(raw.allow_invalid_tls, inherited_tls),
                },
            )
        },
    }
}

/// Where something is read from: the file, what was configured, and the address
/// if it is remote.
#[derive(Clone, Debug)]
pub struct PreparedSource {
    pub local_path: String,
    pub source: String,
    pub remote_url: Option<String>,
    pub allow_invalid_tls: bool,
}

/// A configuration.
#[derive(Clone, Debug)]
pub struct EngineConfig {
    pub workspace_root: String,
    pub manifest_path: Option<String>,
    pub source_manifest_path: Option<String>,
    pub feeds: Vec<FeedConfig>,
    pub osm: PreparedSource,
    pub settings: Settings,
    pub osm_diff: Option<OsmDiffConfig>,
}

/// Whether a feed is configured as it was given, at a place in the list: its paths
/// begin at a directory, and what is on the web is kept in the workspace.
pub open spec fn feed_configured(feed: FeedConfig, position: int, raw: RawFeedConfig, workspace_root: Seq<char>, directory: Seq<char>) -> bool {
    &&& feed.feed_index == position
    &&& feed.id@ == raw.id@
    &&& feed.static_gtfs_path@ == feed_path(raw, workspace_root, directory)
    &&& feed.static_gtfs_source@ == raw.static_gtfs@
    &&& text_view(feed.static_gtfs_remote_url) == source_url(raw.static_gtfs@)
    &&& feed.static_gtfs_allow_invalid_tls == raw.static_gtfs_allow_invalid_tls
    &&& text_view(feed.trip_updates_url) == text_view(raw.trip_updates_url)
    &&& text_view(feed.vehicle_positions_url) == text_view(raw.vehicle_positions_url)
    &&& texts_view(feed.depends_on@) == texts_view(raw.depends_on@)
}

/// Whether the first `n` feeds are configured as they were given.
pub open spec fn feeds_configured(feeds: Seq<FeedConfig>, raw: Seq<RawFeedConfig>, workspace_root: Seq<char>, directory: Seq<char>, n: int) -> bool {
    feeds.len() == n && forall|i: int| 0 <= i < n ==> feed_configured(#[trigger] feeds[i], i, raw[i], workspace_root, directory)
}

/// Why there is no configuration.
#[derive(Clone, Debug)]
pub enum ConfigError {
    /// No feed is given.
    NoFeeds,
    /// More feeds are given than can be numbered.
    TooManyFeeds,
    /// Two feeds have the same id.
    DuplicateFeed { feed_id: String },
    /// A feed cannot be taken.
    Feed(FeedError),
}

/// What an error says.
pub enum ConfigErrorView {
    NoFeeds,
    TooManyFeeds,
    DuplicateFeed { feed_id: Seq<char> },
    Feed(FeedErrorView),
}

impl ConfigError {
    /// What the error says.
    pub open spec fn view(&self) -> ConfigErrorView {
        match *self {
            ConfigError::NoFeeds => ConfigErrorView::NoFeeds,
            ConfigError::TooManyFeeds => ConfigErrorView::TooManyFeeds,
            ConfigError::DuplicateFeed { feed_id } => ConfigErrorView::DuplicateFeed { feed_id: feed_id@ },
            ConfigError::Feed(error) => ConfigErrorView::Feed(error@),
        }
    }
}

/// Whether an earlier feed has the same id.
pub open spec fn id_repeats(feeds: Seq<RawFeedConfig>, at: int) -> bool {
    exists|q: int| 0 <= q < at && (#[trigger] feeds[q]).id@ == feeds[at].id@
}

/// What is wrong with the id of a feed in a list.
pub open spec fn listed_fault(feeds: Seq<RawFeedConfig>, at: int) -> Option<ConfigErrorView> {
    match feed_id_fault(feeds[at].id@) {
        Some(error) => Some(ConfigErrorView::Feed(error)),
        None => if id_repeats(feeds, at) { Some(ConfigErrorView::DuplicateFeed { feed_id: feeds[at].id@ }) } else { None },
    }
}

/// Checks the id of a feed in a list: it can be an id, and no earlier feed has it.
pub fn admit_feed(feeds: &Vec<RawFeedConfig>, at: usize) -> (result: Result<(), ConfigError>)
    requires
        at < feeds@.len(),
    ensures
        match result {
            Ok(_) => listed_fault(feeds@, at as int) is None,
            Err(error) => listed_fault(feeds@, at as int) == Some(error@),
        },
{
    match validate_feed_id(feeds[at].id.as_str()) {
        Ok(_) => {},
        Err(error) => {
            return Err(ConfigError::Feed(error));
        },
    }
    let mut q: usize = 0;
    while q < at
        invariant
            q <= at < feeds@.len(),
            feed_id_fault(feeds@[at as int].id@) is None,
            forall|k: int| 0 <= k < q ==> (#[trigger] feeds@[k]).id@ != feeds@[at as int].id@,
        decreases at - q,
    {
        if same_text(feeds[q].id.as_str(), feeds[at].id.as_str()) {
            assert(id_repeats(feeds@, at as int));
            return Err(ConfigError::DuplicateFeed { feed_id: feeds[at].id.clone() });
        }
        q = q + 1;
    }
    Ok(())
}

/// What a manifest gives.
#[derive(Clone, Debug)]
pub struct RawEngineManifest {
    pub osm_pbf: Option<String>,
    pub osm_pbf_allow_invalid_tls: Option<bool>,
    pub settings: RawSettings,
    pub osm_diff: Option<RawOsmDiffConfig>,
    pub feeds: Vec<RawFeedConfig>,
}

/// Whether a configuration says what a manifest gives whose paths begin at a directory,
/// in a workspace.
pub open spec fn configured(config: EngineConfig, manifest: RawEngineManifest, workspace_root: Seq<char>, directory: Seq<char>) -> bool {
    &&& config.workspace_root@ == workspace_root
    &&& feeds_configured(config.feeds@, manifest.feeds@, workspace_root, directory, manifest.feeds@.len() as int)
    &&& map_fits(config.osm, manifest, workspace_root, directory)
    &&& config.settings == settings_of(manifest.settings)
    &&& diff_configured(config.osm_diff, manifest.osm_diff, or_else(manifest.osm_pbf_allow_invalid_tls, false))
}

/// Checks that there are feeds, and not too many.
pub fn check_feed_count(count: usize) -> (result: Result<(), ConfigError>)
    ensures
        match result {
            Ok(_) => 1 <= count <= MAX_FEEDS,
            Err(error) => if count == 0 { error@ == ConfigErrorView::NoFeeds } else { count > MAX_FEEDS && error@ == ConfigErrorView::TooManyFeeds },
        },
{
    if count == 0 {
        return Err(ConfigError::NoFeeds);
    }
    if count > MAX_FEEDS {
        return Err(ConfigError::TooManyFeeds);
    }
    Ok(())
}

/// Whether no feed before one has a fault.
pub open spec fn faultless_before(feeds: Seq<RawFeedConfig>, at: int) -> bool {
    forall|i: int| 0 <= i < at ==> #[trigger] listed_fault(feeds, i) is None
}

/// When a manifest is refused, and why.
pub open spec fn refusal_fits(manifest: RawEngineManifest, workspace_root: Seq<char>, directory: Seq<char>, error: ConfigErrorView) -> bool {
    let count = manifest.feeds@.len() as int;
    if count == 0 {
        error == ConfigErrorView::NoFeeds
    } else if count > MAX_FEEDS {
        error == ConfigErrorView::TooManyFeeds
    } else if !faultless_before(manifest.feeds@, count) {
        exists|at: int| 0 <= at < count && faultless_before(manifest.feeds@, at) && #[trigger] listed_fault(manifest.feeds@, at) == Some(error)
    } else {
        exists|feeds: Seq<FeedConfig>, reason: FeedErrorView| {
            &&& #[trigger] feeds_configured(feeds, manifest.feeds@, workspace_root, directory, count)
            &&& #[trigger] dependencies_fit(feeds, Err::<(), FeedErrorView>(reason))
            &&& error == ConfigErrorView::Feed(reason)
        }
    }
}

impl EngineConfig {
    /// Makes a configuration of a manifest. Its paths begin at the directory of the
    /// manifest.
    pub fn from_manifest(
        workspace_root: &str,
        source_manifest_path: &str,
        manifest_path: &str,
        manifest: &RawEngineManifest,
    ) -> (result: Result<EngineConfig, ConfigError>)
        ensures
            match result {
                Ok(config) => {
                    &&& 1 <= manifest.feeds@.len() <= MAX_FEEDS
                    &&& faultless_before(manifest.feeds@, manifest.feeds@.len() as int)
                    &&& dependencies_fit(config.feeds@, Ok::<(), FeedErrorView>(()))
                    &&& configured(config, *manifest, workspace_root@, directory_of(manifest_path@))
                    &&& text_view(config.manifest_path) == Some(manifest_path@)
                    &&& text_view(config.source_manifest_path) == Some(source_manifest_path@)
                },
                Err(error) => refusal_fits(*manifest, workspace_root@, directory_of(manifest_path@), error@),
            },
    {
        let directory: String = directory_of_file(manifest_path);
        match check_feed_count(manifest.feeds.len()) {
            Ok(_) => {},
            Err(error) => {
                return Err(error);
            },
        }
        let (osm, sources) = prepare_sources(workspace_root, directory.as_str(), manifest);
        let mut feeds: Vec<FeedConfig> = Vec::new();
        let mut i: usize = 0;
        while i < manifest.feeds.len()
            invariant
                i <= manifest.feeds.len() <= MAX_FEEDS,
                manifest.feeds.len() >= 1,
                directory@ == directory_of(manifest_path@),
                sources_fit(*manifest, osm, sources@, workspace_root@, directory@),
                faultless_before(manifest.feeds@, i as int),
                feeds_configured(feeds@, manifest.feeds@, workspace_root@, directory@, i as int),
            decreases manifest.feeds.len() - i,
        {
            match admit_feed(&manifest.feeds, i) {
                Ok(_) => {},
                Err(error) => {
                    assert(!faultless_before(manifest.feeds@, manifest.feeds@.len() as int));
                    return Err(error);
                },
            }
            let raw: &RawFeedConfig = &manifest.feeds[i];
            let source: &PreparedSource = &sources[i];
            assert(feed_fits(sources@[i as int], manifest.feeds@[i as int], workspace_root@, directory@));
            feeds.push(
                FeedConfig {
                    feed_index: i as u16,
                    id: raw.id.clone(),
                    static_gtfs_path: source.local_path.clone(),
                    static_gtfs_source: source.source.clone(),
                    static_gtfs_remote_url: copy_text(&source.remote_url),
                    static_gtfs_allow_invalid_tls: source.allow_invalid_tls,
                    trip_updates_url: copy_text(&raw.trip_updates_url),
                    vehicle_positions_url: copy_text(&raw.vehicle_positions_url),
                    depends_on: copy_texts(&raw.depends_on),
                },
            );
            i = i + 1;
        }
        match validate_feed_dependencies(&feeds) {
            Ok(_) => {},
            Err(error) => {
                proof {
                    assert(feeds_configured(feeds@, manifest.feeds@, workspace_root@, directory@, manifest.feeds@.len() as int));
                    assert(dependencies_fit(feeds@, Err::<(), FeedErrorView>(error@)));
                }
                return Err(ConfigError::Feed(error));
            },
        }
        let osm_diff: Option<OsmDiffConfig> = configure_diff(&manifest.osm_diff, osm.allow_invalid_tls);
        Ok(
            EngineConfig {
                workspace_root: workspace_root.to_owned(),
                manifest_path: Some(manifest_path.to_owned()),
                source_manifest_path: Some(source_manifest_path.to_owned()),
                feeds: feeds,
                osm: osm,
                settings: choose_settings(manifest.settings),
                osm_diff: osm_diff,
            },
        )
    }
}

/// Settings given one by one, as texts where the library reads them.
#[derive(Clone, Debug)]
pub struct LegacyEnvironment {
    pub default_feed_id: Option<String>,
    pub static_gtfs: Option<String>,
    pub static_gtfs_allow_invalid_tls: Option<String>,
    pub osm_pbf: Option<String>,
    pub osm_pbf_allow_invalid_tls: Option<String>,
    pub trip_updates_url: Option<String>,
    pub vehicle_positions_url: Option<String>,
    pub walk_radius_meters: Option<Real>,
    pub walk_speed_mps: Option<Real>,
    pub max_walk_neighbors: Option<String>,
    pub rt_refresh_secs: Option<String>,
    pub static_poll_secs: Option<String>,
    pub static_diff_tolerance: Option<Real>,
    pub max_transfers: Option<String>,
    pub dvni_knn: Option<String>,
    pub dvni_max_walk_radius_meters: Option<Real>,
    pub hpf_max_distance_meters: Option<Real>,
    pub hpf_snap_tolerance_meters: Option<Real>,
    pub hpf_snap_quadratic_kappa_meters: Option<Real>,
    pub hpf_search_window: Option<String>,
    pub hpf_defer_rebuild_on_bootstrap: Option<String>,
    pub osm_diff_state_url: Option<String>,
    pub osm_diff_base_url: Option<String>,
    pub osm_diff_poll_secs: Option<String>,
    pub osm_diff_allow_invalid_tls: Option<String>,
}

/// Whether a text says yes: `1`, `true`, `yes` or `on`, in any case and with
/// white space around it.
pub open spec fn says_yes(text: Seq<char>) -> bool {
    let plain = ascii_lower_text(trim_text(text));
    plain == "1"@ || plain == "true"@ || plain == "yes"@ || plain == "on"@
}

/// Whether a text says yes.
pub fn is_yes(text: &str) -> (yes: bool)
    ensures
        yes == says_yes(text@),
{
    let plain: String = ascii_lowercase(trimmed(text).as_str());
    same_text(plain.as_str(), "1") || same_text(plain.as_str(), "true") || same_text(plain.as_str(), "yes") || same_text(plain.as_str(), "on")
}

/// Whether a setting says yes, if it is given.
pub open spec fn setting_yes(text: Option<String>) -> Option<bool> {
    match text {
        Some(value) => Some(says_yes(value@)),
        None => None,
    }
}

fn read_yes(text: &Option<String>) -> (yes: Option<bool>)
    ensures
        yes == setting_yes(*text),
{
    match text {
        Some(value) => Some(is_yes(value.as_str())),
        None => None,
    }
}

/// The number that a setting gives, if it gives one.
pub open spec fn setting_number(text: Option<String>, limit: int) -> Option<int> {
    match text {
        Some(value) => parsed_number(value@, limit),
        None => None,
    }
}

/// A number as a count.
pub open spec fn as_count(number: Option<int>) -> Option<usize> {
    match number {
        Some(value) => Some(value as usize),
        None => None,
    }
}

/// A number as seconds.
pub open spec fn as_secs(number: Option<int>) -> Option<u64> {
    match number {
        Some(value) => Some(value as u64),
        None => None,
    }
}

fn read_count(text: &Option<String>) -> (count: Option<usize>)
    ensures
        count == as_count(setting_number(*text, usize::MAX as int)),
{
    match text {
        Some(value) => match parse_number(value.as_str(), usize::MAX as u64) {
            Some(number) => Some(number as usize),
            None => None,
        },
        None => None,
    }
}

fn read_secs(text: &Option<String>) -> (secs: Option<u64>)
    ensures
        secs == as_secs(setting_number(*text, u64::MAX as int)),
{
    match text {
        Some(value) => parse_number(value.as_str(), u64::MAX),
        None => None,
    }
}

/// The text of a setting, or else another.
pub open spec fn text_or(text: Option<String>, other: Seq<char>) -> Seq<char> {
    match text {
        Some(value) => value@,
        None => other,
    }
}

/// The text of a setting, or else another.
pub(crate) fn text_or_default(text: &Option<String>, other: &str) -> (chosen: String)
    ensures
        chosen@ == text_or(*text, other@),
{
    match text {
        Some(value) => value.clone(),
        None => other.to_owned(),
    }
}

/// The numbers that single settings give.
pub open spec fn legacy_settings(env: LegacyEnvironment) -> RawSettings {
    RawSettings {
        walk_radius_meters: env.walk_radius_meters,
        walk_speed_mps: env.walk_speed_mps,
        max_transfer_candidates: as_count(setting_number(env.max_walk_neighbors, usize::MAX as int)),
        refresh_interval_secs: as_secs(setting_number(env.rt_refresh_secs, u64::MAX as int)),
        static_reload_interval_secs: as_secs(setting_number(env.static_poll_secs, u64::MAX as int)),
        static_diff_tolerance: env.static_diff_tolerance,
        default_max_transfers: as_count(setting_number(env.max_transfers, usize::MAX as int)),
        dvni_knn_candidates: as_count(setting_number(env.dvni_knn, usize::MAX as int)),
        dvni_max_walk_radius_meters: env.dvni_max_walk_radius_meters,
        hpf_max_distance_meters: env.hpf_max_distance_meters,
        hpf_snap_tolerance_meters: env.hpf_snap_tolerance_meters,
        hpf_snap_quadratic_kappa_meters: env.hpf_snap_quadratic_kappa_meters,
        hpf_search_window: as_count(setting_number(env.hpf_search_window, usize::MAX as int)),
        hpf_defer_rebuild_on_bootstrap: setting_yes(env.hpf_defer_rebuild_on_bootstrap),
    }
}

/// Whether a manifest says what single settings give: one feed, and map changes
/// if their place is given.
pub open spec fn legacy_manifest_fits(env: LegacyEnvironment, manifest: RawEngineManifest) -> bool {
    &&& text_view(manifest.osm_pbf) == text_view(env.osm_pbf)
    &&& manifest.osm_pbf_allow_invalid_tls == setting_yes(env.osm_pbf_allow_invalid_tls)
    &&& manifest.settings == legacy_settings(env)
    &&& manifest.osm_diff is Some <==> env.osm_diff_state_url is Some
    &&& manifest.osm_diff is Some ==> {
        let diff = manifest.osm_diff->0;
        &&& diff.state_url@ == text_or(env.osm_diff_state_url, Seq::empty())
        &&& text_view(diff.diff_base_url) == text_view(env.osm_diff_base_url)
        &&& diff.poll_interval_secs == as_secs(setting_number(env.osm_diff_poll_secs, u64::MAX as int))
        &&& diff.allow_invalid_tls == setting_yes(env.osm_diff_allow_invalid_tls)
    }
    &&& manifest.feeds@.len() == 1
    &&& ({
        let feed = manifest.feeds@[0];
        &&& feed.id@ == text_or(env.default_feed_id, DEFAULT_FEED_ID@)
        &&& feed.static_gtfs@ == text_or(env.static_gtfs, DEFAULT_STATIC_GTFS@)
        &&& feed.static_gtfs_allow_invalid_tls == or_else(setting_yes(env.static_gtfs_allow_invalid_tls), false)
        &&& text_view(feed.trip_updates_url) == Some(text_or(env.trip_updates_url, DEFAULT_TRIP_UPDATES_URL@))
        &&& text_view(feed.vehicle_positions_url) == Some(text_or(env.vehicle_positions_url, DEFAULT_VEHICLE_POSITIONS_URL@))
        &&& feed.depends_on@.len() == 0
    })
}

/// Whether a configuration says what single settings give, in a workspace: one feed, the
/// map, and map changes if their place is given.
pub open spec fn legacy_configured(config: EngineConfig, env: LegacyEnvironment, workspace_root: Seq<char>) -> bool {
    let id = text_or(env.default_feed_id, DEFAULT_FEED_ID@);
    let timetable = text_or(env.static_gtfs, DEFAULT_STATIC_GTFS@);
    let feed = config.feeds@[0];
    &&& config.workspace_root@ == workspace_root
    &&& config.feeds@.len() == 1
    &&& feed.feed_index == 0
    &&& feed.id@ == id
    &&& feed.static_gtfs_path@ == source_path(timetable, workspace_root, feed_cache(workspace_root), id + ".static.gtfs.zip"@)
    &&& feed.static_gtfs_source@ == timetable
    &&& text_view(feed.static_gtfs_remote_url) == source_url(timetable)
    &&& feed.static_gtfs_allow_invalid_tls == or_else(setting_yes(env.static_gtfs_allow_invalid_tls), false)
    &&& text_view(feed.trip_updates_url) == Some(text_or(env.trip_updates_url, DEFAULT_TRIP_UPDATES_URL@))
    &&& text_view(feed.vehicle_positions_url) == Some(text_or(env.vehicle_positions_url, DEFAULT_VEHICLE_POSITIONS_URL@))
    &&& feed.depends_on@.len() == 0
    &&& sole_map_fits(config.osm, text_view(env.osm_pbf), workspace_root, or_else(setting_yes(env.osm_pbf_allow_invalid_tls), false))
    &&& config.settings == settings_of(legacy_settings(env))
    &&& match (config.osm_diff, env.osm_diff_state_url) {
        (None, None) => true,
        (Some(diff), Some(state_url)) => {
            let interval = or_else(as_secs(setting_number(env.osm_diff_poll_secs, u64::MAX as int)), DEFAULT_OSM_DIFF_POLL_INTERVAL_SECS);
            &&& diff.state_url@ == state_url@
            &&& text_view(diff.diff_base_url) == text_view(env.osm_diff_base_url)
            &&& diff.poll_interval_secs == if interval < 60 { 60 } else { interval }
            &&& diff.allow_invalid_tls == or_else(setting_yes(env.osm_diff_allow_invalid_tls), config.osm.allow_invalid_tls)
        },
        _ => false,
    }
}

/// The manifest that single settings stand for.
pub fn legacy_manifest(env: &LegacyEnvironment) -> (manifest: RawEngineManifest)
    ensures
        legacy_manifest_fits(*env, manifest),
{
    let feed: RawFeedConfig = RawFeedConfig {
        id: text_or_default(&env.default_feed_id, DEFAULT_FEED_ID),
        static_gtfs: text_or_default(&env.static_gtfs, DEFAULT_STATIC_GTFS),
        static_gtfs_allow_invalid_tls: or_default(read_yes(&env.static_gtfs_allow_invalid_tls), false),
        trip_updates_url: Some(text_or_default(&env.trip_updates_url, DEFAULT_TRIP_UPDATES_URL)),
        vehicle_positions_url: Some(text_or_default(&env.vehicle_positions_url, DEFAULT_VEHICLE_POSITIONS_URL)),
        depends_on: Vec::new(),
    };
    let mut feeds: Vec<RawFeedConfig> = Vec::new();
    feeds.push(feed);
    let osm_diff: Option<RawOsmDiffConfig> = match &env.osm_diff_state_url {
        Some(state_url) => Some(
            RawOsmDiffConfig {
                state_url: state_url.clone(),
                diff_base_url: copy_text(&env.osm_diff_base_url),
                poll_interval_secs: read_secs(&env.osm_diff_poll_secs),
                allow_invalid_tls: read_yes(&env.osm_diff_allow_invalid_tls),
            },
        ),
        None => None,
    };
    RawEngineManifest {
        osm_pbf: copy_text(&env.osm_pbf),
        osm_pbf_allow_invalid_tls: read_yes(&env.osm_pbf_allow_invalid_tls),
        settings: RawSettings {
            walk_radius_meters: env.walk_radius_meters,
            walk_speed_mps: env.walk_speed_mps,
            max_transfer_candidates: read_count(&env.max_walk_neighbors),
            refresh_interval_secs: read_secs(&env.rt_refresh_secs),
            static_reload_interval_secs: read_secs(&env.static_poll_secs),
            static_diff_tolerance: env.static_diff_tolerance,
            default_max_transfers: read_count(&env.max_transfers),
            dvni_knn_candidates: read_count(&env.dvni_knn),
            dvni_max_walk_radius_meters: env.dvni_max_walk_radius_meters,
            hpf_max_distance_meters: env.hpf_max_distance_meters,
            hpf_snap_tolerance_meters: env.hpf_snap_tolerance_meters,
            hpf_snap_quadratic_kappa_meters: env.hpf_snap_quadratic_kappa_meters,
            hpf_search_window: read_count(&env.hpf_search_window),
            hpf_defer_rebuild_on_bootstrap: read_yes(&env.hpf_defer_rebuild_on_bootstrap),
        },
        osm_diff: osm_diff,
        feeds: feeds,
    }
}

impl EngineConfig {
    /// Makes a configuration of single settings. Paths begin at the workspace.
    pub fn from_legacy_env(workspace_root: &str, env: &LegacyEnvironment) -> (result: Result<EngineConfig, ConfigError>)
        ensures
            match result {
                Ok(config) => {
                    &&& feed_id_fault(text_or(env.default_feed_id, DEFAULT_FEED_ID@)) is None
                    &&& legacy_configured(config, *env, workspace_root@)
                    &&& config.manifest_path is None
                    &&& config.source_manifest_path is None
                },
                Err(error) => match feed_id_fault(text_or(env.default_feed_id, DEFAULT_FEED_ID@)) {
                    Some(fault) => error@ == ConfigErrorView::Feed(fault),
                    None => false,
                },
            },
    {
        let manifest: RawEngineManifest = legacy_manifest(env);
        let raw: &RawFeedConfig = &manifest.feeds[0];
        match validate_feed_id(raw.id.as_str()) {
            Ok(_) => {},
            Err(error) => {
                return Err(ConfigError::Feed(error));
            },
        }
        let (given_osm, sources) = prepare_sources(workspace_root, workspace_root, &manifest);
        let osm: PreparedSource = match &env.osm_pbf {
            Some(_) => given_osm,
            None => default_osm_pbf_source(workspace_root, given_osm.allow_invalid_tls),
        };
        let source: &PreparedSource = &sources[0];
        assert(feed_fits(sources@[0], manifest.feeds@[0], workspace_root@, workspace_root@));
        let osm_diff: Option<OsmDiffConfig> = configure_diff(&manifest.osm_diff, osm.allow_invalid_tls);
        let settings: Settings = choose_settings(manifest.settings);
        let mut feeds: Vec<FeedConfig> = Vec::new();
        feeds.push(
            FeedConfig {
                feed_index: 0,
                id: raw.id.clone(),
                static_gtfs_path: source.local_path.clone(),
                static_gtfs_source: source.source.clone(),
                static_gtfs_remote_url: copy_text(&source.remote_url),
                static_gtfs_allow_invalid_tls: source.allow_invalid_tls,
                trip_updates_url: copy_text(&raw.trip_updates_url),
                vehicle_positions_url: copy_text(&raw.vehicle_positions_url),
                depends_on: Vec::new(),
            },
        );
        Ok(
            EngineConfig {
                workspace_root: workspace_root.to_owned(),
                manifest_path: None,
                source_manifest_path: None,
                feeds: feeds,
                osm: osm,
                settings: settings,
                osm_diff: osm_diff,
            },
        )
    }

    /// The sources of the timetables, for display.
    pub fn static_sources_display(&self) -> (text: String)
        ensures
            text@ == joined_parts(Seq::new(self.feeds@.len(), |i: int| source_part(self.feeds@[i]))),
    {
        let mut parts: Vec<String> = Vec::new();
        let mut i: usize = 0;
        let ghost all = Seq::new(self.feeds@.len(), |i: int| source_part(self.feeds@[i]));
        while i < self.feeds.len()
            invariant
                i <= self.feeds.len(),
                all == Seq::new(self.feeds@.len(), |i: int| source_part(self.feeds@[i])),
                texts_view(parts@) == all.take(i as int),
            decreases self.feeds.len() - i,
        {
            let feed: &FeedConfig = &self.feeds[i];
            let mut part: String = joined(feed.id.as_str(), "=");
            match &feed.static_gtfs_remote_url {
                Some(url) => {
                    part.append(url.as_str());
                    part.append(" -> ");
                },
                None => {},
            }
            part.append(feed.static_gtfs_path.as_str());
            assert(part@ =~= all[i as int]);
            let ghost before = parts@;
            let ghost shown = part@;
            parts.push(part);
            i = i + 1;
            assert(texts_view(parts@) =~= texts_view(before).push(shown));
            assert(texts_view(parts@) =~= all.take(i as int));
        }
        assert(all.take(i as int) =~= all);
        join_parts(&parts)
    }

    /// The sources of the trip updates, for display.
    pub fn trip_updates_display(&self) -> (text: String)
        ensures
            text@ == joined_parts(url_parts(Seq::new(self.feeds@.len(), |i: int| (self.feeds@[i].id@, text_view(self.feeds@[i].trip_updates_url))), self.feeds@.len() as int)),
    {
        let mut parts: Vec<String> = Vec::new();
        let ghost urls = Seq::new(self.feeds@.len(), |i: int| (self.feeds@[i].id@, text_view(self.feeds@[i].trip_updates_url)));
        let mut i: usize = 0;
        assert(texts_view(parts@) =~= url_parts(urls, 0));
        while i < self.feeds.len()
            invariant
                i <= self.feeds.len(),
                urls == Seq::new(self.feeds@.len(), |i: int| (self.feeds@[i].id@, text_view(self.feeds@[i].trip_updates_url))),
                texts_view(parts@) == url_parts(urls, i as int),
            decreases self.feeds.len() - i,
        {
            push_url(&mut parts, &self.feeds[i].id, &self.feeds[i].trip_updates_url);
            i = i + 1;
        }
        join_parts(&parts)
    }

    /// The sources of the vehicle positions, for display.
    pub fn vehicle_positions_display(&self) -> (text: String)
        ensures
            text@ == joined_parts(
                url_parts(Seq::new(self.feeds@.len(), |i: int| (self.feeds@[i].id@, text_view(self.feeds@[i].vehicle_positions_url))), self.feeds@.len() as int),
            ),
    {
        let mut parts: Vec<String> = Vec::new();
        let ghost urls = Seq::new(self.feeds@.len(), |i: int| (self.feeds@[i].id@, text_view(self.feeds@[i].vehicle_positions_url)));
        let mut i: usize = 0;
        assert(texts_view(parts@) =~= url_parts(urls, 0));
        while i < self.feeds.len()
            invariant
                i <= self.feeds.len(),
                urls == Seq::new(self.feeds@.len(), |i: int| (self.feeds@[i].id@, text_view(self.feeds@[i].vehicle_positions_url))),
                texts_view(parts@) == url_parts(urls, i as int),
            decreases self.feeds.len() - i,
        {
            push_url(&mut parts, &self.feeds[i].id, &self.feeds[i].vehicle_positions_url);
            i = i + 1;
        }
        join_parts(&parts)
    }
}

/// The source of a timetable, for display.
pub open spec fn source_part(feed: FeedConfig) -> Seq<char> {
    match feed.static_gtfs_remote_url {
        Some(url) => feed.id@ + "="@ + url@ + " -> "@ + feed.static_gtfs_path@,
        None => feed.id@ + "="@ + feed.static_gtfs_path@,
    }
}

/// The addresses of the first `n` feeds that have one, for display.
pub open spec fn url_parts(urls: Seq<(Seq<char>, Option<Seq<char>>)>, n: int) -> Seq<Seq<char>>
    decreases n,
{
    if n <= 0 {
        Seq::empty()
    } else {
        match urls[n - 1].1 {
            Some(url) => url_parts(urls, n - 1).push(urls[n - 1].0 + "="@ + url),
            None => url_parts(urls, n - 1),
        }
    }
}

fn push_url(parts: &mut Vec<String>, id: &String, url: &Option<String>)
    ensures
        texts_view(final(parts)@) == (match text_view(*url) {
            Some(address) => texts_view(old(parts)@).push(id@ + "="@ + address),
            None => texts_view(old(parts)@),
        }),
{
    match url {
        Some(address) => {
            let mut part: String = joined(id.as_str(), "=");
            part.append(address.as_str());
            let ghost shown = part@;
            let ghost before = parts@;
            parts.push(part);
            assert(texts_view(parts@) =~= texts_view(before).push(shown));
        },
        None => {},
    }
}

/// Texts one after the other, with a comma and a space between two.
pub open spec fn joined_parts(parts: Seq<Seq<char>>) -> Seq<char>
    decreases parts.len(),
{
    if parts.len() == 0 {
        Seq::empty()
    } else if parts.len() == 1 {
        parts[0]
    } else {
        joined_parts(parts.drop_last()) + ", "@ + parts.last()
    }
}

fn join_parts(parts: &Vec<String>) -> (text: String)
    ensures
        text@ == joined_parts(texts_view(parts@)),
{
    let mut text: String = String::new();
    let mut i: usize = 0;
    let ghost all = texts_view(parts@);
    assert(text@ =~= joined_parts(all.take(0)));
    while i < parts.len()
        invariant
            i <= parts.len(),
            all == texts_view(parts@),
            text@ == joined_parts(all.take(i as int)),
        decreases parts.len() - i,
    {
        if i > 0 {
            text.append(", ");
        }
        text.append(parts[i].as_str());
        assert(all.take(i + 1).drop_last() =~= all.take(i as int));
        i = i + 1;
        if i == 1 {
            assert(text@ =~= all.take(1)[0]);
        }
    }
    assert(all.take(i as int) =~= all);
    text
}

} // verus!
