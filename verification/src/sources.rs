//! Where inputs come from, when remote ones are fetched again, and how a set of
//! inputs is told from another.

use crate::config::{or_default, or_else, text_or, text_or_default, EngineConfig, PreparedSource, RawEngineManifest, RawFeedConfig, DEFAULT_OSM_PBF};
use crate::model::FeedConfig;
use crate::text::{
    ascii_lower_text, ascii_lowercase, begins_with, chars_of, copy_text, joined, same_optional_text, same_text, starts_with, text_between, text_view,
    trim_text, trimmed,
};
use std::collections::hash_map::DefaultHasher;
use std::hash::Hasher;
use vstd::bytes::{spec_u32_to_le_bytes, spec_u64_to_le_bytes, u32_to_le_bytes, u64_to_le_bytes};
use vstd::prelude::*;
use vstd::std_specs::hash::DefaultHasherAdditionalSpecFns;
use vstd::string::*;
use vstd::utf8::encode_utf8;

verus! {

/// The version of the layout of stored timetables.
pub const STATIC_CACHE_SCHEMA_VERSION: u32 = 8;

/// Whether a source is an address on the web.
pub open spec fn source_is_remote(value: Seq<char>) -> bool {
    let plain = ascii_lower_text(trim_text(value));
    begins_with(plain, "http://"@) || begins_with(plain, "https://"@)
}

/// Whether a source is an address on the web.
pub fn is_remote_source(value: &str) -> (remote: bool)
    ensures
        remote == source_is_remote(value@),
{
    let plain: String = ascii_lowercase(trimmed(value).as_str());
    starts_with(plain.as_str(), "http://") || starts_with(plain.as_str(), "https://")
}

/// The file name under which a remote timetable is kept.
pub fn remote_static_gtfs_file_name(feed_id: &str) -> (name: String)
    ensures
        name@ == feed_id@ + ".static.gtfs.zip"@,
{
    joined(feed_id, ".static.gtfs.zip")
}

/// What stands behind the last slash of a text, or all of it.
pub open spec fn after_last_slash(text: Seq<char>) -> Seq<char>
    decreases text.len(),
{
    if text.len() == 0 || text.last() == '/' {
        Seq::empty()
    } else {
        after_last_slash(text.drop_last()).push(text.last())
    }
}

/// The file name under which a remote map is kept: the last part of its address,
/// if it is not blank.
pub open spec fn osm_file_name(source: Seq<char>) -> Seq<char> {
    let name = after_last_slash(source);
    if trim_text(name).len() == 0 { "osm-latest.osm.pbf"@ } else { name }
}

/// The file name under which a remote map is kept.
pub fn remote_osm_pbf_file_name(source_value: &str) -> (name: String)
    ensures
        name@ == osm_file_name(source_value@),
{
    let chars: Vec<char> = chars_of(source_value);
    let mut from: usize = chars.len();
    assert(chars@.subrange(from as int, chars@.len() as int) =~= Seq::<char>::empty());
    proof {
        assert(chars@.take(from as int) =~= chars@);
        assert(after_last_slash(chars@.take(from as int)) + chars@.subrange(from as int, chars@.len() as int) =~= after_last_slash(chars@));
    }
    while from > 0 && chars[from - 1] != '/'
        invariant
            from <= chars.len(),
            after_last_slash(chars@.take(from as int)) + chars@.subrange(from as int, chars@.len() as int) == after_last_slash(chars@),
        decreases from,
    {
        proof {
            let text = chars@.take(from as int);
            assert(text.drop_last() =~= chars@.take(from - 1));
            assert(chars@.subrange(from - 1, chars@.len() as int) =~= seq![chars@[from - 1]] + chars@.subrange(from as int, chars@.len() as int));
            assert(after_last_slash(text) == after_last_slash(text.drop_last()).push(text.last()));
            assert(after_last_slash(text.drop_last()) + chars@.subrange(from - 1, chars@.len() as int) =~= after_last_slash(text) + chars@.subrange(from as int, chars@.len() as int));
        }
        from = from - 1;
    }
    let name: String = text_between(&chars, from, chars.len());
    proof {
        assert(after_last_slash(chars@.take(from as int)) =~= Seq::<char>::empty());
        assert(name@ =~= after_last_slash(chars@));
    }
    let short: String = trimmed(name.as_str());
    if short.as_str().is_empty() { "osm-latest.osm.pbf".to_owned() } else { name }
}

/// Describes a source that was fetched: it is kept under a local name.
pub fn prepared_remote_source(source_value: &str, local_path: &str, allow_invalid_tls: bool) -> (prepared: PreparedSource)
    ensures
        prepared.local_path@ == local_path@,
        prepared.source@ == source_value@,
        text_view(prepared.remote_url) == Some(source_value@),
        prepared.allow_invalid_tls == allow_invalid_tls,
{
    PreparedSource {
        local_path: local_path.to_owned(),
        source: source_value.to_owned(),
        remote_url: Some(source_value.to_owned()),
        allow_invalid_tls: allow_invalid_tls,
    }
}

/// Describes a source that is a local file.
pub fn prepared_local_source(source_value: &str, local_path: &str, allow_invalid_tls: bool) -> (prepared: PreparedSource)
    ensures
        prepared.local_path@ == local_path@,
        prepared.source@ == source_value@,
        prepared.remote_url is None,
        prepared.allow_invalid_tls == allow_invalid_tls,
{
    PreparedSource { local_path: local_path.to_owned(), source: source_value.to_owned(), remote_url: None, allow_invalid_tls: allow_invalid_tls }
}

/// The directory of a file: what stands up to the last slash of its path.
pub open spec fn directory_of(path: Seq<char>) -> Seq<char> {
    path.take(path.len() - after_last_slash(path).len())
}

proof fn name_is_last(text: Seq<char>)
    ensures
        after_last_slash(text).len() <= text.len(),
    decreases text.len(),
{
    if text.len() > 0 && text.last() != '/' {
        name_is_last(text.drop_last());
    }
}

/// The directory of a file.
pub fn directory_of_file(path: &str) -> (directory: String)
    ensures
        directory@ == directory_of(path@),
{
    let chars: Vec<char> = chars_of(path);
    let mut to: usize = chars.len();
    assert(chars@.take(to as int) =~= chars@);
    while to > 0 && chars[to - 1] != '/'
        invariant
            to <= chars.len(),
            after_last_slash(chars@).len() == after_last_slash(chars@.take(to as int)).len() + chars@.len() - to,
        decreases to,
    {
        proof {
            let text = chars@.take(to as int);
            assert(text.drop_last() =~= chars@.take(to - 1));
            assert(after_last_slash(text) == after_last_slash(text.drop_last()).push(text.last()));
        }
        to = to - 1;
    }
    proof {
        name_is_last(chars@);
        assert(after_last_slash(chars@.take(to as int)).len() == 0);
    }
    let directory: String = text_between(&chars, 0, to);
    assert(directory@ =~= directory_of(path@));
    directory
}

/// The path that a written path stands for in a directory: itself where it begins at
/// the root.
pub open spec fn path_from(directory: Seq<char>, path: Seq<char>) -> Seq<char> {
    if directory.len() == 0 || begins_with(path, "/"@) {
        path
    } else if directory.last() == '/' {
        directory + path
    } else {
        directory + "/"@ + path
    }
}

/// The path that a written path stands for in a directory.
pub fn resolve_path_from(directory: &str, path: &str) -> (resolved: String)
    ensures
        resolved@ == path_from(directory@, path@),
{
    let base: Vec<char> = chars_of(directory);
    if base.len() == 0 || starts_with(path, "/") {
        path.to_owned()
    } else if base[base.len() - 1] == '/' {
        joined(directory, path)
    } else {
        joined(joined(directory, "/").as_str(), path)
    }
}

/// Where the file of a source is: that of one on the web in a directory for what was
/// fetched, under a name of its own; another where its path leads from a directory.
pub open spec fn source_path(source: Seq<char>, directory: Seq<char>, cache_directory: Seq<char>, cache_name: Seq<char>) -> Seq<char> {
    if source_is_remote(source) { path_from(cache_directory, cache_name) } else { path_from(directory, source) }
}

/// The address of a source, if it is on the web.
pub open spec fn source_url(source: Seq<char>) -> Option<Seq<char>> {
    if source_is_remote(source) { Some(source) } else { None }
}

/// Describes where a source is found.
pub fn prepare_source(source_value: &str, directory: &str, cache_directory: &str, cache_name: &str, allow_invalid_tls: bool) -> (prepared: PreparedSource)
    ensures
        prepared.local_path@ == source_path(source_value@, directory@, cache_directory@, cache_name@),
        prepared.source@ == source_value@,
        text_view(prepared.remote_url) == source_url(source_value@),
        prepared.allow_invalid_tls == allow_invalid_tls,
{
    if is_remote_source(source_value) {
        prepared_remote_source(source_value, resolve_path_from(cache_directory, cache_name).as_str(), allow_invalid_tls)
    } else {
        prepared_local_source(source_value, resolve_path_from(directory, source_value).as_str(), allow_invalid_tls)
    }
}

/// The directory of a workspace for the maps that were fetched.
pub open spec fn osm_cache(workspace_root: Seq<char>) -> Seq<char> {
    path_from(workspace_root, ".alpha-raptor/osm"@)
}

/// The directory of a workspace for the timetables that were fetched.
pub open spec fn feed_cache(workspace_root: Seq<char>) -> Seq<char> {
    path_from(workspace_root, ".alpha-raptor/static-feeds"@)
}

/// What a manifest reads the map from: what it says, or else a file of the workspace.
pub open spec fn map_source(manifest: RawEngineManifest, workspace_root: Seq<char>) -> Seq<char> {
    text_or(manifest.osm_pbf, path_from(workspace_root, DEFAULT_OSM_PBF@))
}

/// Whether a map is prepared as a manifest says.
pub open spec fn map_fits(osm: PreparedSource, manifest: RawEngineManifest, workspace_root: Seq<char>, directory: Seq<char>) -> bool {
    let source = map_source(manifest, workspace_root);
    &&& osm.source@ == source
    &&& osm.local_path@ == source_path(source, directory, osm_cache(workspace_root), osm_file_name(source))
    &&& text_view(osm.remote_url) == source_url(source)
    &&& osm.allow_invalid_tls == or_else(manifest.osm_pbf_allow_invalid_tls, false)
}

/// Whether a map is prepared as a workspace without a manifest has it: where one is given,
/// as a manifest that gives it would; else the file of the workspace.
pub open spec fn sole_map_fits(osm: PreparedSource, given: Option<Seq<char>>, workspace_root: Seq<char>, allow_invalid_tls: bool) -> bool {
    &&& osm.allow_invalid_tls == allow_invalid_tls
    &&& match given {
        Some(source) => {
            &&& osm.source@ == source
            &&& osm.local_path@ == source_path(source, workspace_root, osm_cache(workspace_root), osm_file_name(source))
            &&& text_view(osm.remote_url) == source_url(source)
        },
        None => {
            &&& osm.source@ == path_from(workspace_root, DEFAULT_OSM_PBF@)
            &&& osm.local_path@ == path_from(workspace_root, osm.source@)
            &&& osm.remote_url is None
        },
    }
}

/// Describes where the map of a workspace is found where none is given.
pub fn default_osm_pbf_source(workspace_root: &str, allow_invalid_tls: bool) -> (osm: PreparedSource)
    ensures
        sole_map_fits(osm, None, workspace_root@, allow_invalid_tls),
{
    let path: String = resolve_path_from(workspace_root, DEFAULT_OSM_PBF);
    prepared_local_source(path.as_str(), resolve_path_from(workspace_root, path.as_str()).as_str(), allow_invalid_tls)
}

/// Where the timetable of a feed is.
pub open spec fn feed_path(feed: RawFeedConfig, workspace_root: Seq<char>, directory: Seq<char>) -> Seq<char> {
    source_path(feed.static_gtfs@, directory, feed_cache(workspace_root), feed.id@ + ".static.gtfs.zip"@)
}

/// Whether a timetable is prepared as a feed says.
pub open spec fn feed_fits(prepared: PreparedSource, feed: RawFeedConfig, workspace_root: Seq<char>, directory: Seq<char>) -> bool {
    &&& prepared.source@ == feed.static_gtfs@
    &&& prepared.local_path@ == feed_path(feed, workspace_root, directory)
    &&& text_view(prepared.remote_url) == source_url(feed.static_gtfs@)
    &&& prepared.allow_invalid_tls == feed.static_gtfs_allow_invalid_tls
}

/// Whether the map and the timetables are prepared as a manifest says.
pub open spec fn sources_fit(manifest: RawEngineManifest, osm: PreparedSource, sources: Seq<PreparedSource>, workspace_root: Seq<char>, directory: Seq<char>) -> bool {
    &&& map_fits(osm, manifest, workspace_root, directory)
    &&& sources.len() == manifest.feeds@.len()
    &&& forall|i: int| 0 <= i < sources.len() ==> feed_fits(#[trigger] sources[i], manifest.feeds@[i], workspace_root, directory)
}

/// Describes where the map and the timetables of a manifest are found. Paths begin at a
/// directory; what is on the web is kept in the workspace.
pub fn prepare_sources(workspace_root: &str, directory: &str, manifest: &RawEngineManifest) -> (prepared: (PreparedSource, Vec<PreparedSource>))
    ensures
        sources_fit(*manifest, prepared.0, prepared.1@, workspace_root@, directory@),
{
    let map: String = text_or_default(&manifest.osm_pbf, resolve_path_from(workspace_root, DEFAULT_OSM_PBF).as_str());
    let osm: PreparedSource = prepare_source(
        map.as_str(),
        directory,
        resolve_path_from(workspace_root, ".alpha-raptor/osm").as_str(),
        remote_osm_pbf_file_name(map.as_str()).as_str(),
        or_default(manifest.osm_pbf_allow_invalid_tls, false),
    );
    let cache: String = resolve_path_from(workspace_root, ".alpha-raptor/static-feeds");
    let mut sources: Vec<PreparedSource> = Vec::new();
    let mut i: usize = 0;
    while i < manifest.feeds.len()
        invariant
            i <= manifest.feeds@.len(),
            cache@ == feed_cache(workspace_root@),
            sources@.len() == i,
            forall|k: int| 0 <= k < i ==> feed_fits(#[trigger] sources@[k], manifest.feeds@[k], workspace_root@, directory@),
        decreases manifest.feeds.len() - i,
    {
        let feed: &RawFeedConfig = &manifest.feeds[i];
        let name: String = remote_static_gtfs_file_name(feed.id.as_str());
        sources.push(prepare_source(feed.static_gtfs.as_str(), directory, cache.as_str(), name.as_str(), feed.static_gtfs_allow_invalid_tls));
        i = i + 1;
    }
    (osm, sources)
}

/// The version of a remote file, as its server gives it.
#[derive(Clone, Debug)]
pub struct RemoteStaticGtfsVersionMetadata {
    pub url: String,
    pub last_modified: Option<String>,
    pub etag: Option<String>,
}

/// What a version says.
pub struct RemoteVersionView {
    pub url: Seq<char>,
    pub last_modified: Option<Seq<char>>,
    pub etag: Option<Seq<char>>,
}

impl RemoteStaticGtfsVersionMetadata {
    /// What the version says.
    pub open spec fn view(&self) -> RemoteVersionView {
        RemoteVersionView { url: self.url@, last_modified: text_view(self.last_modified), etag: text_view(self.etag) }
    }
}

/// A version, if there is one.
pub open spec fn version_view(version: Option<RemoteStaticGtfsVersionMetadata>) -> Option<RemoteVersionView> {
    match version {
        Some(value) => Some(value@),
        None => None,
    }
}

fn copy_version(version: &RemoteStaticGtfsVersionMetadata) -> (copy: RemoteStaticGtfsVersionMetadata)
    ensures
        copy@ == version@,
{
    RemoteStaticGtfsVersionMetadata { url: version.url.clone(), last_modified: copy_text(&version.last_modified), etag: copy_text(&version.etag) }
}

/// Whether a remote file has changed: if nothing or another address is known, if
/// the tags differ, or where there are none, if the dates differ. Without tags
/// and dates it has not.
pub open spec fn version_changed(cached: Option<RemoteVersionView>, remote: RemoteVersionView) -> bool {
    match cached {
        None => true,
        Some(known) => if known.url != remote.url {
            true
        } else if known.etag is Some || remote.etag is Some {
            known.etag != remote.etag
        } else {
            known.last_modified != remote.last_modified
        },
    }
}

/// Whether a remote file has changed.
pub fn remote_static_gtfs_version_changed(cached: Option<&RemoteStaticGtfsVersionMetadata>, remote: &RemoteStaticGtfsVersionMetadata) -> (changed: bool)
    ensures
        changed == version_changed(
            match cached {
                Some(known) => Some(known@),
                None => None,
            },
            remote@,
        ),
{
    match cached {
        None => true,
        Some(known) => {
            if !same_text(known.url.as_str(), remote.url.as_str()) {
                return true;
            }
            if known.etag.is_some() || remote.etag.is_some() {
                return !same_optional_text(&known.etag, &remote.etag);
            }
            if known.last_modified.is_some() || remote.last_modified.is_some() {
                return !same_optional_text(&known.last_modified, &remote.last_modified);
            }
            false
        },
    }
}

/// A version with what it lacks taken from another.
pub open spec fn merged_version(url: Seq<char>, preferred: RemoteVersionView, fallback: Option<RemoteVersionView>) -> RemoteVersionView {
    RemoteVersionView {
        url: url,
        last_modified: if preferred.last_modified is None && fallback is Some { fallback->0.last_modified } else { preferred.last_modified },
        etag: if preferred.etag is None && fallback is Some { fallback->0.etag } else { preferred.etag },
    }
}

/// Completes a version with what another has.
pub fn merged_remote_static_gtfs_version_metadata(
    url: &str,
    preferred: RemoteStaticGtfsVersionMetadata,
    fallback: &Option<RemoteStaticGtfsVersionMetadata>,
) -> (merged: RemoteStaticGtfsVersionMetadata)
    ensures
        merged@ == merged_version(url@, preferred@, version_view(*fallback)),
{
    let mut merged: RemoteStaticGtfsVersionMetadata = copy_version(&preferred);
    merged.url = url.to_owned();
    match fallback {
        Some(other) => {
            if merged.last_modified.is_none() {
                merged.last_modified = copy_text(&other.last_modified);
            }
            if merged.etag.is_none() {
                merged.etag = copy_text(&other.etag);
            }
        },
        None => {},
    }
    merged
}

/// A version stays unchanged against what was stored of it: after a file was
/// fetched, the same answer of the server does not lead to another fetch.
pub proof fn stored_version_is_current(url: Seq<char>, answered: RemoteVersionView, probed: RemoteVersionView)
    requires
        probed.url == url,
        answered.url == url,
        answered.etag == probed.etag || answered.etag is None,
        answered.last_modified == probed.last_modified || answered.last_modified is None,
    ensures
        !version_changed(Some(merged_version(url, answered, Some(probed))), probed),
{
}

/// Whether a file is looked at when the engine starts or while it runs.
#[derive(Clone, Copy, Debug, PartialEq, Eq, Structural)]
pub enum StaticGtfsRefreshMode {
    Bootstrap,
    Poll,
}

/// What is fetched.
#[derive(Clone, Copy, Debug, PartialEq, Eq, Structural)]
pub enum Artifact {
    /// A timetable, which is read whole before it is stored.
    Timetable,
    /// A map, which is streamed to disk.
    StreetMap,
}

/// Where a fetch stands.
#[derive(Clone, Copy, Debug, PartialEq, Eq, Structural)]
pub enum SyncStage {
    Start,
    Probing,
    Requesting,
    Reading,
    Finished,
}

/// A remote file being brought up to date.
#[derive(Clone, Debug)]
pub struct RemoteSync {
    pub url: String,
    pub mode: StaticGtfsRefreshMode,
    pub artifact: Artifact,
    pub cached: Option<RemoteStaticGtfsVersionMetadata>,
    pub probed: Option<RemoteStaticGtfsVersionMetadata>,
    pub answered: Option<RemoteStaticGtfsVersionMetadata>,
    pub stage: SyncStage,
}

/// What is known of a fetch.
pub struct SyncView {
    pub url: Seq<char>,
    pub mode: StaticGtfsRefreshMode,
    pub artifact: Artifact,
    pub cached: Option<RemoteVersionView>,
    pub probed: Option<RemoteVersionView>,
    pub answered: Option<RemoteVersionView>,
    pub stage: SyncStage,
}

impl RemoteSync {
    /// What is known of the fetch.
    pub open spec fn view(&self) -> SyncView {
        SyncView {
            url: self.url@,
            mode: self.mode,
            artifact: self.artifact,
            cached: version_view(self.cached),
            probed: version_view(self.probed),
            answered: version_view(self.answered),
            stage: self.stage,
        }
    }
}

/// What happened.
#[derive(Clone, Debug)]
pub enum SyncEvent {
    /// Whether the file is there was looked up.
    Begun { cache_exists: bool },
    /// The server gave the version of the file, or did not answer.
    Probed(Option<RemoteStaticGtfsVersionMetadata>),
    /// The server began to send the file, with its version, or did not; whether
    /// the file was there is told along.
    Answered { version: Option<RemoteStaticGtfsVersionMetadata>, cache_exists: bool },
    /// The file came whole, or did not; whether it is the same as the one that is
    /// there, and whether there is one, is told along.
    Received { complete: bool, same_as_cached: bool, cache_exists: bool },
}

/// What happened, as plain values.
pub enum SyncEventView {
    Begun { cache_exists: bool },
    Probed(Option<RemoteVersionView>),
    Answered { version: Option<RemoteVersionView>, cache_exists: bool },
    Received { complete: bool, same_as_cached: bool, cache_exists: bool },
}

impl SyncEvent {
    /// The event as plain values.
    pub open spec fn view(&self) -> SyncEventView {
        match *self {
            SyncEvent::Begun { cache_exists } => SyncEventView::Begun { cache_exists: cache_exists },
            SyncEvent::Probed(version) => SyncEventView::Probed(version_view(version)),
            SyncEvent::Answered { version, cache_exists } => SyncEventView::Answered { version: version_view(version), cache_exists: cache_exists },
            SyncEvent::Received { complete, same_as_cached, cache_exists } => SyncEventView::Received {
                complete: complete,
                same_as_cached: same_as_cached,
                cache_exists: cache_exists,
            },
        }
    }
}

/// What is to be done.
#[derive(Clone, Debug)]
pub enum SyncAction {
    /// Ask the server for the version.
    Probe,
    /// Ask the server for the file.
    Download,
    /// Read the file.
    Receive,
    /// Go on with the file that is there.
    KeepCached,
    /// Give up with the error of what was tried last.
    Fail,
    /// The file is as it was: store its version.
    StoreVersion(RemoteStaticGtfsVersionMetadata),
    /// Put the new file in the place of the old and store its version.
    Replace(RemoteStaticGtfsVersionMetadata),
}

/// What is to be done, as plain values.
pub enum SyncActionView {
    Probe,
    Download,
    Receive,
    KeepCached,
    Fail,
    StoreVersion(RemoteVersionView),
    Replace(RemoteVersionView),
}

impl SyncAction {
    /// The action as plain values.
    pub open spec fn view(&self) -> SyncActionView {
        match *self {
            SyncAction::Probe => SyncActionView::Probe,
            SyncAction::Download => SyncActionView::Download,
            SyncAction::Receive => SyncActionView::Receive,
            SyncAction::KeepCached => SyncActionView::KeepCached,
            SyncAction::Fail => SyncActionView::Fail,
            SyncAction::StoreVersion(version) => SyncActionView::StoreVersion(version@),
            SyncAction::Replace(version) => SyncActionView::Replace(version@),
        }
    }
}

/// Whether an event can come at a stage.
pub open spec fn event_fits(stage: SyncStage, event: SyncEventView) -> bool {
    match event {
        SyncEventView::Begun { .. } => stage == SyncStage::Start,
        SyncEventView::Probed(_) => stage == SyncStage::Probing,
        SyncEventView::Answered { .. } => stage == SyncStage::Requesting,
        SyncEventView::Received { .. } => stage == SyncStage::Reading,
    }
}

/// What is to be done after an event, and where the fetch stands then.
pub open spec fn next_step(sync: SyncView, event: SyncEventView) -> (SyncView, SyncActionView) {
    let finished = SyncView { stage: SyncStage::Finished, ..sync };
    match event {
        SyncEventView::Begun { cache_exists } => if cache_exists {
            (SyncView { stage: SyncStage::Probing, ..sync }, SyncActionView::Probe)
        } else {
            (SyncView { stage: SyncStage::Requesting, ..sync }, SyncActionView::Download)
        },
        SyncEventView::Probed(version) => match version {
            Some(remote) => if sync.mode == StaticGtfsRefreshMode::Poll && version_changed(sync.cached, remote) {
                (SyncView { stage: SyncStage::Requesting, probed: Some(remote), ..sync }, SyncActionView::Download)
            } else {
                (finished, SyncActionView::KeepCached)
            },
            None => (finished, SyncActionView::KeepCached),
        },
        SyncEventView::Answered { version, cache_exists } => match version {
            Some(answer) => (SyncView { stage: SyncStage::Reading, answered: Some(merged_version(sync.url, answer, sync.probed)), ..sync }, SyncActionView::Receive),
            None => (finished, if cache_exists { SyncActionView::KeepCached } else { SyncActionView::Fail }),
        },
        SyncEventView::Received { complete, same_as_cached, cache_exists } => {
            let action = if !complete {
                if sync.artifact == Artifact::StreetMap && cache_exists { SyncActionView::KeepCached } else { SyncActionView::Fail }
            } else if sync.artifact == Artifact::Timetable && same_as_cached {
                SyncActionView::StoreVersion(sync.answered->0)
            } else {
                SyncActionView::Replace(sync.answered->0)
            };
            (finished, action)
        },
    }
}

impl RemoteSync {
    /// Whether the version of the answer is there when the file is being read.
    pub open spec fn wf(&self) -> bool {
        self.stage == SyncStage::Reading ==> self.answered is Some
    }

    /// Begins to bring a remote file up to date.
    pub fn new(url: &str, mode: StaticGtfsRefreshMode, artifact: Artifact, cached: Option<RemoteStaticGtfsVersionMetadata>) -> (sync: RemoteSync)
        ensures
            sync.wf(),
            sync@ == (SyncView {
                url: url@,
                mode: mode,
                artifact: artifact,
                cached: version_view(cached),
                probed: None,
                answered: None,
                stage: SyncStage::Start,
            }),
    {
        RemoteSync { url: url.to_owned(), mode: mode, artifact: artifact, cached: cached, probed: None, answered: None, stage: SyncStage::Start }
    }

    /// Takes note of what happened, and says what is to be done.
    pub fn step(&mut self, event: SyncEvent) -> (action: SyncAction)
        requires
            old(self).wf(),
            event_fits(old(self).stage, event@),
        ensures
            final(self).wf(),
            (final(self)@, action@) == next_step(old(self)@, event@),
    {
        match event {
            SyncEvent::Begun { cache_exists } => {
                if cache_exists {
                    self.stage = SyncStage::Probing;
                    SyncAction::Probe
                } else {
                    self.stage = SyncStage::Requesting;
                    SyncAction::Download
                }
            },
            SyncEvent::Probed(version) => {
                match version {
                    Some(remote) => {
                        let changed: bool = match &self.cached {
                            Some(known) => remote_static_gtfs_version_changed(Some(known), &remote),
                            None => remote_static_gtfs_version_changed(None, &remote),
                        };
                        if self.mode == StaticGtfsRefreshMode::Poll && changed {
                            self.probed = Some(remote);
                            self.stage = SyncStage::Requesting;
                            SyncAction::Download
                        } else {
                            self.stage = SyncStage::Finished;
                            SyncAction::KeepCached
                        }
                    },
                    None => {
                        self.stage = SyncStage::Finished;
                        SyncAction::KeepCached
                    },
                }
            },
            SyncEvent::Answered { version, cache_exists } => {
                match version {
                    Some(answer) => {
                        let merged: RemoteStaticGtfsVersionMetadata = merged_remote_static_gtfs_version_metadata(self.url.as_str(), answer, &self.probed);
                        self.answered = Some(merged);
                        self.stage = SyncStage::Reading;
                        SyncAction::Receive
                    },
                    None => {
                        self.stage = SyncStage::Finished;
                        if cache_exists { SyncAction::KeepCached } else { SyncAction::Fail }
                    },
                }
            },
            SyncEvent::Received { complete, same_as_cached, cache_exists } => {
                self.stage = SyncStage::Finished;
                if !complete {
                    return if self.artifact == Artifact::StreetMap && cache_exists { SyncAction::KeepCached } else { SyncAction::Fail };
                }
                match &self.answered {
                    Some(version) => if self.artifact == Artifact::Timetable && same_as_cached {
                        SyncAction::StoreVersion(copy_version(version))
                    } else {
                        SyncAction::Replace(copy_version(version))
                    },
                    None => SyncAction::Fail,
                }
            },
        }
    }
}

/// A file that is there is not fetched when the engine starts, whatever the
/// server says of it.
pub proof fn bootstrap_keeps_what_is_there(sync: SyncView, version: Option<RemoteVersionView>)
    requires
        sync.stage == SyncStage::Start,
        sync.mode == StaticGtfsRefreshMode::Bootstrap,
    ensures
        ({
            let (probing, first) = next_step(sync, SyncEventView::Begun { cache_exists: true });
            let (end, second) = next_step(probing, SyncEventView::Probed(version));
            first == SyncActionView::Probe && second == SyncActionView::KeepCached && end.stage == SyncStage::Finished
        }),
{
}

/// While the engine runs, a file is fetched again exactly if the server gives
/// another version.
pub proof fn polling_fetches_what_changed(sync: SyncView, version: Option<RemoteVersionView>)
    requires
        sync.stage == SyncStage::Start,
        sync.mode == StaticGtfsRefreshMode::Poll,
    ensures
        ({
            let (probing, first) = next_step(sync, SyncEventView::Begun { cache_exists: true });
            let (end, second) = next_step(probing, SyncEventView::Probed(version));
            &&& first == SyncActionView::Probe
            &&& second == SyncActionView::Download <==> version is Some && version_changed(sync.cached, version->0)
            &&& second == SyncActionView::Download || second == SyncActionView::KeepCached
        }),
{
}

/// With a file there, a server that does not answer is no fault.
pub proof fn silent_servers_are_no_fault(sync: SyncView, event: SyncEventView)
    requires
        event_fits(sync.stage, event),
        event == SyncEventView::Probed(None) || event == (SyncEventView::Answered { version: None, cache_exists: true }) || event == (SyncEventView::Begun { cache_exists: true }),
    ensures
        next_step(sync, event).1 != SyncActionView::Fail,
{
}

/// The size of a file and when it was last changed, in seconds of the epoch.
#[derive(Clone, Copy, Debug, PartialEq, Eq, Structural)]
pub struct FileStat {
    pub bytes: u64,
    pub modified_unix_secs: Option<u64>,
}

/// The map that a timetable was built with.
#[derive(Clone, Debug)]
pub struct StaticOsmSourceMetadata {
    pub osm_pbf_source: String,
    pub osm_pbf_path: String,
    pub osm_pbf_remote_url: Option<String>,
    pub osm_pbf_allow_invalid_tls: bool,
    pub osm_pbf_bytes: u64,
    pub osm_pbf_modified_unix_secs: Option<u64>,
}

/// A feed that a timetable was built from.
#[derive(Clone, Debug)]
pub struct StaticFeedSourceMetadata {
    pub feed_id: String,
    pub static_gtfs_source: String,
    pub static_gtfs_path: String,
    pub static_gtfs_allow_invalid_tls: bool,
    pub static_gtfs_bytes: u64,
    pub static_gtfs_modified_unix_secs: Option<u64>,
}

/// What a timetable was built from.
#[derive(Clone, Debug)]
pub struct StaticCacheMetadata {
    pub schema_version: u32,
    pub manifest_path: Option<String>,
    pub manifest_modified_unix_secs: Option<u64>,
    pub osm_source: StaticOsmSourceMetadata,
    pub feed_sources: Vec<StaticFeedSourceMetadata>,
}

/// What is said of a map.
pub struct OsmSourceView {
    pub source: Seq<char>,
    pub path: Seq<char>,
    pub remote_url: Option<Seq<char>>,
    pub allow_invalid_tls: bool,
    pub bytes: u64,
    pub modified_unix_secs: Option<u64>,
}

/// What is said of a feed.
pub struct FeedSourceView {
    pub feed_id: Seq<char>,
    pub source: Seq<char>,
    pub path: Seq<char>,
    pub allow_invalid_tls: bool,
    pub bytes: u64,
    pub modified_unix_secs: Option<u64>,
}

/// What is said of the inputs of a timetable.
pub struct CacheMetadataView {
    pub schema_version: u32,
    pub manifest_path: Option<Seq<char>>,
    pub manifest_modified_unix_secs: Option<u64>,
    pub osm_source: OsmSourceView,
    pub feed_sources: Seq<FeedSourceView>,
}

impl StaticOsmSourceMetadata {
    /// What is said of the map.
    pub open spec fn view(&self) -> OsmSourceView {
        OsmSourceView {
            source: self.osm_pbf_source@,
            path: self.osm_pbf_path@,
            remote_url: text_view(self.osm_pbf_remote_url),
            allow_invalid_tls: self.osm_pbf_allow_invalid_tls,
            bytes: self.osm_pbf_bytes,
            modified_unix_secs: self.osm_pbf_modified_unix_secs,
        }
    }
}

impl StaticFeedSourceMetadata {
    /// What is said of the feed.
    pub open spec fn view(&self) -> FeedSourceView {
        FeedSourceView {
            feed_id: self.feed_id@,
            source: self.static_gtfs_source@,
            path: self.static_gtfs_path@,
            allow_invalid_tls: self.static_gtfs_allow_invalid_tls,
            bytes: self.static_gtfs_bytes,
            modified_unix_secs: self.static_gtfs_modified_unix_secs,
        }
    }
}

/// What is said of feeds.
pub open spec fn feed_sources_view(sources: Seq<StaticFeedSourceMetadata>) -> Seq<FeedSourceView> {
    Seq::new(sources.len(), |i: int| sources[i]@)
}

impl StaticCacheMetadata {
    /// What is said of the inputs.
    pub open spec fn view(&self) -> CacheMetadataView {
        CacheMetadataView {
            schema_version: self.schema_version,
            manifest_path: text_view(self.manifest_path),
            manifest_modified_unix_secs: self.manifest_modified_unix_secs,
            osm_source: self.osm_source@,
            feed_sources: feed_sources_view(self.feed_sources@),
        }
    }
}

/// What is said of the inputs of a configuration.
pub open spec fn inputs_of(config: EngineConfig, manifest_modified: Option<u64>, osm: FileStat, feeds: Seq<FileStat>) -> CacheMetadataView {
    CacheMetadataView {
        schema_version: STATIC_CACHE_SCHEMA_VERSION,
        manifest_path: if config.source_manifest_path is Some { text_view(config.source_manifest_path) } else { text_view(config.manifest_path) },
        manifest_modified_unix_secs: manifest_modified,
        osm_source: OsmSourceView {
            source: config.osm.source@,
            path: config.osm.local_path@,
            remote_url: text_view(config.osm.remote_url),
            allow_invalid_tls: config.osm.allow_invalid_tls,
            bytes: osm.bytes,
            modified_unix_secs: osm.modified_unix_secs,
        },
        feed_sources: Seq::new(
            config.feeds@.len(),
            |i: int|
                FeedSourceView {
                    feed_id: config.feeds@[i].id@,
                    source: config.feeds@[i].static_gtfs_source@,
                    path: config.feeds@[i].static_gtfs_path@,
                    allow_invalid_tls: config.feeds@[i].static_gtfs_allow_invalid_tls,
                    bytes: feeds[i].bytes,
                    modified_unix_secs: feeds[i].modified_unix_secs,
                },
        ),
    }
}

/// Notes what the inputs of a configuration are at a time.
pub fn capture_static_inputs_metadata(config: &EngineConfig, manifest_modified: Option<u64>, osm: FileStat, feeds: &Vec<FileStat>) -> (metadata: StaticCacheMetadata)
    requires
        feeds@.len() == config.feeds@.len(),
    ensures
        metadata@ == inputs_of(*config, manifest_modified, osm, feeds@),
{
    let mut feed_sources: Vec<StaticFeedSourceMetadata> = Vec::new();
    let mut i: usize = 0;
    while i < config.feeds.len()
        invariant
            i <= config.feeds.len(),
            feeds@.len() == config.feeds@.len(),
            feed_sources@.len() == i,
            forall|k: int| 0 <= k < i ==> (#[trigger] feed_sources@[k])@ == inputs_of(*config, manifest_modified, osm, feeds@).feed_sources[k],
        decreases config.feeds.len() - i,
    {
        let feed: &FeedConfig = &config.feeds[i];
        feed_sources.push(
            StaticFeedSourceMetadata {
                feed_id: feed.id.clone(),
                static_gtfs_source: feed.static_gtfs_source.clone(),
                static_gtfs_path: feed.static_gtfs_path.clone(),
                static_gtfs_allow_invalid_tls: feed.static_gtfs_allow_invalid_tls,
                static_gtfs_bytes: feeds[i].bytes,
                static_gtfs_modified_unix_secs: feeds[i].modified_unix_secs,
            },
        );
        i = i + 1;
    }
    assert(feed_sources_view(feed_sources@) =~= inputs_of(*config, manifest_modified, osm, feeds@).feed_sources);
    StaticCacheMetadata {
        schema_version: STATIC_CACHE_SCHEMA_VERSION,
        manifest_path: if config.source_manifest_path.is_some() { copy_text(&config.source_manifest_path) } else { copy_text(&config.manifest_path) },
        manifest_modified_unix_secs: manifest_modified,
        osm_source: StaticOsmSourceMetadata {
            osm_pbf_source: config.osm.source.clone(),
            osm_pbf_path: config.osm.local_path.clone(),
            osm_pbf_remote_url: copy_text(&config.osm.remote_url),
            osm_pbf_allow_invalid_tls: config.osm.allow_invalid_tls,
            osm_pbf_bytes: osm.bytes,
            osm_pbf_modified_unix_secs: osm.modified_unix_secs,
        },
        feed_sources: feed_sources,
    }
}

fn same_secs(a: Option<u64>, b: Option<u64>) -> (same: bool)
    ensures
        same == (a == b),
{
    match (a, b) {
        (Some(x), Some(y)) => x == y,
        (None, None) => true,
        _ => false,
    }
}

fn same_feed_source(a: &StaticFeedSourceMetadata, b: &StaticFeedSourceMetadata) -> (same: bool)
    ensures
        same == (a@ == b@),
{
    same_text(a.feed_id.as_str(), b.feed_id.as_str()) && same_text(a.static_gtfs_source.as_str(), b.static_gtfs_source.as_str()) && same_text(
        a.static_gtfs_path.as_str(),
        b.static_gtfs_path.as_str(),
    ) && a.static_gtfs_allow_invalid_tls == b.static_gtfs_allow_invalid_tls && a.static_gtfs_bytes == b.static_gtfs_bytes && same_secs(
        a.static_gtfs_modified_unix_secs,
        b.static_gtfs_modified_unix_secs,
    )
}

/// Whether two sets of inputs are the same. A stored timetable is used only if
/// its inputs are.
pub fn same_static_inputs(a: &StaticCacheMetadata, b: &StaticCacheMetadata) -> (same: bool)
    ensures
        same == (a@ == b@),
{
    let osm: bool = same_text(a.osm_source.osm_pbf_source.as_str(), b.osm_source.osm_pbf_source.as_str()) && same_text(
        a.osm_source.osm_pbf_path.as_str(),
        b.osm_source.osm_pbf_path.as_str(),
    ) && same_optional_text(&a.osm_source.osm_pbf_remote_url, &b.osm_source.osm_pbf_remote_url) && a.osm_source.osm_pbf_allow_invalid_tls
        == b.osm_source.osm_pbf_allow_invalid_tls && a.osm_source.osm_pbf_bytes == b.osm_source.osm_pbf_bytes && same_secs(
        a.osm_source.osm_pbf_modified_unix_secs,
        b.osm_source.osm_pbf_modified_unix_secs,
    );
    assert(a@.feed_sources.len() == a.feed_sources@.len() && b@.feed_sources.len() == b.feed_sources@.len());
    assert(osm == (a@.osm_source == b@.osm_source));
    if !(osm && a.schema_version == b.schema_version && same_optional_text(&a.manifest_path, &b.manifest_path) && same_secs(
        a.manifest_modified_unix_secs,
        b.manifest_modified_unix_secs,
    ) && a.feed_sources.len() == b.feed_sources.len()) {
        return false;
    }
    let mut i: usize = 0;
    while i < a.feed_sources.len()
        invariant
            i <= a.feed_sources.len(),
            a.feed_sources@.len() == b.feed_sources@.len(),
            forall|k: int| 0 <= k < i ==> (#[trigger] a.feed_sources@[k])@ == b.feed_sources@[k]@,
        decreases a.feed_sources.len() - i,
    {
        if !same_feed_source(&a.feed_sources[i], &b.feed_sources[i]) {
            assert(a@.feed_sources[i as int] != b@.feed_sources[i as int]);
            return false;
        }
        i = i + 1;
    }
    assert(a@.feed_sources =~= b@.feed_sources);
    true
}

/// Whether the inputs of a timetable have changed.
pub fn static_inputs_changed(current: &StaticCacheMetadata, other: &StaticCacheMetadata) -> (changed: bool)
    ensures
        changed == (current@ != other@),
{
    !same_static_inputs(current, other)
}

/// What is written to a hasher for a text.
pub open spec fn text_writes(text: Seq<char>) -> Seq<Seq<u8>> {
    seq![encode_utf8(text), seq![255u8]]
}

/// What is written to a hasher for a text that may be missing.
pub open spec fn optional_text_writes(text: Option<Seq<char>>) -> Seq<Seq<u8>> {
    match text {
        Some(value) => seq![spec_u64_to_le_bytes(1)] + text_writes(value),
        None => seq![spec_u64_to_le_bytes(0)],
    }
}

/// What is written to a hasher for a number that may be missing.
pub open spec fn optional_number_writes(number: Option<u64>) -> Seq<Seq<u8>> {
    match number {
        Some(value) => seq![spec_u64_to_le_bytes(1), spec_u64_to_le_bytes(value)],
        None => seq![spec_u64_to_le_bytes(0)],
    }
}

/// What is written to a hasher for a feed.
pub open spec fn feed_source_writes(source: FeedSourceView) -> Seq<Seq<u8>> {
    text_writes(source.feed_id) + text_writes(source.source) + text_writes(source.path) + seq![seq![if source.allow_invalid_tls { 1u8 } else { 0u8 }]]
        + seq![spec_u64_to_le_bytes(source.bytes)] + optional_number_writes(source.modified_unix_secs)
}

/// What is written to a hasher for the first `n` feeds.
pub open spec fn feed_sources_writes(sources: Seq<FeedSourceView>, n: int) -> Seq<Seq<u8>>
    decreases n,
{
    if n <= 0 {
        Seq::empty()
    } else {
        feed_sources_writes(sources, n - 1) + feed_source_writes(sources[n - 1])
    }
}

/// The number of a generation of inputs: a hash of all but the map.
pub open spec fn generation_token(metadata: CacheMetadataView) -> u64 {
    DefaultHasher::spec_finish(
        seq![spec_u32_to_le_bytes(metadata.schema_version)] + optional_text_writes(metadata.manifest_path) + optional_number_writes(
            metadata.manifest_modified_unix_secs,
        ) + feed_sources_writes(metadata.feed_sources, metadata.feed_sources.len() as int),
    )
}

/// A hasher that parts of records are written to.
pub struct RecordHasher {
    hasher: DefaultHasher,
}

impl RecordHasher {
    /// What was written.
    pub closed spec fn view(&self) -> Seq<Seq<u8>> {
        self.hasher@
    }

    /// A hasher that nothing was written to.
    pub fn new() -> (hasher: RecordHasher)
        ensures
            hasher@ == Seq::<Seq<u8>>::empty(),
    {
        let hasher: RecordHasher = RecordHasher { hasher: DefaultHasher::new() };
        assert(hasher@ =~= Seq::<Seq<u8>>::empty());
        hasher
    }

    fn write_bytes(&mut self, bytes: &Vec<u8>)
        ensures
            final(self)@ == old(self)@.push(bytes@),
    {
        self.hasher.write(bytes.as_slice());
    }

    /// Writes a number of four bytes.
    pub fn write_short_number(&mut self, number: u32)
        ensures
            final(self)@ == old(self)@.push(spec_u32_to_le_bytes(number)),
    {
        let bytes: Vec<u8> = u32_to_le_bytes(number);
        self.write_bytes(&bytes);
    }

    /// Writes a number.
    pub fn write_number(&mut self, number: u64)
        ensures
            final(self)@ == old(self)@.push(spec_u64_to_le_bytes(number)),
    {
        let bytes: Vec<u8> = u64_to_le_bytes(number);
        self.write_bytes(&bytes);
    }

    /// Writes a byte.
    pub fn write_byte(&mut self, byte: u8)
        ensures
            final(self)@ == old(self)@.push(seq![byte]),
    {
        let mut bytes: Vec<u8> = Vec::new();
        bytes.push(byte);
        assert(bytes@ =~= seq![byte]);
        self.write_bytes(&bytes);
    }

    /// Writes a text.
    pub fn write_text(&mut self, text: &str)
        ensures
            final(self)@ == old(self)@ + text_writes(text@),
    {
        let ghost before = self@;
        self.hasher.write(text.as_bytes());
        self.write_byte(255);
        assert(self@ =~= before + text_writes(text@));
    }

    /// Writes a text that may be missing.
    pub fn write_optional_text(&mut self, text: &Option<String>)
        ensures
            final(self)@ == old(self)@ + optional_text_writes(text_view(*text)),
    {
        let ghost before = self@;
        match text {
            Some(value) => {
                self.write_number(1);
                self.write_text(value.as_str());
            },
            None => {
                self.write_number(0);
            },
        }
        assert(self@ =~= before + optional_text_writes(text_view(*text)));
    }

    /// Writes a number that may be missing.
    pub fn write_optional_number(&mut self, number: Option<u64>)
        ensures
            final(self)@ == old(self)@ + optional_number_writes(number),
    {
        let ghost before = self@;
        match number {
            Some(value) => {
                self.write_number(1);
                self.write_number(value);
            },
            None => {
                self.write_number(0);
            },
        }
        assert(self@ =~= before + optional_number_writes(number));
    }

    /// The hash of what was written.
    pub fn finish(&self) -> (hash: u64)
        ensures
            hash == DefaultHasher::spec_finish(self@),
    {
        self.hasher.finish()
    }
}

/// The number of a generation of inputs.
pub fn static_metadata_generation_token(metadata: &StaticCacheMetadata) -> (token: u64)
    ensures
        token == generation_token(metadata@),
{
    let mut hasher: RecordHasher = RecordHasher::new();
    hasher.write_short_number(metadata.schema_version);
    hasher.write_optional_text(&metadata.manifest_path);
    hasher.write_optional_number(metadata.manifest_modified_unix_secs);
    let ghost head = seq![spec_u32_to_le_bytes(metadata.schema_version)] + optional_text_writes(metadata@.manifest_path) + optional_number_writes(
        metadata.manifest_modified_unix_secs,
    );
    assert(hasher@ =~= head);
    let mut i: usize = 0;
    assert(head + feed_sources_writes(metadata@.feed_sources, 0) =~= head);
    while i < metadata.feed_sources.len()
        invariant
            i <= metadata.feed_sources.len(),
            hasher@ == head + feed_sources_writes(metadata@.feed_sources, i as int),
        decreases metadata.feed_sources.len() - i,
    {
        let source: &StaticFeedSourceMetadata = &metadata.feed_sources[i];
        let ghost before = hasher@;
        hasher.write_text(source.feed_id.as_str());
        hasher.write_text(source.static_gtfs_source.as_str());
        hasher.write_text(source.static_gtfs_path.as_str());
        hasher.write_byte(if source.static_gtfs_allow_invalid_tls { 1 } else { 0 });
        hasher.write_number(source.static_gtfs_bytes);
        hasher.write_optional_number(source.static_gtfs_modified_unix_secs);
        assert(hasher@ =~= before + feed_source_writes(source@));
        assert(metadata@.feed_sources[i as int] == source@);
        assert(before + feed_source_writes(source@) =~= head + (feed_sources_writes(metadata@.feed_sources, i as int) + feed_source_writes(source@)));
        i = i + 1;
    }
    hasher.finish()
}

/// The name of the file of a stored timetable.
pub fn static_cache_file_name(stem: &str) -> (name: String)
    ensures
        name@ == stem@ + ".static.v8.bin"@,
{
    joined(stem, ".static.v8.bin")
}

} // verus!
