//! Round-based transit routing over schedule data with realtime updates.
use vstd::prelude::*;

pub mod assembly;
pub mod bloom;
pub mod candidates;
pub mod change_laws;
pub mod clock;
pub mod cold_storage;
pub mod config;
pub mod control;
pub mod cost_heap;
pub mod day_services;
pub mod descriptor;
pub mod directions;
pub mod earliest_laws;
pub mod feed_graph;
pub mod finish_laws;
pub mod geo;
pub mod hpf;
pub mod hpf_forest;
pub mod hydration;
pub mod ids;
pub mod insertions;
pub mod itinerary;
pub mod journey;
pub mod keyed_store;
pub mod label_laws;
pub mod leg;
pub mod lines;
pub mod live;
pub mod live_laws;
pub mod lookahead;
pub mod model;
pub mod number;
pub mod offer_laws;
pub mod order;
pub mod osc_text;
pub mod pbf_anchor;
pub mod profile_bucket;
pub mod profile_cache;
pub mod profile_laws;
pub mod profile_lookahead;
pub mod progress;
pub mod query;
pub mod query_input;
pub mod query_rounds;
pub mod realtime;
pub mod realtime_feed;
pub mod realtime_laws;
pub mod realtime_refresh;
pub mod records;
pub mod relax;
pub mod ride_laws;
pub mod search;
pub mod search_laws;
pub mod service_laws;
pub mod shape;
pub mod sources;
pub mod static_changes;
pub mod static_core;
pub mod static_merge;
pub mod stop_laws;
pub mod stop_search;
pub mod street_diff;
pub mod street_graph;
pub mod street_laws;
pub mod street_overlay;
pub mod street_route;
pub mod street_search;
pub mod street_tags;
pub mod subquery;
pub mod temporal;
pub mod text;
pub mod text_map;
pub mod text_order;
pub mod time_laws;
pub mod timetable_laws;
pub mod timing;
pub mod trace;
pub mod transfer_index;
pub mod walk_geometry;
pub mod walk_laws;
pub mod way_laws;

verus! {

} // verus!
