# alpha_raptor

Journeys by public transport, on foot and by car, over GTFS timetables, live
GTFS-Realtime reports and OpenStreetMap networks.

`src/` is the library: the timetable model, the round-based search with its
temporal and transfer indices, the memory of found journeys, the street and
pedestrian searches, live reports, configuration rules and storage formats. Each
function is verified by Verus against the contract above it; laws that relate
several functions are public proof functions.

| Modules | What they hold |
| --- | --- |
| `number`, `order`, `text*`, `keyed_store`, `day_services` | numbers by their bits, orders, texts, stores |
| `model`, `records`, `ids`, `lines`, `temporal`, `transfer_index`, `static_*`, `assembly` | the timetable and how it is built, compared and merged |
| `search`, `relax`, `subquery`, `journey`, `candidates`, `query*`, `search_laws`, `ride_laws`, `walk_laws`, `change_laws`, `timing`, `time_laws` | the search for journeys, and what holds of them |
| `bloom`, `profile_*`, `lookahead`, `insertions` | journeys that are remembered |
| `realtime*` | live reports |
| `geo`, `hpf*`, `street_*`, `cost_heap` | places, the pedestrian forest, streets |
| `itinerary`, `hydration`, `directions`, `shape`, `walk_geometry`, `clock`, `live`, `trace` | what travellers are shown |
| `config`, `sources`, `feed_graph`, `descriptor`, `control`, `cold_storage`, `stop_search`, `progress` | configuration, sources, storage, search for stops |

Floating point numbers are carried by their bits, compared and ranked there, and
computed with in `app/`, the server around the library: HTTP, files, parsing of
GTFS, OSM and protobuf, and geometry on the globe.
