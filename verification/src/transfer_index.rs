//! Walks between stops, arranged as matrices between groups of stops.

use crate::model::{TransferHub, TransferRelaxIndex, TransferTile, WalkTransfer, INF_TIME};
use crate::order::{sorted_unique, strictly_ascending};
use vstd::prelude::*;

verus! {

/// Marks a cell of a matrix without a walk.
pub const EMPTY_TRANSFER_SLOT: u16 = 65535;

/// Names a group of stops: the feed, the cell of the map, and a stop where its
/// place is not known.
pub type HubKey = (u16, i32, i32, usize);

/// The distinct keys among the first `n`, in order of their first appearance.
pub open spec fn distinct_keys(keys: Seq<HubKey>, n: int) -> Seq<HubKey>
    decreases n,
{
    if n <= 0 {
        Seq::empty()
    } else {
        let before = distinct_keys(keys, n - 1);
        if before.contains(keys[n - 1]) { before } else { before.push(keys[n - 1]) }
    }
}

/// Whether each of the first `n` stops is in the group of its key, groups being
/// numbered by first appearance and listing their stops in ascending order.
pub open spec fn stops_grouped(index: TransferRelaxIndex, keys: Seq<HubKey>, n: int) -> bool {
    let names = distinct_keys(keys, n);
    &&& index.stop_to_hub@.len() == n
    &&& index.stop_to_hub_offset@.len() == n
    &&& index.hubs@.len() == names.len()
    &&& forall|s: int| 0 <= s < n ==> {
        let hub = #[trigger] index.stop_to_hub@[s];
        &&& hub < index.hubs@.len()
        &&& names[hub as int] == keys[s]
        &&& index.stop_to_hub_offset@[s] < index.hubs@[hub as int].stop_indices@.len()
        &&& index.hubs@[hub as int].stop_indices@[index.stop_to_hub_offset@[s] as int] == s
    }
    &&& forall|h: int| 0 <= h < index.hubs@.len() ==> strictly_ascending((#[trigger] index.hubs@[h]).stop_indices@)
    &&& forall|h: int, i: int| 0 <= h < index.hubs@.len() && 0 <= i < index.hubs@[h].stop_indices@.len() ==> {
        let stop = #[trigger] index.hubs@[h].stop_indices@[i];
        stop < n && index.stop_to_hub@[stop as int] == h
    }
}

/// The shortest of the first `n` walks to a target, as its duration and slot; of
/// equally long ones the first.
pub open spec fn shortest_walk(outgoing: Seq<WalkTransfer>, target: usize, n: int) -> (i32, u16)
    decreases n,
{
    if n <= 0 {
        (INF_TIME, EMPTY_TRANSFER_SLOT)
    } else {
        let before = shortest_walk(outgoing, target, n - 1);
        let walk = outgoing[n - 1];
        if n - 1 <= u16::MAX && walk.to_stop == target && walk.duration_secs < before.0 {
            (walk.duration_secs, (n - 1) as u16)
        } else {
            before
        }
    }
}

/// Whether a stop has a walk to a target in one of the slots that are kept.
pub open spec fn has_walk(outgoing: Seq<WalkTransfer>, target: usize) -> bool {
    exists|slot: int| 0 <= slot < outgoing.len() && slot <= u16::MAX && (#[trigger] outgoing[slot]).to_stop == target
}

/// The walks of a stop; none for a stop beyond the list.
pub open spec fn walks_of(transfers: Seq<Vec<WalkTransfer>>, stop: int) -> Seq<WalkTransfer> {
    if stop < transfers.len() { transfers[stop]@ } else { Seq::empty() }
}

/// Whether some stop of a group has a walk to a target.
pub open spec fn hub_reaches(stops: Seq<usize>, transfers: Seq<Vec<WalkTransfer>>, target: usize) -> bool {
    exists|i: int| 0 <= i < stops.len() && has_walk(walks_of(transfers, #[trigger] stops[i] as int), target)
}

/// Whether a tile is the matrix of the shortest walks of a group to the stops
/// that it reaches in a target group.
pub open spec fn tile_correct(tile: TransferTile, stops: Seq<usize>, stop_to_hub: Seq<usize>, transfers: Seq<Vec<WalkTransfer>>) -> bool {
    let targets = tile.target_stop_indices@;
    &&& targets.len() > 0
    &&& strictly_ascending(targets)
    &&& forall|t: usize| #[trigger] targets.contains(t) <==> t < stop_to_hub.len() && stop_to_hub[t as int] == tile.target_hub && hub_reaches(stops, transfers, t)
    &&& tile.durations@.len() == stops.len() * targets.len()
    &&& tile.transfer_slots@.len() == stops.len() * targets.len()
    &&& forall|i: int, j: int| 0 <= i < stops.len() && 0 <= j < targets.len() ==> {
        let best = shortest_walk(walks_of(transfers, stops[i] as int), targets[j], walks_of(transfers, stops[i] as int).len() as int);
        &&& tile.durations@[#[trigger] cell_index(i, j, targets.len() as int)] == best.0
        &&& tile.transfer_slots@[cell_index(i, j, targets.len() as int)] == best.1
    }
}

/// Where a cell lies in the rows of a matrix.
pub open spec fn cell_index(row: int, column: int, width: int) -> int {
    row * width + column
}

/// A cell lies within its matrix.
pub proof fn cell_in_matrix(row: int, column: int, width: int, rows: int)
    requires
        0 <= row < rows,
        0 <= column < width,
    ensures
        0 <= cell_index(row, column, width) < rows * width,
        cell_index(row, column, width) == row * width + column,
{
    assert(0 <= row * width) by (nonlinear_arith)
        requires
            0 <= row,
            0 <= width,
    ;
    assert(row * width + width <= rows * width) by (nonlinear_arith)
        requires
            row + 1 <= rows,
            0 <= width,
    ;
}

/// Whether the tiles of a group cover all its walks, by ascending target group.
pub open spec fn hub_correct(hub: TransferHub, stop_to_hub: Seq<usize>, transfers: Seq<Vec<WalkTransfer>>) -> bool {
    &&& forall|k: int| 0 <= k < hub.outgoing_tiles@.len() ==> tile_correct(#[trigger] hub.outgoing_tiles@[k], hub.stop_indices@, stop_to_hub, transfers)
    &&& forall|a: int, b: int| 0 <= a < b < hub.outgoing_tiles@.len() ==> (#[trigger] hub.outgoing_tiles@[a]).target_hub < (#[trigger] hub.outgoing_tiles@[b]).target_hub
    &&& forall|t: usize| t < stop_to_hub.len() && #[trigger] hub_reaches(hub.stop_indices@, transfers, t) ==> exists|k: int|
        0 <= k < hub.outgoing_tiles@.len() && (#[trigger] hub.outgoing_tiles@[k]).target_hub == stop_to_hub[t as int]
}

/// Whether an index is that of the given groups and walks.
pub open spec fn index_correct(index: TransferRelaxIndex, keys: Seq<HubKey>, transfers: Seq<Vec<WalkTransfer>>) -> bool {
    &&& stops_grouped(index, keys, keys.len() as int)
    &&& forall|h: int| 0 <= h < index.hubs@.len() ==> hub_correct(#[trigger] index.hubs@[h], index.stop_to_hub@, transfers)
}

proof fn distinct_keys_facts(keys: Seq<HubKey>, n: int)
    requires
        0 <= n <= keys.len(),
    ensures
        distinct_keys(keys, n).no_duplicates(),
        distinct_keys(keys, n).len() <= n,
        forall|s: int| 0 <= s < n ==> distinct_keys(keys, n).contains(#[trigger] keys[s]),
    decreases n,
{
    if n > 0 {
        distinct_keys_facts(keys, n - 1);
        let before = distinct_keys(keys, n - 1);
        let after = distinct_keys(keys, n);
        assert forall|s: int| 0 <= s < n implies after.contains(#[trigger] keys[s]) by {
            if s < n - 1 {
                assert(before.contains(keys[s]));
                let at = choose|at: int| 0 <= at < before.len() && before[at] == keys[s];
                assert(after[at] == keys[s]);
            } else if !before.contains(keys[s]) {
                assert(after[before.len() as int] == keys[s]);
            }
        }
    }
}

fn group_stops(keys: &Vec<HubKey>) -> (index: TransferRelaxIndex)
    ensures
        stops_grouped(index, keys@, keys@.len() as int),
        forall|h: int| 0 <= h < index.hubs@.len() ==> (#[trigger] index.hubs@[h]).outgoing_tiles@.len() == 0,
{
    let mut names: Vec<HubKey> = Vec::new();
    let mut index: TransferRelaxIndex = TransferRelaxIndex { stop_to_hub: Vec::new(), stop_to_hub_offset: Vec::new(), hubs: Vec::new() };
    let mut s: usize = 0;
    while s < keys.len()
        invariant
            s <= keys.len(),
            names@ == distinct_keys(keys@, s as int),
            stops_grouped(index, keys@, s as int),
            forall|h: int| 0 <= h < index.hubs@.len() ==> (#[trigger] index.hubs@[h]).outgoing_tiles@.len() == 0,
        decreases keys.len() - s,
    {
        let key: HubKey = keys[s];
        proof {
            distinct_keys_facts(keys@, s as int);
            distinct_keys_facts(keys@, s + 1);
        }
        let mut hub: usize = 0;
        while hub < names.len() && !(names[hub].0 == key.0 && names[hub].1 == key.1 && names[hub].2 == key.2 && names[hub].3 == key.3)
            invariant
                hub <= names.len(),
                forall|k: int| 0 <= k < hub ==> names@[k] != key,
            decreases names.len() - hub,
        {
            hub = hub + 1;
        }
        if hub == names.len() {
            assert(!names@.contains(key));
            names.push(key);
            index.hubs.push(TransferHub { stop_indices: Vec::new(), outgoing_tiles: Vec::new() });
        } else {
            assert(names@[hub as int] == key);
            assert(names@.contains(key));
        }
        assert(names@ == distinct_keys(keys@, s + 1));
        let ghost before = index;
        index.stop_to_hub.push(hub);
        index.stop_to_hub_offset.push(index.hubs[hub].stop_indices.len());
        index.hubs[hub].stop_indices.push(s);
        proof {
            let stops = before.hubs@[hub as int].stop_indices@;
            assert(index.hubs@[hub as int].stop_indices@ == stops.push(s));
            assert forall|h: int| 0 <= h < index.hubs@.len() && h != hub implies index.hubs@[h] == before.hubs@[h] by {}
            assert forall|i: int| 0 <= i < stops.len() implies stops[i] < s by {
                if hub < before.hubs@.len() {
                    assert(before.hubs@[hub as int].stop_indices@[i] < s);
                }
            }
            assert forall|a: int| 0 <= a < s + 1 implies {
                let hub_of = #[trigger] index.stop_to_hub@[a];
                &&& hub_of < index.hubs@.len()
                &&& distinct_keys(keys@, s + 1)[hub_of as int] == keys@[a]
                &&& index.stop_to_hub_offset@[a] < index.hubs@[hub_of as int].stop_indices@.len()
                &&& index.hubs@[hub_of as int].stop_indices@[index.stop_to_hub_offset@[a] as int] == a
            } by {
                if a < s {
                    assert(index.stop_to_hub@[a] == before.stop_to_hub@[a]);
                    assert(distinct_keys(keys@, s as int)[before.stop_to_hub@[a] as int] == keys@[a]);
                }
            }
            assert forall|h: int| 0 <= h < index.hubs@.len() implies strictly_ascending((#[trigger] index.hubs@[h]).stop_indices@) by {
                if h != hub {
                    assert(strictly_ascending(before.hubs@[h].stop_indices@));
                } else {
                    assert(strictly_ascending(before.hubs@[h].stop_indices@));
                }
            }
            assert forall|h: int, i: int| 0 <= h < index.hubs@.len() && 0 <= i < index.hubs@[h].stop_indices@.len() implies ({
                let stop = #[trigger] index.hubs@[h].stop_indices@[i];
                stop < s + 1 && index.stop_to_hub@[stop as int] == h
            }) by {
                if h == hub && i == stops.len() {
                } else {
                    assert(before.hubs@[h].stop_indices@[i] < s);
                    assert(before.stop_to_hub@[before.hubs@[h].stop_indices@[i] as int] == h);
                }
            }
        }
        s = s + 1;
    }
    index
}

fn find_shortest_walk(transfers: &Vec<Vec<WalkTransfer>>, source: usize, target: usize) -> (best: (i32, u16))
    ensures
        best == shortest_walk(walks_of(transfers@, source as int), target, walks_of(transfers@, source as int).len() as int),
{
    let mut duration: i32 = INF_TIME;
    let mut slot: u16 = EMPTY_TRANSFER_SLOT;
    if source < transfers.len() {
        let outgoing: &Vec<WalkTransfer> = &transfers[source];
        let mut i: usize = 0;
        while i < outgoing.len()
            invariant
                i <= outgoing.len(),
                (duration, slot) == shortest_walk(outgoing@, target, i as int),
            decreases outgoing.len() - i,
        {
            if i <= u16::MAX as usize && outgoing[i].to_stop == target && outgoing[i].duration_secs < duration {
                duration = outgoing[i].duration_secs;
                slot = i as u16;
            }
            i = i + 1;
        }
    }
    (duration, slot)
}

fn build_tile(stops: &Vec<usize>, target_hub: usize, targets: Vec<usize>, transfers: &Vec<Vec<WalkTransfer>>, Ghost(stop_to_hub): Ghost<Seq<usize>>) -> (tile: TransferTile)
    requires
        targets@.len() > 0,
        strictly_ascending(targets@),
        stops@.len() * targets@.len() <= usize::MAX,
        forall|t: usize| #[trigger] targets@.contains(t) <==> t < stop_to_hub.len() && stop_to_hub[t as int] == target_hub && hub_reaches(stops@, transfers@, t),
    ensures
        tile.target_hub == target_hub,
        tile_correct(tile, stops@, stop_to_hub, transfers@),
{
    let mut durations: Vec<i32> = Vec::new();
    let mut slots: Vec<u16> = Vec::new();
    let width: usize = targets.len();
    let mut i: usize = 0;
    while i < stops.len()
        invariant
            i <= stops.len(),
            width == targets@.len(),
            width > 0,
            durations@.len() == i * width,
            slots@.len() == i * width,
            forall|a: int, b: int| 0 <= a < i && 0 <= b < width ==> {
                let best = shortest_walk(walks_of(transfers@, stops@[a] as int), targets@[b], walks_of(transfers@, stops@[a] as int).len() as int);
                &&& cell_index(a, b, width as int) < durations@.len()
                &&& durations@[#[trigger] cell_index(a, b, width as int)] == best.0
                &&& slots@[cell_index(a, b, width as int)] == best.1
            },
        decreases stops.len() - i,
    {
        let mut j: usize = 0;
        assert(i * width + 0 == i * width);
        while j < width
            invariant
                i < stops.len(),
                j <= width,
                width == targets@.len(),
                width > 0,
                durations@.len() == i * width + j,
                slots@.len() == i * width + j,
                forall|a: int, b: int| 0 <= a < i && 0 <= b < width ==> {
                    let best = shortest_walk(walks_of(transfers@, stops@[a] as int), targets@[b], walks_of(transfers@, stops@[a] as int).len() as int);
                    &&& cell_index(a, b, width as int) < i * width
                    &&& durations@[#[trigger] cell_index(a, b, width as int)] == best.0
                    &&& slots@[cell_index(a, b, width as int)] == best.1
                },
                forall|b: int| 0 <= b < j ==> {
                    let best = shortest_walk(walks_of(transfers@, stops@[i as int] as int), targets@[b], walks_of(transfers@, stops@[i as int] as int).len() as int);
                    &&& durations@[#[trigger] cell_index(i as int, b, width as int)] == best.0
                    &&& slots@[cell_index(i as int, b, width as int)] == best.1
                },
            decreases width - j,
        {
            let best: (i32, u16) = find_shortest_walk(transfers, stops[i], targets[j]);
            let ghost len = i * width;
            proof {
                assert(0 <= len) by (nonlinear_arith)
                    requires
                        0 <= i,
                        0 <= width,
                        len == i * width,
                ;
                assert forall|a: int, b: int| 0 <= a < i && 0 <= b < width implies 0 <= #[trigger] cell_index(a, b, width as int) < len by {
                    cell_in_matrix(a, b, width as int, i as int);
                }
            }
            durations.push(best.0);
            slots.push(best.1);
            j = j + 1;
        }
        proof {
            assert((i + 1) * width == i * width + width) by (nonlinear_arith);
            assert forall|a: int, b: int| 0 <= a < i + 1 && 0 <= b < width implies {
                let best = shortest_walk(walks_of(transfers@, stops@[a] as int), targets@[b], walks_of(transfers@, stops@[a] as int).len() as int);
                &&& cell_index(a, b, width as int) < durations@.len()
                &&& durations@[#[trigger] cell_index(a, b, width as int)] == best.0
                &&& slots@[cell_index(a, b, width as int)] == best.1
            } by {
                cell_in_matrix(a, b, width as int, i + 1);
            }
        }
        i = i + 1;
    }
    TransferTile { target_hub: target_hub, target_stop_indices: targets, transfer_slots: slots, durations: durations }
}

fn collect_reached(stops: &Vec<usize>, transfers: &Vec<Vec<WalkTransfer>>) -> (reached: Vec<usize>)
    ensures
        strictly_ascending(reached@),
        forall|t: usize| #[trigger] reached@.contains(t) <==> hub_reaches(stops@, transfers@, t),
{
    let mut found: Vec<usize> = Vec::new();
    let mut i: usize = 0;
    while i < stops.len()
        invariant
            i <= stops.len(),
            forall|k: int| 0 <= k < found@.len() ==> hub_reaches(stops@, transfers@, #[trigger] found@[k]),
            forall|t: usize, k: int| 0 <= k < i && #[trigger] has_walk(walks_of(transfers@, stops@[k] as int), t) ==> found@.contains(t),
        decreases stops.len() - i,
    {
        let stop: usize = stops[i];
        let ghost before = found@;
        if stop < transfers.len() {
            let outgoing: &Vec<WalkTransfer> = &transfers[stop];
            let mut slot: usize = 0;
            while slot < outgoing.len() && slot <= u16::MAX as usize
                invariant
                    i < stops.len(),
                    stop == stops@[i as int],
                    stop < transfers.len(),
                    *outgoing == transfers@[stop as int],
                    slot <= outgoing.len(),
                    slot <= u16::MAX as usize + 1,
                    before.len() <= found@.len(),
                    forall|k: int| 0 <= k < before.len() ==> #[trigger] found@[k] == before[k],
                    forall|k: int| 0 <= k < found@.len() ==> hub_reaches(stops@, transfers@, #[trigger] found@[k]),
                    forall|k: int| 0 <= k < slot ==> found@.contains((#[trigger] outgoing@[k]).to_stop),
                decreases outgoing.len() - slot,
            {
                let target: usize = outgoing[slot].to_stop;
                proof {
                    assert(walks_of(transfers@, stop as int)[slot as int].to_stop == target);
                    assert(has_walk(walks_of(transfers@, stops@[i as int] as int), target));
                }
                let ghost shorter = found@;
                found.push(target);
                assert(found@[shorter.len() as int] == target);
                assert forall|k: int| 0 <= k < slot + 1 implies found@.contains((#[trigger] outgoing@[k]).to_stop) by {
                    if k < slot {
                        let at = choose|at: int| 0 <= at < shorter.len() && shorter[at] == outgoing@[k].to_stop;
                        assert(found@[at] == outgoing@[k].to_stop);
                    }
                }
                slot = slot + 1;
            }
        }
        assert forall|t: usize, k: int| 0 <= k < i + 1 && #[trigger] has_walk(walks_of(transfers@, stops@[k] as int), t) implies found@.contains(t) by {
            if k < i {
                assert(before.contains(t));
                let at = choose|at: int| 0 <= at < before.len() && before[at] == t;
                assert(found@[at] == t);
            } else {
                let walks = walks_of(transfers@, stops@[k] as int);
                let slot = choose|slot: int| 0 <= slot < walks.len() && slot <= u16::MAX && (#[trigger] walks[slot]).to_stop == t;
                assert(walks[slot].to_stop == t);
            }
        }
        i = i + 1;
    }
    let reached: Vec<usize> = sorted_unique(&found);
    assert forall|t: usize| #[trigger] reached@.contains(t) <==> hub_reaches(stops@, transfers@, t) by {
        if found@.contains(t) {
            let k = choose|k: int| 0 <= k < found@.len() && found@[k] == t;
            assert(hub_reaches(stops@, transfers@, found@[k]));
        }
        if hub_reaches(stops@, transfers@, t) {
            let i = choose|i: int| 0 <= i < stops@.len() && has_walk(walks_of(transfers@, #[trigger] stops@[i] as int), t);
            assert(has_walk(walks_of(transfers@, stops@[i] as int), t));
        }
    }
    reached
}

fn targets_in_hub(reached: &Vec<usize>, stop_to_hub: &Vec<usize>, hub: usize) -> (targets: Vec<usize>)
    requires
        strictly_ascending(reached@),
        forall|k: int| 0 <= k < reached@.len() ==> (#[trigger] reached@[k]) < stop_to_hub@.len(),
    ensures
        strictly_ascending(targets@),
        forall|t: usize| #[trigger] targets@.contains(t) <==> reached@.contains(t) && stop_to_hub@[t as int] == hub,
{
    let mut targets: Vec<usize> = Vec::new();
    let mut i: usize = 0;
    while i < reached.len()
        invariant
            i <= reached.len(),
            strictly_ascending(reached@),
            forall|k: int| 0 <= k < reached@.len() ==> (#[trigger] reached@[k]) < stop_to_hub@.len(),
            strictly_ascending(targets@),
            forall|k: int| 0 <= k < targets@.len() ==> reached@.contains(#[trigger] targets@[k]) && stop_to_hub@[targets@[k] as int] == hub,
            forall|k: int, m: int| 0 <= k < targets@.len() && i <= m < reached@.len() ==> (#[trigger] targets@[k]) < (#[trigger] reached@[m]),
            forall|k: int| 0 <= k < i && stop_to_hub@[#[trigger] reached@[k] as int] == hub ==> targets@.contains(reached@[k]),
        decreases reached.len() - i,
    {
        let stop: usize = reached[i];
        let ghost before = targets@;
        if stop_to_hub[stop] == hub {
            targets.push(stop);
            assert(targets@[before.len() as int] == stop);
            assert forall|k: int| 0 <= k < targets@.len() implies reached@.contains(#[trigger] targets@[k]) && stop_to_hub@[targets@[k] as int] == hub by {
                if k < before.len() {
                    assert(before[k] == targets@[k]);
                } else {
                    assert(reached@[i as int] == stop);
                }
            }
        }
        assert forall|k: int| 0 <= k < i + 1 && stop_to_hub@[#[trigger] reached@[k] as int] == hub implies targets@.contains(reached@[k]) by {
            if k < i {
                let at = choose|at: int| 0 <= at < before.len() && before[at] == reached@[k];
                assert(targets@[at] == reached@[k]);
            }
        }
        i = i + 1;
    }
    assert forall|t: usize| #[trigger] targets@.contains(t) <==> reached@.contains(t) && stop_to_hub@[t as int] == hub by {
        if targets@.contains(t) {
            let k = choose|k: int| 0 <= k < targets@.len() && targets@[k] == t;
            assert(reached@.contains(targets@[k]));
        }
        if reached@.contains(t) && stop_to_hub@[t as int] == hub {
            let k = choose|k: int| 0 <= k < reached@.len() && reached@[k] == t;
            assert(stop_to_hub@[reached@[k] as int] == hub);
        }
    }
    targets
}

fn build_tiles(stops: &Vec<usize>, stop_to_hub: &Vec<usize>, transfers: &Vec<Vec<WalkTransfer>>) -> (tiles: Vec<TransferTile>)
    requires
        transfers_reach_stops(transfers@, stop_to_hub@.len() as int),
        stops@.len() * stop_to_hub@.len() <= usize::MAX,
    ensures
        hub_correct((TransferHub { stop_indices: *stops, outgoing_tiles: tiles }), stop_to_hub@, transfers@),
{
    let reached: Vec<usize> = collect_reached(stops, transfers);
    assert forall|k: int| 0 <= k < reached@.len() implies (#[trigger] reached@[k]) < stop_to_hub@.len() by {
        assert(reached@.contains(reached@[k]));
        let i = choose|i: int| 0 <= i < stops@.len() && has_walk(walks_of(transfers@, #[trigger] stops@[i] as int), reached@[k]);
        let walks = walks_of(transfers@, stops@[i] as int);
        let slot = choose|slot: int| 0 <= slot < walks.len() && slot <= u16::MAX && (#[trigger] walks[slot]).to_stop == reached@[k];
        assert(transfers@[stops@[i] as int]@[slot].to_stop < stop_to_hub@.len());
    }
    let mut hubs: Vec<usize> = Vec::new();
    let mut i: usize = 0;
    while i < reached.len()
        invariant
            i <= reached.len(),
            forall|k: int| 0 <= k < reached@.len() ==> (#[trigger] reached@[k]) < stop_to_hub@.len(),
            hubs@.len() == i,
            forall|k: int| 0 <= k < i ==> #[trigger] hubs@[k] == stop_to_hub@[reached@[k] as int],
        decreases reached.len() - i,
    {
        hubs.push(stop_to_hub[reached[i]]);
        i = i + 1;
    }
    let target_hubs: Vec<usize> = sorted_unique(&hubs);
    let mut tiles: Vec<TransferTile> = Vec::new();
    let mut h: usize = 0;
    while h < target_hubs.len()
        invariant
            h <= target_hubs.len(),
            strictly_ascending(target_hubs@),
            strictly_ascending(reached@),
            stops@.len() * stop_to_hub@.len() <= usize::MAX,
            forall|t: usize| #[trigger] reached@.contains(t) <==> hub_reaches(stops@, transfers@, t),
            forall|k: int| 0 <= k < reached@.len() ==> (#[trigger] reached@[k]) < stop_to_hub@.len(),
            hubs@.len() == reached@.len(),
            forall|k: int| 0 <= k < reached@.len() ==> #[trigger] hubs@[k] == stop_to_hub@[reached@[k] as int],
            forall|v: usize| #[trigger] target_hubs@.contains(v) <==> hubs@.contains(v),
            tiles@.len() == h,
            forall|k: int| 0 <= k < h ==> (#[trigger] tiles@[k]).target_hub == target_hubs@[k],
            forall|k: int| 0 <= k < h ==> tile_correct(#[trigger] tiles@[k], stops@, stop_to_hub@, transfers@),
        decreases target_hubs.len() - h,
    {
        let target_hub: usize = target_hubs[h];
        let targets: Vec<usize> = targets_in_hub(&reached, stop_to_hub, target_hub);
        proof {
            assert(target_hubs@.contains(target_hub));
            let k = choose|k: int| 0 <= k < hubs@.len() && hubs@[k] == target_hub;
            assert(reached@.contains(reached@[k]));
            assert(targets@.contains(reached@[k]));
            assert forall|t: usize| #[trigger] targets@.contains(t) <==> t < stop_to_hub@.len() && stop_to_hub@[t as int] == target_hub && hub_reaches(stops@, transfers@, t) by {
                if targets@.contains(t) {
                    assert(reached@.contains(t));
                    let at = choose|at: int| 0 <= at < reached@.len() && reached@[at] == t;
                    assert(reached@[at] < stop_to_hub@.len());
                }
                if hub_reaches(stops@, transfers@, t) {
                    assert(reached@.contains(t));
                }
            }
            ascending_below(targets@, stop_to_hub@.len() as int);
            assert(stops@.len() * targets@.len() <= stops@.len() * stop_to_hub@.len()) by (nonlinear_arith)
                requires
                    targets@.len() <= stop_to_hub@.len(),
            ;
        }
        let tile: TransferTile = build_tile(stops, target_hub, targets, transfers, Ghost(stop_to_hub@));
        tiles.push(tile);
        h = h + 1;
    }
    proof {
        let hub = TransferHub { stop_indices: *stops, outgoing_tiles: tiles };
        assert forall|t: usize| t < stop_to_hub@.len() && #[trigger] hub_reaches(hub.stop_indices@, transfers@, t) implies exists|k: int|
            0 <= k < hub.outgoing_tiles@.len() && (#[trigger] hub.outgoing_tiles@[k]).target_hub == stop_to_hub@[t as int] by {
            assert(reached@.contains(t));
            let at = choose|at: int| 0 <= at < reached@.len() && reached@[at] == t;
            assert(hubs@[at] == stop_to_hub@[t as int]);
            assert(hubs@.contains(stop_to_hub@[t as int]));
            assert(target_hubs@.contains(stop_to_hub@[t as int]));
            let k = choose|k: int| 0 <= k < target_hubs@.len() && target_hubs@[k] == stop_to_hub@[t as int];
            assert(hub.outgoing_tiles@[k].target_hub == target_hubs@[k]);
        }
    }
    tiles
}

proof fn ascending_below(values: Seq<usize>, limit: int)
    requires
        strictly_ascending(values),
        forall|t: usize| #[trigger] values.contains(t) ==> t < limit,
        0 <= limit,
    ensures
        values.len() <= limit,
{
    if values.len() > 0 {
        ascending_at_least(values, values.len() - 1);
        assert(values.contains(values[values.len() - 1]));
    }
}

proof fn ascending_at_least(values: Seq<usize>, i: int)
    requires
        strictly_ascending(values),
        0 <= i < values.len(),
    ensures
        values[i] >= i,
    decreases i,
{
    if i > 0 {
        ascending_at_least(values, i - 1);
        assert(values[i - 1] < values[i]);
    }
}

/// Whether every walk leads to one of the stops.
pub open spec fn transfers_reach_stops(transfers: Seq<Vec<WalkTransfer>>, stop_count: int) -> bool {
    forall|s: int, slot: int| 0 <= s < transfers.len() && 0 <= slot < transfers[s]@.len() ==> (#[trigger] transfers[s]@[slot]).to_stop < stop_count
}

/// Builds the index of the walks between stops. The key of a stop says which
/// group it belongs to.
pub fn build_transfer_relax_index(hub_keys: &Vec<HubKey>, transfers: &Vec<Vec<WalkTransfer>>) -> (index: TransferRelaxIndex)
    requires
        transfers_reach_stops(transfers@, hub_keys@.len() as int),
        hub_keys@.len() * hub_keys@.len() <= usize::MAX,
    ensures
        index_correct(index, hub_keys@, transfers@),
{
    let grouped: TransferRelaxIndex = group_stops(hub_keys);
    let stop_to_hub: Vec<usize> = grouped.stop_to_hub;
    let mut hubs: Vec<TransferHub> = Vec::new();
    let groups: Vec<TransferHub> = grouped.hubs;
    let ghost start = grouped;
    let mut h: usize = 0;
    while h < groups.len()
        invariant
            h <= groups.len(),
            start.hubs == groups,
            start.stop_to_hub == stop_to_hub,
            stops_grouped(start, hub_keys@, hub_keys@.len() as int),
            transfers_reach_stops(transfers@, hub_keys@.len() as int),
            stop_to_hub@.len() == hub_keys@.len(),
            hub_keys@.len() * hub_keys@.len() <= usize::MAX,
            hubs@.len() == h,
            forall|k: int| 0 <= k < h ==> (#[trigger] hubs@[k]).stop_indices@ == groups@[k].stop_indices@,
            forall|k: int| 0 <= k < h ==> hub_correct(#[trigger] hubs@[k], stop_to_hub@, transfers@),
        decreases groups.len() - h,
    {
        let stops: Vec<usize> = groups[h].stop_indices.clone();
        assert(stops@ =~= groups@[h as int].stop_indices@);
        proof {
            assert(strictly_ascending(start.hubs@[h as int].stop_indices@));
            assert forall|t: usize| #[trigger] stops@.contains(t) implies t < hub_keys@.len() by {
                let i = choose|i: int| 0 <= i < stops@.len() && stops@[i] == t;
                assert(start.hubs@[h as int].stop_indices@[i] < hub_keys@.len());
            }
            ascending_below(stops@, hub_keys@.len() as int);
            assert(stops@.len() * stop_to_hub@.len() <= hub_keys@.len() * hub_keys@.len()) by (nonlinear_arith)
                requires
                    stops@.len() <= hub_keys@.len(),
                    stop_to_hub@.len() == hub_keys@.len(),
            ;
        }
        let tiles: Vec<TransferTile> = build_tiles(&stops, &stop_to_hub, transfers);
        hubs.push(TransferHub { stop_indices: stops, outgoing_tiles: tiles });
        h = h + 1;
    }
    let index: TransferRelaxIndex = TransferRelaxIndex { stop_to_hub: stop_to_hub, stop_to_hub_offset: grouped.stop_to_hub_offset, hubs: hubs };
    proof {
        assert forall|s: int| 0 <= s < hub_keys@.len() implies {
            let hub = #[trigger] index.stop_to_hub@[s];
            &&& hub < index.hubs@.len()
            &&& distinct_keys(hub_keys@, hub_keys@.len() as int)[hub as int] == hub_keys@[s]
            &&& index.stop_to_hub_offset@[s] < index.hubs@[hub as int].stop_indices@.len()
            &&& index.hubs@[hub as int].stop_indices@[index.stop_to_hub_offset@[s] as int] == s
        } by {
            assert(start.stop_to_hub@[s] == index.stop_to_hub@[s]);
            assert(index.hubs@[index.stop_to_hub@[s] as int].stop_indices@ == groups@[index.stop_to_hub@[s] as int].stop_indices@);
        }
        assert forall|k: int| 0 <= k < index.hubs@.len() implies strictly_ascending((#[trigger] index.hubs@[k]).stop_indices@) by {
            assert(strictly_ascending(start.hubs@[k].stop_indices@));
        }
        assert forall|k: int, i: int| 0 <= k < index.hubs@.len() && 0 <= i < index.hubs@[k].stop_indices@.len() implies ({
            let stop = #[trigger] index.hubs@[k].stop_indices@[i];
            stop < hub_keys@.len() && index.stop_to_hub@[stop as int] == k
        }) by {
            assert(index.hubs@[k].stop_indices@ == groups@[k].stop_indices@);
            assert(start.hubs@[k].stop_indices@[i] < hub_keys@.len());
        }
    }
    index
}

/// No kept walk to a target is shorter than the shortest, and where any is
/// reachable in time, the slot that is given leads to the target in that time.
pub proof fn shortest_walk_is_shortest(outgoing: Seq<WalkTransfer>, target: usize, n: int)
    requires
        0 <= n <= outgoing.len(),
    ensures
        ({
            let best = shortest_walk(outgoing, target, n);
            &&& best.0 <= INF_TIME
            &&& forall|slot: int| 0 <= slot < n && slot <= u16::MAX && (#[trigger] outgoing[slot]).to_stop == target ==> best.0 <= outgoing[slot].duration_secs || best.0 == INF_TIME
            &&& best.0 < INF_TIME ==> best.1 < n && outgoing[best.1 as int].to_stop == target && outgoing[best.1 as int].duration_secs == best.0
            &&& best.0 == INF_TIME ==> best.1 == EMPTY_TRANSFER_SLOT && forall|slot: int| 0 <= slot < n && slot <= u16::MAX && (#[trigger] outgoing[slot]).to_stop == target ==> outgoing[slot].duration_secs >= INF_TIME
        }),
    decreases n,
{
    if n > 0 {
        shortest_walk_is_shortest(outgoing, target, n - 1);
    }
}

} // verus!
