//! The lines of walks, joined to one another.

use crate::model::{PolylinePoint, WalkTransfer};
use vstd::prelude::*;

verus! {

/// The line of a walk, and for each of its segments the way that it is on.
#[derive(Clone, Debug)]
pub struct WalkGeometry {
    pub polyline: Vec<PolylinePoint>,
    pub segment_way_ids: Vec<Option<i64>>,
}

/// What the line of a walk is.
pub struct WalkView {
    pub points: Seq<PolylinePoint>,
    pub ways: Seq<Option<i64>>,
}

impl WalkGeometry {
    /// What the line is.
    pub open spec fn view(&self) -> WalkView {
        WalkView { points: self.polyline@, ways: self.segment_way_ids@ }
    }
}

/// Lines as plain values.
pub open spec fn walks_view(walks: Seq<WalkGeometry>) -> Seq<WalkView> {
    Seq::new(walks.len(), |i: int| walks[i]@)
}

/// How many segments a line of so many points has.
pub open spec fn segment_count(points: int) -> int {
    if points > 0 { points - 1 } else { 0 }
}

/// Ways for exactly so many segments: cut off, or filled up with none.
pub open spec fn fitted_ways(ways: Seq<Option<i64>>, count: int) -> Seq<Option<i64>> {
    Seq::new(count as nat, |i: int| if i < ways.len() { ways[i] } else { None })
}

/// Ways for the segments of a line.
pub fn normalize_segment_way_ids(polyline: &Vec<PolylinePoint>, segment_way_ids: &Vec<Option<i64>>) -> (ways: Vec<Option<i64>>)
    ensures
        ways@ == fitted_ways(segment_way_ids@, segment_count(polyline@.len() as int)),
{
    let count: usize = if polyline.len() > 0 { polyline.len() - 1 } else { 0 };
    let mut ways: Vec<Option<i64>> = Vec::new();
    let mut i: usize = 0;
    while i < count
        invariant
            i <= count,
            ways@ =~= fitted_ways(segment_way_ids@, i as int),
        decreases count - i,
    {
        if i < segment_way_ids.len() {
            ways.push(segment_way_ids[i]);
        } else {
            ways.push(None);
        }
        i = i + 1;
    }
    ways
}

/// Unknown ways for the segments of a line.
pub fn empty_segment_way_ids(polyline: &Vec<PolylinePoint>) -> (ways: Vec<Option<i64>>)
    ensures
        ways@ == fitted_ways(Seq::empty(), segment_count(polyline@.len() as int)),
{
    let none: Vec<Option<i64>> = Vec::new();
    assert(none@ =~= Seq::<Option<i64>>::empty());
    normalize_segment_way_ids(polyline, &none)
}

/// A line without its first point, if it has more than one.
pub open spec fn headless(walk: WalkView) -> WalkView {
    if walk.points.len() > 1 { WalkView { points: walk.points.drop_first(), ways: walk.ways.drop_first() } } else { walk }
}

/// A line without its last point, if it has more than one.
pub open spec fn tailless(walk: WalkView) -> WalkView {
    if walk.points.len() > 1 { WalkView { points: walk.points.drop_last(), ways: walk.ways.drop_last() } } else { walk }
}

/// A line with its ways fitted.
pub open spec fn fitted(walk: WalkView) -> WalkView {
    WalkView { points: walk.points, ways: fitted_ways(walk.ways, segment_count(walk.points.len() as int)) }
}

/// A line cut at the ends at which it is joined to others.
pub open spec fn trimmed_walk(walk: WalkView, trim_head: bool, trim_tail: bool) -> WalkView {
    let whole = fitted(walk);
    let cut = if trim_head { headless(whole) } else { whole };
    if trim_tail { tailless(cut) } else { cut }
}

fn part_of_points(points: &Vec<PolylinePoint>, from: usize, to: usize) -> (part: Vec<PolylinePoint>)
    requires
        from <= to <= points@.len(),
    ensures
        part@ == points@.subrange(from as int, to as int),
{
    let mut part: Vec<PolylinePoint> = Vec::new();
    let mut i: usize = from;
    while i < to
        invariant
            from <= i <= to <= points@.len(),
            part@ =~= points@.subrange(from as int, i as int),
        decreases to - i,
    {
        part.push(points[i]);
        i = i + 1;
    }
    part
}

fn part_of_ways(ways: &Vec<Option<i64>>, from: usize, to: usize) -> (part: Vec<Option<i64>>)
    requires
        from <= to <= ways@.len(),
    ensures
        part@ == ways@.subrange(from as int, to as int),
{
    let mut part: Vec<Option<i64>> = Vec::new();
    let mut i: usize = from;
    while i < to
        invariant
            from <= i <= to <= ways@.len(),
            part@ =~= ways@.subrange(from as int, i as int),
        decreases to - i,
    {
        part.push(ways[i]);
        i = i + 1;
    }
    part
}

/// Cuts a line at the ends at which it is joined to others: the first and the
/// last point of a walk between two stops are the stops.
pub fn trim_walk_geometry_for_stitch(geometry: &WalkGeometry, trim_head: bool, trim_tail: bool) -> (trimmed: WalkGeometry)
    ensures
        trimmed@ == trimmed_walk(geometry@, trim_head, trim_tail),
{
    let ways: Vec<Option<i64>> = normalize_segment_way_ids(&geometry.polyline, &geometry.segment_way_ids);
    let mut from: usize = 0;
    let mut to: usize = geometry.polyline.len();
    if trim_head && to - from > 1 {
        from = 1;
    }
    if trim_tail && to - from > 1 {
        to = to - 1;
    }
    let last: usize = if to > from { to - 1 } else { from };
    let trimmed: WalkGeometry = if geometry.polyline.len() == 0 {
        WalkGeometry { polyline: Vec::new(), segment_way_ids: ways }
    } else {
        WalkGeometry { polyline: part_of_points(&geometry.polyline, from, to), segment_way_ids: part_of_ways(&ways, from, last) }
    };
    proof {
        let expected = trimmed_walk(geometry@, trim_head, trim_tail);
        assert(trimmed@.points =~= expected.points);
        assert(trimmed@.ways =~= expected.ways);
    }
    trimmed
}

/// A line with another behind it: joined in one point where they touch, else by
/// a segment on no known way.
pub open spec fn appended_walk(target: WalkView, next: WalkView, touching: bool) -> WalkView {
    if next.points.len() == 0 {
        target
    } else {
        let more = fitted(next);
        if target.points.len() == 0 {
            more
        } else if touching {
            WalkView { points: target.points + next.points.drop_first(), ways: target.ways + more.ways }
        } else {
            WalkView { points: target.points + next.points, ways: target.ways.push(None) + more.ways }
        }
    }
}

fn append_walk_geometry(target: &mut WalkGeometry, next: &WalkGeometry, touching: bool)
    ensures
        final(target)@ == appended_walk(old(target)@, next@, touching),
{
    if next.polyline.len() == 0 {
        return;
    }
    let ghost before = target@;
    let more: Vec<Option<i64>> = normalize_segment_way_ids(&next.polyline, &next.segment_way_ids);
    let begun: bool = target.polyline.len() > 0;
    if !begun {
        target.segment_way_ids = Vec::new();
    } else if !touching {
        target.segment_way_ids.push(None);
    }
    let mut i: usize = if begun && touching { 1 } else { 0 };
    let ghost skipped = i as int;
    while i < next.polyline.len()
        invariant
            0 <= skipped <= i <= next.polyline@.len(),
            target.polyline@ =~= before.points + next.polyline@.subrange(skipped, i as int),
            target.segment_way_ids@ == (if before.points.len() == 0 { Seq::empty() } else if touching { before.ways } else { before.ways.push(None) }),
        decreases next.polyline.len() - i,
    {
        target.polyline.push(next.polyline[i]);
        i = i + 1;
    }
    let ghost ways = target.segment_way_ids@;
    let mut k: usize = 0;
    while k < more.len()
        invariant
            k <= more@.len(),
            target.polyline@ == before.points + next.polyline@.subrange(skipped, next.polyline@.len() as int),
            target.segment_way_ids@ =~= ways + more@.take(k as int),
        decreases more.len() - k,
    {
        target.segment_way_ids.push(more[k]);
        k = k + 1;
    }
    proof {
        let expected = appended_walk(before, next@, touching);
        assert(target@.points =~= expected.points);
        assert(target@.ways =~= expected.ways);
    }
}

/// The line `i` of several, cut where it is joined to others.
pub open spec fn cut_walk(walks: Seq<WalkView>, i: int) -> WalkView {
    trimmed_walk(walks[i], i > 0, i + 1 < walks.len())
}

/// The first `n` of several lines joined, where it is known which touch what is
/// before them.
pub open spec fn joined_walks(walks: Seq<WalkView>, touching: Seq<bool>, n: int) -> WalkView
    decreases n,
{
    if n <= 0 {
        WalkView { points: Seq::empty(), ways: Seq::empty() }
    } else {
        appended_walk(joined_walks(walks, touching, n - 1), cut_walk(walks, n - 1), touching[n - 1])
    }
}

/// The points at which a line is joined: the last of what is before it, and its
/// own first.
pub open spec fn joint(walks: Seq<WalkView>, i: int) -> Option<(PolylinePoint, PolylinePoint)> {
    let before = last_point(walks, i);
    if before is Some && cut_walk(walks, i).points.len() > 0 { Some((before->0, cut_walk(walks, i).points[0])) } else { None }
}

/// The last point of the first `n` of several lines.
pub open spec fn last_point(walks: Seq<WalkView>, n: int) -> Option<PolylinePoint>
    decreases n,
{
    if n <= 0 {
        None
    } else if cut_walk(walks, n - 1).points.len() > 0 {
        Some(cut_walk(walks, n - 1).points.last())
    } else {
        last_point(walks, n - 1)
    }
}

/// The points at which lines are joined to what is before them.
pub fn walk_joints(geometries: &Vec<WalkGeometry>) -> (joints: Vec<Option<(PolylinePoint, PolylinePoint)>>)
    ensures
        joints@ == Seq::new(geometries@.len(), |i: int| joint(walks_view(geometries@), i)),
{
    let ghost walks = walks_view(geometries@);
    let mut joints: Vec<Option<(PolylinePoint, PolylinePoint)>> = Vec::new();
    let mut last: Option<PolylinePoint> = None;
    let mut i: usize = 0;
    while i < geometries.len()
        invariant
            i <= geometries@.len(),
            walks == walks_view(geometries@),
            last == last_point(walks, i as int),
            joints@ =~= Seq::new(i as nat, |k: int| joint(walks, k)),
        decreases geometries.len() - i,
    {
        let cut: WalkGeometry = trim_walk_geometry_for_stitch(&geometries[i], i > 0, i < geometries.len() - 1);
        assert(cut@ == cut_walk(walks, i as int));
        let count: usize = cut.polyline.len();
        let found: Option<(PolylinePoint, PolylinePoint)> = match last {
            Some(end) => if count > 0 { Some((end, cut.polyline[0])) } else { None },
            None => None,
        };
        joints.push(found);
        if count > 0 {
            last = Some(cut.polyline[count - 1]);
        }
        i = i + 1;
    }
    joints
}

/// Joins lines to one, where it is known which touch what is before them.
pub fn stitch_walk_geometries(geometries: &Vec<WalkGeometry>, touching: &Vec<bool>) -> (stitched: WalkGeometry)
    requires
        touching@.len() == geometries@.len(),
    ensures
        stitched@ == fitted(joined_walks(walks_view(geometries@), touching@, geometries@.len() as int)),
{
    let ghost walks = walks_view(geometries@);
    let mut stitched: WalkGeometry = WalkGeometry { polyline: Vec::new(), segment_way_ids: Vec::new() };
    proof {
        assert(stitched@.points =~= joined_walks(walks, touching@, 0).points);
        assert(stitched@.ways =~= joined_walks(walks, touching@, 0).ways);
    }
    let mut i: usize = 0;
    while i < geometries.len()
        invariant
            i <= geometries@.len(),
            touching@.len() == geometries@.len(),
            walks == walks_view(geometries@),
            stitched@ == joined_walks(walks, touching@, i as int),
        decreases geometries.len() - i,
    {
        let cut: WalkGeometry = trim_walk_geometry_for_stitch(&geometries[i], i > 0, i < geometries.len() - 1);
        assert(cut@ == cut_walk(walks, i as int));
        append_walk_geometry(&mut stitched, &cut, touching[i]);
        i = i + 1;
    }
    let ways: Vec<Option<i64>> = normalize_segment_way_ids(&stitched.polyline, &stitched.segment_way_ids);
    stitched.segment_way_ids = ways;
    stitched
}

/// A joined line has a way for each of its segments, before it is fitted too.
pub proof fn joined_walks_have_a_way_for_each_segment(walks: Seq<WalkView>, touching: Seq<bool>, n: int)
    requires
        0 <= n <= walks.len(),
    ensures
        joined_walks(walks, touching, n).ways.len() == segment_count(joined_walks(walks, touching, n).points.len() as int),
    decreases n,
{
    if n > 0 {
        joined_walks_have_a_way_for_each_segment(walks, touching, n - 1);
    }
}

/// A line between two stops: the one of the walk between them if it has at least
/// two points, else the straight one.
pub open spec fn transfer_line(transfers: Seq<WalkTransfer>, to_stop: usize, k: int) -> Option<WalkView>
    decreases transfers.len() - k,
{
    if k < 0 || k >= transfers.len() {
        None
    } else if transfers[k].to_stop == to_stop {
        if transfers[k].polyline@.len() >= 2 { Some(WalkView { points: transfers[k].polyline@, ways: transfers[k].segment_way_ids@ }) } else { None }
    } else {
        transfer_line(transfers, to_stop, k + 1)
    }
}

/// The line of the walk between two stops, given the walks from the first and the
/// straight line.
pub fn walk_transfer_geometry(transfers: &Vec<WalkTransfer>, to_stop: usize, straight: Vec<PolylinePoint>) -> (geometry: WalkGeometry)
    ensures
        geometry@ == match transfer_line(transfers@, to_stop, 0) {
            Some(walk) => walk,
            None => fitted(WalkView { points: straight@, ways: Seq::empty() }),
        },
{
    let mut k: usize = 0;
    while k < transfers.len() && transfers[k].to_stop != to_stop
        invariant
            k <= transfers@.len(),
            transfer_line(transfers@, to_stop, 0) == transfer_line(transfers@, to_stop, k as int),
        decreases transfers.len() - k,
    {
        k = k + 1;
    }
    if k < transfers.len() && transfers[k].polyline.len() >= 2 {
        let walk: &WalkTransfer = &transfers[k];
        let geometry: WalkGeometry = WalkGeometry {
            polyline: part_of_points(&walk.polyline, 0, walk.polyline.len()),
            segment_way_ids: part_of_ways(&walk.segment_way_ids, 0, walk.segment_way_ids.len()),
        };
        assert(geometry@.points =~= walk.polyline@);
        assert(geometry@.ways =~= walk.segment_way_ids@);
        return geometry;
    }
    let ways: Vec<Option<i64>> = empty_segment_way_ids(&straight);
    WalkGeometry { polyline: straight, segment_way_ids: ways }
}

} // verus!
