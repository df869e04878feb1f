//! The rounds of a search, and searches between two nearby stops.

use crate::journey::{journey_to, label_count, PathBack};
use crate::leg::{count_rides, legs_arrive, legs_lead, legs_valid, ride_count, CachedLeg, ParentStep, ParentView};
use crate::model::{StaticData, StopLineRef, WalkTransfer, INF_TIME};
use crate::relax::{after_walks, walk_index_valid, walks_valid};
use crate::search::{
    after_line, count_up, counted, empty_metrics, improvement_keeps_labels, labels_valid, parent_valid, no_work, with_improvement, RoundMetrics,
    SearchContext, SearchState, SearchView,
};
use vstd::prelude::*;

verus! {

/// Marks a line that is not to be scanned.
pub const NOT_QUEUED: usize = usize::MAX;

/// Whether the lines listed for each stop call there.
pub open spec fn stop_lines_valid(data: StaticData) -> bool {
    &&& data.stop_to_lines@.len() == data.stops@.len()
    &&& forall|s: int, i: int| 0 <= s < data.stop_to_lines@.len() && 0 <= i < data.stop_to_lines@[s]@.len() ==> {
        let line_ref = #[trigger] data.stop_to_lines@[s]@[i];
        line_ref.line_index < data.lines@.len() && line_ref.stop_pos < data.lines@[line_ref.line_index as int].stop_indices@.len()
    }
}

/// Whether a search can run: the parts fit each other, the walks are valid and
/// no delay bound is negative.
pub open spec fn search_ready(ctx: SearchContext) -> bool {
    &&& ctx.wf()
    &&& stop_lines_valid(*ctx.data)
    &&& ctx.data.transfers@.len() == ctx.data.stops@.len()
    &&& walks_valid(ctx.data.transfers@, ctx.data.stops@.len() as int)
    &&& walk_index_valid(ctx.data.transfer_index, ctx.data.transfers@, ctx.data.stops@.len() as int)
    &&& forall|l: int| 0 <= l < ctx.line_max_positive_delay_secs@.len() ==> (#[trigger] ctx.line_max_positive_delay_secs@[l]) >= 0
}

/// The first call from which each line is to be scanned, after the first `n`
/// lines of a stop.
pub open spec fn queue_with(queue: Seq<usize>, lines: Seq<StopLineRef>, n: int) -> Seq<usize>
    decreases n,
{
    if n <= 0 {
        queue
    } else {
        let before = queue_with(queue, lines, n - 1);
        let line = lines[n - 1];
        if line.stop_pos < before[line.line_index as int] { before.update(line.line_index as int, line.stop_pos) } else { before }
    }
}

/// The first call from which each line is to be scanned, after the first `n` of
/// the marked stops: those reached before the destination queue their lines.
pub open spec fn queue_of(data: StaticData, best_before: Seq<i32>, bound: i32, marked: Seq<usize>, n: int) -> Seq<usize>
    decreases n,
{
    if n <= 0 {
        Seq::new(data.lines@.len(), |l: int| NOT_QUEUED)
    } else {
        let before = queue_of(data, best_before, bound, marked, n - 1);
        let stop = marked[n - 1];
        if best_before[stop as int] >= bound || stop >= data.stops@.len() {
            before
        } else {
            queue_with(before, data.stop_to_lines@[stop as int]@, data.stop_to_lines@[stop as int]@.len() as int)
        }
    }
}

/// How many of the first `n` marked stops were not reached before the
/// destination.
pub open spec fn queue_prunes(best_before: Seq<i32>, bound: i32, marked: Seq<usize>, n: int) -> int
    decreases n,
{
    if n <= 0 {
        0
    } else {
        queue_prunes(best_before, bound, marked, n - 1) + (if best_before[marked[n - 1] as int] >= bound { 1int } else { 0int })
    }
}

/// How many of the first `n` lines are to be scanned.
pub open spec fn queued_count(queue: Seq<usize>, n: int) -> nat
    decreases n,
{
    if n <= 0 { 0 } else { queued_count(queue, n - 1) + (if queue[n - 1] != NOT_QUEUED { 1nat } else { 0nat }) }
}

/// Whether every queued call is one of its line.
pub open spec fn queue_valid(data: StaticData, queue: Seq<usize>) -> bool {
    &&& queue.len() == data.lines@.len()
    &&& forall|l: int| 0 <= l < queue.len() && (#[trigger] queue[l]) != NOT_QUEUED ==> queue[l] < data.lines@[l].stop_indices@.len()
}

/// The labels at the start of a round.
pub open spec fn round_begun(view: SearchView, queued: nat) -> SearchView {
    SearchView {
        improved: Seq::empty(),
        flags: Seq::new(view.flags.len(), |s: int| false),
        metrics: RoundMetrics { queued_lines: counted(0, queued as int), ..no_work() },
        ..view
    }
}

/// The labels after the scan of the first `n` lines of a queue.
pub open spec fn after_lines(view: SearchView, ctx: SearchContext, queue: Seq<usize>, destination: int, round: int, best_before: Seq<i32>, n: int) -> SearchView
    decreases n,
{
    if n <= 0 {
        view
    } else {
        let before = after_lines(view, ctx, queue, destination, round, best_before, n - 1);
        if queue[n - 1] == NOT_QUEUED {
            before
        } else {
            let m = before.metrics;
            after_line(
                SearchView { metrics: RoundMetrics { lines_scanned: counted(m.lines_scanned, 1), ..m }, ..before },
                ctx,
                n - 1,
                queue[n - 1] as int,
                destination,
                round,
                best_before,
            )
        }
    }
}

/// The labels after the rides of a round.
pub open spec fn after_rides(view: SearchView, ctx: SearchContext, destination: int, round: int, marked: Seq<usize>) -> SearchView {
    let queue = queue_of(*ctx.data, view.best, view.best[destination], marked, marked.len() as int);
    after_lines(round_begun(view, queued_count(queue, queue.len() as int)), ctx, queue, destination, round, view.best, queue.len() as int)
}

/// Labels fit for a search over the timetable: as many stops as the labels say,
/// and valid steps back.
pub open spec fn labels_ready(view: SearchView, ctx: SearchContext, stops: int, rounds: int) -> bool {
    &&& view.wf(stops, rounds)
    &&& view.best.len() == stops
    &&& view.arrivals.len() == rounds
    &&& ctx.data.stops@.len() <= stops
    &&& labels_valid(view, *ctx.data)
}

fn copy_times(times: &Vec<i32>) -> (copy: Vec<i32>)
    ensures
        copy@ == times@,
{
    let mut copy: Vec<i32> = Vec::new();
    let mut i: usize = 0;
    while i < times.len()
        invariant
            i <= times.len(),
            copy@ == times@.take(i as int),
        decreases times.len() - i,
    {
        copy.push(times[i]);
        i = i + 1;
        assert(copy@ =~= times@.take(i as int));
    }
    assert(times@.take(i as int) =~= times@);
    copy
}

impl<'a> SearchContext<'a> {
    fn queue_stop(&self, queue: &mut Vec<usize>, stop: usize)
        requires
            stop_lines_valid(*self.data),
            stop < self.data.stops@.len(),
            queue_valid(*self.data, old(queue)@),
        ensures
            queue_valid(*self.data, final(queue)@),
            final(queue)@ == queue_with(old(queue)@, self.data.stop_to_lines@[stop as int]@, self.data.stop_to_lines@[stop as int]@.len() as int),
    {
        let lines: &Vec<StopLineRef> = &self.data.stop_to_lines[stop];
        let mut i: usize = 0;
        while i < lines.len()
            invariant
                i <= lines.len(),
                *lines == self.data.stop_to_lines@[stop as int],
                stop < self.data.stop_to_lines@.len(),
                stop_lines_valid(*self.data),
                queue_valid(*self.data, queue@),
                queue@ == queue_with(old(queue)@, lines@, i as int),
            decreases lines.len() - i,
        {
            let line: StopLineRef = lines[i];
            assert(self.data.stop_to_lines@[stop as int]@[i as int] == line);
            if line.stop_pos < queue[line.line_index] {
                queue.set(line.line_index, line.stop_pos);
            }
            i = i + 1;
        }
    }

    fn queue_lines(&self, best_before: &Vec<i32>, bound: i32, marked: &Vec<usize>) -> (result: (Vec<usize>, usize))
        requires
            stop_lines_valid(*self.data),
            forall|i: int| 0 <= i < marked@.len() ==> (#[trigger] marked@[i]) < best_before@.len(),
        ensures
            queue_valid(*self.data, result.0@),
            result.0@ == queue_of(*self.data, best_before@, bound, marked@, marked@.len() as int),
            result.1 == queue_prunes(best_before@, bound, marked@, marked@.len() as int),
    {
        let mut queue: Vec<usize> = Vec::new();
        let mut l: usize = 0;
        while l < self.data.lines.len()
            invariant
                l <= self.data.lines.len(),
                queue@.len() == l,
                forall|k: int| 0 <= k < l ==> #[trigger] queue@[k] == NOT_QUEUED,
            decreases self.data.lines.len() - l,
        {
            queue.push(NOT_QUEUED);
            l = l + 1;
        }
        assert(queue@ =~= Seq::new(self.data.lines@.len(), |l: int| NOT_QUEUED));
        let mut prunes: usize = 0;
        let mut i: usize = 0;
        while i < marked.len()
            invariant
                i <= marked.len(),
                stop_lines_valid(*self.data),
                forall|k: int| 0 <= k < marked@.len() ==> (#[trigger] marked@[k]) < best_before@.len(),
                queue_valid(*self.data, queue@),
                queue@ == queue_of(*self.data, best_before@, bound, marked@, i as int),
                prunes == queue_prunes(best_before@, bound, marked@, i as int),
                prunes <= i,
            decreases marked.len() - i,
        {
            let stop: usize = marked[i];
            if best_before[stop] >= bound {
                prunes = prunes + 1;
            } else if stop < self.data.stops.len() {
                self.queue_stop(&mut queue, stop);
            }
            i = i + 1;
        }
        (queue, prunes)
    }

    /// Rides from the marked stops: scans every line that calls at one of them.
    /// Gives how many of the marked stops were not worth it.
    pub fn scan_marked_lines(&self, destination_stop: usize, round: usize, marked: &Vec<usize>, state: &mut SearchState) -> (prunes: usize)
        requires
            search_ready(*self),
            labels_ready(old(state)@, *self, old(state)@.best.len() as int, old(state)@.arrivals.len() as int),
            destination_stop < old(state)@.best.len(),
            round < old(state)@.arrivals.len(),
            forall|i: int| 0 <= i < marked@.len() ==> (#[trigger] marked@[i]) < old(state)@.best.len(),
        ensures
            final(state)@ == after_rides(old(state)@, *self, destination_stop as int, round as int, marked@),
            labels_ready(final(state)@, *self, old(state)@.best.len() as int, old(state)@.arrivals.len() as int),
            final(state)@.origin == old(state)@.origin,
            prunes == queue_prunes(old(state)@.best, old(state)@.best[destination_stop as int], marked@, marked@.len() as int),
    {
        let ghost start = state@;
        let ghost stops = start.best.len() as int;
        let ghost rounds = start.arrivals.len() as int;
        let best_before: Vec<i32> = copy_times(&state.best);
        let (queue, prunes) = self.queue_lines(&best_before, state.best[destination_stop], marked);
        let mut queued: usize = 0;
        let mut k: usize = 0;
        while k < queue.len()
            invariant
                k <= queue.len(),
                queued == queued_count(queue@, k as int),
                queued <= k,
            decreases queue.len() - k,
        {
            if queue[k] != NOT_QUEUED {
                queued = queued + 1;
            }
            k = k + 1;
        }
        state.improved.clear();
        let mut s: usize = 0;
        while s < state.flags.len()
            invariant
                s <= state.flags.len(),
                state.flags@.len() == start.flags.len(),
                state.best@ == start.best,
                state@.arrivals == start.arrivals,
                state@.parents == start.parents,
                state@.origin == start.origin,
                state.improved@.len() == 0,
                forall|i: int| 0 <= i < s ==> #[trigger] state.flags@[i] == false,
            decreases state.flags.len() - s,
        {
            state.flags.set(s, false);
            s = s + 1;
        }
        let mut metrics: RoundMetrics = empty_metrics();
        metrics.queued_lines = queued;
        state.metrics = metrics;
        let ghost begun = round_begun(start, queued as nat);
        proof {
            assert(state@.flags =~= begun.flags);
            assert(state@.improved =~= begun.improved);
            assert(state@ == begun);
            assert(start.wf(stops, rounds));
            assert(begun.wf(stops, rounds));
            assert(labels_valid(start, *self.data));
            assert(labels_valid(begun, *self.data));
        }
        let mut l: usize = 0;
        while l < queue.len()
            invariant
                l <= queue.len(),
                search_ready(*self),
                queue_valid(*self.data, queue@),
                best_before@ == start.best,
                stops == start.best.len(),
                labels_ready(state@, *self, stops, rounds),
                state@.origin == old(state)@.origin,
                destination_stop < stops,
                round < rounds,
                state@ == after_lines(begun, *self, queue@, destination_stop as int, round as int, best_before@, l as int),
            decreases queue.len() - l,
        {
            let start_pos: usize = queue[l];
            if start_pos != NOT_QUEUED {
                let ghost before = state@;
                state.metrics.lines_scanned = count_up(state.metrics.lines_scanned, 1);
                proof {
                    assert(state@ == (SearchView { metrics: state@.metrics, ..before }));
                    assert(state@.wf(stops, rounds));
                    assert(labels_valid(state@, *self.data));
                    assert(self.line_max_positive_delay_secs@[l as int] >= 0);
                }
                self.scan_line(l, start_pos, destination_stop, round, &best_before, state);
            }
            l = l + 1;
        }
        prunes
    }
}

/// A search under way: the labels, the stops that were improved last, and the
/// last round that reached the destination.
pub struct LocalSearch {
    pub view: SearchView,
    pub marked: Seq<usize>,
    pub reached: Option<int>,
}

/// Labels before a search: only the origin is reached.
pub open spec fn start_labels(stops: int, rounds: int, origin: int, departure: i32, mark_origin: bool) -> SearchView {
    SearchView {
        best: Seq::new(stops as nat, |s: int| if s == origin { departure } else { INF_TIME }),
        arrivals: Seq::new(rounds as nat, |r: int| Seq::new(stops as nat, |s: int| if r == 0 && s == origin { departure } else { INF_TIME })),
        parents: Seq::new(
            rounds as nat,
            |r: int| Seq::new(stops as nat, |s: int| if r == 0 && s == origin { Some(ParentView::Origin) } else { None }),
        ),
        improved: if mark_origin { seq![origin as usize] } else { Seq::empty() },
        flags: Seq::new(stops as nat, |s: int| mark_origin && s == origin),
        metrics: no_work(),
        origin: origin as usize,
    }
}

/// The labels after the first `n` walks from a stop reached at a time, and
/// whether the last improvement of the destination came from one of them.
pub open spec fn after_first_walks(search: LocalSearch, walks: Seq<WalkTransfer>, from_stop: usize, departure: int, destination: int, n: int) -> LocalSearch
    decreases n,
{
    if n <= 0 {
        search
    } else {
        let before = after_first_walks(search, walks, from_stop, departure, destination, n - 1);
        let walk = walks[n - 1];
        let candidate = departure + walk.duration_secs;
        LocalSearch {
            view: with_improvement(
                before.view,
                0,
                walk.to_stop as int,
                candidate as i32,
                ParentView::Walk { from_stop: from_stop, duration_secs: walk.duration_secs, distance_meters: walk.distance_meters },
            ),
            reached: if candidate < before.view.best[walk.to_stop as int] && walk.to_stop == destination { Some(0) } else { before.reached },
            ..before
        }
    }
}

/// A search after one more round of rides and walks.
pub open spec fn after_local_round(search: LocalSearch, ctx: SearchContext, destination: int, round: int) -> LocalSearch {
    let ridden = after_rides(search.view, ctx, destination, round, search.marked);
    let walked = after_walks(ridden, *ctx.data, round, destination, ridden.improved);
    LocalSearch { view: walked, marked: walked.improved, reached: if walked.flags[destination] { Some(round) } else { search.reached } }
}

/// A search after the rounds from `round` on; it ends early where a round
/// improves nothing.
pub open spec fn after_local_rounds(search: LocalSearch, ctx: SearchContext, destination: int, round: int, rounds: int) -> LocalSearch
    decreases rounds + 1 - round,
{
    if round > rounds || search.marked.len() == 0 {
        search
    } else {
        after_local_rounds(after_local_round(search, ctx, destination, round), ctx, destination, round + 1, rounds)
    }
}

/// A journey between two stops.
#[derive(Clone, Debug)]
pub struct LocalSubqueryResult {
    pub arrival_secs: i32,
    pub transit_legs: usize,
    pub legs: Vec<CachedLeg>,
}

/// A journey between two stops, with its legs as a sequence.
pub struct LocalView {
    pub arrival_secs: i32,
    pub transit_legs: nat,
    pub legs: Seq<CachedLeg>,
}

/// A journey as the view of a result.
pub open spec fn local_view(result: Option<LocalSubqueryResult>) -> Option<LocalView> {
    match result {
        Some(found) => Some(LocalView { arrival_secs: found.arrival_secs, transit_legs: found.transit_legs as nat, legs: found.legs@ }),
        None => None,
    }
}

/// The search between two stops of the timetable with at most `rounds` rides.
pub open spec fn local_search(ctx: SearchContext, from_stop: usize, to_stop: usize, departure: i32, rounds: int) -> LocalSearch {
    let stops = ctx.data.stops@.len() as int;
    let labels = start_labels(stops, rounds + 1, from_stop as int, departure, true);
    let walks = ctx.data.transfers@[from_stop as int]@;
    let walked = after_first_walks(
        LocalSearch { view: labels, marked: Seq::empty(), reached: None },
        walks,
        from_stop,
        departure as int,
        to_stop as int,
        walks.len() as int,
    );
    after_local_rounds(LocalSearch { marked: walked.view.improved, ..walked }, ctx, to_stop as int, 1, rounds)
}

/// The journey from a stop to another that a search with at most `rounds` rides
/// finds: that of the last round that improved the destination.
pub open spec fn local_journey(ctx: SearchContext, from_stop: usize, to_stop: usize, departure: i32, rounds: int) -> Option<LocalView> {
    if from_stop == to_stop {
        Some(LocalView { arrival_secs: departure, transit_legs: 0, legs: Seq::empty() })
    } else {
        let done = local_search(ctx, from_stop, to_stop, departure, rounds);
        match done.reached {
            None => None,
            Some(round) => match journey_to(done.view, ctx, from_stop as int, to_stop as int, round) {
                PathBack::Legs(legs) => Some(
                    LocalView { arrival_secs: done.view.arrivals[round][to_stop as int], transit_legs: ride_count(legs), legs: legs },
                ),
                PathBack::Failed(_) => None,
            },
        }
    }
}

/// Labels before a search.
pub fn initial_labels(stop_count: usize, round_count: usize, origin: usize, departure_secs: i32, mark_origin: bool) -> (state: SearchState)
    requires
        origin < stop_count,
        round_count > 0,
        departure_secs <= INF_TIME,
    ensures
        state@ == start_labels(stop_count as int, round_count as int, origin as int, departure_secs, mark_origin),
        state@.wf(stop_count as int, round_count as int),
{
    let mut best: Vec<i32> = Vec::new();
    let mut flags: Vec<bool> = Vec::new();
    let mut s: usize = 0;
    while s < stop_count
        invariant
            s <= stop_count,
            best@.len() == s,
            flags@.len() == s,
            forall|k: int| 0 <= k < s ==> #[trigger] best@[k] == (if k == origin { departure_secs } else { INF_TIME }),
            forall|k: int| 0 <= k < s ==> #[trigger] flags@[k] == (mark_origin && k == origin),
        decreases stop_count - s,
    {
        best.push(if s == origin { departure_secs } else { INF_TIME });
        flags.push(mark_origin && s == origin);
        s = s + 1;
    }
    let mut arrivals: Vec<Vec<i32>> = Vec::new();
    let mut parents: Vec<Vec<Option<ParentStep>>> = Vec::new();
    let mut r: usize = 0;
    while r < round_count
        invariant
            r <= round_count,
            arrivals@.len() == r,
            parents@.len() == r,
            forall|q: int| 0 <= q < r ==> (#[trigger] arrivals@[q])@ == Seq::new(stop_count as nat, |s: int| if q == 0 && s == origin { departure_secs } else { INF_TIME }),
            forall|q: int| 0 <= q < r ==> (#[trigger] parents@[q])@.len() == stop_count,
            forall|q: int, t: int| 0 <= q < r && 0 <= t < stop_count ==> #[trigger] parents@[q]@[t] == (if q == 0 && t == origin { Some(ParentStep::Origin) } else { None }),
        decreases round_count - r,
    {
        let mut row: Vec<i32> = Vec::new();
        let mut steps: Vec<Option<ParentStep>> = Vec::new();
        let mut t: usize = 0;
        while t < stop_count
            invariant
                t <= stop_count,
                row@.len() == t,
                steps@.len() == t,
                forall|k: int| 0 <= k < t ==> #[trigger] row@[k] == (if r == 0 && k == origin { departure_secs } else { INF_TIME }),
                forall|k: int| 0 <= k < t ==> #[trigger] steps@[k] == (if r == 0 && k == origin { Some(ParentStep::Origin) } else { None }),
            decreases stop_count - t,
        {
            row.push(if r == 0 && t == origin { departure_secs } else { INF_TIME });
            steps.push(if r == 0 && t == origin { Some(ParentStep::Origin) } else { None });
            t = t + 1;
        }
        assert(row@ =~= Seq::new(stop_count as nat, |s: int| if r == 0 && s == origin { departure_secs } else { INF_TIME }));
        arrivals.push(row);
        parents.push(steps);
        r = r + 1;
    }
    let mut improved: Vec<usize> = Vec::new();
    if mark_origin {
        improved.push(origin);
    }
    let state: SearchState = SearchState { best: best, arrivals: arrivals, parents: parents, improved: improved, flags: flags, metrics: empty_metrics(), origin: origin };
    proof {
        let goal = start_labels(stop_count as int, round_count as int, origin as int, departure_secs, mark_origin);
        assert(state@.best =~= goal.best);
        assert(state@.flags =~= goal.flags);
        assert(state@.improved =~= goal.improved);
        assert(state@.arrivals =~= goal.arrivals) by {
            assert forall|q: int| 0 <= q < round_count implies state@.arrivals[q] == goal.arrivals[q] by {
                assert(state@.arrivals[q] =~= goal.arrivals[q]);
            }
        }
        assert(state@.parents =~= goal.parents) by {
            assert forall|q: int| 0 <= q < round_count implies state@.parents[q] == goal.parents[q] by {
                assert forall|t: int| 0 <= t < stop_count implies state@.parents[q][t] == goal.parents[q][t] by {
                    assert(parents@[q]@[t] == (if q == 0 && t == origin { Some(ParentStep::Origin) } else { None }));
                }
                assert(state@.parents[q] =~= goal.parents[q]);
            }
        }
        start_labels_fit(stop_count as int, round_count as int, origin as int, departure_secs, mark_origin);
    }
    state
}

/// Labels before a search are well formed.
pub proof fn start_labels_fit(stops: int, rounds: int, origin: int, departure: i32, mark_origin: bool)
    requires
        0 <= origin < stops <= usize::MAX,
        0 < rounds,
        departure <= INF_TIME,
    ensures
        start_labels(stops, rounds, origin, departure, mark_origin).wf(stops, rounds),
        forall|data: StaticData| data.stops@.len() <= stops ==> #[trigger] labels_valid(start_labels(stops, rounds, origin, departure, mark_origin), data),
{
    reveal(parent_valid);
}

/// Whether a journey that was found ends when it says; one without legs ends when it
/// begins.
pub open spec fn found_arrives(found: LocalSubqueryResult, departure_secs: i32) -> bool {
    if found.legs@.len() == 0 { found.arrival_secs == departure_secs } else { legs_arrive(found.legs@, found.arrival_secs as int) }
}

impl<'a> SearchContext<'a> {
    /// Walks from a stop reached at a time; gives whether the destination was
    /// improved.
    pub fn walk_from(&self, from_stop: usize, departure_secs: i32, destination_stop: usize, state: &mut SearchState) -> (reached: bool)
        requires
            search_ready(*self),
            labels_ready(old(state)@, *self, old(state)@.best.len() as int, old(state)@.arrivals.len() as int),
            from_stop < self.data.stops@.len(),
            departure_secs <= INF_TIME,
            0 < old(state)@.arrivals.len(),
        ensures
            labels_ready(final(state)@, *self, old(state)@.best.len() as int, old(state)@.arrivals.len() as int),
            final(state)@.origin == old(state)@.origin,
            forall|marked: Seq<usize>, before: Option<int>| {
                let after = #[trigger] after_first_walks(
                    (LocalSearch { view: old(state)@, marked: marked, reached: before }),
                    self.data.transfers@[from_stop as int]@,
                    from_stop,
                    departure_secs as int,
                    destination_stop as int,
                    self.data.transfers@[from_stop as int]@.len() as int,
                );
                after.view == final(state)@ && after.marked == marked && after.reached == (if reached { Some(0) } else { before })
            },
    {
        let ghost start = state@;
        let ghost stops = start.best.len() as int;
        let ghost rounds = start.arrivals.len() as int;
        let walks: &Vec<WalkTransfer> = &self.data.transfers[from_stop];
        let mut reached: bool = false;
        let mut i: usize = 0;
        while i < walks.len()
            invariant
                i <= walks.len(),
                *walks == self.data.transfers@[from_stop as int],
                from_stop < self.data.transfers@.len(),
                from_stop < self.data.stops@.len(),
                search_ready(*self),
                start == old(state)@,
                labels_ready(state@, *self, stops, rounds),
                state@.origin == old(state)@.origin,
                departure_secs <= INF_TIME,
                0 < rounds,
                forall|marked: Seq<usize>, before: Option<int>| {
                    let after = #[trigger] after_first_walks(
                        LocalSearch { view: start, marked: marked, reached: before },
                        walks@,
                        from_stop,
                        departure_secs as int,
                        destination_stop as int,
                        i as int,
                    );
                    after.view == state@ && after.marked == marked && after.reached == (if reached { Some(0) } else { before })
                },
            decreases walks.len() - i,
        {
            let walk: &WalkTransfer = &walks[i];
            let ghost previous = state@;
            let ghost reached_before = reached;
            assert(self.data.transfers@[from_stop as int]@[i as int].to_stop < self.data.stops@.len());
            let candidate: i32 = departure_secs + walk.duration_secs;
            proof {
                reveal(parent_valid);
                improvement_keeps_labels(
                    state@,
                    *self.data,
                    0,
                    walk.to_stop as int,
                    candidate,
                    ParentView::Walk { from_stop: from_stop, duration_secs: walk.duration_secs, distance_meters: walk.distance_meters },
                );
            }
            let improved: bool = state.record_stop_improvement(
                0,
                walk.to_stop,
                candidate,
                ParentStep::Walk { from_stop: from_stop, duration_secs: walk.duration_secs, distance_meters: walk.distance_meters },
            );
            if improved && walk.to_stop == destination_stop {
                reached = true;
            }
            proof {
                assert forall|marked: Seq<usize>, before: Option<int>| ({
                    let after = #[trigger] after_first_walks(
                        LocalSearch { view: start, marked: marked, reached: before },
                        walks@,
                        from_stop,
                        departure_secs as int,
                        destination_stop as int,
                        i + 1,
                    );
                    after.view == state@ && after.marked == marked && after.reached == (if reached { Some(0) } else { before })
                }) by {
                    let shorter = after_first_walks(
                        LocalSearch { view: start, marked: marked, reached: before },
                        walks@,
                        from_stop,
                        departure_secs as int,
                        destination_stop as int,
                        i as int,
                    );
                    assert(shorter.view == previous);
                    assert(shorter.reached == (if reached_before { Some(0) } else { before }));
                }
            }
            i = i + 1;
        }
        reached
    }

    /// Finds a journey between two stops with at most so many rides.
    pub fn compute_local_subquery(&self, from_stop: usize, to_stop: usize, departure_secs: i32, remaining_transit_legs: usize) -> (result: Option<LocalSubqueryResult>)
        requires
            search_ready(*self),
            from_stop < self.data.stops@.len(),
            to_stop < self.data.stops@.len(),
            departure_secs <= INF_TIME,
            (remaining_transit_legs + 1) * self.data.stops@.len() <= usize::MAX,
            remaining_transit_legs < usize::MAX,
        ensures
            local_view(result) == local_journey(*self, from_stop, to_stop, departure_secs, remaining_transit_legs as int),
            result is Some ==> result->0.arrival_secs <= INF_TIME && legs_valid(result->0.legs@, self.data.trips@, self.data.stops@.len() as int)
                && legs_lead(result->0.legs@, from_stop as int, to_stop as int, self.data.stops@.len() as int)
                && found_arrives(result->0, departure_secs),
    {
        if from_stop == to_stop {
            let none: Vec<CachedLeg> = Vec::new();
            assert(none@ =~= Seq::<CachedLeg>::empty());
            return Some(LocalSubqueryResult { arrival_secs: departure_secs, transit_legs: 0, legs: none });
        }
        let rounds: usize = remaining_transit_legs;
        let stop_count: usize = self.data.stops.len();
        let mut state: SearchState = initial_labels(stop_count, rounds + 1, from_stop, departure_secs, true);
        let ghost stops = stop_count as int;
        let ghost rows = rounds + 1;
        proof {
            start_labels_fit(stops, rows, from_stop as int, departure_secs, true);
        }
        let ghost labels = state@;
        let walked: bool = self.walk_from(from_stop, departure_secs, to_stop, &mut state);
        let mut reached: Option<usize> = if walked { Some(0) } else { None };
        let mut marked: Vec<usize> = Vec::new();
        std::mem::swap(&mut marked, &mut state.improved);
        let ghost start = LocalSearch { view: SearchView { improved: marked@, ..state@ }, marked: marked@, reached: if walked { Some(0) } else { None } };
        let ghost goal = after_local_rounds(start, *self, to_stop as int, 1, rounds as int);
        proof {
            let walks = self.data.transfers@[from_stop as int]@;
            let first = after_first_walks(
                LocalSearch { view: labels, marked: Seq::empty(), reached: None },
                walks,
                from_stop,
                departure_secs as int,
                to_stop as int,
                walks.len() as int,
            );
            assert(first.view == start.view);
            assert(goal == local_search(*self, from_stop, to_stop, departure_secs, rounds as int));
        }
        let mut round: usize = 1;
        let ghost mut view = start.view;
        while round <= rounds && marked.len() > 0
            invariant
                1 <= round <= rounds + 1,
                rounds < usize::MAX,
                rows == rounds + 1,
                stops == self.data.stops@.len(),
                search_ready(*self),
                to_stop < stops,
                labels_ready(view, *self, stops, rows),
                view.origin == from_stop,
                view == (SearchView { improved: marked@, ..state@ }),
                state@.improved.len() == 0,
                forall|i: int| 0 <= i < marked@.len() ==> (#[trigger] marked@[i]) < stops,
                reached is Some ==> reached->0 < rows,
                goal == after_local_rounds(
                    LocalSearch { view: view, marked: marked@, reached: match reached { Some(r) => Some(r as int), None => None } },
                    *self,
                    to_stop as int,
                    round as int,
                    rounds as int,
                ),
            decreases rounds + 1 - round,
        {
            let ghost before = LocalSearch { view: view, marked: marked@, reached: match reached { Some(r) => Some(r as int), None => None } };
            proof {
                assert(state@ == (SearchView { improved: Seq::empty(), ..view })) by {
                    assert(state@.improved =~= Seq::<usize>::empty());
                }
                assert(labels_ready(state@, *self, stops, rows)) by {
                    assert(view.wf(stops, rows));
                    assert(labels_valid(view, *self.data));
                }
                rides_ignore_improved(state@, view, *self, to_stop as int, round as int, marked@);
            }
            let _ = self.scan_marked_lines(to_stop, round, &marked, &mut state);
            let ghost ridden = state@;
            let mut frontier: Vec<usize> = Vec::new();
            let mut i: usize = 0;
            while i < state.improved.len()
                invariant
                    i <= state.improved.len(),
                    frontier@ == state.improved@.take(i as int),
                decreases state.improved.len() - i,
            {
                frontier.push(state.improved[i]);
                i = i + 1;
                assert(frontier@ =~= state.improved@.take(i as int));
            }
            assert(frontier@ =~= ridden.improved);
            proof {
                assert forall|k: int| 0 <= k < frontier@.len() implies (#[trigger] frontier@[k]) < stops by {
                    assert(ridden.improved[k] < stops);
                }
            }
            self.relax_transfers_tiled(to_stop, &frontier, round, &mut state);
            let ghost walked_view = state@;
            if state.flags[to_stop] {
                reached = Some(round);
            }
            marked.clear();
            std::mem::swap(&mut marked, &mut state.improved);
            proof {
                view = SearchView { improved: marked@, ..state@ };
                assert(view == walked_view);
                assert(state@.improved.len() == 0);
                assert(walked_view.wf(stops, rows));
                assert forall|k: int| 0 <= k < marked@.len() implies (#[trigger] marked@[k]) < stops by {
                    assert(walked_view.improved[k] < stops);
                }
            }
            round = round + 1;
        }
        let ghost done = goal;
        proof {
            assert(done.view == view);
        }
        state.improved = marked;
        assert(state@ == view);
        match reached {
            None => None,
            Some(reached_round) => {
                assert(view.arrivals[reached_round as int].len() == stops);
                assert(view.arrivals[reached_round as int][to_stop as int] <= INF_TIME);
                proof {
                    crate::journey::journeys_have_no_gap(view, *self, from_stop as int, to_stop as int, reached_round as int, label_count(view));
                }
                let arrival: i32 = state.arrivals[reached_round][to_stop];
                match self.reconstruct_path(from_stop, to_stop, reached_round, &state) {
                    Ok(legs) => {
                        let transit_legs: usize = count_rides(&legs);
                        Some(LocalSubqueryResult { arrival_secs: arrival, transit_legs: transit_legs, legs: legs })
                    },
                    Err(_) => None,
                }
            },
        }
    }
}

proof fn rides_ignore_improved(a: SearchView, b: SearchView, ctx: SearchContext, destination: int, round: int, marked: Seq<usize>)
    requires
        a == (SearchView { improved: Seq::empty(), ..b }),
    ensures
        after_rides(a, ctx, destination, round, marked) == after_rides(b, ctx, destination, round, marked),
{
    let queue = queue_of(*ctx.data, b.best, b.best[destination], marked, marked.len() as int);
    assert(round_begun(a, queued_count(queue, queue.len() as int)) == round_begun(b, queued_count(queue, queue.len() as int)));
}

} // verus!
