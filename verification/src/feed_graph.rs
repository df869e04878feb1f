//! Which feeds depend on which, and that none depends on itself.

use crate::model::FeedConfig;
use crate::text::trimmed;
use crate::text::{chars_of, trim_text};
use vstd::hash_map::StringHashMap;
use vstd::prelude::*;

verus! {

/// Why feeds do not go together.
#[derive(Clone, Debug)]
pub enum FeedError {
    /// A feed has no id.
    EmptyId,
    /// The id of a feed holds the character that separates feed and local ids.
    ReservedCharacter { feed_id: String },
    /// A feed depends on one that is not there.
    UnknownDependency { feed_id: String, dependency: String },
    /// A feed depends on itself, through others or not.
    Cycle { feed_id: String },
}

/// What an error says.
pub enum FeedErrorView {
    EmptyId,
    ReservedCharacter { feed_id: Seq<char> },
    UnknownDependency { feed_id: Seq<char>, dependency: Seq<char> },
    Cycle { feed_id: Seq<char> },
}

impl FeedError {
    /// What the error says.
    pub open spec fn view(&self) -> FeedErrorView {
        match *self {
            FeedError::EmptyId => FeedErrorView::EmptyId,
            FeedError::ReservedCharacter { feed_id } => FeedErrorView::ReservedCharacter { feed_id: feed_id@ },
            FeedError::UnknownDependency { feed_id, dependency } => FeedErrorView::UnknownDependency { feed_id: feed_id@, dependency: dependency@ },
            FeedError::Cycle { feed_id } => FeedErrorView::Cycle { feed_id: feed_id@ },
        }
    }
}

/// What is wrong with the id of a feed.
pub open spec fn feed_id_fault(feed_id: Seq<char>) -> Option<FeedErrorView> {
    let id = trim_text(feed_id);
    if id.len() == 0 {
        Some(FeedErrorView::EmptyId)
    } else if id.contains(':') {
        Some(FeedErrorView::ReservedCharacter { feed_id: id })
    } else {
        None
    }
}

/// Checks the id of a feed: it is not blank and has no colon.
pub fn validate_feed_id(feed_id: &str) -> (result: Result<(), FeedError>)
    ensures
        match result {
            Ok(_) => feed_id_fault(feed_id@) is None,
            Err(error) => feed_id_fault(feed_id@) == Some(error@),
        },
{
    let id: String = trimmed(feed_id);
    let chars: Vec<char> = chars_of(id.as_str());
    if chars.len() == 0 {
        return Err(FeedError::EmptyId);
    }
    let mut i: usize = 0;
    while i < chars.len()
        invariant
            i <= chars.len(),
            chars@ == id@,
            id@ == trim_text(feed_id@),
            chars@.len() > 0,
            forall|k: int| 0 <= k < i ==> chars@[k] != ':',
        decreases chars.len() - i,
    {
        if chars[i] == ':' {
            assert(chars@[i as int] == ':');
            assert(id@.contains(':'));
            return Err(FeedError::ReservedCharacter { feed_id: id });
        }
        i = i + 1;
    }
    assert(!id@.contains(':'));
    Ok(())
}

/// Where the first `n` feeds are, by id. Of two feeds with the same id the later
/// is found.
pub open spec fn feed_positions(feeds: Seq<FeedConfig>, n: int) -> Map<Seq<char>, usize>
    decreases n,
{
    if n <= 0 {
        Map::empty()
    } else {
        feed_positions(feeds, n - 1).insert(feeds[n - 1].id@, (n - 1) as usize)
    }
}

/// Whether the `k`th dependency of a feed is not among the feeds.
pub open spec fn dependency_unknown(feeds: Seq<FeedConfig>, feed: int, k: int) -> bool {
    !feed_positions(feeds, feeds.len() as int).dom().contains(feeds[feed].depends_on@[k]@)
}

/// Whether `k` of feed `feed` is the first dependency that is not among the feeds.
pub open spec fn first_unknown(feeds: Seq<FeedConfig>, feed: int, k: int) -> bool {
    &&& 0 <= feed < feeds.len()
    &&& 0 <= k < feeds[feed].depends_on@.len()
    &&& dependency_unknown(feeds, feed, k)
    &&& forall|j: int| 0 <= j < k ==> !#[trigger] dependency_unknown(feeds, feed, j)
    &&& forall|f: int, j: int| 0 <= f < feed && 0 <= j < feeds[f].depends_on@.len() ==> !#[trigger] dependency_unknown(feeds, f, j)
}

/// For each feed the feeds that it depends on.
pub open spec fn feed_links(feeds: Seq<FeedConfig>) -> Seq<Seq<usize>> {
    Seq::new(
        feeds.len(),
        |f: int| Seq::new(feeds[f].depends_on@.len(), |k: int| feed_positions(feeds, feeds.len() as int)[feeds[f].depends_on@[k]@]),
    )
}

/// How far a feed has been followed.
#[derive(Clone, Copy, Debug, PartialEq, Eq, Structural)]
pub enum Mark {
    /// Not at all.
    Unseen,
    /// Its dependencies are being followed.
    Open,
    /// All its dependencies have been followed.
    Done,
}

/// How many feeds have not been seen.
pub open spec fn unseen(marks: Seq<Mark>) -> nat
    decreases marks.len(),
{
    if marks.len() == 0 {
        0
    } else {
        unseen(marks.drop_last()) + if marks.last() == Mark::Unseen { 1nat } else { 0nat }
    }
}

proof fn unseen_after_update(marks: Seq<Mark>, at: int, mark: Mark)
    requires
        0 <= at < marks.len(),
        mark != Mark::Unseen,
    ensures
        unseen(marks.update(at, mark)) == unseen(marks) - if marks[at] == Mark::Unseen { 1int } else { 0int },
    decreases marks.len(),
{
    let changed = marks.update(at, mark);
    if at == marks.len() - 1 {
        assert(changed.drop_last() =~= marks.drop_last());
    } else {
        assert(changed.drop_last() =~= marks.drop_last().update(at, mark));
        unseen_after_update(marks.drop_last(), at, mark);
    }
}

/// Follows a feed and all it depends on, in the order of the dependencies. A
/// feed that is met while it is still open is returned as the fault.
pub open spec fn followed(links: Seq<Seq<usize>>, index: int, marks: Seq<Mark>) -> Result<Seq<Mark>, int>
    decreases unseen(marks), 0nat, 0nat,
{
    if marks[index] == Mark::Open {
        Err(index)
    } else if marks[index] == Mark::Done {
        Ok(marks)
    } else {
        let opened = marks.update(index, Mark::Open);
        if unseen(opened) < unseen(marks) {
            match links_followed(links, index, 0, opened) {
                Err(fault) => Err(fault),
                Ok(after) => Ok(after.update(index, Mark::Done)),
            }
        } else {
            Err(index)
        }
    }
}

/// Follows the dependencies of a feed from the `k`th on.
pub open spec fn links_followed(links: Seq<Seq<usize>>, index: int, k: int, marks: Seq<Mark>) -> Result<Seq<Mark>, int>
    decreases unseen(marks), 1nat, links[index].len() - k,
{
    if k < 0 || k >= links[index].len() {
        Ok(marks)
    } else {
        match followed(links, links[index][k] as int, marks) {
            Err(fault) => Err(fault),
            Ok(after) => if unseen(after) <= unseen(marks) {
                links_followed(links, index, k + 1, after)
            } else {
                Err(index)
            },
        }
    }
}

/// Follows the first `n` feeds.
pub open spec fn all_followed(links: Seq<Seq<usize>>, n: int) -> Result<Seq<Mark>, int>
    decreases n,
{
    if n <= 0 {
        Ok(Seq::new(links.len(), |i: int| Mark::Unseen))
    } else {
        match all_followed(links, n - 1) {
            Err(fault) => Err(fault),
            Ok(marks) => followed(links, n - 1, marks),
        }
    }
}

/// Whether links lead to places.
pub open spec fn links_within(links: Seq<Seq<usize>>) -> bool {
    forall|f: int, k: int| 0 <= f < links.len() && 0 <= k < links[f].len() ==> (#[trigger] links[f][k]) < links.len()
}

/// Whether following kept what was done: nothing that was seen becomes unseen,
/// what was open or done stays so, and nothing new is left open.
pub open spec fn marks_grow(before: Seq<Mark>, after: Seq<Mark>) -> bool {
    &&& before.len() == after.len()
    &&& forall|i: int| 0 <= i < before.len() && before[i] != Mark::Unseen ==> #[trigger] after[i] == before[i]
    &&& forall|i: int| 0 <= i < before.len() && before[i] == Mark::Unseen ==> (#[trigger] after[i]) != Mark::Open
    &&& unseen(after) <= unseen(before)
}

/// Whether the done feeds can be ranked so that each comes after all that it
/// depends on.
pub open spec fn ranked_by(links: Seq<Seq<usize>>, marks: Seq<Mark>, rank: Seq<int>, bound: int) -> bool {
    &&& rank.len() == marks.len()
    &&& forall|f: int| 0 <= f < marks.len() && #[trigger] marks[f] == Mark::Done ==> rank[f] < bound
    &&& forall|f: int, k: int| 0 <= f < marks.len() && marks[f] == Mark::Done && 0 <= k < links[f].len() ==> {
        let link = #[trigger] links[f][k];
        marks[link as int] == Mark::Done && rank[link as int] < rank[f]
    }
}

/// Whether the done feeds can be ranked.
pub open spec fn done_ranked(links: Seq<Seq<usize>>, marks: Seq<Mark>) -> bool {
    exists|rank: Seq<int>, bound: int| ranked_by(links, marks, rank, bound)
}

/// Whether feeds lead from one to the next by their dependencies.
pub open spec fn is_dependency_path(links: Seq<Seq<usize>>, path: Seq<int>) -> bool {
    &&& forall|i: int| 0 <= i < path.len() ==> 0 <= #[trigger] path[i] < links.len()
    &&& forall|i: int| 0 <= i < path.len() - 1 ==> links[#[trigger] path[i]].contains(path[i + 1] as usize)
}

/// Whether a feed depends on another, through others or not.
pub open spec fn depends_on(links: Seq<Seq<usize>>, from: int, to: int) -> bool {
    exists|path: Seq<int>| path.len() >= 2 && #[trigger] is_dependency_path(links, path) && path[0] == from && path.last() == to
}

proof fn dependency_step(links: Seq<Seq<usize>>, from: int, to: int)
    requires
        0 <= from < links.len(),
        0 <= to < links.len(),
        links[from].contains(to as usize),
        links.len() <= usize::MAX,
    ensures
        depends_on(links, from, to),
{
    let path = seq![from, to];
    assert(is_dependency_path(links, path));
}

proof fn dependency_extended(links: Seq<Seq<usize>>, from: int, middle: int, to: int)
    requires
        depends_on(links, from, middle),
        0 <= to < links.len(),
        0 <= middle < links.len(),
        links[middle].contains(to as usize),
    ensures
        depends_on(links, from, to),
{
    let path = choose|path: Seq<int>| path.len() >= 2 && #[trigger] is_dependency_path(links, path) && path[0] == from && path.last() == middle;
    let longer = path.push(to);
    assert forall|i: int| 0 <= i < longer.len() - 1 implies links[#[trigger] longer[i]].contains(longer[i + 1] as usize) by {
        if i < path.len() - 1 {
            assert(links[path[i]].contains(path[i + 1] as usize));
        }
    }
    assert(is_dependency_path(links, longer));
}

/// Whether all open feeds depend on a feed.
pub open spec fn open_lead_to(links: Seq<Seq<usize>>, marks: Seq<Mark>, index: int) -> bool {
    forall|f: int| 0 <= f < marks.len() && #[trigger] marks[f] == Mark::Open ==> depends_on(links, f, index)
}

proof fn rank_one_more(links: Seq<Seq<usize>>, marks: Seq<Mark>, index: int)
    requires
        links_within(links),
        links.len() == marks.len(),
        0 <= index < marks.len(),
        marks[index] == Mark::Open,
        done_ranked(links, marks),
        forall|k: int| 0 <= k < links[index].len() ==> marks[#[trigger] links[index][k] as int] == Mark::Done,
    ensures
        done_ranked(links, marks.update(index, Mark::Done)),
{
    let (rank, bound) = choose|rank: Seq<int>, bound: int| ranked_by(links, marks, rank, bound);
    let after = marks.update(index, Mark::Done);
    let more = rank.update(index, bound);
    assert forall|f: int, k: int| 0 <= f < after.len() && after[f] == Mark::Done && 0 <= k < links[f].len() implies {
        let link = #[trigger] links[f][k];
        after[link as int] == Mark::Done && more[link as int] < more[f]
    } by {
        let link = links[f][k] as int;
        if f == index {
            assert(marks[link] == Mark::Done);
        } else {
            assert(marks[f] == Mark::Done);
            assert(marks[link] == Mark::Done && rank[link] < rank[f]);
        }
    }
    assert(ranked_by(links, after, more, bound + 1));
}

proof fn following_is_sound(links: Seq<Seq<usize>>, index: int, marks: Seq<Mark>)
    requires
        links_within(links),
        links.len() <= usize::MAX,
        marks.len() == links.len(),
        0 <= index < links.len(),
        done_ranked(links, marks),
        open_lead_to(links, marks, index),
    ensures
        match followed(links, index, marks) {
            Ok(after) => marks_grow(marks, after) && after[index] == Mark::Done && done_ranked(links, after),
            Err(fault) => 0 <= fault < links.len() && depends_on(links, fault, fault),
        },
    decreases unseen(marks), 0nat, 0nat,
{
    if marks[index] == Mark::Unseen {
        let opened = marks.update(index, Mark::Open);
        unseen_after_update(marks, index, Mark::Open);
        let (rank, bound) = choose|rank: Seq<int>, bound: int| ranked_by(links, marks, rank, bound);
        assert(ranked_by(links, opened, rank, bound)) by {
            assert forall|f: int, k: int| 0 <= f < opened.len() && opened[f] == Mark::Done && 0 <= k < links[f].len() implies {
                let link = #[trigger] links[f][k];
                opened[link as int] == Mark::Done && rank[link as int] < rank[f]
            } by {
                assert(marks[f] == Mark::Done);
            }
            assert forall|f: int| 0 <= f < opened.len() && #[trigger] opened[f] == Mark::Done implies rank[f] < bound by {
                assert(marks[f] == Mark::Done);
            }
        }
        assert forall|f: int| 0 <= f < opened.len() && #[trigger] opened[f] == Mark::Open && f != index implies depends_on(links, f, index) by {
            assert(marks[f] == Mark::Open);
        }
        links_following_is_sound(links, index, 0, opened);
        if links_followed(links, index, 0, opened) is Ok {
            let after = links_followed(links, index, 0, opened)->Ok_0;
            assert(after[index] == opened[index]);
            rank_one_more(links, after, index);
            unseen_after_update(after, index, Mark::Done);
            let done = after.update(index, Mark::Done);
            assert forall|i: int| 0 <= i < marks.len() && marks[i] != Mark::Unseen implies #[trigger] done[i] == marks[i] by {
                assert(opened[i] == marks[i]);
                assert(after[i] == opened[i]);
            }
            assert forall|i: int| 0 <= i < marks.len() && marks[i] == Mark::Unseen implies (#[trigger] done[i]) != Mark::Open by {
                if i != index {
                    assert(opened[i] == Mark::Unseen);
                    assert(after[i] != Mark::Open);
                }
            }
        }
    }
}

proof fn links_following_is_sound(links: Seq<Seq<usize>>, index: int, k: int, marks: Seq<Mark>)
    requires
        links_within(links),
        links.len() <= usize::MAX,
        marks.len() == links.len(),
        0 <= index < links.len(),
        0 <= k <= links[index].len(),
        marks[index] == Mark::Open,
        done_ranked(links, marks),
        forall|f: int| 0 <= f < marks.len() && #[trigger] marks[f] == Mark::Open && f != index ==> depends_on(links, f, index),
        forall|j: int| 0 <= j < k ==> marks[#[trigger] links[index][j] as int] == Mark::Done,
    ensures
        match links_followed(links, index, k, marks) {
            Ok(after) => {
                &&& marks_grow(marks, after)
                &&& done_ranked(links, after)
                &&& forall|j: int| 0 <= j < links[index].len() ==> after[#[trigger] links[index][j] as int] == Mark::Done
            },
            Err(fault) => 0 <= fault < links.len() && depends_on(links, fault, fault),
        },
    decreases unseen(marks), 1nat, links[index].len() - k,
{
    if k < links[index].len() {
        let to = links[index][k] as int;
        assert(links[index].contains(to as usize));
        assert(open_lead_to(links, marks, to)) by {
            assert forall|f: int| 0 <= f < marks.len() && #[trigger] marks[f] == Mark::Open implies depends_on(links, f, to) by {
                if f == index {
                    dependency_step(links, index, to);
                } else {
                    dependency_extended(links, f, index, to);
                }
            }
        }
        following_is_sound(links, to, marks);
        if followed(links, to, marks) is Ok {
            let after = followed(links, to, marks)->Ok_0;
            assert(after[index] == Mark::Open);
            assert forall|f: int| 0 <= f < after.len() && #[trigger] after[f] == Mark::Open && f != index implies depends_on(links, f, index) by {
                if marks[f] == Mark::Unseen {
                    assert(after[f] != Mark::Open);
                } else {
                    assert(after[f] == marks[f]);
                }
            }
            assert forall|j: int| 0 <= j < k + 1 implies after[#[trigger] links[index][j] as int] == Mark::Done by {
                if j < k {
                    let link = links[index][j] as int;
                    assert(marks[link] == Mark::Done);
                    assert(after[link] == marks[link]);
                }
            }
            links_following_is_sound(links, index, k + 1, after);
            if links_followed(links, index, k + 1, after) is Ok {
                let last = links_followed(links, index, k + 1, after)->Ok_0;
                assert forall|i: int| 0 <= i < marks.len() && marks[i] != Mark::Unseen implies #[trigger] last[i] == marks[i] by {
                    assert(after[i] == marks[i]);
                    assert(last[i] == after[i]);
                }
                assert forall|i: int| 0 <= i < marks.len() && marks[i] == Mark::Unseen implies (#[trigger] last[i]) != Mark::Open by {
                    assert(after[i] != Mark::Open);
                    if after[i] == Mark::Done {
                        assert(last[i] == after[i]);
                    }
                }
            }
        }
    }
}

proof fn all_following_is_sound(links: Seq<Seq<usize>>, n: int)
    requires
        links_within(links),
        links.len() <= usize::MAX,
        0 <= n <= links.len(),
    ensures
        match all_followed(links, n) {
            Ok(marks) => {
                &&& marks.len() == links.len()
                &&& done_ranked(links, marks)
                &&& forall|f: int| 0 <= f < n ==> #[trigger] marks[f] == Mark::Done
                &&& forall|f: int| 0 <= f < marks.len() ==> #[trigger] marks[f] != Mark::Open
            },
            Err(fault) => 0 <= fault < links.len() && depends_on(links, fault, fault),
        },
    decreases n,
{
    if n > 0 {
        all_following_is_sound(links, n - 1);
        if all_followed(links, n - 1) is Ok {
            let marks = all_followed(links, n - 1)->Ok_0;
            assert(open_lead_to(links, marks, n - 1));
            following_is_sound(links, n - 1, marks);
            if followed(links, n - 1, marks) is Ok {
                let after = followed(links, n - 1, marks)->Ok_0;
                assert forall|f: int| 0 <= f < n implies #[trigger] after[f] == Mark::Done by {
                    if f < n - 1 {
                        assert(marks[f] == Mark::Done);
                    }
                }
                assert forall|f: int| 0 <= f < after.len() implies #[trigger] after[f] != Mark::Open by {
                    if marks[f] != Mark::Unseen {
                        assert(after[f] == marks[f]);
                    }
                }
            }
        }
    } else {
        let marks = all_followed(links, n)->Ok_0;
        let rank = Seq::new(marks.len(), |i: int| 0int);
        assert(ranked_by(links, marks, rank, 1));
    }
}

proof fn ranks_fall(links: Seq<Seq<usize>>, marks: Seq<Mark>, rank: Seq<int>, bound: int, path: Seq<int>, n: int)
    requires
        links_within(links),
        links.len() <= usize::MAX,
        marks.len() == links.len(),
        ranked_by(links, marks, rank, bound),
        forall|f: int| 0 <= f < marks.len() ==> #[trigger] marks[f] == Mark::Done,
        is_dependency_path(links, path),
        0 <= n < path.len(),
    ensures
        rank[path[n]] <= rank[path[0]] - n,
    decreases n,
{
    if n > 0 {
        ranks_fall(links, marks, rank, bound, path, n - 1);
        let from = path[n - 1];
        assert(links[from].contains(path[n - 1 + 1] as usize));
        let k = choose|k: int| 0 <= k < links[from].len() && links[from][k] == path[n] as usize;
        assert(marks[from] == Mark::Done);
        assert(links[from][k] as int == path[n]);
    }
}

/// Following the dependencies finds a fault exactly if some feed depends on
/// itself, and the fault is then such a feed.
pub proof fn following_finds_cycles(links: Seq<Seq<usize>>)
    requires
        links_within(links),
        links.len() <= usize::MAX,
    ensures
        all_followed(links, links.len() as int) is Err <==> exists|f: int| 0 <= f < links.len() && #[trigger] depends_on(links, f, f),
        all_followed(links, links.len() as int) is Err ==> {
            let fault = all_followed(links, links.len() as int)->Err_0;
            0 <= fault < links.len() && depends_on(links, fault, fault)
        },
{
    all_following_is_sound(links, links.len() as int);
    if all_followed(links, links.len() as int) is Ok {
        let marks = all_followed(links, links.len() as int)->Ok_0;
        let (rank, bound) = choose|rank: Seq<int>, bound: int| ranked_by(links, marks, rank, bound);
        assert forall|f: int| 0 <= f < links.len() implies !#[trigger] depends_on(links, f, f) by {
            if depends_on(links, f, f) {
                let path = choose|path: Seq<int>| path.len() >= 2 && #[trigger] is_dependency_path(links, path) && path[0] == f && path.last() == f;
                ranks_fall(links, marks, rank, bound, path, path.len() - 1);
            }
        }
    }
}

/// The links as sequences.
pub open spec fn links_view(links: Seq<Vec<usize>>) -> Seq<Seq<usize>> {
    Seq::new(links.len(), |i: int| links[i]@)
}

fn visit_feed(index: usize, links: &Vec<Vec<usize>>, marks: &mut Vec<Mark>) -> (result: Result<(), usize>)
    requires
        links_within(links_view(links@)),
        old(marks)@.len() == links@.len(),
        index < links@.len(),
    ensures
        final(marks)@.len() == links@.len(),
        unseen(final(marks)@) <= unseen(old(marks)@),
        match result {
            Ok(_) => followed(links_view(links@), index as int, old(marks)@) == Ok::<Seq<Mark>, int>(final(marks)@),
            Err(fault) => followed(links_view(links@), index as int, old(marks)@) == Err::<Seq<Mark>, int>(fault as int) && fault < links@.len(),
        },
    decreases unseen(old(marks)@),
{
    let ghost all = links_view(links@);
    let ghost start = marks@;
    match marks[index] {
        Mark::Open => {
            return Err(index);
        },
        Mark::Done => {
            return Ok(());
        },
        Mark::Unseen => {},
    }
    proof {
        unseen_after_update(start, index as int, Mark::Open);
    }
    marks.set(index, Mark::Open);
    let ghost opened = marks@;
    let mut k: usize = 0;
    while k < links[index].len()
        invariant
            all == links_view(links@),
            links_within(all),
            index < links@.len(),
            all[index as int] == links@[index as int]@,
            k <= links@[index as int]@.len(),
            marks@.len() == links@.len(),
            start == old(marks)@,
            start[index as int] == Mark::Unseen,
            opened == start.update(index as int, Mark::Open),
            unseen(opened) < unseen(start),
            unseen(marks@) <= unseen(opened),
            links_followed(all, index as int, 0, opened) == links_followed(all, index as int, k as int, marks@),
        decreases links@[index as int]@.len() - k,
    {
        let ghost before = marks@;
        let next: usize = links[index][k];
        assert(all[index as int][k as int] == next);
        match visit_feed(next, links, marks) {
            Ok(_) => {},
            Err(fault) => {
                return Err(fault);
            },
        }
        k = k + 1;
    }
    proof {
        unseen_after_update(marks@, index as int, Mark::Done);
    }
    marks.set(index, Mark::Done);
    Ok(())
}

proof fn positions_within(feeds: Seq<FeedConfig>, n: int)
    requires
        0 <= n <= feeds.len(),
        feeds.len() <= usize::MAX,
    ensures
        forall|id: Seq<char>| #[trigger] feed_positions(feeds, n).dom().contains(id) ==> feed_positions(feeds, n)[id] < n,
    decreases n,
{
    if n > 0 {
        positions_within(feeds, n - 1);
        let earlier = feed_positions(feeds, n - 1);
        assert forall|id: Seq<char>| #[trigger] feed_positions(feeds, n).dom().contains(id) implies feed_positions(feeds, n)[id] < n by {
            if id != feeds[n - 1].id@ {
                assert(earlier.dom().contains(id));
            }
        }
    }
}

proof fn all_keep_fault(links: Seq<Seq<usize>>, n: int, m: int)
    requires
        n <= m,
        all_followed(links, n) is Err,
    ensures
        all_followed(links, m) == all_followed(links, n),
    decreases m - n,
{
    if n < m {
        all_keep_fault(links, n, m - 1);
    }
}

/// What is wrong with the dependencies of feeds: the first that is not among the
/// feeds, or else the first feed that is met again while its own dependencies
/// are followed.
pub open spec fn dependencies_fit(feeds: Seq<FeedConfig>, result: Result<(), FeedErrorView>) -> bool {
    let links = feed_links(feeds);
    match result {
        Ok(_) => {
            &&& forall|f: int, k: int| 0 <= f < feeds.len() && 0 <= k < feeds[f].depends_on@.len() ==> !#[trigger] dependency_unknown(feeds, f, k)
            &&& forall|f: int| 0 <= f < feeds.len() ==> !#[trigger] depends_on(links, f, f)
        },
        Err(FeedErrorView::UnknownDependency { feed_id, dependency }) => exists|f: int, k: int| #[trigger] first_unknown(feeds, f, k) && feed_id == feeds[f].id@ && dependency == feeds[f].depends_on@[k]@,
        Err(FeedErrorView::Cycle { feed_id }) => {
            &&& forall|f: int, k: int| 0 <= f < feeds.len() && 0 <= k < feeds[f].depends_on@.len() ==> !#[trigger] dependency_unknown(feeds, f, k)
            &&& all_followed(links, links.len() as int) is Err
            &&& ({
                let fault = all_followed(links, links.len() as int)->Err_0;
                0 <= fault < feeds.len() && feed_id == feeds[fault].id@ && depends_on(links, fault, fault)
            })
        },
        _ => false,
    }
}

/// What a result of a check says.
pub open spec fn checked_view(result: Result<(), FeedError>) -> Result<(), FeedErrorView> {
    match result {
        Ok(_) => Ok(()),
        Err(error) => Err(error@),
    }
}

/// Checks that all dependencies are among the feeds and that no feed depends on
/// itself.
pub fn validate_feed_dependencies(feeds: &Vec<FeedConfig>) -> (result: Result<(), FeedError>)
    ensures
        dependencies_fit(feeds@, checked_view(result)),
{
    let mut positions: StringHashMap<usize> = StringHashMap::new();
    assert(positions@ =~= Map::<Seq<char>, usize>::empty());
    let mut i: usize = 0;
    while i < feeds.len()
        invariant
            i <= feeds.len(),
            positions@ == feed_positions(feeds@, i as int),
        decreases feeds.len() - i,
    {
        positions.insert(feeds[i].id.clone(), i);
        i = i + 1;
    }
    let mut links: Vec<Vec<usize>> = Vec::new();
    let mut f: usize = 0;
    while f < feeds.len()
        invariant
            f <= feeds.len(),
            positions@ == feed_positions(feeds@, feeds@.len() as int),
            links@.len() == f,
            forall|g: int| 0 <= g < f ==> (#[trigger] links@[g])@ =~= feed_links(feeds@)[g],
            forall|g: int, j: int| 0 <= g < f && 0 <= j < feeds@[g].depends_on@.len() ==> !#[trigger] dependency_unknown(feeds@, g, j),
        decreases feeds.len() - f,
    {
        let feed: &FeedConfig = &feeds[f];
        let mut row: Vec<usize> = Vec::new();
        let mut k: usize = 0;
        while k < feed.depends_on.len()
            invariant
                f < feeds.len(),
                *feed == feeds@[f as int],
                k <= feed.depends_on.len(),
                positions@ == feed_positions(feeds@, feeds@.len() as int),
                row@ =~= feed_links(feeds@)[f as int].take(k as int),
                forall|g: int, j: int| 0 <= g < f && 0 <= j < feeds@[g].depends_on@.len() ==> !#[trigger] dependency_unknown(feeds@, g, j),
                forall|j: int| 0 <= j < k ==> !#[trigger] dependency_unknown(feeds@, f as int, j),
            decreases feed.depends_on.len() - k,
        {
            match positions.get(feed.depends_on[k].as_str()) {
                Some(position) => {
                    row.push(*position);
                },
                None => {
                    assert(first_unknown(feeds@, f as int, k as int));
                    return Err(FeedError::UnknownDependency { feed_id: feed.id.clone(), dependency: feed.depends_on[k].clone() });
                },
            }
            k = k + 1;
        }
        assert(feed_links(feeds@)[f as int].take(k as int) =~= feed_links(feeds@)[f as int]);
        links.push(row);
        f = f + 1;
    }
    let ghost all = feed_links(feeds@);
    let mut marks: Vec<Mark> = Vec::new();
    let mut m: usize = 0;
    while m < feeds.len()
        invariant
            m <= feeds.len(),
            marks@.len() == m,
            forall|g: int| 0 <= g < m ==> #[trigger] marks@[g] == Mark::Unseen,
        decreases feeds.len() - m,
    {
        marks.push(Mark::Unseen);
        m = m + 1;
    }
    proof {
        assert(links_view(links@) =~= all);
        assert(marks@ =~= Seq::new(all.len(), |i: int| Mark::Unseen));
        positions_within(feeds@, feeds.len() as int);
        assert forall|g: int, j: int| 0 <= g < all.len() && 0 <= j < all[g].len() implies (#[trigger] all[g][j]) < all.len() by {
            assert(!dependency_unknown(feeds@, g, j));
        }
        following_finds_cycles(all);
    }
    let mut index: usize = 0;
    while index < feeds.len()
        invariant
            index <= feeds.len(),
            all == feed_links(feeds@),
            all.len() == feeds@.len(),
            links_view(links@) == all,
            links@.len() == feeds@.len(),
            links_within(all),
            marks@.len() == links@.len(),
            forall|g: int, j: int| 0 <= g < feeds@.len() && 0 <= j < feeds@[g].depends_on@.len() ==> !#[trigger] dependency_unknown(feeds@, g, j),
            all_followed(all, all.len() as int) is Err ==> {
                let fault = all_followed(all, all.len() as int)->Err_0;
                0 <= fault < all.len() && depends_on(all, fault, fault)
            },
            all_followed(all, index as int) == Ok::<Seq<Mark>, int>(marks@),
        decreases feeds.len() - index,
    {
        match visit_feed(index, &links, &mut marks) {
            Ok(_) => {},
            Err(fault) => {
                proof {
                    all_keep_fault(all, index + 1, all.len() as int);
                }
                return Err(FeedError::Cycle { feed_id: feeds[fault].id.clone() });
            },
        }
        index = index + 1;
    }
    Ok(())
}

} // verus!
