//! What a search for stops finds, and in which order.

use crate::model::StopRecord;
use crate::stop_search::{by_id, fitting_stops, found_stops, ids_at, limit_within, same_but_case, scored_below, stop_score, with_score};
use crate::text::{ascii_lower, ascii_lower_text, begins_with, occurs_in};
use crate::text_order::{text_before, text_order_covers, text_order_exists, text_order_of};
use vstd::prelude::*;

verus! {

/// Whether two characters are the same, or the small and the capital form of one letter
/// of the Latin alphabet.
pub open spec fn same_letter(a: char, b: char) -> bool {
    ||| a == b
    ||| 'A' <= a <= 'Z' && b as u32 == a as u32 + 32
    ||| 'A' <= b <= 'Z' && a as u32 == b as u32 + 32
}

/// Whether two texts are the same but for the case of Latin letters.
pub open spec fn agree_but_case(a: Seq<char>, b: Seq<char>) -> bool {
    a.len() == b.len() && forall|i: int| 0 <= i < a.len() ==> same_letter(#[trigger] a[i], b[i])
}

/// Whether the id of a stop is what was typed.
pub open spec fn id_is_typed(stop: StopRecord, query: Seq<char>) -> bool {
    agree_but_case(stop.id@, query)
}

/// Whether the code of a stop is what was typed.
pub open spec fn code_is_typed(stop: StopRecord, query: Seq<char>) -> bool {
    stop.code is Some && agree_but_case(stop.code->0@, query)
}

/// Whether the search text of a stop begins with what was typed.
pub open spec fn text_begins(stop: StopRecord, needle: Seq<char>) -> bool {
    needle.is_prefix_of(stop.search_blob@)
}

/// Whether what was typed stands somewhere in the search text of a stop.
pub open spec fn text_has(stop: StopRecord, needle: Seq<char>) -> bool {
    exists|before: Seq<char>, behind: Seq<char>| #[trigger] (before + needle + behind) == stop.search_blob@
}

/// Whether a stop fits what was typed at least as well as another: one whose id was typed
/// fits best, then one whose code was, then one whose search text begins with it.
pub open spec fn fits_no_worse(a: StopRecord, b: StopRecord, query: Seq<char>, needle: Seq<char>) -> bool {
    if id_is_typed(a, query) {
        true
    } else if code_is_typed(a, query) {
        !id_is_typed(b, query)
    } else if text_begins(a, needle) {
        !id_is_typed(b, query) && !code_is_typed(b, query)
    } else {
        !id_is_typed(b, query) && !code_is_typed(b, query) && !text_begins(b, needle)
    }
}

/// Whether a stop fits what was typed at all.
pub open spec fn fits_typed(stop: StopRecord, query: Seq<char>, needle: Seq<char>) -> bool {
    id_is_typed(stop, query) || code_is_typed(stop, query) || text_has(stop, needle)
}

proof fn letters_agree(a: char, b: char)
    ensures
        (ascii_lower(a) == ascii_lower(b)) == same_letter(a, b),
{
}

/// Texts that are the same in lower case agree but for case.
pub proof fn texts_agree(a: Seq<char>, b: Seq<char>)
    ensures
        same_but_case(a, b) == agree_but_case(a, b),
{
    if same_but_case(a, b) {
        assert(ascii_lower_text(a).len() == ascii_lower_text(b).len());
        assert forall|i: int| 0 <= i < a.len() implies same_letter(#[trigger] a[i], b[i]) by {
            assert(ascii_lower_text(a)[i] == ascii_lower_text(b)[i]);
            letters_agree(a[i], b[i]);
        }
    }
    if agree_but_case(a, b) {
        assert forall|i: int| 0 <= i < a.len() implies ascii_lower_text(a)[i] == ascii_lower_text(b)[i] by {
            assert(same_letter(a[i], b[i]));
            letters_agree(a[i], b[i]);
        }
        assert(ascii_lower_text(a) =~= ascii_lower_text(b));
    }
}

proof fn parts_occur(part: Seq<char>, whole: Seq<char>)
    ensures
        occurs_in(part, whole) == (exists|before: Seq<char>, behind: Seq<char>| #[trigger] (before + part + behind) == whole),
        begins_with(whole, part) == part.is_prefix_of(whole),
        begins_with(whole, part) ==> occurs_in(part, whole),
{
    if occurs_in(part, whole) {
        let at = choose|at: int| 0 <= at <= whole.len() - part.len() && #[trigger] whole.subrange(at, at + part.len()) == part;
        assert(whole.take(at) + part + whole.skip(at + part.len()) =~= whole) by {
            assert(forall|k: int| 0 <= k < part.len() ==> #[trigger] part[k] == whole[at + k]);
        }
    }
    if exists|before: Seq<char>, behind: Seq<char>| #[trigger] (before + part + behind) == whole {
        let (before, behind) = choose|before: Seq<char>, behind: Seq<char>| #[trigger] (before + part + behind) == whole;
        assert(whole.subrange(before.len() as int, before.len() as int + part.len()) =~= part);
    }
    if begins_with(whole, part) {
        assert(whole.subrange(0, 0int + part.len()) =~= whole.take(part.len() as int));
        assert(part =~= whole.subrange(0, part.len() as int));
    }
    if part.is_prefix_of(whole) {
        assert(whole.take(part.len() as int) =~= whole.subrange(0, part.len() as int));
    }
}

proof fn scores_tell_fits(a: StopRecord, b: StopRecord, query: Seq<char>, needle: Seq<char>)
    requires
        needle.len() > 0,
    ensures
        stop_score(a, query, needle) is Some == fits_typed(a, query, needle),
        stop_score(a, query, needle) is Some && stop_score(b, query, needle) is Some && stop_score(a, query, needle)->0 <= stop_score(b, query, needle)->0
            ==> fits_no_worse(a, b, query, needle),
        stop_score(a, query, needle) is Some && stop_score(b, query, needle) is Some && fits_no_worse(a, b, query, needle) ==> stop_score(a, query, needle)->0
            <= stop_score(b, query, needle)->0,
{
    texts_agree(a.id@, query);
    texts_agree(b.id@, query);
    if a.code is Some {
        texts_agree(a.code->0@, query);
    }
    if b.code is Some {
        texts_agree(b.code->0@, query);
    }
    parts_occur(needle, a.search_blob@);
    parts_occur(needle, b.search_blob@);
}

proof fn fitting_are_listed(stops: Seq<StopRecord>, listed: Seq<usize>, query: Seq<char>, needle: Seq<char>, n: int)
    requires
        0 <= n <= listed.len(),
    ensures
        forall|i: int| 0 <= i < fitting_stops(stops, listed, query, needle, n).len() ==> listed.contains(#[trigger] fitting_stops(stops, listed, query, needle, n)[i])
            && stop_score(stops[fitting_stops(stops, listed, query, needle, n)[i] as int], query, needle) is Some,
        forall|k: int| 0 <= k < n && stop_score(stops[#[trigger] listed[k] as int], query, needle) is Some ==> fitting_stops(stops, listed, query, needle, n).contains(
            listed[k],
        ),
    decreases n,
{
    if n > 0 {
        fitting_are_listed(stops, listed, query, needle, n - 1);
        let before = fitting_stops(stops, listed, query, needle, n - 1);
        let after = fitting_stops(stops, listed, query, needle, n);
        assert forall|i: int| 0 <= i < after.len() implies listed.contains(#[trigger] after[i]) && stop_score(stops[after[i] as int], query, needle) is Some by {
            if i < before.len() {
                assert(after[i] == before[i]);
            } else {
                assert(listed[n - 1] == after[i]);
            }
        }
        assert forall|k: int| 0 <= k < n && stop_score(stops[#[trigger] listed[k] as int], query, needle) is Some implies after.contains(listed[k]) by {
            if k < n - 1 {
                let at = before.index_of(listed[k]);
                assert(after[at] == listed[k]);
            } else {
                assert(after.last() == listed[k]);
            }
        }
    }
}

/// Whether two places of a list come from two places of another in the same order.
pub open spec fn in_order_of(ordered: Seq<usize>, n: int, first: usize, second: usize) -> bool {
    exists|a: int, b: int| 0 <= a < b < n && #[trigger] ordered[a] == first && #[trigger] ordered[b] == second
}

proof fn scored_keep_order(stops: Seq<StopRecord>, ordered: Seq<usize>, query: Seq<char>, needle: Seq<char>, score: int, n: int)
    requires
        0 <= n <= ordered.len(),
    ensures
        ({
            let list = with_score(stops, ordered, query, needle, score, n);
            &&& forall|i: int| 0 <= i < list.len() ==> stop_score(stops[#[trigger] list[i] as int], query, needle) == Some(score) && ordered.take(n).contains(list[i])
            &&& forall|i: int, j: int| 0 <= i < j < list.len() ==> in_order_of(ordered, n, #[trigger] list[i], #[trigger] list[j])
            &&& forall|k: int| 0 <= k < n && stop_score(stops[#[trigger] ordered[k] as int], query, needle) == Some(score) ==> list.contains(ordered[k])
        }),
    decreases n,
{
    if n > 0 {
        scored_keep_order(stops, ordered, query, needle, score, n - 1);
        let before = with_score(stops, ordered, query, needle, score, n - 1);
        let list = with_score(stops, ordered, query, needle, score, n);
        assert forall|i: int| 0 <= i < list.len() implies stop_score(stops[#[trigger] list[i] as int], query, needle) == Some(score) && ordered.take(n).contains(
            list[i],
        ) by {
            if i < before.len() {
                assert(list[i] == before[i]);
                let at = ordered.take(n - 1).index_of(before[i]);
                assert(ordered.take(n)[at] == before[i]);
            } else {
                assert(ordered.take(n)[n - 1] == list[i]);
            }
        }
        assert forall|i: int, j: int| 0 <= i < j < list.len() implies in_order_of(ordered, n, #[trigger] list[i], #[trigger] list[j]) by {
            if j < before.len() {
                assert(list[i] == before[i] && list[j] == before[j]);
                assert(in_order_of(ordered, n - 1, before[i], before[j]));
                let (a, b) = choose|a: int, b: int| 0 <= a < b < n - 1 && #[trigger] ordered[a] == before[i] && #[trigger] ordered[b] == before[j];
                assert(ordered[a] == list[i] && ordered[b] == list[j]);
            } else {
                assert(list[i] == before[i]);
                let a = ordered.take(n - 1).index_of(before[i]);
                assert(ordered[a] == list[i] && ordered[n - 1] == list[j]);
            }
        }
        assert forall|k: int| 0 <= k < n && stop_score(stops[#[trigger] ordered[k] as int], query, needle) == Some(score) implies list.contains(ordered[k]) by {
            if k < n - 1 {
                let at = before.index_of(ordered[k]);
                assert(list[at] == ordered[k]);
            } else {
                assert(list.last() == ordered[k]);
            }
        }
    }
}

proof fn scored_are_ordered(stops: Seq<StopRecord>, ordered: Seq<usize>, query: Seq<char>, needle: Seq<char>, n: int)
    requires
        0 <= n,
    ensures
        ({
            let all = scored_below(stops, ordered, query, needle, n);
            &&& forall|i: int| 0 <= i < all.len() ==> {
                let score = stop_score(stops[#[trigger] all[i] as int], query, needle);
                score is Some && 0 <= score->0 < n && ordered.contains(all[i])
            }
            &&& forall|i: int, j: int| 0 <= i < j < all.len() ==> {
                let first = stop_score(stops[#[trigger] all[i] as int], query, needle)->0;
                let second = stop_score(stops[#[trigger] all[j] as int], query, needle)->0;
                first < second || (first == second && in_order_of(ordered, ordered.len() as int, all[i], all[j]))
            }
            &&& forall|k: int| 0 <= k < ordered.len() && stop_score(stops[#[trigger] ordered[k] as int], query, needle) is Some && 0 <= stop_score(
                stops[ordered[k] as int],
                query,
                needle,
            )->0 < n ==> all.contains(ordered[k])
        }),
    decreases n,
{
    if n > 0 {
        scored_are_ordered(stops, ordered, query, needle, n - 1);
        scored_keep_order(stops, ordered, query, needle, n - 1, ordered.len() as int);
        let before = scored_below(stops, ordered, query, needle, n - 1);
        let last = with_score(stops, ordered, query, needle, n - 1, ordered.len() as int);
        let all = scored_below(stops, ordered, query, needle, n);
        assert(ordered.take(ordered.len() as int) =~= ordered);
        assert forall|i: int| 0 <= i < all.len() implies {
            let score = stop_score(stops[#[trigger] all[i] as int], query, needle);
            score is Some && 0 <= score->0 < n && ordered.contains(all[i])
        } by {
            if i < before.len() {
                assert(all[i] == before[i]);
            } else {
                assert(all[i] == last[i - before.len()]);
            }
        }
        assert forall|i: int, j: int| 0 <= i < j < all.len() implies {
            let first = stop_score(stops[#[trigger] all[i] as int], query, needle)->0;
            let second = stop_score(stops[#[trigger] all[j] as int], query, needle)->0;
            first < second || (first == second && in_order_of(ordered, ordered.len() as int, all[i], all[j]))
        } by {
            if j < before.len() {
                assert(all[i] == before[i] && all[j] == before[j]);
            } else {
                assert(all[j] == last[j - before.len()]);
                if i < before.len() {
                    assert(all[i] == before[i]);
                } else {
                    assert(all[i] == last[i - before.len()]);
                }
            }
        }
        assert forall|k: int| 0 <= k < ordered.len() && stop_score(stops[#[trigger] ordered[k] as int], query, needle) is Some && 0 <= stop_score(
            stops[ordered[k] as int],
            query,
            needle,
        )->0 < n implies all.contains(ordered[k]) by {
            if stop_score(stops[ordered[k] as int], query, needle)->0 < n - 1 {
                let at = before.index_of(ordered[k]);
                assert(all[at] == ordered[k]);
            } else {
                let at = last.index_of(ordered[k]);
                assert(all[before.len() + at] == ordered[k]);
            }
        }
    }
}

proof fn ordered_by_id(stops: Seq<StopRecord>, places: Seq<usize>)
    requires
        places.len() <= usize::MAX,
    ensures
        ({
            let ordered = by_id(stops, places);
            &&& ordered.len() == places.len()
            &&& forall|i: int| 0 <= i < ordered.len() ==> places.contains(#[trigger] ordered[i])
            &&& forall|k: int| 0 <= k < places.len() ==> ordered.contains(#[trigger] places[k])
            &&& forall|i: int, j: int| 0 <= i < j < ordered.len() ==> text_before(stops[#[trigger] ordered[i] as int].id@, stops[#[trigger] ordered[j] as int].id@)
                || stops[ordered[i] as int].id@ == stops[ordered[j] as int].id@
        }),
{
    let ids = ids_at(stops, places);
    text_order_exists(ids);
    let order = text_order_of(ids);
    text_order_covers(ids, order);
    let ordered = by_id(stops, places);
    assert forall|i: int| 0 <= i < ordered.len() implies places.contains(#[trigger] ordered[i]) by {
        assert(order[i] < ids.len());
        assert(places[order[i] as int] == ordered[i]);
    }
    assert forall|k: int| 0 <= k < places.len() implies ordered.contains(#[trigger] places[k]) by {
        assert(order.contains(k as usize));
        let at = order.index_of(k as usize);
        assert(ordered[at] == places[k]);
    }
    assert forall|i: int, j: int| 0 <= i < j < ordered.len() implies text_before(stops[#[trigger] ordered[i] as int].id@, stops[#[trigger] ordered[j] as int].id@)
        || stops[ordered[i] as int].id@ == stops[ordered[j] as int].id@ by {
        assert(order[i] < ids.len() && order[j] < ids.len());
        assert(ids[order[i] as int] == stops[ordered[i] as int].id@);
        assert(ids[order[j] as int] == stops[ordered[j] as int].id@);
    }
}

proof fn fitting_are_no_more(stops: Seq<StopRecord>, listed: Seq<usize>, query: Seq<char>, needle: Seq<char>, n: int)
    requires
        0 <= n,
    ensures
        fitting_stops(stops, listed, query, needle, n).len() <= n,
    decreases n,
{
    if n > 0 {
        fitting_are_no_more(stops, listed, query, needle, n - 1);
    }
}

/// Of two stops that are found the one that fits better what was typed comes first: one
/// whose id was typed before one whose id was not; of the others one whose code was
/// typed, and then one whose search text begins with it. Of two that fit as well the one
/// whose id comes first does.
pub proof fn stops_are_found_by_how_they_fit(stops: Seq<StopRecord>, listed: Seq<usize>, query: Seq<char>, needle: Seq<char>, limit: int, i: int, j: int)
    requires
        0 <= limit,
        listed.len() <= usize::MAX,
        needle.len() > 0,
        0 <= i < j < found_stops(stops, listed, query, needle, limit).len(),
    ensures
        ({
            let found = found_stops(stops, listed, query, needle, limit);
            let first = stops[found[i] as int];
            let second = stops[found[j] as int];
            &&& fits_no_worse(first, second, query, needle)
            &&& fits_no_worse(second, first, query, needle) ==> text_before(first.id@, second.id@) || first.id@ == second.id@
        }),
{
    let places = fitting_stops(stops, listed, query, needle, listed.len() as int);
    let ordered = by_id(stops, places);
    fitting_are_no_more(stops, listed, query, needle, listed.len() as int);
    ordered_by_id(stops, places);
    scored_are_ordered(stops, ordered, query, needle, 4);
    let all = scored_below(stops, ordered, query, needle, 4);
    let found = found_stops(stops, listed, query, needle, limit);
    assert(found[i] == all[i] && found[j] == all[j]);
    scores_tell_fits(stops[found[i] as int], stops[found[j] as int], query, needle);
    scores_tell_fits(stops[found[j] as int], stops[found[i] as int], query, needle);
    if fits_no_worse(stops[found[j] as int], stops[found[i] as int], query, needle) {
        assert(in_order_of(ordered, ordered.len() as int, all[i], all[j]));
        let (a, b) = choose|a: int, b: int| 0 <= a < b < ordered.len() && #[trigger] ordered[a] == all[i] && #[trigger] ordered[b] == all[j];
        assert(ordered[a] == found[i] && ordered[b] == found[j]);
    }
}

/// Every stop that is found is listed and fits what was typed; and a listed stop that fits
/// is found, unless so many as were asked for are found that all fit as well.
pub proof fn stops_that_fit_are_found(stops: Seq<StopRecord>, listed: Seq<usize>, query: Seq<char>, needle: Seq<char>, limit: int, i: int, k: int)
    requires
        0 <= limit,
        listed.len() <= usize::MAX,
        needle.len() > 0,
        0 <= k < listed.len(),
    ensures
        ({
            let found = found_stops(stops, listed, query, needle, limit);
            &&& found.len() <= limit
            &&& 0 <= i < found.len() ==> listed.contains(found[i]) && fits_typed(stops[found[i] as int], query, needle)
            &&& fits_typed(stops[listed[k] as int], query, needle) && !found.contains(listed[k]) ==> {
                &&& found.len() == limit
                &&& 0 <= i < found.len() ==> fits_no_worse(stops[found[i] as int], stops[listed[k] as int], query, needle)
            }
        }),
{
    let places = fitting_stops(stops, listed, query, needle, listed.len() as int);
    let ordered = by_id(stops, places);
    fitting_are_no_more(stops, listed, query, needle, listed.len() as int);
    fitting_are_listed(stops, listed, query, needle, listed.len() as int);
    ordered_by_id(stops, places);
    scored_are_ordered(stops, ordered, query, needle, 4);
    let all = scored_below(stops, ordered, query, needle, 4);
    let found = found_stops(stops, listed, query, needle, limit);
    let any = stops[listed[k] as int];
    scores_tell_fits(any, any, query, needle);
    if 0 <= i < found.len() {
        assert(found[i] == all[i]);
        scores_tell_fits(stops[found[i] as int], any, query, needle);
        let at = ordered.index_of(all[i]);
        assert(places.contains(ordered[at]));
        let p = places.index_of(ordered[at]);
        assert(listed.contains(places[p]));
    }
    if fits_typed(any, query, needle) {
        assert(places.contains(listed[k]));
        let p = places.index_of(listed[k]);
        assert(ordered.contains(places[p]));
        let at = ordered.index_of(listed[k]);
        assert(all.contains(ordered[at]));
        let place = all.index_of(listed[k]);
        if !found.contains(listed[k]) {
            if place < found.len() {
                assert(found[place] == all[place]);
            }
            if 0 <= i < found.len() {
                assert(all[i] == found[i] && all[place] == listed[k]);
            }
        }
    }
}

/// Where nothing was typed every listed stop is found, by its id, up to the limit.
pub proof fn typing_nothing_finds_all(stops: Seq<StopRecord>, listed: Seq<usize>, query: Seq<char>, limit: int, i: int, j: int, k: int)
    requires
        0 <= limit,
        listed.len() <= usize::MAX,
        0 <= k < listed.len(),
    ensures
        ({
            let found = found_stops(stops, listed, query, Seq::empty(), limit);
            &&& found.len() <= limit
            &&& 0 <= i < found.len() ==> listed.contains(found[i])
            &&& 0 <= i < j < found.len() ==> text_before(stops[found[i] as int].id@, stops[found[j] as int].id@) || stops[found[i] as int].id@ == stops[found[j] as int].id@
            &&& found.contains(listed[k]) || found.len() == limit
        }),
{
    let needle = Seq::<char>::empty();
    let places = fitting_stops(stops, listed, query, needle, listed.len() as int);
    let ordered = by_id(stops, places);
    fitting_are_no_more(stops, listed, query, needle, listed.len() as int);
    fitting_are_listed(stops, listed, query, needle, listed.len() as int);
    ordered_by_id(stops, places);
    scored_are_ordered(stops, ordered, query, needle, 4);
    let all = scored_below(stops, ordered, query, needle, 4);
    let found = found_stops(stops, listed, query, needle, limit);
    if 0 <= i < found.len() {
        assert(found[i] == all[i]);
        let at = ordered.index_of(all[i]);
        assert(places.contains(ordered[at]));
        let p = places.index_of(ordered[at]);
        assert(listed.contains(places[p]));
    }
    if 0 <= i < j < found.len() {
        assert(found[i] == all[i] && found[j] == all[j]);
        assert(stop_score(stops[all[i] as int], query, needle) == Some(0int) && stop_score(stops[all[j] as int], query, needle) == Some(0int));
        assert(in_order_of(ordered, ordered.len() as int, all[i], all[j]));
        let (a, b) = choose|a: int, b: int| 0 <= a < b < ordered.len() && #[trigger] ordered[a] == all[i] && #[trigger] ordered[b] == all[j];
        assert(ordered[a] == found[i] && ordered[b] == found[j]);
    }
    assert(places.contains(listed[k]));
    let p = places.index_of(listed[k]);
    assert(ordered.contains(places[p]));
    let at = ordered.index_of(listed[k]);
    assert(all.contains(ordered[at]));
    let place = all.index_of(listed[k]);
    if place < found.len() {
        assert(found[place] == all[place]);
    }
}

/// As many stops are given as are asked for, but at least one and no more than there may
/// be; where no number is asked for, as many as usual.
pub proof fn limits_are_kept(asked: usize, usual: usize, most: usize)
    requires
        1 <= usual <= most,
    ensures
        limit_within(None, usual, most) == usual,
        1 <= limit_within(Some(asked), usual, most) <= most,
        1 <= asked <= most ==> limit_within(Some(asked), usual, most) == asked,
{
}

} // verus!
