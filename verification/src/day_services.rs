//! The services that run on each day.

use crate::text::same_text;
use std::collections::HashMap;
use vstd::prelude::*;
use vstd::string::*;

verus! {

/// For each day, the services that run. Days are counted from the first day of
/// the year one, which was a Monday.
pub struct DayServices {
    index: HashMap<i32, usize>,
    days: Vec<i32>,
    services: Vec<Vec<String>>,
}

/// What a list of texts says.
pub open spec fn text_set(texts: Seq<String>) -> Set<Seq<char>> {
    Set::new(|text: Seq<char>| exists|i: int| 0 <= i < texts.len() && (#[trigger] texts[i])@ == text)
}

/// Whether no text is listed twice.
pub open spec fn texts_distinct(texts: Seq<String>) -> bool {
    forall|i: int, j: int| 0 <= i < j < texts.len() ==> (#[trigger] texts[i])@ != (#[trigger] texts[j])@
}

/// The services of a day; none on a day that is not listed.
pub open spec fn services_on(calendar: Map<i32, Set<Seq<char>>>, day: i32) -> Set<Seq<char>> {
    if calendar.dom().contains(day) { calendar[day] } else { Set::empty() }
}

fn position_of(texts: &Vec<String>, text: &str) -> (position: Option<usize>)
    ensures
        position is Some ==> position->0 < texts@.len() && texts@[position->0 as int]@ == text@,
        position is None ==> forall|i: int| 0 <= i < texts@.len() ==> (#[trigger] texts@[i])@ != text@,
{
    let mut i: usize = 0;
    while i < texts.len()
        invariant
            i <= texts.len(),
            forall|k: int| 0 <= k < i ==> (#[trigger] texts@[k])@ != text@,
        decreases texts.len() - i,
    {
        if same_text(texts[i].as_str(), text) {
            return Some(i);
        }
        i = i + 1;
    }
    None
}

impl DayServices {
    /// The index and the slots describe the same days, and no service is listed
    /// twice on a day.
    pub closed spec fn wf(&self) -> bool {
        &&& self.days.len() == self.services.len()
        &&& forall|i: int| 0 <= i < self.days.len() ==> self.index@.dom().contains(#[trigger] self.days[i]) && self.index@[self.days[i]] == i
        &&& forall|day: i32| #[trigger] self.index@.dom().contains(day) ==> self.index@[day] < self.days.len() && self.days[self.index@[day] as int] == day
        &&& forall|i: int| 0 <= i < self.services.len() ==> texts_distinct((#[trigger] self.services[i])@)
    }

    /// The services of each day that is listed.
    pub closed spec fn view(&self) -> Map<i32, Set<Seq<char>>> {
        Map::new(|day: i32| self.index@.dom().contains(day), |day: i32| text_set(self.services[self.index@[day] as int]@))
    }

    /// A calendar without days.
    pub fn new() -> (calendar: DayServices)
        ensures
            calendar.wf(),
            calendar@ == Map::<i32, Set<Seq<char>>>::empty(),
    {
        let calendar = DayServices { index: HashMap::new(), days: Vec::new(), services: Vec::new() };
        assert(calendar@ =~= Map::<i32, Set<Seq<char>>>::empty());
        calendar
    }

    /// Number of days listed.
    pub fn day_count(&self) -> (count: usize)
        requires
            self.wf(),
        ensures
            count == self@.dom().len(),
            self@.dom().finite(),
    {
        proof {
            assert(self.days@.no_duplicates());
            assert(self@.dom() =~= self.days@.to_set()) by {
                assert forall|day: i32| self@.dom().contains(day) <==> self.days@.to_set().contains(day) by {
                    if self@.dom().contains(day) {
                        assert(self.days@[self.index@[day] as int] == day);
                    }
                }
            }
            self.days@.unique_seq_to_set();
        }
        self.days.len()
    }

    /// The first and the last day listed.
    pub fn day_range(&self) -> (range: Option<(i32, i32)>)
        requires
            self.wf(),
        ensures
            range is None <==> self@.dom() == Set::<i32>::empty(),
            range is Some ==> {
                &&& self@.dom().contains((range->0).0)
                &&& self@.dom().contains((range->0).1)
                &&& forall|day: i32| #[trigger] self@.dom().contains(day) ==> (range->0).0 <= day <= (range->0).1
            },
    {
        if self.days.len() == 0 {
            assert(self@.dom() =~= Set::<i32>::empty());
            return None;
        }
        let mut first: i32 = self.days[0];
        let mut last: i32 = self.days[0];
        let mut i: usize = 1;
        while i < self.days.len()
            invariant
                1 <= i <= self.days.len(),
                self.days@.contains(first),
                self.days@.contains(last),
                forall|k: int| 0 <= k < i ==> first <= #[trigger] self.days@[k] <= last,
            decreases self.days.len() - i,
        {
            assert(self.days@[i as int] == self.days[i as int]);
            if self.days[i] < first {
                first = self.days[i];
            }
            if self.days[i] > last {
                last = self.days[i];
            }
            i = i + 1;
        }
        proof {
            assert forall|day: i32| #[trigger] self@.dom().contains(day) implies first <= day <= last by {
                assert(self.days@[self.index@[day] as int] == day);
            }
            assert(self@.dom().contains(first)) by {
                let k = choose|k: int| 0 <= k < self.days@.len() && self.days@[k] == first;
                assert(self.index@.dom().contains(self.days[k]));
            }
            assert(self@.dom().contains(last)) by {
                let k = choose|k: int| 0 <= k < self.days@.len() && self.days@[k] == last;
                assert(self.index@.dom().contains(self.days[k]));
            }
        }
        Some((first, last))
    }

    /// The services of a day, if it is listed.
    pub fn get(&self, day: i32) -> (services: Option<&Vec<String>>)
        requires
            self.wf(),
        ensures
            services is Some <==> self@.dom().contains(day),
            services is Some ==> text_set(services->0@) == self@[day] && texts_distinct(services->0@),
    {
        match self.index.get(&day) {
            Some(slot) => {
                assert(texts_distinct(self.services[*slot as int]@));
                Some(&self.services[*slot])
            },
            None => None,
        }
    }

    /// Lets a service run on a day.
    pub fn add_service(&mut self, day: i32, service: String)
        requires
            old(self).wf(),
        ensures
            final(self).wf(),
            final(self)@ == old(self)@.insert(day, services_on(old(self)@, day).insert(service@)),
    {
        let known: Option<usize> = match self.index.get(&day) {
            Some(slot) => Some(*slot),
            None => None,
        };
        let ghost text = service@;
        match known {
            Some(slot) => {
                let ghost before = self.services@[slot as int]@;
                assert(texts_distinct(self.services[slot as int]@));
                let position: Option<usize> = position_of(&self.services[slot], service.as_str());
                if position.is_none() {
                    self.services[slot].push(service);
                    proof {
                        let after = self.services@[slot as int]@;
                        set_after_push(before, service);
                        assert forall|i: int| 0 <= i < self.services.len() implies texts_distinct((#[trigger] self.services[i])@) by {
                            if i != slot {
                                assert(texts_distinct(old(self).services[i]@));
                            }
                        }
                    }
                } else {
                    proof {
                        assert(text_set(before).insert(text) =~= text_set(before));
                    }
                }
                assert(self@ =~= old(self)@.insert(day, services_on(old(self)@, day).insert(text)));
            },
            None => {
                let slot: usize = self.days.len();
                let mut list: Vec<String> = Vec::new();
                list.push(service);
                proof {
                    let none = Seq::<String>::empty();
                    set_after_push(none, service);
                    assert(list@ =~= none.push(service));
                    assert(text_set(none) =~= Set::<Seq<char>>::empty());
                }
                self.index.insert(day, slot);
                self.days.push(day);
                self.services.push(list);
                proof {
                    assert forall|i: int| 0 <= i < self.days.len() implies self.index@.dom().contains(#[trigger] self.days[i]) && self.index@[self.days[i]] == i by {
                        if i < slot {
                            assert(old(self).index@.dom().contains(old(self).days[i]));
                        }
                    }
                    assert forall|i: int| 0 <= i < self.services.len() implies texts_distinct((#[trigger] self.services[i])@) by {
                        if i < slot {
                            assert(texts_distinct(old(self).services[i]@));
                        }
                    }
                    assert(self@ =~= old(self)@.insert(day, services_on(old(self)@, day).insert(text)));
                }
            },
        }
    }

    /// Keeps a service from running on a day; a day that is not listed stays so.
    pub fn remove_service(&mut self, day: i32, service: &str)
        requires
            old(self).wf(),
        ensures
            final(self).wf(),
            final(self)@ == (if old(self)@.dom().contains(day) { old(self)@.insert(day, old(self)@[day].remove(service@)) } else { old(self)@ }),
    {
        let known: Option<usize> = match self.index.get(&day) {
            Some(slot) => Some(*slot),
            None => None,
        };
        match known {
            Some(slot) => {
                let ghost before = self.services@[slot as int]@;
                assert(texts_distinct(self.services[slot as int]@));
                let position: Option<usize> = position_of(&self.services[slot], service);
                match position {
                    Some(at) => {
                        let _ = self.services[slot].remove(at);
                        proof {
                            let after = self.services@[slot as int]@;
                            assert(after == before.remove(at as int));
                            set_after_remove(before, at as int);
                            assert forall|i: int| 0 <= i < self.services.len() implies texts_distinct((#[trigger] self.services[i])@) by {
                                if i != slot {
                                    assert(texts_distinct(old(self).services[i]@));
                                }
                            }
                        }
                    },
                    None => {
                        assert(text_set(before).remove(service@) =~= text_set(before));
                    },
                }
                assert(self@ =~= old(self)@.insert(day, old(self)@[day].remove(service@)));
            },
            None => {},
        }
    }
}

proof fn set_after_push(texts: Seq<String>, text: String)
    ensures
        text_set(texts.push(text)) == text_set(texts).insert(text@),
{
    let after = texts.push(text);
    assert forall|t: Seq<char>| text_set(after).contains(t) <==> text_set(texts).insert(text@).contains(t) by {
        if text_set(texts).contains(t) {
            let i = choose|i: int| 0 <= i < texts.len() && (#[trigger] texts[i])@ == t;
            assert(after[i]@ == t);
        }
        assert(after[texts.len() as int]@ == text@);
        if text_set(after).contains(t) {
            let i = choose|i: int| 0 <= i < after.len() && (#[trigger] after[i])@ == t;
            if i < texts.len() {
                assert(texts[i]@ == t);
            }
        }
    }
    assert(text_set(after) =~= text_set(texts).insert(text@));
}

proof fn set_after_remove(texts: Seq<String>, at: int)
    requires
        0 <= at < texts.len(),
        texts_distinct(texts),
    ensures
        text_set(texts.remove(at)) == text_set(texts).remove(texts[at]@),
        texts_distinct(texts.remove(at)),
{
    let after = texts.remove(at);
    assert forall|t: Seq<char>| text_set(after).contains(t) <==> text_set(texts).remove(texts[at]@).contains(t) by {
        if text_set(after).contains(t) {
            let i = choose|i: int| 0 <= i < after.len() && (#[trigger] after[i])@ == t;
            let j = if i < at { i } else { i + 1 };
            assert(texts[j]@ == t);
            if j < at {
                assert(texts[j]@ != texts[at]@);
            } else {
                assert(texts[at]@ != texts[j]@);
            }
        }
        if text_set(texts).remove(texts[at]@).contains(t) {
            let j = choose|j: int| 0 <= j < texts.len() && (#[trigger] texts[j])@ == t;
            let i = if j < at { j } else { j - 1 };
            assert(after[i]@ == t);
        }
    }
    assert(text_set(after) =~= text_set(texts).remove(texts[at]@));
    assert forall|i: int, j: int| 0 <= i < j < after.len() implies (#[trigger] after[i])@ != (#[trigger] after[j])@ by {
        let a = if i < at { i } else { i + 1 };
        let b = if j < at { j } else { j + 1 };
        assert(texts[a]@ != texts[b]@);
    }
}

} // verus!
