//! A queue that gives its cheapest entry first.

use vstd::prelude::*;

verus! {

/// An entry: a node and what it costs to get there.
#[derive(Clone, Copy, Debug, PartialEq, Eq, Structural)]
pub struct HeapState {
    pub node_index: usize,
    pub cost: u64,
}

/// Whether one entry comes no later than another: it is cheaper, or as cheap with
/// a node number that is not smaller.
pub open spec fn no_later(a: HeapState, b: HeapState) -> bool {
    a.cost < b.cost || (a.cost == b.cost && a.node_index >= b.node_index)
}

/// A queue of entries, kept as a binary heap.
pub struct CostHeap {
    items: Vec<HeapState>,
}

spec fn parent_of(i: int) -> int {
    (i - 1) / 2
}

spec fn ordered(items: Seq<HeapState>) -> bool {
    forall|i: int| 0 < i < items.len() ==> no_later(items[parent_of(i)], #[trigger] items[i])
}

spec fn ordered_but_up(items: Seq<HeapState>, hole: int) -> bool {
    &&& forall|i: int| 0 < i < items.len() && i != hole ==> no_later(items[parent_of(i)], #[trigger] items[i])
    &&& forall|i: int| 0 < i < items.len() && parent_of(i) == hole && hole > 0 ==> no_later(items[parent_of(hole)], #[trigger] items[i])
}

spec fn ordered_but_down(items: Seq<HeapState>, hole: int) -> bool {
    &&& forall|i: int| 0 < i < items.len() && parent_of(i) != hole ==> no_later(items[parent_of(i)], #[trigger] items[i])
    &&& forall|i: int| 0 < i < items.len() && parent_of(i) == hole && hole > 0 ==> no_later(items[parent_of(hole)], #[trigger] items[i])
}

spec fn same_entries(a: Seq<HeapState>, b: Seq<HeapState>) -> bool {
    forall|e: HeapState| #[trigger] a.contains(e) <==> b.contains(e)
}

proof fn update_counts(items: Seq<HeapState>, i: int, entry: HeapState)
    requires
        0 <= i < items.len(),
    ensures
        items.update(i, entry).to_multiset() == items.to_multiset().remove(items[i]).insert(entry),
{
    vstd::seq_lib::to_multiset_remove(items, i);
    vstd::seq_lib::to_multiset_insert(items.remove(i), i, entry);
    assert(items.remove(i).insert(i, entry) =~= items.update(i, entry));
}

proof fn swap_keeps_entries(items: Seq<HeapState>, i: int, j: int)
    requires
        0 <= i < items.len(),
        0 <= j < items.len(),
    ensures
        same_entries(items, items.update(i, items[j]).update(j, items[i])),
        items.update(i, items[j]).update(j, items[i]).to_multiset() == items.to_multiset(),
{
    update_counts(items, i, items[j]);
    update_counts(items.update(i, items[j]), j, items[i]);
    items.to_multiset_ensures();
    assert(items.contains(items[i]));
    assert(items.update(i, items[j]).update(j, items[i]).to_multiset() =~= items.to_multiset());
    let swapped = items.update(i, items[j]).update(j, items[i]);
    assert forall|e: HeapState| #[trigger] items.contains(e) <==> swapped.contains(e) by {
        if items.contains(e) {
            let k = choose|k: int| 0 <= k < items.len() && items[k] == e;
            if k == i {
                assert(swapped[j] == e);
            } else if k == j {
                assert(swapped[i] == e);
            } else {
                assert(swapped[k] == e);
            }
        }
        if swapped.contains(e) {
            let k = choose|k: int| 0 <= k < swapped.len() && swapped[k] == e;
            if k == j {
                assert(items[i] == e);
            } else if k == i {
                assert(items[j] == e);
            } else {
                assert(items[k] == e);
            }
        }
    }
}

proof fn removal_counts(before: Seq<HeapState>, moved: Seq<HeapState>)
    requires
        before.len() > 0,
        before.len() == 1 ==> moved.len() == 0,
        before.len() > 1 ==> moved == before.update(0, before[before.len() - 1]).drop_last(),
    ensures
        moved.to_multiset() == before.to_multiset().remove(before[0]),
{
    if before.len() == 1 {
        vstd::seq_lib::to_multiset_remove(before, 0);
        assert(before.remove(0) =~= moved);
    } else {
        let last = before[before.len() - 1];
        let changed = before.update(0, last);
        update_counts(before, 0, last);
        vstd::seq_lib::to_multiset_remove(changed, changed.len() - 1);
        assert(changed.remove(changed.len() - 1) =~= moved);
        assert(moved.to_multiset() =~= before.to_multiset().remove(before[0]));
    }
}

proof fn root_is_first(items: Seq<HeapState>, i: int)
    requires
        ordered(items),
        0 <= i < items.len(),
    ensures
        no_later(items[0], items[i]),
    decreases i,
{
    if i > 0 {
        root_is_first(items, parent_of(i));
        assert(no_later(items[parent_of(i)], items[i]));
    }
}

impl CostHeap {
    /// The entries, in an order of their own.
    pub closed spec fn view(&self) -> Seq<HeapState> {
        self.items@
    }

    /// Whether the entries are kept in heap order.
    pub closed spec fn wf(&self) -> bool {
        ordered(self.items@)
    }

    /// A queue without entries.
    pub fn new() -> (heap: CostHeap)
        ensures
            heap.wf(),
            heap@ == Seq::<HeapState>::empty(),
    {
        let heap = CostHeap { items: Vec::new() };
        assert(heap@ =~= Seq::<HeapState>::empty());
        heap
    }

    /// What the first entry costs; the greatest number where there is none.
    pub fn least_cost(&self) -> (cost: u64)
        requires
            self.wf(),
        ensures
            self@.len() == 0 ==> cost == u64::MAX,
            self@.len() > 0 ==> exists|i: int| 0 <= i < self@.len() && (#[trigger] self@[i]).cost == cost,
            forall|i: int| 0 <= i < self@.len() ==> cost <= (#[trigger] self@[i]).cost,
    {
        if self.items.len() == 0 {
            return u64::MAX;
        }
        proof {
            assert forall|i: int| 0 <= i < self@.len() implies self@[0].cost <= (#[trigger] self@[i]).cost by {
                root_is_first(self.items@, i);
            }
            assert(self@[0].cost == self.items@[0].cost);
        }
        self.items[0].cost
    }

    /// Whether there are no entries.
    pub fn is_empty(&self) -> (empty: bool)
        ensures
            empty == (self@.len() == 0),
    {
        self.items.len() == 0
    }

    /// Adds an entry.
    pub fn push(&mut self, entry: HeapState)
        requires
            old(self).wf(),
        ensures
            final(self).wf(),
            final(self)@.len() == old(self)@.len() + 1,
            final(self)@.to_multiset() == old(self)@.to_multiset().insert(entry),
            forall|e: HeapState| #[trigger] final(self)@.contains(e) <==> old(self)@.contains(e) || e == entry,
    {
        let ghost before = self.items@;
        self.items.push(entry);
        proof {
            vstd::seq_lib::to_multiset_build(before, entry);
        }
        let mut i: usize = self.items.len() - 1;
        proof {
            assert forall|e: HeapState| #[trigger] self.items@.contains(e) <==> before.contains(e) || e == entry by {
                if before.contains(e) {
                    let k = choose|k: int| 0 <= k < before.len() && before[k] == e;
                    assert(self.items@[k] == e);
                }
                assert(self.items@[before.len() as int] == entry);
                if self.items@.contains(e) {
                    let k = choose|k: int| 0 <= k < self.items@.len() && self.items@[k] == e;
                    if k < before.len() {
                        assert(before[k] == e);
                    }
                }
            }
            assert forall|k: int| 0 < k < self.items@.len() && k != i implies no_later(self.items@[parent_of(k)], #[trigger] self.items@[k]) by {
                assert(no_later(before[parent_of(k)], before[k]));
            }
        }
        while i > 0
            invariant
                before == old(self)@,
                i < self.items@.len(),
                self.items@.len() == before.len() + 1,
                ordered_but_up(self.items@, i as int),
                self.items@.to_multiset() == before.to_multiset().insert(entry),
                forall|e: HeapState| #[trigger] self.items@.contains(e) <==> before.contains(e) || e == entry,
            decreases i,
        {
            let p: usize = (i - 1) / 2;
            let child: HeapState = self.items[i];
            let parent: HeapState = self.items[p];
            if parent.cost < child.cost || (parent.cost == child.cost && parent.node_index >= child.node_index) {
                assert(ordered(self.items@)) by {
                    assert forall|k: int| 0 < k < self.items@.len() implies no_later(self.items@[parent_of(k)], #[trigger] self.items@[k]) by {
                        if k == i {
                            assert(parent_of(k) == p);
                        }
                    }
                }
                return;
            }
            let ghost items = self.items@;
            proof {
                swap_keeps_entries(items, i as int, p as int);
            }
            self.items.set(i, parent);
            self.items.set(p, child);
            proof {
                let swapped = self.items@;
                assert(swapped == items.update(i as int, items[p as int]).update(p as int, items[i as int]));
                assert forall|k: int| 0 < k < swapped.len() && k != p implies no_later(swapped[parent_of(k)], #[trigger] swapped[k]) by {
                    if k == i {
                        assert(parent_of(k) == p);
                    } else if parent_of(k) == i {
                        assert(no_later(items[parent_of(i as int)], items[k]));
                    } else if parent_of(k) == p {
                        assert(no_later(items[parent_of(k)], items[k]));
                    } else {
                        assert(no_later(items[parent_of(k)], items[k]));
                    }
                }
                assert forall|k: int| 0 < k < swapped.len() && parent_of(k) == p && p > 0 implies no_later(swapped[parent_of(p as int)], #[trigger] swapped[k]) by {
                    assert(no_later(items[parent_of(p as int)], items[p as int]));
                    if k != i {
                        assert(no_later(items[parent_of(k)], items[k]));
                    }
                }
                assert forall|e: HeapState| #[trigger] swapped.contains(e) <==> before.contains(e) || e == entry by {
                    assert(items.contains(e) <==> swapped.contains(e));
                }
            }
            i = p;
        }
        assert(ordered(self.items@));
    }

    /// Takes the first entry.
    pub fn pop(&mut self) -> (entry: HeapState)
        requires
            old(self).wf(),
            old(self)@.len() > 0,
        ensures
            final(self).wf(),
            final(self)@.len() == old(self)@.len() - 1,
            old(self)@.contains(entry),
            final(self)@.to_multiset() == old(self)@.to_multiset().remove(entry),
            forall|i: int| 0 <= i < old(self)@.len() ==> no_later(entry, #[trigger] old(self)@[i]),
            forall|e: HeapState| #[trigger] final(self)@.contains(e) ==> old(self)@.contains(e),
            forall|e: HeapState| #[trigger] old(self)@.contains(e) && e != entry ==> final(self)@.contains(e),
    {
        let ghost before = self.items@;
        let entry: HeapState = self.items[0];
        proof {
            assert(before.contains(before[0]));
            assert forall|i: int| 0 <= i < before.len() implies no_later(entry, #[trigger] before[i]) by {
                root_is_first(before, i);
            }
        }
        let _ = self.items.swap_remove(0);
        let ghost moved = self.items@;
        proof {
            if before.len() > 1 {
                assert(moved == before.update(0, before[before.len() - 1]).drop_last());
            }
            removal_counts(before, moved);
            assert forall|e: HeapState| #[trigger] moved.contains(e) implies before.contains(e) by {
                let k = choose|k: int| 0 <= k < moved.len() && moved[k] == e;
                if k == 0 {
                    assert(before[before.len() - 1] == e);
                } else {
                    assert(before[k] == e);
                }
            }
            assert forall|e: HeapState| #[trigger] before.contains(e) && e != entry implies moved.contains(e) by {
                let k = choose|k: int| 0 <= k < before.len() && before[k] == e;
                if k == before.len() - 1 {
                    assert(moved[0] == e);
                } else {
                    assert(moved[k] == e);
                }
            }
            assert forall|k: int| 0 < k < moved.len() && parent_of(k) != 0 implies no_later(moved[parent_of(k)], #[trigger] moved[k]) by {
                assert(no_later(before[parent_of(k)], before[k]));
            }
        }
        let mut i: usize = 0;
        let len: usize = self.items.len();
        while i < len
            invariant
                i <= len,
                len == self.items@.len(),
                moved.len() == len,
                i < len ==> ordered_but_down(self.items@, i as int),
                i == len ==> ordered(self.items@),
                same_entries(moved, self.items@),
                self.items@.to_multiset() == moved.to_multiset(),
            decreases len - i,
        {
            if i > (len - 1) / 2 || 2 * i + 1 >= len {
                assert(ordered(self.items@)) by {
                    assert forall|k: int| 0 < k < self.items@.len() implies no_later(self.items@[parent_of(k)], #[trigger] self.items@[k]) by {
                        assert(parent_of(k) != i);
                    }
                }
                i = len;
            } else {
                let left: usize = 2 * i + 1;
                let right: usize = left + 1;
                let a: HeapState = self.items[left];
                let mut least: usize = left;
                if right < len {
                    let b: HeapState = self.items[right];
                    if b.cost < a.cost || (b.cost == a.cost && b.node_index >= a.node_index) {
                        least = right;
                    }
                }
                let child: HeapState = self.items[least];
                let parent: HeapState = self.items[i];
                let ghost items = self.items@;
                proof {
                    assert forall|k: int| 0 < k < items.len() && parent_of(k) == i implies k == left || k == right by {}
                    assert forall|k: int| 0 < k < items.len() && parent_of(k) == i implies no_later(child, #[trigger] items[k]) by {
                        assert(k == left || k == right);
                    }
                    assert(parent_of(least as int) == i);
                }
                if parent.cost < child.cost || (parent.cost == child.cost && parent.node_index >= child.node_index) {
                    assert(ordered(self.items@)) by {
                        assert forall|k: int| 0 < k < self.items@.len() implies no_later(self.items@[parent_of(k)], #[trigger] self.items@[k]) by {
                            if parent_of(k) == i {
                                assert(no_later(child, items[k]));
                            }
                        }
                    }
                    i = len;
                } else {
                    proof {
                        swap_keeps_entries(items, i as int, least as int);
                    }
                    self.items.set(i, child);
                    self.items.set(least, parent);
                    proof {
                        let swapped = self.items@;
                        assert(swapped == items.update(i as int, items[least as int]).update(least as int, items[i as int]));
                        assert forall|k: int| 0 < k < swapped.len() && parent_of(k) != least implies no_later(swapped[parent_of(k)], #[trigger] swapped[k]) by {
                            if parent_of(k) == i {
                                assert(no_later(child, items[k]));
                            } else if k == i {
                                assert(no_later(items[parent_of(i as int)], items[least as int]));
                            } else {
                                assert(no_later(items[parent_of(k)], items[k]));
                            }
                        }
                        assert forall|k: int| 0 < k < swapped.len() && parent_of(k) == least && least > 0 implies no_later(swapped[parent_of(least as int)], #[trigger] swapped[k]) by {
                            assert(no_later(items[parent_of(k)], items[k]));
                        }
                        assert(same_entries(moved, swapped)) by {
                            assert forall|e: HeapState| #[trigger] moved.contains(e) <==> swapped.contains(e) by {
                                assert(items.contains(e) <==> swapped.contains(e));
                                assert(moved.contains(e) <==> items.contains(e));
                            }
                        }
                    }
                    i = least;
                }
            }
        }
        proof {
            assert forall|e: HeapState| #[trigger] self@.contains(e) implies before.contains(e) by {
                assert(moved.contains(e) <==> self.items@.contains(e));
            }
            assert forall|e: HeapState| #[trigger] before.contains(e) && e != entry implies self@.contains(e) by {
                assert(moved.contains(e) <==> self.items@.contains(e));
            }
        }
        entry
    }
}

} // verus!
