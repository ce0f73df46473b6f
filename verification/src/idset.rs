//! A set of identifiers, kept in ascending order.

use vstd::prelude::*;
use crate::index::Index;

verus! {

/// Whether `s` is strictly ascending in the order of identifiers.
pub open spec fn ascending(s: Seq<Index>) -> bool {
    forall|i: int, j: int| 0 <= i < j < s.len() ==> s[i].spec_precedes(s[j])
}

/// A strictly ascending sequence holds no element twice.
pub proof fn lemma_ascending_no_duplicates(s: Seq<Index>)
    requires
        ascending(s),
    ensures
        s.no_duplicates(),
{
    assert forall|i: int, j: int| 0 <= i < s.len() && 0 <= j < s.len() && i != j implies s[i]
        != s[j] by {
        if i < j {
            assert(s[i].spec_precedes(s[j]));
        } else {
            assert(s[j].spec_precedes(s[i]));
        }
    }
}

/// The elements of a prefix that is one longer are those of the prefix and
/// the element that follows it.
pub proof fn lemma_prefix_to_set(s: Seq<Index>, i: int)
    requires
        0 <= i < s.len(),
    ensures
        s.subrange(0, i + 1).to_set() == s.subrange(0, i).to_set().insert(s[i]),
        s.subrange(0, 0).to_set() == Set::<Index>::empty(),
        s.subrange(0, s.len() as int) == s,
{
    let a = s.subrange(0, i);
    let b = s.subrange(0, i + 1);
    assert forall|x: Index| b.to_set().contains(x) <==> a.to_set().insert(s[i]).contains(x) by {
        if b.contains(x) {
            let j = b.index_of(x);
            if j < i {
                assert(a[j] == x);
            }
        }
        if a.contains(x) {
            let j = a.index_of(x);
            assert(b[j] == x);
        }
        assert(b[i] == s[i]);
    }
    assert(b.to_set() =~= a.to_set().insert(s[i]));
    assert(s.subrange(0, 0).to_set() =~= Set::<Index>::empty());
    assert(s.subrange(0, s.len() as int) =~= s);
}

/// A finite set of identifiers that is walked in ascending order.
#[derive(Debug)]
pub struct IndexSet {
    items: Vec<Index>,
}

impl View for IndexSet {
    type V = Set<Index>;

    closed spec fn view(&self) -> Set<Index> {
        self.items@.to_set()
    }
}

impl IndexSet {
    /// The invariant of the set: its elements are stored in strictly
    /// ascending order.
    pub closed spec fn wf(&self) -> bool {
        ascending(self.items@)
    }

    /// The elements in ascending order.
    pub closed spec fn elements(&self) -> Seq<Index> {
        self.items@
    }

    /// How the ordered elements relate to the set.
    pub proof fn lemma_elements(&self)
        requires
            self.wf(),
        ensures
            ascending(self.elements()),
            self.elements().no_duplicates(),
            self.elements().to_set() == self@,
            self@.finite(),
            self@.len() == self.elements().len(),
    {
        lemma_ascending_no_duplicates(self.items@);
        self.items@.unique_seq_to_set();
        vstd::seq_lib::seq_to_set_is_finite(self.items@);
    }

    /// The empty set.
    pub fn new() -> (set: IndexSet)
        ensures
            set.wf(),
            set@ == Set::<Index>::empty(),
            set.elements() == Seq::<Index>::empty(),
    {
        let set = IndexSet { items: Vec::new() };
        assert(set@ =~= Set::<Index>::empty());
        set
    }

    /// The number of elements.
    pub fn len(&self) -> (n: usize)
        requires
            self.wf(),
        ensures
            n == self@.len(),
            n == self.elements().len(),
    {
        proof {
            self.lemma_elements();
        }
        self.items.len()
    }

    /// Whether the set has no element.
    pub fn is_empty(&self) -> (r: bool)
        requires
            self.wf(),
        ensures
            r == (self@ == Set::<Index>::empty()),
    {
        proof {
            if self.items@.len() > 0 {
                assert(self.items@.to_set().contains(self.items@[0]));
            } else {
                assert(self@ =~= Set::<Index>::empty());
            }
        }
        self.items.len() == 0
    }

    fn slot_for(&self, id: Index) -> (at: usize)
        requires
            self.wf(),
        ensures
            at <= self.items@.len(),
            forall|i: int| 0 <= i < at ==> self.items@[i].spec_precedes(id),
            at < self.items@.len() ==> !self.items@[at as int].spec_precedes(id),
            self@.contains(id) <==> at < self.items@.len() && self.items@[at as int] == id,
    {
        let mut at: usize = 0;
        while at < self.items.len() && self.items[at].precedes(id)
            invariant
                at <= self.items@.len(),
                forall|i: int| 0 <= i < at ==> self.items@[i].spec_precedes(id),
            decreases self.items@.len() - at,
        {
            at += 1;
        }
        proof {
            if self@.contains(id) {
                let i = self.items@.index_of(id);
                if i < at {
                    assert(self.items@[i].spec_precedes(id));
                }
                if i > at {
                    assert(self.items@[at as int].spec_precedes(self.items@[i]));
                }
            }
            if at < self.items@.len() && self.items@[at as int] == id {
                assert(self.items@.contains(id));
            }
        }
        at
    }

    /// Whether `id` is an element.
    pub fn contains(&self, id: Index) -> (r: bool)
        requires
            self.wf(),
        ensures
            r == self@.contains(id),
    {
        let at = self.slot_for(id);
        at < self.items.len() && self.items[at] == id
    }

    /// Adds `id`, and says whether it was new.
    pub fn insert(&mut self, id: Index) -> (added: bool)
        requires
            old(self).wf(),
        ensures
            final(self).wf(),
            final(self)@ == old(self)@.insert(id),
            added == !old(self)@.contains(id),
    {
        let at = self.slot_for(id);
        if at < self.items.len() && self.items[at] == id {
            assert(self@ =~= self@.insert(id));
            return false;
        }
        let ghost before = self.items@;
        self.items.insert(at, id);
        proof {
            let after = self.items@;
            assert forall|i: int, j: int| 0 <= i < j < after.len() implies after[i].spec_precedes(
                after[j],
            ) by {
                let ii = if i < at {
                    i
                } else {
                    i - 1
                };
                let jj = if j < at {
                    j
                } else {
                    j - 1
                };
                if i == at {
                    assert(after[j] == before[jj]);
                    if jj > at {
                        assert(before[at as int].spec_precedes(before[jj]));
                    }
                } else if j == at {
                    assert(after[i] == before[ii]);
                } else {
                    assert(after[i] == before[ii] && after[j] == before[jj]);
                }
            }
            assert forall|x: Index| after.to_set().contains(x) <==> before.to_set().insert(
                id,
            ).contains(x) by {
                if after.contains(x) {
                    let i = after.index_of(x);
                    if i < at {
                        assert(before[i] == x);
                    } else if i > at {
                        assert(before[i - 1] == x);
                    }
                }
                if before.contains(x) {
                    let i = before.index_of(x);
                    if i < at {
                        assert(after[i] == x);
                    } else {
                        assert(after[i + 1] == x);
                    }
                }
                assert(after[at as int] == id);
            }
            assert(self@ =~= old(self)@.insert(id));
        }
        true
    }

    /// Takes `id` out, and says whether it was an element.
    pub fn remove(&mut self, id: Index) -> (removed: bool)
        requires
            old(self).wf(),
        ensures
            final(self).wf(),
            final(self)@ == old(self)@.remove(id),
            removed == old(self)@.contains(id),
    {
        let at = self.slot_for(id);
        if !(at < self.items.len() && self.items[at] == id) {
            assert(self@ =~= self@.remove(id));
            return false;
        }
        let ghost before = self.items@;
        self.items.remove(at);
        proof {
            let after = self.items@;
            lemma_ascending_no_duplicates(before);
            assert forall|i: int, j: int| 0 <= i < j < after.len() implies after[i].spec_precedes(
                after[j],
            ) by {
                let ii = if i < at {
                    i
                } else {
                    i + 1
                };
                let jj = if j < at {
                    j
                } else {
                    j + 1
                };
                assert(after[i] == before[ii] && after[j] == before[jj]);
            }
            assert forall|x: Index| after.to_set().contains(x) <==> before.to_set().remove(
                id,
            ).contains(x) by {
                if after.contains(x) {
                    let i = after.index_of(x);
                    if i < at {
                        assert(before[i] == x);
                    } else {
                        assert(before[i + 1] == x);
                    }
                }
                if before.contains(x) && x != id {
                    let i = before.index_of(x);
                    if i < at {
                        assert(after[i] == x);
                    } else {
                        assert(after[i - 1] == x);
                    }
                }
            }
            assert(self@ =~= old(self)@.remove(id));
        }
        true
    }

    /// The element at position `i` of the ascending order, if the set has
    /// more than `i` elements.
    pub fn get(&self, i: usize) -> (r: Option<Index>)
        requires
            self.wf(),
        ensures
            r is Some <==> i < self.elements().len(),
            r matches Some(id) ==> id == self.elements()[i as int] && self@.contains(id),
    {
        if i < self.items.len() {
            assert(self.items@.contains(self.items@[i as int]));
            Some(self.items[i])
        } else {
            None
        }
    }

    /// Empties the set and returns its elements in ascending order.
    pub fn take(&mut self) -> (list: Vec<Index>)
        requires
            old(self).wf(),
        ensures
            final(self).wf(),
            final(self)@ == Set::<Index>::empty(),
            list@ == old(self).elements(),
            ascending(list@),
            list@.to_set() == old(self)@,
    {
        let mut list: Vec<Index> = Vec::new();
        list.append(&mut self.items);
        assert(self@ =~= Set::<Index>::empty());
        assert(list@ =~= old(self).items@);
        list
    }
}

} // verus!
