//! Reactive bindings: values that widgets read, and the record of which
//! widgets read which value.
//!
//! A widget that reads a binding while it renders subscribes to it. Writing
//! a binding marks its subscribers dirty, which asks for their render in the
//! next pass; it renders nothing by itself.

use vstd::prelude::*;
use crate::idset::{lemma_prefix_to_set, IndexSet};
use crate::index::Index;

verus! {

/// Handle of one binding of a registry.
#[derive(Clone, Copy, Debug, PartialEq, Eq, Structural, Hash)]
pub struct BindingId(pub usize);

/// One reactive cell: its present value and the widgets subscribed to it.
#[derive(Debug)]
pub struct Binding<T> {
    value: T,
    subscribers: IndexSet,
}

/// The bindings of one application, with the set of widgets that await a
/// render because a value they read was written.
#[derive(Debug)]
pub struct BindingRegistry<T> {
    cells: Vec<Binding<T>>,
    dirty: IndexSet,
}

impl<T> BindingRegistry<T> {
    /// The invariant of the registry.
    pub closed spec fn wf(&self) -> bool {
        &&& self.dirty.wf()
        &&& forall|i: int| 0 <= i < self.cells.len() ==> (#[trigger] self.cells[i]).subscribers.wf()
    }

    /// The number of bindings.
    pub closed spec fn count(&self) -> nat {
        self.cells@.len()
    }

    /// Whether `b` is a binding of this registry.
    pub open spec fn has(&self, b: BindingId) -> bool {
        b.0 < self.count()
    }

    /// The present value of `b`.
    pub closed spec fn value(&self, b: BindingId) -> T {
        self.cells[b.0 as int].value
    }

    /// The widgets subscribed to `b`.
    pub closed spec fn subscribers(&self, b: BindingId) -> Set<Index> {
        self.cells[b.0 as int].subscribers@
    }

    /// The widgets that await a render.
    pub closed spec fn dirty(&self) -> Set<Index> {
        self.dirty@
    }

    /// Whether `widget` is subscribed to some binding.
    pub open spec fn subscribed_anywhere(&self, widget: Index) -> bool {
        exists|b: BindingId| self.has(b) && #[trigger] self.subscribers(b).contains(widget)
    }

    /// Whether every binding of `before` has the value and the subscribers
    /// that it has in `before`.
    pub open spec fn keeps_cells(&self, before: &BindingRegistry<T>) -> bool {
        forall|o: BindingId|
            #![trigger self.subscribers(o)]
            #![trigger self.value(o)]
            before.has(o) ==> self.value(o) == before.value(o) && self.subscribers(o)
                == before.subscribers(o)
    }

    /// Whether every binding of `before` but `b` has the value and the
    /// subscribers that it has in `before`.
    pub open spec fn keeps_cells_but(&self, before: &BindingRegistry<T>, b: BindingId) -> bool {
        forall|o: BindingId|
            #![trigger self.subscribers(o)]
            #![trigger self.value(o)]
            before.has(o) && o != b ==> self.value(o) == before.value(o) && self.subscribers(o)
                == before.subscribers(o)
    }

    /// Dropping the widgets `first` and then the widgets `second` is
    /// dropping the widgets of both.
    pub proof fn lemma_dropped_chain(
        a: &BindingRegistry<T>,
        b: &BindingRegistry<T>,
        c: &BindingRegistry<T>,
        first: Set<Index>,
        second: Set<Index>,
    )
        requires
            b.dropped(a, first),
            c.dropped(b, second),
        ensures
            c.dropped(a, first.union(second)),
    {
        assert forall|o: BindingId|
            #![trigger c.subscribers(o)]
            #![trigger c.value(o)]
            a.has(o) implies c.value(o) == a.value(o) && c.subscribers(o) == a.subscribers(
            o,
        ).difference(first.union(second)) by {
            assert(b.has(o));
            assert(b.subscribers(o) == a.subscribers(o).difference(first));
            assert(c.subscribers(o) == b.subscribers(o).difference(second));
            assert(c.subscribers(o) =~= a.subscribers(o).difference(first.union(second)));
        }
    }

    /// A registry without bindings, in which no widget is dirty.
    pub fn new() -> (registry: BindingRegistry<T>)
        ensures
            registry.wf(),
            registry.count() == 0,
            registry.dirty() == Set::<Index>::empty(),
    {
        BindingRegistry { cells: Vec::new(), dirty: IndexSet::new() }
    }

    /// Creates a binding that holds `initial` and has no subscriber.
    pub fn create(&mut self, initial: T) -> (b: BindingId)
        requires
            old(self).wf(),
        ensures
            final(self).wf(),
            b.0 == old(self).count(),
            final(self).count() == old(self).count() + 1,
            final(self).value(b) == initial,
            final(self).subscribers(b) == Set::<Index>::empty(),
            final(self).dirty() == old(self).dirty(),
            final(self).keeps_cells(old(self)),
    {
        let b = BindingId(self.cells.len());
        self.cells.push(Binding { value: initial, subscribers: IndexSet::new() });
        b
    }

    /// The present value of `b`; `None` where `b` is no binding of this
    /// registry. Reading subscribes nobody.
    pub fn get(&self, b: BindingId) -> (r: Option<&T>)
        ensures
            r is Some <==> self.has(b),
            r matches Some(v) ==> *v == self.value(b),
    {
        if b.0 < self.cells.len() {
            Some(&self.cells[b.0].value)
        } else {
            None
        }
    }

    /// Subscribes `widget` to `b`, and says whether `b` is a binding of this
    /// registry. Subscribing a subscriber again changes nothing.
    pub fn bind(&mut self, widget: Index, b: BindingId) -> (known: bool)
        requires
            old(self).wf(),
        ensures
            final(self).wf(),
            known == old(self).has(b),
            final(self).count() == old(self).count(),
            final(self).dirty() == old(self).dirty(),
            final(self).keeps_cells_but(old(self), b),
            known ==> final(self).value(b) == old(self).value(b) && final(self).subscribers(b)
                == old(self).subscribers(b).insert(widget),
    {
        if b.0 >= self.cells.len() {
            return false;
        }
        self.cells[b.0].subscribers.insert(widget);
        true
    }

    /// Whether `widget` is subscribed to `b`.
    pub fn is_bound(&self, widget: Index, b: BindingId) -> (r: bool)
        requires
            self.wf(),
        ensures
            r == (self.has(b) && self.subscribers(b).contains(widget)),
    {
        b.0 < self.cells.len() && self.cells[b.0].subscribers.contains(widget)
    }

    /// The number of subscribers of `b`; 0 where `b` is no binding of this
    /// registry.
    pub fn subscriber_count(&self, b: BindingId) -> (n: usize)
        requires
            self.wf(),
        ensures
            self.has(b) ==> n == self.subscribers(b).len(),
            !self.has(b) ==> n == 0,
    {
        if b.0 < self.cells.len() {
            self.cells[b.0].subscribers.len()
        } else {
            0
        }
    }

    /// Whether `widget` is subscribed to some binding.
    pub fn has_subscriptions(&self, widget: Index) -> (r: bool)
        requires
            self.wf(),
        ensures
            r == self.subscribed_anywhere(widget),
    {
        let mut i: usize = 0;
        while i < self.cells.len()
            invariant
                i <= self.cells@.len(),
                self.wf(),
                forall|b: BindingId| b.0 < i ==> !(#[trigger] self.subscribers(b)).contains(widget),
            decreases self.cells@.len() - i,
        {
            if self.cells[i].subscribers.contains(widget) {
                assert(self.has(BindingId(i)) && self.subscribers(BindingId(i)).contains(widget));
                return true;
            }
            i += 1;
        }
        false
    }

    /// Writes `value` to `b` and marks every subscriber of `b` dirty. Says
    /// whether `b` is a binding of this registry; where it is not, nothing
    /// changes. No subscription is dropped.
    pub fn set(&mut self, b: BindingId, value: T) -> (known: bool)
        requires
            old(self).wf(),
        ensures
            final(self).wf(),
            known == old(self).has(b),
            final(self).count() == old(self).count(),
            final(self).keeps_cells_but(old(self), b),
            known ==> final(self).value(b) == value
                && final(self).subscribers(b) == old(self).subscribers(b),
            known ==> final(self).dirty() == old(self).dirty().union(old(self).subscribers(b)),
            !known ==> final(self).dirty() == old(self).dirty(),
    {
        if b.0 >= self.cells.len() {
            return false;
        }
        self.cells[b.0].value = value;
        let n = self.cells[b.0].subscribers.len();
        let ghost readers = self.cells[b.0 as int].subscribers.elements();
        let mut i: usize = 0;
        proof {
            self.cells[b.0 as int].subscribers.lemma_elements();
            if n > 0 {
                lemma_prefix_to_set(readers, 0);
            }
            assert(readers.subrange(0, 0).to_set() =~= Set::<Index>::empty());
            assert(self.dirty@ =~= old(self).dirty@.union(Set::<Index>::empty()));
        }
        while i < n
            invariant
                i <= n,
                n == readers.len(),
                b.0 < self.cells@.len(),
                self.wf(),
                self.cells@ == old(self).cells@.update(b.0 as int, self.cells@[b.0 as int]),
                self.cells@.len() == old(self).cells@.len(),
                self.cells@[b.0 as int].subscribers == old(self).cells@[b.0 as int].subscribers,
                self.cells@[b.0 as int].value == value,
                readers == self.cells@[b.0 as int].subscribers.elements(),
                self.dirty@ == old(self).dirty@.union(readers.subrange(0, i as int).to_set()),
            decreases n - i,
        {
            let id = self.cells[b.0].subscribers.get(i).unwrap();
            self.dirty.insert(id);
            proof {
                lemma_prefix_to_set(readers, i as int);
                assert(self.dirty@ =~= old(self).dirty@.union(
                    readers.subrange(0, i + 1).to_set(),
                ));
            }
            i += 1;
        }
        proof {
            assert(readers.subrange(0, n as int) =~= readers);
            old(self).cells[b.0 as int].subscribers.lemma_elements();
        }
        true
    }

    /// Drops every subscription of `widget`.
    pub fn unsubscribe(&mut self, widget: Index)
        requires
            old(self).wf(),
        ensures
            final(self).wf(),
            final(self).count() == old(self).count(),
            final(self).dirty() == old(self).dirty(),
            final(self).unsubscribed(old(self), set![widget]),
            !final(self).subscribed_anywhere(widget),
    {
        let mut i: usize = 0;
        while i < self.cells.len()
            invariant
                i <= self.cells@.len(),
                self.wf(),
                self.cells@.len() == old(self).cells@.len(),
                self.dirty == old(self).dirty,
                forall|j: int|
                    0 <= j < self.cells@.len() ==>
                        (#[trigger] self.cells@[j]).value == old(self).cells@[j].value,
                forall|j: int|
                    0 <= j < i ==>
                        (#[trigger] self.cells@[j]).subscribers@
                            == old(self).cells@[j].subscribers@.remove(widget),
                forall|j: int|
                    i <= j < self.cells@.len() ==>
                        (#[trigger] self.cells@[j]).subscribers == old(self).cells@[j].subscribers,
            decreases self.cells@.len() - i,
        {
            self.cells[i].subscribers.remove(widget);
            i += 1;
        }
        assert forall|o: BindingId| self.has(o) implies !(#[trigger] self.subscribers(o)).contains(
            widget,
        ) && self.subscribers(o) == old(self).subscribers(o).difference(set![widget]) by {
            assert(self.cells@[o.0 as int].subscribers@
                == old(self).cells@[o.0 as int].subscribers@.remove(widget));
            assert(self.subscribers(o) =~= old(self).subscribers(o).difference(set![widget]));
        }
    }

    /// Whether this registry is `before` with the widgets in `gone`
    /// unsubscribed from every binding, and otherwise unchanged.
    pub open spec fn unsubscribed(&self, before: &BindingRegistry<T>, gone: Set<Index>) -> bool {
        &&& self.dirty() == before.dirty()
        &&& self.dropped(before, gone)
    }

    /// Whether this registry has the bindings of `before`, with their
    /// values, and with their subscribers but for the widgets in `gone`.
    pub open spec fn dropped(&self, before: &BindingRegistry<T>, gone: Set<Index>) -> bool {
        &&& self.count() == before.count()
        &&& forall|o: BindingId|
            #![trigger self.subscribers(o)]
            #![trigger self.value(o)]
            before.has(o) ==> self.value(o) == before.value(o) && self.subscribers(o)
                == before.subscribers(o).difference(gone)
    }

    /// Drops every subscription of every widget in `widgets`.
    pub fn unsubscribe_all(&mut self, widgets: &Vec<Index>)
        requires
            old(self).wf(),
        ensures
            final(self).wf(),
            final(self).unsubscribed(old(self), widgets@.to_set()),
            forall|w: Index| widgets@.contains(w) ==> !final(self).subscribed_anywhere(w),
    {
        let mut i: usize = 0;
        let ghost mut gone: Set<Index> = Set::empty();
        proof {
            assert(widgets@.subrange(0, 0).to_set() =~= Set::<Index>::empty());
            assert forall|o: BindingId| self.has(o) implies self.subscribers(o)
                == self.subscribers(o).difference(gone) by {
                assert(self.subscribers(o) =~= self.subscribers(o).difference(gone));
            }
        }
        while i < widgets.len()
            invariant
                i <= widgets@.len(),
                self.wf(),
                gone == widgets@.subrange(0, i as int).to_set(),
                self.unsubscribed(old(self), gone),
            decreases widgets@.len() - i,
        {
            let ghost before = *self;
            let ghost gone_before = gone;
            self.unsubscribe(widgets[i]);
            proof {
                lemma_prefix_to_set(widgets@, i as int);
                gone = gone.insert(widgets@[i as int]);
                assert forall|o: BindingId| old(self).has(o) implies
                    self.value(o) == old(self).value(o)
                        && self.subscribers(o) == old(self).subscribers(o).difference(gone) by {
                    assert(before.has(o));
                    assert(before.subscribers(o) == old(self).subscribers(o).difference(
                        gone_before,
                    ));
                    assert(self.subscribers(o) == before.subscribers(o).difference(
                        set![widgets@[i as int]],
                    ));
                    assert(self.subscribers(o) =~= old(self).subscribers(o).difference(gone));
                }
            }
            i += 1;
        }
        proof {
            assert(widgets@.subrange(0, widgets@.len() as int) =~= widgets@);
            assert forall|w: Index| widgets@.contains(w) implies !self.subscribed_anywhere(w) by {
                assert forall|o: BindingId| self.has(o) implies !(#[trigger] self.subscribers(
                    o,
                )).contains(w) by {
                    assert(self.subscribers(o) == old(self).subscribers(o).difference(gone));
                }
            }
        }
    }

    /// Whether `widget` awaits a render.
    pub fn is_dirty(&self, widget: Index) -> (r: bool)
        requires
            self.wf(),
        ensures
            r == self.dirty().contains(widget),
    {
        self.dirty.contains(widget)
    }

    /// Whether no widget awaits a render.
    pub fn dirty_is_empty(&self) -> (r: bool)
        requires
            self.wf(),
        ensures
            r == (self.dirty() == Set::<Index>::empty()),
    {
        self.dirty.is_empty()
    }

    /// Marks `widget` dirty.
    pub fn mark_dirty(&mut self, widget: Index)
        requires
            old(self).wf(),
        ensures
            final(self).wf(),
            final(self).count() == old(self).count(),
            final(self).dirty() == old(self).dirty().insert(widget),
            final(self).keeps_cells(old(self)),
    {
        self.dirty.insert(widget);
    }

    /// Empties the set of dirty widgets and returns them in ascending order,
    /// each once.
    pub fn take_dirty(&mut self) -> (list: Vec<Index>)
        requires
            old(self).wf(),
        ensures
            final(self).wf(),
            final(self).count() == old(self).count(),
            final(self).dirty() == Set::<Index>::empty(),
            crate::idset::ascending(list@),
            list@.to_set() == old(self).dirty(),
            final(self).keeps_cells(old(self)),
    {
        self.dirty.take()
    }
}

} // verus!
