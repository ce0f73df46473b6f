//! The order of one render pass: which widgets still await their render,
//! and which have had it.

use vstd::prelude::*;
use crate::idset::IndexSet;
use crate::index::Index;
use crate::shape::lemma_push_contains;

verus! {

/// The render queue of one pass. A widget is handed out at most once per
/// pass.
#[derive(Debug)]
pub struct Scheduler {
    queue: Vec<Index>,
    cursor: usize,
    rendered: IndexSet,
}

impl Scheduler {
    /// The widgets that await their render in this pass, in render order.
    pub closed spec fn pending(&self) -> Seq<Index> {
        self.queue@.subrange(self.cursor as int, self.queue@.len() as int)
    }

    /// The widgets that were handed out in this pass.
    pub closed spec fn rendered(&self) -> Set<Index> {
        self.rendered@
    }

    /// The invariant of the queue: no widget waits twice, and none that was
    /// handed out waits again.
    pub closed spec fn wf(&self) -> bool {
        &&& self.cursor <= self.queue@.len()
        &&& self.rendered.wf()
        &&& self.pending().no_duplicates()
        &&& forall|i: int|
            0 <= i < self.pending().len() ==> !self.rendered@.contains(#[trigger] self.pending()[i])
    }

    /// What the invariant says.
    pub proof fn lemma_wf(&self)
        requires
            self.wf(),
        ensures
            self.pending().no_duplicates(),
            forall|x: Index| self.pending().contains(x) ==> !self.rendered().contains(x),
    {
        assert forall|x: Index| self.pending().contains(x) implies !self.rendered().contains(x) by {
            let i = self.pending().index_of(x);
            assert(self.pending()[i] == x);
        }
    }

    /// A queue in which nothing waits and nothing was handed out.
    pub fn new() -> (s: Scheduler)
        ensures
            s.wf(),
            s.pending() == Seq::<Index>::empty(),
            s.rendered() == Set::<Index>::empty(),
    {
        let s = Scheduler { queue: Vec::new(), cursor: 0, rendered: IndexSet::new() };
        assert(s.pending() =~= Seq::<Index>::empty());
        s
    }

    /// Starts a pass in which the widgets of `dirty` wait, in that order: a
    /// widget that `dirty` names more than once waits where it is named
    /// first.
    pub fn begin_pass(&mut self, dirty: Vec<Index>)
        ensures
            final(self).wf(),
            final(self).rendered() == Set::<Index>::empty(),
            forall|x: Index| final(self).pending().contains(x) <==> dirty@.contains(x),
            dirty@.no_duplicates() ==> final(self).pending() == dirty@,
    {
        self.queue = Vec::new();
        self.cursor = 0;
        self.rendered = IndexSet::new();
        assert(self.pending() =~= Seq::<Index>::empty());
        assert(dirty@.subrange(0, 0) =~= Seq::<Index>::empty());
        let mut i: usize = 0;
        while i < dirty.len()
            invariant
                i <= dirty@.len(),
                self.wf(),
                self.rendered() == Set::<Index>::empty(),
                forall|x: Index|
                    self.pending().contains(x) <==> dirty@.subrange(0, i as int).contains(x),
                dirty@.no_duplicates() ==> self.pending() == dirty@.subrange(0, i as int),
            decreases dirty@.len() - i,
        {
            let ghost before = self.pending();
            let ghost seen = dirty@.subrange(0, i as int);
            self.enqueue(dirty[i]);
            proof {
                assert(dirty@.subrange(0, i + 1) =~= seen.push(dirty@[i as int]));
                assert forall|x: Index|
                    self.pending().contains(x) <==> seen.push(dirty@[i as int]).contains(x) by {
                    lemma_push_contains(seen, dirty@[i as int], x);
                    lemma_push_contains(before, dirty@[i as int], x);
                }
                if dirty@.no_duplicates() && seen.contains(dirty@[i as int]) {
                    let j = seen.index_of(dirty@[i as int]);
                    assert(dirty@[j] == dirty@[i as int]);
                }
            }
            i += 1;
        }
        assert(dirty@.subrange(0, dirty@.len() as int) =~= dirty@);
    }

    /// Whether nothing waits.
    pub fn is_idle(&self) -> (r: bool)
        requires
            self.wf(),
        ensures
            r == (self.pending().len() == 0),
    {
        self.cursor == self.queue.len()
    }

    /// Hands out the widget that waits first, if one waits.
    pub fn next(&mut self) -> (r: Option<Index>)
        requires
            old(self).wf(),
        ensures
            final(self).wf(),
            match r {
                Some(id) => {
                    &&& old(self).pending().len() > 0
                    &&& id == old(self).pending()[0]
                    &&& final(self).pending() == old(self).pending().skip(1)
                    &&& final(self).rendered() == old(self).rendered().insert(id)
                    &&& !old(self).rendered().contains(id)
                },
                None => {
                    &&& old(self).pending().len() == 0
                    &&& final(self).pending() == old(self).pending()
                    &&& final(self).rendered() == old(self).rendered()
                },
            },
    {
        if self.cursor == self.queue.len() {
            return None;
        }
        let ghost before = self.pending();
        let id = self.queue[self.cursor];
        self.cursor += 1;
        self.rendered.insert(id);
        proof {
            assert(before[0] == id);
            assert(self.pending() =~= before.skip(1));
            assert forall|i: int| 0 <= i < self.pending().len() implies !self.rendered@.contains(
                #[trigger] self.pending()[i],
            ) by {
                assert(self.pending()[i] == before[i + 1]);
            }
        }
        Some(id)
    }

    /// Lets `id` wait for its render in this pass, behind those that wait
    /// already. Returns `false`, and changes nothing, where `id` was handed
    /// out in this pass; a widget that waits already does not wait twice.
    pub fn enqueue(&mut self, id: Index) -> (queued: bool)
        requires
            old(self).wf(),
        ensures
            final(self).wf(),
            queued == !old(self).rendered().contains(id),
            final(self).rendered() == old(self).rendered(),
            final(self).pending() == (if old(self).rendered().contains(id)
                || old(self).pending().contains(id) {
                old(self).pending()
            } else {
                old(self).pending().push(id)
            }),
    {
        if self.rendered.contains(id) {
            return false;
        }
        let ghost before = self.pending();
        let mut i: usize = self.cursor;
        while i < self.queue.len()
            invariant
                *self == *old(self),
                self.wf(),
                before == self.pending(),
                !self.rendered@.contains(id),
                self.cursor <= i <= self.queue@.len(),
                forall|j: int| self.cursor <= j < i ==> self.queue@[j] != id,
            decreases self.queue@.len() - i,
        {
            if self.queue[i] == id {
                assert(before[i - self.cursor] == id);
                return true;
            }
            i += 1;
        }
        proof {
            if before.contains(id) {
                let j = before.index_of(id);
                assert(self.queue@[self.cursor + j] == id);
            }
        }
        self.queue.push(id);
        proof {
            assert(self.pending() =~= before.push(id));
        }
        true
    }
}

} // verus!
