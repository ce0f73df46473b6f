//! Applying an edit script to the live tree.

use vstd::prelude::*;
use crate::index::Index;
use crate::diff::{EditOp, EditOpView, EditScript};
use crate::props::{PropsView, WidgetView};
use crate::shape::{
    ancestor_at, grafted, is_copy, lemma_copy_frame, lemma_graft_below, lemma_lists_new_extend,
    in_subtree, lemma_in_subtree_lifts, lemma_lists_lost_extend, lemma_pruned_parent,
    lemma_rearranges_insert, lemma_without_at, lists_new, mirrors, pruned, rearranges,
    with_children, with_widget, without, NodeView,
};
use crate::tree::{position_in, TreeError, WidgetTree};

verus! {

/// What applying an edit script did to the tree.
#[derive(Clone, Debug, PartialEq, Eq)]
pub struct MergeOutcome {
    /// Every node that was removed: the removed children and all that lay
    /// below them.
    pub removed: Vec<Index>,
    /// The children whose properties were replaced, in script order.
    pub updated: Vec<Index>,
    /// The root of each inserted subtree, in script order.
    pub roots: Vec<Index>,
    /// Every node that was created: the roots and all that lies below them.
    pub inserted: Vec<Index>,
}

/// The identifiers that the first `n` edits remove, in order.
pub open spec fn removals(ops: Seq<EditOpView>, n: nat) -> Seq<Index>
    decreases n,
{
    if n == 0 {
        Seq::empty()
    } else {
        let rest = removals(ops, (n - 1) as nat);
        match ops[n - 1] {
            EditOpView::Remove { id } => rest.push(id),
            _ => rest,
        }
    }
}

/// The identifiers that the first `n` edits remove or update, in order.
pub open spec fn touched(ops: Seq<EditOpView>, n: nat) -> Seq<Index>
    decreases n,
{
    if n == 0 {
        Seq::empty()
    } else {
        let rest = touched(ops, (n - 1) as nat);
        match ops[n - 1] {
            EditOpView::Remove { id } => rest.push(id),
            EditOpView::Update { id, .. } => rest.push(id),
            _ => rest,
        }
    }
}

/// The identifiers that the first `n` edits update, in order.
pub open spec fn updates(ops: Seq<EditOpView>, n: nat) -> Seq<Index>
    decreases n,
{
    if n == 0 {
        Seq::empty()
    } else {
        let rest = updates(ops, (n - 1) as nat);
        match ops[n - 1] {
            EditOpView::Update { id, .. } => rest.push(id),
            _ => rest,
        }
    }
}

/// The insertions among the first `n` edits, in order: each with its
/// position and the root of the declared subtree.
pub open spec fn insertions(ops: Seq<EditOpView>, n: nat) -> Seq<(int, Index)>
    decreases n,
{
    if n == 0 {
        Seq::empty()
    } else {
        let rest = insertions(ops, (n - 1) as nat);
        match ops[n - 1] {
            EditOpView::Insert { position, root } => rest.push((position, root)),
            _ => rest,
        }
    }
}

/// The tree after the removals and updates among the first `n` edits: each
/// removal prunes a subtree, each update replaces the properties of one
/// widget.
pub open spec fn retired(m: Map<Index, NodeView>, ops: Seq<EditOpView>, n: nat) -> Map<
    Index,
    NodeView,
>
    decreases n,
{
    if n == 0 {
        m
    } else {
        let rest = retired(m, ops, (n - 1) as nat);
        match ops[n - 1] {
            EditOpView::Remove { id } => pruned(rest, id),
            EditOpView::Update { id, tag, props } => with_widget(
                rest,
                id,
                WidgetView { props, ..rest[id].widget },
            ),
            EditOpView::Insert { .. } => rest,
        }
    }
}

/// The properties of the widget `x` after the first `n` edits: those of its
/// last update among them, and `base` where none of them updates it.
pub open spec fn props_after(ops: Seq<EditOpView>, n: nat, x: Index, base: PropsView) -> PropsView
    decreases n,
{
    if n == 0 {
        base
    } else {
        match ops[n - 1] {
            EditOpView::Update { id, tag, props } => if id == x {
                props
            } else {
                props_after(ops, (n - 1) as nat, x, base)
            },
            _ => props_after(ops, (n - 1) as nat, x, base),
        }
    }
}

/// The list `children` after the first `n` of `gone` were taken out of it,
/// one after the other.
pub open spec fn survivors(children: Seq<Index>, gone: Seq<Index>, n: nat) -> Seq<Index>
    decreases n,
{
    if n == 0 {
        children
    } else {
        without(survivors(children, gone, (n - 1) as nat), gone[n - 1])
    }
}

/// The child list `kept` after the first `n` of `inserts` were carried out,
/// one after the other, each placing the matching identifier of `roots` at
/// its position.
pub open spec fn placed(kept: Seq<Index>, inserts: Seq<(int, Index)>, roots: Seq<Index>,
    n: nat) -> Seq<
    Index,
>
    decreases n,
{
    if n == 0 {
        kept
    } else {
        placed(kept, inserts, roots, (n - 1) as nat).insert(inserts[n - 1].0, roots[n - 1])
    }
}

/// Whether `x` lies in the subtree of one of `roots`.
pub open spec fn below_some(m: Map<Index, NodeView>, roots: Seq<Index>, x: Index) -> bool {
    exists|j: int| 0 <= j < roots.len() && in_subtree(m, #[trigger] roots[j], x)
}

/// `after` is `mid` grown by the first `n` edits' insertions, the subtree of
/// each hung below `parent` under the matching identifier of `roots`: each
/// is a copy of the declared subtree, all that is new lies in one of them,
/// and every node of `mid` but `parent` is as it was.
pub open spec fn grown_by(
    mid: Map<Index, NodeView>,
    scratch: Map<Index, NodeView>,
    parent: Index,
    ops: Seq<EditOpView>,
    n: nat,
    after: Map<Index, NodeView>,
    roots: Seq<Index>,
) -> bool {
    let inserts = insertions(ops, n);
    &&& roots.len() == inserts.len()
    &&& mid.contains_key(parent)
    &&& after.contains_key(parent)
    &&& after[parent].widget == mid[parent].widget
    &&& after[parent].parent == mid[parent].parent
    &&& forall|x: Index|
        #[trigger] mid.contains_key(x) && x != parent ==> after.contains_key(x) && after[x]
            == mid[x]
    &&& forall|j: int|
        0 <= j < roots.len() ==> after.contains_key(#[trigger] roots[j]) && after[roots[j]].parent
            == Some(parent) && is_copy(after, scratch, inserts[j].1, roots[j])
    &&& forall|x: Index|
        #[trigger] after.contains_key(x) && !mid.contains_key(x) ==> below_some(after, roots, x)
}

/// `after` is `mid` after all insertions of a script: grown by them, with
/// the children of `parent` in the order that the insertions' positions
/// give.
pub open spec fn grown(
    mid: Map<Index, NodeView>,
    scratch: Map<Index, NodeView>,
    parent: Index,
    ops: Seq<EditOpView>,
    after: Map<Index, NodeView>,
    roots: Seq<Index>,
) -> bool {
    &&& grown_by(mid, scratch, parent, ops, ops.len(), after, roots)
    &&& after[parent].children == placed(
        mid[parent].children,
        insertions(ops, ops.len()),
        roots,
        roots.len(),
    )
}

/// The list that `placed` gives depends only on the insertions and
/// identifiers that it carries out.
pub proof fn lemma_placed_prefix(
    kept: Seq<Index>,
    inserts1: Seq<(int, Index)>,
    roots1: Seq<Index>,
    inserts2: Seq<(int, Index)>,
    roots2: Seq<Index>,
    n: nat,
)
    requires
        forall|i: int| 0 <= i < n ==> inserts1[i] == inserts2[i] && roots1[i] == roots2[i],
    ensures
        placed(kept, inserts1, roots1, n) == placed(kept, inserts2, roots2, n),
    decreases n,
{
    if n > 0 {
        lemma_placed_prefix(kept, inserts1, roots1, inserts2, roots2, (n - 1) as nat);
    }
}

/// A script without insertions, applied to a tree without need of removals
/// or updates, leaves the tree as it is.
pub proof fn lemma_grown_by_nothing(
    mid: Map<Index, NodeView>,
    scratch: Map<Index, NodeView>,
    parent: Index,
    after: Map<Index, NodeView>,
    roots: Seq<Index>,
)
    requires
        grown(mid, scratch, parent, Seq::empty(), after, roots),
    ensures
        after == mid,
        roots.len() == 0,
{
    assert forall|x: Index| after.contains_key(x) implies mid.contains_key(x) by {
        if !mid.contains_key(x) {
            assert(below_some(after, roots, x));
        }
    }
    assert(after =~= mid);
}

/// Whether `now` holds exactly the elements of `before` that are not in
/// `gone`.
pub open spec fn keeps(now: Seq<Index>, before: Seq<Index>, gone: Seq<Index>) -> bool {
    forall|x: Index|
        #![trigger now.contains(x)]
        #![trigger before.contains(x)]
        now.contains(x) <==> before.contains(x) && !gone.contains(x)
}

/// What is wrong with edit `k` of a script for the children of `parent` in
/// `m`, if anything. A removal or an update must name a child of `parent`
/// that no earlier edit removes or updates, and an update must keep the
/// kind of the widget. An insertion must name a node of `scratch` and a
/// position within the list that the removals and the earlier insertions
/// leave.
pub open spec fn op_fault(
    m: Map<Index, NodeView>,
    scratch: Map<Index, NodeView>,
    parent: Index,
    ops: Seq<EditOpView>,
    k: int,
) -> Option<TreeError> {
    match ops[k] {
        EditOpView::Remove { id } => if m[parent].children.contains(id) && !touched(
            ops,
            k as nat,
        ).contains(id) {
            None
        } else {
            Some(TreeError::InvalidIdentifier)
        },
        EditOpView::Update { id, tag, props } => if !(m[parent].children.contains(id) && !touched(
            ops,
            k as nat,
        ).contains(id)) {
            Some(TreeError::InvalidIdentifier)
        } else if m[id].widget.tag != tag {
            Some(TreeError::TypeMismatch)
        } else {
            None
        },
        EditOpView::Insert { position, root } => if scratch.contains_key(root) && 0 <= position
            <= m[parent].children.len() - removals(ops, ops.len()).len() + insertions(
            ops,
            k as nat,
        ).len() {
            None
        } else {
            Some(TreeError::InvalidIdentifier)
        },
    }
}

/// What is wrong with the first faulty edit among the first `n`, if any is
/// faulty.
pub open spec fn script_fault(
    m: Map<Index, NodeView>,
    scratch: Map<Index, NodeView>,
    parent: Index,
    ops: Seq<EditOpView>,
    n: nat,
) -> Option<TreeError>
    decreases n,
{
    if n == 0 {
        None
    } else {
        match script_fault(m, scratch, parent, ops, (n - 1) as nat) {
            Some(e) => Some(e),
            None => op_fault(m, scratch, parent, ops, n - 1),
        }
    }
}

/// In a script without fault, no edit is faulty.
pub proof fn lemma_no_fault(
    m: Map<Index, NodeView>,
    scratch: Map<Index, NodeView>,
    parent: Index,
    ops: Seq<EditOpView>,
    n: nat,
    k: int,
)
    requires
        script_fault(m, scratch, parent, ops, n) is None,
        0 <= k < n,
    ensures
        op_fault(m, scratch, parent, ops, k) is None,
    decreases n,
{
    if k < n - 1 {
        lemma_no_fault(m, scratch, parent, ops, (n - 1) as nat, k);
    }
}

/// A fault found among the first `k` edits is the fault of the whole script.
pub proof fn lemma_fault_persists(
    m: Map<Index, NodeView>,
    scratch: Map<Index, NodeView>,
    parent: Index,
    ops: Seq<EditOpView>,
    k: nat,
    n: nat,
)
    requires
        script_fault(m, scratch, parent, ops, k) is Some,
        k <= n,
    ensures
        script_fault(m, scratch, parent, ops, n) == script_fault(m, scratch, parent, ops, k),
    decreases n,
{
    if k < n {
        lemma_fault_persists(m, scratch, parent, ops, k, (n - 1) as nat);
    }
}

/// What the first `n` edits remove is among what they remove or update.
pub proof fn lemma_removals_touched(ops: Seq<EditOpView>, n: nat)
    ensures
        forall|x: Index| removals(ops, n).contains(x) ==> touched(ops, n).contains(x),
        forall|x: Index| updates(ops, n).contains(x) ==> touched(ops, n).contains(x),
        removals(ops, n).len() <= n,
        insertions(ops, n).len() <= n,
    decreases n,
{
    if n > 0 {
        lemma_removals_touched(ops, (n - 1) as nat);
        let r = removals(ops, (n - 1) as nat);
        let u = updates(ops, (n - 1) as nat);
        let t = touched(ops, (n - 1) as nat);
        assert forall|x: Index| removals(ops, n).contains(x) implies touched(ops, n).contains(
            x,
        ) by {
            let i = removals(ops, n).index_of(x);
            if i < r.len() {
                assert(r[i] == x);
                assert(r.contains(x));
                let j = t.index_of(x);
                assert(touched(ops, n)[j] == x);
            } else {
                assert(touched(ops, n)[t.len() as int] == x);
            }
        }
        assert forall|x: Index| updates(ops, n).contains(x) implies touched(ops, n).contains(x) by {
            let i = updates(ops, n).index_of(x);
            if i < u.len() {
                assert(u[i] == x);
                assert(u.contains(x));
                let j = t.index_of(x);
                assert(touched(ops, n)[j] == x);
            } else {
                assert(touched(ops, n)[t.len() as int] == x);
            }
        }
    }
}

impl WidgetTree {
    fn copy_subtree(
        &mut self,
        scratch: &WidgetTree,
        src: Index,
        parent: Index,
        added: &mut Vec<Index>,
    ) -> (id: Index)
        requires
            old(self).wf(),
            scratch.wf(),
            scratch@.contains_key(src),
            old(self)@.contains_key(parent),
        ensures
            final(self).wf(),
            final(self).root_node() == old(self).root_node(),
            !old(self).issued(id),
            forall|x: Index| old(self).issued(x) ==> final(self).issued(x),
            forall|x: Index|
                #[trigger] final(self)@.contains_key(x) && !old(self)@.contains_key(x) ==>
                    !old(self).issued(x),
            grafted(old(self)@, final(self)@, parent, id),
            is_copy(final(self)@, scratch@, src, id),
            old(added)@.len() <= final(added)@.len(),
            final(added)@.subrange(0, old(added)@.len() as int) == old(added)@,
            lists_new(
                final(added)@.subrange(old(added)@.len() as int, final(added)@.len() as int),
                old(self)@,
                final(self)@,
            ),
        decreases scratch.height_bound() - scratch.depths()[src],
    {
        let ghost t = self@;
        let ghost base = added@.len() as int;
        proof {
            self.lemma_wf();
            scratch.lemma_wf();
        }
        let node = scratch.get(src).unwrap();
        let widget = node.widget.duplicate();
        let id = self.insert(Some(parent), widget).unwrap();
        added.push(id);
        proof {
            assert(ancestor_at(self@, id, 0) == Some(id));
            assert(added@.subrange(base, added@.len() as int) =~= seq![id]);
            assert(seq![id][0] == id);
            assert(parent != id);
        }
        let n = node.children.len();
        let mut i: usize = 0;
        while i < n
            invariant
                i <= n,
                n == scratch@[src].children.len(),
                node@ == scratch@[src],
                scratch.wf(),
                scratch@.contains_key(src),
                self.wf(),
                self.root_node() == old(self).root_node(),
                t == old(self)@,
                parent != id,
                !old(self).issued(id),
                forall|x: Index| old(self).issued(x) ==> self.issued(x),
                forall|x: Index|
                    #[trigger] self@.contains_key(x) && !t.contains_key(x) ==> !old(self).issued(x),
                grafted(t, self@, parent, id),
                self@[id].widget == scratch@[src].widget,
                self@[id].children.len() == i,
                forall|j: int|
                    0 <= j < i ==> is_copy(
                        self@,
                        scratch@,
                        #[trigger] scratch@[src].children[j],
                        self@[id].children[j],
                    ),
                base == old(added)@.len(),
                base <= added@.len(),
                added@.subrange(0, base) == old(added)@,
                lists_new(added@.subrange(base, added@.len() as int), t, self@),
            decreases n - i,
        {
            let child = node.children[i];
            let ghost s = self@;
            let ghost depth = self.depths();
            let ghost bound = self.height_bound();
            let ghost mid = added@;
            proof {
                self.lemma_wf();
                scratch.lemma_wf();
                assert(scratch@.contains_key(scratch@[src].children[i as int]));
            }
            let copy = self.copy_subtree(scratch, child, id, added);
            proof {
                let s2 = self@;
                lemma_graft_below(t, s, s2, parent, id, copy);
                assert forall|j: int| 0 <= j < i + 1 implies is_copy(
                    s2,
                    scratch@,
                    #[trigger] scratch@[src].children[j],
                    s2[id].children[j],
                ) by {
                    if j < i {
                        let dst = s[id].children[j];
                        assert(s.contains_key(dst) && s[dst].parent == Some(id));
                        lemma_copy_frame(
                            s,
                            s2,
                            depth,
                            bound,
                            depth[id],
                            scratch@,
                            scratch@[src].children[j],
                            dst,
                        );
                    }
                }
                let a = mid.subrange(base, mid.len() as int);
                let b = added@.subrange(mid.len() as int, added@.len() as int);
                assert(added@.subrange(0, mid.len() as int) == mid);
                assert(added@.subrange(0, base) =~= mid.subrange(0, base));
                assert(added@.subrange(base, added@.len() as int) =~= a + b) by {
                    assert forall|k: int| 0 <= k < a.len() implies added@[base + k] == a[k] by {
                        assert(added@.subrange(0, mid.len() as int)[base + k] == mid[base + k]);
                    }
                }
                lemma_lists_new_extend(a, b, t, s, s2);
            }
            i += 1;
        }
        proof {
            assert forall|h: nat| mirrors(self@, scratch@, src, id, h) by {
                if h > 0 {
                    assert forall|j: int| 0 <= j < scratch@[src].children.len() implies mirrors(
                        self@,
                        scratch@,
                        #[trigger] scratch@[src].children[j],
                        self@[id].children[j],
                        (h - 1) as nat,
                    ) by {
                        assert(is_copy(
                            self@,
                            scratch@,
                            scratch@[src].children[j],
                            self@[id].children[j],
                        ));
                    }
                }
            }
        }
        id
    }

    /// Looks for the first faulty edit of `changes`, a script for the
    /// children of `parent`, and fails with its fault; fails with
    /// `InvalidIdentifier` when `parent` names no node.
    pub fn check_script(&self, scratch: &WidgetTree, parent: Index, changes: &EditScript) -> (r:
        Result<(), TreeError>)
        requires
            self.wf(),
            scratch.wf(),
        ensures
            r is Ok <==> self@.contains_key(parent) && script_fault(
                self@,
                scratch@,
                parent,
                changes@,
                changes@.len(),
            ) is None,
            r matches Err(e) ==> (if self@.contains_key(parent) {
                script_fault(self@, scratch@, parent, changes@, changes@.len()) == Some(e)
            } else {
                e == TreeError::InvalidIdentifier
            }),
    {
        if !self.contains(parent) {
            return Err(TreeError::InvalidIdentifier);
        }
        let ghost ops = changes@;
        let ghost m = self@;
        let children = &self.get(parent).unwrap().children;
        let mut removes: usize = 0;
        let mut c: usize = 0;
        while c < changes.ops.len()
            invariant
                c <= changes.ops@.len(),
                ops == changes@,
                removes == removals(ops, c as nat).len(),
                removes <= c,
            decreases changes.ops@.len() - c,
        {
            match &changes.ops[c] {
                EditOp::Remove { .. } => {
                    removes += 1;
                },
                _ => {},
            }
            c += 1;
        }
        let mut seen: Vec<Index> = Vec::new();
        let mut inserts: usize = 0;
        let mut k: usize = 0;
        while k < changes.ops.len()
            invariant
                k <= changes.ops@.len(),
                ops == changes@,
                m == self@,
                self.wf(),
                self@.contains_key(parent),
                children@ == m[parent].children,
                removes == removals(ops, ops.len()).len(),
                seen@ == touched(ops, k as nat),
                inserts == insertions(ops, k as nat).len(),
                inserts <= k,
                script_fault(m, scratch@, parent, ops, k as nat) is None,
            decreases changes.ops@.len() - k,
        {
            let mut fault: Option<TreeError> = None;
            match &changes.ops[k] {
                EditOp::Remove { id } => {
                    if position_in(children, *id) == children.len() || position_in(&seen, *id)
                        != seen.len() {
                        fault = Some(TreeError::InvalidIdentifier);
                    } else {
                        seen.push(*id);
                    }
                },
                EditOp::Update { id, tag, props } => {
                    if position_in(children, *id) == children.len() || position_in(&seen, *id)
                        != seen.len() {
                        fault = Some(TreeError::InvalidIdentifier);
                    } else {
                        proof {
                            self.lemma_wf();
                            let at = m[parent].children.index_of(*id);
                            assert(m.contains_key(m[parent].children[at]));
                        }
                        if self.get(*id).unwrap().widget.tag != *tag {
                            fault = Some(TreeError::TypeMismatch);
                        } else {
                            seen.push(*id);
                        }
                    }
                },
                EditOp::Insert { position, root } => {
                    if !scratch.contains(*root) {
                        fault = Some(TreeError::InvalidIdentifier);
                    } else if (*position as u128) + (removes as u128) > (children.len() as u128)
                        + (inserts as u128) {
                        fault = Some(TreeError::InvalidIdentifier);
                    } else {
                        inserts += 1;
                    }
                },
            }
            assert(fault == op_fault(m, scratch@, parent, ops, k as int));
            if let Some(e) = fault {
                proof {
                    lemma_fault_persists(m, scratch@, parent, ops, (k + 1) as nat, ops.len());
                }
                return Err(e);
            }
            k += 1;
        }
        Ok(())
    }

    fn retire_all(
        &mut self,
        scratch: &WidgetTree,
        parent: Index,
        changes: &EditScript,
        removed: &mut Vec<Index>,
        updated: &mut Vec<Index>,
    )
        requires
            old(self).wf(),
            old(self)@.contains_key(parent),
            script_fault(old(self)@, scratch@, parent, changes@, changes@.len()) is None,
            old(removed)@.len() == 0,
            old(updated)@.len() == 0,
        ensures
            final(self).wf(),
            final(self).root_node() == old(self).root_node(),
            forall|x: Index| final(self).issued(x) <==> old(self).issued(x),
            final(self)@ == retired(old(self)@, changes@, changes@.len()),
            final(self)@.contains_key(parent),
            final(self)@[parent].children.len() == old(self)@[parent].children.len() - removals(
                changes@,
                changes@.len(),
            ).len(),
            forall|x: Index| #[trigger] final(self)@.contains_key(x) ==> old(self)@.contains_key(x),
            lists_new(final(removed)@, final(self)@, old(self)@),
            final(updated)@ == updates(changes@, changes@.len()),
    {
        let ghost m = self@;
        let ghost ops = changes@;
        let mut k: usize = 0;
        while k < changes.ops.len()
            invariant
                k <= changes.ops@.len(),
                ops == changes@,
                m == old(self)@,
                self.wf(),
                self.root_node() == old(self).root_node(),
                forall|x: Index| self.issued(x) <==> old(self).issued(x),
                script_fault(m, scratch@, parent, ops, ops.len()) is None,
                self@ == retired(m, ops, k as nat),
                self@.contains_key(parent),
                m.contains_key(parent),
                keeps(self@[parent].children, m[parent].children, removals(ops, k as nat)),
                self@[parent].children.len() == m[parent].children.len() - removals(
                    ops,
                    k as nat,
                ).len(),
                forall|x: Index| #[trigger] self@.contains_key(x) ==> m.contains_key(x),
                lists_new(removed@, self@, m),
                updated@ == updates(ops, k as nat),
            decreases changes.ops@.len() - k,
        {
            let ghost s = self@;
            proof {
                self.lemma_wf();
                lemma_no_fault(m, scratch@, parent, ops, ops.len(), k as int);
                lemma_removals_touched(ops, k as nat);
            }
            match &changes.ops[k] {
                EditOp::Remove { id } => {
                    proof {
                        assert(s[parent].children.contains(*id));
                        let at = s[parent].children.index_of(*id);
                        assert(s.contains_key(s[parent].children[at]));
                        lemma_pruned_parent(s, self.depths(), self.height_bound(), *id);
                        lemma_without_at(s[parent].children, at);
                    }
                    let mut gone = self.remove(*id).unwrap();
                    let ghost gone_list = gone@;
                    let ghost removed_list = removed@;
                    removed.append(&mut gone);
                    proof {
                        let s2 = self@;
                        lemma_lists_lost_extend(removed_list, gone_list, m, s, s2);
                        let r = removals(ops, k as nat);
                        assert(removals(ops, (k + 1) as nat) == r.push(*id));
                        assert forall|x: Index|
                            #![trigger s2[parent].children.contains(x)]
                            #![trigger m[parent].children.contains(x)]
                            s2[parent].children.contains(x) <==> m[parent].children.contains(x)
                                && !r.push(*id).contains(x) by {
                            assert(s[parent].children.contains(x) <==> m[parent].children.contains(
                                x,
                            ) && !r.contains(x));
                            if r.push(*id).contains(x) && x != *id {
                                let i = r.push(*id).index_of(x);
                                assert(r[i] == x);
                            }
                            if r.contains(x) {
                                let i = r.index_of(x);
                                assert(r.push(*id)[i] == x);
                            }
                            assert(r.push(*id)[r.len() as int] == *id);
                        }
                    }
                },
                EditOp::Update { id, tag, props } => {
                    proof {
                        assert(s[parent].children.contains(*id));
                        let at = s[parent].children.index_of(*id);
                        assert(s.contains_key(s[parent].children[at]));
                    }
                    self.set_props(*id, props.duplicate()).unwrap();
                    updated.push(*id);
                    proof {
                        assert(forall|x: Index| self@.contains_key(x) <==> s.contains_key(x));
                        assert(removals(ops, (k + 1) as nat) == removals(ops, k as nat));
                        assert(self@[parent].children == s[parent].children);
                    }
                },
                EditOp::Insert { .. } => {
                    proof {
                        assert(removals(ops, (k + 1) as nat) == removals(ops, k as nat));
                    }
                },
            }
            k += 1;
        }
    }

    fn insert_all(
        &mut self,
        scratch: &WidgetTree,
        parent: Index,
        changes: &EditScript,
        roots: &mut Vec<Index>,
        inserted: &mut Vec<Index>,
    )
        requires
            old(self).wf(),
            scratch.wf(),
            old(self)@.contains_key(parent),
            old(roots)@.len() == 0,
            old(inserted)@.len() == 0,
            forall|k: int|
                0 <= k < changes@.len() ==> (#[trigger] changes@[k] matches EditOpView::Insert {
                    position,
                    root,
                } ==> scratch@.contains_key(root)
                    && 0 <= position <= old(self)@[parent].children.len() + insertions(changes@,
                        k as nat).len()),
        ensures
            final(self).wf(),
            final(self).root_node() == old(self).root_node(),
            forall|x: Index| old(self).issued(x) ==> final(self).issued(x),
            forall|x: Index|
                #[trigger] final(self)@.contains_key(x) && !old(self)@.contains_key(x) ==>
                    !old(self).issued(x),
            grown(old(self)@, scratch@, parent, changes@, final(self)@, final(roots)@),
            lists_new(final(inserted)@, old(self)@, final(self)@),
    {
        let ghost mid = self@;
        let ghost ops = changes@;
        proof {
            self.lemma_wf();
        }
        let mut order: Vec<Index> = Vec::new();
        let kids = &self.get(parent).unwrap().children;
        let mut c: usize = 0;
        while c < kids.len()
            invariant
                c <= kids@.len(),
                order@ == kids@.subrange(0, c as int),
            decreases kids@.len() - c,
        {
            order.push(kids[c]);
            assert(order@ =~= kids@.subrange(0, c + 1));
            c += 1;
        }
        assert(order@ =~= mid[parent].children);
        let mut k: usize = 0;
        while k < changes.ops.len()
            invariant
                k <= changes.ops@.len(),
                ops == changes@,
                mid == old(self)@,
                scratch.wf(),
                self.wf(),
                self.root_node() == old(self).root_node(),
                forall|x: Index| old(self).issued(x) ==> self.issued(x),
                forall|x: Index|
                    #[trigger] self@.contains_key(x) && !mid.contains_key(x) ==> !old(self).issued(
                        x,
                    ),
                forall|x: Index| #[trigger] mid.contains_key(x) ==> self@.contains_key(x),
                forall|i: int|
                    0 <= i < ops.len() ==> (#[trigger] ops[i] matches EditOpView::Insert {
                        position,
                        root,
                    } ==> scratch@.contains_key(root) && 0 <= position
                        <= mid[parent].children.len() + insertions(ops, i as nat).len()),
                grown_by(mid, scratch@, parent, ops, k as nat, self@, roots@),
                order@ == placed(
                    mid[parent].children,
                    insertions(ops, k as nat),
                    roots@,
                    roots@.len(),
                ),
                order@.len() == mid[parent].children.len() + roots@.len(),
                rearranges(order@, self@[parent].children),
                lists_new(inserted@, mid, self@),
            decreases changes.ops@.len() - k,
        {
            match &changes.ops[k] {
                EditOp::Insert { position, root } => {
                    let ghost s = self@;
                    let ghost depth = self.depths();
                    let ghost bound = self.height_bound();
                    let ghost before_roots = roots@;
                    let ghost before_order = order@;
                    let ghost before_inserted = inserted@;
                    let ghost ins = insertions(ops, k as nat);
                    proof {
                        self.lemma_wf();
                        assert(ops[k as int] == changes.ops[k as int]@);
                    }
                    let mut fresh: Vec<Index> = Vec::new();
                    let id = self.copy_subtree(scratch, *root, parent, &mut fresh);
                    let ghost fresh_list = fresh@;
                    inserted.append(&mut fresh);
                    roots.push(id);
                    order.insert(*position, id);
                    proof {
                        let s2 = self@;
                        let ins2 = insertions(ops, (k + 1) as nat);
                        assert(ins2 == ins.push((*position as int, *root)));
                        assert(fresh_list.subrange(0, fresh_list.len() as int) =~= fresh_list);
                        assert forall|x: Index| #[trigger] mid.contains_key(x) implies
                            s.contains_key(x) by {}
                        assert forall|x: Index| #[trigger] s.contains_key(x) implies
                            s2.contains_key(x) by {}
                        lemma_lists_new_extend(before_inserted, fresh_list, mid, s, s2);
                        lemma_placed_prefix(
                            mid[parent].children,
                            ins,
                            before_roots,
                            ins2,
                            roots@,
                            before_roots.len(),
                        );
                        assert(!s[parent].children.contains(id)) by {
                            if s[parent].children.contains(id) {
                                let at = s[parent].children.index_of(id);
                                assert(s.contains_key(s[parent].children[at]));
                            }
                        }
                        lemma_rearranges_insert(
                            before_order,
                            s[parent].children,
                            *position as int,
                            id,
                        );
                        assert forall|n: Index| #[trigger] s.contains_key(n) implies
                            s2.contains_key(n)
                            && s2[n].parent == s[n].parent by {}
                        assert forall|j: int| 0 <= j < roots@.len() implies s2.contains_key(
                            #[trigger] roots@[j],
                        ) && s2[roots@[j]].parent == Some(parent) && is_copy(
                            s2,
                            scratch@,
                            ins2[j].1,
                            roots@[j],
                        ) by {
                            if j < before_roots.len() {
                                let dst = before_roots[j];
                                assert(s.contains_key(dst) && s[dst].parent == Some(parent));
                                assert(dst != parent);
                                lemma_copy_frame(
                                    s,
                                    s2,
                                    depth,
                                    bound,
                                    depth[parent],
                                    scratch@,
                                    ins[j].1,
                                    dst,
                                );
                            }
                        }
                        assert forall|x: Index|
                            #[trigger] s2.contains_key(x) && !mid.contains_key(x) implies
                                below_some(
                            s2,
                            roots@,
                            x,
                        ) by {
                            if s.contains_key(x) {
                                let j = choose|j: int|
                                    0 <= j < before_roots.len() && in_subtree(
                                        s,
                                        #[trigger] before_roots[j],
                                        x,
                                    );
                                lemma_in_subtree_lifts(s, s2, before_roots[j], x);
                                assert(roots@[j] == before_roots[j]);
                            } else {
                                assert(roots@[before_roots.len() as int] == id);
                            }
                        }
                    }
                },
                _ => {
                    proof {
                        assert(ops[k as int] == changes.ops[k as int]@);
                        assert(insertions(ops, (k + 1) as nat) == insertions(ops, k as nat));
                    }
                },
            }
            k += 1;
        }
        let ghost s = self@;
        let ghost depth = self.depths();
        let ghost bound = self.height_bound();
        let ghost final_order = order@;
        proof {
            self.lemma_wf();
        }
        let done = self.set_children(parent, order);
        proof {
            let f = self@;
            let ins = insertions(ops, ops.len());
            assert(f == with_children(s, parent, final_order));
            assert forall|n: Index| #[trigger] s.contains_key(n) implies f.contains_key(n)
                && f[n].parent == s[n].parent by {}
            assert forall|j: int| 0 <= j < roots@.len() implies f.contains_key(#[trigger] roots@[j])
                && f[roots@[j]].parent == Some(parent)
                    && is_copy(f, scratch@, ins[j].1, roots@[j]) by {
                let dst = roots@[j];
                assert(s.contains_key(dst) && s[dst].parent == Some(parent));
                assert(dst != parent);
                lemma_copy_frame(s, f, depth, bound, depth[parent], scratch@, ins[j].1, dst);
            }
            assert forall|x: Index| #[trigger] f.contains_key(x) && !mid.contains_key(x) implies
                below_some(
                f,
                roots@,
                x,
            ) by {
                assert(s.contains_key(x));
                let j = choose|j: int|
                    0 <= j < roots@.len() && in_subtree(s, #[trigger] roots@[j], x);
                lemma_in_subtree_lifts(s, f, roots@[j], x);
            }
            assert(lists_new(inserted@, mid, f)) by {
                assert(forall|x: Index| f.contains_key(x) <==> s.contains_key(x));
            }
        }
    }

    /// Applies the script `changes` to the children of `parent`: carries out
    /// its removals and updates, then hangs a copy of each declared subtree
    /// of `scratch` that it inserts below `parent`, and lists the children of
    /// `parent` in the order that the insertions' positions give.
    ///
    /// A script with a faulty edit is refused as a whole: the call fails with
    /// the fault of its first faulty edit, and with `InvalidIdentifier` when
    /// `parent` names no node or the script was made for another parent. A
    /// call that fails changes nothing.
    pub fn merge(&mut self, scratch: &WidgetTree, parent: Index, changes: EditScript) -> (r: Result<
        MergeOutcome,
        TreeError,
    >)
        requires
            old(self).wf(),
            scratch.wf(),
        ensures
            final(self).wf(),
            final(self).root_node() == old(self).root_node(),
            forall|x: Index| old(self).issued(x) ==> final(self).issued(x),
            match r {
                Ok(outcome) => {
                    let mid = retired(old(self)@, changes@, changes@.len());
                    &&& changes.parent == parent
                    &&& old(self)@.contains_key(parent)
                    &&& script_fault(old(self)@, scratch@, parent, changes@, changes@.len())
                        is None
                    &&& grown(mid, scratch@, parent, changes@, final(self)@, outcome.roots@)
                    &&& lists_new(outcome.removed@, mid, old(self)@)
                    &&& outcome.updated@ == updates(changes@, changes@.len())
                    &&& lists_new(outcome.inserted@, mid, final(self)@)
                    &&& forall|x: Index| outcome.inserted@.contains(x) ==> !old(self).issued(x)
                },
                Err(e) => {
                    &&& *final(self) == *old(self)
                    &&& if changes.parent != parent || !old(self)@.contains_key(parent) {
                        e == TreeError::InvalidIdentifier
                    } else {
                        script_fault(old(self)@, scratch@, parent, changes@, changes@.len())
                            == Some(e)
                    }
                },
            },
    {
        if changes.parent != parent || !self.contains(parent) {
            return Err(TreeError::InvalidIdentifier);
        }
        match self.check_script(scratch, parent, &changes) {
            Err(e) => {
                return Err(e);
            },
            Ok(()) => {},
        }
        let ghost m = self@;
        let ghost ops = changes@;
        let mut removed: Vec<Index> = Vec::new();
        let mut updated: Vec<Index> = Vec::new();
        self.retire_all(scratch, parent, &changes, &mut removed, &mut updated);
        proof {
            assert forall|k: int| 0 <= k < ops.len() implies
                (#[trigger] ops[k] matches EditOpView::Insert {
                position,
                root,
            } ==> scratch@.contains_key(root) && 0 <= position <= self@[parent].children.len()
                + insertions(ops, k as nat).len()) by {
                lemma_no_fault(m, scratch@, parent, ops, ops.len(), k);
            }
        }
        let mut roots: Vec<Index> = Vec::new();
        let mut inserted: Vec<Index> = Vec::new();
        self.insert_all(scratch, parent, &changes, &mut roots, &mut inserted);
        Ok(MergeOutcome { removed, updated, roots, inserted })
    }
}

} // verus!
