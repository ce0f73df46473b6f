//! The context of an application: its live tree, its bindings and the
//! render pass in progress.

use vstd::prelude::*;
use crate::binding::{BindingId, BindingRegistry};
use crate::converge::{
    kept_outside, lemma_converged, lemma_copy_renders, lemma_diff_applies, lemma_merge_frame,
    lemma_outside_stays, lemma_renders_frame, lemma_retired, lemma_siblings_apart, merged_ids,
    renders, shows_at,
};
use crate::diff::{declared, declared_under, diff_spec, snapshots_of, EditOpView};
use crate::event::{Event, EventType};
use crate::idset::lemma_ascending_no_duplicates;
use crate::index::Index;
use crate::merge::{grown, lemma_grown_by_nothing, retired, updates, MergeOutcome};
use crate::props::WidgetData;
use crate::schedule::Scheduler;
use crate::shape::{
    ancestor_at, in_subtree, lemma_child_differs, lemma_concat_contains, lemma_push_contains,
    lemma_in_subtree_unfold, lemma_subtree_depth, lists_new, pruned, with_child, NodeView,
};
use crate::tree::position_in;
use crate::tree::{TreeError, WidgetNode, WidgetTree};

verus! {

/// The owner of the live tree.
pub struct WidgetManager {
    pub(crate) tree: WidgetTree,
}

/// The context of an application.
pub struct KayakContext {
    pub(crate) widget_manager: WidgetManager,
    pub(crate) bindings: BindingRegistry<Index>,
    pub(crate) scheduler: Scheduler,
    pub(crate) last_clicked: BindingId,
}

/// The queue and the dirty set after the first `n` of `ids` were asked to
/// render: a widget that was handed out in this pass is marked dirty, for
/// the next pass; any other widget waits in this pass, once.
pub open spec fn after_schedule(
    pending: Seq<Index>,
    rendered: Set<Index>,
    dirty: Set<Index>,
    ids: Seq<Index>,
    n: nat,
) -> (Seq<Index>, Set<Index>)
    decreases n,
{
    if n == 0 {
        (pending, dirty)
    } else {
        let (p, d) = after_schedule(pending, rendered, dirty, ids, (n - 1) as nat);
        let id = ids[n - 1];
        if rendered.contains(id) {
            (p, d.insert(id))
        } else if p.contains(id) {
            (p, d)
        } else {
            (p.push(id), d)
        }
    }
}

/// Asking for the renders of `a` and then for those of `b` is asking for the
/// renders of `a + b`.
pub proof fn lemma_after_schedule_concat(
    pending: Seq<Index>,
    rendered: Set<Index>,
    dirty: Set<Index>,
    a: Seq<Index>,
    b: Seq<Index>,
    n: nat,
)
    requires
        n <= b.len(),
    ensures
        after_schedule(pending, rendered, dirty, a + b, a.len() + n) == ({
            let (p, d) = after_schedule(pending, rendered, dirty, a, a.len());
            after_schedule(p, rendered, d, b, n)
        }),
    decreases a.len() + n,
{
    if n > 0 {
        lemma_after_schedule_concat(pending, rendered, dirty, a, b, (n - 1) as nat);
        assert((a + b)[a.len() + n - 1] == b[n - 1]);
    } else {
        lemma_after_schedule_prefix(pending, rendered, dirty, a, a + b, a.len());
    }
}

/// What the first `n` requests bring about depends on those requests only.
pub proof fn lemma_after_schedule_prefix(
    pending: Seq<Index>,
    rendered: Set<Index>,
    dirty: Set<Index>,
    a: Seq<Index>,
    b: Seq<Index>,
    n: nat,
)
    requires
        n <= a.len(),
        n <= b.len(),
        forall|i: int| 0 <= i < n ==> a[i] == b[i],
    ensures
        after_schedule(pending, rendered, dirty, a, n) == after_schedule(
            pending,
            rendered,
            dirty,
            b,
            n,
        ),
    decreases n,
{
    if n > 0 {
        lemma_after_schedule_prefix(pending, rendered, dirty, a, b, (n - 1) as nat);
    }
}

/// Whether the target of `event` is a node of `tree` whose handler acts on
/// events of this category.
pub open spec fn handler_accepts(tree: Map<Index, NodeView>, event: Event) -> bool {
    &&& tree.contains_key(event.target)
    &&& tree[event.target].widget.props.on_event is Some
    &&& tree[event.target].widget.props.on_event.unwrap().on == event.event_type
}

/// Whether the handler that `event` calls runs: it has a widget to write.
pub open spec fn handler_runs(tree: Map<Index, NodeView>, event: Event) -> bool {
    handler_accepts(tree, event) && tree[event.target].widget.props.on_event.unwrap().value is Some
}

/// Whether the handler that `event` calls fails: it has no widget to write.
pub open spec fn handler_fails(tree: Map<Index, NodeView>, event: Event) -> bool {
    handler_accepts(tree, event) && tree[event.target].widget.props.on_event.unwrap().value is None
}

/// Whether `after` is `before` after `value` was written to `b`, where
/// `happens` holds, and `before` itself where it does not. A write to a
/// binding gives it the value and marks its subscribers dirty; a write to
/// what is no binding changes nothing.
pub open spec fn written(
    before: &BindingRegistry<Index>,
    after: &BindingRegistry<Index>,
    happens: bool,
    b: BindingId,
    value: Index,
) -> bool {
    if happens && before.has(b) {
        &&& after.count() == before.count()
        &&& after.keeps_cells_but(before, b)
        &&& after.value(b) == value
        &&& after.subscribers(b) == before.subscribers(b)
        &&& after.dirty() == before.dirty().union(before.subscribers(b))
    } else {
        &&& after.count() == before.count()
        &&& after.keeps_cells(before)
        &&& after.dirty() == before.dirty()
    }
}

/// Whether `after` is `before` after the declarations `decl` of the scratch
/// tree `scratch` were rendered into the children of `parent`, with
/// `outcome` as the record of it. The edits are those that the comparison of
/// the two child lists gives. The live tree has lost what they remove, holds
/// the new properties of what they update, and holds a copy of each subtree
/// that they insert; nothing changes outside the subtree of `parent`, and
/// `parent` keeps its widget; the children of `parent` stand in the order of the
/// declarations, each position with the child it had where that child is
/// kept, and a second comparison would find nothing to do; the removed
/// widgets have lost their subscriptions; and the updated and the created
/// widgets were asked to render.
pub open spec fn reconciled(
    before: &KayakContext,
    after: &KayakContext,
    parent: Index,
    scratch: Map<Index, NodeView>,
    decl: Seq<Index>,
    outcome: &MergeOutcome,
) -> bool {
    let tree = before.live_tree()@;
    let ops = diff_spec(snapshots_of(tree, tree[parent].children), snapshots_of(scratch, decl));
    let mid = retired(tree, ops, ops.len());
    &&& tree.contains_key(parent)
    &&& kept_outside(tree, after.live_tree()@, parent)
    &&& forall|i: int|
        0 <= i < decl.len() ==>
            #[trigger] shows_at(mid, after.live_tree()@, scratch, decl, parent, i)
    &&& forall|x: Index| #[trigger] mid.contains_key(x) ==> tree.contains_key(x)
    &&& forall|x: Index|
        #[trigger] before.live_tree().issued(x) ==> after.live_tree().issued(x)
    &&& grown(mid, scratch, parent, ops, after.live_tree()@, outcome.roots@)
    &&& after.live_tree()@[parent].children == merged_ids(
        snapshots_of(tree, tree[parent].children),
        snapshots_of(scratch, decl),
        outcome.roots@,
        decl.len(),
    )
    &&& diff_spec(
        snapshots_of(
            after.live_tree()@,
            after.live_tree()@[parent].children,
        ),
        snapshots_of(scratch, decl),
    ) == Seq::<EditOpView>::empty()
    &&& lists_new(outcome.removed@, mid, tree)
    &&& outcome.updated@ == updates(ops, ops.len())
    &&& lists_new(outcome.inserted@, mid, after.live_tree()@)
    &&& forall|x: Index| outcome.inserted@.contains(x) ==> !before.live_tree().issued(x)
    &&& after.registry().dropped(&before.registry(), outcome.removed@.to_set())
    &&& asked(before, after, names(outcome.updated@, outcome.inserted@))
    &&& after.pass().rendered() == before.pass().rendered()
    &&& (after.pass().pending(), after.registry().dirty()) == after_schedule(
        before.pass().pending(),
        before.pass().rendered(),
        before.registry().dirty(),
        outcome.updated@ + outcome.inserted@,
        (outcome.updated@ + outcome.inserted@).len(),
    )
}

/// Whether `after` is `before`, unchanged, and `e` says why nothing was
/// rendered into the children of `parent`: `parent` names no node.
pub open spec fn refused(
    before: &KayakContext,
    after: &KayakContext,
    parent: Index,
    e: TreeError,
) -> bool {
    &&& !before.live_tree()@.contains_key(parent)
    &&& e == TreeError::InvalidIdentifier
    &&& after.live_tree()@ == before.live_tree()@
    &&& after.same_bindings(before)
    &&& after.same_pass(before)
}

/// No binding has a subscriber outside the live tree after its bindings
/// lost at most the subscribers `gone` and its tree lost at most the nodes
/// `gone`.
pub proof fn lemma_subscribers_live(before: &KayakContext, after: &KayakContext, gone: Set<Index>)
    requires
        before.dangling_within(Set::empty()),
        after.registry().count() == before.registry().count(),
        forall|o: BindingId|
            before.registry().has(o) ==> (#[trigger] after.registry().subscribers(o)).subset_of(
                before.registry().subscribers(o).difference(gone),
            ),
        forall|w: Index|
            #[trigger] before.live_tree()@.contains_key(w) && !gone.contains(w)
                ==> after.live_tree()@.contains_key(w),
    ensures
        after.dangling_within(Set::empty()),
{
    assert forall|b: BindingId, w: Index|
        after.registry().has(b) && #[trigger] after.registry().subscribers(b).contains(
            w,
        ) implies after.live_tree()@.contains_key(w) by {
        assert(before.registry().has(b));
        assert(before.registry().subscribers(b).difference(gone).contains(w));
        assert(before.registry().subscribers(b).contains(w));
        assert(before.live_tree()@.contains_key(w));
    }
}

/// Whether `after` is `before`: the same tree, the same bindings, the same
/// pass.
pub open spec fn unchanged(before: &KayakContext, after: &KayakContext) -> bool {
    &&& after.live_tree()@ == before.live_tree()@
    &&& after.same_bindings(before)
    &&& after.same_pass(before)
}

/// The widgets that `a` or `b` names.
pub open spec fn names(a: Seq<Index>, b: Seq<Index>) -> Set<Index> {
    Set::new(|x: Index| a.contains(x) || b.contains(x))
}

/// Whether queue and dirty set of `after` are those of `before` after the
/// widgets `ids` were asked to render: those of them that were handed out
/// in this pass are dirty, for the next pass, and the others wait in this
/// pass, behind the widgets that waited already. No other widget waits or
/// is dirty that did not or was not before.
pub open spec fn asked(before: &KayakContext, after: &KayakContext, ids: Set<Index>) -> bool {
    let handed = before.pass().rendered();
    &&& after.pass().rendered() == handed
    &&& before.pass().pending().is_prefix_of(after.pass().pending())
    &&& forall|x: Index|
        #![trigger after.pass().pending().contains(x)]
        after.pass().pending().contains(x) <==> before.pass().pending().contains(x) || (
        ids.contains(x) && !handed.contains(x))
    &&& forall|x: Index|
        #![trigger after.registry().dirty().contains(x)]
        after.registry().dirty().contains(x) <==> before.registry().dirty().contains(x) || (
        ids.contains(x) && handed.contains(x))
}

/// Asking for the renders of `first` and then for those of `second` is
/// asking for the renders of both.
pub proof fn lemma_asked_chain(
    a: &KayakContext,
    b: &KayakContext,
    c: &KayakContext,
    first: Set<Index>,
    second: Set<Index>,
)
    requires
        asked(a, b, first),
        asked(b, c, second),
    ensures
        asked(a, c, first.union(second)),
{
    lemma_prefix_chain(a.pass().pending(), b.pass().pending(), c.pass().pending());
    let handed = a.pass().rendered();
    assert forall|x: Index|
        #![trigger c.pass().pending().contains(x)]
        c.pass().pending().contains(x) <==> a.pass().pending().contains(x) || (first.union(
            second,
        ).contains(x) && !handed.contains(x)) by {
        assert(b.pass().pending().contains(x) <==> a.pass().pending().contains(x) || (
        first.contains(x) && !handed.contains(x)));
    }
    assert forall|x: Index|
        #![trigger c.registry().dirty().contains(x)]
        c.registry().dirty().contains(x) <==> a.registry().dirty().contains(x) || (first.union(
            second,
        ).contains(x) && handed.contains(x)) by {
        assert(b.registry().dirty().contains(x) <==> a.registry().dirty().contains(x) || (
        first.contains(x) && handed.contains(x)));
    }
}

/// Which widgets wait and which are dirty after the first `n` of `ids` were
/// asked to render.
pub proof fn lemma_after_schedule_asks(
    pending: Seq<Index>,
    rendered: Set<Index>,
    dirty: Set<Index>,
    ids: Seq<Index>,
    n: nat,
)
    requires
        n <= ids.len(),
    ensures
        forall|x: Index|
            after_schedule(pending, rendered, dirty, ids, n).0.contains(x) <==> pending.contains(x)
                || (ids.subrange(0, n as int).contains(x) && !rendered.contains(x)),
        forall|x: Index|
            after_schedule(pending, rendered, dirty, ids, n).1.contains(x) <==> dirty.contains(x)
                || (ids.subrange(0, n as int).contains(x) && rendered.contains(x)),
    decreases n,
{
    if n == 0 {
        assert(ids.subrange(0, 0) =~= Seq::<Index>::empty());
    } else {
        lemma_after_schedule_asks(pending, rendered, dirty, ids, (n - 1) as nat);
        let (p, d) = after_schedule(pending, rendered, dirty, ids, (n - 1) as nat);
        let id = ids[n - 1];
        let upto = ids.subrange(0, n - 1);
        assert(ids.subrange(0, n as int) =~= upto.push(id));
        assert forall|x: Index|
            after_schedule(pending, rendered, dirty, ids, n).0.contains(x) <==> pending.contains(x)
                || (ids.subrange(0, n as int).contains(x) && !rendered.contains(x)) by {
            lemma_push_contains(upto, id, x);
            lemma_push_contains(p, id, x);
        }
        assert forall|x: Index|
            after_schedule(pending, rendered, dirty, ids, n).1.contains(x) <==> dirty.contains(x)
                || (ids.subrange(0, n as int).contains(x) && rendered.contains(x)) by {
            lemma_push_contains(upto, id, x);
        }
    }
}

/// Asking for the renders of the widgets of `a` and then of `b` leaves
/// queue and dirty set as asking for the renders of all of them does.
pub proof fn lemma_asked_lists(
    before: &KayakContext,
    after: &KayakContext,
    a: Seq<Index>,
    b: Seq<Index>,
)
    requires
        after.pass().rendered() == before.pass().rendered(),
        (after.pass().pending(), after.registry().dirty()) == after_schedule(
            before.pass().pending(),
            before.pass().rendered(),
            before.registry().dirty(),
            a + b,
            (a + b).len(),
        ),
    ensures
        asked(before, after, names(a, b)),
{
    let ids = a + b;
    lemma_after_schedule_extends(
        before.pass().pending(),
        before.pass().rendered(),
        before.registry().dirty(),
        ids,
        ids.len(),
    );
    lemma_after_schedule_asks(
        before.pass().pending(),
        before.pass().rendered(),
        before.registry().dirty(),
        ids,
        ids.len(),
    );
    assert(ids.subrange(0, ids.len() as int) =~= ids);
    assert forall|x: Index| ids.contains(x) <==> names(a, b).contains(x) by {
        lemma_concat_contains(a, b, x);
    }
}

/// What every render keeps of a context: the binding of the last click, and
/// the widgets that were handed out in this pass. The widgets that wait keep
/// waiting, in their order, ahead of those that the render asks to render,
/// and the widgets that are dirty stay dirty.
/// No identifier is given up, and every node that is new has an identifier
/// that was not handed out before.
pub open spec fn render_keeps(before: &KayakContext, after: &KayakContext) -> bool {
    &&& after.clicked() == before.clicked()
    &&& after.pass().rendered() == before.pass().rendered()
    &&& before.pass().pending().is_prefix_of(after.pass().pending())
    &&& before.registry().dirty().subset_of(after.registry().dirty())
    &&& forall|x: Index|
        #[trigger] before.live_tree().issued(x) ==> after.live_tree().issued(x)
    &&& forall|x: Index|
        #[trigger] after.live_tree()@.contains_key(x) && !before.live_tree()@.contains_key(x)
            ==> !before.live_tree().issued(x)
}

/// Asking for renders lets the widgets that wait keep waiting, in their
/// order.
pub proof fn lemma_after_schedule_extends(
    pending: Seq<Index>,
    rendered: Set<Index>,
    dirty: Set<Index>,
    ids: Seq<Index>,
    n: nat,
)
    ensures
        pending.is_prefix_of(after_schedule(pending, rendered, dirty, ids, n).0),
    decreases n,
{
    if n > 0 {
        lemma_after_schedule_extends(pending, rendered, dirty, ids, (n - 1) as nat);
        let p = after_schedule(pending, rendered, dirty, ids, (n - 1) as nat).0;
        let q = after_schedule(pending, rendered, dirty, ids, n).0;
        assert(p.is_prefix_of(q)) by {
            assert(q == p || q == p.push(ids[n - 1]));
            assert(p =~= q.subrange(0, p.len() as int));
        }
        lemma_prefix_chain(pending, p, q);
    }
}

/// A prefix of a prefix is a prefix.
pub proof fn lemma_prefix_chain(a: Seq<Index>, b: Seq<Index>, c: Seq<Index>)
    requires
        a.is_prefix_of(b),
        b.is_prefix_of(c),
    ensures
        a.is_prefix_of(c),
{
    assert(a =~= c.subrange(0, a.len() as int)) by {
        assert(a =~= b.subrange(0, a.len() as int));
        assert(b =~= c.subrange(0, b.len() as int));
    }
}

/// Whether the subtree below `dst` in `m` shows the declarations below `src`
/// in `s` at every depth.
pub open spec fn shown_below(
    m: Map<Index, NodeView>,
    s: Map<Index, NodeView>,
    src: Index,
    dst: Index,
) -> bool {
    forall|h: nat| renders(m, s, src, dst, h)
}

/// Whether `after` is `before` after the whole declared subtree below the
/// node `src` of `scratch` was rendered into the subtree below `parent`,
/// with `total` as the record of it. The children of `parent` are as one
/// render of the declared children leaves them, `total.roots` being their
/// new identifiers; below them, every kept widget was rendered with the
/// children that its declaration has, so that the live subtree shows the
/// declared one at every depth. Nothing changes outside the subtree of
/// `parent`. The removed widgets, and no others, have lost their
/// subscriptions, and the updated and the created widgets, and no others,
/// were asked to render.
pub open spec fn rendered_below(
    before: &KayakContext,
    after: &KayakContext,
    parent: Index,
    scratch: Map<Index, NodeView>,
    src: Index,
    total: &MergeOutcome,
) -> bool {
    let tree = before.live_tree()@;
    let now = after.live_tree()@;
    &&& tree.contains_key(parent)
    &&& scratch.contains_key(src)
    &&& kept_outside(tree, now, parent)
    &&& now[parent].children == merged_ids(
        snapshots_of(tree, tree[parent].children),
        snapshots_of(scratch, scratch[src].children),
        total.roots@,
        scratch[src].children.len(),
    )
    &&& shown_below(now, scratch, src, parent)
    &&& forall|x: Index|
        #[trigger] total.removed@.contains(x) ==> after.live_tree().issued(x)
            && !now.contains_key(x)
    &&& forall|x: Index| #[trigger] total.inserted@.contains(x) ==> !before.live_tree().issued(x)
    &&& after.registry().dropped(&before.registry(), total.removed@.to_set())
    &&& asked(before, after, names(total.updated@, total.inserted@))
}

/// Rendering the same declarations a second time changes nothing in the
/// live tree: the children of `parent` are the same identifiers in the same
/// order, and nothing is removed, updated or created.
pub proof fn lemma_second_render_is_idle(
    first: &KayakContext,
    second: &KayakContext,
    third: &KayakContext,
    parent: Index,
    scratch: Map<Index, NodeView>,
    decl: Seq<Index>,
    once: &MergeOutcome,
    twice: &MergeOutcome,
)
    requires
        reconciled(first, second, parent, scratch, decl, once),
        reconciled(second, third, parent, scratch, decl, twice),
    ensures
        third.live_tree()@ == second.live_tree()@,
        third.live_tree()@[parent].children == second.live_tree()@[parent].children,
        twice.removed@.len() == 0,
        twice.updated@.len() == 0,
        twice.roots@.len() == 0,
        twice.inserted@.len() == 0,
{
    let tree = second.widget_manager.tree@;
    let ops = Seq::<EditOpView>::empty();
    assert(retired(tree, ops, 0) == tree);
    lemma_grown_by_nothing(tree, scratch, parent, third.widget_manager.tree@, twice.roots@);
    if twice.removed@.len() > 0 {
        assert(twice.removed@.contains(twice.removed@[0]));
    }
    if twice.inserted@.len() > 0 {
        assert(twice.inserted@.contains(twice.inserted@[0]));
    }
}

impl KayakContext {
    /// The live tree.
    pub closed spec fn live_tree(&self) -> WidgetTree {
        self.widget_manager.tree
    }

    /// The bindings, with the widgets that await a render.
    pub closed spec fn registry(&self) -> BindingRegistry<Index> {
        self.bindings
    }

    /// The render pass in progress.
    pub closed spec fn pass(&self) -> Scheduler {
        self.scheduler
    }

    /// The binding that holds the widget that was clicked last.
    pub closed spec fn clicked(&self) -> BindingId {
        self.last_clicked
    }

    /// The live tree.
    pub fn tree(&self) -> (tree: &WidgetTree)
        ensures
            *tree == self.live_tree(),
    {
        &self.widget_manager.tree
    }

    /// The bindings, with the widgets that await a render.
    pub fn bindings(&self) -> (bindings: &BindingRegistry<Index>)
        ensures
            *bindings == self.registry(),
    {
        &self.bindings
    }

    /// The render pass in progress.
    pub fn scheduler(&self) -> (scheduler: &Scheduler)
        ensures
            *scheduler == self.pass(),
    {
        &self.scheduler
    }

    /// Whether every subscriber of every binding is a node of the live tree
    /// or one of `gone`.
    pub open spec fn dangling_within(&self, gone: Set<Index>) -> bool {
        forall|b: BindingId, w: Index|
            self.registry().has(b) && #[trigger] self.registry().subscribers(b).contains(w)
                ==> self.live_tree()@.contains_key(w) || gone.contains(w)
    }

    /// The invariant of the context: its parts are well formed, and no
    /// binding has a subscriber that is not in the live tree.
    pub open spec fn wf(&self) -> bool {
        &&& self.live_tree().wf()
        &&& self.registry().wf()
        &&& self.pass().wf()
        &&& self.registry().has(self.clicked())
        &&& self.dangling_within(Set::empty())
    }

    /// Whether the bindings are those of `before`: the same values, the
    /// same subscribers, the same dirty widgets.
    pub open spec fn same_bindings(&self, before: &KayakContext) -> bool {
        &&& self.clicked() == before.clicked()
        &&& self.registry().count() == before.registry().count()
        &&& self.registry().dirty() == before.registry().dirty()
        &&& self.registry().keeps_cells(&before.registry())
    }

    /// Whether the render pass stands as in `before`.
    pub open spec fn same_pass(&self, before: &KayakContext) -> bool {
        &&& self.pass().pending() == before.pass().pending()
        &&& self.pass().rendered() == before.pass().rendered()
    }

    /// A context with an empty tree and one binding, which holds the widget
    /// that was clicked last.
    pub fn new() -> (context: KayakContext)
        ensures
            context.wf(),
            context.live_tree()@ == Map::<Index, NodeView>::empty(),
            context.registry().count() == 1,
            context.registry().dirty() == Set::<Index>::empty(),
            context.pass().pending() == Seq::<Index>::empty(),
    {
        let mut bindings: BindingRegistry<Index> = BindingRegistry::new();
        let last_clicked = bindings.create(Index::from_raw_parts(0, 0));
        KayakContext {
            widget_manager: WidgetManager { tree: WidgetTree::new() },
            bindings,
            scheduler: Scheduler::new(),
            last_clicked,
        }
    }

    /// Adds a widget to the live tree, as the last child of `parent` or as a
    /// root, and marks it dirty, so that the next pass renders it.
    ///
    /// Fails with `InvalidIdentifier`, and changes nothing, when `parent`
    /// names no node.
    pub fn add_widget(&mut self, parent: Option<Index>, widget: WidgetData) -> (r: Result<
        Index,
        TreeError,
    >)
        requires
            old(self).wf(),
        ensures
            final(self).wf(),
            final(self).same_pass(old(self)),
            final(self).clicked() == old(self).clicked(),
            final(self).registry().count() == old(self).registry().count(),
            final(self).registry().keeps_cells(&old(self).registry()),
            match r {
                Ok(id) => {
                    &&& parent matches Some(p) ==> old(self).live_tree()@.contains_key(p)
                    &&& !old(self).live_tree().issued(id)
                    &&& final(self).live_tree()@ == with_child(
                        old(self).live_tree()@,
                        parent,
                        id,
                        widget@,
                    )
                    &&& final(self).registry().dirty() == old(self).registry().dirty().insert(id)
                },
                Err(e) => {
                    &&& e == TreeError::InvalidIdentifier
                    &&& parent matches Some(p) && !old(self).live_tree()@.contains_key(p)
                    &&& final(self).live_tree()@ == old(self).live_tree()@
                    &&& final(self).registry().dirty() == old(self).registry().dirty()
                },
            },
    {
        match self.widget_manager.tree.insert(parent, widget) {
            Ok(id) => {
                self.bindings.mark_dirty(id);
                Ok(id)
            },
            Err(e) => Err(e),
        }
    }

    /// Removes the widget `id` with its whole subtree from the live tree and
    /// drops every subscription of the removed widgets. Returns the removed
    /// identifiers, each once.
    ///
    /// Fails, and changes nothing, with `InvalidIdentifier` when `id` names
    /// no node, and with `ProtectedRoot` when it names a root.
    pub fn remove_widget(&mut self, id: Index) -> (r: Result<Vec<Index>, TreeError>)
        requires
            old(self).wf(),
        ensures
            final(self).wf(),
            final(self).same_pass(old(self)),
            final(self).clicked() == old(self).clicked(),
            match r {
                Ok(removed) => {
                    &&& old(self).live_tree()@.contains_key(id)
                    &&& old(self).live_tree()@[id].parent is Some
                    &&& final(self).live_tree()@ == pruned(
                        old(self).live_tree()@,
                        id,
                    )
                    &&& removed@.no_duplicates()
                    &&& forall|x: Index|
                        removed@.contains(x) <==> in_subtree(old(self).live_tree()@, id, x)
                    &&& final(self).registry().unsubscribed(&old(self).registry(),
                        removed@.to_set())
                    &&& forall|x: Index|
                        removed@.contains(x) ==> !final(self).live_tree()@.contains_key(x)
                            && !final(self).registry().subscribed_anywhere(x)
                },
                Err(e) => {
                    &&& final(self).live_tree()@ == old(self).live_tree()@
                    &&& final(self).same_bindings(old(self))
                    &&& e == TreeError::InvalidIdentifier <==>
                        !old(self).live_tree()@.contains_key(id)
                    &&& e == TreeError::ProtectedRoot <==>
                        old(self).live_tree()@.contains_key(id)
                            && old(self).live_tree()@[id].parent is None
                },
            },
    {
        match self.widget_manager.tree.remove(id) {
            Ok(removed) => {
                self.bindings.unsubscribe_all(&removed);
                proof {
                    assert forall|x: Index| removed@.contains(x) implies
                        !self.widget_manager.tree@.contains_key(
                        x,
                    ) by {}
                }
                Ok(removed)
            },
            Err(e) => Err(e),
        }
    }

    /// Creates a binding that holds `initial`.
    pub fn create_binding(&mut self, initial: Index) -> (b: BindingId)
        requires
            old(self).wf(),
        ensures
            final(self).wf(),
            final(self).live_tree() == old(self).live_tree(),
            final(self).same_pass(old(self)),
            final(self).clicked() == old(self).clicked(),
            !old(self).registry().has(b),
            final(self).registry().has(b),
            final(self).registry().count() == old(self).registry().count() + 1,
            final(self).registry().value(b) == initial,
            final(self).registry().subscribers(b) == Set::<Index>::empty(),
            final(self).registry().dirty() == old(self).registry().dirty(),
            final(self).registry().keeps_cells(&old(self).registry()),
    {
        self.bindings.create(initial)
    }

    /// The binding that holds the widget that was clicked last.
    pub fn get_last_clicked_widget(&self) -> (b: BindingId)
        ensures
            b == self.clicked(),
    {
        self.last_clicked
    }

    /// The present value of `b`; `None` where `b` is no binding of this
    /// context. Reading subscribes nobody.
    pub fn get(&self, b: BindingId) -> (r: Option<Index>)
        ensures
            r is Some <==> self.registry().has(b),
            r matches Some(v) ==> v == self.registry().value(b),
    {
        match self.bindings.get(b) {
            Some(v) => Some(*v),
            None => None,
        }
    }

    /// Subscribes the widget `widget` to `b`. Subscribing a subscriber again
    /// changes nothing.
    ///
    /// Fails with `InvalidIdentifier`, and changes nothing, when `widget`
    /// names no node of the live tree or `b` is no binding of this context.
    pub fn bind(&mut self, widget: Index, b: BindingId) -> (r: Result<(), TreeError>)
        requires
            old(self).wf(),
        ensures
            final(self).wf(),
            final(self).live_tree() == old(self).live_tree(),
            final(self).same_pass(old(self)),
            final(self).clicked() == old(self).clicked(),
            final(self).registry().count() == old(self).registry().count(),
            final(self).registry().dirty() == old(self).registry().dirty(),
            r is Ok <==> old(self).live_tree()@.contains_key(widget)
                && old(self).registry().has(b),
            r matches Err(e) ==> e == TreeError::InvalidIdentifier,
            final(self).registry().keeps_cells_but(&old(self).registry(), b),
            r is Ok ==> final(self).registry().value(b) == old(self).registry().value(b)
                && final(self).registry().subscribers(b)
                    == old(self).registry().subscribers(b).insert(widget),
            r is Err ==> final(self).registry().keeps_cells(&old(self).registry()),
    {
        if !self.widget_manager.tree.contains(widget) {
            return Err(TreeError::InvalidIdentifier);
        }
        if self.bindings.bind(widget, b) {
            Ok(())
        } else {
            Err(TreeError::InvalidIdentifier)
        }
    }

    /// Writes `value` to `b` and marks every subscriber of `b` dirty, for
    /// the next pass. Says whether `b` is a binding of this context; where
    /// it is not, nothing changes. Nothing is rendered, and no subscription
    /// is dropped.
    pub fn set(&mut self, b: BindingId, value: Index) -> (known: bool)
        requires
            old(self).wf(),
        ensures
            final(self).wf(),
            final(self).live_tree() == old(self).live_tree(),
            final(self).same_pass(old(self)),
            final(self).clicked() == old(self).clicked(),
            known == old(self).registry().has(b),
            final(self).registry().count() == old(self).registry().count(),
            final(self).registry().keeps_cells_but(&old(self).registry(), b),
            known ==> final(self).registry().value(b) == value
                && final(self).registry().subscribers(b)
                == old(self).registry().subscribers(b),
            known ==> final(self).registry().dirty() == old(self).registry().dirty().union(
                old(self).registry().subscribers(b),
            ),
            !known ==> final(self).registry().dirty() == old(self).registry().dirty(),
    {
        self.bindings.set(b, value)
    }

    /// Whether some widget is dirty. A pass that would start with no dirty
    /// widget renders nothing.
    pub fn has_dirty(&self) -> (r: bool)
        requires
            self.wf(),
        ensures
            r == (self.registry().dirty() != Set::<Index>::empty()),
    {
        !self.bindings.dirty_is_empty()
    }

    /// Starts a render pass: the dirty widgets are taken as the widgets that
    /// wait, in ascending order, each once, and no widget is dirty any
    /// more.
    pub fn begin_pass(&mut self)
        requires
            old(self).wf(),
        ensures
            final(self).wf(),
            final(self).live_tree() == old(self).live_tree(),
            final(self).clicked() == old(self).clicked(),
            final(self).registry().count() == old(self).registry().count(),
            final(self).registry().dirty() == Set::<Index>::empty(),
            final(self).registry().keeps_cells(&old(self).registry()),
            crate::idset::ascending(final(self).pass().pending()),
            final(self).pass().pending().to_set() == old(self).registry().dirty(),
            final(self).pass().rendered() == Set::<Index>::empty(),
    {
        let dirty = self.bindings.take_dirty();
        proof {
            lemma_ascending_no_duplicates(dirty@);
        }
        self.scheduler.begin_pass(dirty);
    }

    /// Hands out the next widget to render in this pass: the first that
    /// waits and is still a node of the live tree. Widgets that were removed
    /// while they waited are passed over. `None` when the pass is over.
    pub fn next_render(&mut self) -> (r: Option<Index>)
        requires
            old(self).wf(),
        ensures
            final(self).wf(),
            final(self).live_tree() == old(self).live_tree(),
            final(self).same_bindings(old(self)),
            final(self).pass().pending().len() <= old(self).pass().pending().len(),
            ({
                let n = old(self).pass().pending().len() - final(self).pass().pending().len();
                &&& final(self).pass().pending() == old(self).pass().pending().skip(n)
                &&& match r {
                    Some(id) => {
                        &&& n >= 1
                        &&& id == old(self).pass().pending()[n - 1]
                        &&& final(self).live_tree()@.contains_key(id)
                        &&& !old(self).pass().rendered().contains(id)
                        &&& final(self).pass().rendered().contains(id)
                        &&& forall|j: int|
                            0 <= j < n - 1 ==> !final(self).live_tree()@.contains_key(
                                #[trigger] old(self).pass().pending()[j],
                            )
                    },
                    None => {
                        &&& n == old(self).pass().pending().len()
                        &&& forall|j: int|
                            0 <= j < n ==> !final(self).live_tree()@.contains_key(
                                #[trigger] old(self).pass().pending()[j],
                            )
                    },
                }
            }),
            forall|x: Index|
                #![trigger final(self).pass().rendered().contains(x)]
                final(self).pass().rendered().contains(x) <==> old(self).pass().rendered().contains(
                    x,
                ) || old(self).pass().pending().subrange(
                    0,
                    old(self).pass().pending().len() - final(self).pass().pending().len(),
                ).contains(x),
    {
        let ghost start = self.scheduler.pending();
        proof {
            self.scheduler.lemma_wf();
            assert forall|i: int| 0 <= i < start.len() implies !self.scheduler.rendered().contains(
                #[trigger] start[i],
            ) by {
                assert(start.contains(start[i]));
            }
            assert(start.subrange(0, 0) =~= Seq::<Index>::empty());
        }
        loop
            invariant
                self.wf(),
                old(self).wf(),
                self.widget_manager.tree == old(self).widget_manager.tree,
                self.same_bindings(old(self)),
                start == old(self).scheduler.pending(),
                self.scheduler.pending().len() <= start.len(),
                self.scheduler.pending() == start.skip(
                    start.len() - self.scheduler.pending().len(),
                ),
                forall|j: int|
                    0 <= j < start.len() - self.scheduler.pending().len()
                        ==> !self.widget_manager.tree@.contains_key(#[trigger] start[j]),
                forall|x: Index|
                    #![trigger self.scheduler.rendered().contains(x)]
                    self.scheduler.rendered().contains(x) <==>
                        old(self).scheduler.rendered().contains(x) || start.subrange(
                        0,
                        start.len() - self.scheduler.pending().len(),
                    ).contains(x),
                forall|i: int|
                    0 <= i < self.scheduler.pending().len()
                        ==> !old(self).scheduler.rendered()
                            .contains(#[trigger] self.scheduler.pending()[i]),
            decreases self.scheduler.pending().len(),
        {
            let ghost before = self.scheduler.pending();
            let ghost done = start.len() - before.len();
            proof {
                old(self).scheduler.lemma_wf();
                if before.len() > 0 {
                    assert(before[0] == start[done]);
                }
            }
            match self.scheduler.next() {
                None => {
                    return None;
                },
                Some(id) => {
                    proof {
                        assert(self.scheduler.pending() =~= start.skip(done + 1));
                        assert(start.subrange(0, done + 1) =~= start.subrange(0, done).push(id));
                        assert forall|x: Index|
                            #![trigger self.scheduler.rendered().contains(x)]
                            self.scheduler.rendered().contains(x) <==>
                                old(self).scheduler.rendered().contains(x) || start.subrange(
                                0,
                                done + 1,
                            ).contains(x) by {
                            lemma_push_contains(start.subrange(0, done), id, x);
                        }
                        let handed = old(self).scheduler.rendered();
                        assert forall|i: int| 0 <= i < self.scheduler.pending().len() implies
                            !handed.contains(#[trigger] self.scheduler.pending()[i]) by {
                            assert(self.scheduler.pending()[i] == before[i + 1]);
                        }
                    }
                    if self.widget_manager.tree.contains(id) {
                        return Some(id);
                    }
                },
            }
        }
    }

    /// Asks for a render of `id`: in this pass, behind the widgets that wait
    /// already, or, where `id` was handed out in this pass, in the next one.
    pub fn schedule(&mut self, id: Index)
        requires
            old(self).pass().wf(),
            old(self).registry().wf(),
        ensures
            final(self).pass().wf(),
            final(self).registry().wf(),
            final(self).live_tree() == old(self).live_tree(),
            final(self).clicked() == old(self).clicked(),
            final(self).registry().count() == old(self).registry().count(),
            final(self).registry().keeps_cells(&old(self).registry()),
            final(self).pass().rendered() == old(self).pass().rendered(),
            (final(self).pass().pending(), final(self).registry().dirty()) == after_schedule(
                old(self).pass().pending(),
                old(self).pass().rendered(),
                old(self).registry().dirty(),
                seq![id],
                1,
            ),
    {
        if !self.scheduler.enqueue(id) {
            self.bindings.mark_dirty(id);
        }
        proof {
            reveal_with_fuel(after_schedule, 2);
        }
    }

    fn schedule_each(&mut self, ids: &Vec<Index>)
        requires
            old(self).pass().wf(),
            old(self).registry().wf(),
        ensures
            final(self).pass().wf(),
            final(self).registry().wf(),
            final(self).live_tree() == old(self).live_tree(),
            final(self).clicked() == old(self).clicked(),
            final(self).registry().count() == old(self).registry().count(),
            final(self).registry().keeps_cells(&old(self).registry()),
            final(self).pass().rendered() == old(self).pass().rendered(),
            (final(self).pass().pending(), final(self).registry().dirty()) == after_schedule(
                old(self).pass().pending(),
                old(self).pass().rendered(),
                old(self).registry().dirty(),
                ids@,
                ids@.len(),
            ),
    {
        let mut i: usize = 0;
        while i < ids.len()
            invariant
                i <= ids@.len(),
                self.scheduler.wf(),
                self.bindings.wf(),
                self.widget_manager == old(self).widget_manager,
                self.last_clicked == old(self).last_clicked,
                self.bindings.count() == old(self).bindings.count(),
                self.bindings.keeps_cells(&old(self).bindings),
                self.scheduler.rendered() == old(self).scheduler.rendered(),
                (self.scheduler.pending(), self.bindings.dirty()) == after_schedule(
                    old(self).scheduler.pending(),
                    old(self).scheduler.rendered(),
                    old(self).bindings.dirty(),
                    ids@,
                    i as nat,
                ),
            decreases ids@.len() - i,
        {
            let ghost before = *self;
            self.schedule(ids[i]);
            proof {
                reveal_with_fuel(after_schedule, 2);
                assert forall|o: BindingId|
                    #![trigger self.bindings.subscribers(o)]
                    #![trigger self.bindings.value(o)]
                    old(self).bindings.has(o) implies
                        self.bindings.value(o) == old(self).bindings.value(o)
                            && self.bindings.subscribers(o)
                                == old(self).bindings.subscribers(o) by {
                    assert(before.bindings.has(o));
                    assert(before.bindings.subscribers(o) == old(self).bindings.subscribers(o));
                    assert(self.bindings.subscribers(o) == before.bindings.subscribers(o));
                }
            }
            i += 1;
        }
    }

    fn settle(&mut self, outcome: &MergeOutcome)
        requires
            old(self).bindings.wf(),
            old(self).scheduler.wf(),
        ensures
            final(self).bindings.wf(),
            final(self).scheduler.wf(),
            final(self).live_tree() == old(self).live_tree(),
            final(self).clicked() == old(self).clicked(),
            final(self).registry().dropped(&old(self).registry(), outcome.removed@.to_set()),
            final(self).pass().rendered() == old(self).pass().rendered(),
            (final(self).pass().pending(), final(self).registry().dirty()) == after_schedule(
                old(self).pass().pending(),
                old(self).pass().rendered(),
                old(self).registry().dirty(),
                outcome.updated@ + outcome.inserted@,
                (outcome.updated@ + outcome.inserted@).len(),
            ),
    {
        self.bindings.unsubscribe_all(&outcome.removed);
        let ghost mid = *self;
        self.schedule_each(&outcome.updated);
        let ghost mid2 = *self;
        self.schedule_each(&outcome.inserted);
        proof {
            lemma_after_schedule_concat(
                old(self).scheduler.pending(),
                old(self).scheduler.rendered(),
                old(self).bindings.dirty(),
                outcome.updated@,
                outcome.inserted@,
                outcome.inserted@.len(),
            );
            assert forall|o: BindingId|
                #![trigger self.bindings.subscribers(o)]
                #![trigger self.bindings.value(o)]
                old(self).bindings.has(o) implies
                    self.bindings.value(o) == old(self).bindings.value(o)
                        && self.bindings.subscribers(o) == old(self).bindings.subscribers(
                o,
            ).difference(outcome.removed@.to_set()) by {
                assert(mid.bindings.has(o));
                assert(mid2.bindings.has(o));
                assert(mid.bindings.subscribers(o) == old(self).bindings.subscribers(
                    o,
                ).difference(outcome.removed@.to_set()));
                assert(mid2.bindings.subscribers(o) == mid.bindings.subscribers(o));
                assert(self.bindings.subscribers(o) == mid2.bindings.subscribers(o));
            }
        }
    }

    /// Renders the declarations of `scratch` into the children of `parent`:
    /// compares the two child lists, applies the edits to the live tree, and
    /// settles bindings and render queue.
    ///
    /// A call that fails changes nothing.
    pub fn reconcile(&mut self, parent: Index, scratch: &WidgetTree) -> (r: Result<
        MergeOutcome,
        TreeError,
    >)
        requires
            old(self).wf(),
            scratch.wf(),
        ensures
            final(self).wf(),
            final(self).live_tree().root_node() == old(self).live_tree().root_node(),
            render_keeps(old(self), final(self)),
            match r {
                Ok(outcome) => reconciled(
                    old(self),
                    final(self),
                    parent,
                    scratch@,
                    declared(scratch),
                    &outcome,
                ),
                Err(e) => refused(old(self), final(self), parent, e),
            },
            r is Ok <==> old(self).live_tree()@.contains_key(parent),
    {
        proof {
            scratch.lemma_wf();
        }
        self.reconcile_at(parent, scratch, scratch.root())
    }

    /// Renders the children that the node `src` of `scratch` declares into
    /// the children of `parent`, as [`KayakContext::reconcile`] does with
    /// the children that the root declares.
    ///
    /// Fails with `InvalidIdentifier`, and changes nothing, when `parent`
    /// names no node of the live tree or `src` names no node of `scratch`.
    pub fn reconcile_under(&mut self, parent: Index, scratch: &WidgetTree, src: Index) -> (r:
        Result<MergeOutcome, TreeError>)
        requires
            old(self).wf(),
            scratch.wf(),
        ensures
            final(self).wf(),
            final(self).live_tree().root_node() == old(self).live_tree().root_node(),
            render_keeps(old(self), final(self)),
            r is Ok <==> old(self).live_tree()@.contains_key(parent) && scratch@.contains_key(src),
            r matches Ok(outcome) ==> reconciled(
                old(self),
                final(self),
                parent,
                scratch@,
                scratch@[src].children,
                &outcome,
            ),
            r matches Err(e) ==> e == TreeError::InvalidIdentifier && unchanged(
                old(self),
                final(self),
            ),
    {
        if !scratch.contains(src) {
            return Err(TreeError::InvalidIdentifier);
        }
        self.reconcile_at(parent, scratch, Some(src))
    }

    /// Renders the whole declared subtree below the node `src` of `scratch`
    /// into the subtree below `parent`: the declared children of `src` are
    /// rendered into the children of `parent`, and then every child that
    /// was kept is rendered in the same way with the children that its own
    /// declaration has. A child that was created is a copy of its
    /// declaration already.
    ///
    /// In the record, `roots` are the new children of `parent`; the other
    /// lists name what was removed, updated and created at any depth.
    ///
    /// Fails with `InvalidIdentifier`, and changes nothing, when `parent`
    /// names no node of the live tree or `src` names no node of `scratch`.
    pub fn render_tree(&mut self, parent: Index, scratch: &WidgetTree, src: Index) -> (r: Result<
        MergeOutcome,
        TreeError,
    >)
        requires
            old(self).wf(),
            scratch.wf(),
        ensures
            final(self).wf(),
            final(self).live_tree().root_node() == old(self).live_tree().root_node(),
            render_keeps(old(self), final(self)),
            r is Ok <==> old(self).live_tree()@.contains_key(parent) && scratch@.contains_key(src),
            r matches Ok(total) ==> rendered_below(
                old(self),
                final(self),
                parent,
                scratch@,
                src,
                &total,
            ),
            r matches Err(e) ==> e == TreeError::InvalidIdentifier && unchanged(
                old(self),
                final(self),
            ),
        decreases scratch.height_bound() - scratch.depths()[src],
    {
        let ghost t = self.widget_manager.tree@;
        let top = match self.reconcile_under(parent, scratch, src) {
            Ok(top) => top,
            Err(e) => {
                return Err(e);
            },
        };
        let ghost s1 = self.widget_manager.tree@;
        let ghost decl = scratch@[src].children;
        let ghost mid = retired(
            t,
            diff_spec(snapshots_of(t, t[parent].children), snapshots_of(scratch@, decl)),
            diff_spec(snapshots_of(t, t[parent].children), snapshots_of(scratch@, decl)).len(),
        );
        proof {
            scratch.lemma_wf();
            old(self).widget_manager.tree.lemma_wf();
            assert forall|j: int|
                0 <= j < decl.len() && top.inserted@.contains(
                    s1[parent].children[j],
                ) implies shown_below(s1, scratch@, #[trigger] decl[j], s1[parent].children[j]) by {
                assert(shows_at(mid, s1, scratch@, decl, parent, j));
                assert forall|h: nat|
                    renders(s1, scratch@, decl[j], s1[parent].children[j], h) by {
                    lemma_copy_renders(s1, scratch@, decl[j], s1[parent].children[j], h);
                }
            }
            assert forall|j: int| 0 <= j < decl.len() implies s1.contains_key(
                #[trigger] s1[parent].children[j],
            ) && s1[s1[parent].children[j]].widget.tag == scratch@[decl[j]].widget.tag
                && s1[s1[parent].children[j]].widget.props == scratch@[decl[j]].widget.props by {
                assert(shows_at(mid, s1, scratch@, decl, parent, j));
            }
            assert forall|x: Index|
                #[trigger] s1.contains_key(x) && !t.contains_key(x) implies
                    !old(self).widget_manager.tree.issued(x) by {
                assert(!mid.contains_key(x));
                assert(top.inserted@.contains(x));
            }
        }
        let declared = &scratch.get(src).unwrap().children;
        let n = declared.len();
        let MergeOutcome { removed: top_removed, updated: top_updated, roots, inserted: created } =
            top;
        let mut removed = top_removed;
        let mut updated = top_updated;
        let mut inserted: Vec<Index> = Vec::new();
        proof {
            self.widget_manager.tree.lemma_wf();
            assert forall|x: Index| #[trigger] removed@.contains(x) implies
                self.widget_manager.tree.issued(
                x,
            ) && !s1.contains_key(x) by {
                assert(t.contains_key(x) && !mid.contains_key(x));
                assert(old(self).widget_manager.tree.issued(x));
                if s1.contains_key(x) {
                    assert(created@.contains(x));
                }
            }
            assert(created@ + inserted@ =~= created@);
        }
        let mut i: usize = 0;
        while i < n
            invariant
                i <= n,
                n == decl.len(),
                declared@ == decl,
                decl == scratch@[src].children,
                scratch.wf(),
                scratch@.contains_key(src),
                old(self).wf(),
                t == old(self).widget_manager.tree@,
                t.contains_key(parent),
                self.wf(),
                self.widget_manager.tree.root_node() == old(self).widget_manager.tree.root_node(),
                render_keeps(old(self), self),
                self.bindings.dropped(&old(self).bindings, removed@.to_set()),
                asked(old(self), self, names(updated@, created@ + inserted@)),
                self.widget_manager.tree@.contains_key(parent),
                self.widget_manager.tree@[parent] == s1[parent],
                s1[parent].children.len() == n,
                kept_outside(t, self.widget_manager.tree@, parent),
                forall|x: Index|
                    #[trigger] removed@.contains(x) ==> self.widget_manager.tree.issued(x)
                        && !self.widget_manager.tree@.contains_key(x),
                forall|x: Index|
                    #[trigger] inserted@.contains(x) ==> !old(self).widget_manager.tree.issued(x),
                forall|j: int|
                    0 <= j < n ==> self.widget_manager.tree@.contains_key(
                        #[trigger] s1[parent].children[j],
                    ) && self.widget_manager.tree@[s1[parent].children[j]].widget.tag
                        == scratch@[decl[j]].widget.tag
                        && self.widget_manager.tree@[s1[parent].children[j]].widget.props
                        == scratch@[decl[j]].widget.props,
                forall|j: int|
                    0 <= j < n && (j < i || created@.contains(s1[parent].children[j]))
                        ==> shown_below(
                        self.widget_manager.tree@,
                        scratch@,
                        #[trigger] decl[j],
                        s1[parent].children[j],
                    ),
            decreases n - i,
        {
            let child = self.widget_manager.tree.get(parent).unwrap().children[i];
            let ghost before = self.widget_manager.tree@;
            let ghost depth = self.widget_manager.tree.depths();
            let ghost bound = self.widget_manager.tree.height_bound();
            let ghost was = *self;
            proof {
                self.widget_manager.tree.lemma_wf();
                old(self).widget_manager.tree.lemma_wf();
                scratch.lemma_wf();
                assert(child == s1[parent].children[i as int]);
                assert(scratch@.contains_key(scratch@[src].children[i as int]));
                assert(before[parent].children.contains(child));
                lemma_child_differs(before, depth, bound, parent, child);
            }
            if position_in(&created, child) == created.len() {
                let mut deeper = match self.render_tree(child, scratch, declared[i]) {
                    Ok(deeper) => deeper,
                    Err(e) => {
                        return Err(e);
                    },
                };
                let ghost gone = removed@;
                let ghost come = inserted@;
                let ghost renewed = updated@;
                let ghost went = deeper.removed@;
                let ghost came = deeper.inserted@;
                let ghost lately = deeper.updated@;
                removed.append(&mut deeper.removed);
                updated.append(&mut deeper.updated);
                inserted.append(&mut deeper.inserted);
                proof {
                    let now = self.widget_manager.tree@;
                    assert(ancestor_at(t, parent, 0) == Some(parent));
                    if in_subtree(before, child, parent) {
                        lemma_subtree_depth(before, depth, bound, child, parent);
                    }
                    assert(now[parent] == before[parent]);
                    assert forall|j: int| 0 <= j < n implies now.contains_key(
                        #[trigger] s1[parent].children[j],
                    ) && now[s1[parent].children[j]].widget.tag == scratch@[decl[j]].widget.tag
                        && now[s1[parent].children[j]].widget.props
                        == scratch@[decl[j]].widget.props by {
                        let c = s1[parent].children[j];
                        if j != i {
                            assert(before[parent].children.contains(c));
                            assert(ancestor_at(before, c, 0) == Some(c));
                            lemma_siblings_apart(before, depth, bound, parent, c, child, c);
                        }
                    }
                    assert forall|j: int|
                        0 <= j < n && (j < i + 1 || created@.contains(
                            s1[parent].children[j],
                        )) implies shown_below(
                        now,
                        scratch@,
                        #[trigger] decl[j],
                        s1[parent].children[j],
                    ) by {
                        let c = s1[parent].children[j];
                        if j != i {
                            assert(before[parent].children.contains(c));
                            assert(shown_below(before, scratch@, decl[j], c));
                            assert forall|x: Index| #[trigger] in_subtree(before, c, x) implies
                                now.contains_key(
                                x,
                            ) && now[x] == before[x] by {
                                lemma_siblings_apart(before, depth, bound, parent, c, child, x);
                            }
                            assert forall|h: nat| renders(now, scratch@, decl[j], c, h) by {
                                assert(renders(before, scratch@, decl[j], c, h));
                                lemma_renders_frame(before, now, scratch@, decl[j], c, h);
                            }
                        }
                    }
                    assert forall|x: Index|
                        #[trigger] t.contains_key(x) && !in_subtree(t, parent, x) implies
                            now.contains_key(
                        x,
                    ) && now[x] == t[x] by {
                        assert(before.contains_key(x) && before[x] == t[x]);
                        if t.contains_key(child) && !in_subtree(t, parent, child) {
                            assert(before[child] == t[child]);
                            lemma_in_subtree_unfold(t, parent, child);
                        }
                        if in_subtree(before, child, x) {
                            let k = choose|k: nat| ancestor_at(before, x, k) == Some(child);
                            lemma_outside_stays(t, before, parent, child, x, k);
                        }
                    }
                    assert forall|x: Index| #[trigger] removed@.contains(x) implies
                        self.widget_manager.tree.issued(
                        x,
                    ) && !now.contains_key(x) by {
                        lemma_concat_contains(gone, went, x);
                        if gone.contains(x) {
                            assert(was.widget_manager.tree.issued(x));
                        }
                    }
                    assert forall|x: Index| #[trigger] inserted@.contains(x) implies
                        !old(self).widget_manager.tree.issued(x) by {
                        lemma_concat_contains(come, came, x);
                        if came.contains(x) {
                            assert(!was.widget_manager.tree.issued(x));
                        }
                    }
                    assert(render_keeps(old(self), self)) by {
                        lemma_prefix_chain(
                            old(self).scheduler.pending(),
                            was.scheduler.pending(),
                            self.scheduler.pending(),
                        );
                        assert forall|x: Index|
                            #[trigger] now.contains_key(x) && !t.contains_key(x) implies
                                !old(self).widget_manager.tree.issued(x) by {
                            if !before.contains_key(x) {
                                assert(!was.widget_manager.tree.issued(x));
                            }
                        }
                    }
                    BindingRegistry::lemma_dropped_chain(
                        &old(self).bindings,
                        &was.bindings,
                        &self.bindings,
                        gone.to_set(),
                        went.to_set(),
                    );
                    assert(removed@.to_set() =~= gone.to_set().union(went.to_set())) by {
                        assert forall|x: Index|
                            removed@.contains(x) <==> gone.contains(x) || went.contains(x) by {
                            lemma_concat_contains(gone, went, x);
                        }
                    }
                    lemma_asked_chain(
                        old(self),
                        &was,
                        self,
                        names(renewed, created@ + come),
                        names(lately, came),
                    );
                    assert(names(updated@, created@ + inserted@) =~= names(
                        renewed,
                        created@ + come,
                    ).union(names(lately, came))) by {
                        assert forall|x: Index|
                            names(updated@, created@ + inserted@).contains(x) <==> names(
                                renewed,
                                created@ + come,
                            ).union(names(lately, came)).contains(x) by {
                            lemma_concat_contains(renewed, lately, x);
                            lemma_concat_contains(created@, come, x);
                            lemma_concat_contains(created@, come + came, x);
                            lemma_concat_contains(come, came, x);
                        }
                    }
                }
            }
            i += 1;
        }
        proof {
            let now = self.widget_manager.tree@;
            assert forall|h: nat| renders(now, scratch@, src, parent, h) by {
                assert forall|j: int| 0 <= j < decl.len() implies now.contains_key(
                    #[trigger] now[parent].children[j],
                ) && now[now[parent].children[j]].widget.tag == scratch@[decl[j]].widget.tag
                    && now[now[parent].children[j]].widget.props
                    == scratch@[decl[j]].widget.props && (h > 0 ==> renders(
                    now,
                    scratch@,
                    decl[j],
                    now[parent].children[j],
                    (h - 1) as nat,
                )) by {
                    assert(now[parent].children[j] == s1[parent].children[j]);
                    assert(shown_below(now, scratch@, decl[j], s1[parent].children[j]));
                }
            }
        }
        let ghost first_created = created@;
        let ghost more_created = inserted@;
        let mut created = created;
        created.append(&mut inserted);
        proof {
            assert forall|x: Index| #[trigger] created@.contains(x) implies
                !old(self).widget_manager.tree.issued(x) by {
                lemma_concat_contains(first_created, more_created, x);
            }
        }
        Ok(MergeOutcome { removed, updated, roots, inserted: created })
    }

    fn reconcile_at(&mut self, parent: Index, scratch: &WidgetTree, src: Option<Index>) -> (r:
        Result<MergeOutcome, TreeError>)
        requires
            old(self).wf(),
            scratch.wf(),
            src matches Some(node) ==> scratch@.contains_key(node),
        ensures
            final(self).wf(),
            final(self).live_tree().root_node() == old(self).live_tree().root_node(),
            render_keeps(old(self), final(self)),
            match r {
                Ok(outcome) => reconciled(
                    old(self),
                    final(self),
                    parent,
                    scratch@,
                    declared_under(scratch@, src),
                    &outcome,
                ),
                Err(e) => refused(old(self), final(self), parent, e),
            },
            r is Ok <==> old(self).live_tree()@.contains_key(parent),
    {
        let changes = match self.widget_manager.tree.diff_children_of(scratch, src, parent) {
            Ok(changes) => changes,
            Err(e) => {
                return Err(e);
            },
        };
        let ghost decl = declared_under(scratch@, src);
        proof {
            self.widget_manager.tree.lemma_wf();
            scratch.lemma_wf();
            assert forall|i: int| 0 <= i < decl.len() implies scratch@.contains_key(
                #[trigger] decl[i],
            ) by {
                assert(scratch@.contains_key(scratch@[src.unwrap()].children[i]));
            }
            lemma_diff_applies(
                self.widget_manager.tree@,
                self.widget_manager.tree.depths(),
                self.widget_manager.tree.height_bound(),
                parent,
                scratch@,
                decl,
            );
        }
        let ghost ops = changes@;
        let outcome = match self.widget_manager.tree.merge(scratch, parent, changes) {
            Ok(outcome) => outcome,
            Err(e) => {
                return Err(e);
            },
        };
        proof {
            let before = old(self).widget_manager.tree@;
            let after = self.widget_manager.tree@;
            lemma_converged(
                before,
                old(self).widget_manager.tree.depths(),
                old(self).widget_manager.tree.height_bound(),
                parent,
                scratch@,
                decl,
                after,
                outcome.roots@,
            );
            lemma_merge_frame(
                before,
                old(self).widget_manager.tree.depths(),
                old(self).widget_manager.tree.height_bound(),
                parent,
                scratch@,
                ops,
                after,
                outcome.roots@,
            );
            lemma_retired(
                before,
                old(self).widget_manager.tree.depths(),
                old(self).widget_manager.tree.height_bound(),
                parent,
                ops,
                ops.len(),
            );
        }
        self.settle(&outcome);
        proof {
            assert forall|o: BindingId| old(self).bindings.has(o) implies
                (#[trigger] self.bindings.subscribers(o)).subset_of(
                old(self).bindings.subscribers(o).difference(outcome.removed@.to_set()),
            ) by {
                assert(self.bindings.subscribers(o) == old(self).bindings.subscribers(
                    o,
                ).difference(outcome.removed@.to_set()));
            }
            assert forall|w: Index|
                #[trigger] old(self).widget_manager.tree@.contains_key(w)
                    && !outcome.removed@.to_set().contains(w) implies
                self.widget_manager.tree@.contains_key(w) by {
                assert(!outcome.removed@.contains(w));
            }
            lemma_subscribers_live(old(self), self, outcome.removed@.to_set());
            lemma_after_schedule_extends(
                old(self).scheduler.pending(),
                old(self).scheduler.rendered(),
                old(self).bindings.dirty(),
                outcome.updated@ + outcome.inserted@,
                (outcome.updated@ + outcome.inserted@).len(),
            );
            lemma_asked_lists(old(self), self, outcome.updated@, outcome.inserted@);
            assert forall|x: Index|
                #[trigger] self.widget_manager.tree@.contains_key(x)
                    && !old(self).widget_manager.tree@.contains_key(x) implies
                        !old(self).widget_manager.tree.issued(x) by {
                assert(outcome.inserted@.contains(x));
            }
        }
        Ok(outcome)
    }

    /// Whether the handler that `event` calls has no widget to write, so
    /// that the event cannot be delivered.
    pub fn handler_would_fail(&self, event: &Event) -> (r: bool)
        requires
            self.wf(),
        ensures
            r == handler_fails(self.live_tree()@, *event),
    {
        match self.widget_manager.tree.get(event.target) {
            None => false,
            Some(node) => match node.widget.props.on_event {
                None => false,
                Some(h) => h.accepts(event) && h.value.is_none(),
            },
        }
    }

    /// Delivers `event` to its target. A click on a widget of the live tree
    /// is recorded as the last click, and the handler of the target, if it
    /// has one for the event's category, writes its widget to its binding.
    /// No other widget is told of the event. Returns whether a handler ran.
    ///
    /// The handler that is to run must have a widget to write;
    /// [`KayakContext::handler_would_fail`] tells.
    ///
    /// Only bindings change: what the event brings about shows in the tree
    /// with the next render pass.
    pub fn dispatch(&mut self, event: &Event) -> (handled: bool)
        requires
            old(self).wf(),
            !handler_fails(old(self).live_tree()@, *event),
        ensures
            final(self).wf(),
            final(self).live_tree() == old(self).live_tree(),
            final(self).same_pass(old(self)),
            final(self).clicked() == old(self).clicked(),
            final(self).registry().count() == old(self).registry().count(),
            handled == handler_runs(old(self).live_tree()@, *event),
            ({
                let tree = old(self).live_tree()@;
                let handler = tree[event.target].widget.props.on_event;
                let click = tree.contains_key(event.target) && event.event_type
                    == EventType::Click;
                exists|mid: BindingRegistry<Index>|
                    #![trigger mid.count()]
                    {
                        &&& mid.wf()
                        &&& mid.count() == old(self).registry().count()
                        &&& written(
                            &old(self).registry(),
                            &mid,
                            click,
                            old(self).clicked(),
                            event.target,
                        )
                        &&& written(
                            &mid,
                            &final(self).registry(),
                            handled,
                            handler.unwrap().binding,
                            handler.unwrap().value.unwrap(),
                        )
                    }
            }),
    {
        let handler = match self.widget_manager.tree.get(event.target) {
            None => {
                let ghost same = self.bindings;
                assert(written(&same, &same, false, self.last_clicked, event.target));
                return false;
            },
            Some(node) => node.widget.props.on_event,
        };
        let write = match handler {
            Some(h) => if h.accepts(event) {
                Some((h.binding, h.value.unwrap()))
            } else {
                None
            },
            None => None,
        };
        if event.event_type == EventType::Click {
            self.bindings.set(self.last_clicked, event.target);
        }
        let ghost mid = self.bindings;
        let mut handled = false;
        if let Some((binding, value)) = write {
            self.bindings.set(binding, value);
            handled = true;
        }
        proof {
            assert(mid.count() == old(self).bindings.count());
            assert forall|o: BindingId| old(self).bindings.has(o) implies
                #[trigger] self.bindings.subscribers(o) == old(self).bindings.subscribers(o) by {
                assert(mid.has(o));
                assert(mid.subscribers(o) == old(self).bindings.subscribers(o));
                assert(self.bindings.subscribers(o) == mid.subscribers(o));
            }
            lemma_subscribers_live(old(self), self, Set::empty());
        }
        handled
    }

    /// Marks the widget `id` dirty, which asks for its render in the next
    /// pass. The pass in progress stays as it is.
    pub fn mark_dirty(&mut self, id: Index)
        requires
            old(self).wf(),
        ensures
            final(self).wf(),
            final(self).live_tree() == old(self).live_tree(),
            final(self).same_pass(old(self)),
            final(self).clicked() == old(self).clicked(),
            final(self).registry().count() == old(self).registry().count(),
            final(self).registry().keeps_cells(&old(self).registry()),
            final(self).registry().dirty() == old(self).registry().dirty().insert(id),
    {
        self.bindings.mark_dirty(id);
    }

    /// The debug name of the widget `id`, if `id` names a node.
    pub fn get_name(&self, id: Index) -> (r: Option<String>)
        requires
            self.wf(),
        ensures
            r is Some <==> self.live_tree()@.contains_key(id),
            r matches Some(name) ==> name@ == self.live_tree()@[id].widget.name,
    {
        match self.widget_manager.tree.get(id) {
            Some(node) => Some(node.widget.name.clone()),
            None => None,
        }
    }

    /// The node that `id` names, if it names one.
    pub fn get_node(&self, id: Index) -> (r: Option<&WidgetNode>)
        requires
            self.wf(),
        ensures
            r is Some <==> self.live_tree()@.contains_key(id),
            r matches Some(node) ==> node@ == self.live_tree()@[id] && node.id == id,
    {
        self.widget_manager.tree.get(id)
    }

    /// The parent of the widget `id`; `None` where `id` names a root or no
    /// node.
    pub fn get_valid_parent(&self, id: Index) -> (r: Option<Index>)
        requires
            self.wf(),
        ensures
            r == ancestor_at(self.live_tree()@, id, 1),
            r == (if self.live_tree()@.contains_key(id) {
                self.live_tree()@[id].parent
            } else {
                None
            }),
            r matches Some(p) ==> self.live_tree()@.contains_key(p),
    {
        proof {
            self.widget_manager.tree.lemma_wf();
        }
        self.widget_manager.tree.get_parent(id)
    }
}

} // verus!
