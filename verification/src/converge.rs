//! Why rendering converges: the script that a comparison gives can always
//! be applied, it puts the children in the order of the declarations, and a
//! second comparison finds nothing left to do.

use vstd::prelude::*;
use crate::diff::{
    diff_spec, insert_ops, insert_step, lemma_diff_identical, retained_at, retire_ops,
    retire_step, snapshots_of, ChildView, EditOpView,
};
use crate::index::Index;
use crate::merge::{
    grown, insertions, lemma_placed_prefix, lemma_removals_touched, op_fault, placed,
    props_after, removals, retired, script_fault, survivors, touched, updates,
};
use crate::props::PropsView;
use crate::props::WidgetView;
use crate::shape::{
    NodeView, ancestor_at, depths_wf, in_subtree, is_copy, lemma_chain_compose,
    lemma_chain_depth, lemma_child_differs, lemma_in_subtree_lifts, lemma_in_subtree_unfold,
    lemma_pruned_parent, lemma_pruned_wf, lemma_push_contains, lemma_with_widget_wf,
    lemma_without_at, links_wf, mirrors,
};

verus! {

/// The number of positions below `n` that hold a widget of the same kind
/// before and after.
pub open spec fn ret_count(old: Seq<ChildView>, new: Seq<ChildView>, n: nat) -> nat
    decreases n,
{
    if n == 0 {
        0
    } else {
        ret_count(old, new, (n - 1) as nat) + if retained_at(old, new, n - 1) {
            1nat
        } else {
            0nat
        }
    }
}

/// The old children at positions below `n` that are not kept, in order.
pub open spec fn rem_ids(old: Seq<ChildView>, new: Seq<ChildView>, n: nat) -> Seq<Index>
    decreases n,
{
    if n == 0 {
        Seq::empty()
    } else {
        let rest = rem_ids(old, new, (n - 1) as nat);
        if retained_at(old, new, n - 1) {
            rest
        } else {
            rest.push(old[n - 1].id)
        }
    }
}

/// The old children at positions below `n` that are kept, in order.
pub open spec fn kept_ids(old: Seq<ChildView>, new: Seq<ChildView>, n: nat) -> Seq<Index>
    decreases n,
{
    if n == 0 {
        Seq::empty()
    } else {
        let rest = kept_ids(old, new, (n - 1) as nat);
        if retained_at(old, new, n - 1) {
            rest.push(old[n - 1].id)
        } else {
            rest
        }
    }
}

/// The insertions for the declarations at positions below `n`, in order.
pub open spec fn ins_list(old: Seq<ChildView>, new: Seq<ChildView>, n: nat) -> Seq<(int, Index)>
    decreases n,
{
    if n == 0 {
        Seq::empty()
    } else {
        let rest = ins_list(old, new, (n - 1) as nat);
        if retained_at(old, new, n - 1) {
            rest
        } else {
            rest.push((n - 1, new[n - 1].id))
        }
    }
}

/// The first `n` children after a render: at each position the old child,
/// where it is kept, and otherwise the next of the new identifiers `roots`.
pub open spec fn merged_ids(
    old: Seq<ChildView>,
    new: Seq<ChildView>,
    roots: Seq<Index>,
    n: nat,
) -> Seq<Index>
    decreases n,
{
    if n == 0 {
        Seq::empty()
    } else {
        merged_ids(old, new, roots, (n - 1) as nat).push(
            if retained_at(old, new, n - 1) {
                old[n - 1].id
            } else {
                roots[(n - 1) - ret_count(old, new, (n - 1) as nat)]
            },
        )
    }
}

/// What the first `n` edits remove, update and insert depends on those
/// edits only.
pub proof fn lemma_folds_prefix(a: Seq<EditOpView>, b: Seq<EditOpView>, n: nat)
    requires
        n <= a.len(),
        n <= b.len(),
        forall|i: int| 0 <= i < n ==> a[i] == b[i],
    ensures
        removals(a, n) == removals(b, n),
        touched(a, n) == touched(b, n),
        updates(a, n) == updates(b, n),
        insertions(a, n) == insertions(b, n),
    decreases n,
{
    if n > 0 {
        lemma_folds_prefix(a, b, (n - 1) as nat);
    }
}

/// The tree after the first `n` edits depends on those edits only.
pub proof fn lemma_retired_prefix(
    m: Map<Index, NodeView>,
    a: Seq<EditOpView>,
    b: Seq<EditOpView>,
    n: nat,
)
    requires
        n <= a.len(),
        n <= b.len(),
        forall|i: int| 0 <= i < n ==> a[i] == b[i],
    ensures
        retired(m, a, n) == retired(m, b, n),
    decreases n,
{
    if n > 0 {
        lemma_retired_prefix(m, a, b, (n - 1) as nat);
    }
}

/// What a script followed by `n` more edits removes, updates and inserts is
/// what the script does, followed by what the further edits do.
pub proof fn lemma_folds_concat(a: Seq<EditOpView>, b: Seq<EditOpView>, n: nat)
    requires
        n <= b.len(),
    ensures
        removals(a + b, a.len() + n) == removals(a, a.len()) + removals(b, n),
        touched(a + b, a.len() + n) == touched(a, a.len()) + touched(b, n),
        updates(a + b, a.len() + n) == updates(a, a.len()) + updates(b, n),
        insertions(a + b, a.len() + n) == insertions(a, a.len()) + insertions(b, n),
    decreases n,
{
    if n == 0 {
        lemma_folds_prefix(a + b, a, a.len());
        assert(removals(a, a.len()) + removals(b, 0) =~= removals(a, a.len()));
        assert(touched(a, a.len()) + touched(b, 0) =~= touched(a, a.len()));
        assert(updates(a, a.len()) + updates(b, 0) =~= updates(a, a.len()));
        assert(insertions(a, a.len()) + insertions(b, 0) =~= insertions(a, a.len()));
    } else {
        lemma_folds_concat(a, b, (n - 1) as nat);
        assert((a + b)[a.len() + n - 1] == b[n - 1]);
        assert(removals(a + b, a.len() + n) =~= removals(a, a.len()) + removals(b, n));
        assert(touched(a + b, a.len() + n) =~= touched(a, a.len()) + touched(b, n));
        assert(updates(a + b, a.len() + n) =~= updates(a, a.len()) + updates(b, n));
        assert(insertions(a + b, a.len() + n) =~= insertions(a, a.len()) + insertions(b, n));
    }
}

/// The tree after a script followed by `n` more edits is the tree after the
/// script, after the further edits.
pub proof fn lemma_retired_concat(
    m: Map<Index, NodeView>,
    a: Seq<EditOpView>,
    b: Seq<EditOpView>,
    n: nat,
)
    requires
        n <= b.len(),
    ensures
        retired(m, a + b, a.len() + n) == retired(retired(m, a, a.len()), b, n),
    decreases n,
{
    if n == 0 {
        lemma_retired_prefix(m, a + b, a, a.len());
    } else {
        lemma_retired_concat(m, a, b, (n - 1) as nat);
        assert((a + b)[a.len() + n - 1] == b[n - 1]);
    }
}

/// The number of kept positions grows with the number of positions.
pub proof fn lemma_ret_count_grows(old: Seq<ChildView>, new: Seq<ChildView>, i: nat, j: nat)
    requires
        i <= j,
    ensures
        ret_count(old, new, i) <= ret_count(old, new, j),
        ret_count(old, new, j) <= j,
        (old.len() <= i || new.len() <= i) ==> ret_count(old, new, i) == ret_count(old, new, j),
    decreases j,
{
    if i < j {
        lemma_ret_count_grows(old, new, i, (j - 1) as nat);
    } else if j > 0 {
        lemma_ret_count_grows(old, new, (j - 1) as nat, (j - 1) as nat);
    }
}

/// What the removals and updates of a comparison come to: the removals are
/// the old children that are not kept, every edit names an old child, and no
/// edit inserts.
pub proof fn lemma_retire_folds(old: Seq<ChildView>, new: Seq<ChildView>, n: nat)
    requires
        n <= old.len(),
    ensures
        removals(retire_ops(old, new, n), retire_ops(old, new, n).len()) == rem_ids(old, new, n),
        insertions(retire_ops(old, new, n), retire_ops(old, new, n).len()) == Seq::<
            (int, Index),
        >::empty(),
        forall|x: Index|
            touched(retire_ops(old, new, n), retire_ops(old, new, n).len()).contains(x)
                ==> exists|j: int| 0 <= j < n && #[trigger] old[j].id == x,
        rem_ids(old, new, n).len() + ret_count(old, new, n) == n,
        kept_ids(old, new, n).len() == ret_count(old, new, n),
        retire_ops(old, new, n).len() <= n,
    decreases n,
{
    if n > 0 {
        let a = retire_ops(old, new, (n - 1) as nat);
        let step = retire_step(old, new, n - 1);
        lemma_retire_folds(old, new, (n - 1) as nat);
        lemma_folds_concat(a, step, step.len());
        reveal_with_fuel(removals, 2);
        reveal_with_fuel(touched, 2);
        reveal_with_fuel(insertions, 2);
        assert(a + Seq::<EditOpView>::empty() =~= a);
        let t = touched(a, a.len());
        let t2 = touched(a + step, (a + step).len());
        assert forall|x: Index| t2.contains(x) implies exists|j: int|
            0 <= j < n && #[trigger] old[j].id == x by {
            let i = t2.index_of(x);
            if i < t.len() {
                assert(t[i] == x);
                assert(t.contains(x));
                let j = choose|j: int| 0 <= j < n - 1 && #[trigger] old[j].id == x;
                assert(old[j].id == x);
            } else {
                assert(old[n - 1].id == x);
            }
        }
        assert(removals(a + step, (a + step).len()) =~= rem_ids(old, new, n));
        assert(insertions(a + step, (a + step).len()) =~= Seq::<(int, Index)>::empty());
    }
}

/// What the insertions of a comparison come to: they remove and update
/// nothing, and insert the declarations that describe no kept child.
pub proof fn lemma_insert_folds(old: Seq<ChildView>, new: Seq<ChildView>, n: nat)
    requires
        n <= new.len(),
    ensures
        removals(insert_ops(old, new, n), insert_ops(old, new, n).len()) == Seq::<Index>::empty(),
        touched(insert_ops(old, new, n), insert_ops(old, new, n).len()) == Seq::<Index>::empty(),
        updates(insert_ops(old, new, n), insert_ops(old, new, n).len()) == Seq::<Index>::empty(),
        insertions(insert_ops(old, new, n), insert_ops(old, new, n).len()) == ins_list(old, new, n),
        ins_list(old, new, n).len() + ret_count(old, new, n) == n,
        insert_ops(old, new, n).len() == ins_list(old, new, n).len(),
    decreases n,
{
    if n > 0 {
        let a = insert_ops(old, new, (n - 1) as nat);
        let step = insert_step(old, new, n - 1);
        lemma_insert_folds(old, new, (n - 1) as nat);
        lemma_folds_concat(a, step, step.len());
        reveal_with_fuel(removals, 2);
        reveal_with_fuel(touched, 2);
        reveal_with_fuel(updates, 2);
        reveal_with_fuel(insertions, 2);
        assert(a + Seq::<EditOpView>::empty() =~= a);
        assert(removals(a + step, (a + step).len()) =~= Seq::<Index>::empty());
        assert(touched(a + step, (a + step).len()) =~= Seq::<Index>::empty());
        assert(updates(a + step, (a + step).len()) =~= Seq::<Index>::empty());
        assert(insertions(a + step, (a + step).len()) =~= ins_list(old, new, n));
    }
}

/// The removals and updates for fewer positions are the first of those for
/// more positions.
pub proof fn lemma_retire_ops_prefix(old: Seq<ChildView>, new: Seq<ChildView>, i: nat, n: nat)
    requires
        i <= n,
    ensures
        retire_ops(old, new, i).len() <= retire_ops(old, new, n).len(),
        forall|j: int|
            0 <= j < retire_ops(old, new, i).len() ==> retire_ops(old, new, i)[j] == retire_ops(
                old,
                new,
                n,
            )[j],
    decreases n,
{
    if i < n {
        lemma_retire_ops_prefix(old, new, i, (n - 1) as nat);
    }
}

/// The insertions for fewer positions are the first of those for more
/// positions.
pub proof fn lemma_insert_ops_prefix(old: Seq<ChildView>, new: Seq<ChildView>, i: nat, n: nat)
    requires
        i <= n,
    ensures
        insert_ops(old, new, i).len() <= insert_ops(old, new, n).len(),
        forall|j: int|
            0 <= j < insert_ops(old, new, i).len() ==> insert_ops(old, new, i)[j] == insert_ops(
                old,
                new,
                n,
            )[j],
    decreases n,
{
    if i < n {
        lemma_insert_ops_prefix(old, new, i, (n - 1) as nat);
    }
}

/// Whether edit `k` of the removals and updates is the one for position
/// `i`: it follows those for the positions below `i`.
pub open spec fn retires_at(old: Seq<ChildView>, new: Seq<ChildView>, k: int, i: int) -> bool {
    &&& 0 <= i < old.len()
    &&& retire_ops(old, new, i as nat).len() == k
    &&& retire_step(old, new, i).len() == 1
}

/// Whether insertion `k` is the one for position `i`: it follows those for
/// the positions below `i`.
pub open spec fn inserts_at(old: Seq<ChildView>, new: Seq<ChildView>, k: int, i: int) -> bool {
    &&& 0 <= i < new.len()
    &&& insert_ops(old, new, i as nat).len() == k
    &&& insert_step(old, new, i).len() == 1
}

/// Every removal or update of a comparison is the one for some position.
pub proof fn lemma_retire_position(old: Seq<ChildView>, new: Seq<ChildView>, n: nat, k: int) -> (i:
    int)
    requires
        n <= old.len(),
        0 <= k < retire_ops(old, new, n).len(),
    ensures
        i < n,
        retires_at(old, new, k, i),
        retire_ops(old, new, n)[k] == retire_step(old, new, i)[0],
    decreases n,
{
    let before = retire_ops(old, new, (n - 1) as nat);
    if k < before.len() {
        lemma_retire_position(old, new, (n - 1) as nat, k)
    } else {
        n - 1
    }
}

/// Every insertion of a comparison is the one for some position.
pub proof fn lemma_insert_position(old: Seq<ChildView>, new: Seq<ChildView>, n: nat, k: int) -> (i:
    int)
    requires
        n <= new.len(),
        0 <= k < insert_ops(old, new, n).len(),
    ensures
        i < n,
        inserts_at(old, new, k, i),
        insert_ops(old, new, n)[k] == insert_step(old, new, i)[0],
    decreases n,
{
    let before = insert_ops(old, new, (n - 1) as nat);
    if k < before.len() {
        lemma_insert_position(old, new, (n - 1) as nat, k)
    } else {
        n - 1
    }
}

/// Whether each of the first `n` edits that removes or updates names a child
/// of `p` that no earlier edit removes or updates.
pub open spec fn targets_ok(m: Map<Index, NodeView>, p: Index, ops: Seq<EditOpView>,
    n: nat) -> bool {
    forall|k: int|
        0 <= k < n ==> match #[trigger] ops[k] {
            EditOpView::Remove { id } => m[p].children.contains(id) && !touched(
                ops,
                k as nat,
            ).contains(id),
            EditOpView::Update { id, .. } => m[p].children.contains(id) && !touched(
                ops,
                k as nat,
            ).contains(id),
            EditOpView::Insert { .. } => true,
        }
}

/// What the list of survivors is depends only on those that were taken out.
pub proof fn lemma_survivors_prefix(children: Seq<Index>, a: Seq<Index>, b: Seq<Index>, n: nat)
    requires
        n <= a.len(),
        n <= b.len(),
        forall|i: int| 0 <= i < n ==> a[i] == b[i],
    ensures
        survivors(children, a, n) == survivors(children, b, n),
    decreases n,
{
    if n > 0 {
        lemma_survivors_prefix(children, a, b, (n - 1) as nat);
    }
}

/// The node of a kept child after some edits: as it was, but for its
/// properties.
pub open spec fn kept_node(m: Map<Index, NodeView>, ops: Seq<EditOpView>, n: nat,
    x: Index) -> NodeView {
    NodeView {
        widget: WidgetView { props: props_after(ops, n, x, m[x].widget.props), ..m[x].widget },
        ..m[x]
    }
}

/// What the tree is after the first `n` edits of a script whose removals
/// and updates name children of `p`, each at most once: a forest again, in
/// which `p` has lost the removed children, in which every other child of
/// `p` is as it was but for its properties, and which holds no node that was
/// not there before.
pub proof fn lemma_retired(
    m: Map<Index, NodeView>,
    depth: Map<Index, nat>,
    bound: nat,
    p: Index,
    ops: Seq<EditOpView>,
    n: nat,
)
    requires
        links_wf(m),
        depths_wf(m, depth, bound),
        m.contains_key(p),
        n <= ops.len(),
        targets_ok(m, p, ops, n),
    ensures
        links_wf(retired(m, ops, n)),
        depths_wf(retired(m, ops, n), depth, bound),
        retired(m, ops, n).contains_key(p),
        retired(m, ops, n)[p].widget == m[p].widget,
        retired(m, ops, n)[p].parent == m[p].parent,
        retired(m, ops, n)[p].children == survivors(
            m[p].children,
            removals(ops, n),
            removals(ops, n).len(),
        ),
        forall|x: Index| #[trigger] retired(m, ops, n).contains_key(x) ==> m.contains_key(x),
        forall|x: Index|
            #[trigger] m[p].children.contains(x) && !removals(ops, n).contains(x) ==> retired(
                m,
                ops,
                n,
            ).contains_key(x) && retired(m, ops, n)[x] == kept_node(m, ops, n, x),
        forall|x: Index|
            #[trigger] retired(m, ops, n)[p].children.contains(x) <==> m[p].children.contains(x)
                && !removals(ops, n).contains(x),
        forall|x: Index| #[trigger] touched(ops, n).contains(x) ==> m[p].children.contains(x),
    decreases n,
{
    if n == 0 {
        assert forall|x: Index|
            #[trigger] m[p].children.contains(x) && !removals(ops, n).contains(x) implies retired(
            m,
            ops,
            n,
        ).contains_key(x) && retired(m, ops, n)[x] == kept_node(m, ops, n, x) by {
            lemma_child_differs(m, depth, bound, p, x);
        }
    } else {
        let n0 = (n - 1) as nat;
        let r0 = retired(m, ops, n0);
        let r = retired(m, ops, n);
        let gone0 = removals(ops, n0);
        let gone = removals(ops, n);
        assert(targets_ok(m, p, ops, n0));
        lemma_retired(m, depth, bound, p, ops, n0);
        lemma_removals_touched(ops, n0);
        let op = ops[n - 1];
        match op {
            EditOpView::Remove { id } => {
                assert(m[p].children.contains(id) && !touched(ops, n0).contains(id));
                assert(!gone0.contains(id));
                lemma_child_differs(m, depth, bound, p, id);
                assert(r0.contains_key(id) && r0[id] == kept_node(m, ops, n0, id));
                assert(r0[id].parent == Some(p));
                lemma_pruned_wf(r0, depth, bound, id);
                lemma_pruned_parent(r0, depth, bound, id);
                assert(r0[p].children.contains(id));
                let at = r0[p].children.index_of(id);
                lemma_without_at(r0[p].children, at);
                assert(gone == gone0.push(id));
                lemma_survivors_prefix(m[p].children, gone0, gone, gone0.len());
                assert forall|x: Index|
                    #[trigger] r[p].children.contains(x) <==> m[p].children.contains(x)
                        && !gone.contains(x) by {
                    lemma_push_contains(gone0, id, x);
                    assert(r0[p].children.contains(x) <==> m[p].children.contains(x)
                        && !gone0.contains(x));
                }
                assert forall|x: Index|
                    #[trigger] m[p].children.contains(x) && !gone.contains(x) implies
                        r.contains_key(
                    x,
                ) && r[x] == kept_node(m, ops, n, x) by {
                    lemma_push_contains(gone0, id, x);
                    lemma_child_differs(m, depth, bound, p, x);
                    assert(r[p].children.contains(x));
                    let i = r[p].children.index_of(x);
                    assert(r.contains_key(r[p].children[i]));
                    assert(r0.contains_key(x) && r0[x] == kept_node(m, ops, n0, x));
                }
                assert forall|x: Index| #[trigger] touched(ops, n).contains(x) implies
                    m[p].children.contains(
                    x,
                ) by {
                    lemma_push_contains(touched(ops, n0), id, x);
                }
            },
            EditOpView::Update { id, tag, props } => {
                assert(m[p].children.contains(id) && !touched(ops, n0).contains(id));
                assert(!gone0.contains(id));
                lemma_child_differs(m, depth, bound, p, id);
                assert(r0.contains_key(id) && r0[id] == kept_node(m, ops, n0, id));
                let w = WidgetView { props, ..r0[id].widget };
                lemma_with_widget_wf(r0, depth, bound, id, w);
                assert(gone == gone0);
                assert(r[p] == r0[p]);
                assert forall|x: Index|
                    #[trigger] m[p].children.contains(x) && !gone.contains(x) implies
                        r.contains_key(
                    x,
                ) && r[x] == kept_node(m, ops, n, x) by {
                    assert(r0.contains_key(x) && r0[x] == kept_node(m, ops, n0, x));
                }
                assert forall|x: Index| #[trigger] touched(ops, n).contains(x) implies
                    m[p].children.contains(
                    x,
                ) by {
                    lemma_push_contains(touched(ops, n0), id, x);
                }
                assert forall|x: Index| #[trigger] r.contains_key(x) implies m.contains_key(x) by {
                    assert(r0.contains_key(x));
                }
            },
            EditOpView::Insert { position, root } => {
                assert(gone == gone0);
                assert forall|x: Index|
                    #[trigger] m[p].children.contains(x) && !gone.contains(x) implies
                        r.contains_key(
                    x,
                ) && r[x] == kept_node(m, ops, n, x) by {
                    assert(r0.contains_key(x) && r0[x] == kept_node(m, ops, n0, x));
                }
            },
        }
    }
}

/// Whether the declarations `decl` of the scratch tree `s` can be rendered
/// into the children of `p` in the forest `m`: `p` is a node of `m`, and
/// every declaration is a node of `s`.
pub open spec fn renderable(
    m: Map<Index, NodeView>,
    depth: Map<Index, nat>,
    bound: nat,
    p: Index,
    s: Map<Index, NodeView>,
    decl: Seq<Index>,
) -> bool {
    &&& links_wf(m)
    &&& depths_wf(m, depth, bound)
    &&& m.contains_key(p)
    &&& forall|i: int| 0 <= i < decl.len() ==> s.contains_key(#[trigger] decl[i])
}

/// A script whose edits are all without fault is without fault.
pub proof fn lemma_each_ok(
    m: Map<Index, NodeView>,
    s: Map<Index, NodeView>,
    p: Index,
    ops: Seq<EditOpView>,
    n: nat,
)
    requires
        n <= ops.len(),
        forall|k: int| 0 <= k < n ==> op_fault(m, s, p, ops, k) is None,
    ensures
        script_fault(m, s, p, ops, n) is None,
        targets_ok(m, p, ops, n),
    decreases n,
{
    if n > 0 {
        lemma_each_ok(m, s, p, ops, (n - 1) as nat);
        assert(op_fault(m, s, p, ops, n - 1) is None);
    }
    assert forall|k: int| 0 <= k < n implies match #[trigger] ops[k] {
        EditOpView::Remove { id } => m[p].children.contains(id) && !touched(ops, k as nat).contains(
            id,
        ),
        EditOpView::Update { id, .. } => m[p].children.contains(id) && !touched(
            ops,
            k as nat,
        ).contains(id),
        EditOpView::Insert { .. } => true,
    } by {
        assert(op_fault(m, s, p, ops, k) is None);
    }
}

/// No edit of the script that a comparison gives is faulty.
pub proof fn lemma_diff_op_ok(
    m: Map<Index, NodeView>,
    depth: Map<Index, nat>,
    bound: nat,
    p: Index,
    s: Map<Index, NodeView>,
    decl: Seq<Index>,
    k: int,
)
    requires
        renderable(m, depth, bound, p, s, decl),
        0 <= k < diff_spec(
            snapshots_of(m, m[p].children),
            snapshots_of(s, decl),
        ).len(),
    ensures
        op_fault(
            m,
            s,
            p,
            diff_spec(snapshots_of(m, m[p].children), snapshots_of(s, decl)),
            k,
        ) is None,
{
    let children = m[p].children;
    let old = snapshots_of(m, children);
    let new = snapshots_of(s, decl);
    let a = old.len();
    let b = new.len();
    let first = retire_ops(old, new, a);
    let second = insert_ops(old, new, b);
    let ops = diff_spec(old, new);
    lemma_retire_folds(old, new, a);
    lemma_insert_folds(old, new, b);
    lemma_folds_concat(first, second, second.len());
    assert(removals(ops, ops.len()) =~= rem_ids(old, new, a));
    if k < first.len() {
        let i = lemma_retire_position(old, new, a, k);
        let upto = retire_ops(old, new, i as nat);
        lemma_retire_ops_prefix(old, new, i as nat, a);
        lemma_folds_prefix(ops, upto, k as nat);
        lemma_retire_folds(old, new, i as nat);
        assert(ops[k] == retire_step(old, new, i)[0]);
        assert(children[i] == old[i].id);
        assert(children.contains(old[i].id));
        if touched(ops, k as nat).contains(old[i].id) {
            let j = choose|j: int| 0 <= j < i && #[trigger] old[j].id == old[i].id;
            assert(children[j] == children[i]);
        }
    } else {
        let kk = k - first.len();
        let i = lemma_insert_position(old, new, b, kk);
        let upto = insert_ops(old, new, i as nat);
        lemma_insert_ops_prefix(old, new, i as nat, b);
        assert(ops[k] == insert_step(old, new, i)[0]);
        assert forall|j: int| 0 <= j < k implies ops[j] == (first + upto)[j] by {
            if j >= first.len() {
                assert(second[j - first.len()] == upto[j - first.len()]);
            }
        }
        lemma_folds_prefix(ops, first + upto, k as nat);
        lemma_folds_concat(first, upto, upto.len());
        lemma_insert_folds(old, new, i as nat);
        assert(insertions(ops, k as nat) =~= ins_list(old, new, i as nat));
        assert(new[i].id == decl[i]);
        if i <= a {
            lemma_ret_count_grows(old, new, i as nat, a);
        } else {
            lemma_ret_count_grows(old, new, a, i as nat);
        }
    }
}

/// The script that a comparison gives can always be applied: it is without
/// fault.
pub proof fn lemma_diff_applies(
    m: Map<Index, NodeView>,
    depth: Map<Index, nat>,
    bound: nat,
    p: Index,
    s: Map<Index, NodeView>,
    decl: Seq<Index>,
)
    requires
        renderable(m, depth, bound, p, s, decl),
    ensures
        script_fault(
            m,
            s,
            p,
            diff_spec(snapshots_of(m, m[p].children), snapshots_of(s, decl)),
            diff_spec(snapshots_of(m, m[p].children), snapshots_of(s, decl)).len(),
        ) is None,
        targets_ok(
            m,
            p,
            diff_spec(snapshots_of(m, m[p].children), snapshots_of(s, decl)),
            diff_spec(snapshots_of(m, m[p].children), snapshots_of(s, decl)).len(),
        ),
{
    let ops = diff_spec(snapshots_of(m, m[p].children), snapshots_of(s, decl));
    assert forall|k: int| 0 <= k < ops.len() implies op_fault(m, s, p, ops, k) is None by {
        lemma_diff_op_ok(m, depth, bound, p, s, decl, k);
    }
    lemma_each_ok(m, s, p, ops, ops.len());
}

/// Whether `children` are the identifiers of the snapshots `old`, in order.
pub open spec fn ids_of(children: Seq<Index>, old: Seq<ChildView>) -> bool {
    &&& children.len() == old.len()
    &&& forall|i: int| 0 <= i < old.len() ==> (#[trigger] old[i]).id == children[i]
}

/// The lists for fewer positions are the first of the lists for more
/// positions.
pub proof fn lemma_lists_prefix(
    old: Seq<ChildView>,
    new: Seq<ChildView>,
    roots: Seq<Index>,
    i: nat,
    n: nat,
)
    requires
        i <= n,
    ensures
        kept_ids(old, new, i).len() <= kept_ids(old, new, n).len(),
        forall|j: int|
            0 <= j < kept_ids(old, new, i).len() ==> kept_ids(old, new, i)[j] == kept_ids(
                old,
                new,
                n,
            )[j],
        ins_list(old, new, i).len() <= ins_list(old, new, n).len(),
        forall|j: int|
            0 <= j < ins_list(old, new, i).len() ==> ins_list(old, new, i)[j] == ins_list(
                old,
                new,
                n,
            )[j],
        merged_ids(old, new, roots, i).len() == i,
        merged_ids(old, new, roots, n).len() == n,
        forall|j: int|
            0 <= j < i ==> merged_ids(old, new, roots, i)[j] == merged_ids(old, new, roots, n)[j],
    decreases n,
{
    if i < n {
        lemma_lists_prefix(old, new, roots, i, (n - 1) as nat);
    } else if n > 0 {
        lemma_lists_prefix(old, new, roots, (n - 1) as nat, (n - 1) as nat);
    }
}

/// Every identifier among the removed ones is that of an old child that is
/// not kept.
pub proof fn lemma_rem_ids_origin(old: Seq<ChildView>, new: Seq<ChildView>, n: nat, x: Index) -> (j:
    int)
    requires
        rem_ids(old, new, n).contains(x),
    ensures
        0 <= j < n,
        !retained_at(old, new, j),
        old[j].id == x,
    decreases n,
{
    if n == 0 {
        assert(false);
        0
    } else {
        let rest = rem_ids(old, new, (n - 1) as nat);
        if !retained_at(old, new, n - 1) && old[n - 1].id == x {
            n - 1
        } else {
            if !retained_at(old, new, n - 1) {
                lemma_push_contains(rest, old[n - 1].id, x);
            }
            lemma_rem_ids_origin(old, new, (n - 1) as nat, x)
        }
    }
}

/// The kept child at a position is found among the kept children behind
/// those of the positions before it.
pub proof fn lemma_kept_at(old: Seq<ChildView>, new: Seq<ChildView>, j: int)
    requires
        retained_at(old, new, j),
    ensures
        ret_count(old, new, j as nat) < kept_ids(old, new, old.len()).len(),
        kept_ids(old, new, old.len())[ret_count(old, new, j as nat) as int] == old[j].id,
{
    lemma_retire_folds(old, new, j as nat);
    lemma_lists_prefix(old, new, Seq::empty(), (j + 1) as nat, old.len());
    assert(kept_ids(old, new, (j + 1) as nat) == kept_ids(old, new, j as nat).push(old[j].id));
    assert(kept_ids(old, new, (j + 1) as nat)[ret_count(old, new, j as nat) as int] == old[j].id);
}

/// The insertion for a position that keeps no child is found among the
/// insertions behind those for the positions before it.
pub proof fn lemma_ins_at(old: Seq<ChildView>, new: Seq<ChildView>, j: int)
    requires
        0 <= j < new.len(),
        !retained_at(old, new, j),
    ensures
        0 <= j - ret_count(old, new, j as nat) < ins_list(old, new, new.len()).len(),
        ins_list(old, new, new.len())[j - ret_count(old, new, j as nat)] == (j, new[j].id),
{
    lemma_insert_folds(old, new, j as nat);
    lemma_lists_prefix(old, new, Seq::empty(), (j + 1) as nat, new.len());
    let upto = ins_list(old, new, j as nat);
    assert(ins_list(old, new, (j + 1) as nat) == upto.push((j, new[j].id)));
    assert(ins_list(old, new, (j + 1) as nat)[upto.len() as int] == (j, new[j].id));
}

/// Taking the children that are not kept out of a child list leaves the
/// kept children, in order.
pub proof fn lemma_survivors_kept(
    old: Seq<ChildView>,
    new: Seq<ChildView>,
    children: Seq<Index>,
    n: nat,
)
    requires
        n <= old.len(),
        ids_of(children, old),
        children.no_duplicates(),
    ensures
        survivors(children, rem_ids(old, new, n), rem_ids(old, new, n).len()) == kept_ids(
            old,
            new,
            n,
        ) + children.subrange(n as int, children.len() as int),
        survivors(children, rem_ids(old, new, n), rem_ids(old, new, n).len()).no_duplicates(),
    decreases n,
{
    let a = children.len() as int;
    if n == 0 {
        assert(children =~= kept_ids(old, new, 0) + children.subrange(0, a));
    } else {
        let j = n - 1;
        let gone0 = rem_ids(old, new, j as nat);
        let gone = rem_ids(old, new, n);
        let kept0 = kept_ids(old, new, j as nat);
        let before = survivors(children, gone0, gone0.len());
        lemma_survivors_kept(old, new, children, j as nat);
        assert(old[j].id == children[j]);
        if retained_at(old, new, j) {
            assert(kept0 + children.subrange(j, a) =~= kept0.push(children[j]) + children.subrange(
                n as int,
                a,
            ));
        } else {
            lemma_survivors_prefix(children, gone0, gone, gone0.len());
            assert(before[kept0.len() as int] == children[j]);
            lemma_without_at(before, kept0.len() as int);
            assert(before.remove(kept0.len() as int) =~= kept0 + children.subrange(n as int, a));
        }
    }
}

/// Carrying out the insertions for the first `n` positions puts the first
/// `n` children in their final order, ahead of the kept children of the
/// later positions.
pub proof fn lemma_placed_merged(
    old: Seq<ChildView>,
    new: Seq<ChildView>,
    roots: Seq<Index>,
    n: nat,
)
    requires
        n <= new.len(),
    ensures
        ret_count(old, new, n) <= kept_ids(old, new, old.len()).len(),
        placed(
            kept_ids(old, new, old.len()),
            ins_list(old, new, n),
            roots,
            ins_list(old, new, n).len(),
        ) == merged_ids(old, new, roots, n) + kept_ids(old, new, old.len()).skip(
            ret_count(old, new, n) as int,
        ),
    decreases n,
{
    let kept = kept_ids(old, new, old.len());
    lemma_retire_folds(old, new, old.len());
    if n <= old.len() {
        lemma_ret_count_grows(old, new, n, old.len());
    } else {
        lemma_ret_count_grows(old, new, old.len(), n);
    }
    if n == 0 {
        assert(kept =~= merged_ids(old, new, roots, 0) + kept.skip(0));
    } else {
        let j = n - 1;
        let ins0 = ins_list(old, new, j as nat);
        let ins = ins_list(old, new, n);
        let merged0 = merged_ids(old, new, roots, j as nat);
        let rc = ret_count(old, new, j as nat) as int;
        lemma_placed_merged(old, new, roots, j as nat);
        lemma_lists_prefix(old, new, roots, j as nat, n);
        lemma_insert_folds(old, new, j as nat);
        if retained_at(old, new, j) {
            lemma_kept_at(old, new, j);
            assert(merged0 + kept.skip(rc) =~= merged0.push(old[j].id) + kept.skip(rc + 1));
        } else {
            lemma_placed_prefix(kept, ins, roots, ins0, roots, ins0.len());
            assert(ins[ins0.len() as int] == (j, new[j].id));
            assert((merged0 + kept.skip(rc)).insert(j, roots[ins0.len() as int]) =~= merged0.push(
                roots[ins0.len() as int],
            ) + kept.skip(rc));
        }
    }
}

/// Applying the script of a comparison puts the children in the order of
/// the declarations: each position holds the old child, where it is kept,
/// and otherwise the next of the new identifiers.
pub proof fn lemma_merged_order(
    old: Seq<ChildView>,
    new: Seq<ChildView>,
    children: Seq<Index>,
    roots: Seq<Index>,
)
    requires
        ids_of(children, old),
        children.no_duplicates(),
    ensures
        placed(
            survivors(children, rem_ids(old, new, old.len()), rem_ids(old, new, old.len()).len()),
            ins_list(old, new, new.len()),
            roots,
            ins_list(old, new, new.len()).len(),
        ) == merged_ids(old, new, roots, new.len()),
        merged_ids(old, new, roots, new.len()).len() == new.len(),
{
    let kept = kept_ids(old, new, old.len());
    lemma_survivors_kept(old, new, children, old.len());
    assert(kept + children.subrange(children.len() as int, children.len() as int) =~= kept);
    lemma_placed_merged(old, new, roots, new.len());
    lemma_retire_folds(old, new, old.len());
    if new.len() <= old.len() {
        lemma_ret_count_grows(old, new, new.len(), old.len());
    } else {
        lemma_ret_count_grows(old, new, old.len(), new.len());
    }
    lemma_lists_prefix(old, new, roots, new.len(), new.len());
    assert(merged_ids(old, new, roots, new.len()) + kept.skip(kept.len() as int)
        =~= merged_ids(old, new, roots, new.len()));
}

/// The properties that a widget has after some edits depend on those edits
/// only.
pub proof fn lemma_props_after_prefix(
    a: Seq<EditOpView>,
    b: Seq<EditOpView>,
    n: nat,
    x: Index,
    base: PropsView,
)
    requires
        n <= a.len(),
        n <= b.len(),
        forall|i: int| 0 <= i < n ==> a[i] == b[i],
    ensures
        props_after(a, n, x, base) == props_after(b, n, x, base),
    decreases n,
{
    if n > 0 {
        lemma_props_after_prefix(a, b, (n - 1) as nat, x, base);
    }
}

/// The properties that a widget has after a script and `n` more edits are
/// those that the further edits give it, or else those that the script
/// gives it.
pub proof fn lemma_props_after_concat(
    a: Seq<EditOpView>,
    b: Seq<EditOpView>,
    n: nat,
    x: Index,
    base: PropsView,
)
    requires
        n <= b.len(),
    ensures
        props_after(a + b, a.len() + n, x, base) == props_after(
            b,
            n,
            x,
            props_after(a, a.len(), x, base),
        ),
    decreases n,
{
    if n == 0 {
        lemma_props_after_prefix(a + b, a, a.len(), x, base);
    } else {
        lemma_props_after_concat(a, b, (n - 1) as nat, x, base);
        assert((a + b)[a.len() + n - 1] == b[n - 1]);
    }
}

/// Insertions change the properties of no widget.
pub proof fn lemma_props_after_inserts(
    old: Seq<ChildView>,
    new: Seq<ChildView>,
    n: nat,
    x: Index,
    base: PropsView,
)
    requires
        n <= new.len(),
    ensures
        props_after(insert_ops(old, new, n), insert_ops(old, new, n).len(), x, base) == base,
    decreases n,
{
    if n > 0 {
        let a = insert_ops(old, new, (n - 1) as nat);
        let step = insert_step(old, new, n - 1);
        lemma_props_after_inserts(old, new, (n - 1) as nat, x, base);
        lemma_props_after_concat(a, step, step.len(), x, base);
        reveal_with_fuel(props_after, 2);
    }
}

/// The removals and updates for the first `n` positions give the old child
/// at position `i` its declared properties, where they update it, and leave
/// its properties alone otherwise.
pub proof fn lemma_props_after_retire(
    old: Seq<ChildView>,
    new: Seq<ChildView>,
    children: Seq<Index>,
    n: nat,
    i: int,
    base: PropsView,
)
    requires
        n <= old.len(),
        0 <= i < old.len(),
        ids_of(children, old),
        children.no_duplicates(),
    ensures
        props_after(retire_ops(old, new, n), retire_ops(old, new, n).len(), old[i].id, base) == (
        if i < n && retained_at(old, new, i) && old[i].props != new[i].props {
            new[i].props
        } else {
            base
        }),
    decreases n,
{
    if n > 0 {
        let a = retire_ops(old, new, (n - 1) as nat);
        let step = retire_step(old, new, n - 1);
        lemma_props_after_retire(old, new, children, (n - 1) as nat, i, base);
        lemma_props_after_concat(a, step, step.len(), old[i].id, base);
        reveal_with_fuel(props_after, 2);
        assert(old[n - 1].id == children[n - 1]);
        assert(old[i].id == children[i]);
    }
}

/// Whether position `i` among the children of `p` shows the declaration at
/// position `i` of `decl`: the child is of the declared kind and has the
/// declared properties, and where it is no node of `mid`, it is the root of
/// a copy of the declared subtree.
pub open spec fn shows_at(
    mid: Map<Index, NodeView>,
    after: Map<Index, NodeView>,
    s: Map<Index, NodeView>,
    decl: Seq<Index>,
    p: Index,
    i: int,
) -> bool {
    let c = after[p].children[i];
    let d = decl[i];
    &&& after.contains_key(c)
    &&& after[c].widget.tag == s[d].widget.tag
    &&& after[c].widget.props == s[d].widget.props
    &&& !mid.contains_key(c) ==> is_copy(after, s, d, c)
}

/// After the declarations were rendered into the children of `p`, the
/// children stand in the order of the declarations, and a second comparison
/// finds nothing left to do: the script that it gives is empty.
pub proof fn lemma_converged(
    m: Map<Index, NodeView>,
    depth: Map<Index, nat>,
    bound: nat,
    p: Index,
    s: Map<Index, NodeView>,
    decl: Seq<Index>,
    after: Map<Index, NodeView>,
    roots: Seq<Index>,
)
    requires
        renderable(m, depth, bound, p, s, decl),
        grown(
            retired(
                m,
                diff_spec(snapshots_of(m, m[p].children), snapshots_of(s, decl)),
                diff_spec(snapshots_of(m, m[p].children), snapshots_of(s, decl)).len(),
            ),
            s,
            p,
            diff_spec(snapshots_of(m, m[p].children), snapshots_of(s, decl)),
            after,
            roots,
        ),
    ensures
        after[p].children == merged_ids(
            snapshots_of(m, m[p].children),
            snapshots_of(s, decl),
            roots,
            decl.len(),
        ),
        after[p].children.len() == decl.len(),
        diff_spec(snapshots_of(after, after[p].children), snapshots_of(s, decl)) == Seq::<
            EditOpView,
        >::empty(),
        forall|i: int|
            0 <= i < decl.len() ==> #[trigger] shows_at(
                retired(
                    m,
                    diff_spec(snapshots_of(m, m[p].children), snapshots_of(s, decl)),
                    diff_spec(snapshots_of(m, m[p].children), snapshots_of(s, decl)).len(),
                ),
                after,
                s,
                decl,
                p,
                i,
            ),
{
    let children = m[p].children;
    let old = snapshots_of(m, children);
    let new = snapshots_of(s, decl);
    let a = old.len();
    let b = new.len();
    let first = retire_ops(old, new, a);
    let second = insert_ops(old, new, b);
    let ops = diff_spec(old, new);
    let mid = retired(m, ops, ops.len());
    lemma_diff_applies(m, depth, bound, p, s, decl);
    lemma_retired(m, depth, bound, p, ops, ops.len());
    lemma_retire_folds(old, new, a);
    lemma_insert_folds(old, new, b);
    lemma_folds_concat(first, second, second.len());
    assert(removals(ops, ops.len()) =~= rem_ids(old, new, a));
    assert(insertions(ops, ops.len()) =~= ins_list(old, new, b));
    assert(ids_of(children, old));
    lemma_merged_order(old, new, children, roots);
    let merged = merged_ids(old, new, roots, b);
    assert(after[p].children == merged);
    let now = snapshots_of(after, after[p].children);
    assert forall|i: int| 0 <= i < now.len() implies now[i].tag == new[i].tag && now[i].props
        == new[i].props by {
        lemma_lists_prefix(old, new, roots, (i + 1) as nat, b);
        let c = merged[i];
        assert(c == merged_ids(old, new, roots, (i + 1) as nat)[i]);
        if retained_at(old, new, i) {
            assert(c == old[i].id);
            assert(children[i] == c);
            assert(children.contains(c));
            if rem_ids(old, new, a).contains(c) {
                let j = lemma_rem_ids_origin(old, new, a, c);
                assert(children[j] == children[i]);
            }
            lemma_child_differs(m, depth, bound, p, c);
            assert(mid.contains_key(c) && mid[c] == kept_node(m, ops, ops.len(), c));
            assert(after[c] == mid[c]);
            lemma_props_after_concat(first, second, second.len(), c, m[c].widget.props);
            lemma_props_after_inserts(
                old,
                new,
                b,
                c,
                props_after(first, first.len(), c, m[c].widget.props),
            );
            lemma_props_after_retire(old, new, children, a, i, m[c].widget.props);
        } else {
            lemma_ins_at(old, new, i);
            let j = i - ret_count(old, new, i as nat);
            assert(c == roots[j]);
            assert(is_copy(after, s, ins_list(old, new, b)[j].1, roots[j]));
            assert(mirrors(after, s, new[i].id, c, 0));
            assert(new[i].id == decl[i]);
        }
    }
    lemma_diff_identical(now, new);
    assert forall|i: int| 0 <= i < decl.len() implies #[trigger] shows_at(
        mid,
        after,
        s,
        decl,
        p,
        i,
    ) by {
        lemma_lists_prefix(old, new, roots, (i + 1) as nat, b);
        let c = merged[i];
        assert(c == merged_ids(old, new, roots, (i + 1) as nat)[i]);
        assert(now[i].tag == new[i].tag && now[i].props == new[i].props);
        if retained_at(old, new, i) {
            assert(children[i] == c);
            assert(children.contains(c));
            if rem_ids(old, new, a).contains(c) {
                let j = lemma_rem_ids_origin(old, new, a, c);
                assert(children[j] == children[i]);
            }
            lemma_child_differs(m, depth, bound, p, c);
            assert(mid.contains_key(c));
        } else {
            lemma_ins_at(old, new, i);
            let j = i - ret_count(old, new, i as nat);
            assert(c == roots[j]);
            assert(new[i].id == decl[i]);
        }
    }
}

/// The removals and updates of a script for the children of `p` leave every
/// node that does not lie in the subtree of `p` as it was, and give no node
/// another parent.
pub proof fn lemma_retired_frame(
    m: Map<Index, NodeView>,
    depth: Map<Index, nat>,
    bound: nat,
    p: Index,
    ops: Seq<EditOpView>,
    n: nat,
)
    requires
        links_wf(m),
        depths_wf(m, depth, bound),
        m.contains_key(p),
        n <= ops.len(),
        targets_ok(m, p, ops, n),
    ensures
        forall|x: Index|
            #[trigger] retired(m, ops, n).contains_key(x) ==> m.contains_key(x) && retired(
                m,
                ops,
                n,
            )[x].parent == m[x].parent,
        forall|x: Index|
            #[trigger] m.contains_key(x) && !in_subtree(m, p, x) ==> retired(
                m,
                ops,
                n,
            ).contains_key(x) && retired(m, ops, n)[x] == m[x],
    decreases n,
{
    if n > 0 {
        let n0 = (n - 1) as nat;
        let r0 = retired(m, ops, n0);
        let r = retired(m, ops, n);
        assert(targets_ok(m, p, ops, n0));
        lemma_retired_frame(m, depth, bound, p, ops, n0);
        lemma_retired(m, depth, bound, p, ops, n0);
        lemma_removals_touched(ops, n0);
        assert(ancestor_at(m, p, 0) == Some(p));
        match ops[n - 1] {
            EditOpView::Remove { id } => {
                assert(m[p].children.contains(id) && !touched(ops, n0).contains(id));
                lemma_child_differs(m, depth, bound, p, id);
                assert(r0.contains_key(id) && r0[id] == kept_node(m, ops, n0, id));
                lemma_pruned_parent(r0, depth, bound, id);
                assert(ancestor_at(m, id, 1) == Some(p));
                assert forall|x: Index| #[trigger] r.contains_key(x) implies m.contains_key(x)
                    && r[x].parent == m[x].parent by {
                    assert(r0.contains_key(x));
                }
                assert forall|x: Index|
                    #[trigger] m.contains_key(x) && !in_subtree(m, p, x) implies r.contains_key(x)
                    && r[x] == m[x] by {
                    assert(r0.contains_key(x) && r0[x] == m[x]);
                    if in_subtree(r0, id, x) {
                        lemma_in_subtree_lifts(r0, m, id, x);
                        let k = choose|k: nat| ancestor_at(m, x, k) == Some(id);
                        lemma_chain_compose(m, x, k, id, 1, p);
                    }
                }
            },
            EditOpView::Update { id, tag, props } => {
                assert(m[p].children.contains(id) && !touched(ops, n0).contains(id));
                lemma_child_differs(m, depth, bound, p, id);
                assert(ancestor_at(m, id, 1) == Some(p));
                assert(in_subtree(m, p, id));
                assert forall|x: Index| #[trigger] r.contains_key(x) implies m.contains_key(x)
                    && r[x].parent == m[x].parent by {
                    assert(r0.contains_key(x));
                }
                assert forall|x: Index|
                    #[trigger] m.contains_key(x) && !in_subtree(m, p, x) implies r.contains_key(x)
                    && r[x] == m[x] by {
                    assert(r0.contains_key(x) && r0[x] == m[x]);
                }
            },
            EditOpView::Insert { position, root } => {},
        }
    }
}

/// Whether `after` holds every node of `before` that does not lie in the
/// subtree of `p` as it was, and `p` itself with the widget and the parent
/// that it had.
pub open spec fn kept_outside(
    before: Map<Index, NodeView>,
    after: Map<Index, NodeView>,
    p: Index,
) -> bool {
    &&& after.contains_key(p)
    &&& after[p].widget == before[p].widget
    &&& after[p].parent == before[p].parent
    &&& forall|x: Index|
        #[trigger] before.contains_key(x) && !in_subtree(before, p, x) ==> after.contains_key(x)
            && after[x] == before[x]
}

/// Applying a script for the children of `p` changes the tree in the
/// subtree of `p` only.
pub proof fn lemma_merge_frame(
    m: Map<Index, NodeView>,
    depth: Map<Index, nat>,
    bound: nat,
    p: Index,
    s: Map<Index, NodeView>,
    ops: Seq<EditOpView>,
    after: Map<Index, NodeView>,
    roots: Seq<Index>,
)
    requires
        links_wf(m),
        depths_wf(m, depth, bound),
        m.contains_key(p),
        targets_ok(m, p, ops, ops.len()),
        grown(retired(m, ops, ops.len()), s, p, ops, after, roots),
    ensures
        kept_outside(m, after, p),
{
    lemma_retired(m, depth, bound, p, ops, ops.len());
    lemma_retired_frame(m, depth, bound, p, ops, ops.len());
    assert(ancestor_at(m, p, 0) == Some(p));
    let mid = retired(m, ops, ops.len());
    assert forall|x: Index|
        #[trigger] m.contains_key(x) && !in_subtree(m, p, x) implies after.contains_key(x)
        && after[x] == m[x] by {
        assert(mid.contains_key(x) && mid[x] == m[x]);
    }
}

/// Whether the subtree below `dst` in `m` shows the declarations below
/// `src` in `s`, down to `h` levels below the children: each node has as
/// many children as its declaration, and each child is of the declared kind
/// and has the declared properties.
pub open spec fn renders(
    m: Map<Index, NodeView>,
    s: Map<Index, NodeView>,
    src: Index,
    dst: Index,
    h: nat,
) -> bool
    decreases h,
{
    &&& m.contains_key(dst)
    &&& s.contains_key(src)
    &&& m[dst].children.len() == s[src].children.len()
    &&& forall|i: int|
        0 <= i < s[src].children.len() ==> m.contains_key(#[trigger] m[dst].children[i])
            && m[m[dst].children[i]].widget.tag == s[s[src].children[i]].widget.tag
            && m[m[dst].children[i]].widget.props == s[s[src].children[i]].widget.props && (h > 0
            ==> renders(m, s, s[src].children[i], m[dst].children[i], (h - 1) as nat))
}

/// A copy of a declared subtree shows the declarations.
pub proof fn lemma_copy_renders(
    m: Map<Index, NodeView>,
    s: Map<Index, NodeView>,
    src: Index,
    dst: Index,
    h: nat,
)
    requires
        is_copy(m, s, src, dst),
    ensures
        renders(m, s, src, dst, h),
    decreases h,
{
    assert(mirrors(m, s, src, dst, 2));
    assert forall|i: int| 0 <= i < s[src].children.len() implies m.contains_key(
        #[trigger] m[dst].children[i],
    ) && m[m[dst].children[i]].widget.tag == s[s[src].children[i]].widget.tag
        && m[m[dst].children[i]].widget.props == s[s[src].children[i]].widget.props && (h > 0
        ==> renders(m, s, s[src].children[i], m[dst].children[i], (h - 1) as nat)) by {
        let d = s[src].children[i];
        let c = m[dst].children[i];
        assert(mirrors(m, s, d, c, 1));
        assert forall|k: nat| mirrors(m, s, d, c, k) by {
            assert(mirrors(m, s, src, dst, k + 1));
        }
        if h > 0 {
            lemma_copy_renders(m, s, d, c, (h - 1) as nat);
        }
    }
}

/// What a subtree shows stays shown when the tree changes outside of it.
pub proof fn lemma_renders_frame(
    m1: Map<Index, NodeView>,
    m2: Map<Index, NodeView>,
    s: Map<Index, NodeView>,
    src: Index,
    dst: Index,
    h: nat,
)
    requires
        links_wf(m1),
        renders(m1, s, src, dst, h),
        forall|x: Index|
            #[trigger] in_subtree(m1, dst, x) ==> m2.contains_key(x) && m2[x] == m1[x],
    ensures
        renders(m2, s, src, dst, h),
    decreases h,
{
    assert(ancestor_at(m1, dst, 0) == Some(dst));
    assert(in_subtree(m1, dst, dst));
    assert forall|i: int| 0 <= i < s[src].children.len() implies m2.contains_key(
        #[trigger] m2[dst].children[i],
    ) && m2[m2[dst].children[i]].widget.tag == s[s[src].children[i]].widget.tag
        && m2[m2[dst].children[i]].widget.props == s[s[src].children[i]].widget.props && (h > 0
        ==> renders(m2, s, s[src].children[i], m2[dst].children[i], (h - 1) as nat)) by {
        let c = m1[dst].children[i];
        assert(m1.contains_key(c) && m1[c].parent == Some(dst));
        assert(ancestor_at(m1, c, 1) == Some(dst));
        assert(in_subtree(m1, dst, c));
        if h > 0 {
            assert forall|x: Index| #[trigger] in_subtree(m1, c, x) implies m2.contains_key(x)
                && m2[x] == m1[x] by {
                let k = choose|k: nat| ancestor_at(m1, x, k) == Some(c);
                lemma_chain_compose(m1, x, k, c, 1, dst);
                assert(in_subtree(m1, dst, x));
            }
            lemma_renders_frame(m1, m2, s, s[src].children[i], c, (h - 1) as nat);
        }
    }
}

/// Of two ancestors of a node, the nearer has the farther as an ancestor.
pub proof fn lemma_chain_linear(
    m: Map<Index, NodeView>,
    x: Index,
    k1: nat,
    a: Index,
    k2: nat,
    b: Index,
)
    requires
        ancestor_at(m, x, k1) == Some(a),
        ancestor_at(m, x, k2) == Some(b),
        k1 <= k2,
    ensures
        ancestor_at(m, a, (k2 - k1) as nat) == Some(b),
    decreases k1,
{
    if k1 > 0 {
        lemma_chain_linear(m, m[x].parent.unwrap(), (k1 - 1) as nat, a, (k2 - 1) as nat, b);
    }
}

/// The subtrees of two different children of one node share no node, and
/// neither holds the node itself.
pub proof fn lemma_siblings_apart(
    m: Map<Index, NodeView>,
    depth: Map<Index, nat>,
    bound: nat,
    p: Index,
    a: Index,
    b: Index,
    x: Index,
)
    requires
        links_wf(m),
        depths_wf(m, depth, bound),
        m.contains_key(p),
        m[p].children.contains(a),
        m[p].children.contains(b),
        a != b,
        in_subtree(m, a, x),
    ensures
        !in_subtree(m, b, x),
        x != p,
        in_subtree(m, p, x),
{
    lemma_child_differs(m, depth, bound, p, a);
    lemma_child_differs(m, depth, bound, p, b);
    let k1 = choose|k: nat| ancestor_at(m, x, k) == Some(a);
    lemma_chain_depth(m, depth, bound, x, k1, a);
    assert(ancestor_at(m, p, 0) == Some(p));
    assert(ancestor_at(m, a, 1) == Some(p));
    lemma_chain_compose(m, x, k1, a, 1, p);
    if in_subtree(m, b, x) {
        let k2 = choose|k: nat| ancestor_at(m, x, k) == Some(b);
        lemma_chain_depth(m, depth, bound, x, k2, b);
        if k1 <= k2 {
            lemma_chain_linear(m, x, k1, a, k2, b);
        } else {
            lemma_chain_linear(m, x, k2, b, k1, a);
        }
    }
}

/// A node outside the subtree of `p` has no ancestor that is new or lies in
/// that subtree, also after the tree changed inside the subtree only.
pub proof fn lemma_outside_stays(
    before: Map<Index, NodeView>,
    now: Map<Index, NodeView>,
    p: Index,
    c: Index,
    x: Index,
    k: nat,
)
    requires
        links_wf(before),
        forall|y: Index|
            #[trigger] before.contains_key(y) && !in_subtree(before, p, y) ==> now.contains_key(y)
                && now[y] == before[y],
        before.contains_key(x),
        !in_subtree(before, p, x),
        !before.contains_key(c) || in_subtree(before, p, c),
    ensures
        ancestor_at(now, x, k) != Some(c),
    decreases k,
{
    if ancestor_at(now, x, k) == Some(c) && k > 0 {
        let y = now[x].parent.unwrap();
        assert(before[x].parent == Some(y));
        assert(before.contains_key(y));
        lemma_in_subtree_unfold(before, p, x);
        lemma_outside_stays(before, now, p, c, y, (k - 1) as nat);
    }
}

} // verus!
