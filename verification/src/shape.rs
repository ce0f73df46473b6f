//! The mathematical model of a widget tree: a map from identifiers to nodes,
//! the conditions under which such a map is a forest, and the ancestor
//! relation on it.

use vstd::prelude::*;
use crate::index::Index;
use crate::props::WidgetView;

verus! {

/// The mathematical value of one node: the widget it holds, its children in
/// render order, and its parent, which a root does not have.
pub struct NodeView {
    pub widget: WidgetView,
    pub children: Seq<Index>,
    pub parent: Option<Index>,
}

/// Parent and child links agree: every child of a node is present and names
/// that node as its parent, no node lists a child twice, and every node that
/// names a parent is listed among that parent's children.
pub open spec fn links_wf(m: Map<Index, NodeView>) -> bool {
    &&& forall|id: Index, i: int|
        #![trigger m[id].children[i]]
        m.contains_key(id) && 0 <= i < m[id].children.len() ==> m.contains_key(m[id].children[i])
            && m[m[id].children[i]].parent == Some(id)
    &&& forall|id: Index| #[trigger] m.contains_key(id) ==> m[id].children.no_duplicates()
    &&& forall|id: Index|
        #[trigger] m.contains_key(id) && m[id].parent is Some ==> m.contains_key(
            m[id].parent.unwrap(),
        ) && m[m[id].parent.unwrap()].children.contains(id)
}

/// `depth` numbers the nodes so that every node lies one level below its
/// parent and no node lies deeper than `bound`. A map that admits such a
/// numbering has no cycle.
pub open spec fn depths_wf(m: Map<Index, NodeView>, depth: Map<Index, nat>, bound: nat) -> bool {
    forall|id: Index| #[trigger]
        m.contains_key(id) ==> depth.contains_key(id) && depth[id] <= bound && (m[id].parent
            is Some ==> depth[id] == depth[m[id].parent.unwrap()] + 1)
}

/// The node reached from `d` by following the parent link `k` times, if
/// every node on the way is present.
pub open spec fn ancestor_at(m: Map<Index, NodeView>, d: Index, k: nat) -> Option<Index>
    decreases k,
{
    if !m.contains_key(d) {
        None
    } else if k == 0 {
        Some(d)
    } else {
        match m[d].parent {
            Some(p) => ancestor_at(m, p, (k - 1) as nat),
            None => None,
        }
    }
}

/// Whether `d` is `root` or one of its descendants.
pub open spec fn in_subtree(m: Map<Index, NodeView>, root: Index, d: Index) -> bool {
    exists|k: nat| ancestor_at(m, d, k) == Some(root)
}

/// The sequence `s` without the element `x`.
pub open spec fn without(s: Seq<Index>, x: Index) -> Seq<Index> {
    if s.contains(x) {
        s.remove(s.index_of(x))
    } else {
        s
    }
}

/// The map `m` with a new node `id` that holds `w` and has no children,
/// appended to the children of `parent`, or made a root where there is none.
pub open spec fn with_child(
    m: Map<Index, NodeView>,
    parent: Option<Index>,
    id: Index,
    w: WidgetView,
) -> Map<Index, NodeView> {
    let node = NodeView { widget: w, children: Seq::empty(), parent };
    match parent {
        None => m.insert(id, node),
        Some(p) => m.insert(p, NodeView { children: m[p].children.push(id), ..m[p] }).insert(
            id,
            node,
        ),
    }
}

/// Adding a fresh leaf keeps a forest a forest; the leaf lies one level below
/// its parent.
pub proof fn lemma_with_child_wf(
    m: Map<Index, NodeView>,
    depth: Map<Index, nat>,
    bound: nat,
    parent: Option<Index>,
    id: Index,
    w: WidgetView,
)
    requires
        links_wf(m),
        depths_wf(m, depth, bound),
        !m.contains_key(id),
        parent is Some ==> m.contains_key(parent.unwrap()),
    ensures
        links_wf(with_child(m, parent, id, w)),
        depths_wf(
            with_child(m, parent, id, w),
            depth.insert(id, leaf_depth(depth, parent)),
            if leaf_depth(depth, parent) > bound {
                leaf_depth(depth, parent)
            } else {
                bound
            },
        ),
{
    let n = with_child(m, parent, id, w);
    assert forall|x: Index, i: int|
        #![trigger n[x].children[i]]
        n.contains_key(x) && 0 <= i < n[x].children.len() implies n.contains_key(n[x].children[i])
        && n[n[x].children[i]].parent == Some(x) by {
        if parent == Some(x) && i == m[x].children.len() {
        } else {
            let c = m[x].children[i];
            assert(m.contains_key(c));
        }
    }
    assert forall|x: Index| #[trigger] n.contains_key(x) implies n[x].children.no_duplicates() by {
        if parent == Some(x) {
            assert forall|i: int| 0 <= i < m[x].children.len() implies m[x].children[i] != id by {
                assert(m.contains_key(m[x].children[i]));
            }
        } else if x != id {
            assert(m.contains_key(x));
        }
    }
    assert forall|x: Index| #[trigger] n.contains_key(x) && n[x].parent is Some implies
        n.contains_key(
        n[x].parent.unwrap(),
    ) && n[n[x].parent.unwrap()].children.contains(x) by {
        let p = n[x].parent.unwrap();
        if x == id {
            assert(n[p].children[m[p].children.len() as int] == id);
        } else {
            assert(m.contains_key(x));
            assert(m[p].children.contains(x));
            let j = m[p].children.index_of(x);
            assert(n[p].children[j] == x);
        }
    }
    assert forall|x: Index| #[trigger] n.contains_key(x) && x != id implies m.contains_key(x) by {}
}

/// The depth of a new leaf under `parent`.
pub open spec fn leaf_depth(depth: Map<Index, nat>, parent: Option<Index>) -> nat {
    match parent {
        None => 0,
        Some(p) => depth[p] + 1,
    }
}

/// The map `m` without the node `id`, which is also taken out of the
/// children of its parent. It describes the removal of a leaf.
pub open spec fn without_leaf(m: Map<Index, NodeView>, id: Index) -> Map<Index, NodeView> {
    let p = m[id].parent.unwrap();
    m.remove(id).insert(p, NodeView { children: without(m[p].children, id), ..m[p] })
}

/// The map `m` without the subtree of `id`: every node of the subtree is
/// gone, `id` is taken out of the children of its parent, and every other
/// node is as it was.
pub open spec fn pruned(m: Map<Index, NodeView>, id: Index) -> Map<Index, NodeView> {
    Map::new(
        |d: Index| m.contains_key(d) && !in_subtree(m, id, d),
        |d: Index|
            if m[id].parent == Some(d) {
                NodeView { children: without(m[d].children, id), ..m[d] }
            } else {
                m[d]
            },
    )
}

/// `s` is `t` after some proper descendants of `id` were removed: what is
/// missing lay below `id`, and every node that is left is as in `t`, except
/// that `id` may have lost children.
pub open spec fn partly_pruned(t: Map<Index, NodeView>, s: Map<Index, NodeView>,
    id: Index) -> bool {
    &&& s.contains_key(id)
    &&& t.contains_key(id)
    &&& s[id].parent == t[id].parent
    &&& s[id].widget == t[id].widget
    &&& forall|n: Index| #[trigger] s.contains_key(n) ==> t.contains_key(n) && (n != id ==>
        s[n] == t[n])
    &&& forall|n: Index|
        t.contains_key(n) && !(#[trigger] s.contains_key(n)) ==> in_subtree(t, id, n) && n != id
}

/// A node belongs to the subtree of `root` exactly when it is `root` or its
/// parent belongs to that subtree.
pub proof fn lemma_in_subtree_unfold(m: Map<Index, NodeView>, root: Index, d: Index)
    ensures
        in_subtree(m, root, d) <==> m.contains_key(d) && (d == root || (m[d].parent is Some
            && in_subtree(m, root, m[d].parent.unwrap()))),
{
    if in_subtree(m, root, d) {
        let k = choose|k: nat| ancestor_at(m, d, k) == Some(root);
        if k > 0 {
            assert(ancestor_at(m, m[d].parent.unwrap(), (k - 1) as nat) == Some(root));
        }
    }
    if m.contains_key(d) && d == root {
        assert(ancestor_at(m, d, 0) == Some(root));
    }
    if m.contains_key(d) && m[d].parent is Some && in_subtree(m, root, m[d].parent.unwrap()) {
        let k = choose|k: nat| ancestor_at(m, m[d].parent.unwrap(), k) == Some(root);
        assert(ancestor_at(m, d, k + 1) == Some(root));
    }
}

/// Both ends of an ancestor chain are present.
pub proof fn lemma_chain_ends_present(m: Map<Index, NodeView>, d: Index, k: nat, a: Index)
    requires
        ancestor_at(m, d, k) == Some(a),
    ensures
        m.contains_key(d),
        m.contains_key(a),
    decreases k,
{
    if k > 0 {
        lemma_chain_ends_present(m, m[d].parent.unwrap(), (k - 1) as nat, a);
    }
}

/// Along an ancestor chain of `k` steps the depth falls by exactly `k`.
pub proof fn lemma_chain_depth(
    m: Map<Index, NodeView>,
    depth: Map<Index, nat>,
    bound: nat,
    d: Index,
    k: nat,
    a: Index,
)
    requires
        depths_wf(m, depth, bound),
        ancestor_at(m, d, k) == Some(a),
    ensures
        depth[d] == depth[a] + k,
    decreases k,
{
    if k > 0 {
        lemma_chain_depth(m, depth, bound, m[d].parent.unwrap(), (k - 1) as nat, a);
    }
}

/// Ancestor chains compose.
pub proof fn lemma_chain_compose(
    m: Map<Index, NodeView>,
    d: Index,
    k1: nat,
    a: Index,
    k2: nat,
    b: Index,
)
    requires
        ancestor_at(m, d, k1) == Some(a),
        ancestor_at(m, a, k2) == Some(b),
    ensures
        ancestor_at(m, d, k1 + k2) == Some(b),
    decreases k1,
{
    if k1 > 0 {
        lemma_chain_compose(m, m[d].parent.unwrap(), (k1 - 1) as nat, a, k2, b);
    }
}

/// An ancestor chain in `s` is an ancestor chain in every map `t` that holds
/// the nodes of `s` with the same parents.
pub proof fn lemma_chain_lifts(
    s: Map<Index, NodeView>,
    t: Map<Index, NodeView>,
    d: Index,
    k: nat,
    a: Index,
)
    requires
        forall|n: Index| #[trigger] s.contains_key(n) ==>
            t.contains_key(n) && t[n].parent == s[n].parent,
        ancestor_at(s, d, k) == Some(a),
    ensures
        ancestor_at(t, d, k) == Some(a),
    decreases k,
{
    if k > 0 {
        lemma_chain_lifts(s, t, s[d].parent.unwrap(), (k - 1) as nat, a);
    }
}

/// An ancestor chain of `t` that starts at a node of `s` lies in `s`, when
/// `s` is closed under parents and agrees with `t` on them.
pub proof fn lemma_chain_restricts(
    s: Map<Index, NodeView>,
    t: Map<Index, NodeView>,
    d: Index,
    k: nat,
    a: Index,
)
    requires
        links_wf(s),
        forall|n: Index| #[trigger] s.contains_key(n) ==>
            t.contains_key(n) && t[n].parent == s[n].parent,
        s.contains_key(d),
        ancestor_at(t, d, k) == Some(a),
    ensures
        ancestor_at(s, d, k) == Some(a),
    decreases k,
{
    if k > 0 {
        lemma_chain_restricts(s, t, s[d].parent.unwrap(), (k - 1) as nat, a);
    }
}

/// A node with a proper descendant has at least one child.
pub proof fn lemma_descendant_needs_child(m: Map<Index, NodeView>, d: Index, k: nat, a: Index)
    requires
        links_wf(m),
        ancestor_at(m, d, k) == Some(a),
        k > 0,
    ensures
        m[a].children.len() > 0,
    decreases k,
{
    let p = m[d].parent.unwrap();
    if k == 1 {
        assert(ancestor_at(m, p, 0) == Some(a));
        assert(m[a].children.contains(d));
    } else {
        lemma_descendant_needs_child(m, p, (k - 1) as nat, a);
    }
}

/// In a duplicate-free sequence, removing the element at position `i` is
/// removing the element found there, and keeps every other element in order.
pub proof fn lemma_without_at(s: Seq<Index>, i: int)
    requires
        s.no_duplicates(),
        0 <= i < s.len(),
    ensures
        without(s, s[i]) == s.remove(i),
        without(s, s[i]).len() == s.len() - 1,
        without(s, s[i]).no_duplicates(),
        !without(s, s[i]).contains(s[i]),
        forall|x: Index| x != s[i] ==> (without(s, s[i]).contains(x) <==> s.contains(x)),
{
    let x = s[i];
    assert(s.contains(x));
    assert(s.index_of(x) == i);
    let r = s.remove(i);
    assert forall|y: Index| y != x implies (r.contains(y) <==> s.contains(y)) by {
        if s.contains(y) {
            let j = s.index_of(y);
            if j < i {
                assert(r[j] == y);
            } else {
                assert(r[j - 1] == y);
            }
        }
        if r.contains(y) {
            let j = r.index_of(y);
            if j < i {
                assert(s[j] == y);
            } else {
                assert(s[j + 1] == y);
            }
        }
    }
    if r.contains(x) {
        let j = r.index_of(x);
        if j < i {
            assert(s[j] == x);
        } else {
            assert(s[j + 1] == x);
        }
    }
}

/// Removing a leaf that has a parent keeps a forest a forest.
pub proof fn lemma_without_leaf_wf(
    m: Map<Index, NodeView>,
    depth: Map<Index, nat>,
    bound: nat,
    id: Index,
)
    requires
        links_wf(m),
        depths_wf(m, depth, bound),
        m.contains_key(id),
        m[id].children.len() == 0,
        m[id].parent is Some,
    ensures
        links_wf(without_leaf(m, id)),
        depths_wf(without_leaf(m, id), depth, bound),
{
    let p = m[id].parent.unwrap();
    let n = without_leaf(m, id);
    assert(m.contains_key(p));
    assert(m[p].children.contains(id));
    let at = m[p].children.index_of(id);
    lemma_without_at(m[p].children, at);
    assert forall|x: Index| #[trigger] n.contains_key(x) implies m.contains_key(x) && x != id by {}
    assert forall|x: Index, i: int|
        #![trigger n[x].children[i]]
        n.contains_key(x) && 0 <= i < n[x].children.len() implies n.contains_key(n[x].children[i])
        && n[n[x].children[i]].parent == Some(x) by {
        let c = n[x].children[i];
        if x == p {
            assert(n[x].children.contains(c));
            assert(m[p].children.contains(c));
            let j = m[p].children.index_of(c);
            assert(m.contains_key(m[p].children[j]));
        } else {
            assert(m.contains_key(m[x].children[i]));
            assert(m[c].parent == Some(x));
        }
    }
    assert forall|x: Index| #[trigger] n.contains_key(x) implies n[x].children.no_duplicates() by {
        assert(m.contains_key(x));
    }
    assert forall|x: Index| #[trigger] n.contains_key(x) && n[x].parent is Some implies
        n.contains_key(
        n[x].parent.unwrap(),
    ) && n[n[x].parent.unwrap()].children.contains(x) by {
        assert(m.contains_key(x));
        let q = m[x].parent.unwrap();
        assert(m[q].children.contains(x));
    }
}

/// One step of removing a subtree from the leaves up: after the subtree of a
/// child `c` of `id` is pruned, what is missing still lay below `id`.
pub proof fn lemma_prune_child(
    t: Map<Index, NodeView>,
    s: Map<Index, NodeView>,
    depth: Map<Index, nat>,
    bound: nat,
    id: Index,
    c: Index,
)
    requires
        links_wf(s),
        depths_wf(s, depth, bound),
        depths_wf(t, depth, bound),
        partly_pruned(t, s, id),
        s.contains_key(c),
        s[c].parent == Some(id),
    ensures
        partly_pruned(t, pruned(s, c), id),
        pruned(s, c)[id].children == without(s[id].children, c),
        forall|x: Index| in_subtree(s, c, x) ==> s.contains_key(x),
{
    let s2 = pruned(s, c);
    assert forall|x: Index| in_subtree(s, c, x) implies s.contains_key(x) && t.contains_key(x)
        && in_subtree(t, id, x) && x != id by {
        let k = choose|k: nat| ancestor_at(s, x, k) == Some(c);
        lemma_chain_ends_present(s, x, k, c);
        lemma_chain_lifts(s, t, x, k, c);
        assert(ancestor_at(t, id, 0) == Some(id));
        assert(ancestor_at(t, c, 1) == Some(id));
        lemma_chain_compose(t, x, k, c, 1, id);
        lemma_chain_depth(t, depth, bound, x, k + 1, id);
    }
    assert(!in_subtree(s, c, id));
    assert(s2.contains_key(id));
}

/// The last step of removing a subtree from the leaves up: once `id` has lost
/// all its children, removing `id` itself leaves the tree without the whole
/// subtree.
pub proof fn lemma_prune_last(
    t: Map<Index, NodeView>,
    s: Map<Index, NodeView>,
    id: Index,
)
    requires
        links_wf(s),
        partly_pruned(t, s, id),
        s[id].children.len() == 0,
        s[id].parent is Some,
        s[id].parent != Some(id),
    ensures
        without_leaf(s, id) =~= pruned(t, id),
{
    let f = without_leaf(s, id);
    let g = pruned(t, id);
    let p = s[id].parent.unwrap();
    assert(s.contains_key(p));
    assert(ancestor_at(t, id, 0) == Some(id));
    assert forall|d: Index| f.contains_key(d) <==> g.contains_key(d) by {
        if s.contains_key(d) && d != id && in_subtree(t, id, d) {
            let k = choose|k: nat| ancestor_at(t, d, k) == Some(id);
            lemma_chain_restricts(s, t, d, k, id);
            lemma_descendant_needs_child(s, d, k, id);
        }
    }
    assert forall|d: Index| f.contains_key(d) implies f[d] == g[d] by {}
}

/// Appending a duplicate-free sequence to a duplicate-free sequence that
/// shares no element with it gives a duplicate-free sequence.
pub proof fn lemma_append_disjoint(a: Seq<Index>, b: Seq<Index>)
    requires
        a.no_duplicates(),
        b.no_duplicates(),
        forall|x: Index| a.contains(x) ==> !b.contains(x),
    ensures
        (a + b).no_duplicates(),
        forall|x: Index| (a + b).contains(x) <==> a.contains(x) || b.contains(x),
{
    let c = a + b;
    assert forall|i: int, j: int| 0 <= i < c.len() && 0 <= j < c.len() && i != j implies c[i]
        != c[j] by {
        if i < a.len() && j >= a.len() {
            assert(a.contains(a[i]));
            assert(b.contains(b[j - a.len()]));
        }
        if j < a.len() && i >= a.len() {
            assert(a.contains(a[j]));
            assert(b.contains(b[i - a.len()]));
        }
    }
    assert forall|x: Index| c.contains(x) <==> a.contains(x) || b.contains(x) by {
        if a.contains(x) {
            let i = a.index_of(x);
            assert(c[i] == x);
        }
        if b.contains(x) {
            let i = b.index_of(x);
            assert(c[a.len() + i] == x);
        }
        if c.contains(x) {
            let i = c.index_of(x);
            if i < a.len() {
                assert(a[i] == x);
            } else {
                assert(b[i - a.len()] == x);
            }
        }
    }
}

/// Whether `a` lists elements of `b`, each once, and as many as `b` holds.
/// Where `b` has no duplicates, `a` is then `b` in another order.
pub open spec fn rearranges(a: Seq<Index>, b: Seq<Index>) -> bool {
    &&& a.len() == b.len()
    &&& a.no_duplicates()
    &&& forall|i: int| 0 <= i < a.len() ==> b.contains(#[trigger] a[i])
}

/// A rearrangement of a duplicate-free sequence holds the same elements.
pub proof fn lemma_rearranges_same_elements(a: Seq<Index>, b: Seq<Index>)
    requires
        rearranges(a, b),
        b.no_duplicates(),
    ensures
        forall|x: Index| a.contains(x) <==> b.contains(x),
{
    a.unique_seq_to_set();
    b.unique_seq_to_set();
    vstd::seq_lib::seq_to_set_is_finite(a);
    vstd::seq_lib::seq_to_set_is_finite(b);
    assert(a.to_set().subset_of(b.to_set())) by {
        assert forall|x: Index| a.to_set().contains(x) implies b.to_set().contains(x) by {
            let i = a.index_of(x);
            assert(a[i] == x);
        }
    }
    vstd::set_lib::lemma_subset_equality(a.to_set(), b.to_set());
    assert forall|x: Index| a.contains(x) <==> b.contains(x) by {
        assert(a.to_set().contains(x) <==> a.contains(x));
        assert(b.to_set().contains(x) <==> b.contains(x));
    }
}

/// The map `m` in which the children of `p` are listed as `kids`.
pub open spec fn with_children(m: Map<Index, NodeView>, p: Index, kids: Seq<Index>) -> Map<
    Index,
    NodeView,
> {
    m.insert(p, NodeView { children: kids, ..m[p] })
}

/// Listing the children of a node in another order keeps a forest a forest.
pub proof fn lemma_with_children_wf(
    m: Map<Index, NodeView>,
    depth: Map<Index, nat>,
    bound: nat,
    p: Index,
    kids: Seq<Index>,
)
    requires
        links_wf(m),
        depths_wf(m, depth, bound),
        m.contains_key(p),
        rearranges(kids, m[p].children),
    ensures
        links_wf(with_children(m, p, kids)),
        depths_wf(with_children(m, p, kids), depth, bound),
{
    let n = with_children(m, p, kids);
    lemma_rearranges_same_elements(kids, m[p].children);
    assert forall|x: Index| #[trigger] n.contains_key(x) implies m.contains_key(x) by {}
    assert forall|x: Index, i: int|
        #![trigger n[x].children[i]]
        n.contains_key(x) && 0 <= i < n[x].children.len() implies n.contains_key(n[x].children[i])
        && n[n[x].children[i]].parent == Some(x) by {
        let c = n[x].children[i];
        if x == p {
            assert(m[p].children.contains(kids[i]));
            let j = m[p].children.index_of(c);
            assert(m.contains_key(m[p].children[j]));
        } else {
            assert(m.contains_key(m[x].children[i]));
        }
    }
    assert forall|x: Index| #[trigger] n.contains_key(x) && n[x].parent is Some implies
        n.contains_key(
        n[x].parent.unwrap(),
    ) && n[n[x].parent.unwrap()].children.contains(x) by {
        assert(m.contains_key(x));
        let q = m[x].parent.unwrap();
        assert(m[q].children.contains(x));
    }
}

/// The map `m` in which the node `id` holds the widget `w`.
pub open spec fn with_widget(m: Map<Index, NodeView>, id: Index, w: WidgetView) -> Map<
    Index,
    NodeView,
> {
    m.insert(id, NodeView { widget: w, ..m[id] })
}

/// Replacing the widget that a node holds keeps a forest a forest.
pub proof fn lemma_with_widget_wf(
    m: Map<Index, NodeView>,
    depth: Map<Index, nat>,
    bound: nat,
    id: Index,
    w: WidgetView,
)
    requires
        links_wf(m),
        depths_wf(m, depth, bound),
        m.contains_key(id),
    ensures
        links_wf(with_widget(m, id, w)),
        depths_wf(with_widget(m, id, w), depth, bound),
{
    let n = with_widget(m, id, w);
    assert forall|x: Index| #[trigger] n.contains_key(x) implies m.contains_key(x) by {}
    assert forall|x: Index, i: int|
        #![trigger n[x].children[i]]
        n.contains_key(x) && 0 <= i < n[x].children.len() implies n.contains_key(n[x].children[i])
        && n[n[x].children[i]].parent == Some(x) by {
        assert(m.contains_key(m[x].children[i]));
    }
    assert forall|x: Index| #[trigger] n.contains_key(x) && n[x].parent is Some implies
        n.contains_key(
        n[x].parent.unwrap(),
    ) && n[n[x].parent.unwrap()].children.contains(x) by {
        assert(m.contains_key(x));
        let q = m[x].parent.unwrap();
        assert(m[q].children.contains(x));
    }
}

/// One more step up an ancestor chain leads to the parent of its end.
pub proof fn lemma_chain_next(m: Map<Index, NodeView>, d: Index, k: nat, a: Index)
    requires
        ancestor_at(m, d, k) == Some(a),
    ensures
        ancestor_at(m, d, k + 1) == (match m[a].parent {
            Some(p) => if m.contains_key(p) {
                Some(p)
            } else {
                None
            },
            None => None,
        }),
    decreases k,
{
    if k > 0 {
        lemma_chain_next(m, m[d].parent.unwrap(), (k - 1) as nat, a);
    } else {
        match m[a].parent {
            Some(p) => {
                assert(ancestor_at(m, p, 0) == if m.contains_key(p) {
                    Some(p)
                } else {
                    None
                });
            },
            None => {},
        }
    }
}

/// A descendant lies at least as deep as its ancestor, and deeper unless it
/// is that ancestor.
pub proof fn lemma_subtree_depth(
    m: Map<Index, NodeView>,
    depth: Map<Index, nat>,
    bound: nat,
    root: Index,
    d: Index,
)
    requires
        depths_wf(m, depth, bound),
        in_subtree(m, root, d),
    ensures
        m.contains_key(d),
        m.contains_key(root),
        depth[d] >= depth[root],
        depth[d] == depth[root] ==> d == root,
{
    let k = choose|k: nat| ancestor_at(m, d, k) == Some(root);
    lemma_chain_ends_present(m, d, k, root);
    lemma_chain_depth(m, depth, bound, d, k, root);
}

/// Whether the subtree of `dst` in `m` repeats the subtree of `src` in `s`
/// down to `h` levels below the two nodes: the same widgets, with as many
/// children, in the same order.
pub open spec fn mirrors(
    m: Map<Index, NodeView>,
    s: Map<Index, NodeView>,
    src: Index,
    dst: Index,
    h: nat,
) -> bool
    decreases h,
{
    &&& m.contains_key(dst)
    &&& s.contains_key(src)
    &&& m[dst].widget == s[src].widget
    &&& m[dst].children.len() == s[src].children.len()
    &&& h > 0 ==> forall|i: int|
        0 <= i < s[src].children.len() ==> mirrors(
            m,
            s,
            #[trigger] s[src].children[i],
            m[dst].children[i],
            (h - 1) as nat,
        )
}

/// Whether the subtree of `dst` in `m` is a copy of the subtree of `src` in
/// `s`.
pub open spec fn is_copy(
    m: Map<Index, NodeView>,
    s: Map<Index, NodeView>,
    src: Index,
    dst: Index,
) -> bool {
    forall|h: nat| mirrors(m, s, src, dst, h)
}

/// A copy stays a copy when the tree that holds it changes only at or above
/// level `level`, and the copy lies below that level.
pub proof fn lemma_mirrors_frame(
    m1: Map<Index, NodeView>,
    m2: Map<Index, NodeView>,
    depth: Map<Index, nat>,
    bound: nat,
    level: nat,
    s: Map<Index, NodeView>,
    src: Index,
    dst: Index,
    h: nat,
)
    requires
        links_wf(m1),
        depths_wf(m1, depth, bound),
        forall|x: Index|
            #[trigger] m1.contains_key(x) && depth[x] > level ==> m2.contains_key(x) && m2[x]
                == m1[x],
        depth[dst] > level,
        mirrors(m1, s, src, dst, h),
    ensures
        mirrors(m2, s, src, dst, h),
    decreases h,
{
    if h > 0 {
        assert forall|i: int| 0 <= i < s[src].children.len() implies mirrors(
            m2,
            s,
            #[trigger] s[src].children[i],
            m2[dst].children[i],
            (h - 1) as nat,
        ) by {
            let c = m1[dst].children[i];
            assert(m1.contains_key(c) && m1[c].parent == Some(dst));
            lemma_mirrors_frame(
                m1,
                m2,
                depth,
                bound,
                level,
                s,
                s[src].children[i],
                c,
                (h - 1) as nat,
            );
        }
    }
}

/// The whole-copy form of [`lemma_mirrors_frame`].
pub proof fn lemma_copy_frame(
    m1: Map<Index, NodeView>,
    m2: Map<Index, NodeView>,
    depth: Map<Index, nat>,
    bound: nat,
    level: nat,
    s: Map<Index, NodeView>,
    src: Index,
    dst: Index,
)
    requires
        links_wf(m1),
        depths_wf(m1, depth, bound),
        forall|x: Index|
            #[trigger] m1.contains_key(x) && depth[x] > level ==> m2.contains_key(x) && m2[x]
                == m1[x],
        depth[dst] > level,
        is_copy(m1, s, src, dst),
    ensures
        is_copy(m2, s, src, dst),
{
    assert forall|h: nat| mirrors(m2, s, src, dst, h) by {
        assert(mirrors(m1, s, src, dst, h));
        lemma_mirrors_frame(m1, m2, depth, bound, level, s, src, dst, h);
    }
}

/// `after` is `before` with a new subtree, rooted at `id`, hung below
/// `parent` as its last child: `id` and all that lies below it is new, and
/// every other node but `parent` is as it was.
pub open spec fn grafted(
    before: Map<Index, NodeView>,
    after: Map<Index, NodeView>,
    parent: Index,
    id: Index,
) -> bool {
    &&& !before.contains_key(id)
    &&& after.contains_key(id)
    &&& after[id].parent == Some(parent)
    &&& before.contains_key(parent)
    &&& after.contains_key(parent)
    &&& after[parent] == (NodeView { children: before[parent].children.push(id), ..before[parent] })
    &&& forall|x: Index|
        #[trigger] before.contains_key(x) && x != parent ==> after.contains_key(x) && after[x]
            == before[x]
    &&& forall|x: Index|
        #[trigger] after.contains_key(x) && !before.contains_key(x) ==> in_subtree(after, id, x)
}

/// Hanging a subtree below the root of a grafted subtree extends the graft.
pub proof fn lemma_graft_below(
    t: Map<Index, NodeView>,
    s: Map<Index, NodeView>,
    s2: Map<Index, NodeView>,
    parent: Index,
    id: Index,
    c: Index,
)
    requires
        grafted(t, s, parent, id),
        grafted(s, s2, id, c),
        parent != id,
    ensures
        grafted(t, s2, parent, id),
{
    assert forall|x: Index| #[trigger] s2.contains_key(x) && !t.contains_key(x) implies in_subtree(
        s2,
        id,
        x,
    ) by {
        if s.contains_key(x) {
            let k = choose|k: nat| ancestor_at(s, x, k) == Some(id);
            assert forall|n: Index| #[trigger] s.contains_key(n) implies s2.contains_key(n)
                && s2[n].parent == s[n].parent by {}
            lemma_chain_lifts(s, s2, x, k, id);
        } else {
            let k = choose|k: nat| ancestor_at(s2, x, k) == Some(c);
            assert(ancestor_at(s2, id, 0) == Some(id));
            assert(ancestor_at(s2, c, 1) == Some(id));
            lemma_chain_compose(s2, x, k, c, 1, id);
        }
    }
}

/// Whether `list` names, each once, exactly the nodes that `after` holds
/// and `before` does not.
pub open spec fn lists_new(
    list: Seq<Index>,
    before: Map<Index, NodeView>,
    after: Map<Index, NodeView>,
) -> bool {
    &&& list.no_duplicates()
    &&& forall|x: Index|
        #![trigger list.contains(x)]
        #![trigger after.contains_key(x)]
        list.contains(x) <==> after.contains_key(x) && !before.contains_key(x)
}

/// What a list of lost nodes grows by when the tree shrinks again.
pub proof fn lemma_lists_lost_extend(
    a: Seq<Index>,
    b: Seq<Index>,
    t: Map<Index, NodeView>,
    s: Map<Index, NodeView>,
    s2: Map<Index, NodeView>,
)
    requires
        lists_new(a, s, t),
        lists_new(b, s2, s),
        forall|x: Index| #[trigger] s.contains_key(x) ==> t.contains_key(x),
        forall|x: Index| #[trigger] s2.contains_key(x) ==> s.contains_key(x),
    ensures
        lists_new(a + b, s2, t),
{
    lemma_append_disjoint(a, b);
    assert forall|x: Index|
        #![trigger (a + b).contains(x)]
        #![trigger t.contains_key(x)]
        (a + b).contains(x) <==> t.contains_key(x) && !s2.contains_key(x) by {
        assert((a + b).contains(x) <==> a.contains(x) || b.contains(x));
        assert(a.contains(x) <==> t.contains_key(x) && !s.contains_key(x));
        assert(b.contains(x) <==> s.contains_key(x) && !s2.contains_key(x));
        if s.contains_key(x) {
            assert(t.contains_key(x));
        }
        if s2.contains_key(x) {
            assert(s.contains_key(x));
        }
    }
}

/// What a list of new nodes grows by when the tree grows again.
pub proof fn lemma_lists_new_extend(
    a: Seq<Index>,
    b: Seq<Index>,
    t: Map<Index, NodeView>,
    s: Map<Index, NodeView>,
    s2: Map<Index, NodeView>,
)
    requires
        lists_new(a, t, s),
        lists_new(b, s, s2),
        forall|x: Index| #[trigger] t.contains_key(x) ==> s.contains_key(x),
        forall|x: Index| #[trigger] s.contains_key(x) ==> s2.contains_key(x),
    ensures
        lists_new(a + b, t, s2),
{
    lemma_append_disjoint(a, b);
    assert forall|x: Index|
        #![trigger (a + b).contains(x)]
        #![trigger s2.contains_key(x)]
        (a + b).contains(x) <==> s2.contains_key(x) && !t.contains_key(x) by {
        assert((a + b).contains(x) <==> a.contains(x) || b.contains(x));
        assert(a.contains(x) <==> s.contains_key(x) && !t.contains_key(x));
        assert(b.contains(x) <==> s2.contains_key(x) && !s.contains_key(x));
        if t.contains_key(x) {
            assert(s.contains_key(x));
        }
        if s.contains_key(x) {
            assert(s2.contains_key(x));
        }
    }
}

/// Pruning the subtree of a node keeps the node's parent, which loses that
/// one child, and keeps the links of a forest.
pub proof fn lemma_pruned_parent(
    m: Map<Index, NodeView>,
    depth: Map<Index, nat>,
    bound: nat,
    id: Index,
)
    requires
        links_wf(m),
        depths_wf(m, depth, bound),
        m.contains_key(id),
        m[id].parent is Some,
    ensures
        pruned(m, id).contains_key(m[id].parent.unwrap()),
        pruned(m, id)[m[id].parent.unwrap()] == (NodeView {
            children: without(m[m[id].parent.unwrap()].children, id),
            ..m[m[id].parent.unwrap()]
        }),
        !pruned(m, id).contains_key(id),
        forall|x: Index|
            #[trigger] pruned(m, id).contains_key(x) ==> m.contains_key(x) && (Some(x)
                != m[id].parent ==> pruned(m, id)[x] == m[x]),
{
    let p = m[id].parent.unwrap();
    if in_subtree(m, id, p) {
        lemma_subtree_depth(m, depth, bound, id, p);
    }
    assert(ancestor_at(m, id, 0) == Some(id));
}

/// A descendant in `s` is a descendant in every map `t` that holds the
/// nodes of `s` with the same parents.
pub proof fn lemma_in_subtree_lifts(
    s: Map<Index, NodeView>,
    t: Map<Index, NodeView>,
    root: Index,
    d: Index,
)
    requires
        forall|n: Index| #[trigger] s.contains_key(n) ==>
            t.contains_key(n) && t[n].parent == s[n].parent,
        in_subtree(s, root, d),
    ensures
        in_subtree(t, root, d),
{
    let k = choose|k: nat| ancestor_at(s, d, k) == Some(root);
    lemma_chain_lifts(s, t, d, k, root);
}

/// Placing a new element into a rearrangement of a list gives a
/// rearrangement of the list with that element appended.
pub proof fn lemma_rearranges_insert(order: Seq<Index>, children: Seq<Index>, at: int, id: Index)
    requires
        rearranges(order, children),
        !children.contains(id),
        0 <= at <= order.len(),
    ensures
        rearranges(order.insert(at, id), children.push(id)),
{
    let o2 = order.insert(at, id);
    let c2 = children.push(id);
    assert forall|i: int| 0 <= i < o2.len() implies c2.contains(#[trigger] o2[i]) by {
        if i == at {
            assert(c2[children.len() as int] == id);
        } else {
            let x = o2[i];
            let j = if i < at {
                i
            } else {
                i - 1
            };
            assert(order[j] == x);
            assert(children.contains(x));
            let c = children.index_of(x);
            assert(c2[c] == x);
        }
    }
    assert forall|i: int, j: int| 0 <= i < o2.len() && 0 <= j < o2.len() && i != j implies o2[i]
        != o2[j] by {
        let ii = if i < at {
            i
        } else {
            i - 1
        };
        let jj = if j < at {
            j
        } else {
            j - 1
        };
        if i != at {
            assert(order[ii] == o2[i]);
            assert(children.contains(order[ii]));
        }
        if j != at {
            assert(order[jj] == o2[j]);
            assert(children.contains(order[jj]));
        }
    }
}

/// Pruning the subtree of a node that has a parent keeps a forest a forest.
pub proof fn lemma_pruned_wf(
    m: Map<Index, NodeView>,
    depth: Map<Index, nat>,
    bound: nat,
    id: Index,
)
    requires
        links_wf(m),
        depths_wf(m, depth, bound),
        m.contains_key(id),
        m[id].parent is Some,
    ensures
        links_wf(pruned(m, id)),
        depths_wf(pruned(m, id), depth, bound),
{
    let p = m[id].parent.unwrap();
    let n = pruned(m, id);
    lemma_pruned_parent(m, depth, bound, id);
    assert(m[p].children.contains(id));
    let at = m[p].children.index_of(id);
    lemma_without_at(m[p].children, at);
    assert(ancestor_at(m, id, 0) == Some(id));
    assert forall|x: Index, i: int|
        #![trigger n[x].children[i]]
        n.contains_key(x) && 0 <= i < n[x].children.len() implies n.contains_key(n[x].children[i])
        && n[n[x].children[i]].parent == Some(x) by {
        let c = n[x].children[i];
        if x == p {
            assert(n[x].children.contains(c));
            assert(m[p].children.contains(c));
            let j = m[p].children.index_of(c);
            assert(m.contains_key(m[p].children[j]));
        } else {
            assert(m.contains_key(m[x].children[i]));
        }
        assert(m.contains_key(c) && m[c].parent == Some(x));
        assert(c != id);
        lemma_in_subtree_unfold(m, id, c);
    }
    assert forall|x: Index| #[trigger] n.contains_key(x) implies n[x].children.no_duplicates() by {
        assert(m.contains_key(x));
    }
    assert forall|x: Index| #[trigger] n.contains_key(x) && n[x].parent is Some implies
        n.contains_key(
        n[x].parent.unwrap(),
    ) && n[n[x].parent.unwrap()].children.contains(x) by {
        assert(m.contains_key(x));
        let q = m[x].parent.unwrap();
        assert(n[x].parent == m[x].parent);
        assert(m.contains_key(q) && m[q].children.contains(x));
        lemma_in_subtree_unfold(m, id, x);
        assert(x != id);
    }
    assert forall|x: Index| #[trigger] n.contains_key(x) implies depth.contains_key(x) && depth[x]
        <= bound && (n[x].parent is Some ==> depth[x] == depth[n[x].parent.unwrap()] + 1) by {
        assert(m.contains_key(x));
        assert(n[x].parent == m[x].parent);
    }
}

/// What a sequence with one more element holds.
pub proof fn lemma_push_contains(s: Seq<Index>, a: Index, x: Index)
    ensures
        s.push(a).contains(x) <==> s.contains(x) || x == a,
{
    if s.contains(x) {
        let i = s.index_of(x);
        assert(s.push(a)[i] == x);
    }
    assert(s.push(a)[s.len() as int] == a);
    if s.push(a).contains(x) {
        let i = s.push(a).index_of(x);
        if i < s.len() {
            assert(s[i] == x);
        }
    }
}

/// A child is not its own parent.
pub proof fn lemma_child_differs(
    m: Map<Index, NodeView>,
    depth: Map<Index, nat>,
    bound: nat,
    p: Index,
    x: Index,
)
    requires
        links_wf(m),
        depths_wf(m, depth, bound),
        m.contains_key(p),
        m[p].children.contains(x),
    ensures
        x != p,
        m.contains_key(x),
        m[x].parent == Some(p),
{
    let i = m[p].children.index_of(x);
    assert(m.contains_key(m[p].children[i]));
}

/// What two sequences hold when one is put behind the other.
pub proof fn lemma_concat_contains(a: Seq<Index>, b: Seq<Index>, x: Index)
    ensures
        (a + b).contains(x) <==> a.contains(x) || b.contains(x),
{
    let c = a + b;
    if a.contains(x) {
        let i = a.index_of(x);
        assert(c[i] == x);
    }
    if b.contains(x) {
        let i = b.index_of(x);
        assert(c[a.len() + i] == x);
    }
    if c.contains(x) {
        let i = c.index_of(x);
        if i < a.len() {
            assert(a[i] == x);
        } else {
            assert(b[i - a.len()] == x);
        }
    }
}

} // verus!
