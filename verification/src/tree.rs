//! The arena that owns every widget node of one tree.
//!
//! Nodes live in slots. An identifier names a slot together with the
//! generation of the node that occupies it, so that an identifier whose node
//! was removed never names a later occupant of the same slot.

use vstd::prelude::*;
use crate::index::Index;
use crate::props::{Props, WidgetData};
use crate::shape::{
    ancestor_at, depths_wf, in_subtree, leaf_depth, lemma_chain_ends_present,
    lemma_lists_lost_extend, lists_new, lemma_chain_next, lemma_prune_child, lemma_prune_last,
    lemma_with_child_wf, lemma_with_children_wf, lemma_with_widget_wf, lemma_without_at,
    lemma_without_leaf_wf, links_wf, partly_pruned, pruned, rearranges, with_child, with_children,
    with_widget, without_leaf, NodeView,
};
use crate::props::WidgetView;

verus! {

/// Why an operation on a tree was refused.
#[derive(Clone, Copy, Debug, PartialEq, Eq, Structural)]
pub enum TreeError {
    /// An identifier names no node of the tree, or not the node it must name.
    InvalidIdentifier,
    /// The node is a root, and roots are not removed.
    ProtectedRoot,
    /// An update would turn a widget into a widget of another kind.
    TypeMismatch,
}

/// One node of a tree.
#[derive(Clone, Debug, PartialEq, Eq)]
pub struct WidgetNode {
    pub id: Index,
    pub widget: WidgetData,
    pub children: Vec<Index>,
    pub parent: Option<Index>,
}

impl View for WidgetNode {
    type V = NodeView;

    open spec fn view(&self) -> NodeView {
        NodeView { widget: self.widget@, children: self.children@, parent: self.parent }
    }
}

struct Slot {
    generation: u64,
    node: Option<WidgetNode>,
}

/// An arena of widget nodes, linked into a forest.
pub struct WidgetTree {
    slots: Vec<Slot>,
    free: Vec<usize>,
    root: Option<Index>,
    depth: Ghost<Map<Index, nat>>,
    bound: Ghost<nat>,
}

impl View for WidgetTree {
    type V = Map<Index, NodeView>;

    closed spec fn view(&self) -> Map<Index, NodeView> {
        Map::new(|id: Index| self.live(id), |id: Index| self.slots[id.slot as int].node.unwrap()@)
    }
}

impl WidgetTree {
    spec fn live(&self, id: Index) -> bool {
        &&& id.slot < self.slots.len()
        &&& self.slots[id.slot as int].generation == id.generation
        &&& self.slots[id.slot as int].node is Some
    }

    /// Whether `id` was ever handed out by this tree. A tree never hands out
    /// the same identifier twice.
    pub closed spec fn issued(&self, id: Index) -> bool {
        id.slot < self.slots.len() && id.generation <= self.slots[id.slot as int].generation
    }

    /// The first root that the tree was given, if it has one.
    pub closed spec fn root_node(&self) -> Option<Index> {
        self.root
    }

    /// The level of each node: a root lies at level 0, a child one level
    /// below its parent.
    pub closed spec fn depths(&self) -> Map<Index, nat> {
        self.depth@
    }

    /// A level below which no node lies.
    pub closed spec fn height_bound(&self) -> nat {
        self.bound@
    }

    /// The invariant of the arena: every node sits in the slot that its
    /// identifier names, and the nodes form a forest.
    pub closed spec fn wf(&self) -> bool {
        &&& forall|i: int|
            0 <= i < self.slots.len() && (#[trigger] self.slots[i]).node is Some
                ==> self.slots[i].node.unwrap().id == (Index {
                slot: i as usize,
                generation: self.slots[i].generation,
            })
        &&& forall|j: int| 0 <= j < self.free.len() ==> #[trigger] self.free[j] < self.slots.len()
        &&& links_wf(self@)
        &&& depths_wf(self@, self.depth@, self.bound@)
        &&& self.root matches Some(r) ==> self@.contains_key(r) && self@[r].parent is None
    }

    /// What the invariant says of the nodes: links agree, the levels number
    /// a forest, and every node's identifier was handed out.
    pub proof fn lemma_wf(&self)
        requires
            self.wf(),
        ensures
            links_wf(self@),
            depths_wf(self@, self.depths(), self.height_bound()),
            forall|id: Index| #[trigger] self@.contains_key(id) ==> self.issued(id),
            self.root_node() matches Some(r) ==> self@.contains_key(r) && self@[r].parent is None,
    {
    }

    /// An empty tree.
    pub fn new() -> (tree: WidgetTree)
        ensures
            tree.wf(),
            tree@ == Map::<Index, NodeView>::empty(),
            tree.root_node() is None,
            forall|id: Index| !tree.issued(id),
    {
        let tree = WidgetTree {
            slots: Vec::new(),
            free: Vec::new(),
            root: None,
            depth: Ghost(Map::empty()),
            bound: Ghost(0),
        };
        assert(tree@ =~= Map::<Index, NodeView>::empty());
        tree
    }

    /// Whether `id` names a node of the tree.
    pub fn contains(&self, id: Index) -> (r: bool)
        ensures
            r == self@.contains_key(id),
    {
        id.slot < self.slots.len() && self.slots[id.slot].generation == id.generation
            && self.slots[id.slot].node.is_some()
    }

    /// The first root that the tree was given, if it has one.
    pub fn root(&self) -> (r: Option<Index>)
        ensures
            r == self.root_node(),
    {
        self.root
    }

    /// The node that `id` names, if it names one.
    pub fn get(&self, id: Index) -> (r: Option<&WidgetNode>)
        requires
            self.wf(),
        ensures
            r is Some <==> self@.contains_key(id),
            r matches Some(node) ==> node@ == self@[id] && node.id == id,
    {
        if id.slot < self.slots.len() && self.slots[id.slot].generation == id.generation {
            self.slots[id.slot].node.as_ref()
        } else {
            None
        }
    }

    fn vacant_slot(&mut self) -> (r: Option<usize>)
        requires
            old(self).wf(),
        ensures
            final(self).wf(),
            final(self).slots == old(self).slots,
            final(self).root == old(self).root,
            final(self).depth == old(self).depth,
            final(self).bound == old(self).bound,
            final(self).free@.len() <= old(self).free@.len(),
            final(self).free@ == old(self).free@.subrange(0, final(self).free@.len() as int),
            match r {
                Some(i) => {
                    &&& final(self).free@.len() < old(self).free@.len()
                    &&& i == old(self).free@[final(self).free@.len() as int]
                    &&& final(self).reusable(i as int)
                    &&& forall|j: int|
                        final(self).free@.len() < j < old(self).free@.len() ==>
                            !old(self).reusable(#[trigger] old(self).free@[j] as int)
                },
                None => {
                    &&& final(self).free@.len() == 0
                    &&& forall|j: int|
                        0 <= j < old(self).free@.len() ==> !old(self).reusable(
                            #[trigger] old(self).free@[j] as int,
                        )
                },
            },
    {
        while self.free.len() > 0
            invariant
                self.wf(),
                self.slots == old(self).slots,
                self.root == old(self).root,
                self.depth == old(self).depth,
                self.bound == old(self).bound,
                self.free@.len() <= old(self).free@.len(),
                self.free@ == old(self).free@.subrange(0, self.free@.len() as int),
                forall|j: int|
                    self.free@.len() <= j < old(self).free@.len() ==> !old(self).reusable(
                        #[trigger] old(self).free@[j] as int,
                    ),
            decreases self.free.len(),
        {
            let ghost before = self@;
            let ghost listed = self.free@;
            let i = self.free.pop().unwrap();
            proof {
                assert(self@ =~= before);
                assert(listed[listed.len() - 1] == old(self).free@[listed.len() - 1]);
                assert(self.free@ =~= old(self).free@.subrange(0, self.free@.len() as int));
            }
            if self.slots[i].node.is_none() && self.slots[i].generation < u64::MAX {
                return Some(i);
            }
        }
        None
    }

    /// Whether slot `i` can take a new node: it is vacant, and the
    /// generations of its occupants are not used up.
    spec fn reusable(&self, i: int) -> bool {
        &&& 0 <= i < self.slots.len()
        &&& self.slots[i].node is None
        &&& self.slots[i].generation < u64::MAX
    }

    /// Adds a node that holds `widget`, as the last child of `parent`, or as
    /// a root where `parent` is `None`, and returns its identifier, which the
    /// tree has never handed out before.
    ///
    /// Fails with `InvalidIdentifier`, and changes nothing, when `parent`
    /// names no node.
    pub fn insert(&mut self, parent: Option<Index>, widget: WidgetData) -> (r: Result<Index,
        TreeError>)
        requires
            old(self).wf(),
        ensures
            final(self).wf(),
            match r {
                Ok(id) => {
                    &&& parent matches Some(p) ==> old(self)@.contains_key(p)
                    &&& !old(self).issued(id)
                    &&& final(self)@ == with_child(old(self)@, parent, id, widget@)
                    &&& forall|x: Index| final(self).issued(x) <==> old(self).issued(x) || x == id
                    &&& final(self).depths() == old(self).depths().insert(
                        id,
                        leaf_depth(old(self).depths(), parent),
                    )
                    &&& final(self).root_node() == (if old(self).root_node() is None && parent
                        is None {
                        Some(id)
                    } else {
                        old(self).root_node()
                    })
                },
                Err(e) => {
                    &&& e == TreeError::InvalidIdentifier
                    &&& parent matches Some(p) && !old(self)@.contains_key(p)
                    &&& *final(self) == *old(self)
                },
            },
    {
        if let Some(p) = parent {
            if !self.contains(p) {
                return Err(TreeError::InvalidIdentifier);
            }
        }
        let ghost before = self@;
        let ghost widget_view = widget@;
        let id = match self.vacant_slot() {
            Some(i) => {
                let generation = self.slots[i].generation + 1;
                let id = Index { slot: i, generation };
                self.slots[i].generation = generation;
                self.slots[i].node = Some(
                    WidgetNode { id, widget, children: Vec::new(), parent },
                );
                id
            },
            None => {
                let id = Index { slot: self.slots.len(), generation: 0 };
                self.slots.push(
                    Slot {
                        generation: 0,
                        node: Some(WidgetNode { id, widget, children: Vec::new(), parent }),
                    },
                );
                id
            },
        };
        if let Some(p) = parent {
            match &mut self.slots[p.slot].node {
                Some(node) => {
                    node.children.push(id);
                },
                None => {},
            }
        }
        if self.root.is_none() && parent.is_none() {
            self.root = Some(id);
        }
        proof {
            let d = leaf_depth(self.depth@, parent);
            lemma_with_child_wf(before, self.depth@, self.bound@, parent, id, widget_view);
            self.depth@ = self.depth@.insert(id, d);
            if d > self.bound@ {
                self.bound@ = d;
            }
            assert(self@ =~= with_child(before, parent, id, widget_view));
        }
        Ok(id)
    }

    fn last_child(&self, id: Index) -> (r: Option<Index>)
        requires
            self.wf(),
            self@.contains_key(id),
        ensures
            r is None <==> self@[id].children.len() == 0,
            r matches Some(c) ==> c == self@[id].children.last(),
    {
        match &self.slots[id.slot].node {
            Some(node) => {
                let n = node.children.len();
                if n == 0 {
                    None
                } else {
                    Some(node.children[n - 1])
                }
            },
            None => None,
        }
    }

    fn remove_leaf(&mut self, id: Index)
        requires
            old(self).wf(),
            old(self)@.contains_key(id),
            old(self)@[id].children.len() == 0,
            old(self)@[id].parent is Some,
        ensures
            final(self).wf(),
            final(self)@ == without_leaf(old(self)@, id),
            final(self).depth == old(self).depth,
            final(self).bound == old(self).bound,
            final(self).root == old(self).root,
            forall|x: Index| final(self).issued(x) <==> old(self).issued(x),
    {
        let ghost before = self@;
        let node = self.slots[id.slot].node.take().unwrap();
        self.free.push(id.slot);
        let p = node.parent.unwrap();
        proof {
            assert(before.contains_key(p));
            assert(before[p].children.contains(id));
            assert(p != id);
        }
        let at = position_in(&self.slots[p.slot].node.as_ref().unwrap().children, id);
        match &mut self.slots[p.slot].node {
            Some(parent_node) => {
                parent_node.children.remove(at);
            },
            None => {},
        }
        proof {
            lemma_without_at(before[p].children, at as int);
            lemma_without_leaf_wf(before, self.depth@, self.bound@, id);
            assert(self@ =~= without_leaf(before, id));
        }
    }

    fn remove_rec(&mut self, id: Index, removed: &mut Vec<Index>)
        requires
            old(self).wf(),
            old(self)@.contains_key(id),
            old(self)@[id].parent is Some,
        ensures
            final(self).wf(),
            final(self)@ == pruned(old(self)@, id),
            final(self).depth == old(self).depth,
            final(self).bound == old(self).bound,
            final(self).root == old(self).root,
            forall|x: Index| final(self).issued(x) <==> old(self).issued(x),
            old(removed)@.len() <= final(removed)@.len(),
            final(removed)@.subrange(0, old(removed)@.len() as int) == old(removed)@,
            lists_new(
                final(removed)@.subrange(old(removed)@.len() as int, final(removed)@.len() as int),
                final(self)@,
                old(self)@,
            ),
        decreases old(self).bound@ - old(self).depth@[id],
    {
        let ghost t = self@;
        let ghost base = removed@.len() as int;
        assert(removed@.subrange(base, base) =~= Seq::<Index>::empty());
        let mut next = self.last_child(id);
        while next.is_some()
            invariant
                self.wf(),
                depths_wf(t, self.depth@, self.bound@),
                self.depth == old(self).depth,
                self.bound == old(self).bound,
                self.root == old(self).root,
                forall|x: Index| self.issued(x) <==> old(self).issued(x),
                partly_pruned(t, self@, id),
                t == old(self)@,
                t[id].parent is Some,
                next is None <==> self@[id].children.len() == 0,
                next matches Some(c) ==> c == self@[id].children.last(),
                base == old(removed)@.len(),
                base <= removed@.len(),
                removed@.subrange(0, base) == old(removed)@,
                lists_new(removed@.subrange(base, removed@.len() as int), self@, t),
            decreases self@[id].children.len(),
        {
            let c = next.unwrap();
            let ghost s = self@;
            let ghost mid = removed@;
            proof {
                assert(s[id].children[s[id].children.len() - 1] == c);
                assert(s.contains_key(c) && s[c].parent == Some(id));
                lemma_prune_child(t, s, self.depth@, self.bound@, id, c);
                lemma_without_at(s[id].children, s[id].children.len() - 1);
            }
            self.remove_rec(c, removed);
            next = self.last_child(id);
            proof {
                let a = mid.subrange(base, mid.len() as int);
                let b = removed@.subrange(mid.len() as int, removed@.len() as int);
                assert(removed@.subrange(0, mid.len() as int) == mid);
                assert(removed@.subrange(0, base) =~= mid.subrange(0, base));
                assert(removed@.subrange(base, removed@.len() as int) =~= a + b) by {
                    assert forall|i: int| 0 <= i < a.len() implies removed@[base + i] == a[i] by {
                        assert(removed@.subrange(0, mid.len() as int)[base + i] == mid[base + i]);
                    }
                }
                lemma_lists_lost_extend(a, b, t, s, self@);
            }
        }
        let ghost s = self@;
        let ghost mid = removed@;
        proof {
            assert(s[id].parent != Some(id)) by {
                let p = s[id].parent.unwrap();
                assert(self.depth@[id] == self.depth@[p] + 1);
            }
            lemma_prune_last(t, s, id);
        }
        self.remove_leaf(id);
        removed.push(id);
        proof {
            let a = mid.subrange(base, mid.len() as int);
            let b = seq![id];
            assert(removed@.subrange(0, base) =~= mid.subrange(0, base));
            assert(removed@.subrange(base, removed@.len() as int) =~= a + b);
            assert(lists_new(b, self@, s)) by {
                assert forall|x: Index|
                    #![trigger b.contains(x)]
                    #![trigger s.contains_key(x)]
                    b.contains(x) <==> s.contains_key(x) && !self@.contains_key(x) by {
                    assert(b[0] == id);
                    if b.contains(x) {
                        assert(b[b.index_of(x)] == x);
                    }
                }
            }
            lemma_lists_lost_extend(a, b, t, s, self@);
        }
    }

    /// Removes the node `id` with its whole subtree, and returns the
    /// identifiers of the removed nodes, each once.
    ///
    /// Fails, and changes nothing, with `InvalidIdentifier` when `id` names
    /// no node, and with `ProtectedRoot` when it names a root.
    pub fn remove(&mut self, id: Index) -> (r: Result<Vec<Index>, TreeError>)
        requires
            old(self).wf(),
        ensures
            final(self).wf(),
            forall|x: Index| final(self).issued(x) <==> old(self).issued(x),
            final(self).depths() == old(self).depths(),
            final(self).root_node() == old(self).root_node(),
            match r {
                Ok(removed) => {
                    &&& old(self)@.contains_key(id)
                    &&& old(self)@[id].parent is Some
                    &&& final(self)@ == pruned(old(self)@, id)
                    &&& lists_new(removed@, final(self)@, old(self)@)
                    &&& forall|x: Index| removed@.contains(x) <==> in_subtree(old(self)@, id, x)
                },
                Err(e) => {
                    &&& *final(self) == *old(self)
                    &&& e == TreeError::InvalidIdentifier <==> !old(self)@.contains_key(id)
                    &&& e == TreeError::ProtectedRoot <==>
                        old(self)@.contains_key(id) && old(self)@[id].parent is None
                    &&& e != TreeError::TypeMismatch
                },
            },
    {
        match self.get(id) {
            None => {
                return Err(TreeError::InvalidIdentifier);
            },
            Some(node) => {
                if node.parent.is_none() {
                    return Err(TreeError::ProtectedRoot);
                }
            },
        }
        let mut removed: Vec<Index> = Vec::new();
        self.remove_rec(id, &mut removed);
        proof {
            assert(removed@.subrange(0, removed@.len() as int) =~= removed@);
            assert forall|x: Index| removed@.contains(x) <==> in_subtree(old(self)@, id, x) by {
                if in_subtree(old(self)@, id, x) {
                    let k = choose|k: nat| ancestor_at(old(self)@, x, k) == Some(id);
                    lemma_chain_ends_present(old(self)@, x, k, id);
                }
            }
        }
        Ok(removed)
    }

    /// Lists the children of `parent` in the order of `children`.
    ///
    /// `children` must hold the present children of `parent`, each once.
    /// Otherwise, or when `parent` names no node, the call fails with
    /// `InvalidIdentifier` and changes nothing.
    pub fn set_children(&mut self, parent: Index, children: Vec<Index>) -> (r: Result<
        (),
        TreeError,
    >)
        requires
            old(self).wf(),
        ensures
            final(self).wf(),
            forall|x: Index| final(self).issued(x) <==> old(self).issued(x),
            final(self).depths() == old(self).depths(),
            final(self).root_node() == old(self).root_node(),
            r is Ok <==> old(self)@.contains_key(parent) && rearranges(
                children@,
                old(self)@[parent].children,
            ),
            r is Ok ==> final(self)@ == with_children(old(self)@, parent, children@),
            r matches Err(e) ==> e == TreeError::InvalidIdentifier && *final(self) == *old(self),
    {
        if !self.contains(parent) {
            return Err(TreeError::InvalidIdentifier);
        }
        let ghost before = self@;
        let ok = is_rearrangement(&children,
            &self.slots[parent.slot].node.as_ref().unwrap().children);
        if !ok {
            return Err(TreeError::InvalidIdentifier);
        }
        let ghost kids = children@;
        match &mut self.slots[parent.slot].node {
            Some(node) => {
                node.children = children;
            },
            None => {},
        }
        proof {
            lemma_with_children_wf(before, self.depth@, self.bound@, parent, kids);
            assert(self@ =~= with_children(before, parent, kids));
        }
        Ok(())
    }

    /// Replaces the properties of the widget that the node `id` holds. The
    /// node keeps its identifier, its kind, its name, its parent and its
    /// children.
    ///
    /// Fails with `InvalidIdentifier`, and changes nothing, when `id` names
    /// no node.
    pub fn set_props(&mut self, id: Index, props: Props) -> (r: Result<(), TreeError>)
        requires
            old(self).wf(),
        ensures
            final(self).wf(),
            forall|x: Index| final(self).issued(x) <==> old(self).issued(x),
            final(self).depths() == old(self).depths(),
            final(self).root_node() == old(self).root_node(),
            r is Ok <==> old(self)@.contains_key(id),
            r is Ok ==> final(self)@ == with_widget(
                old(self)@,
                id,
                WidgetView { props: props@, ..old(self)@[id].widget },
            ),
            r matches Err(e) ==> e == TreeError::InvalidIdentifier && *final(self) == *old(self),
    {
        if !self.contains(id) {
            return Err(TreeError::InvalidIdentifier);
        }
        let ghost before = self@;
        let ghost w = WidgetView { props: props@, ..before[id].widget };
        match &mut self.slots[id.slot].node {
            Some(node) => {
                node.widget.props = props;
            },
            None => {},
        }
        proof {
            lemma_with_widget_wf(before, self.depth@, self.bound@, id, w);
            assert(self@ =~= with_widget(before, id, w));
        }
        Ok(())
    }

    /// The parent of the node `id`; `None` where `id` names a root or no
    /// node.
    pub fn get_parent(&self, id: Index) -> (r: Option<Index>)
        requires
            self.wf(),
        ensures
            r == ancestor_at(self@, id, 1),
            r == (if self@.contains_key(id) {
                self@[id].parent
            } else {
                None
            }),
    {
        match self.get(id) {
            Some(node) => {
                proof {
                    if node.parent is Some {
                        assert(ancestor_at(self@, node.parent.unwrap(), 0) == node.parent);
                    }
                }
                node.parent
            },
            None => None,
        }
    }

    /// The ancestors of the node `id`, nearest first: its parent, then the
    /// parent of its parent, up to the root. Empty where `id` names a root
    /// or no node.
    pub fn ancestors(&self, id: Index) -> (chain: Vec<Index>)
        requires
            self.wf(),
        ensures
            forall|k: int| 0 <= k < chain@.len() ==>
                ancestor_at(self@, id, (k + 1) as nat) == Some(#[trigger] chain@[k]),
            ancestor_at(self@, id, chain@.len() + 1) is None,
    {
        let mut chain: Vec<Index> = Vec::new();
        if !self.contains(id) {
            return chain;
        }
        let mut current = id;
        let mut next = self.get_parent(current);
        while next.is_some()
            invariant
                self.wf(),
                self@.contains_key(current),
                ancestor_at(self@, id, chain@.len()) == Some(current),
                next == self@[current].parent,
                forall|k: int| 0 <= k < chain@.len() ==>
                    ancestor_at(self@, id, (k + 1) as nat) == Some(#[trigger] chain@[k]),
            decreases self.depth@[current],
        {
            let p = next.unwrap();
            proof {
                lemma_chain_next(self@, id, chain@.len(), current);
                assert(self@.contains_key(p));
            }
            chain.push(p);
            current = p;
            next = self.get_parent(current);
        }
        proof {
            lemma_chain_next(self@, id, chain@.len(), current);
        }
        chain
    }
}

/// The first position of `id` in `list`, or the length of `list` where `id`
/// does not occur in it.
pub fn position_in(list: &Vec<Index>, id: Index) -> (at: usize)
    ensures
        at <= list@.len(),
        at < list@.len() ==> list@[at as int] == id,
        forall|j: int| 0 <= j < at ==> list@[j] != id,
        at == list@.len() <==> !list@.contains(id),
{
    let mut at: usize = 0;
    while at < list.len() && list[at] != id
        invariant
            at <= list@.len(),
            forall|j: int| 0 <= j < at ==> list@[j] != id,
        decreases list@.len() - at,
    {
        at += 1;
    }
    at
}

/// Whether `a` lists elements of `b`, each once, and as many as `b` holds.
pub fn is_rearrangement(a: &Vec<Index>, b: &Vec<Index>) -> (r: bool)
    ensures
        r == rearranges(a@, b@),
{
    if a.len() != b.len() {
        return false;
    }
    let mut i: usize = 0;
    while i < a.len()
        invariant
            i <= a@.len(),
            a@.len() == b@.len(),
            forall|j: int| 0 <= j < i ==> b@.contains(#[trigger] a@[j]),
            forall|j: int, k: int| 0 <= j < k < i ==> a@[j] != a@[k],
        decreases a@.len() - i,
    {
        if position_in(b, a[i]) == b.len() {
            return false;
        }
        if position_in(a, a[i]) != i {
            return false;
        }
        i += 1;
    }
    true
}

} // verus!
