//! The positional comparison of two child lists.
//!
//! The children that a parent has are compared one position at a time with
//! the children that it was newly declared with. A child whose position holds
//! a widget of the same kind is kept, and updated where its properties
//! changed; every other child is removed, and every other declaration is
//! inserted. No child is ever recognised at another position.

use vstd::prelude::*;
use crate::index::Index;
use crate::props::{Props, PropsView, TypeTag};
use crate::shape::NodeView;
use crate::tree::{TreeError, WidgetTree};

verus! {

/// What a comparison reads of one child: its identifier, its kind and its
/// properties.
#[derive(Clone, Debug, PartialEq, Eq)]
pub struct ChildSnapshot {
    pub id: Index,
    pub tag: TypeTag,
    pub props: Props,
}

/// The mathematical value of a [`ChildSnapshot`].
pub struct ChildView {
    pub id: Index,
    pub tag: TypeTag,
    pub props: PropsView,
}

impl View for ChildSnapshot {
    type V = ChildView;

    open spec fn view(&self) -> ChildView {
        ChildView { id: self.id, tag: self.tag, props: self.props@ }
    }
}

/// One structural edit of a child list.
#[derive(Clone, Debug, PartialEq, Eq)]
pub enum EditOp {
    /// Insert, at `position`, a copy of the declared subtree whose root is
    /// `root`.
    Insert { position: usize, root: Index },
    /// Remove the child `id` with its subtree.
    Remove { id: Index },
    /// Give the child `id`, which is of kind `tag`, the properties `props`.
    Update { id: Index, tag: TypeTag, props: Props },
}

/// The mathematical value of an [`EditOp`].
pub enum EditOpView {
    Insert { position: int, root: Index },
    Remove { id: Index },
    Update { id: Index, tag: TypeTag, props: PropsView },
}

impl View for EditOp {
    type V = EditOpView;

    open spec fn view(&self) -> EditOpView {
        match self {
            EditOp::Insert { position, root } => EditOpView::Insert {
                position: *position as int,
                root: *root,
            },
            EditOp::Remove { id } => EditOpView::Remove { id: *id },
            EditOp::Update { id, tag, props } => EditOpView::Update {
                id: *id,
                tag: *tag,
                props: props@,
            },
        }
    }
}

/// The edits that turn the children of `parent` into what was declared:
/// first the removals and updates, by position, then the insertions, by
/// position.
#[derive(Clone, Debug, PartialEq, Eq)]
pub struct EditScript {
    pub parent: Index,
    pub ops: Vec<EditOp>,
}

impl View for EditScript {
    type V = Seq<EditOpView>;

    open spec fn view(&self) -> Seq<EditOpView> {
        self.ops@.map_values(|op: EditOp| op@)
    }
}

/// The values of a list of snapshots.
pub open spec fn snapshot_views(list: Seq<ChildSnapshot>) -> Seq<ChildView> {
    list.map_values(|c: ChildSnapshot| c@)
}

/// What a comparison reads of the nodes `ids` of the tree `m`.
pub open spec fn snapshots_of(m: Map<Index, NodeView>, ids: Seq<Index>) -> Seq<ChildView> {
    Seq::new(
        ids.len(),
        |i: int| ChildView { id: ids[i], tag: m[ids[i]].widget.tag, props: m[ids[i]].widget.props },
    )
}

/// The children that a scratch tree declares: the children of its root, and
/// none where it has no root.
pub open spec fn declared(scratch: &WidgetTree) -> Seq<Index> {
    match scratch.root_node() {
        Some(root) => scratch@[root].children,
        None => Seq::empty(),
    }
}

/// The children that the node `src` of a scratch tree declares; none where
/// there is no such node.
pub open spec fn declared_under(scratch: Map<Index, NodeView>, src: Option<Index>) -> Seq<Index> {
    match src {
        Some(node) => scratch[node].children,
        None => Seq::empty(),
    }
}

/// Whether position `i` holds a widget of the same kind before and after.
pub open spec fn retained_at(old: Seq<ChildView>, new: Seq<ChildView>, i: int) -> bool {
    0 <= i < old.len() && i < new.len() && old[i].tag == new[i].tag
}

/// What becomes of the old child at position `i`: nothing where it is kept
/// with equal properties, an update where it is kept with other properties,
/// a removal where it is not kept.
pub open spec fn retire_step(old: Seq<ChildView>, new: Seq<ChildView>, i: int) -> Seq<EditOpView> {
    if retained_at(old, new, i) {
        if old[i].props == new[i].props {
            Seq::empty()
        } else {
            seq![EditOpView::Update { id: old[i].id, tag: new[i].tag, props: new[i].props }]
        }
    } else {
        seq![EditOpView::Remove { id: old[i].id }]
    }
}

/// The removals and updates for the first `n` old children, by position.
pub open spec fn retire_ops(old: Seq<ChildView>, new: Seq<ChildView>, n: nat) -> Seq<EditOpView>
    decreases n,
{
    if n == 0 {
        Seq::empty()
    } else {
        retire_ops(old, new, (n - 1) as nat) + retire_step(old, new, n - 1)
    }
}

/// What becomes of the declaration at position `i`: nothing where it
/// describes the child that is kept there, an insertion otherwise.
pub open spec fn insert_step(old: Seq<ChildView>, new: Seq<ChildView>, i: int) -> Seq<EditOpView> {
    if retained_at(old, new, i) {
        Seq::empty()
    } else {
        seq![EditOpView::Insert { position: i, root: new[i].id }]
    }
}

/// The insertions for the first `n` declarations, by position.
pub open spec fn insert_ops(old: Seq<ChildView>, new: Seq<ChildView>, n: nat) -> Seq<EditOpView>
    decreases n,
{
    if n == 0 {
        Seq::empty()
    } else {
        insert_ops(old, new, (n - 1) as nat) + insert_step(old, new, n - 1)
    }
}

/// The edit script for the children `old` and the declarations `new`.
pub open spec fn diff_spec(old: Seq<ChildView>, new: Seq<ChildView>) -> Seq<EditOpView> {
    retire_ops(old, new, old.len()) + insert_ops(old, new, new.len())
}

/// Compares the children `old_children` of `parent` with the declarations
/// `new_children` and returns the edits that turn the former into the latter.
pub fn diff(parent: Index, old_children: &Vec<ChildSnapshot>,
    new_children: &Vec<ChildSnapshot>) -> (script: EditScript)
    ensures
        script.parent == parent,
        script@ == diff_spec(snapshot_views(old_children@), snapshot_views(new_children@)),
{
    let ghost old = snapshot_views(old_children@);
    let ghost new = snapshot_views(new_children@);
    let mut ops: Vec<EditOp> = Vec::new();
    let mut i: usize = 0;
    while i < old_children.len()
        invariant
            i <= old_children@.len(),
            old == snapshot_views(old_children@),
            new == snapshot_views(new_children@),
            ops@.map_values(|op: EditOp| op@) == retire_ops(old, new, i as nat),
        decreases old_children@.len() - i,
    {
        let ghost before = ops@.map_values(|op: EditOp| op@);
        let child = &old_children[i];
        if i < new_children.len() && child.tag == new_children[i].tag {
            let declared = &new_children[i];
            if !child.props.same(&declared.props) {
                ops.push(
                    EditOp::Update {
                        id: child.id,
                        tag: declared.tag,
                        props: declared.props.duplicate(),
                    },
                );
            }
        } else {
            ops.push(EditOp::Remove { id: child.id });
        }
        assert(ops@.map_values(|op: EditOp| op@) =~= before + retire_step(old, new, i as int));
        i += 1;
    }
    let mut j: usize = 0;
    while j < new_children.len()
        invariant
            j <= new_children@.len(),
            old == snapshot_views(old_children@),
            new == snapshot_views(new_children@),
            ops@.map_values(|op: EditOp| op@) == retire_ops(old, new, old.len()) + insert_ops(
                old,
                new,
                j as nat,
            ),
        decreases new_children@.len() - j,
    {
        let ghost before = ops@.map_values(|op: EditOp| op@);
        if !(j < old_children.len() && old_children[j].tag == new_children[j].tag) {
            ops.push(EditOp::Insert { position: j, root: new_children[j].id });
        }
        assert(ops@.map_values(|op: EditOp| op@) =~= before + insert_step(old, new, j as int));
        j += 1;
    }
    EditScript { parent, ops }
}

/// Two lists of equal length that agree, position by position, in kind and
/// properties need no removal and no update.
pub proof fn lemma_retire_ops_identical(old: Seq<ChildView>, new: Seq<ChildView>, n: nat)
    requires
        n <= old.len(),
        forall|i: int| 0 <= i < n ==> retained_at(old, new, i) && old[i].props == new[i].props,
    ensures
        retire_ops(old, new, n) == Seq::<EditOpView>::empty(),
    decreases n,
{
    if n > 0 {
        lemma_retire_ops_identical(old, new, (n - 1) as nat);
    }
}

/// Declarations that each describe the child kept at their position need no
/// insertion.
pub proof fn lemma_insert_ops_retained(old: Seq<ChildView>, new: Seq<ChildView>, n: nat)
    requires
        n <= new.len(),
        forall|i: int| 0 <= i < n ==> retained_at(old, new, i),
    ensures
        insert_ops(old, new, n) == Seq::<EditOpView>::empty(),
    decreases n,
{
    if n > 0 {
        lemma_insert_ops_retained(old, new, (n - 1) as nat);
    }
}

/// Comparing a child list with declarations of the same length that agree
/// with it, position by position, in kind and properties gives the empty
/// script.
pub proof fn lemma_diff_identical(old: Seq<ChildView>, new: Seq<ChildView>)
    requires
        old.len() == new.len(),
        forall|i: int|
            0 <= i < old.len() ==> old[i].tag == new[i].tag && old[i].props == new[i].props,
    ensures
        diff_spec(old, new) == Seq::<EditOpView>::empty(),
{
    lemma_retire_ops_identical(old, new, old.len());
    lemma_insert_ops_retained(old, new, new.len());
}

/// Every removal or update in a script stems from one old position: it is
/// what `retire_step` gives there.
pub proof fn lemma_retire_ops_origin(old: Seq<ChildView>, new: Seq<ChildView>, n: nat, k: int)
    requires
        n <= old.len(),
        0 <= k < retire_ops(old, new, n).len(),
    ensures
        exists|i: int| 0 <= i < n
            && #[trigger] retire_step(old, new, i) == seq![retire_ops(old, new, n)[k]],
    decreases n,
{
    if n > 0 {
        let before = retire_ops(old, new, (n - 1) as nat);
        if k < before.len() {
            lemma_retire_ops_origin(old, new, (n - 1) as nat, k);
            let i = choose|i: int| 0 <= i < n - 1
                && #[trigger] retire_step(old, new, i) == seq![before[k]];
            assert(retire_step(old, new, i) == seq![retire_ops(old, new, n)[k]]);
        } else {
            assert(retire_step(old, new, n - 1) =~= seq![retire_ops(old, new, n)[k]]);
        }
    }
}

/// Every insertion in a script stems from one new position: it is what
/// `insert_step` gives there.
pub proof fn lemma_insert_ops_origin(old: Seq<ChildView>, new: Seq<ChildView>, n: nat, k: int)
    requires
        n <= new.len(),
        0 <= k < insert_ops(old, new, n).len(),
    ensures
        exists|i: int| 0 <= i < n
            && #[trigger] insert_step(old, new, i) == seq![insert_ops(old, new, n)[k]],
    decreases n,
{
    if n > 0 {
        let before = insert_ops(old, new, (n - 1) as nat);
        if k < before.len() {
            lemma_insert_ops_origin(old, new, (n - 1) as nat, k);
            let i = choose|i: int| 0 <= i < n - 1
                && #[trigger] insert_step(old, new, i) == seq![before[k]];
            assert(insert_step(old, new, i) == seq![insert_ops(old, new, n)[k]]);
        } else {
            assert(insert_step(old, new, n - 1) =~= seq![insert_ops(old, new, n)[k]]);
        }
    }
}

/// Where every position that both lists have holds a widget of the same kind
/// before and after, no child at such a position is removed and nothing is
/// inserted there: the script updates children at shared positions, removes
/// children only from positions that the declarations no longer reach, and
/// inserts only at positions beyond the old children.
pub proof fn lemma_diff_same_kinds(old: Seq<ChildView>, new: Seq<ChildView>)
    requires
        forall|i: int| 0 <= i < old.len() && i < new.len() ==> old[i].tag == new[i].tag,
    ensures
        forall|k: int|
            0 <= k < diff_spec(old, new).len() ==> match #[trigger] diff_spec(old, new)[k] {
                EditOpView::Remove { id } => exists|i: int|
                    new.len() <= i < old.len() && #[trigger] old[i].id == id,
                EditOpView::Insert { position, root } => old.len() <= position < new.len() && root
                    == new[position].id,
                EditOpView::Update { id, tag, props } => exists|i: int|
                    0 <= i < old.len() && i < new.len() && #[trigger] old[i].id == id && tag
                        == old[i].tag && props == new[i].props && props != old[i].props,
            },
{
    let script = diff_spec(old, new);
    let first = retire_ops(old, new, old.len());
    assert forall|k: int| 0 <= k < script.len() implies match #[trigger] script[k] {
        EditOpView::Remove { id } => exists|i: int|
            new.len() <= i < old.len() && #[trigger] old[i].id == id,
        EditOpView::Insert { position, root } => old.len() <= position < new.len() && root
            == new[position].id,
        EditOpView::Update { id, tag, props } => exists|i: int|
            0 <= i < old.len() && i < new.len() && #[trigger] old[i].id == id && tag == old[i].tag
                && props == new[i].props && props != old[i].props,
    } by {
        if k < first.len() {
            lemma_retire_ops_origin(old, new, old.len(), k);
            let i = choose|i: int| 0 <= i < old.len()
                && #[trigger] retire_step(old, new, i) == seq![first[k]];
            assert(retire_step(old, new, i)[0] == first[k]);
            assert(retire_step(old, new, i).len() == 1);
        } else {
            let kk = k - first.len();
            lemma_insert_ops_origin(old, new, new.len(), kk);
            let i = choose|i: int| 0 <= i < new.len()
                && #[trigger] insert_step(old, new, i) == seq![insert_ops(old, new, new.len())[kk]];
            assert(insert_step(old, new, i)[0] == script[k]);
            assert(insert_step(old, new, i).len() == 1);
        }
    }
}

/// Two children of different kinds that trade places are both removed and
/// both inserted anew: the comparison does not recognise a child that moved.
pub proof fn lemma_diff_swap(old: Seq<ChildView>, new: Seq<ChildView>)
    requires
        old.len() == 2,
        new.len() == 2,
        new[0].tag == old[1].tag,
        new[1].tag == old[0].tag,
        old[0].tag != old[1].tag,
    ensures
        diff_spec(old, new) == seq![
            EditOpView::Remove { id: old[0].id },
            EditOpView::Remove { id: old[1].id },
            EditOpView::Insert { position: 0, root: new[0].id },
            EditOpView::Insert { position: 1, root: new[1].id },
        ],
{
    reveal_with_fuel(retire_ops, 3);
    reveal_with_fuel(insert_ops, 3);
    assert(diff_spec(old, new) =~= seq![
        EditOpView::Remove { id: old[0].id },
        EditOpView::Remove { id: old[1].id },
        EditOpView::Insert { position: 0, root: new[0].id },
        EditOpView::Insert { position: 1, root: new[1].id },
    ]);
}

impl WidgetTree {
    fn child_snapshots(&self, parent: Index) -> (list: Vec<ChildSnapshot>)
        requires
            self.wf(),
            self@.contains_key(parent),
        ensures
            snapshot_views(list@) == snapshots_of(self@, self@[parent].children),
    {
        proof {
            self.lemma_wf();
        }
        let kids = &self.get(parent).unwrap().children;
        let mut list: Vec<ChildSnapshot> = Vec::new();
        let mut i: usize = 0;
        while i < kids.len()
            invariant
                i <= kids@.len(),
                self.wf(),
                self@.contains_key(parent),
                kids@ == self@[parent].children,
                list@.len() == i,
                forall|j: int|
                    0 <= j < i ==> (#[trigger] list@[j])@ == snapshots_of(self@, kids@)[j],
            decreases kids@.len() - i,
        {
            let id = kids[i];
            proof {
                self.lemma_wf();
                assert(self@.contains_key(self@[parent].children[i as int]));
            }
            let node = self.get(id).unwrap();
            list.push(ChildSnapshot { id, tag: node.widget.tag,
                props: node.widget.props.duplicate() });
            i += 1;
        }
        assert(snapshot_views(list@) =~= snapshots_of(self@, self@[parent].children));
        list
    }

    /// Compares the children of `parent` with the children that `scratch`
    /// declares, and returns the edits that turn the former into the
    /// latter.
    ///
    /// Fails with `InvalidIdentifier` when `parent` names no node.
    pub fn diff_children(&self, scratch: &WidgetTree, parent: Index) -> (r: Result<
        EditScript,
        TreeError,
    >)
        requires
            self.wf(),
            scratch.wf(),
        ensures
            r is Ok <==> self@.contains_key(parent),
            r matches Ok(script) ==> script.parent == parent && script@ == diff_spec(
                snapshots_of(self@, self@[parent].children),
                snapshots_of(scratch@, declared(scratch)),
            ),
            r matches Err(e) ==> e == TreeError::InvalidIdentifier,
    {
        proof {
            scratch.lemma_wf();
        }
        self.diff_children_of(scratch, scratch.root(), parent)
    }

    /// Compares the children of `parent` with the children that the node
    /// `src` of `scratch` declares, or with no declaration where `src` is
    /// `None`, and returns the edits that turn the former into the latter.
    ///
    /// Fails with `InvalidIdentifier` when `parent` names no node of this
    /// tree or `src` names no node of `scratch`.
    pub fn diff_children_of(&self, scratch: &WidgetTree, src: Option<Index>, parent: Index) -> (r:
        Result<EditScript, TreeError>)
        requires
            self.wf(),
            scratch.wf(),
        ensures
            r is Ok <==> self@.contains_key(parent) && (src matches Some(node)
                ==> scratch@.contains_key(node)),
            r matches Ok(script) ==> script.parent == parent && script@ == diff_spec(
                snapshots_of(self@, self@[parent].children),
                snapshots_of(scratch@, declared_under(scratch@, src)),
            ),
            r matches Err(e) ==> e == TreeError::InvalidIdentifier,
    {
        if !self.contains(parent) {
            return Err(TreeError::InvalidIdentifier);
        }
        let new_children = match src {
            None => {
                let none: Vec<ChildSnapshot> = Vec::new();
                assert(snapshot_views(none@) =~= snapshots_of(
                    scratch@,
                    declared_under(scratch@, src),
                ));
                none
            },
            Some(node) => {
                if !scratch.contains(node) {
                    return Err(TreeError::InvalidIdentifier);
                }
                scratch.child_snapshots(node)
            },
        };
        let old_children = self.child_snapshots(parent);
        Ok(diff(parent, &old_children, &new_children))
    }
}

} // verus!
