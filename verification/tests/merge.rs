use kayak_core::diff::{EditOp, EditScript};
use kayak_core::index::Index;
use kayak_core::props::{Props, TypeTag, WidgetData};
use kayak_core::tree::{TreeError, WidgetTree};

const A: u64 = 10;
const B: u64 = 11;
const C: u64 = 12;
const ROOT: u64 = 1;

fn widget(tag: u64, number: u64) -> WidgetData {
    WidgetData::new(TypeTag(tag), format!("w{}", tag), Props::from_numbers(&vec![number]))
}

fn tree_of(children: &[(u64, u64)]) -> (WidgetTree, Index, Vec<Index>) {
    let mut tree = WidgetTree::new();
    let root = tree.insert(None, widget(ROOT, 0)).unwrap();
    let mut ids = Vec::new();
    for (tag, number) in children {
        ids.push(tree.insert(Some(root), widget(*tag, *number)).unwrap());
    }
    (tree, root, ids)
}

fn children_of(tree: &WidgetTree, id: Index) -> Vec<Index> {
    tree.get(id).unwrap().children.clone()
}

fn number_of(tree: &WidgetTree, id: Index) -> Props {
    tree.get(id).unwrap().widget.props.clone()
}

#[test]
fn update_and_append_keep_identity() {
    let (mut live, parent, ids) = tree_of(&[(A, 1), (B, 2)]);
    let (scratch, _, declared) = tree_of(&[(A, 1), (B, 3), (C, 0)]);
    let script = live.diff_children(&scratch, parent).unwrap();
    assert_eq!(
        script.ops,
        vec![
            EditOp::Update { id: ids[1], tag: TypeTag(B), props: Props::from_numbers(&vec![3]) },
            EditOp::Insert { position: 2, root: declared[2] },
        ]
    );
    let outcome = live.merge(&scratch, parent, script).unwrap();
    let now = children_of(&live, parent);
    assert_eq!(now.len(), 3);
    assert_eq!(now[0], ids[0]);
    assert_eq!(now[1], ids[1]);
    assert_eq!(now[2], outcome.roots[0]);
    assert!(now[2] != ids[0] && now[2] != ids[1]);
    assert_eq!(number_of(&live, ids[0]), Props::from_numbers(&vec![1]));
    assert_eq!(number_of(&live, ids[1]), Props::from_numbers(&vec![3]));
    assert_eq!(live.get(now[2]).unwrap().widget, widget(C, 0));
    assert_eq!(outcome.updated, vec![ids[1]]);
    assert_eq!(outcome.inserted, vec![now[2]]);
    assert!(outcome.removed.is_empty());
}

#[test]
fn trailing_children_leave_the_tree() {
    let (mut live, parent, ids) = tree_of(&[(A, 1), (B, 2), (C, 3)]);
    let (scratch, _, _) = tree_of(&[(A, 1)]);
    let script = live.diff_children(&scratch, parent).unwrap();
    assert_eq!(script.ops, vec![EditOp::Remove { id: ids[1] }, EditOp::Remove { id: ids[2] }]);
    let outcome = live.merge(&scratch, parent, script).unwrap();
    assert_eq!(children_of(&live, parent), vec![ids[0]]);
    assert!(!live.contains(ids[1]));
    assert!(!live.contains(ids[2]));
    let mut removed = outcome.removed.clone();
    removed.sort();
    let mut expected = vec![ids[1], ids[2]];
    expected.sort();
    assert_eq!(removed, expected);
}

#[test]
fn a_second_comparison_finds_nothing_to_do() {
    let (mut live, parent, _) = tree_of(&[(A, 1), (B, 2), (C, 3)]);
    let (scratch, _, _) = tree_of(&[(B, 1), (B, 5), (A, 3), (A, 4)]);
    let script = live.diff_children(&scratch, parent).unwrap();
    live.merge(&scratch, parent, script).unwrap();
    let first = children_of(&live, parent);
    assert_eq!(first.len(), 4);
    let again = live.diff_children(&scratch, parent).unwrap();
    assert!(again.ops.is_empty());
    let outcome = live.merge(&scratch, parent, again).unwrap();
    assert_eq!(children_of(&live, parent), first);
    assert!(outcome.removed.is_empty());
    assert!(outcome.updated.is_empty());
    assert!(outcome.inserted.is_empty());
}

#[test]
fn retained_children_keep_their_places_among_new_ones() {
    let (mut live, parent, ids) = tree_of(&[(A, 1), (B, 2), (C, 3)]);
    let (scratch, _, _) = tree_of(&[(B, 1), (B, 5), (A, 3), (A, 4)]);
    let script = live.diff_children(&scratch, parent).unwrap();
    let outcome = live.merge(&scratch, parent, script).unwrap();
    let now = children_of(&live, parent);
    assert_eq!(now, vec![outcome.roots[0], ids[1], outcome.roots[1], outcome.roots[2]]);
    assert_eq!(live.get(now[0]).unwrap().widget, widget(B, 1));
    assert_eq!(live.get(now[1]).unwrap().widget, widget(B, 5));
    assert_eq!(live.get(now[2]).unwrap().widget, widget(A, 3));
    assert_eq!(live.get(now[3]).unwrap().widget, widget(A, 4));
}

#[test]
fn inserted_subtrees_are_copied_whole() {
    let (mut live, parent, _) = tree_of(&[]);
    let (mut scratch, _, declared) = tree_of(&[(A, 1)]);
    let inner = scratch.insert(Some(declared[0]), widget(B, 2)).unwrap();
    scratch.insert(Some(inner), widget(C, 3)).unwrap();
    scratch.insert(Some(declared[0]), widget(C, 4)).unwrap();
    let script = live.diff_children(&scratch, parent).unwrap();
    let outcome = live.merge(&scratch, parent, script).unwrap();
    assert_eq!(outcome.inserted.len(), 4);
    let top = children_of(&live, parent);
    assert_eq!(top, outcome.roots);
    let a = live.get(top[0]).unwrap();
    assert_eq!(a.widget, widget(A, 1));
    assert_eq!(a.parent, Some(parent));
    assert_eq!(a.children.len(), 2);
    let b = live.get(a.children[0]).unwrap();
    assert_eq!(b.widget, widget(B, 2));
    assert_eq!(b.children.len(), 1);
    assert_eq!(live.get(b.children[0]).unwrap().widget, widget(C, 3));
    assert_eq!(live.get(a.children[1]).unwrap().widget, widget(C, 4));
}

#[test]
fn swapped_children_lose_their_identity() {
    let (mut live, parent, ids) = tree_of(&[(A, 1), (B, 2)]);
    let (scratch, _, _) = tree_of(&[(B, 2), (A, 1)]);
    let script = live.diff_children(&scratch, parent).unwrap();
    let outcome = live.merge(&scratch, parent, script).unwrap();
    let now = children_of(&live, parent);
    assert_eq!(now, outcome.roots);
    assert!(!live.contains(ids[0]));
    assert!(!live.contains(ids[1]));
    assert!(!now.contains(&ids[0]) && !now.contains(&ids[1]));
}

#[test]
fn a_script_for_a_missing_parent_is_refused() {
    let (mut live, _, _) = tree_of(&[(A, 1)]);
    let (scratch, _, _) = tree_of(&[(A, 1)]);
    let missing = Index::from_raw_parts(99, 0);
    assert_eq!(live.diff_children(&scratch, missing), Err(TreeError::InvalidIdentifier));
    let script = EditScript { parent: missing, ops: vec![] };
    assert_eq!(live.merge(&scratch, missing, script), Err(TreeError::InvalidIdentifier));
}

#[test]
fn a_script_for_another_parent_is_refused() {
    let (mut live, parent, ids) = tree_of(&[(A, 1)]);
    let (scratch, _, _) = tree_of(&[(A, 1)]);
    let script = EditScript { parent: ids[0], ops: vec![] };
    assert_eq!(live.merge(&scratch, parent, script), Err(TreeError::InvalidIdentifier));
}

#[test]
fn an_update_to_another_kind_is_refused_and_changes_nothing() {
    let (mut live, parent, ids) = tree_of(&[(A, 1), (B, 2)]);
    let (scratch, _, _) = tree_of(&[]);
    let script = EditScript {
        parent,
        ops: vec![
            EditOp::Remove { id: ids[0] },
            EditOp::Update { id: ids[1], tag: TypeTag(C), props: Props::from_numbers(&vec![7]) },
        ],
    };
    assert_eq!(live.check_script(&scratch, parent, &script), Err(TreeError::TypeMismatch));
    assert_eq!(live.merge(&scratch, parent, script), Err(TreeError::TypeMismatch));
    assert_eq!(children_of(&live, parent), ids);
    assert_eq!(number_of(&live, ids[1]), Props::from_numbers(&vec![2]));
}

#[test]
fn faulty_edits_are_refused() {
    let (mut live, parent, ids) = tree_of(&[(A, 1), (B, 2)]);
    let (scratch, _, declared) = tree_of(&[(A, 1)]);
    let stranger = Index::from_raw_parts(50, 0);
    let twice = EditScript {
        parent,
        ops: vec![EditOp::Remove { id: ids[0] }, EditOp::Remove { id: ids[0] }],
    };
    assert_eq!(live.merge(&scratch, parent, twice), Err(TreeError::InvalidIdentifier));
    let unknown = EditScript { parent, ops: vec![EditOp::Remove { id: stranger }] };
    assert_eq!(live.merge(&scratch, parent, unknown), Err(TreeError::InvalidIdentifier));
    let no_source = EditScript { parent, ops: vec![EditOp::Insert { position: 0, root: stranger }] };
    assert_eq!(live.merge(&scratch, parent, no_source), Err(TreeError::InvalidIdentifier));
    let too_far = EditScript {
        parent,
        ops: vec![EditOp::Remove { id: ids[1] }, EditOp::Insert { position: 2, root: declared[0] }],
    };
    assert_eq!(live.merge(&scratch, parent, too_far), Err(TreeError::InvalidIdentifier));
    assert_eq!(children_of(&live, parent), ids);
}

#[test]
fn insertion_at_the_end_of_what_is_left() {
    let (mut live, parent, ids) = tree_of(&[(A, 1), (B, 2)]);
    let (scratch, _, declared) = tree_of(&[(C, 9)]);
    let script = EditScript {
        parent,
        ops: vec![EditOp::Remove { id: ids[1] }, EditOp::Insert { position: 1, root: declared[0] }],
    };
    let outcome = live.merge(&scratch, parent, script).unwrap();
    assert_eq!(children_of(&live, parent), vec![ids[0], outcome.roots[0]]);
}
