use kayak_core::diff::{diff, ChildSnapshot, EditOp};
use kayak_core::index::Index;
use kayak_core::props::{Props, TypeTag};

const A: u64 = 10;
const B: u64 = 11;
const C: u64 = 12;

fn id(slot: usize) -> Index {
    Index::from_raw_parts(slot, 0)
}

fn child(slot: usize, tag: u64, number: u64) -> ChildSnapshot {
    ChildSnapshot { id: id(slot), tag: TypeTag(tag), props: Props::from_numbers(&vec![number]) }
}

#[test]
fn identical_lists_give_the_empty_script() {
    let old = vec![child(1, A, 1), child(2, B, 2), child(3, C, 3)];
    let new = vec![child(101, A, 1), child(102, B, 2), child(103, C, 3)];
    let script = diff(id(0), &old, &new);
    assert_eq!(script.parent, id(0));
    assert!(script.ops.is_empty());
}

#[test]
fn two_empty_lists_give_the_empty_script() {
    let script = diff(id(0), &vec![], &vec![]);
    assert!(script.ops.is_empty());
}

#[test]
fn same_kinds_give_updates_only() {
    let old = vec![child(1, A, 1), child(2, B, 2), child(3, C, 3)];
    let new = vec![child(101, A, 9), child(102, B, 2), child(103, C, 8)];
    let script = diff(id(0), &old, &new);
    assert_eq!(
        script.ops,
        vec![
            EditOp::Update { id: id(1), tag: TypeTag(A), props: Props::from_numbers(&vec![9]) },
            EditOp::Update { id: id(3), tag: TypeTag(C), props: Props::from_numbers(&vec![8]) },
        ]
    );
}

#[test]
fn another_kind_at_a_position_replaces_the_child() {
    let old = vec![child(1, A, 1), child(2, B, 2)];
    let new = vec![child(101, A, 1), child(102, C, 2)];
    let script = diff(id(0), &old, &new);
    assert_eq!(
        script.ops,
        vec![EditOp::Remove { id: id(2) }, EditOp::Insert { position: 1, root: id(102) }]
    );
}

#[test]
fn swapped_children_are_removed_and_inserted() {
    let old = vec![child(1, A, 1), child(2, B, 2)];
    let new = vec![child(101, B, 2), child(102, A, 1)];
    let script = diff(id(0), &old, &new);
    assert_eq!(
        script.ops,
        vec![
            EditOp::Remove { id: id(1) },
            EditOp::Remove { id: id(2) },
            EditOp::Insert { position: 0, root: id(101) },
            EditOp::Insert { position: 1, root: id(102) },
        ]
    );
}

#[test]
fn update_and_append() {
    let old = vec![child(1, A, 1), child(2, B, 2)];
    let new = vec![child(101, A, 1), child(102, B, 3), child(103, C, 0)];
    let script = diff(id(0), &old, &new);
    assert_eq!(
        script.ops,
        vec![
            EditOp::Update { id: id(2), tag: TypeTag(B), props: Props::from_numbers(&vec![3]) },
            EditOp::Insert { position: 2, root: id(103) },
        ]
    );
}

#[test]
fn trailing_children_are_removed() {
    let old = vec![child(1, A, 1), child(2, B, 2), child(3, C, 3)];
    let new = vec![child(101, A, 1)];
    let script = diff(id(0), &old, &new);
    assert_eq!(script.ops, vec![EditOp::Remove { id: id(2) }, EditOp::Remove { id: id(3) }]);
}

#[test]
fn empty_old_list_gives_insertions_only() {
    let new = vec![child(101, A, 1), child(102, B, 2)];
    let script = diff(id(0), &vec![], &new);
    assert_eq!(
        script.ops,
        vec![
            EditOp::Insert { position: 0, root: id(101) },
            EditOp::Insert { position: 1, root: id(102) },
        ]
    );
}

#[test]
fn empty_new_list_gives_removals_only() {
    let old = vec![child(1, A, 1), child(2, B, 2)];
    let script = diff(id(0), &old, &vec![]);
    assert_eq!(script.ops, vec![EditOp::Remove { id: id(1) }, EditOp::Remove { id: id(2) }]);
}

#[test]
fn removals_and_updates_come_before_insertions() {
    let old = vec![child(1, A, 1), child(2, B, 2), child(3, C, 3)];
    let new = vec![child(101, B, 1), child(102, B, 5), child(103, A, 3), child(104, A, 4)];
    let script = diff(id(0), &old, &new);
    assert_eq!(
        script.ops,
        vec![
            EditOp::Remove { id: id(1) },
            EditOp::Update { id: id(2), tag: TypeTag(B), props: Props::from_numbers(&vec![5]) },
            EditOp::Remove { id: id(3) },
            EditOp::Insert { position: 0, root: id(101) },
            EditOp::Insert { position: 2, root: id(103) },
            EditOp::Insert { position: 3, root: id(104) },
        ]
    );
}
