use kayak_core::index::Index;
use kayak_core::props::{Props, TypeTag, WidgetData};
use kayak_core::tree::{TreeError, WidgetTree};

fn widget(tag: u64, number: u64) -> WidgetData {
    WidgetData::new(TypeTag(tag), String::from("w"), Props::from_numbers(&vec![number]))
}

#[test]
fn insert_under_missing_parent_is_refused() {
    let mut tree = WidgetTree::new();
    let missing = Index::from_raw_parts(7, 0);
    assert_eq!(tree.insert(Some(missing), widget(1, 1)), Err(TreeError::InvalidIdentifier));
}

#[test]
fn remove_returns_the_whole_subtree() {
    let mut tree = WidgetTree::new();
    let root = tree.insert(None, widget(1, 0)).unwrap();
    let a = tree.insert(Some(root), widget(1, 1)).unwrap();
    let b = tree.insert(Some(a), widget(1, 2)).unwrap();
    let c = tree.insert(Some(a), widget(1, 3)).unwrap();
    let d = tree.insert(Some(root), widget(1, 4)).unwrap();
    let mut removed = tree.remove(a).unwrap();
    removed.sort();
    let mut expected = vec![a, b, c];
    expected.sort();
    assert_eq!(removed, expected);
    assert!(!tree.contains(a));
    assert!(!tree.contains(b));
    assert!(!tree.contains(c));
    assert!(tree.contains(d));
    assert_eq!(tree.get(root).unwrap().children, vec![d]);
}

#[test]
fn a_root_is_protected() {
    let mut tree = WidgetTree::new();
    let root = tree.insert(None, widget(1, 0)).unwrap();
    assert_eq!(tree.root(), Some(root));
    assert_eq!(tree.remove(root), Err(TreeError::ProtectedRoot));
    assert!(tree.contains(root));
}

#[test]
fn remove_of_a_missing_node_is_refused() {
    let mut tree = WidgetTree::new();
    let root = tree.insert(None, widget(1, 0)).unwrap();
    let a = tree.insert(Some(root), widget(1, 1)).unwrap();
    assert_eq!(tree.remove(a), Ok(vec![a]));
    assert_eq!(tree.remove(a), Err(TreeError::InvalidIdentifier));
    assert!(tree.get(a).is_none());
}

#[test]
fn an_identifier_is_never_handed_out_twice() {
    let mut tree = WidgetTree::new();
    let root = tree.insert(None, widget(1, 0)).unwrap();
    let a = tree.insert(Some(root), widget(1, 1)).unwrap();
    tree.remove(a).unwrap();
    let b = tree.insert(Some(root), widget(1, 2)).unwrap();
    assert_ne!(a, b);
    assert!(!tree.contains(a));
    assert!(tree.contains(b));
    let (slot_a, generation_a) = a.into_raw_parts();
    let (slot_b, generation_b) = b.into_raw_parts();
    assert_eq!(slot_a, slot_b);
    assert_eq!(generation_b, generation_a + 1);
}

#[test]
fn children_keep_insertion_order() {
    let mut tree = WidgetTree::new();
    let root = tree.insert(None, widget(1, 0)).unwrap();
    let a = tree.insert(Some(root), widget(1, 1)).unwrap();
    let b = tree.insert(Some(root), widget(1, 2)).unwrap();
    let c = tree.insert(Some(root), widget(1, 3)).unwrap();
    assert_eq!(tree.get(root).unwrap().children, vec![a, b, c]);
    assert_eq!(tree.get(b).unwrap().parent, Some(root));
    assert_eq!(tree.get(b).unwrap().id, b);
}

#[test]
fn set_children_takes_a_rearrangement_only() {
    let mut tree = WidgetTree::new();
    let root = tree.insert(None, widget(1, 0)).unwrap();
    let a = tree.insert(Some(root), widget(1, 1)).unwrap();
    let b = tree.insert(Some(root), widget(1, 2)).unwrap();
    let other = tree.insert(Some(a), widget(1, 3)).unwrap();
    assert_eq!(tree.set_children(root, vec![b, a]), Ok(()));
    assert_eq!(tree.get(root).unwrap().children, vec![b, a]);
    assert_eq!(tree.set_children(root, vec![a]), Err(TreeError::InvalidIdentifier));
    assert_eq!(tree.set_children(root, vec![a, a]), Err(TreeError::InvalidIdentifier));
    assert_eq!(tree.set_children(root, vec![a, other]), Err(TreeError::InvalidIdentifier));
    assert_eq!(
        tree.set_children(Index::from_raw_parts(9, 9), vec![]),
        Err(TreeError::InvalidIdentifier)
    );
    assert_eq!(tree.get(root).unwrap().children, vec![b, a]);
}

#[test]
fn set_props_keeps_the_rest_of_the_node() {
    let mut tree = WidgetTree::new();
    let root = tree.insert(None, widget(1, 0)).unwrap();
    let a = tree.insert(Some(root), widget(4, 1)).unwrap();
    let b = tree.insert(Some(a), widget(1, 2)).unwrap();
    assert_eq!(tree.set_props(a, Props::from_numbers(&vec![8, 9])), Ok(()));
    let node = tree.get(a).unwrap();
    assert_eq!(node.widget.props, Props::from_numbers(&vec![8, 9]));
    assert_eq!(node.widget.tag, TypeTag(4));
    assert_eq!(node.children, vec![b]);
    assert_eq!(node.parent, Some(root));
    assert_eq!(
        tree.set_props(Index::from_raw_parts(9, 9), Props::new()),
        Err(TreeError::InvalidIdentifier)
    );
}

#[test]
fn ancestors_lead_to_the_root() {
    let mut tree = WidgetTree::new();
    let root = tree.insert(None, widget(1, 0)).unwrap();
    let a = tree.insert(Some(root), widget(1, 1)).unwrap();
    let b = tree.insert(Some(a), widget(1, 2)).unwrap();
    assert_eq!(tree.ancestors(b), vec![a, root]);
    assert_eq!(tree.ancestors(root), vec![]);
    assert_eq!(tree.ancestors(Index::from_raw_parts(9, 9)), vec![]);
    assert_eq!(tree.get_parent(b), Some(a));
    assert_eq!(tree.get_parent(root), None);
}
