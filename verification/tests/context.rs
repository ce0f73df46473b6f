use kayak_core::context::KayakContext;
use kayak_core::event::{Event, EventType, OnEvent};
use kayak_core::fragment::Fragment;
use kayak_core::index::Index;
use kayak_core::props::{Props, TypeTag, WidgetData};
use kayak_core::tree::{TreeError, WidgetTree};
use kayak_core::widget::Widget;

const A: u64 = 10;
const B: u64 = 11;

fn widget(tag: u64, number: u64) -> WidgetData {
    WidgetData::new(TypeTag(tag), format!("w{}", tag), Props::from_numbers(&vec![number]))
}

fn declarations(children: &[(u64, u64)]) -> WidgetTree {
    let mut tree = WidgetTree::new();
    let root = tree.insert(None, widget(1, 0)).unwrap();
    for (tag, number) in children {
        tree.insert(Some(root), widget(*tag, *number)).unwrap();
    }
    tree
}

fn drain(context: &mut KayakContext) -> Vec<Index> {
    let mut order = Vec::new();
    while let Some(id) = context.next_render() {
        order.push(id);
    }
    order
}

#[test]
fn a_new_context_has_the_last_click_binding_only() {
    let context = KayakContext::new();
    let last_clicked = context.get_last_clicked_widget();
    assert_eq!(context.get(last_clicked), Some(Index::from_raw_parts(0, 0)));
    assert!(!context.has_dirty());
}

#[test]
fn a_written_value_is_read_at_once_and_rendered_in_the_next_pass() {
    let mut context = KayakContext::new();
    let root = context.add_widget(None, widget(A, 0)).unwrap();
    let reader = context.add_widget(Some(root), widget(B, 0)).unwrap();
    context.begin_pass();
    assert_eq!(drain(&mut context), vec![root, reader]);
    let v1 = Index::from_raw_parts(1, 1);
    let v2 = Index::from_raw_parts(2, 2);
    let x = context.create_binding(v1);
    assert_eq!(context.bind(reader, x), Ok(()));
    assert!(context.set(x, v2));
    assert_eq!(context.get(x), Some(v2));
    assert!(context.has_dirty());
    assert!(context.bindings().is_dirty(reader));
    assert_eq!(context.next_render(), None);
    context.begin_pass();
    assert_eq!(drain(&mut context), vec![reader]);
    assert!(!context.has_dirty());
    context.begin_pass();
    assert_eq!(drain(&mut context), vec![]);
}

#[test]
fn a_write_during_a_pass_waits_for_the_next_pass() {
    let mut context = KayakContext::new();
    let root = context.add_widget(None, widget(A, 0)).unwrap();
    let x = context.create_binding(root);
    context.bind(root, x).unwrap();
    context.begin_pass();
    assert_eq!(context.next_render(), Some(root));
    context.set(x, root);
    assert_eq!(context.next_render(), None);
    context.begin_pass();
    assert_eq!(drain(&mut context), vec![root]);
}

#[test]
fn binding_needs_a_live_widget_and_a_binding() {
    let mut context = KayakContext::new();
    let root = context.add_widget(None, widget(A, 0)).unwrap();
    let x = context.create_binding(root);
    let missing = Index::from_raw_parts(40, 0);
    assert_eq!(context.bind(missing, x), Err(TreeError::InvalidIdentifier));
    assert_eq!(
        context.bind(root, kayak_core::binding::BindingId(77)),
        Err(TreeError::InvalidIdentifier)
    );
    assert_eq!(context.bindings().subscriber_count(x), 0);
}

#[test]
fn removing_a_parent_unsubscribes_its_whole_subtree() {
    let mut context = KayakContext::new();
    let root = context.add_widget(None, widget(A, 0)).unwrap();
    let parent = context.add_widget(Some(root), widget(A, 1)).unwrap();
    let child = context.add_widget(Some(parent), widget(A, 2)).unwrap();
    let grandchild = context.add_widget(Some(child), widget(A, 3)).unwrap();
    let other = context.add_widget(Some(root), widget(A, 4)).unwrap();
    let x = context.create_binding(root);
    let y = context.create_binding(root);
    for id in [parent, child, grandchild, other] {
        context.bind(id, x).unwrap();
    }
    context.bind(grandchild, y).unwrap();
    assert_eq!(context.bindings().subscriber_count(x), 4);
    let mut removed = context.remove_widget(parent).unwrap();
    removed.sort();
    let mut expected = vec![parent, child, grandchild];
    expected.sort();
    assert_eq!(removed, expected);
    for id in [parent, child, grandchild] {
        assert!(context.get_node(id).is_none());
        assert!(!context.bindings().has_subscriptions(id));
    }
    assert_eq!(context.bindings().subscriber_count(x), 1);
    assert_eq!(context.bindings().subscriber_count(y), 0);
    assert!(context.bindings().is_bound(other, x));
}

#[test]
fn removing_a_root_or_a_stranger_is_refused() {
    let mut context = KayakContext::new();
    let root = context.add_widget(None, widget(A, 0)).unwrap();
    assert_eq!(context.remove_widget(root), Err(TreeError::ProtectedRoot));
    assert_eq!(
        context.remove_widget(Index::from_raw_parts(40, 0)),
        Err(TreeError::InvalidIdentifier)
    );
    assert_eq!(
        context.add_widget(Some(Index::from_raw_parts(40, 0)), widget(A, 0)),
        Err(TreeError::InvalidIdentifier)
    );
}

#[test]
fn removed_widgets_are_passed_over_by_the_pass() {
    let mut context = KayakContext::new();
    let root = context.add_widget(None, widget(A, 0)).unwrap();
    let a = context.add_widget(Some(root), widget(A, 1)).unwrap();
    let b = context.add_widget(Some(root), widget(A, 2)).unwrap();
    context.begin_pass();
    assert_eq!(context.next_render(), Some(root));
    context.remove_widget(a).unwrap();
    assert_eq!(context.next_render(), Some(b));
    assert_eq!(context.next_render(), None);
}

#[test]
fn reconcile_settles_bindings_and_queue() {
    let mut context = KayakContext::new();
    let root = context.add_widget(None, widget(1, 0)).unwrap();
    let a = context.add_widget(Some(root), widget(A, 1)).unwrap();
    let b = context.add_widget(Some(root), widget(B, 2)).unwrap();
    let x = context.create_binding(root);
    context.bind(b, x).unwrap();
    context.begin_pass();
    assert_eq!(context.next_render(), Some(root));
    let scratch = declarations(&[(A, 5), (A, 6)]);
    let outcome = context.reconcile(root, &scratch).unwrap();
    assert_eq!(outcome.updated, vec![a]);
    assert_eq!(outcome.removed, vec![b]);
    assert_eq!(outcome.roots.len(), 1);
    assert_eq!(context.get_node(root).unwrap().children, vec![a, outcome.roots[0]]);
    assert_eq!(context.bindings().subscriber_count(x), 0);
    assert_eq!(drain(&mut context), vec![a, outcome.roots[0]]);
}

#[test]
fn reconcile_of_a_missing_parent_changes_nothing() {
    let mut context = KayakContext::new();
    let root = context.add_widget(None, widget(1, 0)).unwrap();
    let scratch = declarations(&[(A, 5)]);
    assert_eq!(
        context.reconcile(Index::from_raw_parts(40, 0), &scratch),
        Err(TreeError::InvalidIdentifier)
    );
    assert!(context.get_node(root).unwrap().children.is_empty());
}

#[test]
fn a_widget_is_rendered_once_per_pass() {
    let mut context = KayakContext::new();
    let root = context.add_widget(None, widget(1, 0)).unwrap();
    let a = context.add_widget(Some(root), widget(A, 1)).unwrap();
    context.begin_pass();
    assert_eq!(context.next_render(), Some(root));
    assert_eq!(context.next_render(), Some(a));
    context.schedule(a);
    context.schedule(root);
    assert_eq!(context.next_render(), None);
    assert!(context.bindings().is_dirty(a));
    assert!(context.bindings().is_dirty(root));
    context.begin_pass();
    assert_eq!(drain(&mut context), vec![root, a]);
}

#[test]
fn a_click_is_recorded_and_handled_by_the_target_only() {
    let mut context = KayakContext::new();
    let x = context.create_binding(Index::from_raw_parts(0, 0));
    let root = context.add_widget(None, widget(1, 0)).unwrap();
    let parent = context
        .add_widget(
            Some(root),
            widget(A, 1)
                .with_handler(OnEvent::new(EventType::Click, x, Some(Index::from_raw_parts(5, 5)))),
        )
        .unwrap();
    let child = context.add_widget(Some(parent), widget(B, 2)).unwrap();
    context.bind(root, x).unwrap();
    context.begin_pass();
    drain(&mut context);
    let click = Event { target: child, event_type: EventType::Click };
    assert!(!context.handler_would_fail(&click));
    assert!(!context.dispatch(&click));
    assert_eq!(context.get(context.get_last_clicked_widget()), Some(child));
    assert_eq!(context.get(x), Some(Index::from_raw_parts(0, 0)));
    assert!(!context.has_dirty());
    let hover = Event { target: parent, event_type: EventType::Hover };
    assert!(!context.handler_would_fail(&hover));
    assert!(!context.dispatch(&hover));
    assert_eq!(context.get(context.get_last_clicked_widget()), Some(child));
    let click = Event { target: parent, event_type: EventType::Click };
    assert!(!context.handler_would_fail(&click));
    assert!(context.dispatch(&click));
    assert_eq!(context.get(context.get_last_clicked_widget()), Some(parent));
    assert_eq!(context.get(x), Some(Index::from_raw_parts(5, 5)));
    assert!(context.bindings().is_dirty(root));
    assert_eq!(context.get_node(parent).unwrap().children, vec![child]);
    let stray = Event { target: Index::from_raw_parts(40, 0), event_type: EventType::Click };
    assert!(!context.handler_would_fail(&stray));
    assert!(!context.dispatch(&stray));
    assert_eq!(context.get(context.get_last_clicked_widget()), Some(parent));
}

#[test]
fn names_and_parents_are_looked_up_in_the_live_tree() {
    let mut context = KayakContext::new();
    let root = context.add_widget(None, widget(1, 0)).unwrap();
    let a = context.add_widget(Some(root), widget(A, 1)).unwrap();
    assert_eq!(context.get_name(a), Some(String::from("w10")));
    assert_eq!(context.get_name(Index::from_raw_parts(40, 0)), None);
    assert_eq!(context.get_valid_parent(a), Some(root));
    assert_eq!(context.get_valid_parent(root), None);
    assert_eq!(context.get_valid_parent(Index::from_raw_parts(40, 0)), None);
}

#[test]
fn a_fragment_renders_its_declarations_once() {
    let mut context = KayakContext::new();
    let root = context.add_widget(None, widget(1, 0)).unwrap();
    let mut fragment = Fragment {
        id: Index::from_raw_parts(0, 0),
        styles: None,
        children: Some(declarations(&[(A, 1), (B, 2)])),
        on_event: None,
    };
    fragment.set_id(root);
    assert_eq!(fragment.get_id(), root);
    assert_eq!(fragment.get_name(), "Fragment");
    assert_eq!(fragment.get_styles(), None);
    let outcome = fragment.render(&mut context).unwrap();
    assert_eq!(outcome.roots.len(), 2);
    assert_eq!(context.get_node(root).unwrap().children, outcome.roots);
    assert!(fragment.children.is_none());
    let outcome = fragment.render(&mut context).unwrap();
    assert_eq!(outcome.removed.len(), 2);
    assert!(context.get_node(root).unwrap().children.is_empty());
}

#[test]
fn a_fragment_that_is_not_in_the_tree_fails_to_render() {
    let mut context = KayakContext::new();
    context.add_widget(None, widget(1, 0)).unwrap();
    let mut fragment = Fragment {
        id: Index::from_raw_parts(40, 0),
        styles: None,
        children: Some(declarations(&[(A, 1)])),
        on_event: None,
    };
    assert_eq!(fragment.render(&mut context), Err(TreeError::InvalidIdentifier));
}

#[test]
fn fragments_are_compared_by_identifier_and_style() {
    let make = |slot: usize, children: Option<WidgetTree>| Fragment {
        id: Index::from_raw_parts(slot, 0),
        styles: None,
        children,
        on_event: None,
    };
    assert!(make(1, None) == make(1, Some(declarations(&[(A, 1)]))));
    assert!(make(1, None) != make(2, None));
    let mut styled = make(1, None);
    styled.styles = Some(kayak_core::styles::Style::default());
    assert!(make(1, None) != styled);
    let mut event = Event { target: Index::from_raw_parts(1, 0), event_type: EventType::Click };
    let mut context = KayakContext::new();
    styled.on_event(&mut context, &mut event);
    assert_eq!(event.event_type, EventType::Click);
}

#[test]
fn a_handler_without_a_widget_to_write_fails_before_any_write() {
    let mut context = KayakContext::new();
    let x = context.create_binding(Index::from_raw_parts(3, 3));
    let root = context.add_widget(None, widget(1, 0)).unwrap();
    let label = context
        .add_widget(Some(root), widget(A, 1).with_handler(OnEvent::new(EventType::Click, x, None)))
        .unwrap();
    let last_clicked = context.get_last_clicked_widget();
    context.bind(root, x).unwrap();
    context.bind(root, last_clicked).unwrap();
    context.begin_pass();
    drain(&mut context);
    let before = context.get(last_clicked);
    let click = Event { target: label, event_type: EventType::Click };
    assert!(context.handler_would_fail(&click));
    assert_eq!(context.get(last_clicked), before);
    assert_eq!(context.get(x), Some(Index::from_raw_parts(3, 3)));
    assert!(!context.has_dirty());
    assert_eq!(context.get_node(root).unwrap().children, vec![label]);
    let hover = Event { target: label, event_type: EventType::Hover };
    assert!(!context.handler_would_fail(&hover));
    assert!(!context.dispatch(&hover));
}

#[test]
fn a_changed_handler_is_an_update() {
    let mut context = KayakContext::new();
    let x = context.create_binding(Index::from_raw_parts(3, 3));
    let root = context.add_widget(None, widget(1, 0)).unwrap();
    let declare = |value: Option<Index>| {
        let mut tree = WidgetTree::new();
        let top = tree.insert(None, widget(1, 0)).unwrap();
        tree.insert(Some(top), widget(A, 1).with_handler(OnEvent::new(EventType::Click, x, value)))
            .unwrap();
        tree
    };
    let first = context.reconcile(root, &declare(None)).unwrap();
    let label = first.roots[0];
    let click = Event { target: label, event_type: EventType::Click };
    assert!(context.handler_would_fail(&click));
    let second = context.reconcile(root, &declare(Some(root))).unwrap();
    assert_eq!(second.updated, vec![label]);
    assert!(second.roots.is_empty());
    assert!(!context.handler_would_fail(&click));
    assert!(context.dispatch(&click));
    assert_eq!(context.get(x), Some(root));
    assert_eq!(context.get(context.get_last_clicked_widget()), Some(label));
}

#[test]
fn marking_dirty_waits_for_the_next_pass() {
    let mut context = KayakContext::new();
    let root = context.add_widget(None, widget(1, 0)).unwrap();
    context.begin_pass();
    assert_eq!(context.next_render(), Some(root));
    context.mark_dirty(root);
    assert_eq!(context.next_render(), None);
    assert!(context.has_dirty());
    assert!(context.scheduler().is_idle());
    assert!(context.tree().contains(root));
    context.begin_pass();
    assert_eq!(drain(&mut context), vec![root]);
}

#[test]
fn a_declared_subtree_is_rendered_at_every_depth() {
    let mut context = KayakContext::new();
    let root = context.add_widget(None, widget(1, 0)).unwrap();
    let declare = |leaf: u64, extra: bool| {
        let mut tree = WidgetTree::new();
        let top = tree.insert(None, widget(1, 0)).unwrap();
        let a = tree.insert(Some(top), widget(A, 1)).unwrap();
        let b = tree.insert(Some(a), widget(B, 2)).unwrap();
        tree.insert(Some(b), widget(A, leaf)).unwrap();
        if extra {
            tree.insert(Some(a), widget(B, 9)).unwrap();
        }
        (tree, top)
    };
    let (scratch, top) = declare(3, false);
    let first = context.render_tree(root, &scratch, top).unwrap();
    assert_eq!(first.roots.len(), 1);
    assert_eq!(first.inserted.len(), 3);
    let a = first.roots[0];
    let b = context.get_node(a).unwrap().children[0];
    let leaf = context.get_node(b).unwrap().children[0];
    let (scratch, top) = declare(4, true);
    let second = context.render_tree(root, &scratch, top).unwrap();
    assert!(second.roots.is_empty());
    assert_eq!(second.updated, vec![leaf]);
    assert_eq!(second.inserted.len(), 1);
    assert_eq!(context.get_node(root).unwrap().children, vec![a]);
    assert_eq!(context.get_node(a).unwrap().children, vec![b, second.inserted[0]]);
    assert_eq!(context.get_node(b).unwrap().children, vec![leaf]);
    assert_eq!(context.get_node(leaf).unwrap().widget.props, Props::from_numbers(&vec![4]));
    let (scratch, top) = declare(4, true);
    let third = context.render_tree(root, &scratch, top).unwrap();
    assert!(third.updated.is_empty() && third.inserted.is_empty() && third.removed.is_empty());
    let mut bare = WidgetTree::new();
    let top = bare.insert(None, widget(1, 0)).unwrap();
    let fourth = context.render_tree(root, &bare, top).unwrap();
    let mut removed = fourth.removed.clone();
    removed.sort();
    let mut expected = vec![a, b, leaf, second.inserted[0]];
    expected.sort();
    assert_eq!(removed, expected);
    assert!(context.get_node(root).unwrap().children.is_empty());
}

#[test]
fn rendering_needs_a_live_parent_and_a_declared_node() {
    let mut context = KayakContext::new();
    let root = context.add_widget(None, widget(1, 0)).unwrap();
    let scratch = declarations(&[(A, 1)]);
    let top = scratch.root().unwrap();
    let missing = Index::from_raw_parts(40, 0);
    assert_eq!(context.render_tree(missing, &scratch, top), Err(TreeError::InvalidIdentifier));
    assert_eq!(context.render_tree(root, &scratch, missing), Err(TreeError::InvalidIdentifier));
    assert_eq!(context.reconcile_under(root, &scratch, missing), Err(TreeError::InvalidIdentifier));
    assert!(context.get_node(root).unwrap().children.is_empty());
    let outcome = context.reconcile_under(root, &scratch, top).unwrap();
    assert_eq!(context.get_node(root).unwrap().children, outcome.roots);
}
