use kayak_core::context::KayakContext;
use kayak_core::fragment::Fragment;
use kayak_core::index::Index;
use kayak_core::inspector::{InspectorProps, InspectorWidget, Layout, Measured, ResolvedStyles};
use kayak_core::pass::run_pass;
use kayak_core::props::{Props, TypeTag, WidgetData};
use kayak_core::tree::{TreeError, WidgetTree};
use kayak_core::widget::Widget;

fn widget(tag: u64, number: u64) -> WidgetData {
    WidgetData::new(TypeTag(tag), format!("w{}", tag), Props::from_numbers(&vec![number]))
}

fn declarations(children: &[(u64, u64)]) -> WidgetTree {
    let mut tree = WidgetTree::new();
    let root = tree.insert(None, widget(1, 0)).unwrap();
    for (tag, number) in children {
        tree.insert(Some(root), widget(*tag, *number)).unwrap();
    }
    tree
}

fn fragment(id: Index, children: &[(u64, u64)]) -> Fragment {
    Fragment { id, styles: None, children: Some(declarations(children)), on_event: None }
}

fn report_on(id: Index) -> Measured {
    Measured {
        id,
        layout: Some(Layout {
            posx: String::from("1"),
            posy: String::from("2"),
            width: String::from("3"),
            height: String::from("4"),
        }),
        resolved_styles: Some(ResolvedStyles {
            render_command: String::from("Empty"),
            height: String::from("Auto"),
        }),
    }
}

fn times(list: &[Index], id: Index) -> usize {
    list.iter().filter(|x| **x == id).count()
}

#[test]
fn a_pass_renders_each_dirty_widget_once() {
    let mut context = KayakContext::new();
    let root = context.add_widget(None, widget(1, 0)).unwrap();
    let a = context.add_widget(Some(root), widget(10, 1)).unwrap();
    let b = context.add_widget(Some(root), widget(10, 2)).unwrap();
    let mut widgets = vec![fragment(a, &[(11, 1), (11, 2)]), fragment(b, &[(12, 1)])];
    context.mark_dirty(b);
    context.mark_dirty(a);
    let report = run_pass(&mut context, &mut widgets, 100).unwrap();
    assert!(report.complete);
    assert_eq!(report.handed.len(), 6);
    assert_eq!(&report.handed[0..3], &[root, a, b]);
    let created = context.get_node(a).unwrap().children.clone();
    assert_eq!(created.len(), 2);
    for id in created.iter().chain(context.get_node(b).unwrap().children.iter()) {
        assert_eq!(times(&report.handed, *id), 1);
    }
    assert!(widgets[0].children.is_none());
    assert!(!context.has_dirty());
    let again = run_pass(&mut context, &mut widgets, 100).unwrap();
    assert!(again.complete);
    assert!(again.handed.is_empty());
}

#[test]
fn a_pass_stops_at_its_limit() {
    let mut context = KayakContext::new();
    let root = context.add_widget(None, widget(1, 0)).unwrap();
    let a = context.add_widget(Some(root), widget(10, 1)).unwrap();
    let mut widgets: Vec<Fragment> = Vec::new();
    let report = run_pass(&mut context, &mut widgets, 1).unwrap();
    assert_eq!(report.handed, vec![root]);
    assert!(!report.complete);
    assert_eq!(context.next_render(), Some(a));
    let none = run_pass(&mut context, &mut widgets, 0).unwrap();
    assert!(none.handed.is_empty());
    assert!(!none.complete);
}

#[test]
fn a_widget_that_left_the_tree_is_not_handed_out() {
    let mut context = KayakContext::new();
    let root = context.add_widget(None, widget(1, 0)).unwrap();
    let a = context.add_widget(Some(root), widget(10, 1)).unwrap();
    let mut widgets = vec![fragment(a, &[(11, 1)])];
    context.remove_widget(a).unwrap();
    let report = run_pass(&mut context, &mut widgets, 10).unwrap();
    assert_eq!(report.handed, vec![root]);
    assert!(report.complete);
    assert!(widgets[0].children.is_some());
    assert_eq!(widgets[0].render(&mut context), Err(TreeError::InvalidIdentifier));
}

#[test]
fn the_inspector_renders_once_in_the_pass_after_a_click() {
    let mut context = KayakContext::new();
    let root = context.add_widget(None, widget(1, 0)).unwrap();
    let p = context.add_widget(Some(root), widget(10, 1)).unwrap();
    let q = context.add_widget(Some(root), widget(10, 2)).unwrap();
    let me = context.add_widget(Some(root), widget(5, 0)).unwrap();
    let last_clicked = context.get_last_clicked_widget();
    let mut inspector = InspectorWidget::new(me, InspectorProps::default());
    inspector.measured = vec![report_on(p), report_on(q)];
    let mut widgets = vec![inspector];
    let first = run_pass(&mut context, &mut widgets, 1000).unwrap();
    assert!(first.complete);
    assert_eq!(times(&first.handed, me), 1);
    assert!(widgets[0].inspect_data.is_empty());
    assert!(context.bindings().is_bound(me, last_clicked));
    assert!(!context.has_dirty());
    context.set(last_clicked, q);
    context.set(last_clicked, p);
    assert_eq!(context.get(last_clicked), Some(p));
    assert!(context.bindings().is_dirty(me));
    assert!(widgets[0].inspect_data.is_empty());
    let second = run_pass(&mut context, &mut widgets, 1000).unwrap();
    assert!(second.complete);
    assert_eq!(times(&second.handed, me), 1);
    assert_eq!(widgets[0].inspect_data[1], "ID: 1");
    assert!(context.bindings().is_dirty(me));
    let panel = context.get_node(me).unwrap().children[0];
    assert_eq!(context.get_node(panel).unwrap().children.len(), 1);
    let third = run_pass(&mut context, &mut widgets, 1000).unwrap();
    assert_eq!(times(&third.handed, me), 1);
    assert_eq!(context.get_node(panel).unwrap().children.len(), 9);
    assert_eq!(widgets[0].get_name(), "Inspector");
    assert_eq!(widgets[0].get_id(), me);
    assert_eq!(widgets[0].get_styles(), None);
}

#[test]
fn the_dirty_widgets_are_handed_out_first_in_ascending_order() {
    let mut context = KayakContext::new();
    let root = context.add_widget(None, widget(1, 0)).unwrap();
    let a = context.add_widget(Some(root), widget(10, 1)).unwrap();
    let b = context.add_widget(Some(root), widget(10, 2)).unwrap();
    let c = context.add_widget(Some(root), widget(10, 3)).unwrap();
    let mut none: Vec<Fragment> = Vec::new();
    run_pass(&mut context, &mut none, 100).unwrap();
    context.remove_widget(a).unwrap();
    context.mark_dirty(c);
    context.mark_dirty(a);
    context.mark_dirty(b);
    let mut widgets = vec![fragment(b, &[(11, 1)]), fragment(c, &[(11, 2)])];
    let report = run_pass(&mut context, &mut widgets, 100).unwrap();
    assert!(report.complete);
    assert_eq!(&report.handed[0..2], &[b, c]);
    assert_eq!(report.handed.len(), 4);
    assert!(!report.handed.contains(&a));
    assert_eq!(report.handed[2], context.get_node(b).unwrap().children[0]);
    assert_eq!(report.handed[3], context.get_node(c).unwrap().children[0]);
    assert!(context.scheduler().is_idle());
}

#[test]
fn a_pass_without_a_dirty_widget_hands_out_nothing() {
    let mut context = KayakContext::new();
    let mut widgets: Vec<Fragment> = Vec::new();
    let report = run_pass(&mut context, &mut widgets, 5).unwrap();
    assert!(report.complete);
    assert!(report.handed.is_empty());
    let root = context.add_widget(None, widget(1, 0)).unwrap();
    let report = run_pass(&mut context, &mut widgets, 1).unwrap();
    assert_eq!(report.handed, vec![root]);
    assert!(!report.complete);
    let report = run_pass(&mut context, &mut widgets, 1).unwrap();
    assert!(report.complete);
    assert!(report.handed.is_empty());
}
