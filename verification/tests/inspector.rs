use kayak_core::context::KayakContext;
use kayak_core::event::{Event, EventType, OnEvent};
use kayak_core::index::Index;
use kayak_core::inspector::{
    background_styles, find_measured, inspect, keep_inspect_data, next_inspect_data, Inspector,
    InspectData, InspectorProps, Layout, Measured, ResolvedStyles,
};
use kayak_core::props::{PropValue, Props, TypeTag, WidgetData};
use kayak_core::styles::{
    Color, PositionType, Scalar, Style, StyleProp, Units, SCALAR_EIGHTH, SCALAR_ONE,
    SCALAR_TWELVE, SCALAR_TWO_HUNDRED, SCALAR_ZERO,
};
use kayak_core::text::{decimal, labelled};
use kayak_core::tree::TreeError;
use kayak_core::widget::{TAG_BACKGROUND, TAG_BUTTON, TAG_INSPECTOR, TAG_TEXT};

fn named(name: &str) -> WidgetData {
    WidgetData::new(TypeTag(9), String::from(name), Props::new())
}

fn layout(x: &str, y: &str, w: &str, h: &str) -> Layout {
    Layout {
        posx: String::from(x),
        posy: String::from(y),
        width: String::from(w),
        height: String::from(h),
    }
}

fn measured(id: Index, with_layout: bool, with_styles: bool) -> Measured {
    Measured {
        id,
        layout: if with_layout { Some(layout("10", "20.5", "300", "40")) } else { None },
        resolved_styles: if with_styles {
            Some(ResolvedStyles {
                render_command: String::from("Value(\n    Quad,\n)"),
                height: String::from("Value(\n    Pixels(\n        40.0,\n    ),\n)"),
            })
        } else {
            None
        },
    }
}

fn lines(list: &[&str]) -> Vec<String> {
    list.iter().map(|s| String::from(*s)).collect()
}

#[test]
fn numerals_are_decimal() {
    assert_eq!(decimal(0), "0");
    assert_eq!(decimal(7), "7");
    assert_eq!(decimal(10), "10");
    assert_eq!(decimal(4096), "4096");
    assert_eq!(decimal(1234567890), "1234567890");
    assert_eq!(decimal(usize::MAX), usize::MAX.to_string());
    assert_eq!(labelled("ID: ", "12"), "ID: 12");
}

#[test]
fn the_panel_is_a_dark_box_at_the_right_edge() {
    let style = background_styles(&InspectorProps::default());
    let dark = Scalar::from_bits(SCALAR_EIGHTH);
    assert_eq!(
        style.background_color,
        StyleProp::Value(Color::new(dark, dark, dark, Scalar::from_bits(SCALAR_ONE)))
    );
    assert_eq!(style.position_type, StyleProp::Value(PositionType::SelfDirected));
    assert_eq!(style.left, StyleProp::Value(Units::Stretch(Scalar::from_bits(SCALAR_ONE))));
    assert_eq!(style.top, StyleProp::Value(Units::Stretch(Scalar::from_bits(SCALAR_ZERO))));
    assert_eq!(style.bottom, StyleProp::Value(Units::Stretch(Scalar::from_bits(SCALAR_ZERO))));
    assert_eq!(style.width, StyleProp::Value(Units::Pixels(Scalar::from_bits(SCALAR_TWO_HUNDRED))));
    assert_eq!(style.height, StyleProp::Default);
    assert_eq!(f32::from_bits(SCALAR_EIGHTH), 0.125);
    assert_eq!(f32::from_bits(SCALAR_ONE), 1.0);
    assert_eq!(f32::from_bits(SCALAR_ZERO), 0.0);
    assert_eq!(f32::from_bits(SCALAR_TWELVE), 12.0);
    assert_eq!(f32::from_bits(SCALAR_TWO_HUNDRED), 200.0);
}

#[test]
fn the_panel_keeps_what_the_props_set_for_the_rest() {
    let mut given = Style::default();
    given.height = StyleProp::Value(Units::Pixels(Scalar::from_bits(SCALAR_TWELVE)));
    given.width = StyleProp::Inherit;
    let style = background_styles(&InspectorProps { styles: Some(given) });
    assert_eq!(style.height, StyleProp::Value(Units::Pixels(Scalar::from_bits(SCALAR_TWELVE))));
    assert_eq!(style.width, StyleProp::Value(Units::Pixels(Scalar::from_bits(SCALAR_TWO_HUNDRED))));
}

#[test]
fn the_first_report_on_a_widget_counts() {
    let a = Index::from_raw_parts(1, 0);
    let b = Index::from_raw_parts(2, 0);
    let list = vec![measured(a, false, true), measured(b, true, true), measured(a, true, true)];
    assert_eq!(find_measured(&list, a), Some(&list[0]));
    assert_eq!(find_measured(&list, b), Some(&list[1]));
    assert_eq!(find_measured(&list, Index::from_raw_parts(3, 0)), None);
}

#[test]
fn a_widget_with_a_measured_parent_is_described_with_it() {
    let mut context = KayakContext::new();
    let root = context.add_widget(None, named("App")).unwrap();
    let target = context.add_widget(Some(root), named("Button")).unwrap();
    let reports = vec![measured(target, true, true), measured(root, true, false)];
    let data = inspect(&context, &reports, target);
    assert_eq!(
        data,
        InspectData::Data(lines(&[
            "Name: Button",
            "ID: 1",
            "X: 10",
            "Y: 20.5",
            "Width: 300",
            "Height: 40",
            "RenderCommand: \nValue(\n    Quad,\n)",
            "Height: \nValue(\n    Pixels(\n        40.0,\n    ),\n)",
            "_________Parent_________",
            "Name: App",
            "X: 10",
            "Y: 20.5",
            "Width: 300",
            "Height: 40",
        ]))
    );
}

#[test]
fn a_root_and_an_unmeasured_parent_add_no_parent_lines() {
    let mut context = KayakContext::new();
    let root = context.add_widget(None, named("App")).unwrap();
    let target = context.add_widget(Some(root), named("Button")).unwrap();
    let own = lines(&[
        "ID: 0",
        "X: 10",
        "Y: 20.5",
        "Width: 300",
        "Height: 40",
        "RenderCommand: \nValue(\n    Quad,\n)",
        "Height: \nValue(\n    Pixels(\n        40.0,\n    ),\n)",
    ]);
    let mut of_root = vec![String::from("Name: App")];
    of_root.extend(own.clone());
    assert_eq!(inspect(&context, &vec![measured(root, true, true)], root), InspectData::Data(of_root));
    let reports = vec![measured(target, true, true), measured(root, false, true)];
    match inspect(&context, &reports, target) {
        InspectData::Data(found) => assert_eq!(found.len(), 8),
        InspectData::Empty => panic!("the target is measured"),
    }
    let stranger = Index::from_raw_parts(0, 7);
    assert_eq!(
        inspect(&context, &vec![measured(stranger, true, true)], stranger),
        InspectData::Data(own)
    );
}

#[test]
fn nothing_is_found_out_without_place_and_styles() {
    let mut context = KayakContext::new();
    let root = context.add_widget(None, named("App")).unwrap();
    assert_eq!(inspect(&context, &vec![], root), InspectData::Empty);
    assert_eq!(inspect(&context, &vec![measured(root, false, true)], root), InspectData::Empty);
    assert_eq!(inspect(&context, &vec![measured(root, true, false)], root), InspectData::Empty);
}

#[test]
fn the_inspector_binds_and_declares_its_panel() {
    let mut context = KayakContext::new();
    let root = context.add_widget(None, named("App")).unwrap();
    let target = context.add_widget(Some(root), named("Button")).unwrap();
    let me = context.add_widget(Some(root), named("Inspector")).unwrap();
    let last_clicked = context.get_last_clicked_widget();
    context.set(last_clicked, target);
    let reports = vec![measured(target, true, true)];
    let state = lines(&["Name: Old", "ID: 3"]);
    let out = Inspector(InspectorProps::default(), me, &state, &mut context, &reports).unwrap();
    assert!(context.bindings().is_bound(me, last_clicked));
    assert_eq!(out.styles, Some(background_styles(&InspectorProps::default())));
    assert_eq!(out.go_up, Some(root));
    match &out.data {
        InspectData::Data(found) => {
            assert_eq!(found[0], "Name: Button");
            assert_eq!(found[1], "ID: 1");
            assert_eq!(found.len(), 8);
        },
        InspectData::Empty => panic!("the target is measured"),
    }
    let tree = &out.children;
    let top = tree.get(tree.root().unwrap()).unwrap();
    assert_eq!(top.widget.tag, TypeTag(TAG_INSPECTOR));
    assert_eq!(top.children.len(), 1);
    let panel = tree.get(top.children[0]).unwrap();
    assert_eq!(panel.widget.tag, TypeTag(TAG_BACKGROUND));
    assert_eq!(panel.widget.props.styles, out.styles);
    assert_eq!(panel.children.len(), 3);
    for (i, line) in state.iter().enumerate() {
        let text = tree.get(panel.children[i]).unwrap();
        assert_eq!(text.widget.tag, TypeTag(TAG_TEXT));
        assert_eq!(text.widget.name, "Text");
        assert_eq!(
            text.widget.props.values,
            vec![PropValue::Text(line.clone()), PropValue::Scalar(Scalar::from_bits(SCALAR_TWELVE))]
        );
        assert_eq!(text.widget.props.on_event, None);
        assert!(text.children.is_empty());
    }
    let button = tree.get(panel.children[2]).unwrap();
    assert_eq!(button.widget.tag, TypeTag(TAG_BUTTON));
    assert_eq!(button.children.len(), 1);
    let label = tree.get(button.children[0]).unwrap();
    assert_eq!(
        label.widget.props.values,
        vec![
            PropValue::Text(String::from("Go Up")),
            PropValue::Scalar(Scalar::from_bits(SCALAR_TWELVE))
        ]
    );
    assert_eq!(label.widget.props.on_event, Some(OnEvent::new(EventType::Click, last_clicked, Some(root))));
}

#[test]
fn the_inspector_of_an_unmeasured_widget_has_no_way_up() {
    let mut context = KayakContext::new();
    let root = context.add_widget(None, named("App")).unwrap();
    let me = context.add_widget(Some(root), named("Inspector")).unwrap();
    let last_clicked = context.get_last_clicked_widget();
    context.set(last_clicked, me);
    let out = Inspector(InspectorProps::default(), me, &vec![], &mut context, &vec![]).unwrap();
    assert_eq!(out.data, InspectData::Empty);
    assert_eq!(out.go_up, None);
    let tree = &out.children;
    let top = tree.get(tree.root().unwrap()).unwrap();
    let panel = tree.get(top.children[0]).unwrap();
    assert_eq!(panel.children.len(), 1);
    let button = tree.get(panel.children[0]).unwrap();
    let label = tree.get(button.children[0]).unwrap();
    assert_eq!(
        label.widget.props.on_event,
        Some(OnEvent::new(EventType::Click, last_clicked, None))
    );
}

#[test]
fn an_inspector_that_is_not_in_the_tree_fails() {
    let mut context = KayakContext::new();
    context.add_widget(None, named("App")).unwrap();
    let last_clicked = context.get_last_clicked_widget();
    let missing = Index::from_raw_parts(40, 0);
    let result = Inspector(InspectorProps::default(), missing, &vec![], &mut context, &vec![]);
    assert!(matches!(result, Err(TreeError::InvalidIdentifier)));
    assert_eq!(context.bindings().subscriber_count(last_clicked), 0);
}

fn label_of(context: &KayakContext, me: Index) -> Index {
    let panel = context.get_node(me).unwrap().children[0];
    let button = *context.get_node(panel).unwrap().children.last().unwrap();
    context.get_node(button).unwrap().children[0]
}

fn render(
    context: &mut KayakContext,
    me: Index,
    state: &mut Vec<String>,
    reports: &Vec<Measured>,
) -> bool {
    let out = Inspector(InspectorProps::default(), me, state, context, reports).unwrap();
    let top = out.children.root().unwrap();
    context.render_tree(me, &out.children, top).unwrap();
    keep_inspect_data(me, state, out.data, context)
}

#[test]
fn a_click_on_go_up_inspects_the_parent_in_the_next_pass() {
    let mut context = KayakContext::new();
    let root = context.add_widget(None, named("App")).unwrap();
    let target = context.add_widget(Some(root), named("Button")).unwrap();
    let me = context.add_widget(Some(root), named("Inspector")).unwrap();
    let last_clicked = context.get_last_clicked_widget();
    context.set(last_clicked, target);
    let reports = vec![measured(target, true, true), measured(root, true, true)];
    let mut state: Vec<String> = Vec::new();
    assert!(render(&mut context, me, &mut state, &reports));
    assert_eq!(state[0], "Name: Button");
    context.begin_pass();
    while context.next_render().is_some() {}
    let label = label_of(&context, me);
    let click = Event { target: label, event_type: EventType::Click };
    assert!(!context.handler_would_fail(&click));
    assert!(context.dispatch(&click));
    assert_eq!(context.get(last_clicked), Some(root));
    assert!(context.bindings().is_dirty(me));
    context.begin_pass();
    assert_eq!(context.next_render(), Some(me));
    assert!(render(&mut context, me, &mut state, &reports));
    assert_eq!(state[0], "Name: App");
    let panel = context.get_node(me).unwrap().children[0];
    assert_eq!(context.get_node(panel).unwrap().children.len(), 15);
    let shown = context.get_node(panel).unwrap().children[0];
    assert_eq!(
        context.get_node(shown).unwrap().widget.props.values[0],
        PropValue::Text(String::from("Name: Button"))
    );
    let label = label_of(&context, me);
    let click = Event { target: label, event_type: EventType::Click };
    let before = context.get(last_clicked);
    assert!(context.handler_would_fail(&click));
    assert_eq!(context.get(last_clicked), before);
}

#[test]
fn a_kept_label_takes_the_handler_of_the_last_render() {
    let mut context = KayakContext::new();
    let root = context.add_widget(None, named("App")).unwrap();
    let target = context.add_widget(Some(root), named("Button")).unwrap();
    let me = context.add_widget(Some(root), named("Inspector")).unwrap();
    let last_clicked = context.get_last_clicked_widget();
    let reports = vec![measured(target, true, true), measured(root, true, true)];
    let shown = lines(&["Name: Old"]);
    let declare = |context: &mut KayakContext| {
        let out = Inspector(InspectorProps::default(), me, &shown, context, &reports).unwrap();
        let top = out.children.root().unwrap();
        context.render_tree(me, &out.children, top).unwrap()
    };
    context.set(last_clicked, root);
    let first = declare(&mut context);
    assert_eq!(first.inserted.len(), 4);
    let label = label_of(&context, me);
    assert_eq!(
        context.get_node(label).unwrap().widget.props.on_event,
        Some(OnEvent::new(EventType::Click, last_clicked, None))
    );
    context.set(last_clicked, target);
    let second = declare(&mut context);
    assert_eq!(second.updated, vec![label]);
    assert!(second.inserted.is_empty() && second.removed.is_empty() && second.roots.is_empty());
    assert_eq!(label_of(&context, me), label);
    assert_eq!(
        context.get_node(label).unwrap().widget.props.on_event,
        Some(OnEvent::new(EventType::Click, last_clicked, Some(root)))
    );
    let click = Event { target: label, event_type: EventType::Click };
    assert!(!context.handler_would_fail(&click));
    assert!(context.dispatch(&click));
    assert_eq!(context.get(last_clicked), Some(root));
}

#[test]
fn a_click_on_go_up_fails_where_no_parent_was_captured() {
    let mut context = KayakContext::new();
    let root = context.add_widget(None, named("App")).unwrap();
    let me = context.add_widget(Some(root), named("Inspector")).unwrap();
    let last_clicked = context.get_last_clicked_widget();
    context.set(last_clicked, me);
    let mut state: Vec<String> = Vec::new();
    assert!(!render(&mut context, me, &mut state, &vec![]));
    context.begin_pass();
    while context.next_render().is_some() {}
    let label = label_of(&context, me);
    let click = Event { target: label, event_type: EventType::Click };
    assert!(context.handler_would_fail(&click));
    assert_eq!(context.get(last_clicked), Some(me));
    assert!(!context.has_dirty());
}

#[test]
fn the_state_is_replaced_only_where_something_was_found() {
    let old = lines(&["Name: Old"]);
    assert_eq!(next_inspect_data(old.clone(), InspectData::Empty), old);
    assert_eq!(
        next_inspect_data(old.clone(), InspectData::Data(lines(&["Name: New", "ID: 1"]))),
        lines(&["Name: New", "ID: 1"])
    );
    assert_eq!(next_inspect_data(old.clone(), InspectData::Data(vec![])), Vec::<String>::new());
    let mut context = KayakContext::new();
    let root = context.add_widget(None, named("App")).unwrap();
    context.begin_pass();
    while context.next_render().is_some() {}
    let mut state = old.clone();
    assert!(!keep_inspect_data(root, &mut state, InspectData::Empty, &mut context));
    assert_eq!(state, old);
    assert!(!context.has_dirty());
    assert!(keep_inspect_data(root, &mut state, InspectData::Data(lines(&["X: 1"])), &mut context));
    assert_eq!(state, lines(&["X: 1"]));
    assert!(context.bindings().is_dirty(root));
    assert_eq!(context.next_render(), None);
}
