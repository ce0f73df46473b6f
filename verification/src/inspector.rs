//! The inspector: a panel that describes the widget that was clicked last.

use vstd::prelude::*;
use crate::binding::{BindingId, BindingRegistry};
use crate::context::{names, shown_below, KayakContext};
use crate::converge::kept_outside;
use crate::event::Event;
use crate::merge::MergeOutcome;
use crate::widget::Widget;
use crate::event::{EventType, OnEvent};
use crate::index::Index;
use crate::props::{PropValue, PropValueView, Props, PropsView, TypeTag, WidgetData, WidgetView};
use crate::shape::NodeView;
use crate::styles::{
    Color, Corners, PositionType, Scalar, Style, StyleProp, Units, SCALAR_EIGHTH, SCALAR_ONE,
    SCALAR_TWELVE, SCALAR_TWO_HUNDRED, SCALAR_ZERO,
};
use crate::text::{decimal, decimal_text, labelled, lines_view};
use crate::tree::{TreeError, WidgetTree};
use crate::widget::{TAG_BACKGROUND, TAG_BUTTON, TAG_INSPECTOR, TAG_TEXT};

verus! {

/// What an inspector found out about the widget that was clicked last:
/// nothing, or the lines that describe it.
#[derive(Clone, Debug, PartialEq)]
pub enum InspectData {
    Empty,
    Data(Vec<String>),
}

/// Props used by the inspector widget.
#[derive(Clone, Copy, Debug, PartialEq, Eq, Structural)]
pub struct InspectorProps {
    pub styles: Option<Style>,
}

impl Default for InspectorProps {
    fn default() -> (props: InspectorProps)
        ensures
            props.styles is None,
    {
        InspectorProps { styles: None }
    }
}

/// The place and size that the layout gave a widget, as display text.
#[derive(Clone, Debug, PartialEq, Eq)]
pub struct Layout {
    pub posx: String,
    pub posy: String,
    pub width: String,
    pub height: String,
}

/// What the style cascade resolved for a widget, as debug text.
#[derive(Clone, Debug, PartialEq, Eq)]
pub struct ResolvedStyles {
    pub render_command: String,
    pub height: String,
}

/// What layout and style cascade report of the widget `id`.
#[derive(Clone, Debug, PartialEq, Eq)]
pub struct Measured {
    pub id: Index,
    pub layout: Option<Layout>,
    pub resolved_styles: Option<ResolvedStyles>,
}

/// What an inspector renders.
pub struct InspectorRender {
    /// The style of the panel.
    pub styles: Option<Style>,
    /// What the inspector found out, to be kept as its state for its next
    /// render.
    pub data: InspectData,
    /// The widget that a click on "Go Up" makes the inspected one; a click
    /// fails where there is none.
    pub go_up: Option<Index>,
    /// The children that the inspector declares.
    pub children: WidgetTree,
}

/// The first report on `id` among `measured[i..]`, if there is one.
pub open spec fn find_from(measured: Seq<Measured>, id: Index, i: int) -> Option<Measured>
    decreases measured.len() - i,
{
    if i < 0 || i >= measured.len() {
        None
    } else if measured[i].id == id {
        Some(measured[i])
    } else {
        find_from(measured, id, i + 1)
    }
}

/// The place and size reported of `id`, if any.
pub open spec fn layout_of(measured: Seq<Measured>, id: Index) -> Option<Layout> {
    match find_from(measured, id, 0) {
        Some(entry) => entry.layout,
        None => None,
    }
}

/// The resolved styles reported of `id`, if any.
pub open spec fn resolved_of(measured: Seq<Measured>, id: Index) -> Option<ResolvedStyles> {
    match find_from(measured, id, 0) {
        Some(entry) => entry.resolved_styles,
        None => None,
    }
}

/// The line that names the widget `id`, where the tree holds it.
pub open spec fn name_lines(tree: Map<Index, NodeView>, id: Index) -> Seq<Seq<char>> {
    if tree.contains_key(id) {
        seq!["Name: "@ + tree[id].widget.name]
    } else {
        Seq::empty()
    }
}

/// The four lines that give a place and size.
pub open spec fn layout_lines(layout: Layout) -> Seq<Seq<char>> {
    seq![
        "X: "@ + layout.posx@,
        "Y: "@ + layout.posy@,
        "Width: "@ + layout.width@,
        "Height: "@ + layout.height@,
    ]
}

/// The lines that describe the parent of `target`: none where `target` has
/// no parent in the tree or nothing is reported of the parent's place.
pub open spec fn parent_lines(tree: Map<Index, NodeView>, measured: Seq<Measured>,
    target: Index) -> Seq<
    Seq<char>,
> {
    if tree.contains_key(target) && tree[target].parent is Some && layout_of(
        measured,
        tree[target].parent.unwrap(),
    ) is Some {
        let p = tree[target].parent.unwrap();
        seq!["_________Parent_________"@] + name_lines(tree, p) + layout_lines(
            layout_of(measured, p).unwrap(),
        )
    } else {
        Seq::empty()
    }
}

/// The lines that describe `target`, of which `layout` and `resolved` are
/// reported.
pub open spec fn inspect_lines(
    tree: Map<Index, NodeView>,
    measured: Seq<Measured>,
    target: Index,
    layout: Layout,
    resolved: ResolvedStyles,
) -> Seq<Seq<char>> {
    name_lines(tree, target) + seq!["ID: "@ + decimal_text(target.slot as nat)] + layout_lines(
        layout,
    ) + seq![
        "RenderCommand: \n"@ + resolved.render_command@,
        "Height: \n"@ + resolved.height@,
    ] + parent_lines(tree, measured, target)
}

/// The lines that an inspector finds out about `target`: `None` unless both
/// place and resolved styles are reported of it.
pub open spec fn inspected(tree: Map<Index, NodeView>, measured: Seq<Measured>,
    target: Index) -> Option<
    Seq<Seq<char>>,
> {
    if layout_of(measured, target) is Some && resolved_of(measured, target) is Some {
        Some(
            inspect_lines(
                tree,
                measured,
                target,
                layout_of(measured, target).unwrap(),
                resolved_of(measured, target).unwrap(),
            ),
        )
    } else {
        None
    }
}

/// The widget that "Go Up" leads to from `target`: its parent, where place
/// and resolved styles are reported of `target`.
pub open spec fn go_up_of(tree: Map<Index, NodeView>, measured: Seq<Measured>,
    target: Index) -> Option<
    Index,
> {
    if layout_of(measured, target) is Some && resolved_of(measured, target) is Some
        && tree.contains_key(target) {
        tree[target].parent
    } else {
        None
    }
}

/// The value of what an inspector found out.
pub open spec fn data_view(data: InspectData) -> Option<Seq<Seq<char>>> {
    match data {
        InspectData::Empty => None,
        InspectData::Data(lines) => Some(lines_view(lines@)),
    }
}

/// The style of an inspector's panel: a dark box of fixed width that places
/// itself at the right edge and spans the height, with what `props` sets
/// for the rest.
pub open spec fn panel_style(props: InspectorProps) -> Style {
    let rest = match props.styles {
        Some(s) => s,
        None => Style::spec_default(),
    };
    Style {
        background_color: StyleProp::Value(
            Color {
                r: Scalar { bits: SCALAR_EIGHTH },
                g: Scalar { bits: SCALAR_EIGHTH },
                b: Scalar { bits: SCALAR_EIGHTH },
                a: Scalar { bits: SCALAR_ONE },
            },
        ),
        border_radius: StyleProp::Value(
            Corners {
                top_left: Scalar { bits: SCALAR_ZERO },
                top_right: Scalar { bits: SCALAR_ZERO },
                bottom_left: Scalar { bits: SCALAR_ZERO },
                bottom_right: Scalar { bits: SCALAR_ZERO },
            },
        ),
        position_type: StyleProp::Value(PositionType::SelfDirected),
        left: StyleProp::Value(Units::Stretch(Scalar { bits: SCALAR_ONE })),
        top: StyleProp::Value(Units::Stretch(Scalar { bits: SCALAR_ZERO })),
        bottom: StyleProp::Value(Units::Stretch(Scalar { bits: SCALAR_ZERO })),
        width: StyleProp::Value(Units::Pixels(Scalar { bits: SCALAR_TWO_HUNDRED })),
        ..rest
    }
}

/// The style of an inspector's panel.
pub fn background_styles(props: &InspectorProps) -> (style: Style)
    ensures
        style == panel_style(*props),
{
    let rest = match props.styles {
        Some(s) => s,
        None => Style::default(),
    };
    let dark = Scalar::from_bits(SCALAR_EIGHTH);
    let zero = Scalar::from_bits(SCALAR_ZERO);
    let one = Scalar::from_bits(SCALAR_ONE);
    Style {
        background_color: StyleProp::Value(Color::new(dark, dark, dark, one)),
        border_radius: StyleProp::Value(
            Corners { top_left: zero, top_right: zero, bottom_left: zero, bottom_right: zero },
        ),
        position_type: StyleProp::Value(PositionType::SelfDirected),
        left: StyleProp::Value(Units::Stretch(one)),
        top: StyleProp::Value(Units::Stretch(zero)),
        bottom: StyleProp::Value(Units::Stretch(zero)),
        width: StyleProp::Value(Units::Pixels(Scalar::from_bits(SCALAR_TWO_HUNDRED))),
        height: rest.height,
    }
}

/// The first report on `id` in `measured`, if there is one.
pub fn find_measured(measured: &Vec<Measured>, id: Index) -> (r: Option<&Measured>)
    ensures
        r is Some <==> find_from(measured@, id, 0) is Some,
        r matches Some(entry) ==> *entry == find_from(measured@, id, 0).unwrap(),
{
    let mut i: usize = 0;
    while i < measured.len()
        invariant
            i <= measured@.len(),
            find_from(measured@, id, 0) == find_from(measured@, id, i as int),
        decreases measured@.len() - i,
    {
        if measured[i].id == id {
            return Some(&measured[i]);
        }
        i += 1;
    }
    None
}

fn name_lines_of(context: &KayakContext, id: Index) -> (lines: Vec<String>)
    requires
        context.wf(),
    ensures
        lines_view(lines@) == name_lines(context.live_tree()@, id),
{
    let mut lines: Vec<String> = Vec::new();
    if let Some(name) = context.get_name(id) {
        lines.push(labelled("Name: ", name.as_str()));
    }
    assert(lines_view(lines@) =~= name_lines(context.live_tree()@, id));
    lines
}

fn layout_lines_of(layout: &Layout) -> (lines: Vec<String>)
    ensures
        lines_view(lines@) == layout_lines(*layout),
{
    let mut lines: Vec<String> = Vec::new();
    lines.push(labelled("X: ", layout.posx.as_str()));
    lines.push(labelled("Y: ", layout.posy.as_str()));
    lines.push(labelled("Width: ", layout.width.as_str()));
    lines.push(labelled("Height: ", layout.height.as_str()));
    assert(lines_view(lines@) =~= layout_lines(*layout));
    lines
}

fn append_lines(lines: &mut Vec<String>, more: Vec<String>)
    ensures
        lines_view(final(lines)@) == lines_view(old(lines)@) + lines_view(more@),
{
    let mut more = more;
    let ghost added = more@;
    lines.append(&mut more);
    assert(lines_view(lines@) =~= lines_view(old(lines)@) + lines_view(added));
}

fn parent_lines_of(context: &KayakContext, measured: &Vec<Measured>, target: Index) -> (lines: Vec<
    String,
>)
    requires
        context.wf(),
    ensures
        lines_view(lines@) == parent_lines(context.live_tree()@, measured@, target),
{
    let mut lines: Vec<String> = Vec::new();
    if let Some(parent) = context.get_valid_parent(target) {
        if let Some(entry) = find_measured(measured, parent) {
            if let Some(layout) = &entry.layout {
                lines.push(String::from_str("_________Parent_________"));
                append_lines(&mut lines, name_lines_of(context, parent));
                append_lines(&mut lines, layout_lines_of(layout));
            }
        }
    }
    assert(lines_view(lines@) =~= parent_lines(context.live_tree()@, measured@, target));
    lines
}

/// What an inspector finds out about `target`: the lines that describe it,
/// where both its place and its resolved styles are reported.
pub fn inspect(context: &KayakContext, measured: &Vec<Measured>,
    target: Index) -> (data: InspectData)
    requires
        context.wf(),
    ensures
        data_view(data) == inspected(context.live_tree()@, measured@, target),
{
    let entry = match find_measured(measured, target) {
        Some(entry) => entry,
        None => {
            return InspectData::Empty;
        },
    };
    let layout = match &entry.layout {
        Some(layout) => layout,
        None => {
            return InspectData::Empty;
        },
    };
    let resolved = match &entry.resolved_styles {
        Some(resolved) => resolved,
        None => {
            return InspectData::Empty;
        },
    };
    let (slot, _) = target.into_raw_parts();
    let mut lines = name_lines_of(context, target);
    let mut own: Vec<String> = Vec::new();
    own.push(labelled("ID: ", decimal(slot).as_str()));
    assert(lines_view(own@) =~= seq!["ID: "@ + decimal_text(target.slot as nat)]);
    append_lines(&mut lines, own);
    append_lines(&mut lines, layout_lines_of(layout));
    let mut styles: Vec<String> = Vec::new();
    styles.push(labelled("RenderCommand: \n", resolved.render_command.as_str()));
    styles.push(labelled("Height: \n", resolved.height.as_str()));
    assert(lines_view(styles@) =~= seq![
        "RenderCommand: \n"@ + resolved.render_command@,
        "Height: \n"@ + resolved.height@,
    ]);
    append_lines(&mut lines, styles);
    append_lines(&mut lines, parent_lines_of(context, measured, target));
    InspectData::Data(lines)
}

/// A text widget that shows `content` at size 12, with the handler
/// `handler`.
pub open spec fn text_widget(content: Seq<char>, handler: Option<OnEvent>) -> WidgetView {
    WidgetView {
        tag: TypeTag(TAG_TEXT),
        name: "Text"@,
        props: PropsView {
            styles: None,
            values: seq![
                PropValueView::Text(content),
                PropValueView::Scalar(Scalar { bits: SCALAR_TWELVE }),
            ],
            on_event: handler,
        },
    }
}

/// A widget of kind `tag` that has a name and a style override, and nothing
/// else.
pub open spec fn plain_widget(tag: u64, name: Seq<char>, styles: Option<Style>) -> WidgetView {
    WidgetView {
        tag: TypeTag(tag),
        name,
        props: PropsView { styles, values: Seq::empty(), on_event: None },
    }
}

/// The handler of "Go Up": a click makes `go_up` the inspected widget, and
/// fails where there is none.
pub open spec fn go_up_handler(last_clicked: BindingId, go_up: Option<Index>) -> OnEvent {
    OnEvent { on: EventType::Click, binding: last_clicked, value: go_up }
}

/// Whether `tree` declares the children of an inspector: under its root one
/// background of style `styles`, which holds one text for each of `lines`,
/// in order, and behind them a button whose label is the text "Go Up" with
/// the handler `handler`.
pub open spec fn panel_declared(
    tree: &WidgetTree,
    lines: Seq<Seq<char>>,
    styles: Option<Style>,
    handler: Option<OnEvent>,
) -> bool {
    let m = tree@;
    let root = tree.root_node().unwrap();
    let panel = m[root].children[0];
    let button = m[panel].children[lines.len() as int];
    let label = m[button].children[0];
    &&& tree.root_node() is Some
    &&& m[root].widget == plain_widget(TAG_INSPECTOR, "Inspector"@, None)
    &&& m[root].children.len() == 1
    &&& m[panel].widget == plain_widget(TAG_BACKGROUND, "Background"@, styles)
    &&& m[panel].children.len() == lines.len() + 1
    &&& forall|i: int|
        0 <= i < lines.len() ==> m[#[trigger] m[panel].children[i]].widget == text_widget(
            lines[i],
            None,
        ) && m[m[panel].children[i]].children.len() == 0
    &&& m[button].widget == plain_widget(TAG_BUTTON, "Button"@, None)
    &&& m[button].children.len() == 1
    &&& m[label].widget == text_widget("Go Up"@, handler)
    &&& m[label].children.len() == 0
}

fn text(content: String, handler: Option<OnEvent>) -> (w: WidgetData)
    ensures
        w@ == text_widget(content@, handler),
{
    let ghost shown = content@;
    let mut values: Vec<PropValue> = Vec::new();
    values.push(PropValue::Text(content));
    values.push(PropValue::Scalar(Scalar::from_bits(SCALAR_TWELVE)));
    let props = Props { styles: None, values, on_event: handler };
    assert(props@.values =~= seq![
        PropValueView::Text(shown),
        PropValueView::Scalar(Scalar { bits: SCALAR_TWELVE }),
    ]);
    WidgetData { tag: TypeTag(TAG_TEXT), name: String::from_str("Text"), props }
}

fn plain(tag: u64, name: &str, styles: Option<Style>) -> (w: WidgetData)
    ensures
        w@ == plain_widget(tag, name@, styles),
{
    let props = Props { styles, values: Vec::new(), on_event: None };
    assert(props@.values =~= Seq::empty());
    WidgetData { tag: TypeTag(tag), name: String::from_str(name), props }
}

/// Declares the children of an inspector that shows `lines`.
pub fn inspector_children(lines: &Vec<String>, styles: Option<Style>,
    handler: Option<OnEvent>) -> (tree:
    WidgetTree)
    ensures
        tree.wf(),
        panel_declared(&tree, lines_view(lines@), styles, handler),
{
    let mut tree = WidgetTree::new();
    let root = tree.insert(None, plain(TAG_INSPECTOR, "Inspector", None)).unwrap();
    let panel = tree.insert(Some(root), plain(TAG_BACKGROUND, "Background", styles)).unwrap();
    let ghost shown = lines_view(lines@);
    let mut i: usize = 0;
    while i < lines.len()
        invariant
            i <= lines@.len(),
            shown == lines_view(lines@),
            tree.wf(),
            root != panel,
            tree.root_node() == Some(root),
            tree@.contains_key(root),
            tree@.contains_key(panel),
            tree@[root].widget == plain_widget(TAG_INSPECTOR, "Inspector"@, None),
            tree@[root].children == seq![panel],
            tree@[panel].widget == plain_widget(TAG_BACKGROUND, "Background"@, styles),
            tree@[panel].children.len() == i,
            forall|j: int|
                0 <= j < i ==> tree@.contains_key(#[trigger] tree@[panel].children[j])
                    && tree@[panel].children[j] != panel && tree@[panel].children[j] != root
                    && tree@[tree@[panel].children[j]].widget == text_widget(shown[j], None)
                    && tree@[tree@[panel].children[j]].children.len() == 0,
        decreases lines@.len() - i,
    {
        let ghost before = tree@;
        proof {
            tree.lemma_wf();
        }
        let id = tree.insert(Some(panel), text(lines[i].clone(), None)).unwrap();
        proof {
            assert forall|j: int| 0 <= j < i + 1 implies tree@.contains_key(
                #[trigger] tree@[panel].children[j],
            ) && tree@[panel].children[j] != panel && tree@[panel].children[j] != root
                && tree@[tree@[panel].children[j]].widget == text_widget(shown[j], None)
                && tree@[tree@[panel].children[j]].children.len() == 0 by {
                if j < i {
                    let c = before[panel].children[j];
                    assert(before.contains_key(c));
                    assert(tree@[panel].children[j] == c);
                    assert(tree@[c] == before[c]);
                }
            }
        }
        i += 1;
    }
    let ghost before = tree@;
    proof {
        tree.lemma_wf();
    }
    let button = tree.insert(Some(panel), plain(TAG_BUTTON, "Button", None)).unwrap();
    let ghost middle = tree@;
    proof {
        tree.lemma_wf();
        assert forall|j: int| 0 <= j < shown.len() implies
            middle[#[trigger] middle[panel].children[j]]
            == before[before[panel].children[j]] && middle[panel].children[j] != button by {
            let c = before[panel].children[j];
            assert(before.contains_key(c));
            assert(middle[panel].children[j] == c);
        }
    }
    let label = tree.insert(Some(button), text(String::from_str("Go Up"), handler)).unwrap();
    proof {
        let m = tree@;
        assert(m[root].children[0] == panel);
        assert(m[panel].children[shown.len() as int] == button);
        assert(m[button].children[0] == label);
        assert forall|j: int| 0 <= j < shown.len() implies m[#[trigger] m[panel].children[j]].widget
            == text_widget(shown[j], None) && m[m[panel].children[j]].children.len() == 0 by {
            let c = middle[panel].children[j];
            assert(middle.contains_key(c));
            assert(m[panel].children[j] == c);
            assert(m[c] == middle[c]);
        }
    }
    tree
}

/// Renders an inspector: the widget `id`, which shows the lines
/// `inspect_data` that it found out at its last render.
///
/// The inspector subscribes to the binding that holds the widget clicked
/// last, finds out what `measured` and the live tree say of that widget, and
/// declares its panel. A click on "Go Up" makes the parent of the inspected
/// widget the inspected one, and fails where this render found no parent.
///
/// Fails with `InvalidIdentifier`, and changes nothing, when `id` names no
/// node of the live tree.
#[allow(non_snake_case)]
pub fn Inspector(
    props: InspectorProps,
    id: Index,
    inspect_data: &Vec<String>,
    context: &mut KayakContext,
    measured: &Vec<Measured>,
) -> (r: Result<InspectorRender, TreeError>)
    requires
        old(context).wf(),
    ensures
        final(context).wf(),
        final(context).live_tree() == old(context).live_tree(),
        final(context).same_pass(old(context)),
        final(context).clicked() == old(context).clicked(),
        final(context).registry().count() == old(context).registry().count(),
        final(context).registry().dirty() == old(context).registry().dirty(),
        final(context).registry().keeps_cells_but(&old(context).registry(), old(context).clicked()),
        final(context).registry().value(old(context).clicked()) == old(context).registry().value(
            old(context).clicked(),
        ),
        r is Ok <==> old(context).live_tree()@.contains_key(id),
        r is Ok ==> final(context).registry().subscribers(old(context).clicked())
            == old(context).registry().subscribers(old(context).clicked()).insert(id),
        r matches Err(e) ==>
            e == TreeError::InvalidIdentifier
                && final(context).registry().keeps_cells(&old(context).registry()),
        r matches Ok(out) ==> ({
            let tree = old(context).live_tree()@;
            let target = old(context).registry().value(old(context).clicked());
            &&& out.styles == Some(panel_style(props))
            &&& data_view(out.data) == inspected(tree, measured@, target)
            &&& out.go_up == go_up_of(tree, measured@, target)
            &&& out.children.wf()
            &&& panel_declared(
                &out.children,
                lines_view(inspect_data@),
                out.styles,
                Some(go_up_handler(old(context).clicked(), out.go_up)),
            )
        }),
{
    let styles = Some(background_styles(&props));
    let last_clicked = context.get_last_clicked_widget();
    match context.bind(id, last_clicked) {
        Err(e) => {
            return Err(e);
        },
        Ok(()) => {},
    }
    let last_clicked_value = context.get(last_clicked).unwrap();
    let data = inspect(context, measured, last_clicked_value);
    let go_up = match &data {
        InspectData::Data(_) => context.get_valid_parent(last_clicked_value),
        InspectData::Empty => None,
    };
    let handler = OnEvent::new(EventType::Click, last_clicked, go_up);
    let children = inspector_children(inspect_data, styles, Some(handler));
    Ok(InspectorRender { styles, data, go_up, children })
}

/// The lines that an inspector keeps as its state after a render that found
/// out `found`: the found lines, and the lines it had where nothing was
/// found.
pub open spec fn kept_lines(current: Seq<Seq<char>>, found: InspectData) -> Seq<Seq<char>> {
    match data_view(found) {
        Some(lines) => lines,
        None => current,
    }
}

/// The state of an inspector after a render that found out `found`, given
/// the state `current` that it had: `found` replaces the state where it
/// holds lines, and leaves it as it is otherwise.
pub fn next_inspect_data(current: Vec<String>, found: InspectData) -> (next: Vec<String>)
    ensures
        lines_view(next@) == kept_lines(lines_view(current@), found),
{
    match found {
        InspectData::Data(lines) => lines,
        InspectData::Empty => current,
    }
}

/// Keeps what a render of the inspector `id` found out. Where `found` holds
/// lines, they replace the state `inspect_data`, and the inspector is marked
/// dirty, so that the next pass renders it with them; the pass in progress
/// stays as it is. Where nothing was found, nothing changes. Returns whether
/// the state was written.
pub fn keep_inspect_data(
    id: Index,
    inspect_data: &mut Vec<String>,
    found: InspectData,
    context: &mut KayakContext,
) -> (written: bool)
    requires
        old(context).wf(),
    ensures
        final(context).wf(),
        written == (data_view(found) is Some),
        lines_view(final(inspect_data)@) == kept_lines(lines_view(old(inspect_data)@), found),
        final(context).live_tree() == old(context).live_tree(),
        final(context).same_pass(old(context)),
        final(context).clicked() == old(context).clicked(),
        final(context).registry().count() == old(context).registry().count(),
        final(context).registry().keeps_cells(&old(context).registry()),
        final(context).registry().dirty() == (if written {
            old(context).registry().dirty().insert(id)
        } else {
            old(context).registry().dirty()
        }),
{
    match found {
        InspectData::Data(lines) => {
            *inspect_data = lines;
            context.mark_dirty(id);
            true
        },
        InspectData::Empty => false,
    }
}

/// Whether `after` has the bindings of `before`, with their values, after
/// `id` subscribed to `clicked` and the widgets in `gone` lost every
/// subscription.
pub open spec fn bound_then_dropped(
    before: &BindingRegistry<Index>,
    after: &BindingRegistry<Index>,
    clicked: BindingId,
    id: Index,
    gone: Set<Index>,
) -> bool {
    &&& after.count() == before.count()
    &&& forall|o: BindingId|
        #![trigger after.subscribers(o)]
        #![trigger after.value(o)]
        before.has(o) ==> after.value(o) == before.value(o) && after.subscribers(o) == (if o
            == clicked {
            before.subscribers(o).insert(id)
        } else {
            before.subscribers(o)
        }).difference(gone)
}

/// An inspector in the live tree: the widget `id`, with the lines that it
/// found out at its last render and with what layout and style cascade
/// report of the widgets.
pub struct InspectorWidget {
    pub id: Index,
    pub props: InspectorProps,
    pub inspect_data: Vec<String>,
    pub measured: Vec<Measured>,
}

impl InspectorWidget {
    /// An inspector that has found out nothing yet and knows no report.
    pub fn new(id: Index, props: InspectorProps) -> (widget: InspectorWidget)
        ensures
            widget.id == id,
            widget.props == props,
            widget.inspect_data@ == Seq::<String>::empty(),
            widget.measured@ == Seq::<Measured>::empty(),
    {
        InspectorWidget { id, props, inspect_data: Vec::new(), measured: Vec::new() }
    }
}

impl Widget for InspectorWidget {
    open spec fn spec_id(&self) -> Index {
        self.id
    }

    open spec fn valid(&self) -> bool {
        true
    }

    fn get_id(&self) -> (id: Index) {
        self.id
    }

    fn set_id(&mut self, id: Index)
        ensures
            final(self).props == old(self).props,
            final(self).inspect_data == old(self).inspect_data,
            final(self).measured == old(self).measured,
    {
        self.id = id;
    }

    fn get_styles(&self) -> (styles: Option<Style>)
        ensures
            styles == self.props.styles,
    {
        self.props.styles
    }

    fn get_name(&self) -> (name: String)
        ensures
            name@ == "Inspector"@,
    {
        String::from_str("Inspector")
    }

    fn on_event(&mut self, context: &mut KayakContext, event: &mut Event)
        ensures
            *final(self) == *old(self),
            *final(context) == *old(context),
            *final(event) == *old(event),
    {
    }

    /// Renders the inspector. It subscribes to the binding of the last
    /// click, shows the lines of its last render in its panel, at every
    /// depth of the live tree, and keeps the lines that this render finds
    /// out about the widget clicked last. Where it found lines, it is marked
    /// dirty, so that the next pass renders it with them; it does not wait
    /// again in this pass. Besides, only the widgets that leave the panel
    /// lose subscriptions, and only the widgets that the panel updates or
    /// creates are asked to render.
    fn render(&mut self, context: &mut KayakContext) -> (r: Result<MergeOutcome, TreeError>)
        ensures
            final(self).id == old(self).id,
            final(self).props == old(self).props,
            final(self).measured == old(self).measured,
            r is Ok <==> old(context).live_tree()@.contains_key(old(self).id),
            r matches Err(e) ==> e == TreeError::InvalidIdentifier && final(self).inspect_data
                == old(self).inspect_data
                    && final(context).live_tree() == old(context).live_tree()
                        && final(context).same_pass(old(context))
                            && final(context).registry().keeps_cells(&old(context).registry())
                                && final(context).registry().dirty()
                                    == old(context).registry().dirty(),
            r matches Ok(outcome) ==> ({
                let tree = old(context).live_tree()@;
                let last_clicked = old(context).clicked();
                let target = old(context).registry().value(last_clicked);
                let found = inspected(tree, old(self).measured@, target);
                let asks = names(outcome.updated@, outcome.inserted@);
                let handed = old(context).pass().rendered();
                &&& final(context).registry().value(last_clicked) == target
                &&& final(context).registry().subscribers(last_clicked).contains(old(self).id)
                &&& bound_then_dropped(
                    &old(context).registry(),
                    &final(context).registry(),
                    last_clicked,
                    old(self).id,
                    outcome.removed@.to_set(),
                )
                &&& forall|x: Index|
                    #![trigger final(context).registry().dirty().contains(x)]
                    final(context).registry().dirty().contains(x) <==>
                        old(context).registry().dirty().contains(x) || (asks.contains(x)
                            && handed.contains(x))
                        || (found is Some && x == old(self).id)
                &&& forall|x: Index|
                    #![trigger final(context).pass().pending().contains(x)]
                    final(context).pass().pending().contains(x) <==>
                        old(context).pass().pending().contains(x) || (asks.contains(x)
                            && !handed.contains(x))
                &&& lines_view(final(self).inspect_data@) == (match found {
                    Some(lines) => lines,
                    None => lines_view(old(self).inspect_data@),
                })
                &&& found is Some ==> final(context).registry().dirty().contains(old(self).id)
                &&& kept_outside(tree, final(context).live_tree()@, old(self).id)
                &&& exists|panel: WidgetTree|
                    #![trigger panel.wf()]
                    {
                        &&& panel.wf()
                        &&& panel_declared(
                            &panel,
                            lines_view(old(self).inspect_data@),
                            Some(panel_style(old(self).props)),
                            Some(
                                go_up_handler(
                                    last_clicked,
                                    go_up_of(tree, old(self).measured@, target),
                                ),
                            ),
                        )
                        &&& shown_below(
                            final(context).live_tree()@,
                            panel@,
                            panel.root_node().unwrap(),
                            old(self).id,
                        )
                    }
            }),
    {
        let out = match Inspector(self.props, self.id, &self.inspect_data, context,
            &self.measured) {
            Ok(out) => out,
            Err(e) => {
                return Err(e);
            },
        };
        let top = match out.children.root() {
            Some(top) => top,
            None => {
                return Err(TreeError::InvalidIdentifier);
            },
        };
        proof {
            out.children.lemma_wf();
        }
        let outcome = match context.render_tree(self.id, &out.children, top) {
            Ok(outcome) => outcome,
            Err(e) => {
                return Err(e);
            },
        };
        let ghost shown = context.live_tree()@;
        keep_inspect_data(self.id, &mut self.inspect_data, out.data, context);
        proof {
            assert(out.children.wf());
            assert(shown_below(shown, out.children@, top, self.id));
        }
        Ok(outcome)
    }
}

} // verus!
