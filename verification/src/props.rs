//! What a widget is declared with: its kind, its name and its properties.

use vstd::prelude::*;
use crate::event::OnEvent;
use crate::index::Index;
use crate::styles::{same_styles, Scalar, Style};

verus! {

/// The kind of a widget. Two declarations describe the same kind of widget
/// exactly when their tags are equal.
#[derive(Clone, Copy, Debug, PartialEq, Eq, Structural, Hash)]
pub struct TypeTag(pub u64);

/// One property value.
#[derive(Clone, Debug, PartialEq, Eq)]
pub enum PropValue {
    Flag(bool),
    Number(u64),
    Scalar(Scalar),
    Text(String),
    WidgetData(Index),
}

/// The mathematical value of a [`PropValue`].
pub enum PropValueView {
    Flag(bool),
    Number(u64),
    Scalar(Scalar),
    Text(Seq<char>),
    WidgetData(Index),
}

impl View for PropValue {
    type V = PropValueView;

    open spec fn view(&self) -> PropValueView {
        match self {
            PropValue::Flag(b) => PropValueView::Flag(*b),
            PropValue::Number(n) => PropValueView::Number(*n),
            PropValue::Scalar(s) => PropValueView::Scalar(*s),
            PropValue::Text(t) => PropValueView::Text(t@),
            PropValue::WidgetData(id) => PropValueView::WidgetData(*id),
        }
    }
}

impl PropValue {
    /// Whether two values are equal.
    pub fn same(&self, other: &PropValue) -> (r: bool)
        ensures
            r == (self@ == other@),
    {
        match (self, other) {
            (PropValue::Flag(a), PropValue::Flag(b)) => *a == *b,
            (PropValue::Number(a), PropValue::Number(b)) => *a == *b,
            (PropValue::Scalar(a), PropValue::Scalar(b)) => *a == *b,
            (PropValue::Text(a), PropValue::Text(b)) => *a == *b,
            (PropValue::WidgetData(a), PropValue::WidgetData(b)) => *a == *b,
            _ => false,
        }
    }

    /// A copy of the value.
    pub fn duplicate(&self) -> (r: PropValue)
        ensures
            r@ == self@,
    {
        match self {
            PropValue::Flag(b) => PropValue::Flag(*b),
            PropValue::Number(n) => PropValue::Number(*n),
            PropValue::Scalar(s) => PropValue::Scalar(*s),
            PropValue::Text(t) => PropValue::Text(t.clone()),
            PropValue::WidgetData(id) => PropValue::WidgetData(*id),
        }
    }
}

/// The properties of one widget: an optional style override, the values
/// that the widget's kind gives a meaning to, in the order it declares them,
/// and the handler that the widget registers, if any.
#[derive(Clone, Debug, PartialEq, Eq)]
pub struct Props {
    pub styles: Option<Style>,
    pub values: Vec<PropValue>,
    pub on_event: Option<OnEvent>,
}

/// The mathematical value of [`Props`].
pub struct PropsView {
    pub styles: Option<Style>,
    pub values: Seq<PropValueView>,
    pub on_event: Option<OnEvent>,
}

impl View for Props {
    type V = PropsView;

    open spec fn view(&self) -> PropsView {
        PropsView {
            styles: self.styles,
            values: self.values@.map_values(|v: PropValue| v@),
            on_event: self.on_event,
        }
    }
}

impl Props {
    /// Properties without a style override, without values and without a
    /// handler.
    pub fn new() -> (p: Props)
        ensures
            p@ == (PropsView { styles: None, values: Seq::empty(), on_event: None }),
    {
        let p = Props { styles: None, values: Vec::new(), on_event: None };
        assert(p@.values =~= Seq::empty());
        p
    }

    /// Properties that hold the given numbers, in order, and neither a style
    /// override nor a handler.
    pub fn from_numbers(numbers: &Vec<u64>) -> (p: Props)
        ensures
            p@.styles == None::<Style>,
            p@.on_event == None::<OnEvent>,
            p@.values == numbers@.map_values(|n: u64| PropValueView::Number(n)),
    {
        let mut values: Vec<PropValue> = Vec::new();
        let mut i: usize = 0;
        while i < numbers.len()
            invariant
                i <= numbers.len(),
                values.len() == i,
                forall|j: int| 0 <= j < i ==>
                    (#[trigger] values[j])@ == PropValueView::Number(numbers[j]),
            decreases numbers.len() - i,
        {
            values.push(PropValue::Number(numbers[i]));
            i += 1;
        }
        let p = Props { styles: None, values, on_event: None };
        assert(p@.values =~= numbers@.map_values(|n: u64| PropValueView::Number(n)));
        p
    }

    /// Whether two property sets are equal: the same override, the same
    /// values in the same order, and the same handler.
    pub fn same(&self, other: &Props) -> (r: bool)
        ensures
            r == (self@ == other@),
    {
        if !same_styles(&self.styles, &other.styles) {
            return false;
        }
        if !same_handler(&self.on_event, &other.on_event) {
            return false;
        }
        if self.values.len() != other.values.len() {
            assert(self@.values.len() != other@.values.len());
            return false;
        }
        let mut i: usize = 0;
        while i < self.values.len()
            invariant
                i <= self.values.len(),
                self.values.len() == other.values.len(),
                forall|j: int| 0 <= j < i ==> (#[trigger] self.values[j])@ == other.values[j]@,
            decreases self.values.len() - i,
        {
            if !self.values[i].same(&other.values[i]) {
                assert(self@.values[i as int] != other@.values[i as int]);
                return false;
            }
            i += 1;
        }
        assert(self@.values =~= other@.values);
        true
    }

    /// A copy of the properties.
    pub fn duplicate(&self) -> (p: Props)
        ensures
            p@ == self@,
    {
        let mut values: Vec<PropValue> = Vec::new();
        let mut i: usize = 0;
        while i < self.values.len()
            invariant
                i <= self.values.len(),
                values.len() == i,
                forall|j: int| 0 <= j < i ==> (#[trigger] values[j])@ == self.values[j]@,
            decreases self.values.len() - i,
        {
            values.push(self.values[i].duplicate());
            i += 1;
        }
        let p = Props { styles: self.styles, values, on_event: self.on_event };
        assert(p@.values =~= self@.values);
        p
    }
}

/// Whether two optional handlers are the same handler.
pub fn same_handler(a: &Option<OnEvent>, b: &Option<OnEvent>) -> (r: bool)
    ensures
        r == (*a == *b),
{
    match (a, b) {
        (None, None) => true,
        (Some(x), Some(y)) => x.on == y.on && x.binding == y.binding && same_target(
            &x.value,
            &y.value,
        ),
        _ => false,
    }
}

/// Whether two optional identifiers are the same.
pub fn same_target(a: &Option<Index>, b: &Option<Index>) -> (r: bool)
    ensures
        r == (*a == *b),
{
    match (a, b) {
        (None, None) => true,
        (Some(x), Some(y)) => *x == *y,
        _ => false,
    }
}

/// A widget as it is declared: its kind, its debug name and its properties.
#[derive(Clone, Debug, PartialEq, Eq)]
pub struct WidgetData {
    pub tag: TypeTag,
    pub name: String,
    pub props: Props,
}

/// The mathematical value of a [`WidgetData`].
pub struct WidgetView {
    pub tag: TypeTag,
    pub name: Seq<char>,
    pub props: PropsView,
}

impl View for WidgetData {
    type V = WidgetView;

    open spec fn view(&self) -> WidgetView {
        WidgetView { tag: self.tag, name: self.name@, props: self.props@ }
    }
}

impl WidgetData {
    /// A widget of the given kind, name and properties.
    pub fn new(tag: TypeTag, name: String, props: Props) -> (w: WidgetData)
        ensures
            w@ == (WidgetView { tag, name: name@, props: props@ }),
    {
        WidgetData { tag, name, props }
    }

    /// The same widget with the handler `handler`.
    pub fn with_handler(self, handler: OnEvent) -> (w: WidgetData)
        ensures
            w@ == (WidgetView {
                props: PropsView { on_event: Some(handler), ..self@.props },
                ..self@
            }),
    {
        let props = Props {
            styles: self.props.styles,
            values: self.props.values,
            on_event: Some(handler),
        };
        WidgetData { tag: self.tag, name: self.name, props }
    }

    /// A copy of the widget.
    pub fn duplicate(&self) -> (w: WidgetData)
        ensures
            w@ == self@,
    {
        WidgetData { tag: self.tag, name: self.name.clone(), props: self.props.duplicate() }
    }
}

} // verus!
