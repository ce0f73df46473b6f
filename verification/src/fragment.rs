//! The fragment: a widget that shows nothing but its children.

use vstd::prelude::*;
use crate::context::{reconciled, refused, KayakContext};
use crate::diff::declared;
use crate::event::{Event, OnEvent};
use crate::index::Index;
use crate::merge::MergeOutcome;
use crate::shape::NodeView;
use crate::styles::{same_styles, Style};
use crate::tree::{TreeError, WidgetTree};
use crate::widget::Widget;

verus! {

/// The children that a widget declares: a scratch tree whose root stands for
/// the widget and whose nodes below the root are the declarations. `None`
/// once the declarations were rendered.
pub type Children = Option<WidgetTree>;

/// A widget that shows nothing but its children.
///
/// Two fragments are equal when they have the same identifier and the same
/// style override, whatever they declare and whatever handler they have.
pub struct Fragment {
    pub id: Index,
    pub styles: Option<Style>,
    pub children: Children,
    pub on_event: Option<OnEvent>,
}

/// The nodes of the scratch tree that `children` holds; none where it holds
/// no tree.
pub open spec fn scratch_of(children: Children) -> Map<Index, NodeView> {
    match children {
        Some(tree) => tree@,
        None => Map::empty(),
    }
}

/// The declarations that `children` holds; none where it holds no tree.
pub open spec fn declared_by(children: Children) -> Seq<Index> {
    match children {
        Some(tree) => declared(&tree),
        None => Seq::empty(),
    }
}

impl PartialEq for Fragment {
    fn eq(&self, other: &Fragment) -> (r: bool) {
        self.id == other.id && same_styles(&self.styles, &other.styles)
    }
}

impl vstd::std_specs::cmp::PartialEqSpecImpl for Fragment {
    open spec fn obeys_eq_spec() -> bool {
        true
    }

    open spec fn eq_spec(&self, other: &Fragment) -> bool {
        self.id == other.id && self.styles == other.styles
    }
}

impl Widget for Fragment {
    open spec fn spec_id(&self) -> Index {
        self.id
    }

    open spec fn valid(&self) -> bool {
        self.children matches Some(tree) ==> tree.wf()
    }

    fn get_id(&self) -> (id: Index) {
        self.id
    }

    fn set_id(&mut self, id: Index)
        ensures
            final(self).styles == old(self).styles,
            final(self).children == old(self).children,
            final(self).on_event == old(self).on_event,
    {
        self.id = id;
    }

    fn get_styles(&self) -> (styles: Option<Style>)
        ensures
            styles == self.styles,
    {
        self.styles
    }

    fn get_name(&self) -> (name: String)
        ensures
            name@ == "Fragment"@,
    {
        String::from_str("Fragment")
    }

    fn on_event(&mut self, context: &mut KayakContext, event: &mut Event)
        ensures
            *final(self) == *old(self),
            *final(context) == *old(context),
            *final(event) == *old(event),
    {
    }

    fn render(&mut self, context: &mut KayakContext) -> (r: Result<MergeOutcome, TreeError>)
        ensures
            final(self).id == old(self).id,
            final(self).styles == old(self).styles,
            final(self).on_event == old(self).on_event,
            final(self).children is None,
            final(context).clicked() == old(context).clicked(),
            final(context).live_tree().root_node() == old(context).live_tree().root_node(),
            match r {
                Ok(outcome) => reconciled(
                    old(context),
                    final(context),
                    old(self).id,
                    scratch_of(old(self).children),
                    declared_by(old(self).children),
                    &outcome,
                ),
                Err(e) => refused(old(context), final(context), old(self).id, e),
            },
            r is Ok <==> old(context).live_tree()@.contains_key(old(self).id),
    {
        let tree = match self.children.take() {
            Some(children) => children,
            None => WidgetTree::new(),
        };
        context.reconcile(self.get_id(), &tree)
    }
}

} // verus!
