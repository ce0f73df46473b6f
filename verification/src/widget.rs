//! What every kind of widget can do.

use vstd::prelude::*;
use crate::context::{render_keeps, KayakContext};
use crate::event::Event;
use crate::index::Index;
use crate::merge::MergeOutcome;
use crate::styles::Style;
use crate::tree::TreeError;

verus! {

/// Kind of a fragment: a widget that shows nothing but its children.
pub const TAG_FRAGMENT: u64 = 1;

/// Kind of a background: a filled box around its children.
pub const TAG_BACKGROUND: u64 = 2;

/// Kind of a text: one run of characters.
pub const TAG_TEXT: u64 = 3;

/// Kind of a button.
pub const TAG_BUTTON: u64 = 4;

/// Kind of an inspector: a panel that describes the widget clicked last.
pub const TAG_INSPECTOR: u64 = 5;

/// The capabilities that every kind of widget has.
pub trait Widget {
    /// The identifier of the widget in the live tree.
    spec fn spec_id(&self) -> Index;

    /// The invariant of the widget.
    spec fn valid(&self) -> bool;

    /// The identifier of the widget in the live tree.
    fn get_id(&self) -> (id: Index)
        ensures
            id == self.spec_id(),
    ;

    /// Gives the widget its identifier; the tree does so when it takes the
    /// widget in.
    fn set_id(&mut self, id: Index)
        requires
            old(self).valid(),
        ensures
            final(self).valid(),
            final(self).spec_id() == id,
    ;

    /// The style override of the widget, if it has one.
    fn get_styles(&self) -> (styles: Option<Style>)
    ;

    /// The debug name of the widget.
    fn get_name(&self) -> (name: String)
    ;

    /// Lets the widget react to an event. The live tree stays as it is.
    fn on_event(&mut self, context: &mut KayakContext, event: &mut Event)
        requires
            old(self).valid(),
            old(context).wf(),
        ensures
            final(self).valid(),
            final(self).spec_id() == old(self).spec_id(),
            final(context).wf(),
            final(context).live_tree()@ == old(context).live_tree()@,
    ;

    /// Renders the widget: brings the children that it has in the live tree
    /// in line with the children that it declares, and reports what that
    /// changed. A render hands out no widget and starts no pass; what it
    /// asks to render waits behind the widgets that wait already. The
    /// widget that renders stays a node of the live tree, and no widget
    /// that is dirty ceases to be.
    fn render(&mut self, context: &mut KayakContext) -> (r: Result<MergeOutcome, TreeError>)
        requires
            old(self).valid(),
            old(context).wf(),
        ensures
            final(self).valid(),
            final(self).spec_id() == old(self).spec_id(),
            final(context).wf(),
            render_keeps(old(context), final(context)),
            old(context).live_tree()@.contains_key(old(self).spec_id()) ==>
                final(context).live_tree()@.contains_key(old(self).spec_id()),
    ;
}

} // verus!
