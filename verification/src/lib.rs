//! Reconciliation core of a retained-mode widget framework.
//!
//! Application code declares a tree of widgets. The core keeps a live mirror
//! of that tree in an arena, compares each freshly declared child list with
//! the materialized one, and applies the resulting edits in place, so that
//! widgets that did not change keep their identity. Reactive bindings record
//! which widgets read which values and mark them for the next render pass.

pub mod index;
pub mod idset;
pub mod styles;
pub mod text;
pub mod binding;
pub mod event;
pub mod props;
pub mod shape;
pub mod tree;
pub mod diff;
pub mod merge;
pub mod converge;
pub mod schedule;
pub mod context;
pub mod widget;
pub mod fragment;
pub mod pass;
pub mod inspector;
