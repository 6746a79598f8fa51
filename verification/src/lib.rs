//! # Gui
//!
//! A retained-mode widget tree: widgets are identified by [`Id`], form a tree under a root widget,
//! report user interaction and changes through [`Event`]s, and are read and changed through
//! lenses that announce every change as an event.
use vstd::prelude::*;

pub mod collections;
pub mod event;
pub mod gui;
pub mod laws;
pub mod lens;
pub mod placement;
pub mod pointer;
pub mod widget;


verus! {

/// Identifies a widget in a [`gui::Gui`].
pub type Id = usize;

/// The id of the root widget of every `Gui`.
pub const ROOT: usize = 1;

} // verus!
