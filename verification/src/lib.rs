//! The core of a small widget toolkit: a tree of widgets over an
//! application state of any type, laid out in two passes and driven by
//! pointer events.
//!
//! Lengths and positions are whole layout units. A host that measures in
//! fractions picks a unit fine enough for it, a pixel or a part of one,
//! and converts at its edge.
//!
//! - [`layout`]: sizing constraints and rectangles.
//! - [`arrange`]: the division of a length among the children of a list.
//! - [`state`]: how a widget reaches the piece of state it shows or edits.
//! - [`event`]: reactions to events and the widgets that take them.
//! - [`draw`], [`canvas`]: colours and the list of primitives to draw.
//! - [`widget`]: what every widget can do, and the widgets that come with
//!   the toolkit.
//! - [`element`]: one widget of any type with what it remembers of the
//!   last layout.
//! - [`host`]: what a host loop decides from one frame to the next.

use vstd::prelude::*;

pub mod arrange;
pub mod canvas;
pub mod draw;
pub mod element;
pub mod event;
pub mod host;
pub mod layout;
pub mod state;
pub mod widget;

pub use self::element::Element;
pub use self::state::State;
pub use self::widget::{Build, StateWidget, Widget};

verus! {

/// Accumulates what one dispatch asks of the host.
#[derive(Debug)]
pub struct Response {
    redraw: bool,
}

impl Response {
    /// Whether a redraw has been requested.
    pub closed spec fn wants_redraw(&self) -> bool {
        self.redraw
    }

    /// A response that asks for nothing yet.
    pub fn new() -> (r: Self)
        ensures
            !r.wants_redraw(),
    {
        Response { redraw: false }
    }

    /// Requests a redraw.
    pub fn redraw(&mut self)
        ensures
            final(self).wants_redraw(),
    {
        self.redraw = true;
    }

    /// Whether a redraw has been requested.
    pub fn needs_redraw(&self) -> (b: bool)
        ensures
            b == self.wants_redraw(),
    {
        self.redraw
    }
}

#[derive(Clone, Copy, Debug, PartialEq, Eq, Structural)]
pub enum MouseButton {
    Left,
    Middle,
    Right,
}

/// An input event, with the pointer position in absolute layout units.
#[derive(Clone, Copy, Debug)]
pub enum Event {
    CursorMove([i64; 2]),
    Click([i64; 2], MouseButton),
}

impl Event {
    /// Whether this is a click.
    pub open spec fn is_click(self) -> bool {
        self is Click
    }

    /// The horizontal pointer position.
    pub open spec fn x(self) -> int {
        match self {
            Event::CursorMove(p) => p[0] as int,
            Event::Click(p, _) => p[0] as int,
        }
    }

    /// The vertical pointer position.
    pub open spec fn y(self) -> int {
        match self {
            Event::CursorMove(p) => p[1] as int,
            Event::Click(p, _) => p[1] as int,
        }
    }
}

} // verus!
