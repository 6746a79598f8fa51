//! What the mouse did during one frame, and how each widget's hover and press state follows it.
use vstd::prelude::*;
use crate::Id;
use crate::event::{Event, EventKind};

verus! {

/// The mouse during one frame: for each widget id, whether the mouse is inside that widget;
/// whether the left button went down during the frame, and whether it went up.
pub struct PointerInput {
    /// `inside[id]`: whether the mouse is inside the widget `id` (ids beyond the end: no).
    pub inside: Vec<bool>,
    /// The left mouse button went down during this frame.
    pub pressed: bool,
    /// The left mouse button went up during this frame.
    pub released: bool,
}

impl PointerInput {
    /// Whether the mouse is inside the widget `id`.
    pub open spec fn spec_inside(&self, id: Id) -> bool {
        id < self.inside@.len() && self.inside@[id as int]
    }

    /// Whether the mouse is inside the widget `id`.
    pub fn is_inside(&self, id: Id) -> (r: bool)
        ensures
            r == self.spec_inside(id),
    {
        id < self.inside.len() && self.inside[id]
    }
}

/// Whether a widget is pressed after a frame in which it was `pressed` before, the mouse is
/// `now_inside` it, and the button went `down` and/or `up`.
pub open spec fn pressed_after(pressed: bool, now_inside: bool, down: bool, up: bool) -> bool {
    (pressed || (now_inside && down)) && !up
}

/// The events of widget `id` in a frame in which the mouse was `prev_inside` it before and is
/// `now_inside` it now, it was `pressed` before, and the button went `down` and/or `up`:
/// `Hover` when the mouse enters, `Unhover` when it leaves; `Press` when the button goes down
/// inside; `Release` when the button goes up while pressed.
pub open spec fn pointer_events(id: Id, prev_inside: bool, pressed: bool, now_inside: bool, down: bool, up: bool) -> Seq<Event> {
    let hover = if now_inside && !prev_inside {
        seq![Event { id, kind: EventKind::Hover }]
    } else if prev_inside && !now_inside {
        seq![Event { id, kind: EventKind::Unhover }]
    } else {
        Seq::empty()
    };
    let press = if now_inside && down {
        seq![Event { id, kind: EventKind::Press }]
    } else {
        Seq::empty()
    };
    let release = if (pressed || (now_inside && down)) && up {
        seq![Event { id, kind: EventKind::Release }]
    } else {
        Seq::empty()
    };
    hover + press + release
}

/// While the mouse stays where it was and the button is not touched, no events come.
pub proof fn law_quiet_frame_reports_nothing(id: Id, inside: bool, pressed: bool)
    ensures
        pointer_events(id, inside, pressed, inside, false, false) == Seq::<Event>::empty(),
        pressed_after(pressed, inside, false, false) == pressed,
{
    assert(pointer_events(id, inside, pressed, inside, false, false) =~= Seq::<Event>::empty());
}

/// A press inside is followed, when the button goes up, by exactly one release.
pub proof fn law_press_then_release(id: Id, prev_inside: bool, pressed: bool)
    ensures
        pressed_after(pressed, true, true, false),
        pointer_events(id, true, true, true, false, true) == seq![Event { id, kind: EventKind::Release }],
        !pressed_after(true, true, false, true),
{
    assert(pointer_events(id, true, true, true, false, true) =~= seq![Event { id, kind: EventKind::Release }]);
}

/// A pressed widget is released in every frame in which the button goes up, wherever the mouse
/// is: the last event is its `Release`, and it is no longer pressed.
pub proof fn law_release_wherever_the_mouse_is(id: Id, prev_inside: bool, now_inside: bool, down: bool)
    ensures
        !pressed_after(true, now_inside, down, true),
        pointer_events(id, prev_inside, true, now_inside, down, true).last() == (Event { id, kind: EventKind::Release }),
{
}

} // verus!
