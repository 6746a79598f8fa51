//! Events that the gui reports, and the fields that `Change` events refer to.
use vstd::prelude::*;
use crate::Id;
use crate::lens::LeafLens;

verus! {

/// The fields of widgets that lenses can reach, and that `Change` events name.
#[derive(Copy, Clone, Debug, PartialEq, Eq, Structural)]
pub enum Field {
    /// `Widget::id`
    WidgetId,
    /// `Widget::pos`
    WidgetPos,
    /// `Widget::size`
    WidgetSize,
    /// `ToggleButton::state`
    ToggleButtonState,
    /// `TextField::text`
    TextFieldText,
    /// `Select::value`
    SelectValue,
    /// `RadioButton::state`
    RadioButtonState,
}

impl Field {
    /// A description of the field, such as `TextField::text`.
    pub open spec fn name(self) -> Seq<char> {
        match self {
            Field::WidgetId => "Widget::id"@,
            Field::WidgetPos => "Widget::pos"@,
            Field::WidgetSize => "Widget::size"@,
            Field::ToggleButtonState => "ToggleButton::state"@,
            Field::TextFieldText => "TextField::text"@,
            Field::SelectValue => "Select::value"@,
            Field::RadioButtonState => "RadioButton::state"@,
        }
    }

    /// A description of the field, such as `TextField::text`.
    pub fn name_string(&self) -> (r: String)
        ensures
            r@ == self.name(),
    {
        match self {
            Field::WidgetId => "Widget::id".to_owned(),
            Field::WidgetPos => "Widget::pos".to_owned(),
            Field::WidgetSize => "Widget::size".to_owned(),
            Field::ToggleButtonState => "ToggleButton::state".to_owned(),
            Field::TextFieldText => "TextField::text".to_owned(),
            Field::SelectValue => "Select::value".to_owned(),
            Field::RadioButtonState => "RadioButton::state".to_owned(),
        }
    }
}

/// Identifies the field that a leaf lens gives access to.
#[derive(Copy, Clone, Debug, PartialEq, Eq, Structural)]
pub struct FieldId(pub Field);

impl FieldId {
    /// Construct the FieldId of the field that `t` accesses.
    pub fn of<T: LeafLens>(t: T) -> (r: FieldId)
        ensures
            r.0 == t.spec_field(),
    {
        FieldId(t.field())
    }

    /// Whether `self` is the field that `t` accesses.
    pub fn is<T: LeafLens>(&self, t: T) -> (r: bool)
        ensures
            r == (self.0 == t.spec_field()),
    {
        self.0 == t.field()
    }

    /// Whether `self` is `Widget::pos`.
    pub fn is_pos(&self) -> (r: bool)
        ensures
            r == (self.0 == Field::WidgetPos),
    {
        self.0 == Field::WidgetPos
    }

    /// Whether `self` is `Widget::size`.
    pub fn is_size(&self) -> (r: bool)
        ensures
            r == (self.0 == Field::WidgetSize),
    {
        self.0 == Field::WidgetSize
    }
}

/// What happened to a widget.
#[derive(Copy, Clone, Debug, PartialEq, Eq, Structural)]
pub enum EventKind {
    Press,
    Release,
    Hover,
    Unhover,
    /// Change to any field of Widget or of the widget's own state
    Change { field: FieldId },
    New,
    Removed,
}

impl EventKind {
    /// A `Change` of the field that `t` accesses.
    pub fn change<T: LeafLens>(t: T) -> (r: EventKind)
        ensures
            r == (EventKind::Change { field: FieldId(t.spec_field()) }),
    {
        EventKind::Change { field: FieldId::of(t) }
    }

    /// Whether `self` is a `Change` of the field that `t` accesses.
    pub fn is_change<T: LeafLens>(&self, t: T) -> (r: bool)
        ensures
            r == (*self == (EventKind::Change { field: FieldId(t.spec_field()) })),
    {
        if let EventKind::Change { field } = self {
            return field.is(t);
        } else {
            return false;
        }
    }
}

/// Something that happened to the widget `id`.
#[derive(Copy, Clone, Debug, PartialEq, Eq, Structural)]
pub struct Event {
    pub id: Id,
    pub kind: EventKind,
}

impl Event {
    pub fn new(id: Id, kind: EventKind) -> (r: Event)
        ensures
            r == (Event { id, kind }),
    {
        Event { id, kind }
    }

    /// The event that the field that `t` accesses changed in widget `id`.
    pub fn change<T: LeafLens>(id: Id, t: T) -> (r: Event)
        ensures
            r == (Event { id, kind: EventKind::Change { field: FieldId(t.spec_field()) } }),
    {
        Event { id, kind: EventKind::change(t) }
    }
}

/// Whether a widget keeps mouse and keyboard events from reaching other parts of the
/// application.
#[derive(Copy, Clone, Debug, PartialEq, Eq, Structural)]
pub struct Capture {
    pub mouse: bool,
    pub keyboard: bool,
}

impl Capture {
    /// Captures nothing.
    pub fn none() -> (r: Capture)
        ensures
            !r.mouse,
            !r.keyboard,
    {
        Capture { mouse: false, keyboard: false }
    }

    /// The capture of both `a` and `b`.
    pub open spec fn spec_or(a: Capture, b: Capture) -> Capture {
        Capture { mouse: a.mouse || b.mouse, keyboard: a.keyboard || b.keyboard }
    }
}

impl Default for Capture {
    /// Captures nothing.
    fn default() -> (r: Capture)
        ensures
            !r.mouse,
            !r.keyboard,
    {
        Capture { mouse: false, keyboard: false }
    }
}

impl std::ops::BitOrAssign for Capture {
    /// Capture what `self` or `rhs` captures.
    fn bitor_assign(&mut self, rhs: Self)
        ensures
            *final(self) == Capture::spec_or(*old(self), rhs),
    {
        self.mouse = self.mouse || rhs.mouse;
        self.keyboard = self.keyboard || rhs.keyboard;
    }
}

/// The kinds of events that `RadioButton::handle_event` and `ToggleButton::handle_event` react
/// to.
#[derive(Copy, Clone, Debug, PartialEq, Eq, Structural)]
pub enum WidgetEvent {
    Press,
    Release,
    Hover,
    Unhover,
    ChangePos,
    ChangeSize,
    /// Change to any internal state.
    /// Also issued upon first discovery of widget.
    Change,
    Removed,
}


/// Whether some entry of `events` (a widget's name with a widget event) is the event `target`.
pub fn event_exists(events: &Vec<(String, WidgetEvent)>, target: WidgetEvent) -> (r: bool)
    ensures
        r == exists|i: int| 0 <= i < events@.len() && #[trigger] events@[i].1 == target,
{
    let mut i: usize = 0;
    while i < events.len()
        invariant
            i <= events@.len(),
            forall|j: int| 0 <= j < i ==> events@[j].1 != target,
        decreases events@.len() - i,
    {
        if events[i].1 == target {
            return true;
        }
        i += 1;
    }
    false
}

} // verus!
