//! The widgets that a gui is built of, and the node that holds each of them in the tree.
use vstd::prelude::*;
use indexmap::IndexMap;
use crate::Id;
use crate::event::{Capture, WidgetEvent};
use crate::collections::{option_entries, no_options, options_new};

verus! {

/// The root of the widget tree. Captures nothing.
#[derive(Debug)]
pub struct Root;

/// A widget without behaviour of its own, which lays out its children.
#[derive(Debug)]
pub struct Container;

impl Container {
    pub fn new() -> (r: Container) {
        Container
    }
}

/// A button: one `TextField` child showing its text. Captures the mouse.
#[derive(Debug)]
pub struct Button {}

impl Button {
    pub fn new() -> (r: Button) {
        Button {}
    }
}

/// A button that is either on or off, and flips each time it is pressed.
#[derive(Debug)]
pub struct ToggleButton {
    pub state: bool,
}

impl ToggleButton {
    /// A toggle button that is off.
    pub fn new() -> (r: ToggleButton)
        ensures
            !r.state,
    {
        ToggleButton { state: false }
    }

    /// Flip the state on `Release`; returns whether the state changed.
    pub fn handle_event(&mut self, event: WidgetEvent) -> (changed: bool)
        ensures
            changed == (event == WidgetEvent::Release),
            final(self).state == (if changed { !old(self).state } else { old(self).state }),
    {
        if let WidgetEvent::Release = event {
            self.state = !self.state;
            true
        } else {
            false
        }
    }
}

/// A piece of text.
#[derive(Debug)]
pub struct TextField {
    pub text: String,
}

impl TextField {
    pub fn new(text: String) -> (r: TextField)
        ensures
            r.text@ == text@,
    {
        TextField { text }
    }
}

/// One choice of a `Select`: what it shows, and the value it stands for (none for the choice
/// that clears the value).
#[derive(Debug)]
pub struct SelectOption {
    pub name: String,
    pub value: Option<String>,
}

/// A drop-down list: a main toggle button that opens and closes a list of option buttons.
#[derive(Debug)]
pub struct Select {
    // configuration
    pub options: Vec<SelectOption>,
    // runtime state
    pub value: Option<String>,
    /// map from ID of option button to option index.
    pub opt_map: IndexMap<Id, usize>,
    pub main_button_id: usize,
}

/// The value that an `Option<String>` holds, by its characters.
pub open spec fn opt_str(o: Option<String>) -> Option<Seq<char>> {
    match o {
        Some(s) => Some(s@),
        None => None,
    }
}

impl Select {
    /// The options of this select, in order.
    pub open spec fn spec_options(&self) -> Seq<SelectOption> {
        self.options@
    }

    /// The value this select holds.
    pub open spec fn spec_value(&self) -> Option<Seq<char>> {
        opt_str(self.value)
    }

    /// The open option buttons with the index of the option each stands for, in order.
    pub open spec fn spec_opt_map(&self) -> Seq<(usize, usize)> {
        option_entries(self.opt_map)
    }

    /// The id of the main button.
    pub open spec fn spec_main_button_id(&self) -> usize {
        self.main_button_id
    }

    /// A select with the one option "-", which clears the value; no value, no open list.
    pub fn new() -> (r: Select)
        ensures
            r.spec_options().len() == 1,
            r.spec_options()[0].name@ == "-"@,
            r.spec_options()[0].value is None,
            r.spec_value() is None,
            r.spec_opt_map().len() == 0,
            r.spec_main_button_id() == 0,
    {
        let mut options: Vec<SelectOption> = Vec::new();
        options.push(SelectOption { name: "-".to_owned(), value: None });
        Select { options, value: None, opt_map: options_new(), main_button_id: 0 }
    }

    /// Adds the option `name` that stands for `value`, last.
    pub fn with_option(self, name: String, value: String) -> (r: Select)
        ensures
            r.spec_options().len() == self.spec_options().len() + 1,
            r.spec_options().subrange(0, self.spec_options().len() as int) == self.spec_options(),
            r.spec_options().last().name@ == name@,
            r.spec_options().last().value == Some(value),
            r.spec_value() == self.spec_value(),
            r.spec_opt_map() == self.spec_opt_map(),
            r.spec_main_button_id() == self.spec_main_button_id(),
    {
        let mut s = self;
        s.options.push(SelectOption { name, value: Some(value) });
        assert(s.options@.subrange(0, self.options@.len() as int) =~= self.options@);
        s
    }

    /// The same as `with_option`.
    pub fn option(self, name: String, value: String) -> (r: Select)
        ensures
            r.spec_options() == self.spec_options().push(SelectOption { name, value: Some(value) }),
            r.spec_value() == self.spec_value(),
            r.spec_opt_map() == self.spec_opt_map(),
            r.spec_main_button_id() == self.spec_main_button_id(),
    {
        let mut s = self;
        s.options.push(SelectOption { name, value: Some(value) });
        s
    }

    /// The id of the main (toggle) button.
    pub fn main_button_id(&self) -> (r: Id)
        ensures
            r == self.spec_main_button_id(),
    {
        self.main_button_id
    }

    /// The option button of the open list that stands for the option holding the select's
    /// value (the first such option), if the list shows it. Some option must hold the value.
    /// (`value` is not looked at.)
    pub fn get_widget_for_option(&self, value: &str) -> (r: Option<Id>)
        requires
            option_index_from(self.spec_options(), self.spec_value(), 0) is Some,
        ensures
            r == key_of_index_from(self.spec_opt_map(), option_index_from(self.spec_options(), self.spec_value(), 0).unwrap(), 0),
    {
        let mut i: usize = 0;
        while i < self.options.len() && !crate::lens::opt_string_eq(&self.options[i].value, &self.value)
            invariant
                i <= self.options@.len(),
                option_index_from(self.spec_options(), self.spec_value(), 0) == option_index_from(self.spec_options(), self.spec_value(), i as int),
                option_index_from(self.spec_options(), self.spec_value(), 0) is Some,
            decreases self.options@.len() - i,
        {
            i += 1;
        }
        let target = i;
        assert(option_index_from(self.spec_options(), self.spec_value(), 0) == Some(target));
        let n = crate::collections::options_len(&self.opt_map);
        let mut j: usize = 0;
        while j < n
            invariant
                n == self.spec_opt_map().len(),
                j <= n,
                option_index_from(self.spec_options(), self.spec_value(), 0) == Some(target),
                key_of_index_from(self.spec_opt_map(), target, 0) == key_of_index_from(self.spec_opt_map(), target, j as int),
            decreases n - j,
        {
            let (id, idx) = crate::collections::options_get_index(&self.opt_map, j);
            if idx == target {
                return Some(id);
            }
            j += 1;
        }
        None
    }
}

/// The index of the first option of `options`, from the `i`-th on, that holds the value `v`.
pub open spec fn option_index_from(options: Seq<SelectOption>, v: Option<Seq<char>>, i: int) -> Option<usize>
    decreases options.len() - i,
{
    if 0 <= i < options.len() {
        if opt_str(options[i].value) == v {
            Some(i as usize)
        } else {
            option_index_from(options, v, i + 1)
        }
    } else {
        None
    }
}

/// The key of the first entry of `s`, from the `j`-th on, whose value is `idx`.
pub open spec fn key_of_index_from(s: Seq<(usize, usize)>, idx: usize, j: int) -> Option<usize>
    decreases s.len() - j,
{
    if 0 <= j < s.len() {
        if s[j].1 == idx {
            Some(s[j].0)
        } else {
            key_of_index_from(s, idx, j + 1)
        }
    } else {
        None
    }
}

/// One choice of a `DropdownButton`.
#[derive(Debug)]
pub struct DropdownOption {
    pub name: String,
    pub value: String,
}

/// A drop-down list: a main toggle button that opens and closes a list of buttons, one for
/// each option.
#[derive(Debug)]
pub struct DropdownButton {
    pub options: Vec<DropdownOption>,
    pub value: Option<String>,
    /// map from ID to option index
    pub opt_map: IndexMap<Id, usize>,
    pub main_button_id: usize,
}

impl DropdownButton {
    /// The options of this dropdown button, in order.
    pub open spec fn spec_options(&self) -> Seq<DropdownOption> {
        self.options@
    }

    /// The value this dropdown holds.
    pub open spec fn spec_value(&self) -> Option<Seq<char>> {
        opt_str(self.value)
    }

    /// The open option buttons with the index of the option each stands for, in order.
    pub open spec fn spec_opt_map(&self) -> Seq<(usize, usize)> {
        option_entries(self.opt_map)
    }

    /// The id of the main button.
    pub open spec fn spec_main_button_id(&self) -> usize {
        self.main_button_id
    }

    /// A dropdown button without options or value.
    pub fn new() -> (r: DropdownButton)
        ensures
            r.spec_options().len() == 0,
            r.spec_value() is None,
            r.spec_opt_map().len() == 0,
            r.spec_main_button_id() == 0,
    {
        DropdownButton { options: Vec::new(), value: None, opt_map: options_new(), main_button_id: 0 }
    }

    /// Adds the option `name` that stands for `value`, last.
    pub fn option(self, name: String, value: String) -> (r: DropdownButton)
        ensures
            r.spec_options() == self.spec_options().push(DropdownOption { name, value }),
            r.spec_value() == self.spec_value(),
            r.spec_opt_map() == self.spec_opt_map(),
            r.spec_main_button_id() == self.spec_main_button_id(),
    {
        let mut s = self;
        s.options.push(DropdownOption { name, value });
        s
    }
}

/// A group of radio buttons.
#[derive(Debug)]
pub struct Radio {
    pub text: String,
}

impl Radio {
    pub fn new(text: String) -> (r: Radio)
        ensures
            r.text@ == text@,
    {
        Radio { text }
    }
}

/// A button that is switched on by releasing the mouse on it, and stays on.
#[derive(Debug)]
pub struct RadioButton {
    pub text: String,
    pub state: bool,
}

impl RadioButton {
    /// A radio button that is off.
    pub fn new(text: String) -> (r: RadioButton)
        ensures
            r.text@ == text@,
            !r.state,
    {
        RadioButton { text, state: false }
    }

    /// On `Release`, switch on; returns whether the state changed.
    pub fn handle_event(&mut self, event: WidgetEvent) -> (changed: bool)
        ensures
            changed == (event == WidgetEvent::Release && !old(self).state),
            final(self).state == (old(self).state || event == WidgetEvent::Release),
            final(self).text == old(self).text,
    {
        if let WidgetEvent::Release = event {
            if !self.state {
                self.state = true;
                true
            } else {
                false
            }
        } else {
            false
        }
    }
}

/// The widget held by a node of the tree.
#[derive(Debug)]
pub enum WidgetKind {
    Root(Root),
    Container(Container),
    Button(Button),
    ToggleButton(ToggleButton),
    TextField(TextField),
    Select(Select),
    DropdownButton(DropdownButton),
    Radio(Radio),
    RadioButton(RadioButton),
}

impl WidgetKind {
    /// What this widget captures while the mouse is inside it.
    pub open spec fn spec_captures(&self) -> Capture {
        match self {
            WidgetKind::Button(_) | WidgetKind::ToggleButton(_) | WidgetKind::Select(_)
            | WidgetKind::DropdownButton(_) => Capture { mouse: true, keyboard: false },
            _ => Capture { mouse: false, keyboard: false },
        }
    }

    /// Returns information whether this widget will stop mouse events and state
    /// from reaching other parts of the application.
    pub fn captures(&self) -> (r: Capture)
        ensures
            r == self.spec_captures(),
    {
        match self {
            WidgetKind::Button(_) | WidgetKind::ToggleButton(_) | WidgetKind::Select(_)
            | WidgetKind::DropdownButton(_) => Capture { mouse: true, keyboard: false },
            _ => Capture { mouse: false, keyboard: false },
        }
    }
}

/// A widget that can be put into the tree.
pub trait Interactive: Sized {
    /// The node content that `self` becomes.
    spec fn spec_kind(self) -> WidgetKind;

    /// The node content that `self` becomes.
    fn into_kind(self) -> (k: WidgetKind)
        ensures
            k == self.spec_kind(),
    ;
}

impl Interactive for WidgetKind {
    open spec fn spec_kind(self) -> WidgetKind {
        self
    }

    fn into_kind(self) -> (k: WidgetKind) {
        self
    }
}

impl Interactive for Container {
    open spec fn spec_kind(self) -> WidgetKind {
        WidgetKind::Container(self)
    }

    fn into_kind(self) -> (k: WidgetKind) {
        WidgetKind::Container(self)
    }
}

impl Interactive for Button {
    open spec fn spec_kind(self) -> WidgetKind {
        WidgetKind::Button(self)
    }

    fn into_kind(self) -> (k: WidgetKind) {
        WidgetKind::Button(self)
    }
}

impl Interactive for ToggleButton {
    open spec fn spec_kind(self) -> WidgetKind {
        WidgetKind::ToggleButton(self)
    }

    fn into_kind(self) -> (k: WidgetKind) {
        WidgetKind::ToggleButton(self)
    }
}

impl Interactive for TextField {
    open spec fn spec_kind(self) -> WidgetKind {
        WidgetKind::TextField(self)
    }

    fn into_kind(self) -> (k: WidgetKind) {
        WidgetKind::TextField(self)
    }
}

impl Interactive for Select {
    open spec fn spec_kind(self) -> WidgetKind {
        WidgetKind::Select(self)
    }

    fn into_kind(self) -> (k: WidgetKind) {
        WidgetKind::Select(self)
    }
}

impl Interactive for DropdownButton {
    open spec fn spec_kind(self) -> WidgetKind {
        WidgetKind::DropdownButton(self)
    }

    fn into_kind(self) -> (k: WidgetKind) {
        WidgetKind::DropdownButton(self)
    }
}

impl Interactive for Radio {
    open spec fn spec_kind(self) -> WidgetKind {
        WidgetKind::Radio(self)
    }

    fn into_kind(self) -> (k: WidgetKind) {
        WidgetKind::Radio(self)
    }
}

impl Interactive for RadioButton {
    open spec fn spec_kind(self) -> WidgetKind {
        WidgetKind::RadioButton(self)
    }

    fn into_kind(self) -> (k: WidgetKind) {
        WidgetKind::RadioButton(self)
    }
}

/// A node of the widget tree: a widget, the ids of its children in order, and the state of the
/// mouse relative to it.
#[derive(Debug)]
pub struct Widget {
    pub inner: WidgetKind,
    /// Children of this node in the widget tree, in order.
    pub children: Vec<Id>,
    /// Keeps track of hover state in order to generate the right events
    pub inside: bool,
    /// Keeps track of mouse press state in order to generate the right events
    pub pressed: bool,
    /// The id under which this widget is registered in the gui.
    pub id: Id,
}

impl Widget {
    /// The ids of the children, in order.
    pub open spec fn spec_children(&self) -> Seq<Id> {
        self.children@
    }

    /// Whether the mouse was inside this widget at the last update.
    pub open spec fn spec_hover(&self) -> bool {
        self.inside
    }

    /// Whether the mouse was pressed on this widget and not yet released.
    pub open spec fn spec_pressed(&self) -> bool {
        self.pressed
    }

    /// The id of this widget.
    pub open spec fn spec_id(&self) -> Id {
        self.id
    }

    pub fn children(&self) -> (r: &Vec<Id>)
        ensures
            r@ == self.spec_children(),
    {
        &self.children
    }

    pub fn get_id(&self) -> (r: Id)
        ensures
            r == self.spec_id(),
    {
        self.id
    }

    pub fn hover(&self) -> (r: bool)
        ensures
            r == self.spec_hover(),
    {
        self.inside
    }

    pub fn pressed(&self) -> (r: bool)
        ensures
            r == self.spec_pressed(),
    {
        self.pressed
    }
}

} // verus!
