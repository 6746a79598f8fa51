//! Lenses: ways to reach a widget in the tree, and fields of a widget, such that every change
//! made through a lens is announced by a `Change` event.
//!
//! Usage starts with [`LensRoot`] (see [`Gui::access`]); lenses are chained with
//! [`LensDriver::chain`]: navigation lenses ([`Lens`]) move to another widget, and a field lens
//! ([`FieldLens`]) ends the chain with `get` and `put`.
use vstd::prelude::*;
use crate::{Id, ROOT};
use crate::event::Field;
use crate::gui::{Gui, AsId};
use crate::widget::{Widget, WidgetKind, opt_str};

verus! {

/// A lens that accesses a certain field on a widget. It names the field it accesses.
pub trait LeafLens: Sized + Copy {
    /// The field this lens accesses.
    spec fn spec_field(&self) -> Field;

    /// The field this lens accesses.
    fn field(&self) -> (r: Field)
        ensures
            r == self.spec_field(),
    ;

    /// A copy of this lens.
    fn field_lens(&self) -> (r: Self)
        ensures
            r == *self,
            r.spec_field() == self.spec_field(),
    ;

    /// A description of the field this lens accesses, such as `TextField::text`.
    fn target(&self) -> (r: String)
        ensures
            r@ == self.spec_field().name(),
    {
        self.field().name_string()
    }
}

/// A lens that reads (and, where writable, sets) a field of a widget.
pub trait FieldLens: LeafLens {
    type Target: DeepView;

    /// The value of the field in `w`, if `w` has the field.
    spec fn spec_read(&self, w: Widget) -> Option<<Self::Target as DeepView>::V>;

    /// The field of `w`, which must have it.
    fn read<'a>(&self, w: &'a Widget) -> (r: &'a Self::Target)
        requires
            self.spec_read(*w) is Some,
        ensures
            self.spec_read(*w) == Some(r.deep_view()),
    ;
}

/// A lens that reads and sets a field of a widget.
pub trait WritableLens: FieldLens {
    /// `after` is `before` with the field set to `v`, and nothing else changed.
    spec fn spec_written(&self, before: Widget, after: Widget, v: <Self::Target as DeepView>::V) -> bool;

    /// Sets the field of `w` to `v`, where it holds another value; returns whether it did.
    fn write(&self, w: &mut Widget, v: Self::Target) -> (changed: bool)
        requires
            self.spec_read(*old(w)) is Some,
        ensures
            changed == (self.spec_read(*old(w)) != Some(v.deep_view())),
            changed ==> self.spec_written(*old(w), *final(w), v.deep_view()),
            !changed ==> *final(w) == *old(w),
            self.spec_read(*final(w)) == Some(v.deep_view()),
            final(w).children == old(w).children,
            final(w).id == old(w).id,
            final(w).inside == old(w).inside,
            final(w).pressed == old(w).pressed,
            (final(w).inner is Root) == (old(w).inner is Root),
            final(w).inner.spec_captures() == old(w).inner.spec_captures(),
    ;

    /// Setting a field keeps whether a widget is a select, and which main button a select has.
    proof fn lemma_written_keeps_main(&self, before: Widget, after: Widget, v: <Self::Target as DeepView>::V)
        requires
            self.spec_read(before) is Some,
            self.spec_written(before, after, v),
        ensures
            select_main(after.inner) == select_main(before.inner),
    ;
}

/// The main button of a select; `None` for a widget that is no select.
pub open spec fn select_main(k: WidgetKind) -> Option<Id> {
    match k {
        WidgetKind::Select(s) => Some(s.main_button_id),
        _ => None,
    }
}

/// `Widget::id`: the id of a widget. It can be read, not set: a widget's id is the one under
/// which the gui registered it.
#[derive(Clone, Copy)]
pub struct IdLens;

impl LeafLens for IdLens {
    open spec fn spec_field(&self) -> Field {
        Field::WidgetId
    }

    fn field(&self) -> (r: Field) {
        Field::WidgetId
    }

    fn field_lens(&self) -> (r: Self) {
        IdLens
    }
}

impl FieldLens for IdLens {
    type Target = usize;

    open spec fn spec_read(&self, w: Widget) -> Option<usize> {
        Some(w.id)
    }

    fn read<'a>(&self, w: &'a Widget) -> (r: &'a usize) {
        &w.id
    }
}

/// `Widget::pos`: the position of a widget, which the layout decides.
#[derive(Clone, Copy)]
pub struct PosLens;

impl LeafLens for PosLens {
    open spec fn spec_field(&self) -> Field {
        Field::WidgetPos
    }

    fn field(&self) -> (r: Field) {
        Field::WidgetPos
    }

    fn field_lens(&self) -> (r: Self) {
        PosLens
    }
}

/// `Widget::size`: the size of a widget, which the layout decides.
#[derive(Clone, Copy)]
pub struct SizeLens;

impl LeafLens for SizeLens {
    open spec fn spec_field(&self) -> Field {
        Field::WidgetSize
    }

    fn field(&self) -> (r: Field) {
        Field::WidgetSize
    }

    fn field_lens(&self) -> (r: Self) {
        SizeLens
    }
}

/// `ToggleButton::state`.
#[derive(Clone, Copy)]
pub struct ToggleButtonStateLens;

impl LeafLens for ToggleButtonStateLens {
    open spec fn spec_field(&self) -> Field {
        Field::ToggleButtonState
    }

    fn field(&self) -> (r: Field) {
        Field::ToggleButtonState
    }

    fn field_lens(&self) -> (r: Self) {
        ToggleButtonStateLens
    }
}

impl FieldLens for ToggleButtonStateLens {
    type Target = bool;

    open spec fn spec_read(&self, w: Widget) -> Option<bool> {
        match w.inner {
            WidgetKind::ToggleButton(t) => Some(t.state),
            _ => None,
        }
    }

    fn read<'a>(&self, w: &'a Widget) -> (r: &'a bool) {
        match &w.inner {
            WidgetKind::ToggleButton(t) => &t.state,
            _ => {
                proof {
                    assert(false);
                }
                &w.pressed
            },
        }
    }
}

impl WritableLens for ToggleButtonStateLens {
    proof fn lemma_written_keeps_main(&self, before: Widget, after: Widget, v: <Self::Target as DeepView>::V) {
    }

    open spec fn spec_written(&self, before: Widget, after: Widget, v: bool) -> bool {
        after == Widget { inner: WidgetKind::ToggleButton(crate::widget::ToggleButton { state: v }), ..before }
    }

    fn write(&self, w: &mut Widget, v: bool) -> (changed: bool) {
        match &mut w.inner {
            WidgetKind::ToggleButton(t) => {
                if t.state != v {
                    t.state = v;
                    true
                } else {
                    false
                }
            },
            _ => false,
        }
    }
}


/// `TextField::text`.
#[derive(Clone, Copy)]
pub struct TextFieldTextLens;

impl LeafLens for TextFieldTextLens {
    open spec fn spec_field(&self) -> Field {
        Field::TextFieldText
    }

    fn field(&self) -> (r: Field) {
        Field::TextFieldText
    }

    fn field_lens(&self) -> (r: Self) {
        TextFieldTextLens
    }
}

impl FieldLens for TextFieldTextLens {
    type Target = String;

    open spec fn spec_read(&self, w: Widget) -> Option<Seq<char>> {
        match w.inner {
            WidgetKind::TextField(t) => Some(t.text@),
            _ => None,
        }
    }

    fn read<'a>(&self, w: &'a Widget) -> (r: &'a String) {
        match &w.inner {
            WidgetKind::TextField(t) => &t.text,
            _ => {
                proof {
                    assert(false);
                }
                vstd::pervasive::unreached()
            },
        }
    }
}

impl WritableLens for TextFieldTextLens {
    proof fn lemma_written_keeps_main(&self, before: Widget, after: Widget, v: <Self::Target as DeepView>::V) {
    }

    open spec fn spec_written(&self, before: Widget, after: Widget, v: Seq<char>) -> bool {
        &&& after.inner matches WidgetKind::TextField(t) && t.text@ == v
        &&& after.children == before.children
        &&& after.id == before.id
        &&& after.inside == before.inside
        &&& after.pressed == before.pressed
    }

    fn write(&self, w: &mut Widget, v: String) -> (changed: bool) {
        match &mut w.inner {
            WidgetKind::TextField(t) => {
                if t.text == v {
                    false
                } else {
                    t.text = v;
                    true
                }
            },
            _ => false,
        }
    }
}

/// Whether `a` and `b` hold the same text (or both none).
pub fn opt_string_eq(a: &Option<String>, b: &Option<String>) -> (r: bool)
    ensures
        r == (opt_str(*a) == opt_str(*b)),
{
    match (a, b) {
        (Some(x), Some(y)) => *x == *y,
        (None, None) => true,
        _ => false,
    }
}

/// `Select::value`.
#[derive(Clone, Copy)]
pub struct SelectValueLens;

impl LeafLens for SelectValueLens {
    open spec fn spec_field(&self) -> Field {
        Field::SelectValue
    }

    fn field(&self) -> (r: Field) {
        Field::SelectValue
    }

    fn field_lens(&self) -> (r: Self) {
        SelectValueLens
    }
}

impl FieldLens for SelectValueLens {
    type Target = Option<String>;

    open spec fn spec_read(&self, w: Widget) -> Option<Option<Seq<char>>> {
        match w.inner {
            WidgetKind::Select(s) => Some(opt_str(s.value)),
            _ => None,
        }
    }

    fn read<'a>(&self, w: &'a Widget) -> (r: &'a Option<String>) {
        match &w.inner {
            WidgetKind::Select(s) => &s.value,
            _ => {
                proof {
                    assert(false);
                }
                vstd::pervasive::unreached()
            },
        }
    }
}

impl WritableLens for SelectValueLens {
    proof fn lemma_written_keeps_main(&self, before: Widget, after: Widget, v: <Self::Target as DeepView>::V) {
    }

    open spec fn spec_written(&self, before: Widget, after: Widget, v: Option<Seq<char>>) -> bool {
        &&& before.inner matches WidgetKind::Select(s0)
        &&& after.inner matches WidgetKind::Select(s1)
        &&& opt_str(s1.value) == v
        &&& s1.options == s0.options
        &&& s1.opt_map == s0.opt_map
        &&& s1.main_button_id == s0.main_button_id
        &&& after.children == before.children
        &&& after.id == before.id
        &&& after.inside == before.inside
        &&& after.pressed == before.pressed
    }

    fn write(&self, w: &mut Widget, v: Option<String>) -> (changed: bool) {
        match &mut w.inner {
            WidgetKind::Select(s) => {
                if opt_string_eq(&s.value, &v) {
                    false
                } else {
                    s.value = v;
                    true
                }
            },
            _ => false,
        }
    }
}

/// `RadioButton::state`.
#[derive(Clone, Copy)]
pub struct RadioButtonStateLens;

impl LeafLens for RadioButtonStateLens {
    open spec fn spec_field(&self) -> Field {
        Field::RadioButtonState
    }

    fn field(&self) -> (r: Field) {
        Field::RadioButtonState
    }

    fn field_lens(&self) -> (r: Self) {
        RadioButtonStateLens
    }
}

impl FieldLens for RadioButtonStateLens {
    type Target = bool;

    open spec fn spec_read(&self, w: Widget) -> Option<bool> {
        match w.inner {
            WidgetKind::RadioButton(t) => Some(t.state),
            _ => None,
        }
    }

    fn read<'a>(&self, w: &'a Widget) -> (r: &'a bool) {
        match &w.inner {
            WidgetKind::RadioButton(t) => &t.state,
            _ => {
                proof {
                    assert(false);
                }
                &w.pressed
            },
        }
    }
}

impl WritableLens for RadioButtonStateLens {
    proof fn lemma_written_keeps_main(&self, before: Widget, after: Widget, v: <Self::Target as DeepView>::V) {
    }

    open spec fn spec_written(&self, before: Widget, after: Widget, v: bool) -> bool {
        &&& before.inner matches WidgetKind::RadioButton(r0)
        &&& after.inner matches WidgetKind::RadioButton(r1)
        &&& r1.state == v
        &&& r1.text == r0.text
        &&& after.children == before.children
        &&& after.id == before.id
        &&& after.inside == before.inside
        &&& after.pressed == before.pressed
    }

    fn write(&self, w: &mut Widget, v: bool) -> (changed: bool) {
        match &mut w.inner {
            WidgetKind::RadioButton(t) => {
                if t.state != v {
                    t.state = v;
                    true
                } else {
                    false
                }
            },
            _ => false,
        }
    }
}

#[allow(non_upper_case_globals)]
impl Widget {
    pub const id: IdLens = IdLens;
    pub const pos: PosLens = PosLens;
    pub const size: SizeLens = SizeLens;
}


#[allow(non_upper_case_globals)]
impl crate::widget::ToggleButton {
    /// Lens to the state of a toggle button.
    pub const state: ToggleButtonStateLens = ToggleButtonStateLens;
    /// Lens to the text field of a toggle button.
    pub const text_field: FirstChildLens = FirstChildLens;
}

#[allow(non_upper_case_globals)]
impl crate::widget::Button {
    /// Lens to the text field of a button.
    pub const text_field: FirstChildLens = FirstChildLens;
}

#[allow(non_upper_case_globals)]
impl crate::widget::TextField {
    /// Lens to the text of a text field.
    pub const text: TextFieldTextLens = TextFieldTextLens;
}

#[allow(non_upper_case_globals)]
impl crate::widget::Select {
    /// Lens to the value of a select.
    pub const value: SelectValueLens = SelectValueLens;
    /// Lens to the main button of a select.
    pub const main_button: MainButtonLens = MainButtonLens;
}

#[allow(non_upper_case_globals)]
impl crate::widget::RadioButton {
    /// Lens to the state of a radio button.
    pub const state: RadioButtonStateLens = RadioButtonStateLens;
}

/// A lens from a widget to another widget of the tree.
pub trait Lens: Sized {
    /// The widget this lens reaches from the widget `from` of `gui`, if any.
    spec fn spec_apply(&self, gui: Gui, from: Id) -> Option<Id>;

    fn apply(&self, gui: &Gui, from: Id) -> (r: Option<Id>)
        requires
            gui.wf(),
            gui.live(from),
        ensures
            r == self.spec_apply(*gui, from),
            r is Some ==> gui.live(r.unwrap()),
    ;

    /// What this lens reaches from an existing widget exists.
    proof fn lemma_apply(&self, gui: Gui, from: Id)
        requires
            gui.wf(),
            gui.live(from),
        ensures
            self.spec_apply(gui, from) matches Some(t) ==> gui.live(t),
    ;

    /// Setting a field of a widget through a lens leaves what this lens reaches unchanged.
    proof fn lemma_apply_field_put<L: WritableLens>(&self, new: Gui, old: Gui, id: Id, lens: L, v: <L::Target as DeepView>::V, from: Id)
        requires
            old.wf(),
            old.live(from),
            old.live(id),
            lens.spec_read(old.widget(id)) is Some,
            new.field_put(&old, id, lens, v),
        ensures
            self.spec_apply(new, from) == self.spec_apply(old, from),
    ;
}

/// The first child of a widget.
#[derive(Clone, Copy)]
pub struct FirstChildLens;

impl Lens for FirstChildLens {
    open spec fn spec_apply(&self, gui: Gui, from: Id) -> Option<Id> {
        if gui.children_of(from).len() > 0 {
            Some(gui.children_of(from)[0])
        } else {
            None
        }
    }

    proof fn lemma_apply(&self, gui: Gui, from: Id) {
        gui.lemma_children_live(from);
    }

    proof fn lemma_apply_field_put<L: WritableLens>(&self, new: Gui, old: Gui, id: Id, lens: L, v: <L::Target as DeepView>::V, from: Id) {
        assert(new.children_of(from) == old.children_of(from));
    }

    fn apply(&self, gui: &Gui, from: Id) -> (r: Option<Id>) {
        let w = gui.widget_ref(from);
        if w.children.len() > 0 {
            proof {
                gui.lemma_children_live(from);
            }
            Some(w.children[0])
        } else {
            None
        }
    }
}

/// The child `id` of a widget.
#[derive(Clone, Copy)]
pub struct ChildLens {
    pub id: usize,
}

impl Lens for ChildLens {
    open spec fn spec_apply(&self, gui: Gui, from: Id) -> Option<Id> {
        if gui.children_of(from).contains(self.id) {
            Some(self.id)
        } else {
            None
        }
    }

    proof fn lemma_apply(&self, gui: Gui, from: Id) {
        gui.lemma_children_live(from);
        if gui.children_of(from).contains(self.id) {
            let j = choose|j: int| 0 <= j < gui.children_of(from).len() && gui.children_of(from)[j] == self.id;
            assert(gui.live(gui.children_of(from)[j]));
        }
    }

    proof fn lemma_apply_field_put<L: WritableLens>(&self, new: Gui, old: Gui, id: Id, lens: L, v: <L::Target as DeepView>::V, from: Id) {
        assert(new.children_of(from) == old.children_of(from));
    }

    fn apply(&self, gui: &Gui, from: Id) -> (r: Option<Id>) {
        let w = gui.widget_ref(from);
        let mut i: usize = 0;
        while i < w.children.len()
            invariant
                gui.wf(),
                gui.live(from),
                *w == gui.widget(from),
                i <= w.children@.len(),
                forall|j: int| 0 <= j < i ==> w.children@[j] != self.id,
            decreases w.children@.len() - i,
        {
            if w.children[i] == self.id {
                proof {
                    gui.lemma_children_live(from);
                    assert(gui.children_of(from)[i as int] == self.id);
                }
                return Some(self.id);
            }
            i += 1;
        }
        proof {
            assert(!gui.children_of(from).contains(self.id));
        }
        None
    }
}

/// The main button of a select.
#[derive(Clone, Copy)]
pub struct MainButtonLens;

impl Lens for MainButtonLens {
    open spec fn spec_apply(&self, gui: Gui, from: Id) -> Option<Id> {
        match gui.kind(from) {
            WidgetKind::Select(s) => if gui.children_of(from).contains(s.main_button_id) {
                Some(s.main_button_id)
            } else {
                None
            },
            _ => None,
        }
    }

    proof fn lemma_apply(&self, gui: Gui, from: Id) {
        match gui.kind(from) {
            WidgetKind::Select(s) => {
                ChildLens { id: s.main_button_id }.lemma_apply(gui, from);
            },
            _ => {},
        }
    }

    proof fn lemma_apply_field_put<L: WritableLens>(&self, new: Gui, old: Gui, id: Id, lens: L, v: <L::Target as DeepView>::V, from: Id) {
        assert(new.children_of(from) == old.children_of(from));
        if from == id && lens.spec_read(old.widget(id)) != Some(v) {
            lens.lemma_written_keeps_main(old.widget(id), new.widget(id), v);
        }
        assert(select_main(new.kind(from)) == select_main(old.kind(from)));
    }

    fn apply(&self, gui: &Gui, from: Id) -> (r: Option<Id>) {
        let main = match &gui.widget_ref(from).inner {
            WidgetKind::Select(s) => s.main_button_id,
            _ => {
                return None;
            },
        };
        ChildLens { id: main }.apply(gui, from)
    }
}

impl Widget {
    /// Lens to the first child of a widget.
    #[allow(non_upper_case_globals)]
    pub const first_child: FirstChildLens = FirstChildLens;

    /// Lens to the child `id` of a widget.
    pub fn child(id: usize) -> (r: ChildLens)
        ensures
            r.id == id,
    {
        ChildLens { id }
    }

    /// Lens to the child `id` of a widget.
    pub fn child_lens(id: usize) -> (r: ChildLens)
        ensures
            r.id == id,
    {
        ChildLens { id }
    }
}

/// The text that a widget shows: the text of its first child, which is a text field. Setting
/// it sets that text field's text, so that a `Change` of `TextField::text` of the first child
/// is collected where the text differed.
#[derive(Clone, Copy)]
pub struct DropdownValueLens;

impl DropdownValueLens {
    /// The text that widget `id` of `gui` shows, if its first child is a text field.
    pub open spec fn spec_value(&self, gui: Gui, id: Id) -> Option<Seq<char>> {
        if gui.children_of(id).len() > 0 {
            TextFieldTextLens.spec_read(gui.widget(gui.children_of(id)[0]))
        } else {
            None
        }
    }

    /// The text that widget `id` shows.
    pub fn get<'g>(&self, gui: &'g Gui, id: Id) -> (r: &'g String)
        requires
            gui.wf(),
            gui.live(id),
            self.spec_value(*gui, id) is Some,
        ensures
            self.spec_value(*gui, id) == Some(r@),
    {
        let first = FirstChildLens.apply(gui, id).unwrap();
        TextFieldTextLens.read(gui.widget_ref(first))
    }

    /// Sets the text that widget `id` shows to `value`; returns whether it differed.
    pub fn put(&self, gui: &mut Gui, id: Id, value: String) -> (changed: bool)
        requires
            old(gui).wf(),
            old(gui).live(id),
            self.spec_value(*old(gui), id) is Some,
        ensures
            final(gui).wf(),
            changed == (self.spec_value(*old(gui), id) != Some(value@)),
            final(gui).field_put(old(gui), old(gui).children_of(id)[0], TextFieldTextLens, value@),
            self.spec_value(*final(gui), id) == Some(value@),
    {
        let first = FirstChildLens.apply(gui, id).unwrap();
        let changed = gui.set_field(first, &TextFieldTextLens, value);
        proof {
            FirstChildLens.lemma_apply_field_put(*gui, *old(gui), first, TextFieldTextLens, value@, id);
        }
        changed
    }
}

/// The start or a step of a chain of lenses: it reaches a widget of a gui, and can set its
/// fields.
pub trait LensDriver<'a>: Sized {
    /// The gui that this driver reaches into.
    spec fn spec_gui(&self) -> Gui;

    /// The reference to the gui that was lent to this driver.
    spec fn spec_loan(&self) -> &'a mut Gui;

    /// The widget this driver reaches, if any.
    spec fn spec_target(&self) -> Option<Id>;

    /// The driver's gui is well formed and the widget it reaches (if any) exists.
    spec fn spec_inv(&self) -> bool;

    fn gui(&self) -> (r: &Gui)
        ensures
            *r == self.spec_gui(),
    ;

    /// A driver whose invariant holds reaches into a well formed gui, and reaches an existing
    /// widget, if any.
    proof fn lemma_inv(&self)
        requires
            self.spec_inv(),
        ensures
            self.spec_gui().wf(),
            self.spec_target() matches Some(t) ==> self.spec_gui().live(t),
            *self.spec_loan() == self.spec_gui(),
    ;

    fn target(&self) -> (r: Option<Id>)
        requires
            self.spec_inv(),
        ensures
            r == self.spec_target(),
    ;

    /// Sets the field that `lens` reaches of the widget `id` of the driver's gui to `value`,
    /// as `Gui::set_field` does.
    fn put_at<L: WritableLens>(&mut self, id: Id, lens: &L, value: L::Target) -> (changed: bool)
        requires
            old(self).spec_inv(),
            old(self).spec_gui().live(id),
            lens.spec_read(old(self).spec_gui().widget(id)) is Some,
        ensures
            final(self).spec_gui().wf(),
            final(self).spec_gui().field_put(&old(self).spec_gui(), id, *lens, value.deep_view()),
            changed == (lens.spec_read(old(self).spec_gui().widget(id)) != Some(value.deep_view())),
            final(self).spec_inv(),
            final(self).spec_target() == old(self).spec_target(),
            *final(final(self).spec_loan()) == *final(old(self).spec_loan()),
    ;

    /// Continues the chain with `lens`.
    fn chain<L>(self, lens: L) -> (r: Chain<Self, L>)
        ensures
            r.driver == self,
            r.child_lens == lens,
    {
        Chain { driver: self, child_lens: lens }
    }
}

/// A chain of lenses: a driver followed by one more lens.
pub struct Chain<A, B> {
    pub driver: A,
    pub child_lens: B,
}

/// The starting point of all lenses: a widget of a gui. To start a lens, look to `Gui::access`.
pub struct LensRoot<'a> {
    pub gui: &'a mut Gui,
    pub id: Id,
}

impl<'a> LensRoot<'a> {
    pub fn new(gui: &'a mut Gui, id: Id) -> (r: LensRoot<'a>)
        ensures
            *r.gui == *old(gui),
            *final(r.gui) == *final(gui),
            r.id == id,
    {
        LensRoot { gui, id }
    }
}

impl<'a> LensDriver<'a> for LensRoot<'a> {
    open spec fn spec_gui(&self) -> Gui {
        *self.gui
    }

    open spec fn spec_loan(&self) -> &'a mut Gui {
        self.gui
    }

    open spec fn spec_target(&self) -> Option<Id> {
        Some(self.id)
    }

    open spec fn spec_inv(&self) -> bool {
        self.gui.wf() && self.gui.live(self.id)
    }

    fn gui(&self) -> (r: &Gui) {
        &*self.gui
    }

    proof fn lemma_inv(&self) {
    }

    fn target(&self) -> (r: Option<Id>) {
        Some(self.id)
    }

    fn put_at<L: WritableLens>(&mut self, id: Id, lens: &L, value: L::Target) -> (changed: bool) {
        let changed = self.gui.set_field(id, lens, value);
        proof {
            assert(self.gui.live(self.id));
        }
        changed
    }
}

impl<'a, A: LensDriver<'a>, B: Lens> LensDriver<'a> for Chain<A, B> {
    open spec fn spec_gui(&self) -> Gui {
        self.driver.spec_gui()
    }

    open spec fn spec_loan(&self) -> &'a mut Gui {
        self.driver.spec_loan()
    }

    open spec fn spec_target(&self) -> Option<Id> {
        match self.driver.spec_target() {
            Some(t) => self.child_lens.spec_apply(self.driver.spec_gui(), t),
            None => None,
        }
    }

    open spec fn spec_inv(&self) -> bool {
        self.driver.spec_inv()
    }

    fn gui(&self) -> (r: &Gui) {
        self.driver.gui()
    }

    proof fn lemma_inv(&self) {
        self.driver.lemma_inv();
        if let Some(t) = self.driver.spec_target() {
            self.child_lens.lemma_apply(self.driver.spec_gui(), t);
        }
    }

    fn target(&self) -> (r: Option<Id>) {
        proof {
            self.driver.lemma_inv();
        }
        match self.driver.target() {
            Some(t) => self.child_lens.apply(self.driver.gui(), t),
            None => None,
        }
    }

    fn put_at<L: WritableLens>(&mut self, id: Id, lens: &L, value: L::Target) -> (changed: bool) {
        let ghost g0 = self.driver.spec_gui();
        proof {
            self.driver.lemma_inv();
        }
        let changed = self.driver.put_at(id, lens, value);
        proof {
            if let Some(t) = self.driver.spec_target() {
                self.child_lens.lemma_apply_field_put(self.driver.spec_gui(), g0, id, *lens, value.deep_view(), t);
            }
        }
        changed
    }
}


impl<'a, A: LensDriver<'a>, B: FieldLens> Chain<A, B> {
    /// The field that the last lens reaches, of the widget that the driver reaches.
    pub open spec fn spec_value(&self) -> Option<<B::Target as DeepView>::V> {
        match self.driver.spec_target() {
            Some(t) => self.child_lens.spec_read(self.driver.spec_gui().widget(t)),
            None => None,
        }
    }

    /// The value of the field; the driver must reach a widget that has the field.
    pub fn get(&self) -> (r: &B::Target)
        requires
            self.driver.spec_inv(),
            self.spec_value() is Some,
        ensures
            self.spec_value() == Some(r.deep_view()),
    {
        proof {
            self.driver.lemma_inv();
        }
        let t = self.driver.target().unwrap();
        self.child_lens.read(self.driver.gui().widget_ref(t))
    }

}

impl<'a, A: LensDriver<'a>, B: WritableLens> Chain<A, B> {
    /// Sets the field to `value`; where it held another value, a `Change` event of the field is
    /// collected (see `Gui::set_field`). The driver must reach a widget that has the field.
    pub fn put(&mut self, value: B::Target) -> (r: &mut Self)
        requires
            old(self).driver.spec_inv(),
            old(self).spec_value() is Some,
        ensures
            r.driver.spec_inv(),
            r.child_lens == old(self).child_lens,
            r.driver.spec_gui().field_put(
                &old(self).driver.spec_gui(),
                old(self).driver.spec_target().unwrap(),
                old(self).child_lens,
                value.deep_view(),
            ),
            r.driver.spec_target() == old(self).driver.spec_target(),
            r.spec_value() == Some(value.deep_view()),
            *final(r.driver.spec_loan()) == *final(old(self).driver.spec_loan()),
            *final(self) == *final(r),
    {
        proof {
            self.driver.lemma_inv();
        }
        let t = self.driver.target().unwrap();
        let lens = self.child_lens.field_lens();
        assert(lens.spec_field() == self.child_lens.spec_field());
        self.driver.put_at(t, &self.child_lens, value);
        self
    }
}

impl Gui {
    /// A lens root at the widget that `id` names, which must exist.
    pub fn access<I: AsId>(&mut self, id: I) -> (r: LensRoot<'_>)
        requires
            old(self).wf(),
            id.spec_resolve(old(self)) is Some,
            old(self).live(id.spec_resolve(old(self)).unwrap()),
        ensures
            r.id == id.spec_resolve(old(self)).unwrap(),
            *r.gui == *old(self),
            *final(r.gui) == *final(self),
    {
        let i = id.resolve(self).unwrap();
        LensRoot { gui: self, id: i }
    }
}

} // verus!
