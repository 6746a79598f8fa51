//! One frame of the gui: the widgets marked for removal in the previous frame are taken out,
//! every widget follows the mouse and reacts to the events of its part of the tree (children
//! before their parent), and the events collected are handed out.
use vstd::prelude::*;
use crate::{Id, ROOT};
use crate::event::{Event, EventKind, Capture, FieldId};
use crate::pointer::{PointerInput, pointer_events};
use super::is_pointer_kind;
use super::lists::{lemma_since_split, lemma_contains_concat};
use crate::widget::{WidgetKind, SelectOption, opt_str};
use super::{Gui, ID_LIMIT, count_events, change_events};
use crate::event::Field;
use super::lists::{chosen_option, chosen_value, dropdown_chosen_value, toggled, select_changed, has_option_button, option_button, room_for_list,
    option_states_shown, option_states_upto, marks_only_list};
use crate::collections::opt_lookup;
use crate::collections::option_entries;
use std::ops::BitOrAssign;

verus! {

/// What the widget `id` of `g` and the widgets below it capture in a frame of `input`: what its
/// children capture, one after the other; where none of them captures the mouse, also what the
/// widget itself captures if the mouse is inside it.
pub open spec fn tree_capture(g: Gui, id: Id, input: PointerInput) -> Capture
    decreases ID_LIMIT - id + 1, 0int,
{
    if id > ID_LIMIT {
        Capture { mouse: false, keyboard: false }
    } else {
        let sub = children_capture(g, g.children_of(id), id, input);
        if !sub.mouse && input.spec_inside(id) {
            Capture::spec_or(sub, g.kind(id).spec_captures())
        } else {
            sub
        }
    }
}

/// What the widgets `cs` below `p` and the widgets below them capture, taken together.
pub open spec fn children_capture(g: Gui, cs: Seq<Id>, p: Id, input: PointerInput) -> Capture
    decreases ID_LIMIT - p, cs.len(),
{
    if cs.len() == 0 || p > ID_LIMIT {
        Capture { mouse: false, keyboard: false }
    } else {
        let rest = children_capture(g, cs.drop_last(), p, input);
        let c = cs.last();
        if p < c && c <= ID_LIMIT {
            Capture::spec_or(rest, tree_capture(g, c, input))
        } else {
            rest
        }
    }
}

/// Whether the widget `y` of `g` is hovered after a frame of `input`: where nothing below it
/// captures the mouse, whether the mouse is inside it; else as before.
pub open spec fn hover_after(g: Gui, y: Id, input: PointerInput) -> bool {
    if !children_capture(g, g.children_of(y), y, input).mouse {
        input.spec_inside(y)
    } else {
        g.widget(y).inside
    }
}

/// Whether the widget `y` of `g` is pressed after a frame of `input`: where nothing below it
/// captures the mouse, as `pressed_after` says; else as before.
pub open spec fn pressed_state_after(g: Gui, y: Id, input: PointerInput) -> bool {
    if !children_capture(g, g.children_of(y), y, input).mouse {
        crate::pointer::pressed_after(g.widget(y).pressed, input.spec_inside(y), input.pressed, input.released)
    } else {
        g.widget(y).pressed
    }
}

/// The hover and press state of the widget `y` of `new` is what a frame of `input` makes of
/// that of `old`.
pub open spec fn pointer_state_after(new: Gui, old: Gui, y: Id, input: PointerInput) -> bool {
    &&& new.widget(y).inside == hover_after(old, y, input)
    &&& new.widget(y).pressed == pressed_state_after(old, y, input)
}

/// Whether an event is about a widget of `g`.
pub open spec fn about_live(g: Gui) -> spec_fn(Event) -> bool {
    |e: Event| g.live(e.id)
}

/// Whether the event `e` was caused by the mouse on the widget `y`.
pub open spec fn caused_on(y: Id) -> spec_fn(Event) -> bool {
    |e: Event| e.id == y && is_pointer_kind(e.kind)
}

/// Whether the event `e` is about the widget `y` and was not caused by the mouse.
pub open spec fn caused_other(y: Id) -> spec_fn(Event) -> bool {
    |e: Event| e.id == y && !is_pointer_kind(e.kind)
}

/// The events of `s` about the widget `y` that the mouse did not cause, in order.
pub open spec fn other_events_of(s: Seq<Event>, y: Id) -> Seq<Event> {
    s.filter(caused_other(y))
}

/// The events of `s` about the widget `y`, in order.
pub open spec fn events_about(s: Seq<Event>, y: Id) -> Seq<Event> {
    s.filter(|e: Event| e.id == y)
}

/// Where no list lies between `x` and a widget `y` strictly below it, none lies strictly
/// between them, and `x` is no list.
proof fn lemma_no_list_between_parts(g: Gui, x: Id, y: Id)
    requires
        no_list_between(g, x, y),
        g.in_subtree(x, y),
        y != x,
    ensures
        no_list_inside(g, x, y),
        !is_list(g.kind(x)),
{
    assert(g.in_subtree(x, x));
}

/// Whether `k` is a select or a dropdown button.
pub open spec fn is_list(k: WidgetKind) -> bool {
    k is Select || k is DropdownButton
}

/// The changes that the widget `y` of `g` announces in a frame of `input` that leaves it as in
/// `new`: a toggle button, a change of its state where the mouse goes down on it; a radio
/// button, a change of its state where it was off and the mouse button is released from it; a
/// select, a change of its value where its value changed; other widgets, none.
pub open spec fn own_changes(new: Gui, g: Gui, y: Id, input: PointerInput) -> Seq<Event> {
    match g.kind(y) {
        WidgetKind::ToggleButton(_) => if pressed_on(g, y, input) {
            seq![toggled(y)]
        } else {
            Seq::empty()
        },
        WidgetKind::RadioButton(_) => if !g.radio_state(y) && released_on(g, y, input) {
            seq![radio_switched(y)]
        } else {
            Seq::empty()
        },
        WidgetKind::Select(s0) => if new.kind(y)->Select_0.spec_value() != s0.spec_value() {
            seq![select_changed(y)]
        } else {
            Seq::empty()
        },
        _ => Seq::empty(),
    }
}

/// The events of `s` that the mouse caused on the widget `y`, in order.
pub open spec fn pointer_events_of(s: Seq<Event>, y: Id) -> Seq<Event> {
    s.filter(caused_on(y))
}

/// Whether the widget `y` of `g` follows the mouse in a frame of `input`: nothing below it
/// captures the mouse.
pub open spec fn step_runs(g: Gui, y: Id, input: PointerInput) -> bool {
    !children_capture(g, g.children_of(y), y, input).mouse
}

/// The events that the mouse causes on the widget `y` of `g` in a frame of `input`.
pub open spec fn expected_pointer_events(g: Gui, y: Id, input: PointerInput) -> Seq<Event> {
    if step_runs(g, y, input) {
        pointer_events(y, g.widget(y).inside, g.widget(y).pressed, input.spec_inside(y), input.pressed, input.released)
    } else {
        Seq::empty()
    }
}

/// Whether the mouse goes down on the widget `y` of `g` in a frame of `input`.
pub open spec fn pressed_on(g: Gui, y: Id, input: PointerInput) -> bool {
    step_runs(g, y, input) && input.spec_inside(y) && input.pressed
}

/// Whether the mouse button is released from the widget `y` of `g` in a frame of `input`.
pub open spec fn released_on(g: Gui, y: Id, input: PointerInput) -> bool {
    step_runs(g, y, input) && (g.widget(y).pressed || (input.spec_inside(y) && input.pressed)) && input.released
}

/// No select or dropdown button lies between `x` (included) and `y` (excluded).
pub open spec fn no_list_between(g: Gui, x: Id, y: Id) -> bool {
    forall|z: Id| #[trigger] g.in_subtree(x, z) && #[trigger] g.in_subtree(z, y) && z != y ==> !(g.kind(z) is Select) && !(g.kind(z) is DropdownButton)
}

/// Whether the mouse goes down on none of the widgets at or below `y` of `g` in a frame of
/// `input`.
pub open spec fn untouched(g: Gui, y: Id, input: PointerInput) -> bool {
    forall|z: Id| g.live(z) && #[trigger] g.in_subtree(y, z) ==> !pressed_on(g, z, input)
}

/// No select or dropdown button lies strictly between `x` and `y` (both excluded).
pub open spec fn no_list_inside(g: Gui, x: Id, y: Id) -> bool {
    forall|z: Id| #[trigger] g.in_subtree(x, z) && #[trigger] g.in_subtree(z, y) && z != x && z != y ==> !(g.kind(z) is Select) && !(g.kind(z) is DropdownButton)
}

/// The widget `y` of `new` is what a frame of `input` makes of the one of `old`: a toggle
/// button flips where the mouse goes down on it, a radio button switches on where the mouse
/// button is released from it, and a select or dropdown button keeps its value where the mouse
/// goes down on nothing at or below it, and takes the option whose button the mouse goes down
/// on as `select_reacts` and `dropdown_reacts` say.
#[verifier::opaque]
pub open spec fn reacts(new: Gui, old: Gui, y: Id, input: PointerInput) -> bool {
    &&& old.kind(y) is ToggleButton ==> new.kind(y) is ToggleButton && new.toggle_state(y) == (old.toggle_state(y) != pressed_on(old, y, input))
    &&& old.kind(y) is RadioButton ==> new.kind(y) is RadioButton && new.radio_state(y) == (old.radio_state(y) || released_on(old, y, input))
    &&& old.kind(y) is Select && untouched(old, y, input) ==> new.kind(y) is Select
        && new.kind(y)->Select_0.spec_value() == old.kind(y)->Select_0.spec_value()
    &&& old.kind(y) is DropdownButton && untouched(old, y, input) ==> new.kind(y) is DropdownButton
        && new.kind(y)->DropdownButton_0.spec_value() == old.kind(y)->DropdownButton_0.spec_value()
    &&& old.kind(y) is Select ==> select_reacts(new, old, y, input)
    &&& old.kind(y) is DropdownButton ==> dropdown_reacts(new, old, y, input)
}

/// The main button of the select or dropdown button `y` of `g`.
pub open spec fn list_main(g: Gui, y: Id) -> Id {
    match g.kind(y) {
        WidgetKind::Select(s) => s.main_button_id,
        WidgetKind::DropdownButton(d) => d.main_button_id,
        _ => 0,
    }
}

/// The entries of the option map of the select or dropdown button `y` of `g`.
pub open spec fn list_opt(g: Gui, y: Id) -> Seq<(usize, usize)> {
    match g.kind(y) {
        WidgetKind::Select(s) => option_entries(s.opt_map),
        WidgetKind::DropdownButton(d) => option_entries(d.opt_map),
        _ => Seq::empty(),
    }
}

/// The number of options of the select or dropdown button `y` of `g`.
pub open spec fn list_len(g: Gui, y: Id) -> nat {
    match g.kind(y) {
        WidgetKind::Select(s) => s.options@.len(),
        WidgetKind::DropdownButton(d) => d.options@.len(),
        _ => 0,
    }
}

/// The select or dropdown button `y` of `new` is what a frame of `input` makes of the one of
/// `old` whose main button is a toggle button among its children that is off, where the mouse
/// goes down on that main button and on the button of none of its options, and `new` has ids
/// left for a list of its options: it opens its list, its option map naming a new button below
/// it for each option.
pub open spec fn list_opens(new: Gui, old: Gui, y: Id, input: PointerInput) -> bool {
    let main = list_main(old, y);
    let n = list_len(old, y);
    (old.kind(y) is Select || old.kind(y) is DropdownButton) && old.main_ok(y, main) && !old.toggle_state(main)
        && pressed_on(old, main, input) && option_pressed(old, y, list_opt(old, y), n, input) is None && room_for_list(new, n) ==> {
        &&& (old.kind(y) is Select ==> new.kind(y) is Select)
        &&& (old.kind(y) is DropdownButton ==> new.kind(y) is DropdownButton)
        &&& forall|k: int| 0 <= k < n ==> #[trigger] has_option_button(new, old, y, list_opt(new, y), k)
    }
}

/// The select or dropdown button `y` of `new` is what a frame of `input` makes of the one of
/// `old` whose main button is a toggle button among its children: where the main button was on
/// and the mouse goes down on it, the list closes: every other child is marked for removal and
/// the option map is emptied; a select whose main button is off once the main button has
/// reacted shows its value on its option buttons (`option_states_shown`).
pub open spec fn list_closes(new: Gui, old: Gui, y: Id, input: PointerInput) -> bool {
    let main = list_main(old, y);
    &&& (old.kind(y) is Select || old.kind(y) is DropdownButton) && old.main_ok(y, main) && old.toggle_state(main)
        && pressed_on(old, main, input) ==> {
        &&& forall|c: Id| old.children_of(y).contains(c) && c != main ==> #[trigger] new.removal_queue().contains(c)
        &&& list_opt(new, y) == Seq::<(usize, usize)>::empty()
    }
    &&& old.kind(y) is Select && old.main_ok(y, main) && old.toggle_state(main) == pressed_on(old, main, input) ==> {
        &&& new.kind(y) is Select
        &&& option_states_shown(new, y, list_opt(new, y), old.kind(y)->Select_0.options@, new.kind(y)->Select_0.spec_value())
    }
}

/// The event announcing that the radio button `y` switched on.
pub open spec fn radio_switched(y: Id) -> Event {
    Event { id: y, kind: EventKind::Change { field: FieldId(Field::RadioButtonState) } }
}

/// The events `events` of a frame of `input` report what the widget `y` of `old` did, which is
/// in `new` after the frame: a toggle button, a change of its state exactly where the mouse goes
/// down on it; a radio button, a change of its state exactly where it was off and the mouse
/// button is released from it; a select, a change of its value exactly where its value changed.
pub open spec fn reported(events: Seq<Event>, new: Gui, old: Gui, y: Id, input: PointerInput) -> bool {
    &&& old.kind(y) is ToggleButton ==> (events.contains(toggled(y)) <==> pressed_on(old, y, input))
    &&& old.kind(y) is RadioButton ==> (events.contains(radio_switched(y)) <==> (!old.radio_state(y) && released_on(old, y, input)))
    &&& old.kind(y) is Select ==> new.kind(y) is Select
        && (events.contains(select_changed(y)) <==> new.kind(y)->Select_0.spec_value() != old.kind(y)->Select_0.spec_value())
}

/// How a widget reacted in a frame depends on what it became alone.
proof fn lemma_reacts_same_kind(g: Gui, h: Gui, old: Gui, y: Id, input: PointerInput)
    requires
        g.kind(y) == h.kind(y),
        reacts(h, old, y, input),
    ensures
        reacts(g, old, y, input),
{
    reveal(reacts);
}

/// Whether the mouse goes down in a frame of `input` on the widget `z` at or below `y` of `g`,
/// which the option map `opt` of a list with `n` options names as the button of an option.
pub open spec fn option_pressed_on(g: Gui, y: Id, opt: Seq<(usize, usize)>, n: nat, z: Id, input: PointerInput) -> bool {
    &&& g.live(z)
    &&& g.in_subtree(y, z)
    &&& pressed_on(g, z, input)
    &&& opt_lookup(opt, z) is Some
    &&& opt_lookup(opt, z).unwrap() < n
}

/// Whether the mouse goes down in a frame of `input` on the buttons of at most one option of
/// the list `y` of `g`.
pub open spec fn one_option_pressed_at_most(g: Gui, y: Id, opt: Seq<(usize, usize)>, n: nat, input: PointerInput) -> bool {
    forall|a: Id, b: Id| #[trigger] option_pressed_on(g, y, opt, n, a, input) && #[trigger] option_pressed_on(g, y, opt, n, b, input) ==> a == b
}

/// The option of the list `y` of `g` on whose button the mouse goes down in a frame of
/// `input`, if any.
pub open spec fn option_pressed(g: Gui, y: Id, opt: Seq<(usize, usize)>, n: nat, input: PointerInput) -> Option<usize> {
    if exists|z: Id| #[trigger] option_pressed_on(g, y, opt, n, z, input) {
        opt_lookup(opt, choose|z: Id| #[trigger] option_pressed_on(g, y, opt, n, z, input))
    } else {
        None
    }
}

/// The select `y` of `new` is what a frame of `input` makes of the one of `old` where its main
/// button is a toggle button among its children that the mouse does not go down on, and the
/// mouse goes down on the buttons of at most one of its options: it takes that option's value.
pub open spec fn select_reacts(new: Gui, old: Gui, y: Id, input: PointerInput) -> bool {
    let s = old.kind(y)->Select_0;
    let main = s.main_button_id;
    let opt = option_entries(s.opt_map);
    let n = s.options@.len();
    old.main_ok(y, main) && !pressed_on(old, main, input) && one_option_pressed_at_most(old, y, opt, n, input) ==> {
        &&& new.kind(y) is Select
        &&& new.kind(y)->Select_0.spec_value() == chosen_value(s.options@, s.spec_value(), option_pressed(old, y, opt, n, input))
    }
}

/// The dropdown button `y` of `new` is what a frame of `input` makes of the one of `old` where
/// its main button is a toggle button among its children that the mouse does not go down on,
/// and the mouse goes down on the buttons of at most one of its options: it takes that
/// option's value.
pub open spec fn dropdown_reacts(new: Gui, old: Gui, y: Id, input: PointerInput) -> bool {
    let d = old.kind(y)->DropdownButton_0;
    let main = d.main_button_id;
    let opt = option_entries(d.opt_map);
    let n = d.options@.len();
    old.main_ok(y, main) && !pressed_on(old, main, input) && one_option_pressed_at_most(old, y, opt, n, input) ==> {
        &&& new.kind(y) is DropdownButton
        &&& new.kind(y)->DropdownButton_0.spec_value() == dropdown_chosen_value(d.options@, d.spec_value(), option_pressed(old, y, opt, n, input))
    }
}

/// The events that the mouse causes on a widget in a frame are events the mouse causes.
proof fn lemma_expected_pointer_only(g0: Gui, id: Id, input: PointerInput)
    ensures
        forall|e: Event| #[trigger] expected_pointer_events(g0, id, input).contains(e) ==> is_pointer_kind(e.kind),
{
    let own = expected_pointer_events(g0, id, input);
    Gui::lemma_expected_caused(g0, id, input);
    assert forall|e: Event| #[trigger] own.contains(e) implies is_pointer_kind(e.kind) by {
        let k = choose|k: int| 0 <= k < own.len() && own[k] == e;
        assert(pointer_events_of(own, id) == own);
        own.lemma_filter_pred(caused_on(id), k);
        assert(caused_on(id)(own[k]));
    }
}

/// The events collected at and below `id` in a frame of `input` hold one press of `id` where
/// the mouse goes down on it, and one release where the button is released from it.
proof fn lemma_local_counts(local: Seq<Event>, g0: Gui, id: Id, input: PointerInput)
    requires
        pointer_events_of(local, id) == expected_pointer_events(g0, id, input),
    ensures
        count_events(local, id, EventKind::Press) == (if pressed_on(g0, id, input) { 1nat } else { 0nat }),
        count_events(local, id, EventKind::Release) == (if released_on(g0, id, input) { 1nat } else { 0nat }),
{
    lemma_count_caused(local, id, EventKind::Press);
    lemma_count_caused(local, id, EventKind::Release);
    lemma_expected_counts(g0, id, input);
}

/// `n` changes of `field` of the widget `id` hold such a change exactly where `n` is not 0, and
/// are all about `id`.
proof fn lemma_change_events_contains(id: Id, field: Field, n: nat)
    ensures
        change_events(id, field, n).contains(Event { id, kind: EventKind::Change { field: FieldId(field) } }) <==> n > 0,
        forall|e: Event| #[trigger] change_events(id, field, n).contains(e) ==> e.id == id,
{
    if n > 0 {
        assert(change_events(id, field, n)[0] == Event { id, kind: EventKind::Change { field: FieldId(field) } });
    }
}

/// Where no event of `local` is the change of `main`'s state that closes the list (or the
/// list is not `closing`), and every press among `local[i..]` on the button of an option is one
/// on `z`, the option chosen is that of `z` where such a press is among them, and none else.
proof fn lemma_chosen_single(local: Seq<Event>, i: int, main: Id, closing: bool, opt: Seq<(usize, usize)>, n: nat, z: Id)
    requires
        0 <= i <= local.len(),
        closing ==> !local.contains(toggled(main)),
        forall|k: int| i <= k < local.len() && (#[trigger] local[k]).kind == EventKind::Press && opt_lookup(opt, local[k].id) is Some
            && opt_lookup(opt, local[k].id).unwrap() < n ==> local[k].id == z,
    ensures
        chosen_option(local, i, main, closing, opt, n) == (if (exists|k: int| i <= k < local.len() && #[trigger] local[k] == (Event { id: z, kind: EventKind::Press }))
            && opt_lookup(opt, z) is Some && opt_lookup(opt, z).unwrap() < n {
            opt_lookup(opt, z)
        } else {
            None
        }),
    decreases local.len() - i,
{
    if i < local.len() {
        lemma_chosen_single(local, i + 1, main, closing, opt, n, z);
        if closing {
            assert(local[i] != toggled(main));
        }
        let press = Event { id: z, kind: EventKind::Press };
        if local[i] == press {
            assert(exists|k: int| i <= k < local.len() && #[trigger] local[k] == press);
        } else {
            assert((exists|k: int| i <= k < local.len() && #[trigger] local[k] == press) == (exists|k: int| i + 1 <= k < local.len() && #[trigger] local[k] == press)) by {
                if exists|k: int| i <= k < local.len() && #[trigger] local[k] == press {
                    let k = choose|k: int| i <= k < local.len() && #[trigger] local[k] == press;
                    assert(k != i);
                }
            }
        }
    }
}

/// A press among the events collected in a frame of `input` at and below `id` is one on a
/// widget at or below `id` that the mouse goes down on.
proof fn lemma_press_source(local: Seq<Event>, g0: Gui, id: Id, input: PointerInput, k: int)
    requires
        forall|z: Id| #[trigger] pointer_events_of(local, z) == (if g0.live(z) && g0.in_subtree(id, z) {
            expected_pointer_events(g0, z, input)
        } else {
            Seq::<Event>::empty()
        }),
        0 <= k < local.len(),
        local[k].kind == EventKind::Press,
    ensures
        g0.live(local[k].id),
        g0.in_subtree(id, local[k].id),
        pressed_on(g0, local[k].id, input),
{
    let z = local[k].id;
    assert(caused_on(z)(local[k]));
    local.lemma_filter_contains(caused_on(z), k);
    let f = pointer_events_of(local, z);
    assert(f.contains(local[k]));
    assert(g0.live(z) && g0.in_subtree(id, z));
    let j = choose|j: int| 0 <= j < f.len() && f[j] == local[k];
    lemma_press_in_expected(g0, z, input, j);
}

/// Where the mouse goes down in a frame of `input` on a widget `z` at or below `id`, the
/// events collected at and below `id` hold its press.
proof fn lemma_press_present(local: Seq<Event>, g0: Gui, id: Id, input: PointerInput, z: Id)
    requires
        forall|x: Id| #[trigger] pointer_events_of(local, x) == (if g0.live(x) && g0.in_subtree(id, x) {
            expected_pointer_events(g0, x, input)
        } else {
            Seq::<Event>::empty()
        }),
        g0.live(z),
        g0.in_subtree(id, z),
        pressed_on(g0, z, input),
    ensures
        exists|k: int| 0 <= k < local.len() && #[trigger] local[k] == (Event { id: z, kind: EventKind::Press }),
{
    let inside = input.spec_inside(z);
    let w = g0.widget(z);
    let hover = if inside && !w.inside {
        seq![Event { id: z, kind: EventKind::Hover }]
    } else if w.inside && !inside {
        seq![Event { id: z, kind: EventKind::Unhover }]
    } else {
        Seq::empty()
    };
    let press = seq![Event { id: z, kind: EventKind::Press }];
    let release = if (w.pressed || (inside && input.pressed)) && input.released {
        seq![Event { id: z, kind: EventKind::Release }]
    } else {
        Seq::empty()
    };
    let e = expected_pointer_events(g0, z, input);
    assert(e == hover + press + release);
    let j = hover.len() as int;
    assert(e[j] == Event { id: z, kind: EventKind::Press });
    let f = pointer_events_of(local, z);
    assert(f == e);
    assert(f.contains(f[j]));
    local.lemma_filter_contains_rev(caused_on(z), f[j]);
    assert(local.contains(f[j]));
    let k = choose|k: int| 0 <= k < local.len() && local[k] == f[j];
    assert(local[k] == Event { id: z, kind: EventKind::Press });
}

/// Where no event of `local` is a press, no option is chosen.
proof fn lemma_chosen_none(local: Seq<Event>, i: int, main: Id, closing: bool, opt: Seq<(usize, usize)>, n: nat)
    requires
        forall|k: int| 0 <= k < local.len() ==> (#[trigger] local[k]).kind != EventKind::Press,
    ensures
        chosen_option(local, i, main, closing, opt, n) is None,
    decreases local.len() - i,
{
    if 0 <= i < local.len() {
        lemma_chosen_none(local, i + 1, main, closing, opt, n);
    }
}

/// A press among the events that the mouse causes on `z` means the mouse went down on `z`.
proof fn lemma_press_in_expected(g: Gui, z: Id, input: PointerInput, k: int)
    requires
        0 <= k < expected_pointer_events(g, z, input).len(),
        expected_pointer_events(g, z, input)[k].kind == EventKind::Press,
    ensures
        pressed_on(g, z, input),
{
    let inside = input.spec_inside(z);
    let w = g.widget(z);
    let hover = if inside && !w.inside {
        seq![Event { id: z, kind: EventKind::Hover }]
    } else if w.inside && !inside {
        seq![Event { id: z, kind: EventKind::Unhover }]
    } else {
        Seq::empty()
    };
    let press = if inside && input.pressed {
        seq![Event { id: z, kind: EventKind::Press }]
    } else {
        Seq::empty()
    };
    let release = if (w.pressed || (inside && input.pressed)) && input.released {
        seq![Event { id: z, kind: EventKind::Release }]
    } else {
        Seq::empty()
    };
    assert(step_runs(g, z, input));
    assert(expected_pointer_events(g, z, input) == hover + press + release);
    if k < hover.len() {
        assert((hover + press + release)[k] == hover[k]);
    } else if k < hover.len() + press.len() {
    } else {
        assert((hover + press + release)[k] == release[k - hover.len() - press.len()]);
    }
}

/// Where the mouse goes down on nothing at or below `id`, no event collected during its frame
/// is a press.
proof fn lemma_no_press(local: Seq<Event>, g0: Gui, id: Id, input: PointerInput)
    requires
        forall|z: Id| #[trigger] pointer_events_of(local, z) == (if g0.live(z) && g0.in_subtree(id, z) {
            expected_pointer_events(g0, z, input)
        } else {
            Seq::<Event>::empty()
        }),
        untouched(g0, id, input),
    ensures
        forall|k: int| 0 <= k < local.len() ==> (#[trigger] local[k]).kind != EventKind::Press,
{
    assert forall|k: int| 0 <= k < local.len() implies (#[trigger] local[k]).kind != EventKind::Press by {
        if local[k].kind == EventKind::Press {
            let z = local[k].id;
            assert(caused_on(z)(local[k]));
            local.lemma_filter_contains(caused_on(z), k);
            let f = pointer_events_of(local, z);
            assert(f.contains(local[k]));
            assert(g0.live(z) && g0.in_subtree(id, z));
            let j = choose|j: int| 0 <= j < f.len() && f[j] == local[k];
            lemma_press_in_expected(g0, z, input, j);
        }
    }
}

/// The press (or release) events of `y` among `s` are those among the events the mouse
/// caused on `y`.
proof fn lemma_count_caused(s: Seq<Event>, y: Id, kind: EventKind)
    requires
        is_pointer_kind(kind),
    ensures
        count_events(s, y, kind) == count_events(pointer_events_of(s, y), y, kind),
    decreases s.len(),
{
    reveal_with_fuel(Seq::filter, 1);
    if s.len() > 0 {
        lemma_count_caused(s.drop_last(), y, kind);
        let f = pointer_events_of(s.drop_last(), y);
        if caused_on(y)(s.last()) {
            assert(pointer_events_of(s, y) == f.push(s.last()));
            assert(f.push(s.last()).drop_last() =~= f);
        } else {
            assert(pointer_events_of(s, y) == f);
        }
    }
}

/// A frame of `input` brings one press of `y` where the mouse goes down on it, and one
/// release where the button is released from it.
proof fn lemma_expected_counts(g: Gui, y: Id, input: PointerInput)
    ensures
        count_events(expected_pointer_events(g, y, input), y, EventKind::Press) == (if pressed_on(g, y, input) { 1nat } else { 0nat }),
        count_events(expected_pointer_events(g, y, input), y, EventKind::Release) == (if released_on(g, y, input) { 1nat } else { 0nat }),
{
    reveal_with_fuel(count_events, 4);
    let e = expected_pointer_events(g, y, input);
    if step_runs(g, y, input) {
        let hover = if input.spec_inside(y) && !g.widget(y).inside {
            seq![Event { id: y, kind: EventKind::Hover }]
        } else if g.widget(y).inside && !input.spec_inside(y) {
            seq![Event { id: y, kind: EventKind::Unhover }]
        } else {
            Seq::empty()
        };
        let press = if input.spec_inside(y) && input.pressed {
            seq![Event { id: y, kind: EventKind::Press }]
        } else {
            Seq::empty()
        };
        let release = if (g.widget(y).pressed || (input.spec_inside(y) && input.pressed)) && input.released {
            seq![Event { id: y, kind: EventKind::Release }]
        } else {
            Seq::empty()
        };
        assert(e == hover + press + release);
        let hp = hover + press;
        assert(hp.len() <= 2);
        if release.len() == 1 {
            assert((hp + release).drop_last() =~= hp);
        } else {
            assert(hp + release =~= hp);
        }
        if press.len() == 1 {
            assert(hp.drop_last() =~= hover);
        } else {
            assert(hp =~= hover);
        }
        if hover.len() == 1 {
            assert(hover.drop_last() =~= Seq::<Event>::empty());
        }
    }
}

/// Keeping the events of a single event that satisfy `p` keeps it exactly where it does.
proof fn lemma_filter_single(e: Event, p: spec_fn(Event) -> bool)
    ensures
        seq![e].filter(p) == (if p(e) { seq![e] } else { Seq::<Event>::empty() }),
{
    reveal_with_fuel(Seq::filter, 2);
    assert(seq![e].drop_last() =~= Seq::<Event>::empty());
    assert(seq![e].last() == e);
    if p(e) {
        assert(Seq::<Event>::empty().push(e) =~= seq![e]);
    }
}

/// Keeping the events of `s` that satisfy `p`, where none does, keeps none.
proof fn lemma_filter_none(s: Seq<Event>, p: spec_fn(Event) -> bool)
    requires
        forall|i: int| 0 <= i < s.len() ==> !p(#[trigger] s[i]),
    ensures
        s.filter(p) == Seq::<Event>::empty(),
    decreases s.len(),
{
    reveal_with_fuel(Seq::filter, 1);
    if s.len() > 0 {
        assert forall|i: int| 0 <= i < s.drop_last().len() implies !p(#[trigger] s.drop_last()[i]) by {
            assert(s.drop_last()[i] == s[i]);
        }
        lemma_filter_none(s.drop_last(), p);
        assert(!p(s[s.len() - 1]));
    }
}

/// Keeping the events of `s` that satisfy `p`, where all do, keeps all.
proof fn lemma_filter_all(s: Seq<Event>, p: spec_fn(Event) -> bool)
    requires
        forall|i: int| 0 <= i < s.len() ==> p(#[trigger] s[i]),
    ensures
        s.filter(p) == s,
    decreases s.len(),
{
    reveal_with_fuel(Seq::filter, 1);
    if s.len() > 0 {
        assert forall|i: int| 0 <= i < s.drop_last().len() implies p(#[trigger] s.drop_last()[i]) by {
            assert(s.drop_last()[i] == s[i]);
        }
        lemma_filter_all(s.drop_last(), p);
        assert(p(s[s.len() - 1]));
        assert(s.drop_last().push(s.last()) =~= s);
    }
}

/// The events that the mouse causes on `id` are about `id` and caused by the mouse.
proof fn lemma_pointer_events_of(id: Id, prev_inside: bool, pressed: bool, now_inside: bool, down: bool, up: bool, y: Id)
    ensures
        pointer_events_of(pointer_events(id, prev_inside, pressed, now_inside, down, up), y) == (if y == id {
            pointer_events(id, prev_inside, pressed, now_inside, down, up)
        } else {
            Seq::<Event>::empty()
        }),
{
    let s = pointer_events(id, prev_inside, pressed, now_inside, down, up);
    assert forall|i: int| 0 <= i < s.len() implies (#[trigger] s[i]).id == id && is_pointer_kind(s[i].kind) by {}
    if y == id {
        lemma_filter_all(s, caused_on(y));
    } else {
        lemma_filter_none(s, caused_on(y));
    }
}

impl Gui {
    /// The events collected since `from` events were pending.
    fn events_since(&self, from: usize) -> (r: Vec<Event>)
        requires
            from <= self.pending().len(),
        ensures
            r@ == self.pending_since(from as nat),
    {
        let mut r: Vec<Event> = Vec::new();
        let mut i = from;
        while i < self.events.len()
            invariant
                from <= i <= self.events@.len(),
                self.events@ == self.pending(),
                r@ == self.pending().subrange(from as int, i as int),
            decreases self.events@.len() - i,
        {
            r.push(self.events[i]);
            proof {
                assert(r@ =~= self.pending().subrange(from as int, i + 1));
            }
            i += 1;
        }
        r
    }

    /// One frame of hover and press state of the widget `id` is growth within `id`.
    proof fn lemma_step_grows(&self, old: &Gui, id: Id, input: PointerInput)
        requires
            old.wf(),
            old.live(id),
            self.wf(),
            self.table_len() == old.table_len(),
            self.last_id() == old.last_id(),
            forall|y: Id| #[trigger] self.live(y) == old.live(y),
            forall|y: Id| y != id && old.live(y) ==> #[trigger] self.widget(y) == old.widget(y),
            self.kind(id) == old.kind(id),
            self.path_map() == old.path_map(),
            self.pending() == old.pending() + crate::pointer::pointer_events(
                id,
                old.widget(id).inside,
                old.widget(id).pressed,
                input.spec_inside(id),
                input.pressed,
                input.released,
            ),
            self.removal_queue() == old.removal_queue(),
            self.alias_map() == old.alias_map(),
        ensures
            self.grows_within(old, id),
    {
        let added = crate::pointer::pointer_events(
            id,
            old.widget(id).inside,
            old.widget(id).pressed,
            input.spec_inside(id),
            input.pressed,
            input.released,
        );
        assert forall|j: int| 0 <= j < added.len() implies (#[trigger] added[j]).id == id by {}
        assert(self.pending().take(old.pending().len() as int) =~= old.pending());
        assert forall|i: int| old.pending().len() <= i < self.pending().len() implies self.live(#[trigger] self.pending()[i].id) by {
            assert(self.pending()[i] == added[i - old.pending().len()]);
        }
        assert(self.removal_queue().take(old.removal_queue().len() as int) =~= old.removal_queue());
        assert forall|y: Id| old.live(y) && !old.in_subtree(id, y) implies #[trigger] self.widget(y) == old.widget(y) by {}
        assert forall|y: Id| #[trigger] old.live(y) implies self.kind(y).spec_captures() == old.kind(y).spec_captures() by {
            if y != id {
                assert(self.widget(y) == old.widget(y));
            }
        }
        assert forall|y: Id| #[trigger] old.has_path(y) implies self.path(y) == old.path(y) by {}
    }

    /// The work of the widget `id` in an update, where `local` are the events of its part of the
    /// tree in this update: toggle buttons flip at each press, radio buttons switch on at a
    /// release, selects and dropdown buttons open, close and choose (see `toggle_update`,
    /// `radio_update`, `select_update`, `dropdown_update`); other widgets do nothing.
    fn widget_update(&mut self, id: Id, local: &Vec<Event>)
        requires
            old(self).wf(),
            old(self).live(id),
            forall|k: int| 0 <= k < local@.len() ==> #[trigger] local@[k].id <= old(self).last_id(),
        ensures
            final(self).grows_within(old(self), id),
            final(self).keeps_pointer_state(old(self)),
            final(self).no_pointer_events_since(old(self).pending().len()),
            !(old(self).kind(id) is Select) && !(old(self).kind(id) is DropdownButton) ==> forall|y: Id| y != id && old(self).live(y) ==> #[trigger] final(self).widget(y) == old(self).widget(y),
            old(self).kind(id) is ToggleButton ==> final(self).kind(id) is ToggleButton && final(self).toggle_state(id) == (old(self).toggle_state(id) != (count_events(local@, id, EventKind::Press) % 2 == 1)),
            old(self).kind(id) is ToggleButton ==> final(self).pending() == old(self).pending() + change_events(id, Field::ToggleButtonState, count_events(local@, id, EventKind::Press)),
            old(self).kind(id) is RadioButton ==> final(self).kind(id) is RadioButton && final(self).radio_state(id) == (old(self).radio_state(id) || count_events(local@, id, EventKind::Release) > 0),
            old(self).kind(id) is RadioButton ==> final(self).pending() == old(self).pending() + (if !old(self).radio_state(id) && count_events(local@, id, EventKind::Release) > 0 {
                change_events(id, Field::RadioButtonState, 1)
            } else {
                Seq::<Event>::empty()
            }),
            !(old(self).kind(id) is Select) && !(old(self).kind(id) is DropdownButton) ==> forall|k: int| old(self).pending().len() <= k < final(self).pending().len() ==> (#[trigger] final(self).pending()[k]).id == id,
            !(old(self).kind(id) is Select) && !(old(self).kind(id) is DropdownButton) ==> final(self).last_id() == old(self).last_id(),
            !(old(self).kind(id) is Select) && !(old(self).kind(id) is DropdownButton) ==> final(self).removal_queue() == old(self).removal_queue(),
            !(old(self).kind(id) is Select) && !(old(self).kind(id) is DropdownButton) && !(old(self).kind(id) is ToggleButton)
                && !(old(self).kind(id) is RadioButton) ==> *final(self) == *old(self),
            old(self).kind(id) is Select ==> ({
                let s0 = old(self).kind(id)->Select_0;
                let main = s0.main_button_id;
                let chosen = chosen_option(local@, 0, main, !old(self).toggle_state(main), option_entries(s0.opt_map), s0.options@.len());
                &&& final(self).kind(id) is Select
                &&& final(self).kind(id)->Select_0.spec_value() == (if old(self).main_ok(id, main) {
                    chosen_value(s0.options@, s0.spec_value(), chosen)
                } else {
                    s0.spec_value()
                })
                &&& (final(self).pending_since(old(self).pending().len()).contains(select_changed(id))
                    <==> final(self).kind(id)->Select_0.spec_value() != s0.spec_value())
                &&& marks_only_list(*final(self), old(self).removal_queue().len(), id, main)
                &&& other_events_of(final(self).pending_since(old(self).pending().len()), id) == (if final(self).kind(id)->Select_0.spec_value() != s0.spec_value() {
                    seq![select_changed(id)]
                } else {
                    Seq::<Event>::empty()
                })
                &&& (old(self).main_ok(id, main) && old(self).toggle_state(main) && local@.contains(toggled(main)) && chosen is None
                    && room_for_list(*old(self), s0.options@.len()) ==> forall|k: int| 0 <= k < s0.options@.len()
                    ==> #[trigger] has_option_button(*final(self), *old(self), id, option_entries(final(self).kind(id)->Select_0.opt_map), k))
                &&& (old(self).main_ok(id, main) && ((!old(self).toggle_state(main) && local@.contains(toggled(main))) || chosen is Some)
                    ==> forall|c: Id| old(self).children_of(id).contains(c) && c != main ==> #[trigger] final(self).removal_queue().contains(c))
                &&& (old(self).main_ok(id, main) && ((!old(self).toggle_state(main) && (local@.contains(toggled(main)) || chosen is Some))
                    || (chosen is Some && !local@.contains(toggled(main))))
                    ==> option_entries(final(self).kind(id)->Select_0.opt_map) == Seq::<(usize, usize)>::empty())
                &&& (old(self).main_ok(id, main) && !old(self).toggle_state(main) ==> option_states_shown(*final(self), id,
                    option_entries(final(self).kind(id)->Select_0.opt_map), s0.options@, final(self).kind(id)->Select_0.spec_value()))
            }),
            old(self).kind(id) is DropdownButton ==> ({
                let d0 = old(self).kind(id)->DropdownButton_0;
                let main = d0.main_button_id;
                let chosen = chosen_option(local@, 0, main, !old(self).toggle_state(main), option_entries(d0.opt_map), d0.options@.len());
                &&& final(self).kind(id) is DropdownButton
                &&& marks_only_list(*final(self), old(self).removal_queue().len(), id, main)
                &&& other_events_of(final(self).pending_since(old(self).pending().len()), id) == Seq::<Event>::empty()
                &&& final(self).kind(id)->DropdownButton_0.spec_value() == (if old(self).main_ok(id, main) {
                    dropdown_chosen_value(d0.options@, d0.spec_value(), chosen)
                } else {
                    d0.spec_value()
                })
                &&& (old(self).main_ok(id, main) && old(self).toggle_state(main) && local@.contains(toggled(main)) && chosen is None
                    && room_for_list(*old(self), d0.options@.len()) ==> forall|k: int| 0 <= k < d0.options@.len()
                    ==> #[trigger] has_option_button(*final(self), *old(self), id, option_entries(final(self).kind(id)->DropdownButton_0.opt_map), k))
                &&& (old(self).main_ok(id, main) && ((!old(self).toggle_state(main) && local@.contains(toggled(main))) || chosen is Some)
                    ==> forall|c: Id| old(self).children_of(id).contains(c) && c != main ==> #[trigger] final(self).removal_queue().contains(c))
                &&& (old(self).main_ok(id, main) && ((!old(self).toggle_state(main) && local@.contains(toggled(main))) || chosen is Some)
                    ==> option_entries(final(self).kind(id)->DropdownButton_0.opt_map) == Seq::<(usize, usize)>::empty())
            }),
    {
        let ghost g0 = *self;
        let tag: u8 = match &self.widget_ref(id).inner {
            WidgetKind::ToggleButton(_) => 1,
            WidgetKind::RadioButton(_) => 2,
            WidgetKind::Select(_) => 3,
            WidgetKind::DropdownButton(_) => 4,
            _ => 0,
        };
        proof {
            if tag != 0 {
                assert(id != ROOT);
            }
        }
        if tag == 1 {
            self.toggle_update(id, local);
        } else if tag == 2 {
            self.radio_update(id, local);
        } else if tag == 3 {
            self.select_update(id, local);
        } else if tag == 4 {
            self.dropdown_update(id, local);
        } else {
            proof {
                self.lemma_grows_refl(id);
            }
        }
    }
}


/// Whether `y` lies below one of the first `i` widgets of `cs` (or is one of them).
pub open spec fn below_first(g: Gui, cs: Seq<Id>, i: int, y: Id) -> bool {
    exists|j: int| 0 <= j < i && #[trigger] g.in_subtree(cs[j], y)
}

/// The widgets below `x` in `h` capture what they capture in `g`, and have the same children.
pub open spec fn same_below(g: Gui, h: Gui, x: Id) -> bool {
    forall|y: Id| g.live(y) && #[trigger] g.in_subtree(x, y) ==> {
        &&& h.kind(y).spec_captures() == g.kind(y).spec_captures()
        &&& h.children_of(y) == g.children_of(y)
    }
}

impl Gui {
    /// A child of an existing widget exists, has a larger id, and lies below it, not above it.
    pub(crate) proof fn lemma_child(g: Gui, p: Id, c: Id)
        requires
            g.wf(),
            g.live(p),
            g.children_of(p).contains(c),
        ensures
            g.live(c),
            p < c,
            c <= g.last_id(),
            c != ROOT,
            g.in_subtree(p, c),
            !g.in_subtree(c, p),
            g.parent_of(c) == p,
    {
        assert(g.children_ok(p));
        let j = choose|j: int| 0 <= j < g.children_of(p).len() && g.children_of(p)[j] == c;
        assert(g.children_of(p)[j] == c);
        assert(g.parent_ok(c));
        if p != ROOT {
            assert(g.path(c)[g.path(p).len() as int] == p);
            assert(g.has_path(p));
            if g.path(p).contains(c) {
                let k = choose|k: int| 0 <= k < g.path(p).len() && g.path(p)[k] == c;
                g.lemma_path_below(g, p, k);
            }
        }
    }

    /// Two children of one widget have no widget below them in common.
    pub(crate) proof fn lemma_sibling_disjoint(g: Gui, p: Id, c: Id, s: Id, y: Id)
        requires
            g.wf(),
            g.live(p),
            g.children_of(p).contains(c),
            g.children_of(p).contains(s),
            c != s,
            g.in_subtree(c, y),
        ensures
            !g.in_subtree(s, y),
    {
        Gui::lemma_child(g, p, c);
        Gui::lemma_child(g, p, s);
        assert(g.parent_ok(c));
        assert(g.parent_ok(s));
        assert(g.path(c) == g.path(s));
        if g.in_subtree(s, y) {
            if y == c {
                // s would be an ancestor of c, hence of p
                assert(g.path(c).contains(s));
                if p != ROOT {
                    let k = choose|k: int| 0 <= k < g.path(c).len() && g.path(c)[k] == s;
                    if k < g.path(p).len() {
                        assert(g.path(p)[k] == s);
                        g.lemma_path_below(g, p, k);
                    }
                }
            } else if y == s {
                assert(g.path(s).contains(c));
                if p != ROOT {
                    let k = choose|k: int| 0 <= k < g.path(s).len() && g.path(s)[k] == c;
                    if k < g.path(p).len() {
                        assert(g.path(p)[k] == c);
                        g.lemma_path_below(g, p, k);
                    }
                }
            } else {
                Gui::lemma_path_prefix(g, c, y);
                Gui::lemma_path_prefix(g, s, y);
            }
        }
    }

    /// What a widget and the widgets below it capture depends on them alone.
    proof fn lemma_capture_frame(g: Gui, h: Gui, id: Id, input: PointerInput)
        requires
            g.wf(),
            g.live(id),
            same_below(g, h, id),
        ensures
            tree_capture(h, id, input) == tree_capture(g, id, input),
        decreases ID_LIMIT - id + 1, 0int,
    {
        assert(g.in_subtree(id, id));
        assert(h.children_of(id) == g.children_of(id));
        Gui::lemma_children_capture_frame(g, h, g.children_of(id), id, input);
    }

    /// What children of a widget capture, and the widgets below them, depends on them alone.
    proof fn lemma_children_capture_frame(g: Gui, h: Gui, cs: Seq<Id>, p: Id, input: PointerInput)
        requires
            g.wf(),
            g.live(p),
            same_below(g, h, p),
            forall|j: int| 0 <= j < cs.len() ==> g.children_of(p).contains(#[trigger] cs[j]),
        ensures
            children_capture(h, cs, p, input) == children_capture(g, cs, p, input),
        decreases ID_LIMIT - p, cs.len(),
    {
        if cs.len() > 0 {
            assert(p <= g.last_id());
            let c = cs.last();
            assert(g.children_of(p).contains(cs[cs.len() - 1]));
            Gui::lemma_child(g, p, c);
            assert forall|j: int| 0 <= j < cs.drop_last().len() implies g.children_of(p).contains(#[trigger] cs.drop_last()[j]) by {
                assert(cs.drop_last()[j] == cs[j]);
            }
            Gui::lemma_children_capture_frame(g, h, cs.drop_last(), p, input);
            assert(same_below(g, h, c)) by {
                assert forall|y: Id| g.live(y) && #[trigger] g.in_subtree(c, y) implies {
                    &&& h.kind(y).spec_captures() == g.kind(y).spec_captures()
                    &&& h.children_of(y) == g.children_of(y)
                } by {
                    Gui::lemma_subtree_trans(g, p, c, y);
                }
            }
            Gui::lemma_capture_frame(g, h, c, input);
        }
    }

    /// Nothing lies strictly between a widget and one of its children.
    proof fn lemma_child_adjacent(g: Gui, p: Id, c: Id)
        requires
            g.wf(),
            g.live(p),
            g.children_of(p).contains(c),
        ensures
            forall|z: Id| #[trigger] g.in_subtree(p, z) && #[trigger] g.in_subtree(z, c) ==> z == p || z == c,
    {
        Gui::lemma_child(g, p, c);
        assert forall|z: Id| #[trigger] g.in_subtree(p, z) && #[trigger] g.in_subtree(z, c) implies z == p || z == c by {
            if z != p && z != c {
                assert(g.parent_ok(c));
                if z == ROOT {
                    assert(!g.has_path(ROOT));
                } else {
                    assert(g.path(c).contains(z));
                    assert(p != ROOT);
                    assert(g.path(c) == g.path(p).push(p));
                    let k = choose|k: int| 0 <= k < g.path(c).len() && g.path(c)[k] == z;
                    assert(k < g.path(p).len());
                    assert(g.path(p)[k] == z);
                    assert(g.has_path(p));
                    Gui::lemma_path_prefix(g, z, p);
                    assert(g.has_path(z) && g.path(z).contains(p));
                    Gui::lemma_path_prefix(g, p, z);
                }
            }
        }
    }

    /// A widget strictly below `id` lies below one of the children of `id`.
    proof fn lemma_below_child(g: Gui, id: Id, y: Id) -> (c: Id)
        requires
            g.wf(),
            g.live(id),
            g.live(y),
            g.in_subtree(id, y),
            y != id,
        ensures
            g.children_of(id).contains(c),
            g.in_subtree(c, y),
        decreases y,
    {
        assert(g.has_path(y));
        assert(g.parent_ok(y));
        let p = g.parent_of(y);
        if p == id {
            y
        } else {
            if id != ROOT {
                assert(p != ROOT);
                assert(g.path(y) == g.path(p).push(p));
                let k = choose|k: int| 0 <= k < g.path(y).len() && g.path(y)[k] == id;
                assert(k < g.path(p).len());
                assert(g.path(p)[k] == id);
            }
            assert(g.live(p));
            if p != ROOT {
                assert(g.has_path(p));
            }
            let c = Gui::lemma_below_child(g, id, p);
            assert(g.in_subtree(p, y)) by {
                assert(g.path(y) == g.path(p).push(p));
                assert(g.path(y)[g.path(p).len() as int] == p);
            }
            Gui::lemma_child(g, id, c);
            Gui::lemma_subtree_trans(g, c, p, y);
            c
        }
    }

    /// Lets the widget `id` and the widgets below it live through one frame of `input`: first
    /// each child (in order) with the widgets below it, then, where none of them captures the
    /// mouse, the widget's own hover and press state; then the widget's own work on the events
    /// of its part of the tree. Returns what they capture.
    #[verifier::rlimit(40)]
    #[verifier::spinoff_prover]
    fn visit(&mut self, id: Id, input: &PointerInput) -> (cap: Capture)
        requires
            old(self).wf(),
            old(self).live(id),
        ensures
            final(self).grows_within(old(self), id),
            cap == tree_capture(*old(self), id, *input),
            forall|y: Id| old(self).live(y) && #[trigger] old(self).in_subtree(id, y) ==> pointer_state_after(*final(self), *old(self), y, *input),
            forall|y: Id| #[trigger] pointer_events_of(final(self).pending_since(old(self).pending().len()), y) == (if old(self).live(y) && old(self).in_subtree(id, y) {
                expected_pointer_events(*old(self), y, *input)
            } else {
                Seq::<Event>::empty()
            }),
            forall|y: Id| old(self).live(y) && #[trigger] old(self).in_subtree(id, y) && no_list_between(*old(self), id, y) ==> reacts(*final(self), *old(self), y, *input),
            forall|y: Id| old(self).live(y) && #[trigger] old(self).in_subtree(id, y) && no_list_between(*old(self), id, y) ==> reported(final(self).pending_since(old(self).pending().len()), *final(self), *old(self), y, *input),
            forall|y: Id| old(self).live(y) && #[trigger] old(self).in_subtree(id, y) && no_list_between(*old(self), id, y) ==> list_opens(*final(self), *old(self), y, *input),
            forall|y: Id| old(self).live(y) && #[trigger] old(self).in_subtree(id, y) && no_list_between(*old(self), id, y) ==> list_closes(*final(self), *old(self), y, *input),
            forall|y: Id| old(self).live(y) && #[trigger] old(self).in_subtree(id, y) && no_list_between(*old(self), id, y)
                ==> other_events_of(final(self).pending_since(old(self).pending().len()), y) == own_changes(*final(self), *old(self), y, *input),
        decreases ID_LIMIT - id,
    {
        let ghost g0 = *self;
        let prev_len = self.events.len();
        let children = self.widget_ref(id).children.clone();
        let mut cap = Capture::none();
        proof {
            self.lemma_grows_refl(id);
            assert(children@.take(0) =~= Seq::<Id>::empty());
            assert(id <= g0.last_id());
            assert(self.pending_since(prev_len as nat) =~= Seq::<Event>::empty());
            assert forall|y: Id| #[trigger] pointer_events_of(self.pending_since(prev_len as nat), y) == Seq::<Event>::empty() by {
                lemma_filter_none(self.pending_since(prev_len as nat), caused_on(y));
            }
        }
        let mut i: usize = 0;
        while i < children.len()
            invariant
                g0 == *old(self),
                g0.wf(),
                g0.live(id),
                id <= g0.last_id(),
                children@ == g0.children_of(id),
                i <= children@.len(),
                self.grows_within(&g0, id),
                prev_len == g0.pending().len(),
                cap == children_capture(g0, children@.take(i as int), id, *input),
                self.widget(id) == g0.widget(id),
                forall|y: Id| g0.live(y) && #[trigger] g0.in_subtree(id, y) && y != id && !below_first(g0, children@, i as int, y) ==> self.widget(y) == g0.widget(y),
                forall|y: Id| g0.live(y) && #[trigger] below_first(g0, children@, i as int, y) ==> pointer_state_after(*self, g0, y, *input),
                forall|y: Id| #[trigger] pointer_events_of(self.pending_since(prev_len as nat), y) == (if g0.live(y) && below_first(g0, children@, i as int, y) {
                    expected_pointer_events(g0, y, *input)
                } else {
                    Seq::<Event>::empty()
                }),
                forall|y: Id| #[trigger] self.live(y) && !g0.live(y) ==> below_first(*self, children@, i as int, y),
                forall|y: Id| g0.live(y) && #[trigger] below_first(g0, children@, i as int, y) && no_list_inside(g0, id, y) ==> reacts(*self, g0, y, *input),
                forall|k: int| 0 <= k < self.pending_since(prev_len as nat).len() ==> self.live(#[trigger] self.pending_since(prev_len as nat)[k].id)
                    && below_first(*self, children@, i as int, self.pending_since(prev_len as nat)[k].id),
                forall|y: Id| g0.live(y) && #[trigger] below_first(g0, children@, i as int, y) && no_list_inside(g0, id, y) ==> reported(self.pending_since(prev_len as nat), *self, g0, y, *input),
                forall|y: Id| g0.live(y) && #[trigger] below_first(g0, children@, i as int, y) && no_list_inside(g0, id, y) ==> list_opens(*self, g0, y, *input),
                forall|y: Id| g0.live(y) && #[trigger] below_first(g0, children@, i as int, y) && no_list_inside(g0, id, y) ==> list_closes(*self, g0, y, *input),
                forall|y: Id| g0.live(y) && #[trigger] below_first(g0, children@, i as int, y) && no_list_inside(g0, id, y)
                    ==> other_events_of(self.pending_since(prev_len as nat), y) == own_changes(*self, g0, y, *input),
            decreases children@.len() - i,
        {
            let c = children[i];
            let ghost gi = *self;
            proof {
                assert(g0.children_of(id).contains(c)) by {
                    assert(g0.children_of(id)[i as int] == c);
                }
                Gui::lemma_child(g0, id, c);
                assert(gi.live(c));
                assert(same_below(g0, gi, c)) by {
                    assert forall|y: Id| g0.live(y) && #[trigger] g0.in_subtree(c, y) implies {
                        &&& gi.kind(y).spec_captures() == g0.kind(y).spec_captures()
                        &&& gi.children_of(y) == g0.children_of(y)
                    } by {
                        Gui::lemma_subtree_trans(g0, id, c, y);
                        if y == id {
                            assert(g0.in_subtree(id, c));
                            // c lies below id, so id does not lie below c
                        }
                        assert(y != id);
                        if below_first(g0, children@, i as int, y) {
                            let j = choose|j: int| 0 <= j < i && #[trigger] g0.in_subtree(children@[j], y);
                            assert(g0.children_of(id).contains(children@[j])) by {
                                assert(g0.children_of(id)[j] == children@[j]);
                            }
                            assert(children@.no_duplicates()) by {
                                assert(g0.children_ok(id));
                            }
                            assert(children@[j] != c);
                            Gui::lemma_sibling_disjoint(g0, id, children@[j], c, y);
                        }
                    }
                }
                Gui::lemma_capture_frame(g0, gi, c, *input);
            }
            let cc = self.visit(c, input);
            proof {
                assert(gi.in_subtree(id, c)) by {
                    assert(g0.has_path(c));
                }
                self.lemma_grows_widen(&gi, c, id);
                self.lemma_grows_trans(&gi, &g0, id);
                assert(children@.take(i + 1).drop_last() =~= children@.take(i as int));
                assert(children@.take(i + 1).last() == c);
                assert(!gi.in_subtree(c, id)) by {
                    if id != ROOT {
                        assert(g0.has_path(id));
                        assert(gi.path(id) == g0.path(id));
                    }
                }
                assert(self.widget(id) == g0.widget(id));
                assert forall|y: Id| g0.live(y) && #[trigger] g0.in_subtree(id, y) && y != id && !below_first(g0, children@, i + 1, y) implies self.widget(y) == g0.widget(y) by {
                    assert(!g0.in_subtree(children@[i as int], y));
                    if !below_first(g0, children@, i as int, y) {
                        assert(gi.widget(y) == g0.widget(y));
                    } else {
                        let j = choose|j: int| 0 <= j < i && #[trigger] g0.in_subtree(children@[j], y);
                        assert(below_first(g0, children@, i + 1, y));
                    }
                    if y != ROOT {
                        assert(g0.has_path(y));
                        assert(gi.path(y) == g0.path(y));
                    }
                    assert(!gi.in_subtree(c, y));
                }
                assert forall|y: Id| g0.live(y) && #[trigger] below_first(g0, children@, i + 1, y) implies pointer_state_after(*self, g0, y, *input) by {
                    if y != ROOT {
                        assert(g0.has_path(y));
                        assert(gi.path(y) == g0.path(y));
                    }
                    if g0.in_subtree(c, y) {
                        assert(gi.live(y));
                        assert(gi.in_subtree(c, y));
                        Gui::lemma_subtree_trans(g0, id, c, y);
                        assert(y != id);
                        if below_first(g0, children@, i as int, y) {
                            let j = choose|j: int| 0 <= j < i && #[trigger] g0.in_subtree(children@[j], y);
                            assert(g0.children_of(id).contains(children@[j])) by {
                                assert(g0.children_of(id)[j] == children@[j]);
                            }
                            assert(children@.no_duplicates()) by {
                                assert(g0.children_ok(id));
                            }
                            assert(children@[j] != c);
                            Gui::lemma_sibling_disjoint(g0, id, children@[j], c, y);
                        }
                        assert(gi.widget(y) == g0.widget(y));
                        assert(same_below(g0, gi, y)) by {
                            assert forall|z: Id| g0.live(z) && #[trigger] g0.in_subtree(y, z) implies {
                                &&& gi.kind(z).spec_captures() == g0.kind(z).spec_captures()
                                &&& gi.children_of(z) == g0.children_of(z)
                            } by {
                                Gui::lemma_subtree_trans(g0, c, y, z);
                            }
                        }
                        Gui::lemma_children_capture_frame(g0, gi, g0.children_of(y), y, *input);
                        assert(pointer_state_after(*self, gi, y, *input));
                    } else {
                        let j = choose|j: int| 0 <= j < i + 1 && #[trigger] g0.in_subtree(children@[j], y);
                        assert(j != i);
                        assert(below_first(g0, children@, i as int, y));
                        assert(pointer_state_after(gi, g0, y, *input));
                        assert(!gi.in_subtree(c, y));
                        assert(self.widget(y) == gi.widget(y));
                    }
                }
            }
            proof {
                Gui::lemma_child_step_events(*self, gi, g0, id, children@, i as int, *input);
                Gui::lemma_child_step_buttons(*self, gi, g0, id, children@, i as int, *input);
                Gui::lemma_child_step_reports(*self, gi, g0, id, children@, i as int, *input);
                Gui::lemma_child_step_events_below(*self, gi, g0, id, children@, i as int, *input);
                Gui::lemma_child_step_opens(*self, gi, g0, id, children@, i as int, *input);
                Gui::lemma_child_step_others(*self, gi, g0, id, children@, i as int, *input);
                Gui::lemma_child_step_closes(*self, gi, g0, id, children@, i as int, *input);
            }
            cap.bitor_assign(cc);
            i += 1;
        }
        proof {
            assert(children@.take(children@.len() as int) =~= children@);
        }
        let ghost gp = *self;
        let ghost cap0 = cap;
        if !cap.mouse {
            let step = self.pointer_step(id, input);
            proof {
                self.lemma_step_grows(&gp, id, *input);
                self.lemma_grows_trans(&gp, &g0, id);
            }
            cap.bitor_assign(step);
        }
        let local = self.events_since(prev_len);
        proof {
            assert forall|k: int| 0 <= k < local@.len() implies #[trigger] local@[k].id <= self.last_id() by {
                assert(local@[k] == self.pending()[prev_len + k]);
                assert(self.live(self.pending()[prev_len + k].id));
            }
        }
        proof {
            assert(cap0 == children_capture(g0, g0.children_of(id), id, *input));
            assert(gp.widget(id) == g0.widget(id));
            if step_runs(g0, id, *input) {
                assert(self.pending() == gp.pending() + expected_pointer_events(g0, id, *input));
            } else {
                assert(self.pending() =~= gp.pending() + expected_pointer_events(g0, id, *input));
            }
            Gui::lemma_own_step_events(*self, gp, g0, id, children@, *input);
        }
        let ghost gu = *self;
        proof {
            if step_runs(g0, id, *input) {
                assert(gu.children_of(id) == g0.children_of(id));
            } else {
                assert(gu == gp);
            }
            assert(gu.removal_queue() == gp.removal_queue());
            assert forall|x: Id| #[trigger] gp.live(x) == gu.live(x) by {}
            Gui::lemma_children_toggles_quiet(gu, gp, g0, id, children@, *input);
        }
        self.widget_update(id, &local);
        proof {
            self.lemma_grows_trans(&gu, &g0, id);
            lemma_since_split(*self, gu, g0);
            assert forall|y: Id| #[trigger] pointer_events_of(self.pending_since(prev_len as nat), y) == pointer_events_of(gu.pending_since(prev_len as nat), y) by {
                Seq::filter_distributes_over_add(gu.pending_since(prev_len as nat), self.pending_since(gu.pending().len()), caused_on(y));
                assert forall|k: int| 0 <= k < self.pending_since(gu.pending().len()).len() implies !caused_on(y)(#[trigger] self.pending_since(gu.pending().len())[k]) by {
                    assert(self.pending_since(gu.pending().len())[k] == self.pending()[gu.pending().len() + k]);
                }
                lemma_filter_none(self.pending_since(gu.pending().len()), caused_on(y));
                assert(pointer_events_of(gu.pending_since(prev_len as nat), y) + Seq::<Event>::empty() =~= pointer_events_of(gu.pending_since(prev_len as nat), y));
            }
            assert(gu.kind(id) == g0.kind(id));
            assert(local@ == gu.pending_since(prev_len as nat));
            assert(pointer_events_of(local@, id) == expected_pointer_events(g0, id, *input));
            assert forall|y: Id| y != id && gp.live(y) implies #[trigger] gu.widget(y) == gp.widget(y) by {}
            assert forall|y: Id| #[trigger] g0.live(y) implies gp.live(y) && gu.live(y) by {}
            Gui::lemma_own_step_buttons(*self, gu, gp, g0, id, children@, local@, *input);
            Gui::lemma_own_step_reports(*self, gu, gp, g0, id, children@, local@, *input);
            Gui::lemma_own_step_opens(*self, gu, gp, g0, id, children@, local@, *input);
            Gui::lemma_own_list_closes(*self, gu, gp, g0, id, children@, local@, *input);
            Gui::lemma_own_step_closes(*self, gu, gp, g0, id, children@, local@, *input);
            Gui::lemma_local_not_about(gu, gp, g0, id, children@, *input);
            Gui::lemma_below_first_all(g0, id, children@);
            Gui::lemma_own_step_others_self(*self, gu, gp, g0, id, local@, *input);
            if !is_list(gu.kind(id)) {
                assert forall|y: Id| y != id && g0.live(y) implies #[trigger] self.kind(y) == gp.kind(y) by {
                    assert(gp.live(y));
                    assert(gu.widget(y) == gp.widget(y));
                    assert(gu.live(y));
                }
            }
            Gui::lemma_own_step_others_below(*self, gu, gp, g0, id, children@, *input);
            assert forall|y: Id| g0.live(y) && #[trigger] g0.in_subtree(id, y) && no_list_between(g0, id, y)
                implies other_events_of(self.pending_since(g0.pending().len()), y) == own_changes(*self, g0, y, *input) by {
                if y == id {
                }
            }
            assert forall|y: Id| g0.live(y) && #[trigger] g0.in_subtree(id, y) implies pointer_state_after(*self, g0, y, *input) by {
                assert(gu.live(y));
                if y != id {
                    let c = Gui::lemma_below_child(g0, id, y);
                    let j = choose|j: int| 0 <= j < g0.children_of(id).len() && g0.children_of(id)[j] == c;
                    assert(children@[j] == c);
                    assert(below_first(g0, children@, children@.len() as int, y));
                    assert(gp.live(y));
                    assert(gu.widget(y) == gp.widget(y));
                }
            }
        }
        cap
    }
}

impl Gui {
    /// How the events that the mouse caused grow when the `i`-th child of `id` has lived
    /// through its frame (see `visit`).
    proof fn lemma_child_step_events(g: Gui, gi: Gui, g0: Gui, id: Id, children: Seq<Id>, i: int, input: PointerInput)
        requires
            g0.wf(),
            g0.live(id),
            children == g0.children_of(id),
            0 <= i < children.len(),
            gi.wf(),
            gi.grows_within(&g0, id),
            gi.widget(id) == g0.widget(id),
            forall|y: Id| g0.live(y) && #[trigger] g0.in_subtree(id, y) && y != id && !below_first(g0, children, i, y) ==> gi.widget(y) == g0.widget(y),
            forall|y: Id| #[trigger] pointer_events_of(gi.pending_since(g0.pending().len()), y) == (if g0.live(y) && below_first(g0, children, i, y) {
                expected_pointer_events(g0, y, input)
            } else {
                Seq::<Event>::empty()
            }),
            forall|y: Id| #[trigger] gi.live(y) && !g0.live(y) ==> below_first(gi, children, i, y),
            g.grows_within(&gi, children[i]),
            forall|y: Id| #[trigger] pointer_events_of(g.pending_since(gi.pending().len()), y) == (if gi.live(y) && gi.in_subtree(children[i], y) {
                expected_pointer_events(gi, y, input)
            } else {
                Seq::<Event>::empty()
            }),
        ensures
            forall|y: Id| #[trigger] pointer_events_of(g.pending_since(g0.pending().len()), y) == (if g0.live(y) && below_first(g0, children, i + 1, y) {
                expected_pointer_events(g0, y, input)
            } else {
                Seq::<Event>::empty()
            }),
            forall|y: Id| #[trigger] g.live(y) && !g0.live(y) ==> below_first(g, children, i + 1, y),
    {
        let c = children[i];
        let prev_len = g0.pending().len();
        assert(g0.children_of(id).contains(c)) by {
            assert(g0.children_of(id)[i] == c);
        }
        Gui::lemma_child(g0, id, c);
        assert(same_below(g0, gi, c)) by {
            assert forall|y: Id| g0.live(y) && #[trigger] g0.in_subtree(c, y) implies {
                &&& gi.kind(y).spec_captures() == g0.kind(y).spec_captures()
                &&& gi.children_of(y) == g0.children_of(y)
            } by {
                Gui::lemma_subtree_trans(g0, id, c, y);
                assert(y != id);
                if below_first(g0, children, i, y) {
                    let j = choose|j: int| 0 <= j < i && #[trigger] g0.in_subtree(children[j], y);
                    assert(g0.children_of(id).contains(children[j])) by {
                        assert(g0.children_of(id)[j] == children[j]);
                    }
                    assert(children.no_duplicates()) by {
                        assert(g0.children_ok(id));
                    }
                    assert(children[j] != c);
                    Gui::lemma_sibling_disjoint(g0, id, children[j], c, y);
                }
            }
        }

                lemma_since_split(g, gi, g0);
                assert(gi.children_of(id) == g0.children_of(id));
                assert forall|y: Id| #[trigger] g.live(y) && !g0.live(y) implies below_first(g, children, i + 1, y) by {
                    if gi.live(y) {
                        assert(below_first(gi, children, i, y));
                        let j = choose|j: int| 0 <= j < i && #[trigger] gi.in_subtree(children[j], y);
                        assert(gi.has_path(y));
                        assert(g.path(y) == gi.path(y));
                        assert(g.in_subtree(children[j], y));
                    } else {
                        assert(g.in_subtree(c, y));
                        assert(g.in_subtree(children[i], y));
                    }
                }
                assert forall|y: Id| #[trigger] pointer_events_of(g.pending_since(prev_len), y) == (if g0.live(y) && below_first(g0, children, i + 1, y) {
                    expected_pointer_events(g0, y, input)
                } else {
                    Seq::<Event>::empty()
                }) by {
                    Seq::filter_distributes_over_add(gi.pending_since(prev_len), g.pending_since(gi.pending().len()), caused_on(y));
                    let before = pointer_events_of(gi.pending_since(prev_len), y);
                    let now = pointer_events_of(g.pending_since(gi.pending().len()), y);
                    if y != ROOT && g0.live(y) {
                        assert(g0.has_path(y));
                        assert(gi.path(y) == g0.path(y));
                    }
                    if gi.live(y) && gi.in_subtree(c, y) {
                        // y lies below c, and not below an earlier child
                        if g0.live(y) {
                            assert(g0.in_subtree(c, y));
                            Gui::lemma_subtree_trans(g0, id, c, y);
                            assert(y != id);
                            if below_first(g0, children, i, y) {
                                let j = choose|j: int| 0 <= j < i && #[trigger] g0.in_subtree(children[j], y);
                                assert(g0.children_of(id).contains(children[j])) by {
                                    assert(g0.children_of(id)[j] == children[j]);
                                }
                                assert(children.no_duplicates()) by {
                                    assert(g0.children_ok(id));
                                }
                                assert(children[j] != c);
                                Gui::lemma_sibling_disjoint(g0, id, children[j], c, y);
                            }
                            assert(gi.widget(y) == g0.widget(y));
                            assert(same_below(g0, gi, y)) by {
                                assert forall|z: Id| g0.live(z) && #[trigger] g0.in_subtree(y, z) implies {
                                    &&& gi.kind(z).spec_captures() == g0.kind(z).spec_captures()
                                    &&& gi.children_of(z) == g0.children_of(z)
                                } by {
                                    Gui::lemma_subtree_trans(g0, c, y, z);
                                }
                            }
                            Gui::lemma_children_capture_frame(g0, gi, g0.children_of(y), y, input);
                            assert(expected_pointer_events(gi, y, input) == expected_pointer_events(g0, y, input));
                            assert(below_first(g0, children, i + 1, y));
                            assert(before == Seq::<Event>::empty());
                            assert(before + now =~= now);
                        } else {
                            // a widget made during this frame below an earlier child
                            assert(below_first(gi, children, i, y));
                            let j = choose|j: int| 0 <= j < i && #[trigger] gi.in_subtree(children[j], y);
                            assert(gi.children_of(id).contains(children[j])) by {
                                assert(gi.children_of(id)[j] == children[j]);
                            }
                            assert(gi.children_of(id).contains(c)) by {
                                assert(gi.children_of(id)[i] == c);
                            }
                            assert(children.no_duplicates()) by {
                                assert(g0.children_ok(id));
                            }
                            Gui::lemma_sibling_disjoint(gi, id, children[j], c, y);
                        }
                    } else {
                        assert(now == Seq::<Event>::empty());
                        assert(before + now =~= before);
                        if g0.live(y) && below_first(g0, children, i + 1, y) && !below_first(g0, children, i, y) {
                            let j = choose|j: int| 0 <= j < i + 1 && #[trigger] g0.in_subtree(children[j], y);
                            assert(j == i);
                            assert(gi.in_subtree(c, y));
                        }
                        if g0.live(y) && below_first(g0, children, i, y) {
                            let j = choose|j: int| 0 <= j < i && #[trigger] g0.in_subtree(children[j], y);
                            assert(below_first(g0, children, i + 1, y));
                        }
                    }
                }
            
    }

    /// The events collected at and below `id` are about widgets below the children visited,
    /// once the `i`-th child of `id` has lived through its frame (see `visit`).
    proof fn lemma_child_step_events_below(g: Gui, gi: Gui, g0: Gui, id: Id, children: Seq<Id>, i: int, input: PointerInput)
        requires
            g0.wf(),
            g0.live(id),
            children == g0.children_of(id),
            0 <= i < children.len(),
            gi.wf(),
            gi.grows_within(&g0, id),
            gi.widget(id) == g0.widget(id),
            forall|z: Id| g0.live(z) && #[trigger] g0.in_subtree(id, z) && z != id && !below_first(g0, children, i, z) ==> gi.widget(z) == g0.widget(z),
            forall|z: Id| #[trigger] gi.live(z) && !g0.live(z) ==> below_first(gi, children, i, z),
            forall|k: int| 0 <= k < gi.pending_since(g0.pending().len()).len() ==> gi.live(#[trigger] gi.pending_since(g0.pending().len())[k].id)
                && below_first(gi, children, i, gi.pending_since(g0.pending().len())[k].id),
            g.grows_within(&gi, children[i]),
        ensures
            forall|k: int| 0 <= k < g.pending_since(g0.pending().len()).len() ==> g.live(#[trigger] g.pending_since(g0.pending().len())[k].id)
                && below_first(g, children, i + 1, g.pending_since(g0.pending().len())[k].id),
    {
        let c = children[i];
        let prev = g0.pending().len();
        let old_part = gi.pending_since(prev);
        let new_part = g.pending_since(gi.pending().len());
        let all = g.pending_since(prev);
        lemma_since_split(g, gi, g0);
        assert(g0.children_of(id).contains(c)) by {
            assert(g0.children_of(id)[i] == c);
        }
        Gui::lemma_child(g0, id, c);
        assert(children.no_duplicates()) by {
            assert(g0.children_ok(id));
        }
        assert(gi.children_of(id) == g0.children_of(id));
        assert forall|k: int| 0 <= k < new_part.len() implies g.live(#[trigger] new_part[k].id) && g.in_subtree(c, new_part[k].id) by {
            assert(new_part[k] == g.pending()[gi.pending().len() + k]);
        }
        assert forall|k: int| 0 <= k < all.len() implies g.live(#[trigger] all[k].id) && below_first(g, children, i + 1, all[k].id) by {
            if k < old_part.len() {
                assert(all[k] == old_part[k]);
                let x = old_part[k].id;
                let j = choose|j: int| 0 <= j < i && #[trigger] gi.in_subtree(children[j], x);
                if x != ROOT {
                    assert(gi.has_path(x));
                    assert(g.path(x) == gi.path(x));
                }
                assert(g.in_subtree(children[j], x));
            } else {
                assert(all[k] == new_part[k - old_part.len()]);
                assert(g.in_subtree(children[i], all[k].id));
            }
        }
    }

    /// The events collected at and below `id` once `id` followed the mouse itself hold no change
    /// of the state of a toggle button among its children that the mouse did not go down on.
    proof fn lemma_children_toggles_quiet(gu: Gui, gp: Gui, g0: Gui, id: Id, children: Seq<Id>, input: PointerInput)
        requires
            g0.wf(),
            g0.live(id),
            children == g0.children_of(id),
            gp.pending().len() >= g0.pending().len(),
            forall|y: Id| g0.live(y) && #[trigger] below_first(g0, children, children.len() as int, y) && no_list_inside(g0, id, y) ==> reported(gp.pending_since(g0.pending().len()), gp, g0, y, input),
            gu.pending() == gp.pending() + expected_pointer_events(g0, id, input),
        ensures
            forall|j: int| 0 <= j < children.len() && g0.kind(#[trigger] children[j]) is ToggleButton && !pressed_on(g0, children[j], input) ==> !gu.pending_since(g0.pending().len()).contains(toggled(children[j])),
    {
        let prev = g0.pending().len();
        let before = gp.pending_since(prev);
        let own = expected_pointer_events(g0, id, input);
        assert(gu.pending_since(prev) =~= before + own);
        lemma_expected_pointer_only(g0, id, input);
        assert forall|j: int| 0 <= j < children.len() && g0.kind(#[trigger] children[j]) is ToggleButton && !pressed_on(g0, children[j], input) implies !gu.pending_since(prev).contains(toggled(children[j])) by {
            let x = children[j];
            assert(g0.children_of(id).contains(x)) by {
                assert(g0.children_of(id)[j] == x);
            }
            Gui::lemma_child(g0, id, x);
            Gui::lemma_child_adjacent(g0, id, x);
            assert(g0.in_subtree(x, x));
            assert(below_first(g0, children, children.len() as int, x));
            assert(no_list_inside(g0, id, x));
            lemma_contains_concat(before, own, toggled(x));
        }
    }

    /// Before the `i`-th child `c` of `id` lives through its frame, the widgets at and below a
    /// widget `y` below `c` are those there before any child did, unchanged, and the mouse goes
    /// down on them exactly as it would have then.
    proof fn lemma_pressed_frame(gi: Gui, g0: Gui, id: Id, children: Seq<Id>, i: int, y: Id, input: PointerInput)
        requires
            g0.wf(),
            g0.live(id),
            children == g0.children_of(id),
            0 <= i < children.len(),
            gi.wf(),
            gi.grows_within(&g0, id),
            gi.widget(id) == g0.widget(id),
            forall|z: Id| g0.live(z) && #[trigger] g0.in_subtree(id, z) && z != id && !below_first(g0, children, i, z) ==> gi.widget(z) == g0.widget(z),
            forall|z: Id| #[trigger] gi.live(z) && !g0.live(z) ==> below_first(gi, children, i, z),
            g0.live(y),
            g0.in_subtree(children[i], y),
        ensures
            forall|z: Id| gi.live(z) && #[trigger] gi.in_subtree(y, z) ==> g0.live(z) && g0.in_subtree(y, z),
            forall|z: Id| g0.live(z) && #[trigger] g0.in_subtree(y, z) ==> {
                &&& gi.live(z)
                &&& gi.in_subtree(y, z)
                &&& gi.widget(z) == g0.widget(z)
                &&& pressed_on(gi, z, input) == pressed_on(g0, z, input)
                &&& released_on(gi, z, input) == released_on(g0, z, input)
            },
    {
        let c = children[i];
        assert(g0.children_of(id).contains(c)) by {
            assert(g0.children_of(id)[i] == c);
        }
        Gui::lemma_child(g0, id, c);
        assert(children.no_duplicates()) by {
            assert(g0.children_ok(id));
        }
        assert(gi.children_of(id) == g0.children_of(id));
        if y != ROOT {
            assert(g0.has_path(y));
            assert(gi.path(y) == g0.path(y));
        }
        assert(gi.in_subtree(c, y)) by {
            if y != c {
                assert(g0.has_path(y));
            }
        }
        assert(gi.live(y));
        assert forall|z: Id| gi.live(z) && #[trigger] gi.in_subtree(y, z) implies g0.live(z) && g0.in_subtree(y, z) by {
            Gui::lemma_subtree_trans(gi, c, y, z);
            if !g0.live(z) {
                let j = choose|j: int| 0 <= j < i && #[trigger] gi.in_subtree(children[j], z);
                assert(gi.children_of(id).contains(children[j])) by {
                    assert(gi.children_of(id)[j] == children[j]);
                }
                assert(gi.children_of(id).contains(c)) by {
                    assert(gi.children_of(id)[i] == c);
                }
                assert(children[j] != c);
                Gui::lemma_sibling_disjoint(gi, id, children[j], c, z);
            }
            if z != ROOT {
                assert(g0.has_path(z));
                assert(gi.path(z) == g0.path(z));
            }
        }
        assert forall|z: Id| g0.live(z) && #[trigger] g0.in_subtree(y, z) implies {
            &&& gi.live(z)
            &&& gi.in_subtree(y, z)
            &&& gi.widget(z) == g0.widget(z)
            &&& pressed_on(gi, z, input) == pressed_on(g0, z, input)
            &&& released_on(gi, z, input) == released_on(g0, z, input)
        } by {
            if z != ROOT {
                assert(g0.has_path(z));
                assert(gi.path(z) == g0.path(z));
            }
            Gui::lemma_subtree_trans(g0, c, y, z);
            Gui::lemma_subtree_trans(g0, id, c, z);
            assert(z != id) by {
                if z == id {
                    assert(g0.in_subtree(c, id));
                }
            }
            if below_first(g0, children, i, z) {
                let j = choose|j: int| 0 <= j < i && #[trigger] g0.in_subtree(children[j], z);
                assert(g0.children_of(id).contains(children[j])) by {
                    assert(g0.children_of(id)[j] == children[j]);
                }
                assert(children[j] != c);
                Gui::lemma_sibling_disjoint(g0, id, children[j], c, z);
            }
            assert(gi.widget(z) == g0.widget(z));
            assert(same_below(g0, gi, z)) by {
                assert forall|w: Id| g0.live(w) && #[trigger] g0.in_subtree(z, w) implies {
                    &&& gi.kind(w).spec_captures() == g0.kind(w).spec_captures()
                    &&& gi.children_of(w) == g0.children_of(w)
                } by {
                    Gui::lemma_subtree_trans(g0, c, z, w);
                    Gui::lemma_subtree_trans(g0, id, c, w);
                    if w == id {
                        assert(g0.in_subtree(c, id));
                    }
                    if below_first(g0, children, i, w) {
                        let j = choose|j: int| 0 <= j < i && #[trigger] g0.in_subtree(children[j], w);
                        assert(g0.children_of(id).contains(children[j])) by {
                            assert(g0.children_of(id)[j] == children[j]);
                        }
                        assert(children[j] != c);
                        Gui::lemma_sibling_disjoint(g0, id, children[j], c, w);
                    }
                }
            }
            Gui::lemma_children_capture_frame(g0, gi, g0.children_of(z), z, input);
        }
    }

    /// A widget `y` of `gi` that reacted in `g` as `reacts` says has reacted as the same widget
    /// of `g0` would have, where the widgets at and below it are those of `g0`, unchanged, and
    /// the mouse goes down on them as it would have in `g0`.
    proof fn lemma_reacts_frame(g: Gui, gi: Gui, g0: Gui, y: Id, input: PointerInput)
        requires
            g0.wf(),
            g0.live(y),
            forall|z: Id| gi.live(z) && #[trigger] gi.in_subtree(y, z) ==> g0.live(z) && g0.in_subtree(y, z),
            forall|z: Id| g0.live(z) && #[trigger] g0.in_subtree(y, z) ==> {
                &&& gi.live(z)
                &&& gi.in_subtree(y, z)
                &&& gi.widget(z) == g0.widget(z)
                &&& pressed_on(gi, z, input) == pressed_on(g0, z, input)
                &&& released_on(gi, z, input) == released_on(g0, z, input)
            },
            reacts(g, gi, y, input),
        ensures
            reacts(g, g0, y, input),
    {
        reveal(reacts);
        assert(g0.in_subtree(y, y));
        assert(untouched(g0, y, input) ==> untouched(gi, y, input));
        assert forall|opt: Seq<(usize, usize)>, n: nat, z: Id| #[trigger] option_pressed_on(gi, y, opt, n, z, input) == option_pressed_on(g0, y, opt, n, z, input) by {
            if gi.live(z) && gi.in_subtree(y, z) {
                assert(g0.live(z) && g0.in_subtree(y, z));
            }
        }
        if g0.kind(y) is Select {
            let s = g0.kind(y)->Select_0;
            let main = s.main_button_id;
            let opt = option_entries(s.opt_map);
            let n = s.options@.len();
            if g0.main_ok(y, main) && !pressed_on(g0, main, input) && one_option_pressed_at_most(g0, y, opt, n, input) {
                Gui::lemma_child(g0, y, main);
                assert(gi.main_ok(y, main));
                assert(one_option_pressed_at_most(gi, y, opt, n, input));
                Gui::lemma_option_pressed_same(gi, g0, y, opt, n, input);
            }
        }
        if g0.kind(y) is DropdownButton {
            let d = g0.kind(y)->DropdownButton_0;
            let main = d.main_button_id;
            let opt = option_entries(d.opt_map);
            let n = d.options@.len();
            if g0.main_ok(y, main) && !pressed_on(g0, main, input) && one_option_pressed_at_most(g0, y, opt, n, input) {
                Gui::lemma_child(g0, y, main);
                assert(gi.main_ok(y, main));
                assert(one_option_pressed_at_most(gi, y, opt, n, input));
                Gui::lemma_option_pressed_same(gi, g0, y, opt, n, input);
            }
        }
    }

    /// Where the mouse goes down on the same buttons of options in two guis, and on at most one,
    /// it goes down on the same option.
    proof fn lemma_option_pressed_same(gi: Gui, g0: Gui, y: Id, opt: Seq<(usize, usize)>, n: nat, input: PointerInput)
        requires
            forall|z: Id| #[trigger] option_pressed_on(gi, y, opt, n, z, input) == option_pressed_on(g0, y, opt, n, z, input),
            one_option_pressed_at_most(g0, y, opt, n, input),
        ensures
            option_pressed(gi, y, opt, n, input) == option_pressed(g0, y, opt, n, input),
    {
        if exists|z: Id| #[trigger] option_pressed_on(g0, y, opt, n, z, input) {
            let a = choose|z: Id| #[trigger] option_pressed_on(gi, y, opt, n, z, input);
            let b = choose|z: Id| #[trigger] option_pressed_on(g0, y, opt, n, z, input);
            assert(option_pressed_on(gi, y, opt, n, b, input));
            assert(option_pressed_on(g0, y, opt, n, a, input));
            assert(a == b);
        } else {
            assert(!exists|z: Id| #[trigger] option_pressed_on(gi, y, opt, n, z, input));
        }
    }

    /// A widget `y` below the `i`-th child `c` of `id` with no select or dropdown button strictly
    /// between `id` and `y` has none between `c` and `y` either, before `c` lives through its
    /// frame.
    proof fn lemma_no_list_frame(gi: Gui, g0: Gui, id: Id, children: Seq<Id>, i: int, y: Id)
        requires
            g0.wf(),
            g0.live(id),
            children == g0.children_of(id),
            0 <= i < children.len(),
            gi.wf(),
            gi.grows_within(&g0, id),
            forall|z: Id| g0.live(z) && #[trigger] g0.in_subtree(id, z) && z != id && !below_first(g0, children, i, z) ==> gi.widget(z) == g0.widget(z),
            g0.live(y),
            g0.in_subtree(children[i], y),
            no_list_inside(g0, id, y),
        ensures
            gi.in_subtree(children[i], y),
            no_list_between(gi, children[i], y),
    {
        let c = children[i];
        assert(g0.children_of(id).contains(c)) by {
            assert(g0.children_of(id)[i] == c);
        }
        Gui::lemma_child(g0, id, c);
        assert(children.no_duplicates()) by {
            assert(g0.children_ok(id));
        }
        if y != ROOT {
            assert(g0.has_path(y));
            assert(gi.path(y) == g0.path(y));
        }
        Gui::lemma_subtree_trans(g0, id, c, y);
        assert(gi.in_subtree(c, y));
        assert(no_list_between(gi, c, y)) by {
            assert forall|z: Id| #[trigger] gi.in_subtree(c, z) && #[trigger] gi.in_subtree(z, y) && z != y implies !(gi.kind(z) is Select) && !(gi.kind(z) is DropdownButton) by {
                assert(gi.has_path(y));
                assert(gi.path(y).contains(z));
                Gui::lemma_path_prefix(g0, z, y);
                assert(g0.live(z));
                if z != ROOT {
                    assert(g0.has_path(z));
                    assert(gi.path(z) == g0.path(z));
                }
                assert(g0.in_subtree(c, z));
                assert(g0.in_subtree(z, y));
                Gui::lemma_subtree_trans(g0, id, c, z);
                assert(z != id) by {
                    if z == id {
                        assert(g0.in_subtree(c, id));
                    }
                }
                if z != id {
                    if below_first(g0, children, i, z) {
                        let j = choose|j: int| 0 <= j < i && #[trigger] g0.in_subtree(children[j], z);
                        assert(g0.children_of(id).contains(children[j])) by {
                            assert(g0.children_of(id)[j] == children[j]);
                        }
                        assert(children[j] != c);
                        Gui::lemma_sibling_disjoint(g0, id, children[j], c, z);
                    }
                    assert(gi.widget(z) == g0.widget(z));
                }
            }
        }
    }

    /// The events collected at and below `id` report what the toggle and radio buttons below
    /// the first `i + 1` children of `id` did, once the `i`-th child has lived through its frame
    /// (see `visit`).
    #[verifier::rlimit(30)]
    proof fn lemma_child_step_reports(g: Gui, gi: Gui, g0: Gui, id: Id, children: Seq<Id>, i: int, input: PointerInput)
        requires
            g0.wf(),
            g0.live(id),
            children == g0.children_of(id),
            0 <= i < children.len(),
            gi.wf(),
            gi.grows_within(&g0, id),
            gi.widget(id) == g0.widget(id),
            forall|z: Id| g0.live(z) && #[trigger] g0.in_subtree(id, z) && z != id && !below_first(g0, children, i, z) ==> gi.widget(z) == g0.widget(z),
            forall|z: Id| #[trigger] gi.live(z) && !g0.live(z) ==> below_first(gi, children, i, z),
            forall|k: int| 0 <= k < gi.pending_since(g0.pending().len()).len() ==> gi.live(#[trigger] gi.pending_since(g0.pending().len())[k].id)
                && below_first(gi, children, i, gi.pending_since(g0.pending().len())[k].id),
            forall|y: Id| g0.live(y) && #[trigger] below_first(g0, children, i, y) && no_list_inside(g0, id, y) ==> reported(gi.pending_since(g0.pending().len()), gi, g0, y, input),
            g.grows_within(&gi, children[i]),
            forall|y: Id| gi.live(y) && #[trigger] gi.in_subtree(children[i], y) && no_list_between(gi, children[i], y) ==> reported(g.pending_since(gi.pending().len()), g, gi, y, input),
        ensures
            forall|y: Id| g0.live(y) && #[trigger] below_first(g0, children, i + 1, y) && no_list_inside(g0, id, y) ==> reported(g.pending_since(g0.pending().len()), g, g0, y, input),
    {
        let c = children[i];
        let prev = g0.pending().len();
        let old_part = gi.pending_since(prev);
        let new_part = g.pending_since(gi.pending().len());
        let all = g.pending_since(prev);
        lemma_since_split(g, gi, g0);
        assert(g0.children_of(id).contains(c)) by {
            assert(g0.children_of(id)[i] == c);
        }
        Gui::lemma_child(g0, id, c);
        assert(children.no_duplicates()) by {
            assert(g0.children_ok(id));
        }
        assert(gi.children_of(id) == g0.children_of(id));
        assert forall|k: int| 0 <= k < new_part.len() implies g.live(#[trigger] new_part[k].id) && g.in_subtree(c, new_part[k].id) by {
            assert(new_part[k] == g.pending()[gi.pending().len() + k]);
        }
        assert forall|y: Id| g0.live(y) && #[trigger] below_first(g0, children, i + 1, y) && no_list_inside(g0, id, y) implies reported(all, g, g0, y, input) by {
            if y != ROOT {
                assert(g0.has_path(y));
                assert(gi.path(y) == g0.path(y));
                assert(gi.live(y));
                assert(gi.has_path(y));
                assert(g.path(y) == g0.path(y));
            }
            lemma_contains_concat(old_part, new_part, toggled(y));
            lemma_contains_concat(old_part, new_part, radio_switched(y));
            lemma_contains_concat(old_part, new_part, select_changed(y));
            if g0.in_subtree(c, y) {
                assert(gi.in_subtree(c, y));
                assert forall|e: Event| e.id == y implies !old_part.contains(e) by {
                    if old_part.contains(e) {
                        let k = choose|k: int| 0 <= k < old_part.len() && old_part[k] == e;
                        assert(below_first(gi, children, i, old_part[k].id));
                        let j2 = choose|j2: int| 0 <= j2 < i && #[trigger] gi.in_subtree(children[j2], y);
                        assert(gi.children_of(id).contains(children[j2])) by {
                            assert(gi.children_of(id)[j2] == children[j2]);
                        }
                        assert(gi.children_of(id).contains(c)) by {
                            assert(gi.children_of(id)[i] == c);
                        }
                        assert(children[j2] != c);
                        Gui::lemma_sibling_disjoint(gi, id, c, children[j2], y);
                    }
                }
                assert(!old_part.contains(toggled(y)));
                assert(!old_part.contains(radio_switched(y)));
                assert(!old_part.contains(select_changed(y)));
                Gui::lemma_no_list_frame(gi, g0, id, children, i, y);
                assert(gi.live(y));
                assert(reported(new_part, g, gi, y, input));
                Gui::lemma_pressed_frame(gi, g0, id, children, i, y, input);
                assert(g0.in_subtree(y, y));
            } else {
                let j = choose|j: int| 0 <= j < i + 1 && #[trigger] g0.in_subtree(children[j], y);
                assert(j != i);
                assert(below_first(g0, children, i, y));
                assert(g0.children_of(id).contains(children[j])) by {
                    assert(g0.children_of(id)[j] == children[j]);
                }
                assert forall|e: Event| e.id == y implies !new_part.contains(e) by {
                    if new_part.contains(e) {
                        let k = choose|k: int| 0 <= k < new_part.len() && new_part[k] == e;
                        assert(g.in_subtree(c, new_part[k].id));
                        assert(g0.in_subtree(c, y));
                        Gui::lemma_sibling_disjoint(g0, id, children[j], c, y);
                    }
                }
                assert(!new_part.contains(toggled(y)));
                assert(!new_part.contains(radio_switched(y)));
                assert(!new_part.contains(select_changed(y)));
                assert(gi.live(y));
                assert(!gi.in_subtree(c, y)) by {
                    if gi.in_subtree(c, y) {
                        assert(g0.in_subtree(c, y));
                        Gui::lemma_sibling_disjoint(g0, id, children[j], c, y);
                    }
                }
                assert(g.widget(y) == gi.widget(y));
            }
        }
    }

    /// The events collected at and below `id` report what the toggle and radio buttons at and
    /// below `id` did, once `id` itself has reacted (see `visit`).
    proof fn lemma_own_step_reports(g: Gui, gu: Gui, gp: Gui, g0: Gui, id: Id, children: Seq<Id>, local: Seq<Event>, input: PointerInput)
        requires
            g0.wf(),
            g0.live(id),
            children == g0.children_of(id),
            gp.wf(),
            gp.grows_within(&g0, id),
            forall|k: int| 0 <= k < gp.pending_since(g0.pending().len()).len() ==> gp.live(#[trigger] gp.pending_since(g0.pending().len())[k].id)
                && below_first(gp, children, children.len() as int, gp.pending_since(g0.pending().len())[k].id),
            forall|y: Id| g0.live(y) && #[trigger] below_first(g0, children, children.len() as int, y) && no_list_inside(g0, id, y) ==> reported(gp.pending_since(g0.pending().len()), gp, g0, y, input),
            gu.pending() == gp.pending() + expected_pointer_events(g0, id, input),
            local == gu.pending_since(g0.pending().len()),
            gu.kind(id) == g0.kind(id),
            pointer_events_of(local, id) == expected_pointer_events(g0, id, input),
            gu.pending().len() <= g.pending().len(),
            g.pending().take(gu.pending().len() as int) == gu.pending(),
            gu.kind(id) is ToggleButton ==> g.pending() == gu.pending() + change_events(id, Field::ToggleButtonState, count_events(local, id, EventKind::Press)),
            gu.kind(id) is RadioButton ==> g.pending() == gu.pending() + (if !gu.radio_state(id) && count_events(local, id, EventKind::Release) > 0 {
                change_events(id, Field::RadioButtonState, 1)
            } else {
                Seq::<Event>::empty()
            }),
            !(gu.kind(id) is Select) && !(gu.kind(id) is DropdownButton) ==> forall|k: int| gu.pending().len() <= k < g.pending().len() ==> (#[trigger] g.pending()[k]).id == id,
            gu.kind(id) is Select ==> g.kind(id) is Select && (g.pending_since(gu.pending().len()).contains(select_changed(id))
                <==> g.kind(id)->Select_0.spec_value() != gu.kind(id)->Select_0.spec_value()),
            forall|y: Id| #[trigger] g0.live(y) ==> gp.live(y) && gu.live(y),
            forall|y: Id| y != id && gp.live(y) ==> #[trigger] gu.widget(y) == gp.widget(y),
            !(gu.kind(id) is Select) && !(gu.kind(id) is DropdownButton) ==> forall|y: Id| y != id && gu.live(y) ==> #[trigger] g.widget(y) == gu.widget(y),
        ensures
            forall|y: Id| g0.live(y) && #[trigger] g0.in_subtree(id, y) && no_list_between(g0, id, y) ==> reported(g.pending_since(g0.pending().len()), g, g0, y, input),
    {
        let all = g.pending_since(g0.pending().len());
        assert forall|y: Id| g0.live(y) && #[trigger] g0.in_subtree(id, y) && no_list_between(g0, id, y) implies reported(all, g, g0, y, input) by {
            if y != id {
                Gui::lemma_own_step_report_below(g, gu, gp, g0, id, children, local, input, y);
            } else {
                Gui::lemma_own_report(g, gu, gp, g0, id, children, local, input);
            }
        }
    }

    /// The events collected at and below `id` report what a toggle or radio button or select
    /// `y` strictly below `id` did, once `id` itself has reacted (see `visit`).
    proof fn lemma_own_step_report_below(g: Gui, gu: Gui, gp: Gui, g0: Gui, id: Id, children: Seq<Id>, local: Seq<Event>, input: PointerInput, y: Id)
        requires
            g0.wf(),
            g0.live(id),
            children == g0.children_of(id),
            gp.wf(),
            gp.grows_within(&g0, id),
            forall|y: Id| g0.live(y) && #[trigger] below_first(g0, children, children.len() as int, y) && no_list_inside(g0, id, y) ==> reported(gp.pending_since(g0.pending().len()), gp, g0, y, input),
            gu.pending() == gp.pending() + expected_pointer_events(g0, id, input),
            local == gu.pending_since(g0.pending().len()),
            gu.kind(id) == g0.kind(id),
            gu.pending().len() <= g.pending().len(),
            g.pending().take(gu.pending().len() as int) == gu.pending(),
            !(gu.kind(id) is Select) && !(gu.kind(id) is DropdownButton) ==> forall|k: int| gu.pending().len() <= k < g.pending().len() ==> (#[trigger] g.pending()[k]).id == id,
            forall|y: Id| #[trigger] g0.live(y) ==> gp.live(y) && gu.live(y),
            forall|y: Id| y != id && gp.live(y) ==> #[trigger] gu.widget(y) == gp.widget(y),
            !(gu.kind(id) is Select) && !(gu.kind(id) is DropdownButton) ==> forall|y: Id| y != id && gu.live(y) ==> #[trigger] g.widget(y) == gu.widget(y),
            g0.live(y),
            g0.in_subtree(id, y),
            no_list_between(g0, id, y),
            y != id,
        ensures
            reported(g.pending_since(g0.pending().len()), g, g0, y, input),
    {
        let prev = g0.pending().len();
        let before = gp.pending_since(prev);
        let own = expected_pointer_events(g0, id, input);
        let widget = g.pending_since(gu.pending().len());
        let all = g.pending_since(prev);
        assert(local =~= before + own);
        assert(gp.pending().len() >= prev);
        lemma_since_split(g, gu, g0);
        Gui::lemma_below_first_all(g0, id, children);
        lemma_expected_pointer_only(g0, id, input);
        lemma_contains_concat(before, own, toggled(y));
        lemma_contains_concat(before, own, radio_switched(y));
        lemma_contains_concat(before, own, select_changed(y));
        lemma_contains_concat(local, widget, toggled(y));
        lemma_contains_concat(local, widget, radio_switched(y));
        lemma_contains_concat(local, widget, select_changed(y));
        assert(below_first(g0, children, children.len() as int, y));
        assert(no_list_inside(g0, id, y));
        assert(g0.in_subtree(id, id));
        assert(!(gu.kind(id) is Select) && !(gu.kind(id) is DropdownButton));
        assert forall|e: Event| e.id == y implies !widget.contains(e) by {
            if widget.contains(e) {
                let k = choose|k: int| 0 <= k < widget.len() && widget[k] == e;
                assert(widget[k] == g.pending()[gu.pending().len() + k]);
            }
        }
        assert(!widget.contains(toggled(y)));
        assert(!widget.contains(radio_switched(y)));
        assert(!widget.contains(select_changed(y)));
        assert(g.widget(y) == gp.widget(y));
    }

    /// The events collected below the children of `id` are not about `id`.
    proof fn lemma_children_events_not_about(gp: Gui, g0: Gui, id: Id, children: Seq<Id>)
        requires
            g0.wf(),
            g0.live(id),
            children == g0.children_of(id),
            gp.wf(),
            gp.grows_within(&g0, id),
            forall|k: int| 0 <= k < gp.pending_since(g0.pending().len()).len() ==> gp.live(#[trigger] gp.pending_since(g0.pending().len())[k].id)
                && below_first(gp, children, children.len() as int, gp.pending_since(g0.pending().len())[k].id),
        ensures
            forall|e: Event| e.id == id ==> !#[trigger] gp.pending_since(g0.pending().len()).contains(e),
    {
        let before = gp.pending_since(g0.pending().len());
        assert forall|e: Event| e.id == id implies !before.contains(e) by {
            if before.contains(e) {
                let k = choose|k: int| 0 <= k < before.len() && before[k] == e;
                assert(below_first(gp, children, children.len() as int, before[k].id));
                let j = choose|j: int| 0 <= j < children.len() && #[trigger] gp.in_subtree(children[j], id);
                assert(g0.children_of(id).contains(children[j])) by {
                    assert(g0.children_of(id)[j] == children[j]);
                }
                Gui::lemma_child(g0, id, children[j]);
                if id != ROOT {
                    assert(g0.has_path(id));
                    assert(gp.path(id) == g0.path(id));
                }
                assert(g0.in_subtree(children[j], id));
            }
        }
    }

    /// The events collected since `mid` are those pushed onto its events.
    proof fn lemma_pushed(g: Gui, mid: Gui, pushed: Seq<Event>)
        requires
            g.pending() == mid.pending() + pushed,
        ensures
            g.pending_since(mid.pending().len()) == pushed,
    {
        assert(g.pending_since(mid.pending().len()) =~= pushed);
    }

    /// The events collected at and below `id` report what `id` itself did, once it has reacted
    /// (see `visit`).
    proof fn lemma_own_report(g: Gui, gu: Gui, gp: Gui, g0: Gui, id: Id, children: Seq<Id>, local: Seq<Event>, input: PointerInput)
        requires
            g0.wf(),
            g0.live(id),
            children == g0.children_of(id),
            gp.wf(),
            gp.grows_within(&g0, id),
            forall|k: int| 0 <= k < gp.pending_since(g0.pending().len()).len() ==> gp.live(#[trigger] gp.pending_since(g0.pending().len())[k].id)
                && below_first(gp, children, children.len() as int, gp.pending_since(g0.pending().len())[k].id),
            gu.pending() == gp.pending() + expected_pointer_events(g0, id, input),
            local == gu.pending_since(g0.pending().len()),
            gu.kind(id) == g0.kind(id),
            pointer_events_of(local, id) == expected_pointer_events(g0, id, input),
            gu.pending().len() <= g.pending().len(),
            g.pending().take(gu.pending().len() as int) == gu.pending(),
            gu.kind(id) is ToggleButton ==> g.pending() == gu.pending() + change_events(id, Field::ToggleButtonState, count_events(local, id, EventKind::Press)),
            gu.kind(id) is RadioButton ==> g.pending() == gu.pending() + (if !gu.radio_state(id) && count_events(local, id, EventKind::Release) > 0 {
                change_events(id, Field::RadioButtonState, 1)
            } else {
                Seq::<Event>::empty()
            }),
            gu.kind(id) is Select ==> g.kind(id) is Select && (g.pending_since(gu.pending().len()).contains(select_changed(id))
                <==> g.kind(id)->Select_0.spec_value() != gu.kind(id)->Select_0.spec_value()),
        ensures
            reported(g.pending_since(g0.pending().len()), g, g0, id, input),
    {
        let widget = g.pending_since(gu.pending().len());
        let all = g.pending_since(g0.pending().len());
        Gui::lemma_local_not_about(gu, gp, g0, id, children, input);
        lemma_since_split(g, gu, g0);
        assert(all == local + widget);
        lemma_contains_concat(local, widget, toggled(id));
        lemma_contains_concat(local, widget, radio_switched(id));
        lemma_contains_concat(local, widget, select_changed(id));
        assert(!local.contains(toggled(id)));
        assert(!local.contains(radio_switched(id)));
        assert(!local.contains(select_changed(id)));
        lemma_local_counts(local, g0, id, input);
        if gu.kind(id) is ToggleButton {
            let n = count_events(local, id, EventKind::Press);
            Gui::lemma_pushed(g, gu, change_events(id, Field::ToggleButtonState, n));
            lemma_change_events_contains(id, Field::ToggleButtonState, n);
        }
        if gu.kind(id) is RadioButton {
            let n = count_events(local, id, EventKind::Release);
            if !gu.radio_state(id) && n > 0 {
                Gui::lemma_pushed(g, gu, change_events(id, Field::RadioButtonState, 1));
                lemma_change_events_contains(id, Field::RadioButtonState, 1);
            } else {
                Gui::lemma_pushed(g, gu, Seq::<Event>::empty());
            }
        }
    }

    /// The events collected at and below `id` once `id` followed the mouse itself hold no event
    /// about `id` but those the mouse caused.
    proof fn lemma_local_not_about(gu: Gui, gp: Gui, g0: Gui, id: Id, children: Seq<Id>, input: PointerInput)
        requires
            g0.wf(),
            g0.live(id),
            children == g0.children_of(id),
            gp.wf(),
            gp.grows_within(&g0, id),
            forall|k: int| 0 <= k < gp.pending_since(g0.pending().len()).len() ==> gp.live(#[trigger] gp.pending_since(g0.pending().len())[k].id)
                && below_first(gp, children, children.len() as int, gp.pending_since(g0.pending().len())[k].id),
            gu.pending() == gp.pending() + expected_pointer_events(g0, id, input),
        ensures
            forall|e: Event| e.id == id && !is_pointer_kind(e.kind) ==> !#[trigger] gu.pending_since(g0.pending().len()).contains(e),
    {
        let prev = g0.pending().len();
        let before = gp.pending_since(prev);
        let own = expected_pointer_events(g0, id, input);
        assert(gu.pending_since(prev) =~= before + own);
        lemma_expected_pointer_only(g0, id, input);
        Gui::lemma_children_events_not_about(gp, g0, id, children);
        assert forall|e: Event| e.id == id && !is_pointer_kind(e.kind) implies !#[trigger] gu.pending_since(prev).contains(e) by {
            lemma_contains_concat(before, own, e);
        }
    }

    /// A select or dropdown button `y` of `gi` that opened its list in `g` as `list_opens` says
    /// has done so as the same widget of `g0` would have, where the widgets at and below it are
    /// those of `g0`, unchanged, and the mouse goes down on them as it would have in `g0`.
    proof fn lemma_opens_frame(g: Gui, gi: Gui, g0: Gui, y: Id, input: PointerInput)
        requires
            g0.wf(),
            g0.live(y),
            forall|z: Id| #[trigger] g0.live(z) ==> gi.live(z),
            forall|z: Id| gi.live(z) && #[trigger] gi.in_subtree(y, z) ==> g0.live(z) && g0.in_subtree(y, z),
            forall|z: Id| g0.live(z) && #[trigger] g0.in_subtree(y, z) ==> {
                &&& gi.live(z)
                &&& gi.in_subtree(y, z)
                &&& gi.widget(z) == g0.widget(z)
                &&& pressed_on(gi, z, input) == pressed_on(g0, z, input)
                &&& released_on(gi, z, input) == released_on(g0, z, input)
            },
            list_opens(g, gi, y, input),
        ensures
            list_opens(g, g0, y, input),
    {
        assert(g0.in_subtree(y, y));
        let main = list_main(g0, y);
        let opt = list_opt(g0, y);
        let n = list_len(g0, y);
        if (g0.kind(y) is Select || g0.kind(y) is DropdownButton) && g0.main_ok(y, main) && !g0.toggle_state(main)
            && pressed_on(g0, main, input) && option_pressed(g0, y, opt, n, input) is None && room_for_list(g, n) {
            Gui::lemma_child(g0, y, main);
            assert(gi.main_ok(y, main));
            assert forall|z: Id| #[trigger] option_pressed_on(gi, y, opt, n, z, input) == option_pressed_on(g0, y, opt, n, z, input) by {
                if gi.live(z) && gi.in_subtree(y, z) {
                    assert(g0.live(z) && g0.in_subtree(y, z));
                }
            }
            assert(option_pressed(gi, y, opt, n, input) is None) by {
                if exists|z: Id| #[trigger] option_pressed_on(gi, y, opt, n, z, input) {
                    let z = choose|z: Id| #[trigger] option_pressed_on(gi, y, opt, n, z, input);
                    assert(option_pressed_on(g0, y, opt, n, z, input));
                }
            }
            Gui::lemma_option_buttons_fresh(g, gi, g0, y, list_opt(g, y), n);
        }
    }

    /// A select or dropdown button `y` below a sibling `s` of the child `c` of `p` keeps the list
    /// it opened while `c` lives through its frame.
    proof fn lemma_opens_kept(g: Gui, gi: Gui, g0: Gui, p: Id, s: Id, c: Id, y: Id, input: PointerInput)
        requires
            g0.wf(),
            gi.wf(),
            gi.live(p),
            gi.children_of(p).contains(s),
            gi.children_of(p).contains(c),
            s != c,
            gi.live(y),
            gi.in_subtree(s, y),
            g.grows_within(&gi, c),
            list_opens(gi, g0, y, input),
        ensures
            list_opens(g, g0, y, input),
    {
        Gui::lemma_sibling_disjoint(gi, p, s, c, y);
        assert(g.widget(y) == gi.widget(y));
        let n = list_len(g0, y);
        let opt = list_opt(g, y);
        assert(opt == list_opt(gi, y));
        assert(room_for_list(g, n) ==> room_for_list(gi, n));
        let main = list_main(g0, y);
        if (g0.kind(y) is Select || g0.kind(y) is DropdownButton) && g0.main_ok(y, main) && !g0.toggle_state(main)
            && pressed_on(g0, main, input) && option_pressed(g0, y, list_opt(g0, y), n, input) is None && room_for_list(g, n) {
            assert forall|k: int| 0 <= k < n implies #[trigger] has_option_button(g, g0, y, opt, k) by {
                assert(has_option_button(gi, g0, y, opt, k));
                let b = choose|b: Id| #[trigger] option_button(gi, g0, y, opt, b, k);
                Gui::lemma_subtree_trans(gi, s, y, b);
                Gui::lemma_sibling_disjoint(gi, p, s, c, b);
                assert(g.widget(b) == gi.widget(b));
                assert(b != ROOT);
                assert(gi.has_path(b));
                assert(g.path(b) == gi.path(b));
                if y != ROOT {
                    assert(gi.has_path(y));
                }
                assert(option_button(g, g0, y, opt, b, k));
            }
        }
    }

    /// A select or dropdown button `y` strictly below a widget `id` that is neither keeps the list
    /// it opened while `id` itself lives through its frame.
    proof fn lemma_opens_own_kept(g: Gui, gu: Gui, gp: Gui, g0: Gui, id: Id, y: Id, input: PointerInput)
        requires
            g0.wf(),
            gp.wf(),
            gu.wf(),
            gp.live(id),
            gp.live(y),
            gp.in_subtree(id, y),
            y != id,
            !(gu.kind(id) is Select) && !(gu.kind(id) is DropdownButton),
            forall|x: Id| #[trigger] gp.live(x) ==> gu.live(x),
            forall|x: Id| x != id && gp.live(x) ==> #[trigger] gu.widget(x) == gp.widget(x),
            gu.path_map() == gp.path_map(),
            gu.last_id() == gp.last_id(),
            g.grows_within(&gu, id),
            forall|x: Id| x != id && gu.live(x) ==> #[trigger] g.widget(x) == gu.widget(x),
            list_opens(gp, g0, y, input),
        ensures
            list_opens(g, g0, y, input),
    {
        assert(g.widget(y) == gp.widget(y));
        let n = list_len(g0, y);
        let opt = list_opt(g, y);
        assert(opt == list_opt(gp, y));
        assert(room_for_list(g, n) ==> room_for_list(gp, n));
        let main = list_main(g0, y);
        if (g0.kind(y) is Select || g0.kind(y) is DropdownButton) && g0.main_ok(y, main) && !g0.toggle_state(main)
            && pressed_on(g0, main, input) && option_pressed(g0, y, list_opt(g0, y), n, input) is None && room_for_list(g, n) {
            assert forall|k: int| 0 <= k < n implies #[trigger] has_option_button(g, g0, y, opt, k) by {
                assert(has_option_button(gp, g0, y, opt, k));
                let b = choose|b: Id| #[trigger] option_button(gp, g0, y, opt, b, k);
                assert(b != id) by {
                    if b == id {
                        Gui::lemma_subtree_antisym(gp, id, y);
                    }
                }
                assert(g.widget(b) == gp.widget(b));
                assert(b != ROOT);
                assert(gp.has_path(b));
                assert(gu.path(b) == gp.path(b));
                assert(gu.live(b));
                assert(gu.has_path(b));
                assert(g.path(b) == gu.path(b));
                if y != ROOT {
                    assert(gp.has_path(y));
                }
                assert(option_button(g, g0, y, opt, b, k));
            }
        }
    }

    /// The option buttons of the select `y` show the same states in `g` as in `h`, where the
    /// widgets at and below `y` in `g` are those of `h`, unchanged.
    proof fn lemma_option_states_transfer(g: Gui, h: Gui, y: Id, opt: Seq<(usize, usize)>, options: Seq<SelectOption>, value: Option<Seq<char>>)
        requires
            option_states_shown(h, y, opt, options, value),
            forall|b: Id| g.live(b) && #[trigger] g.in_subtree(y, b) ==> h.live(b) && h.in_subtree(y, b) && g.widget(b) == h.widget(b),
        ensures
            option_states_shown(g, y, opt, options, value),
    {
        assert forall|j: int| 0 <= j < opt.len() && j < opt.len() && (#[trigger] opt[j]).1 < options.len() && opt[j].0 != y && g.live(opt[j].0)
            && g.in_subtree(y, opt[j].0) && g.kind(opt[j].0) is ToggleButton
            && (forall|j2: int| j < j2 < opt.len() && j2 < opt.len() ==> opt[j2].0 != opt[j].0)
            implies g.toggle_state(opt[j].0) == (opt_str(options[opt[j].1 as int].value) == value) by {
            let b = opt[j].0;
            assert(h.live(b) && h.in_subtree(y, b) && g.widget(b) == h.widget(b));
        }
    }

    /// A select or dropdown button `y` of `gi` that closed its list, or showed its value, in `g`
    /// as `list_closes` says has done so as the same widget of `g0` would have, where the widgets
    /// at and below it are those of `g0`, unchanged, and the mouse goes down on them as it would
    /// have in `g0`.
    proof fn lemma_closes_frame(g: Gui, gi: Gui, g0: Gui, y: Id, input: PointerInput)
        requires
            g0.wf(),
            g0.live(y),
            forall|z: Id| g0.live(z) && #[trigger] g0.in_subtree(y, z) ==> {
                &&& gi.live(z)
                &&& gi.in_subtree(y, z)
                &&& gi.widget(z) == g0.widget(z)
                &&& pressed_on(gi, z, input) == pressed_on(g0, z, input)
                &&& released_on(gi, z, input) == released_on(g0, z, input)
            },
            list_closes(g, gi, y, input),
        ensures
            list_closes(g, g0, y, input),
    {
        assert(g0.in_subtree(y, y));
        let main = list_main(g0, y);
        if (g0.kind(y) is Select || g0.kind(y) is DropdownButton) && g0.main_ok(y, main) {
            Gui::lemma_child(g0, y, main);
            assert(gi.main_ok(y, main));
        }
    }

    /// A select or dropdown button `y` below a sibling `s` of the child `c` of `p` keeps what
    /// `list_closes` says of it while `c` lives through its frame.
    proof fn lemma_closes_kept(g: Gui, gi: Gui, g0: Gui, p: Id, s: Id, c: Id, y: Id, input: PointerInput)
        requires
            g0.wf(),
            gi.wf(),
            gi.live(p),
            gi.children_of(p).contains(s),
            gi.children_of(p).contains(c),
            s != c,
            gi.live(y),
            gi.in_subtree(s, y),
            g.grows_within(&gi, c),
            list_closes(gi, g0, y, input),
        ensures
            list_closes(g, g0, y, input),
    {
        Gui::lemma_sibling_disjoint(gi, p, s, c, y);
        assert(g.widget(y) == gi.widget(y));
        assert forall|x: Id| #[trigger] gi.removal_queue().contains(x) implies g.removal_queue().contains(x) by {
            let k = choose|k: int| 0 <= k < gi.removal_queue().len() && gi.removal_queue()[k] == x;
            assert(g.removal_queue().take(gi.removal_queue().len() as int)[k] == g.removal_queue()[k]);
        }
        Gui::lemma_child(gi, p, c);
        Gui::lemma_child(gi, p, s);
        assert(gi.in_subtree(p, c));
        assert(!gi.in_subtree(c, p));
        assert(g.widget(p) == gi.widget(p));
        if y != ROOT {
            assert(gi.has_path(y));
        }
        assert forall|b: Id| g.live(b) && #[trigger] g.in_subtree(y, b) implies gi.live(b) && gi.in_subtree(y, b) && g.widget(b) == gi.widget(b) by {
            if gi.live(b) {
                if b != ROOT {
                    assert(gi.has_path(b));
                    assert(g.path(b) == gi.path(b));
                }
                assert(gi.in_subtree(y, b));
                Gui::lemma_subtree_trans(gi, s, y, b);
                Gui::lemma_sibling_disjoint(gi, p, s, c, b);
            } else {
                assert(g.in_subtree(c, b));
                assert(g.in_subtree(s, y)) by {
                    if y != s {
                        assert(g.path(y) == gi.path(y));
                    }
                }
                Gui::lemma_subtree_trans(g, s, y, b);
                Gui::lemma_sibling_disjoint(g, p, s, c, b);
            }
        }
        let main = list_main(g0, y);
        assert(list_opt(g, y) == list_opt(gi, y));
        if (g0.kind(y) is Select || g0.kind(y) is DropdownButton) && g0.main_ok(y, main) && g0.toggle_state(main) && pressed_on(g0, main, input) {
            assert forall|c: Id| g0.children_of(y).contains(c) && c != main implies #[trigger] g.removal_queue().contains(c) by {
                assert(gi.removal_queue().contains(c));
            }
        }
        if g0.kind(y) is Select && g0.main_ok(y, main) && g0.toggle_state(main) == pressed_on(g0, main, input) {
            assert(gi.kind(y) is Select);
            Gui::lemma_option_states_transfer(g, gi, y, list_opt(g, y), g0.kind(y)->Select_0.options@, g.kind(y)->Select_0.spec_value());
        }
    }

    /// A select or dropdown button `y` strictly below a widget `id` that is neither keeps what
    /// `list_closes` says of it while `id` itself lives through its frame.
    proof fn lemma_closes_own_kept(g: Gui, gu: Gui, gp: Gui, g0: Gui, id: Id, y: Id, input: PointerInput)
        requires
            g0.wf(),
            gp.wf(),
            gu.wf(),
            gp.live(id),
            gp.live(y),
            gp.in_subtree(id, y),
            y != id,
            !(gu.kind(id) is Select) && !(gu.kind(id) is DropdownButton),
            forall|x: Id| #[trigger] gp.live(x) == gu.live(x),
            forall|x: Id| x != id && gp.live(x) ==> #[trigger] gu.widget(x) == gp.widget(x),
            gu.path_map() == gp.path_map(),
            gu.last_id() == gp.last_id(),
            gu.removal_queue() == gp.removal_queue(),
            g.grows_within(&gu, id),
            g.last_id() == gu.last_id(),
            forall|x: Id| x != id && gu.live(x) ==> #[trigger] g.widget(x) == gu.widget(x),
            list_closes(gp, g0, y, input),
        ensures
            list_closes(g, g0, y, input),
    {
        assert(g.widget(y) == gp.widget(y));
        assert forall|x: Id| #[trigger] gp.removal_queue().contains(x) implies g.removal_queue().contains(x) by {
            let k = choose|k: int| 0 <= k < gu.removal_queue().len() && gu.removal_queue()[k] == x;
            assert(g.removal_queue().take(gu.removal_queue().len() as int)[k] == g.removal_queue()[k]);
        }
        if y != ROOT {
            assert(gp.has_path(y));
        }
        assert forall|b: Id| g.live(b) && #[trigger] g.in_subtree(y, b) implies gp.live(b) && gp.in_subtree(y, b) && g.widget(b) == gp.widget(b) by {
            assert(gu.live(b)) by {
                if !gu.live(b) {
                    assert(gu.last_id() < b);
                    assert(b <= g.last_id());
                }
            }
            assert(gp.live(b));
            if b != ROOT {
                assert(gp.has_path(b));
                assert(gu.path(b) == gp.path(b));
                assert(gu.has_path(b));
                assert(g.path(b) == gu.path(b));
            }
            assert(gp.in_subtree(y, b));
            assert(b != id) by {
                if b == id {
                    Gui::lemma_subtree_antisym(gp, id, y);
                }
            }
        }
        let main = list_main(g0, y);
        assert(list_opt(g, y) == list_opt(gp, y));
        if (g0.kind(y) is Select || g0.kind(y) is DropdownButton) && g0.main_ok(y, main) && g0.toggle_state(main) && pressed_on(g0, main, input) {
            assert forall|c: Id| g0.children_of(y).contains(c) && c != main implies #[trigger] g.removal_queue().contains(c) by {
                assert(gp.removal_queue().contains(c));
            }
        }
        if g0.kind(y) is Select && g0.main_ok(y, main) && g0.toggle_state(main) == pressed_on(g0, main, input) {
            assert(gp.kind(y) is Select);
            Gui::lemma_option_states_transfer(g, gp, y, list_opt(g, y), g0.kind(y)->Select_0.options@, g.kind(y)->Select_0.spec_value());
        }
    }

    /// The select or dropdown button `id` closes its list, or shows its value, as
    /// `list_closes` says, once it has reacted (see `visit`).
    proof fn lemma_own_list_closes(g: Gui, gu: Gui, gp: Gui, g0: Gui, id: Id, children: Seq<Id>, local: Seq<Event>, input: PointerInput)
        requires
            g0.wf(),
            g0.live(id),
            children == g0.children_of(id),
            forall|y: Id| g0.live(y) && #[trigger] below_first(g0, children, children.len() as int, y) && no_list_inside(g0, id, y) ==> reacts(gp, g0, y, input),
            forall|y: Id| g0.live(y) && #[trigger] below_first(g0, children, children.len() as int, y) && no_list_inside(g0, id, y) ==> reported(gp.pending_since(g0.pending().len()), gp, g0, y, input),
            forall|y: Id| #[trigger] g0.live(y) ==> gp.live(y) && gu.live(y),
            forall|y: Id| y != id && gp.live(y) ==> #[trigger] gu.widget(y) == gp.widget(y),
            gp.pending().len() >= g0.pending().len(),
            gu.pending() == gp.pending() + expected_pointer_events(g0, id, input),
            local == gu.pending_since(g0.pending().len()),
            gu.kind(id) == g0.kind(id),
            gu.children_of(id) == g0.children_of(id),
            gu.kind(id) is Select ==> ({
                let s0 = gu.kind(id)->Select_0;
                let main = s0.main_button_id;
                let chosen = chosen_option(local, 0, main, !gu.toggle_state(main), option_entries(s0.opt_map), s0.options@.len());
                &&& g.kind(id) is Select
                &&& (gu.main_ok(id, main) && ((!gu.toggle_state(main) && local.contains(toggled(main))) || chosen is Some)
                    ==> forall|c: Id| gu.children_of(id).contains(c) && c != main ==> #[trigger] g.removal_queue().contains(c))
                &&& (gu.main_ok(id, main) && ((!gu.toggle_state(main) && (local.contains(toggled(main)) || chosen is Some))
                    || (chosen is Some && !local.contains(toggled(main))))
                    ==> option_entries(g.kind(id)->Select_0.opt_map) == Seq::<(usize, usize)>::empty())
                &&& (gu.main_ok(id, main) && !gu.toggle_state(main) ==> option_states_shown(g, id,
                    option_entries(g.kind(id)->Select_0.opt_map), s0.options@, g.kind(id)->Select_0.spec_value()))
            }),
            gu.kind(id) is DropdownButton ==> ({
                let d0 = gu.kind(id)->DropdownButton_0;
                let main = d0.main_button_id;
                let chosen = chosen_option(local, 0, main, !gu.toggle_state(main), option_entries(d0.opt_map), d0.options@.len());
                &&& g.kind(id) is DropdownButton
                &&& (gu.main_ok(id, main) && ((!gu.toggle_state(main) && local.contains(toggled(main))) || chosen is Some)
                    ==> forall|c: Id| gu.children_of(id).contains(c) && c != main ==> #[trigger] g.removal_queue().contains(c))
                &&& (gu.main_ok(id, main) && ((!gu.toggle_state(main) && local.contains(toggled(main))) || chosen is Some)
                    ==> option_entries(g.kind(id)->DropdownButton_0.opt_map) == Seq::<(usize, usize)>::empty())
            }),
        ensures
            list_closes(g, g0, id, input),
    {
        let main = list_main(g0, id);
        if (g0.kind(id) is Select || g0.kind(id) is DropdownButton) && g0.main_ok(id, main) {
            Gui::lemma_child(g0, id, main);
            Gui::lemma_child_adjacent(g0, id, main);
            Gui::lemma_below_first_all(g0, id, children);
            assert(below_first(g0, children, children.len() as int, main));
            assert(no_list_inside(g0, id, main));
            assert(reacts(gp, g0, main, input));
            assert(reported(gp.pending_since(g0.pending().len()), gp, g0, main, input));
            reveal(reacts);
            assert(gu.widget(main) == gp.widget(main));
            assert(gu.main_ok(id, main));
            assert(gu.toggle_state(main) == (g0.toggle_state(main) != pressed_on(g0, main, input)));
            let before = gp.pending_since(g0.pending().len());
            assert(local =~= before + expected_pointer_events(g0, id, input));
            lemma_contains_concat(before, expected_pointer_events(g0, id, input), toggled(main));
            lemma_expected_pointer_only(g0, id, input);
            assert(!expected_pointer_events(g0, id, input).contains(toggled(main)));
            assert(local.contains(toggled(main)) == pressed_on(g0, main, input));
        }
    }

    /// The selects and dropdown buttons below the `i`-th child of `id` have closed their lists,
    /// or shown their values, once that child has lived through its frame (see `visit`).
    proof fn lemma_child_step_closes(g: Gui, gi: Gui, g0: Gui, id: Id, children: Seq<Id>, i: int, input: PointerInput)
        requires
            g0.wf(),
            g0.live(id),
            children == g0.children_of(id),
            0 <= i < children.len(),
            gi.wf(),
            gi.grows_within(&g0, id),
            gi.widget(id) == g0.widget(id),
            forall|y: Id| g0.live(y) && #[trigger] g0.in_subtree(id, y) && y != id && !below_first(g0, children, i, y) ==> gi.widget(y) == g0.widget(y),
            forall|y: Id| #[trigger] gi.live(y) && !g0.live(y) ==> below_first(gi, children, i, y),
            forall|y: Id| g0.live(y) && #[trigger] below_first(g0, children, i, y) && no_list_inside(g0, id, y) ==> list_closes(gi, g0, y, input),
            g.grows_within(&gi, children[i]),
            forall|y: Id| gi.live(y) && #[trigger] gi.in_subtree(children[i], y) && no_list_between(gi, children[i], y) ==> list_closes(g, gi, y, input),
        ensures
            forall|y: Id| g0.live(y) && #[trigger] below_first(g0, children, i + 1, y) && no_list_inside(g0, id, y) ==> list_closes(g, g0, y, input),
    {
        let c = children[i];
        assert(g0.children_of(id).contains(c)) by {
            assert(g0.children_of(id)[i] == c);
        }
        Gui::lemma_child(g0, id, c);
        assert(children.no_duplicates()) by {
            assert(g0.children_ok(id));
        }
        assert(gi.children_of(id) == g0.children_of(id));
        assert forall|y: Id| g0.live(y) && #[trigger] below_first(g0, children, i + 1, y) && no_list_inside(g0, id, y) implies list_closes(g, g0, y, input) by {
            if y != ROOT {
                assert(g0.has_path(y));
                assert(gi.path(y) == g0.path(y));
            }
            if g0.in_subtree(c, y) {
                Gui::lemma_no_list_frame(gi, g0, id, children, i, y);
                assert(gi.live(y));
                assert(list_closes(g, gi, y, input));
                Gui::lemma_pressed_frame(gi, g0, id, children, i, y, input);
                Gui::lemma_closes_frame(g, gi, g0, y, input);
            } else {
                let j = choose|j: int| 0 <= j < i + 1 && #[trigger] g0.in_subtree(children[j], y);
                assert(j != i);
                assert(below_first(g0, children, i, y));
                assert(gi.children_of(id).contains(children[j])) by {
                    assert(gi.children_of(id)[j] == children[j]);
                }
                assert(gi.children_of(id).contains(c)) by {
                    assert(gi.children_of(id)[i] == c);
                }
                assert(gi.live(y));
                assert(gi.in_subtree(children[j], y));
                Gui::lemma_closes_kept(g, gi, g0, id, children[j], c, y, input);
            }
        }
    }

    /// The selects and dropdown buttons at and below `id` have closed their lists, or shown
    /// their values, once `id` itself has reacted (see `visit`).
    proof fn lemma_own_step_closes(g: Gui, gu: Gui, gp: Gui, g0: Gui, id: Id, children: Seq<Id>, local: Seq<Event>, input: PointerInput)
        requires
            g0.wf(),
            g0.live(id),
            children == g0.children_of(id),
            forall|y: Id| g0.live(y) && #[trigger] below_first(g0, children, children.len() as int, y) && no_list_inside(g0, id, y) ==> list_closes(gp, g0, y, input),
            gp.wf(),
            gu.wf(),
            gp.grows_within(&g0, id),
            forall|x: Id| #[trigger] gp.live(x) == gu.live(x),
            forall|y: Id| y != id && gp.live(y) ==> #[trigger] gu.widget(y) == gp.widget(y),
            gu.path_map() == gp.path_map(),
            gu.last_id() == gp.last_id(),
            gu.removal_queue() == gp.removal_queue(),
            g.grows_within(&gu, id),
            gu.kind(id) == g0.kind(id),
            !(gu.kind(id) is Select) && !(gu.kind(id) is DropdownButton) ==> g.last_id() == gu.last_id(),
            !(gu.kind(id) is Select) && !(gu.kind(id) is DropdownButton) ==> forall|y: Id| y != id && gu.live(y) ==> #[trigger] g.widget(y) == gu.widget(y),
            list_closes(g, g0, id, input),
        ensures
            forall|y: Id| g0.live(y) && #[trigger] g0.in_subtree(id, y) && no_list_between(g0, id, y) ==> list_closes(g, g0, y, input),
    {
        Gui::lemma_below_first_all(g0, id, children);
        assert forall|y: Id| g0.live(y) && #[trigger] g0.in_subtree(id, y) && no_list_between(g0, id, y) implies list_closes(g, g0, y, input) by {
            if y != id {
                assert(below_first(g0, children, children.len() as int, y));
                assert(no_list_inside(g0, id, y));
                assert(g0.in_subtree(id, id));
                lemma_no_list_between_parts(g0, id, y);
                assert(!(gu.kind(id) is Select) && !(gu.kind(id) is DropdownButton));
                assert(gp.live(y));
                assert(gp.live(id));
                assert(gp.has_path(y));
                assert(gp.path(y) == g0.path(y));
                if id != ROOT {
                    assert(gp.has_path(id));
                }
                assert(gp.in_subtree(id, y));
                Gui::lemma_closes_own_kept(g, gu, gp, g0, id, y, input);
            }
        }
    }

    /// The selects and dropdown buttons below the `i`-th child of `id` have opened their lists
    /// once that child has lived through its frame (see `visit`).
    proof fn lemma_child_step_opens(g: Gui, gi: Gui, g0: Gui, id: Id, children: Seq<Id>, i: int, input: PointerInput)
        requires
            g0.wf(),
            g0.live(id),
            children == g0.children_of(id),
            0 <= i < children.len(),
            gi.wf(),
            gi.grows_within(&g0, id),
            gi.widget(id) == g0.widget(id),
            forall|y: Id| g0.live(y) && #[trigger] g0.in_subtree(id, y) && y != id && !below_first(g0, children, i, y) ==> gi.widget(y) == g0.widget(y),
            forall|y: Id| #[trigger] gi.live(y) && !g0.live(y) ==> below_first(gi, children, i, y),
            forall|y: Id| g0.live(y) && #[trigger] below_first(g0, children, i, y) && no_list_inside(g0, id, y) ==> list_opens(gi, g0, y, input),
            g.grows_within(&gi, children[i]),
            forall|y: Id| gi.live(y) && #[trigger] gi.in_subtree(children[i], y) && no_list_between(gi, children[i], y) ==> list_opens(g, gi, y, input),
        ensures
            forall|y: Id| g0.live(y) && #[trigger] below_first(g0, children, i + 1, y) && no_list_inside(g0, id, y) ==> list_opens(g, g0, y, input),
    {
        let c = children[i];
        assert(g0.children_of(id).contains(c)) by {
            assert(g0.children_of(id)[i] == c);
        }
        Gui::lemma_child(g0, id, c);
        assert(children.no_duplicates()) by {
            assert(g0.children_ok(id));
        }
        assert(gi.children_of(id) == g0.children_of(id));
        assert forall|y: Id| g0.live(y) && #[trigger] below_first(g0, children, i + 1, y) && no_list_inside(g0, id, y) implies list_opens(g, g0, y, input) by {
            if y != ROOT {
                assert(g0.has_path(y));
                assert(gi.path(y) == g0.path(y));
            }
            if g0.in_subtree(c, y) {
                Gui::lemma_no_list_frame(gi, g0, id, children, i, y);
                assert(gi.live(y));
                assert(list_opens(g, gi, y, input));
                Gui::lemma_pressed_frame(gi, g0, id, children, i, y, input);
                Gui::lemma_opens_frame(g, gi, g0, y, input);
            } else {
                let j = choose|j: int| 0 <= j < i + 1 && #[trigger] g0.in_subtree(children[j], y);
                assert(j != i);
                assert(below_first(g0, children, i, y));
                assert(gi.children_of(id).contains(children[j])) by {
                    assert(gi.children_of(id)[j] == children[j]);
                }
                assert(gi.children_of(id).contains(c)) by {
                    assert(gi.children_of(id)[i] == c);
                }
                assert(gi.live(y));
                assert(gi.in_subtree(children[j], y));
                Gui::lemma_opens_kept(g, gi, g0, id, children[j], c, y, input);
            }
        }
    }

    /// The selects and dropdown buttons at and below `id` have opened their lists once `id`
    /// itself has reacted (see `visit`).
    proof fn lemma_own_step_opens(g: Gui, gu: Gui, gp: Gui, g0: Gui, id: Id, children: Seq<Id>, local: Seq<Event>, input: PointerInput)
        requires
            g0.wf(),
            g0.live(id),
            children == g0.children_of(id),
            forall|y: Id| g0.live(y) && #[trigger] below_first(g0, children, children.len() as int, y) && no_list_inside(g0, id, y) ==> reacts(gp, g0, y, input),
            forall|y: Id| g0.live(y) && #[trigger] below_first(g0, children, children.len() as int, y) && no_list_inside(g0, id, y) ==> reported(gp.pending_since(g0.pending().len()), gp, g0, y, input),
            forall|y: Id| #[trigger] g0.live(y) ==> gp.live(y) && gu.live(y),
            forall|y: Id| y != id && gp.live(y) ==> #[trigger] gu.widget(y) == gp.widget(y),
            gp.pending().len() >= g0.pending().len(),
            gu.pending() == gp.pending() + expected_pointer_events(g0, id, input),
            local == gu.pending_since(g0.pending().len()),
            gu.kind(id) == g0.kind(id),
            gu.children_of(id) == g0.children_of(id),
            gu.last_id() <= g.last_id(),
            forall|z: Id| #[trigger] pointer_events_of(local, z) == (if g0.live(z) && g0.in_subtree(id, z) {
                expected_pointer_events(g0, z, input)
            } else {
                Seq::<Event>::empty()
            }),
            gu.kind(id) is Select ==> ({
                let s0 = gu.kind(id)->Select_0;
                let main = s0.main_button_id;
                let chosen = chosen_option(local, 0, main, !gu.toggle_state(main), option_entries(s0.opt_map), s0.options@.len());
                &&& g.kind(id) is Select
                &&& (gu.main_ok(id, main) && gu.toggle_state(main) && local.contains(toggled(main)) && chosen is None
                    && room_for_list(gu, s0.options@.len()) ==> forall|k: int| 0 <= k < s0.options@.len()
                    ==> #[trigger] has_option_button(g, gu, id, option_entries(g.kind(id)->Select_0.opt_map), k))
            }),
            gu.kind(id) is DropdownButton ==> ({
                let d0 = gu.kind(id)->DropdownButton_0;
                let main = d0.main_button_id;
                let chosen = chosen_option(local, 0, main, !gu.toggle_state(main), option_entries(d0.opt_map), d0.options@.len());
                &&& g.kind(id) is DropdownButton
                &&& (gu.main_ok(id, main) && gu.toggle_state(main) && local.contains(toggled(main)) && chosen is None
                    && room_for_list(gu, d0.options@.len()) ==> forall|k: int| 0 <= k < d0.options@.len()
                    ==> #[trigger] has_option_button(g, gu, id, option_entries(g.kind(id)->DropdownButton_0.opt_map), k))
            }),
            forall|y: Id| g0.live(y) && #[trigger] below_first(g0, children, children.len() as int, y) && no_list_inside(g0, id, y) ==> list_opens(gp, g0, y, input),
            gp.wf(),
            gu.wf(),
            gp.grows_within(&g0, id),
            gu.path_map() == gp.path_map(),
            gu.last_id() == gp.last_id(),
            forall|x: Id| #[trigger] gp.live(x) ==> gu.live(x),
            g.grows_within(&gu, id),
            !(gu.kind(id) is Select) && !(gu.kind(id) is DropdownButton) ==> forall|y: Id| y != id && gu.live(y) ==> #[trigger] g.widget(y) == gu.widget(y),
        ensures
            forall|y: Id| g0.live(y) && #[trigger] g0.in_subtree(id, y) && no_list_between(g0, id, y) ==> list_opens(g, g0, y, input),
    {
        Gui::lemma_below_first_all(g0, id, children);
        assert forall|y: Id| g0.live(y) && #[trigger] g0.in_subtree(id, y) && no_list_between(g0, id, y) implies list_opens(g, g0, y, input) by {
            if y == id {
                Gui::lemma_own_list_opens(g, gu, gp, g0, id, children, local, input);
            } else {
                assert(below_first(g0, children, children.len() as int, y));
                assert(no_list_inside(g0, id, y));
                assert(g0.in_subtree(id, id));
                assert(!(gu.kind(id) is Select) && !(gu.kind(id) is DropdownButton));
                assert(gp.live(y));
                assert(gp.live(id));
                assert(gp.has_path(y));
                assert(gp.path(y) == g0.path(y));
                if id != ROOT {
                    assert(gp.has_path(id));
                }
                assert(gp.in_subtree(id, y));
                Gui::lemma_opens_own_kept(g, gu, gp, g0, id, y, input);
            }
        }
    }

    /// The toggle and radio buttons below the `i`-th child of `id` have reacted once that child
    /// has lived through its frame (see `visit`).
    proof fn lemma_child_step_buttons(g: Gui, gi: Gui, g0: Gui, id: Id, children: Seq<Id>, i: int, input: PointerInput)
        requires
            g0.wf(),
            g0.live(id),
            children == g0.children_of(id),
            0 <= i < children.len(),
            gi.wf(),
            gi.grows_within(&g0, id),
            gi.widget(id) == g0.widget(id),
            forall|y: Id| g0.live(y) && #[trigger] g0.in_subtree(id, y) && y != id && !below_first(g0, children, i, y) ==> gi.widget(y) == g0.widget(y),
            forall|y: Id| g0.live(y) && #[trigger] below_first(g0, children, i, y) && no_list_inside(g0, id, y) ==> reacts(gi, g0, y, input),
            forall|y: Id| #[trigger] gi.live(y) && !g0.live(y) ==> below_first(gi, children, i, y),
            g.grows_within(&gi, children[i]),
            forall|y: Id| gi.live(y) && #[trigger] gi.in_subtree(children[i], y) && no_list_between(gi, children[i], y) ==> reacts(g, gi, y, input),
        ensures
            forall|y: Id| g0.live(y) && #[trigger] below_first(g0, children, i + 1, y) && no_list_inside(g0, id, y) ==> reacts(g, g0, y, input),
    {
        let c = children[i];
        assert(g0.children_of(id).contains(c)) by {
            assert(g0.children_of(id)[i] == c);
        }
        Gui::lemma_child(g0, id, c);
        assert(children.no_duplicates()) by {
            assert(g0.children_ok(id));
        }
        assert forall|y: Id| g0.live(y) && #[trigger] below_first(g0, children, i + 1, y) && no_list_inside(g0, id, y) implies reacts(g, g0, y, input) by {
            if y != ROOT {
                assert(g0.has_path(y));
                assert(gi.path(y) == g0.path(y));
            }
            if g0.in_subtree(c, y) {
                Gui::lemma_subtree_trans(g0, id, c, y);
                assert(y != id);
                if below_first(g0, children, i, y) {
                    let j = choose|j: int| 0 <= j < i && #[trigger] g0.in_subtree(children[j], y);
                    assert(g0.children_of(id).contains(children[j])) by {
                        assert(g0.children_of(id)[j] == children[j]);
                    }
                    assert(children[j] != c);
                    Gui::lemma_sibling_disjoint(g0, id, children[j], c, y);
                }
                assert(gi.widget(y) == g0.widget(y));
                assert(gi.in_subtree(c, y));
                Gui::lemma_no_list_frame(gi, g0, id, children, i, y);
                assert(reacts(g, gi, y, input));
                assert(reacts(g, g0, y, input)) by {
                    Gui::lemma_pressed_frame(gi, g0, id, children, i, y, input);
                    Gui::lemma_reacts_frame(g, gi, g0, y, input);
                }
            } else {
                let j = choose|j: int| 0 <= j < i + 1 && #[trigger] g0.in_subtree(children[j], y);
                assert(j != i);
                assert(below_first(g0, children, i, y));
                assert(!gi.in_subtree(c, y));
                assert(g.widget(y) == gi.widget(y));
                lemma_reacts_same_kind(g, gi, g0, y, input);
            }
        }
    }

    /// A select or dropdown button `id` whose main button the mouse does not go down on in a
    /// frame, and that has the buttons of at most one of its options pressed, takes that option:
    /// the events of its part of the tree hold no change of its main button's state, and their
    /// presses on option buttons are those of the mouse.
    proof fn lemma_own_list_reacts(g: Gui, gu: Gui, gp: Gui, g0: Gui, id: Id, children: Seq<Id>, local: Seq<Event>, input: PointerInput)
        requires
            g0.wf(),
            g0.live(id),
            children == g0.children_of(id),
            forall|y: Id| g0.live(y) && #[trigger] below_first(g0, children, children.len() as int, y) && no_list_inside(g0, id, y) ==> reacts(gp, g0, y, input),
            forall|y: Id| #[trigger] g0.live(y) ==> gp.live(y) && gu.live(y),
            forall|y: Id| y != id && gp.live(y) ==> #[trigger] gu.widget(y) == gp.widget(y),
            gu.kind(id) == g0.kind(id),
            gu.children_of(id) == g0.children_of(id),
            forall|z: Id| #[trigger] pointer_events_of(local, z) == (if g0.live(z) && g0.in_subtree(id, z) {
                expected_pointer_events(g0, z, input)
            } else {
                Seq::<Event>::empty()
            }),
            forall|j: int| 0 <= j < children.len() && g0.kind(#[trigger] children[j]) is ToggleButton && !pressed_on(g0, children[j], input) ==> !local.contains(toggled(children[j])),
            gu.kind(id) is Select ==> ({
                let s0 = gu.kind(id)->Select_0;
                let main = s0.main_button_id;
                let chosen = chosen_option(local, 0, main, !gu.toggle_state(main), option_entries(s0.opt_map), s0.options@.len());
                &&& g.kind(id) is Select
                &&& g.kind(id)->Select_0.spec_value() == (if gu.main_ok(id, main) {
                    chosen_value(s0.options@, s0.spec_value(), chosen)
                } else {
                    s0.spec_value()
                })
            }),
            gu.kind(id) is DropdownButton ==> ({
                let d0 = gu.kind(id)->DropdownButton_0;
                let main = d0.main_button_id;
                let chosen = chosen_option(local, 0, main, !gu.toggle_state(main), option_entries(d0.opt_map), d0.options@.len());
                &&& g.kind(id) is DropdownButton
                &&& g.kind(id)->DropdownButton_0.spec_value() == (if gu.main_ok(id, main) {
                    dropdown_chosen_value(d0.options@, d0.spec_value(), chosen)
                } else {
                    d0.spec_value()
                })
            }),
        ensures
            g0.kind(id) is Select ==> select_reacts(g, g0, id, input),
            g0.kind(id) is DropdownButton ==> dropdown_reacts(g, g0, id, input),
    {
        let (main, opt, n) = if g0.kind(id) is Select {
            let s = g0.kind(id)->Select_0;
            (s.main_button_id, option_entries(s.opt_map), s.options@.len())
        } else {
            let d = g0.kind(id)->DropdownButton_0;
            (d.main_button_id, option_entries(d.opt_map), d.options@.len())
        };
        if (g0.kind(id) is Select || g0.kind(id) is DropdownButton) && g0.main_ok(id, main) && !pressed_on(g0, main, input)
            && one_option_pressed_at_most(g0, id, opt, n, input) {
            Gui::lemma_child(g0, id, main);
            Gui::lemma_child_adjacent(g0, id, main);
            Gui::lemma_below_first_all(g0, id, children);
            assert(below_first(g0, children, children.len() as int, main));
            assert(no_list_inside(g0, id, main));
            assert(reacts(gp, g0, main, input));
            reveal(reacts);
            assert(gu.widget(main) == gp.widget(main));
            assert(gu.main_ok(id, main));
            let j = choose|j: int| 0 <= j < children.len() && children[j] == main;
            assert(!local.contains(toggled(main)));
            let closing = !gu.toggle_state(main);
            if exists|z: Id| #[trigger] option_pressed_on(g0, id, opt, n, z, input) {
                let z = choose|z: Id| #[trigger] option_pressed_on(g0, id, opt, n, z, input);
                lemma_press_present(local, g0, id, input, z);
                assert forall|k: int| 0 <= k < local.len() && (#[trigger] local[k]).kind == EventKind::Press && opt_lookup(opt, local[k].id) is Some
                    && opt_lookup(opt, local[k].id).unwrap() < n implies local[k].id == z by {
                    lemma_press_source(local, g0, id, input, k);
                    assert(option_pressed_on(g0, id, opt, n, local[k].id, input));
                }
                lemma_chosen_single(local, 0, main, closing, opt, n, z);
                assert(chosen_option(local, 0, main, closing, opt, n) == option_pressed(g0, id, opt, n, input));
            } else {
                assert forall|k: int| 0 <= k < local.len() && (#[trigger] local[k]).kind == EventKind::Press && opt_lookup(opt, local[k].id) is Some
                    && opt_lookup(opt, local[k].id).unwrap() < n implies local[k].id == main by {
                    lemma_press_source(local, g0, id, input, k);
                    assert(option_pressed_on(g0, id, opt, n, local[k].id, input));
                }
                lemma_chosen_single(local, 0, main, closing, opt, n, main);
                assert(!exists|k: int| 0 <= k < local.len() && #[trigger] local[k] == (Event { id: main, kind: EventKind::Press })) by {
                    if exists|k: int| 0 <= k < local.len() && #[trigger] local[k] == (Event { id: main, kind: EventKind::Press }) {
                        let k = choose|k: int| 0 <= k < local.len() && #[trigger] local[k] == (Event { id: main, kind: EventKind::Press });
                        lemma_press_source(local, g0, id, input, k);
                    }
                }
                assert(chosen_option(local, 0, main, closing, opt, n) == option_pressed(g0, id, opt, n, input));
            }
        }
    }

    /// A select or dropdown button `id` whose closed list's main button the mouse goes down on in
    /// a frame, and on no button of its options, opens its list: the events of its part of the
    /// tree hold the change of its main button's state and no press on an option button.
    proof fn lemma_own_list_opens(g: Gui, gu: Gui, gp: Gui, g0: Gui, id: Id, children: Seq<Id>, local: Seq<Event>, input: PointerInput)
        requires
            g0.wf(),
            g0.live(id),
            children == g0.children_of(id),
            forall|y: Id| g0.live(y) && #[trigger] below_first(g0, children, children.len() as int, y) && no_list_inside(g0, id, y) ==> reacts(gp, g0, y, input),
            forall|y: Id| g0.live(y) && #[trigger] below_first(g0, children, children.len() as int, y) && no_list_inside(g0, id, y) ==> reported(gp.pending_since(g0.pending().len()), gp, g0, y, input),
            forall|y: Id| #[trigger] g0.live(y) ==> gp.live(y) && gu.live(y),
            forall|y: Id| y != id && gp.live(y) ==> #[trigger] gu.widget(y) == gp.widget(y),
            gp.pending().len() >= g0.pending().len(),
            gu.pending() == gp.pending() + expected_pointer_events(g0, id, input),
            local == gu.pending_since(g0.pending().len()),
            gu.kind(id) == g0.kind(id),
            gu.children_of(id) == g0.children_of(id),
            gu.last_id() <= g.last_id(),
            forall|z: Id| #[trigger] pointer_events_of(local, z) == (if g0.live(z) && g0.in_subtree(id, z) {
                expected_pointer_events(g0, z, input)
            } else {
                Seq::<Event>::empty()
            }),
            gu.kind(id) is Select ==> ({
                let s0 = gu.kind(id)->Select_0;
                let main = s0.main_button_id;
                let chosen = chosen_option(local, 0, main, !gu.toggle_state(main), option_entries(s0.opt_map), s0.options@.len());
                &&& g.kind(id) is Select
                &&& (gu.main_ok(id, main) && gu.toggle_state(main) && local.contains(toggled(main)) && chosen is None
                    && room_for_list(gu, s0.options@.len()) ==> forall|k: int| 0 <= k < s0.options@.len()
                    ==> #[trigger] has_option_button(g, gu, id, option_entries(g.kind(id)->Select_0.opt_map), k))
            }),
            gu.kind(id) is DropdownButton ==> ({
                let d0 = gu.kind(id)->DropdownButton_0;
                let main = d0.main_button_id;
                let chosen = chosen_option(local, 0, main, !gu.toggle_state(main), option_entries(d0.opt_map), d0.options@.len());
                &&& g.kind(id) is DropdownButton
                &&& (gu.main_ok(id, main) && gu.toggle_state(main) && local.contains(toggled(main)) && chosen is None
                    && room_for_list(gu, d0.options@.len()) ==> forall|k: int| 0 <= k < d0.options@.len()
                    ==> #[trigger] has_option_button(g, gu, id, option_entries(g.kind(id)->DropdownButton_0.opt_map), k))
            }),
        ensures
            list_opens(g, g0, id, input),
    {
        let main = list_main(g0, id);
        let opt = list_opt(g0, id);
        let n = list_len(g0, id);
        if (g0.kind(id) is Select || g0.kind(id) is DropdownButton) && g0.main_ok(id, main) && !g0.toggle_state(main)
            && pressed_on(g0, main, input) && option_pressed(g0, id, opt, n, input) is None && room_for_list(g, n) {
            Gui::lemma_child(g0, id, main);
            Gui::lemma_child_adjacent(g0, id, main);
            Gui::lemma_below_first_all(g0, id, children);
            assert(below_first(g0, children, children.len() as int, main));
            assert(no_list_inside(g0, id, main));
            assert(reacts(gp, g0, main, input));
            assert(reported(gp.pending_since(g0.pending().len()), gp, g0, main, input));
            reveal(reacts);
            assert(gu.widget(main) == gp.widget(main));
            assert(gu.main_ok(id, main));
            assert(gu.toggle_state(main));
            let before = gp.pending_since(g0.pending().len());
            assert(local =~= before + expected_pointer_events(g0, id, input));
            lemma_contains_concat(before, expected_pointer_events(g0, id, input), toggled(main));
            assert(local.contains(toggled(main)));
            assert forall|k: int| 0 <= k < local.len() && (#[trigger] local[k]).kind == EventKind::Press && opt_lookup(opt, local[k].id) is Some
                && opt_lookup(opt, local[k].id).unwrap() < n implies local[k].id == 0 by {
                lemma_press_source(local, g0, id, input, k);
                assert(option_pressed_on(g0, id, opt, n, local[k].id, input));
            }
            lemma_chosen_single(local, 0, main, false, opt, n, 0);
            assert(!exists|k: int| 0 <= k < local.len() && #[trigger] local[k] == (Event { id: 0, kind: EventKind::Press })) by {
                if exists|k: int| 0 <= k < local.len() && #[trigger] local[k] == (Event { id: 0, kind: EventKind::Press }) {
                    let k = choose|k: int| 0 <= k < local.len() && #[trigger] local[k] == (Event { id: 0, kind: EventKind::Press });
                    lemma_press_source(local, g0, id, input, k);
                }
            }
            assert(room_for_list(gu, n));
            assert forall|y: Id| #[trigger] g0.live(y) implies gu.live(y) by {}
            Gui::lemma_option_buttons_fresh(g, gu, g0, id, list_opt(g, id), n);
        }
    }

    /// The toggle and radio buttons at and below `id` have reacted once `id` itself has reacted
    /// (see `visit`).
    proof fn lemma_own_step_buttons(g: Gui, gu: Gui, gp: Gui, g0: Gui, id: Id, children: Seq<Id>, local: Seq<Event>, input: PointerInput)
        requires
            g0.wf(),
            g0.live(id),
            children == g0.children_of(id),
            forall|y: Id| g0.live(y) && #[trigger] below_first(g0, children, children.len() as int, y) && no_list_inside(g0, id, y) ==> reacts(gp, g0, y, input),
            forall|y: Id| #[trigger] g0.live(y) ==> gp.live(y) && gu.live(y),
            forall|y: Id| y != id && gp.live(y) ==> #[trigger] gu.widget(y) == gp.widget(y),
            gu.kind(id) == g0.kind(id),
            gu.children_of(id) == g0.children_of(id),
            pointer_events_of(local, id) == expected_pointer_events(g0, id, input),
            forall|j: int| 0 <= j < children.len() && g0.kind(#[trigger] children[j]) is ToggleButton && !pressed_on(g0, children[j], input) ==> !local.contains(toggled(children[j])),
            !(gu.kind(id) is Select) && !(gu.kind(id) is DropdownButton) ==> forall|y: Id| y != id && gu.live(y) ==> #[trigger] g.widget(y) == gu.widget(y),
            gu.kind(id) is ToggleButton ==> g.kind(id) is ToggleButton && g.toggle_state(id) == (gu.toggle_state(id) != (count_events(local, id, EventKind::Press) % 2 == 1)),
            gu.kind(id) is RadioButton ==> g.kind(id) is RadioButton && g.radio_state(id) == (gu.radio_state(id) || count_events(local, id, EventKind::Release) > 0),
            forall|z: Id| #[trigger] pointer_events_of(local, z) == (if g0.live(z) && g0.in_subtree(id, z) {
                expected_pointer_events(g0, z, input)
            } else {
                Seq::<Event>::empty()
            }),
            gu.kind(id) is Select ==> ({
                let s0 = gu.kind(id)->Select_0;
                let main = s0.main_button_id;
                let chosen = chosen_option(local, 0, main, !gu.toggle_state(main), option_entries(s0.opt_map), s0.options@.len());
                &&& g.kind(id) is Select
                &&& g.kind(id)->Select_0.spec_value() == (if gu.main_ok(id, main) {
                    chosen_value(s0.options@, s0.spec_value(), chosen)
                } else {
                    s0.spec_value()
                })
            }),
            gu.kind(id) is DropdownButton ==> ({
                let d0 = gu.kind(id)->DropdownButton_0;
                let main = d0.main_button_id;
                let chosen = chosen_option(local, 0, main, !gu.toggle_state(main), option_entries(d0.opt_map), d0.options@.len());
                &&& g.kind(id) is DropdownButton
                &&& g.kind(id)->DropdownButton_0.spec_value() == (if gu.main_ok(id, main) {
                    dropdown_chosen_value(d0.options@, d0.spec_value(), chosen)
                } else {
                    d0.spec_value()
                })
            }),
        ensures
            forall|y: Id| g0.live(y) && #[trigger] g0.in_subtree(id, y) && no_list_between(g0, id, y) ==> reacts(g, g0, y, input),
    {
        Gui::lemma_own_list_reacts(g, gu, gp, g0, id, children, local, input);
        reveal(reacts);
        lemma_count_caused(local, id, EventKind::Press);
        lemma_count_caused(local, id, EventKind::Release);
        lemma_expected_counts(g0, id, input);
        Gui::lemma_below_first_all(g0, id, children);
        if untouched(g0, id, input) {
            lemma_no_press(local, g0, id, input);
            if gu.kind(id) is Select {
                let s0 = gu.kind(id)->Select_0;
                lemma_chosen_none(local, 0, s0.main_button_id, !gu.toggle_state(s0.main_button_id), option_entries(s0.opt_map), s0.options@.len());
            }
            if gu.kind(id) is DropdownButton {
                let d0 = gu.kind(id)->DropdownButton_0;
                lemma_chosen_none(local, 0, d0.main_button_id, !gu.toggle_state(d0.main_button_id), option_entries(d0.opt_map), d0.options@.len());
            }
        }
        assert forall|y: Id| g0.live(y) && #[trigger] g0.in_subtree(id, y) && no_list_between(g0, id, y) implies reacts(g, g0, y, input) by {
            if y != id {
                assert(below_first(g0, children, children.len() as int, y));
                assert(no_list_inside(g0, id, y));
                assert(gp.live(y));
                assert(gu.widget(y) == gp.widget(y));
                assert(g0.in_subtree(id, id));
                assert(!(gu.kind(id) is Select) && !(gu.kind(id) is DropdownButton));
                assert(g.widget(y) == gu.widget(y));
            }
        }
    }

    /// A widget lies below one of the children of `id` exactly where it lies strictly below
    /// `id`.
    /// The events of `s` about `y` that the mouse did not cause, where none of `s` is such an
    /// event, are none.
    proof fn lemma_no_other(s: Seq<Event>, y: Id)
        requires
            forall|e: Event| e.id == y && !is_pointer_kind(e.kind) ==> !#[trigger] s.contains(e),
        ensures
            other_events_of(s, y) == Seq::<Event>::empty(),
    {
        assert forall|k: int| 0 <= k < s.len() implies !caused_other(y)(#[trigger] s[k]) by {
            assert(s.contains(s[k]));
        }
        lemma_filter_none(s, caused_other(y));
    }

    /// The changes of one field of `id` that a widget pushes are the ones that it announces.
    proof fn lemma_other_changes(id: Id, field: Field, n: nat, y: Id)
        requires
            n <= 1,
        ensures
            other_events_of(change_events(id, field, n), y) == (if y == id {
                change_events(id, field, n)
            } else {
                Seq::<Event>::empty()
            }),
            n == 1 ==> change_events(id, field, n) == seq![Event { id, kind: EventKind::Change { field: FieldId(field) } }],
            n == 0 ==> change_events(id, field, n) == Seq::<Event>::empty(),
    {
        let c = change_events(id, field, n);
        if y == id {
            lemma_filter_all(c, caused_other(y));
        } else {
            lemma_filter_none(c, caused_other(y));
        }
        if n == 1 {
            assert(c =~= seq![Event { id, kind: EventKind::Change { field: FieldId(field) } }]);
        } else {
            assert(c =~= Seq::<Event>::empty());
        }
    }

    /// What a widget below the `i`-th child `c` of `id` announces is the same in `gi`, before `c`
    /// lives through its frame, as in `g0`, at the start of the frame of `id`.
    proof fn lemma_own_changes_frame(h: Gui, gi: Gui, g0: Gui, id: Id, children: Seq<Id>, i: int, y: Id, input: PointerInput)
        requires
            g0.wf(),
            g0.live(id),
            children == g0.children_of(id),
            0 <= i < children.len(),
            gi.wf(),
            gi.grows_within(&g0, id),
            forall|z: Id| g0.live(z) && #[trigger] g0.in_subtree(id, z) && z != id && !below_first(g0, children, i, z) ==> gi.widget(z) == g0.widget(z),
            g0.live(y),
            g0.in_subtree(children[i], y),
        ensures
            !below_first(g0, children, i, y),
            y != id,
            gi.widget(y) == g0.widget(y),
            own_changes(h, gi, y, input) == own_changes(h, g0, y, input),
    {
        let c = children[i];
        assert(g0.children_of(id).contains(c)) by {
            assert(g0.children_of(id)[i] == c);
        }
        Gui::lemma_child(g0, id, c);
        assert(children.no_duplicates()) by {
            assert(g0.children_ok(id));
        }
        Gui::lemma_subtree_trans(g0, id, c, y);
        assert(y != id) by {
            if y == id {
                assert(g0.in_subtree(c, id));
            }
        }
        if below_first(g0, children, i, y) {
            let j = choose|j: int| 0 <= j < i && #[trigger] g0.in_subtree(children[j], y);
            assert(g0.children_of(id).contains(children[j])) by {
                assert(g0.children_of(id)[j] == children[j]);
            }
            assert(children[j] != c);
            Gui::lemma_sibling_disjoint(g0, id, children[j], c, y);
        }
        assert(gi.widget(y) == g0.widget(y));
        assert(same_below(g0, gi, y)) by {
            assert forall|z: Id| g0.live(z) && #[trigger] g0.in_subtree(y, z) implies {
                &&& gi.kind(z).spec_captures() == g0.kind(z).spec_captures()
                &&& gi.children_of(z) == g0.children_of(z)
            } by {
                Gui::lemma_subtree_trans(g0, c, y, z);
                Gui::lemma_subtree_trans(g0, id, c, z);
                if z == id {
                    Gui::lemma_subtree_trans(g0, c, y, id);
                }
                if below_first(g0, children, i, z) {
                    let j = choose|j: int| 0 <= j < i && #[trigger] g0.in_subtree(children[j], z);
                    assert(g0.children_of(id).contains(children[j])) by {
                        assert(g0.children_of(id)[j] == children[j]);
                    }
                    assert(children[j] != c);
                    Gui::lemma_sibling_disjoint(g0, id, children[j], c, z);
                }
            }
        }
        Gui::lemma_children_capture_frame(g0, gi, g0.children_of(y), y, input);
    }

    /// The events collected at and below `id` announce what the widgets below the first `i + 1`
    /// children of `id` announce, once the `i`-th child has lived through its frame (see
    /// `visit`).
    #[verifier::rlimit(80)]
    proof fn lemma_child_step_others(g: Gui, gi: Gui, g0: Gui, id: Id, children: Seq<Id>, i: int, input: PointerInput)
        requires
            g0.wf(),
            g0.live(id),
            children == g0.children_of(id),
            0 <= i < children.len(),
            gi.wf(),
            gi.grows_within(&g0, id),
            forall|z: Id| g0.live(z) && #[trigger] g0.in_subtree(id, z) && z != id && !below_first(g0, children, i, z) ==> gi.widget(z) == g0.widget(z),
            forall|k: int| 0 <= k < gi.pending_since(g0.pending().len()).len() ==> gi.live(#[trigger] gi.pending_since(g0.pending().len())[k].id)
                && below_first(gi, children, i, gi.pending_since(g0.pending().len())[k].id),
            forall|y: Id| g0.live(y) && #[trigger] below_first(g0, children, i, y) && no_list_inside(g0, id, y)
                ==> other_events_of(gi.pending_since(g0.pending().len()), y) == own_changes(gi, g0, y, input),
            g.grows_within(&gi, children[i]),
            forall|y: Id| gi.live(y) && #[trigger] gi.in_subtree(children[i], y) && no_list_between(gi, children[i], y)
                ==> other_events_of(g.pending_since(gi.pending().len()), y) == own_changes(g, gi, y, input),
        ensures
            forall|y: Id| g0.live(y) && #[trigger] below_first(g0, children, i + 1, y) && no_list_inside(g0, id, y)
                ==> other_events_of(g.pending_since(g0.pending().len()), y) == own_changes(g, g0, y, input),
    {
        let c = children[i];
        let n0 = g0.pending().len();
        let before = gi.pending_since(n0);
        let now = g.pending_since(gi.pending().len());
        lemma_since_split(g, gi, g0);
        assert forall|y: Id| g0.live(y) && #[trigger] below_first(g0, children, i + 1, y) && no_list_inside(g0, id, y)
            implies other_events_of(g.pending_since(n0), y) == own_changes(g, g0, y, input) by {
            Seq::filter_distributes_over_add(before, now, caused_other(y));
            if y != ROOT {
                assert(g0.has_path(y));
                assert(gi.path(y) == g0.path(y));
                assert(g.path(y) == g0.path(y));
            }
            if g0.in_subtree(c, y) {
                Gui::lemma_own_changes_frame(g, gi, g0, id, children, i, y, input);
                Gui::lemma_no_list_frame(gi, g0, id, children, i, y);
                assert forall|k: int| 0 <= k < before.len() implies !caused_other(y)(#[trigger] before[k]) by {
                    if before[k].id == y {
                        assert(below_first(gi, children, i, y));
                        let j = choose|j: int| 0 <= j < i && #[trigger] gi.in_subtree(children[j], y);
                        assert(g0.in_subtree(children[j], y));
                        assert(below_first(g0, children, i, y));
                    }
                }
                lemma_filter_none(before, caused_other(y));
                assert(Seq::<Event>::empty() + other_events_of(now, y) =~= other_events_of(now, y));
            } else {
                let j = choose|j: int| 0 <= j < i + 1 && #[trigger] g0.in_subtree(children[j], y);
                assert(j != i);
                assert(below_first(g0, children, i, y));
                assert forall|k: int| 0 <= k < now.len() implies !caused_other(y)(#[trigger] now[k]) by {
                    assert(now[k] == g.pending()[gi.pending().len() + k]);
                    if now[k].id == y {
                        assert(g.in_subtree(c, y));
                        assert(g0.in_subtree(c, y));
                    }
                }
                lemma_filter_none(now, caused_other(y));
                assert(other_events_of(before, y) + Seq::<Event>::empty() =~= other_events_of(before, y));
                assert(gi.live(y));
                assert(!gi.in_subtree(c, y));
                assert(g.widget(y) == gi.widget(y));
            }
        }
    }

    /// What a widget announces of itself in a frame: the changes it pushes, as `own_changes`
    /// says.
    proof fn lemma_own_other_self(g: Gui, gu: Gui, g0: Gui, id: Id, local: Seq<Event>, input: PointerInput)
        requires
            forall|e: Event| e.id == id && !is_pointer_kind(e.kind) ==> !#[trigger] local.contains(e),
            count_events(local, id, EventKind::Press) == (if pressed_on(g0, id, input) { 1nat } else { 0nat }),
            count_events(local, id, EventKind::Release) == (if released_on(g0, id, input) { 1nat } else { 0nat }),
            gu.kind(id) == g0.kind(id),
            gu.kind(id) is ToggleButton ==> g.pending() == gu.pending() + change_events(id, Field::ToggleButtonState, count_events(local, id, EventKind::Press)),
            gu.kind(id) is RadioButton ==> g.pending() == gu.pending() + (if !gu.radio_state(id) && count_events(local, id, EventKind::Release) > 0 {
                change_events(id, Field::RadioButtonState, 1)
            } else {
                Seq::<Event>::empty()
            }),
            gu.kind(id) is Select ==> other_events_of(g.pending_since(gu.pending().len()), id) == (if g.kind(id)->Select_0.spec_value() != gu.kind(id)->Select_0.spec_value() {
                seq![select_changed(id)]
            } else {
                Seq::<Event>::empty()
            }),
            gu.kind(id) is DropdownButton ==> other_events_of(g.pending_since(gu.pending().len()), id) == Seq::<Event>::empty(),
            !(gu.kind(id) is ToggleButton) && !(gu.kind(id) is RadioButton) && !(gu.kind(id) is Select) && !(gu.kind(id) is DropdownButton) ==> g == gu,
        ensures
            other_events_of(local + g.pending_since(gu.pending().len()), id) == own_changes(g, g0, id, input),
    {
        let widget = g.pending_since(gu.pending().len());
        Seq::filter_distributes_over_add(local, widget, caused_other(id));
        Gui::lemma_no_other(local, id);
        if gu.kind(id) is ToggleButton {
            let n = count_events(local, id, EventKind::Press);
            Gui::lemma_pushed(g, gu, change_events(id, Field::ToggleButtonState, n));
            Gui::lemma_other_changes(id, Field::ToggleButtonState, n, id);
        } else if gu.kind(id) is RadioButton {
            let n = count_events(local, id, EventKind::Release);
            if !gu.radio_state(id) && n > 0 {
                Gui::lemma_pushed(g, gu, change_events(id, Field::RadioButtonState, 1));
                Gui::lemma_other_changes(id, Field::RadioButtonState, 1, id);
            } else {
                Gui::lemma_pushed(g, gu, Seq::<Event>::empty());
                lemma_filter_none(Seq::<Event>::empty(), caused_other(id));
            }
        } else if !(gu.kind(id) is Select) && !(gu.kind(id) is DropdownButton) {
            Gui::lemma_pushed(g, gu, Seq::<Event>::empty());
            lemma_filter_none(Seq::<Event>::empty(), caused_other(id));
        }
        assert(Seq::<Event>::empty() + other_events_of(widget, id) =~= other_events_of(widget, id));
    }

    /// What a widget below `id` announces is not changed by the work of `id`, where `id` is no
    /// select or dropdown button.
    proof fn lemma_own_other_below(before: Seq<Event>, own: Seq<Event>, widget: Seq<Event>, id: Id, y: Id)
        requires
            y != id,
            forall|k: int| 0 <= k < widget.len() ==> (#[trigger] widget[k]).id == id,
            forall|e: Event| #[trigger] own.contains(e) ==> is_pointer_kind(e.kind),
        ensures
            other_events_of(before + own + widget, y) == other_events_of(before, y),
    {
        Seq::filter_distributes_over_add(before + own, widget, caused_other(y));
        Seq::filter_distributes_over_add(before, own, caused_other(y));
        assert forall|k: int| 0 <= k < widget.len() implies !caused_other(y)(#[trigger] widget[k]) by {}
        lemma_filter_none(widget, caused_other(y));
        assert forall|k: int| 0 <= k < own.len() implies !caused_other(y)(#[trigger] own[k]) by {
            assert(own.contains(own[k]));
        }
        lemma_filter_none(own, caused_other(y));
        assert(other_events_of(before, y) + Seq::<Event>::empty() + Seq::<Event>::empty() =~= other_events_of(before, y));
    }

    /// The events collected at and below `id` announce, of `id` itself, where it is no select or
    /// dropdown button, what `own_changes` says, once it has reacted (see `visit`).
    proof fn lemma_own_step_others_self(g: Gui, gu: Gui, gp: Gui, g0: Gui, id: Id, local: Seq<Event>, input: PointerInput)
        requires
            g0.pending().len() <= gp.pending().len(),
            forall|e: Event| e.id == id && !is_pointer_kind(e.kind) ==> !#[trigger] local.contains(e),
            gu.pending() == gp.pending() + expected_pointer_events(g0, id, input),
            local == gu.pending_since(g0.pending().len()),
            gu.kind(id) == g0.kind(id),
            pointer_events_of(local, id) == expected_pointer_events(g0, id, input),
            gu.pending().len() <= g.pending().len(),
            g.pending().take(gu.pending().len() as int) == gu.pending(),
            gu.kind(id) is ToggleButton ==> g.pending() == gu.pending() + change_events(id, Field::ToggleButtonState, count_events(local, id, EventKind::Press)),
            gu.kind(id) is RadioButton ==> g.pending() == gu.pending() + (if !gu.radio_state(id) && count_events(local, id, EventKind::Release) > 0 {
                change_events(id, Field::RadioButtonState, 1)
            } else {
                Seq::<Event>::empty()
            }),
            gu.kind(id) is Select ==> other_events_of(g.pending_since(gu.pending().len()), id) == (if g.kind(id)->Select_0.spec_value() != gu.kind(id)->Select_0.spec_value() {
                seq![select_changed(id)]
            } else {
                Seq::<Event>::empty()
            }),
            gu.kind(id) is DropdownButton ==> other_events_of(g.pending_since(gu.pending().len()), id) == Seq::<Event>::empty(),
            !(gu.kind(id) is ToggleButton) && !(gu.kind(id) is RadioButton) && !(gu.kind(id) is Select) && !(gu.kind(id) is DropdownButton) ==> g == gu,
        ensures
            other_events_of(g.pending_since(g0.pending().len()), id) == own_changes(g, g0, id, input),
    {
        lemma_since_split(g, gu, g0);
        lemma_local_counts(local, g0, id, input);
        Gui::lemma_own_other_self(g, gu, g0, id, local, input);
    }

    /// The events collected at and below `id` announce, of each widget strictly below `id` with
    /// no select or dropdown button above it, what they did before `id` reacted, where `id` is no
    /// select or dropdown button (see `visit`).
    proof fn lemma_own_step_others_below(g: Gui, gu: Gui, gp: Gui, g0: Gui, id: Id, children: Seq<Id>, input: PointerInput)
        requires
            g0.pending().len() <= gp.pending().len(),
            forall|y: Id| g0.live(y) ==> (#[trigger] below_first(g0, children, children.len() as int, y) <==> (g0.in_subtree(id, y) && y != id)),
            forall|y: Id| g0.live(y) && #[trigger] below_first(g0, children, children.len() as int, y) && no_list_inside(g0, id, y)
                ==> other_events_of(gp.pending_since(g0.pending().len()), y) == own_changes(gp, g0, y, input),
            !is_list(gu.kind(id)) ==> forall|y: Id| y != id && g0.live(y) ==> #[trigger] g.kind(y) == gp.kind(y),
            gu.pending() == gp.pending() + expected_pointer_events(g0, id, input),
            gu.pending().len() <= g.pending().len(),
            g.pending().take(gu.pending().len() as int) == gu.pending(),
            !is_list(gu.kind(id)) ==> forall|k: int| gu.pending().len() <= k < g.pending().len() ==> (#[trigger] g.pending()[k]).id == id,
            gu.kind(id) == g0.kind(id),
        ensures
            forall|y: Id| g0.live(y) && #[trigger] g0.in_subtree(id, y) && y != id && no_list_between(g0, id, y)
                ==> other_events_of(g.pending_since(g0.pending().len()), y) == own_changes(g, g0, y, input),
    {
        let n0 = g0.pending().len();
        let widget = g.pending_since(gu.pending().len());
        let before = gp.pending_since(n0);
        let own = expected_pointer_events(g0, id, input);
        lemma_since_split(g, gu, g0);
        assert(gu.pending_since(n0) =~= before + own);
        lemma_expected_pointer_only(g0, id, input);
        assert forall|y: Id| g0.live(y) && #[trigger] g0.in_subtree(id, y) && y != id && no_list_between(g0, id, y)
            implies other_events_of(g.pending_since(n0), y) == own_changes(g, g0, y, input) by {
            lemma_no_list_between_parts(g0, id, y);
            assert(g.kind(y) == gp.kind(y));
            assert forall|k: int| 0 <= k < widget.len() implies (#[trigger] widget[k]).id == id by {
                assert(widget[k] == g.pending()[gu.pending().len() + k]);
            }
            assert(below_first(g0, children, children.len() as int, y));
            Gui::lemma_own_other_below(before, own, widget, id, y);
        }
    }

    proof fn lemma_below_first_all(g0: Gui, id: Id, children: Seq<Id>)
        requires
            g0.wf(),
            g0.live(id),
            children == g0.children_of(id),
        ensures
            forall|y: Id| g0.live(y) ==> (#[trigger] below_first(g0, children, children.len() as int, y) <==> (g0.in_subtree(id, y) && y != id)),
    {
        assert forall|y: Id| g0.live(y) implies (#[trigger] below_first(g0, children, children.len() as int, y) <==> (g0.in_subtree(id, y) && y != id)) by {
            if below_first(g0, children, children.len() as int, y) {
                let j = choose|j: int| 0 <= j < children.len() && #[trigger] g0.in_subtree(children[j], y);
                assert(g0.children_of(id).contains(children[j])) by {
                    assert(g0.children_of(id)[j] == children[j]);
                }
                Gui::lemma_child(g0, id, children[j]);
                Gui::lemma_subtree_trans(g0, id, children[j], y);
                if y == id {
                    assert(!g0.in_subtree(children[j], id));
                }
            }
            if g0.in_subtree(id, y) && y != id {
                let c = Gui::lemma_below_child(g0, id, y);
                let j = choose|j: int| 0 <= j < g0.children_of(id).len() && g0.children_of(id)[j] == c;
                assert(children[j] == c);
                assert(g0.in_subtree(children[j], y));
            }
        }
    }

    /// The events that the mouse causes on `id` are about `id`.
    proof fn lemma_expected_caused(g0: Gui, id: Id, input: PointerInput)
        ensures
            forall|y: Id| #[trigger] pointer_events_of(expected_pointer_events(g0, id, input), y) == (if y == id {
                expected_pointer_events(g0, id, input)
            } else {
                Seq::<Event>::empty()
            }),
    {
        assert forall|y: Id| #[trigger] pointer_events_of(expected_pointer_events(g0, id, input), y) == (if y == id {
            expected_pointer_events(g0, id, input)
        } else {
            Seq::<Event>::empty()
        }) by {
            if step_runs(g0, id, input) {
                lemma_pointer_events_of(id, g0.widget(id).inside, g0.widget(id).pressed, input.spec_inside(id), input.pressed, input.released, y);
            } else {
                lemma_filter_none(Seq::<Event>::empty(), caused_on(y));
            }
        }
    }

    /// How the events that the mouse caused grow when the widget `id` follows the mouse itself,
    /// after its children (see `visit`).
    #[verifier::spinoff_prover]
    proof fn lemma_own_step_events(g: Gui, gp: Gui, g0: Gui, id: Id, children: Seq<Id>, input: PointerInput)
        requires
            g0.wf(),
            g0.live(id),
            children == g0.children_of(id),
            g0.pending().len() <= gp.pending().len(),
            forall|y: Id| #[trigger] pointer_events_of(gp.pending_since(g0.pending().len()), y) == (if g0.live(y) && below_first(g0, children, children.len() as int, y) {
                expected_pointer_events(g0, y, input)
            } else {
                Seq::<Event>::empty()
            }),
            g.pending() == gp.pending() + expected_pointer_events(g0, id, input),
        ensures
            forall|y: Id| #[trigger] pointer_events_of(g.pending_since(g0.pending().len()), y) == (if g0.live(y) && g0.in_subtree(id, y) {
                expected_pointer_events(g0, y, input)
            } else {
                Seq::<Event>::empty()
            }),
    {
        let prev_len = g0.pending().len();
        let own = expected_pointer_events(g0, id, input);
        let before = gp.pending_since(prev_len);
        assert(g.pending_since(prev_len) =~= before + own);
        Gui::lemma_below_first_all(g0, id, children);
        Gui::lemma_expected_caused(g0, id, input);
        assert forall|y: Id| #[trigger] pointer_events_of(g.pending_since(prev_len), y) == (if g0.live(y) && g0.in_subtree(id, y) {
            expected_pointer_events(g0, y, input)
        } else {
            Seq::<Event>::empty()
        }) by {
            Seq::filter_distributes_over_add(before, own, caused_on(y));
            assert(pointer_events_of(own, y) == (if y == id { own } else { Seq::<Event>::empty() }));
            if y == id {
                assert(pointer_events_of(before, y) == Seq::<Event>::empty());
                assert(Seq::<Event>::empty() + own =~= own);
            } else {
                assert(pointer_events_of(before, y) + Seq::<Event>::empty() =~= pointer_events_of(before, y));
            }
        }
    }
}


/// The widgets below `id` in `g`, in the order in which they are reported removed: its
/// children, then the widgets below each child in turn.
pub open spec fn descendants(g: Gui, id: Id) -> Seq<Id>
    decreases ID_LIMIT - id + 1, 0int,
{
    if id > ID_LIMIT {
        Seq::empty()
    } else {
        g.children_of(id) + descendants_of_all(g, g.children_of(id), id)
    }
}

/// The widgets below each of the widgets `cs` below `p`, one after the other.
pub open spec fn descendants_of_all(g: Gui, cs: Seq<Id>, p: Id) -> Seq<Id>
    decreases ID_LIMIT - p, cs.len(),
{
    if cs.len() == 0 || p > ID_LIMIT {
        Seq::empty()
    } else {
        let c = cs.last();
        descendants_of_all(g, cs.drop_last(), p) + (if p < c && c <= ID_LIMIT {
            descendants(g, c)
        } else {
            Seq::empty()
        })
    }
}

/// A `Removed` event for each of `ids`, in order.
pub open spec fn removed_events(ids: Seq<Id>) -> Seq<Event> {
    ids.map_values(|y: Id| Event { id: y, kind: EventKind::Removed })
}

/// The widgets reported removed for the removal queue `q` of `g`: for each existing widget of
/// the queue, the widgets below it and then the widget itself.
pub open spec fn removal_report(g: Gui, q: Seq<Id>) -> Seq<Id>
    decreases q.len(),
{
    if q.len() == 0 {
        Seq::empty()
    } else {
        removal_report(g, q.drop_last()) + (if g.live(q.last()) {
            descendants(g, q.last()).push(q.last())
        } else {
            Seq::empty()
        })
    }
}

proof fn lemma_removed_events_concat(a: Seq<Id>, b: Seq<Id>)
    ensures
        removed_events(a + b) == removed_events(a) + removed_events(b),
{
    assert(removed_events(a + b) =~= removed_events(a) + removed_events(b));
}

impl Gui {
    /// The widgets below an existing widget exist.
    pub proof fn lemma_descendants_live(g: Gui, id: Id)
        requires
            g.wf(),
            g.live(id),
        ensures
            forall|j: int| 0 <= j < descendants(g, id).len() ==> g.live(#[trigger] descendants(g, id)[j]),
        decreases ID_LIMIT - id + 1, 0int,
    {
        g.lemma_children_live(id);
        Gui::lemma_descendants_of_all_live(g, g.children_of(id), id);
        let d = descendants(g, id);
        assert forall|j: int| 0 <= j < d.len() implies g.live(#[trigger] d[j]) by {
            if j < g.children_of(id).len() {
                assert(d[j] == g.children_of(id)[j]);
            } else {
                assert(d[j] == descendants_of_all(g, g.children_of(id), id)[j - g.children_of(id).len()]);
            }
        }
    }

    /// The widgets below existing children of a widget exist.
    /// Every widget strictly below an existing widget is among the widgets below it.
    pub proof fn lemma_descendants_complete(g: Gui, id: Id, y: Id)
        requires
            g.wf(),
            g.live(id),
            g.live(y),
            g.in_subtree(id, y),
            y != id,
        ensures
            descendants(g, id).contains(y),
        decreases ID_LIMIT - id + 1, 0int,
    {
        let c = Gui::lemma_below_child(g, id, y);
        Gui::lemma_child(g, id, c);
        assert(id <= g.last_id());
        let cs = g.children_of(id);
        let d = descendants(g, id);
        assert(d == cs + descendants_of_all(g, cs, id));
        if y == c {
            let k = choose|k: int| 0 <= k < cs.len() && cs[k] == c;
            assert(d[k] == y);
        } else {
            Gui::lemma_descendants_of_all_complete(g, cs, id, c, y);
            let a = descendants_of_all(g, cs, id);
            let k = choose|k: int| 0 <= k < a.len() && a[k] == y;
            assert(d[cs.len() + k] == y);
        }
    }

    /// Every widget strictly below one of the children `cs` of `p` is among the widgets below
    /// them.
    pub proof fn lemma_descendants_of_all_complete(g: Gui, cs: Seq<Id>, p: Id, c: Id, y: Id)
        requires
            g.wf(),
            g.live(p),
            forall|j: int| 0 <= j < cs.len() ==> g.children_of(p).contains(#[trigger] cs[j]),
            cs.contains(c),
            g.live(y),
            g.in_subtree(c, y),
            y != c,
        ensures
            descendants_of_all(g, cs, p).contains(y),
        decreases ID_LIMIT - p, cs.len(),
    {
        assert(p <= g.last_id());
        let l = cs.last();
        assert(g.children_of(p).contains(cs[cs.len() - 1]));
        Gui::lemma_child(g, p, l);
        let a = descendants_of_all(g, cs.drop_last(), p);
        let d = descendants_of_all(g, cs, p);
        assert(d == a + descendants(g, l));
        if l == c {
            Gui::lemma_descendants_complete(g, c, y);
            let k = choose|k: int| 0 <= k < descendants(g, c).len() && descendants(g, c)[k] == y;
            assert(d[a.len() + k] == y);
        } else {
            let i = choose|i: int| 0 <= i < cs.len() && cs[i] == c;
            assert(cs.drop_last()[i] == c);
            assert forall|j: int| 0 <= j < cs.drop_last().len() implies g.children_of(p).contains(#[trigger] cs.drop_last()[j]) by {
                assert(cs.drop_last()[j] == cs[j]);
            }
            Gui::lemma_descendants_of_all_complete(g, cs.drop_last(), p, c, y);
            let k = choose|k: int| 0 <= k < a.len() && a[k] == y;
            assert(d[k] == y);
        }
    }

    pub proof fn lemma_descendants_of_all_live(g: Gui, cs: Seq<Id>, p: Id)
        requires
            g.wf(),
            g.live(p),
            forall|j: int| 0 <= j < cs.len() ==> g.children_of(p).contains(#[trigger] cs[j]),
        ensures
            forall|j: int| 0 <= j < descendants_of_all(g, cs, p).len() ==> g.live(#[trigger] descendants_of_all(g, cs, p)[j]),
        decreases ID_LIMIT - p, cs.len(),
    {
        if cs.len() > 0 {
            assert(p <= g.last_id());
            let c = cs.last();
            assert(g.children_of(p).contains(cs[cs.len() - 1]));
            Gui::lemma_child(g, p, c);
            assert forall|j: int| 0 <= j < cs.drop_last().len() implies g.children_of(p).contains(#[trigger] cs.drop_last()[j]) by {
                assert(cs.drop_last()[j] == cs[j]);
            }
            Gui::lemma_descendants_of_all_live(g, cs.drop_last(), p);
            Gui::lemma_descendants_live(g, c);
            let a = descendants_of_all(g, cs.drop_last(), p);
            let d = descendants_of_all(g, cs, p);
            assert(d == a + descendants(g, c));
            assert forall|j: int| 0 <= j < d.len() implies g.live(#[trigger] d[j]) by {
                if j < a.len() {
                    assert(d[j] == a[j]);
                } else {
                    assert(d[j] == descendants(g, c)[j - a.len()]);
                }
            }
        }
    }

    /// Collects a `Removed` event for each widget below `id`, in the order of `descendants`.
    fn push_removed_below(&mut self, id: Id)
        requires
            old(self).wf(),
            old(self).live(id),
        ensures
            final(self).same_tree(old(self)),
            final(self).removal_queue() == old(self).removal_queue(),
            final(self).pending() == old(self).pending() + removed_events(descendants(*old(self), id)),
        decreases ID_LIMIT - id,
    {
        let ghost g0 = *self;
        let children = self.widget_ref(id).children.clone();
        proof {
            assert(id <= g0.last_id());
            assert(removed_events(children@.take(0)) =~= Seq::<Event>::empty());
            assert(g0.pending() + Seq::<Event>::empty() =~= g0.pending());
        }
        let mut i: usize = 0;
        while i < children.len()
            invariant
                g0 == *old(self),
                g0.wf(),
                children@ == g0.children_of(id),
                i <= children@.len(),
                self.same_tree(&g0),
                self.removal_queue() == g0.removal_queue(),
                self.pending() == g0.pending() + removed_events(children@.take(i as int)),
            decreases children@.len() - i,
        {
            self.push_event(Event::new(children[i], EventKind::Removed));
            proof {
                assert(children@.take(i + 1) =~= children@.take(i as int).push(children@[i as int]));
                lemma_removed_events_concat(children@.take(i as int), seq![children@[i as int]]);
                assert(self.pending() =~= g0.pending() + removed_events(children@.take(i + 1)));
            }
            i += 1;
        }
        proof {
            assert(children@.take(children@.len() as int) =~= children@);
            assert(descendants_of_all(g0, children@.take(0), id) =~= Seq::<Id>::empty());
            assert(self.pending() =~= g0.pending() + removed_events(children@) + removed_events(descendants_of_all(g0, children@.take(0), id)));
            self.lemma_same_tree_wf(&g0);
        }
        let mut j: usize = 0;
        while j < children.len()
            invariant
                g0 == *old(self),
                g0.wf(),
                g0.live(id),
                id <= g0.last_id(),
                children@ == g0.children_of(id),
                j <= children@.len(),
                self.same_tree(&g0),
                self.wf(),
                self.removal_queue() == g0.removal_queue(),
                self.pending() == g0.pending() + removed_events(children@) + removed_events(descendants_of_all(g0, children@.take(j as int), id)),
            decreases children@.len() - j,
        {
            let c = children[j];
            let ghost gj = *self;
            proof {
                assert(g0.children_of(id).contains(c)) by {
                    assert(g0.children_of(id)[j as int] == c);
                }
                Gui::lemma_child(g0, id, c);
                assert(gj.live(c));
            }
            self.push_removed_below(c);
            proof {
                assert(children@.take(j + 1).drop_last() =~= children@.take(j as int));
                assert(children@.take(j + 1).last() == c);
                Gui::lemma_descendants_frame(g0, gj, c);
                lemma_removed_events_concat(descendants_of_all(g0, children@.take(j as int), id), descendants(g0, c));
                assert(self.pending() =~= g0.pending() + removed_events(children@) + removed_events(descendants_of_all(g0, children@.take(j + 1), id)));
                self.lemma_same_tree_wf(&g0);
            }
            j += 1;
        }
        proof {
            assert(children@.take(children@.len() as int) =~= children@);
            lemma_removed_events_concat(children@, descendants_of_all(g0, children@, id));
            assert(self.pending() =~= g0.pending() + removed_events(descendants(g0, id)));
        }
    }

    /// Two guis that hold the same widgets list the same widgets below `id`.
    proof fn lemma_descendants_frame(g: Gui, h: Gui, id: Id)
        requires
            h.same_widgets(&g),
        ensures
            descendants(h, id) == descendants(g, id),
        decreases ID_LIMIT - id + 1, 0int,
    {
        if id <= ID_LIMIT {
            assert(h.children_of(id) == g.children_of(id));
            Gui::lemma_descendants_of_all_frame(g, h, g.children_of(id), id);
        }
    }

    proof fn lemma_descendants_of_all_frame(g: Gui, h: Gui, cs: Seq<Id>, p: Id)
        requires
            h.same_widgets(&g),
        ensures
            descendants_of_all(h, cs, p) == descendants_of_all(g, cs, p),
        decreases ID_LIMIT - p, cs.len(),
    {
        if cs.len() > 0 && p <= ID_LIMIT {
            Gui::lemma_descendants_of_all_frame(g, h, cs.drop_last(), p);
            let c = cs.last();
            if p < c && c <= ID_LIMIT {
                Gui::lemma_descendants_frame(g, h, c);
            }
        }
    }
}


impl Gui {
    /// `self` is `old` with the widgets of `old`'s removal queue taken out of the tree, each with
    /// every widget below it (the root and widgets that no longer exist are passed over), and
    /// the queue emptied; the remaining widgets are as they were, but for the children taken
    /// out; of the events collected, those about widgets taken out are dropped.
    pub open spec fn removal_done(&self, old: &Gui) -> bool {
        &&& self.wf()
        &&& self.removal_queue() == Seq::<Id>::empty()
        &&& self.table_len() == old.table_len()
        &&& self.last_id() == old.last_id()
        &&& forall|y: Id| #[trigger] self.live(y) == (old.live(y) && !Gui::removes(*old, old.removal_queue(), y))
        &&& forall|y: Id| #[trigger] self.live(y) ==> {
            &&& self.kind(y) == old.kind(y)
            &&& self.widget(y).inside == old.widget(y).inside
            &&& self.widget(y).pressed == old.widget(y).pressed
        }
        &&& forall|y: Id| #[trigger] self.has_path(y) ==> self.path(y) == old.path(y)
        &&& self.pending() == old.pending().filter(about_live(*self))
        &&& self.alias_map() == old.alias_map()
    }

    /// Drops the events collected about widgets that no longer exist.
    fn drop_stale_events(&mut self)
        ensures
            final(self).nodes == old(self).nodes,
            final(self).paths == old(self).paths,
            final(self).id_cnt == old(self).id_cnt,
            final(self).to_remove == old(self).to_remove,
            final(self).aliases == old(self).aliases,
            final(self).pending() == old(self).pending().filter(about_live(*old(self))),
            final(self).same_tree(old(self)),
            final(self).removal_queue() == old(self).removal_queue(),
            old(self).wf() ==> final(self).wf(),
    {
        let ghost g0 = *self;
        let ghost keep = about_live(g0);
        let mut kept: Vec<Event> = Vec::new();
        let mut i: usize = 0;
        proof {
            assert(g0.pending().take(0) =~= Seq::<Event>::empty());
            reveal_with_fuel(Seq::filter, 1);
        }
        while i < self.events.len()
            invariant
                *self == g0,
                keep == about_live(g0),
                i <= self.events@.len(),
                self.events@ == g0.pending(),
                kept@ == g0.pending().take(i as int).filter(keep),
            decreases self.events@.len() - i,
        {
            let e = self.events[i];
            let ghost t = g0.pending().take(i as int);
            proof {
                assert(g0.pending().take(i + 1) =~= t + seq![e]);
                Seq::filter_distributes_over_add(t, seq![e], keep);
            }
            proof {
                lemma_filter_single(e, keep);
                assert(keep(e) == g0.live(e.id));
            }
            let ghost k0 = kept@;
            if self.contains(e.id) {
                kept.push(e);
                proof {
                    assert(kept@ =~= k0 + seq![e]);
                }
            } else {
                proof {
                    assert(kept@ =~= k0 + Seq::<Event>::empty());
                }
            }
            proof {
                assert(kept@ =~= g0.pending().take(i + 1).filter(keep));
            }
            i += 1;
        }
        proof {
            assert(g0.pending().take(g0.pending().len() as int) =~= g0.pending());
        }
        self.events = kept;
        proof {
            assert(self.same_widgets(&g0));
            if g0.wf() {
                self.lemma_same_tree_wf(&g0);
            }
        }
    }

    /// The first part of an update: takes the widgets marked for removal (in the previous frame)
    /// out of the tree, drops the events collected about them, then lets the tree live through
    /// one frame of `input`: each widget follows the mouse and reacts to the events of its part
    /// of the tree, children before their parent (see `visit`). Returns what the tree captures.
    pub fn update_tree(&mut self, input: &PointerInput) -> (cap: Capture)
        requires
            old(self).wf(),
        ensures
            exists|g1: Gui| #[trigger] g1.removal_done(old(self))
                && final(self).grows_within(&g1, ROOT)
                && cap == tree_capture(g1, ROOT, *input)
                && (forall|y: Id| #[trigger] g1.live(y) ==> pointer_state_after(*final(self), g1, y, *input))
                && (forall|y: Id| #[trigger] pointer_events_of(final(self).pending_since(g1.pending().len()), y) == (if g1.live(y) {
                    expected_pointer_events(g1, y, *input)
                } else {
                    Seq::<Event>::empty()
                }))
                && (forall|y: Id| g1.live(y) && #[trigger] no_list_between(g1, ROOT, y) ==> reacts(*final(self), g1, y, *input))
                && (forall|y: Id| g1.live(y) && #[trigger] no_list_between(g1, ROOT, y) ==> reported(final(self).pending_since(g1.pending().len()), *final(self), g1, y, *input))
                && (forall|y: Id| g1.live(y) && #[trigger] no_list_between(g1, ROOT, y) ==> list_opens(*final(self), g1, y, *input))
                && (forall|y: Id| g1.live(y) && #[trigger] no_list_between(g1, ROOT, y) ==> list_closes(*final(self), g1, y, *input))
                && forall|y: Id| g1.live(y) && #[trigger] no_list_between(g1, ROOT, y)
                    ==> other_events_of(final(self).pending_since(g1.pending().len()), y) == own_changes(*final(self), g1, y, *input),
    {
        let ghost g0 = *self;
        self.remove_marked();
        let ghost gr = *self;
        self.drop_stale_events();
        let ghost g1 = *self;
        proof {
            assert(about_live(g1) =~= about_live(gr));
            assert forall|y: Id| #[trigger] g1.live(y) implies {
                &&& g1.kind(y) == g0.kind(y)
                &&& g1.widget(y).inside == g0.widget(y).inside
                &&& g1.widget(y).pressed == g0.widget(y).pressed
            } by {
                assert(gr.live(y));
            }
            assert forall|y: Id| #[trigger] g1.has_path(y) implies g1.path(y) == g0.path(y) by {
                assert(gr.has_path(y));
            }
            assert(g1.removal_done(&g0));
        }
        let cap = self.visit(ROOT, input);
        proof {
            assert(g1.removal_done(&g0));
            assert forall|y: Id| #[trigger] g1.live(y) implies pointer_state_after(*self, g1, y, *input) by {
                assert(g1.in_subtree(ROOT, y));
            }
            assert forall|y: Id| #[trigger] pointer_events_of(self.pending_since(g1.pending().len()), y) == (if g1.live(y) {
                expected_pointer_events(g1, y, *input)
            } else {
                Seq::<Event>::empty()
            }) by {
                if g1.live(y) {
                    assert(g1.in_subtree(ROOT, y));
                }
            }
            assert forall|y: Id| g1.live(y) && #[trigger] no_list_between(g1, ROOT, y) implies reacts(*self, g1, y, *input) by {
                assert(g1.in_subtree(ROOT, y));
            }
            assert forall|y: Id| g1.live(y) && #[trigger] no_list_between(g1, ROOT, y) implies reported(self.pending_since(g1.pending().len()), *self, g1, y, *input) by {
                assert(g1.in_subtree(ROOT, y));
            }
            assert forall|y: Id| g1.live(y) && #[trigger] no_list_between(g1, ROOT, y) implies list_opens(*self, g1, y, *input) by {
                assert(g1.in_subtree(ROOT, y));
            }
            assert forall|y: Id| g1.live(y) && #[trigger] no_list_between(g1, ROOT, y) implies list_closes(*self, g1, y, *input) by {
                assert(g1.in_subtree(ROOT, y));
            }
            assert forall|y: Id| g1.live(y) && #[trigger] no_list_between(g1, ROOT, y)
                implies other_events_of(self.pending_since(g1.pending().len()), y) == own_changes(*self, g1, y, *input) by {
                assert(g1.in_subtree(ROOT, y));
            }
        }
        cap
    }

    /// The widgets reported removed for a removal queue exist.
    proof fn lemma_removal_report_live(g: Gui, q: Seq<Id>)
        requires
            g.wf(),
        ensures
            forall|j: int| 0 <= j < removal_report(g, q).len() ==> g.live(#[trigger] removal_report(g, q)[j]),
        decreases q.len(),
    {
        if q.len() > 0 {
            Gui::lemma_removal_report_live(g, q.drop_last());
            let a = removal_report(g, q.drop_last());
            let r = removal_report(g, q);
            if g.live(q.last()) {
                Gui::lemma_descendants_live(g, q.last());
                let b = descendants(g, q.last()).push(q.last());
                assert(r == a + b);
                assert forall|j: int| 0 <= j < r.len() implies g.live(#[trigger] r[j]) by {
                    if j < a.len() {
                        assert(r[j] == a[j]);
                    } else if j < a.len() + descendants(g, q.last()).len() {
                        assert(r[j] == descendants(g, q.last())[j - a.len()]);
                    } else {
                        assert(r[j] == q.last());
                    }
                }
            } else {
                assert(r =~= a);
            }
        }
    }

    /// The last part of an update: collects a `Removed` event for each widget marked for
    /// removal (the widgets below it first, see `removal_report`), and hands out every event
    /// collected. The marked widgets stay in the tree until the next update.
    pub fn take_events(&mut self) -> (r: Vec<Event>)
        requires
            old(self).wf(),
        ensures
            final(self).wf(),
            final(self).same_tree(old(self)),
            final(self).removal_queue() == old(self).removal_queue(),
            final(self).pending() == Seq::<Event>::empty(),
            r@ == old(self).pending() + removed_events(removal_report(*old(self), old(self).removal_queue())),
    {
        let ghost g0 = *self;
        let q = self.to_remove.clone();
        proof {
            assert(q@ == g0.removal_queue());
            assert(q@.take(0) =~= Seq::<Id>::empty());
            assert(g0.pending() + removed_events(Seq::<Id>::empty()) =~= g0.pending());
            self.lemma_same_tree_refl();
        }
        let mut i: usize = 0;
        while i < q.len()
            invariant
                g0 == *old(self),
                g0.wf(),
                q@ == g0.removal_queue(),
                i <= q@.len(),
                self.same_tree(&g0),
                self.wf(),
                self.removal_queue() == g0.removal_queue(),
                self.pending() == g0.pending() + removed_events(removal_report(g0, q@.take(i as int))),
            decreases q@.len() - i,
        {
            let m = q[i];
            proof {
                assert(q@.take(i + 1).drop_last() =~= q@.take(i as int));
                assert(q@.take(i + 1).last() == m);
            }
            if self.contains(m) {
                let ghost gi = *self;
                self.push_removed_below(m);
                self.push_event(Event::new(m, EventKind::Removed));
                proof {
                    Gui::lemma_descendants_frame(g0, gi, m);
                    lemma_removed_events_concat(removal_report(g0, q@.take(i as int)), descendants(g0, m).push(m));
                    assert(removed_events(descendants(g0, m).push(m)) =~= removed_events(descendants(g0, m)).push(Event { id: m, kind: EventKind::Removed }));
                    assert(self.pending() =~= g0.pending() + removed_events(removal_report(g0, q@.take(i + 1))));
                    self.lemma_same_tree_wf(&g0);
                }
            } else {
                proof {
                    assert(removal_report(g0, q@.take(i + 1)) =~= removal_report(g0, q@.take(i as int)));
                }
            }
            i += 1;
        }
        proof {
            assert(q@.take(q@.len() as int) =~= q@);
        }
        let ghost ga = *self;
        let mut events: Vec<Event> = Vec::new();
        std::mem::swap(&mut events, &mut self.events);
        proof {
            assert(self.nodes == ga.nodes && self.paths == ga.paths && self.id_cnt == ga.id_cnt);
            assert(self.aliases == ga.aliases && self.to_remove == ga.to_remove);
            assert(self.same_widgets(&ga));
            assert(self.same_widgets(&g0));
            self.lemma_same_tree_wf(&g0);
        }
        events
    }

    /// One frame of the gui (see `update_tree` and `take_events`): takes out the widgets
    /// marked for removal in the previous frame, lets the tree live through `input`, and returns
    /// every event collected, with a `Removed` event for each widget marked in this frame (and
    /// each widget below it), together with what the tree captures.
    ///
    /// Where nothing below a widget captures the mouse, the widget follows the mouse: its hover
    /// and press state, and the hover, unhover, press and release events reported for it, are
    /// those of `pointer_events`; else they stay as they were, and none are reported. Outside the
    /// lists of selects and dropdown buttons, a toggle button flips where the mouse goes down on
    /// it, a radio button switches on where the button is released from it, and a `Change` of
    /// their state is reported exactly then; a select or dropdown button keeps its value where
    /// the mouse goes down on nothing in it, and takes the option whose button the mouse goes
    /// down on where that is the only one and its main button is not pressed; a select reports a
    /// `Change` of its value exactly where its value changed; where the main button of a closed
    /// list is pressed, and no button of its options, the list opens with a new button for each
    /// option (while ids are left); where the main button of an open list is pressed, the list
    /// closes: every other child of the select or dropdown button is marked for removal and its
    /// option map is emptied; a select whose main button is off once it has reacted shows its
    /// value on its option buttons (see `list_closes`). Of every widget outside those lists, the
    /// events collected in the frame that the mouse did not cause are exactly those of
    /// `own_changes`: one `Change`, where it flips or switches on, or where a select's value
    /// changed, and no other. Each widget made in the frame (the buttons of an opened list among
    /// them) is announced by a `New` event. Every event returned is about a widget that exists when it
    /// returns: events collected before the update about widgets it takes out at its start are
    /// dropped.
    pub fn update(&mut self, input: &PointerInput) -> (r: (Vec<Event>, Capture))
        requires
            old(self).wf(),
        ensures
            final(self).wf(),
            final(self).pending() == Seq::<Event>::empty(),
            exists|g1: Gui, g2: Gui| #[trigger] g1.removal_done(old(self)) && #[trigger] g2.grows_within(&g1, ROOT)
                && r.1 == tree_capture(g1, ROOT, *input)
                && (forall|y: Id| #[trigger] g1.live(y) ==> pointer_state_after(g2, g1, y, *input))
                && (forall|y: Id| #[trigger] pointer_events_of(r.0@.subrange(g1.pending().len() as int, r.0@.len() as int), y) == (if g1.live(y) {
                    expected_pointer_events(g1, y, *input)
                } else {
                    Seq::<Event>::empty()
                }))
                && (forall|y: Id| g1.live(y) && #[trigger] no_list_between(g1, ROOT, y) ==> reacts(g2, g1, y, *input))
                && (forall|y: Id| g1.live(y) && #[trigger] no_list_between(g1, ROOT, y) ==> reported(r.0@.subrange(g1.pending().len() as int, r.0@.len() as int), g2, g1, y, *input))
                && (forall|y: Id| g1.live(y) && #[trigger] no_list_between(g1, ROOT, y) ==> list_opens(g2, g1, y, *input))
                && (forall|y: Id| g1.live(y) && #[trigger] no_list_between(g1, ROOT, y) ==> list_closes(g2, g1, y, *input))
                && (forall|y: Id| #[trigger] pointer_events_of(g2.pending_since(g1.pending().len()), y) == (if g1.live(y) {
                    expected_pointer_events(g1, y, *input)
                } else {
                    Seq::<Event>::empty()
                }))
                && (forall|y: Id| g1.live(y) && #[trigger] no_list_between(g1, ROOT, y)
                    ==> other_events_of(g2.pending_since(g1.pending().len()), y) == own_changes(g2, g1, y, *input))
                && (forall|y: Id| #[trigger] g2.live(y) && !g1.live(y) ==> g2.announces(g1.pending().len(), y))
                && r.0@ == g2.pending() + removed_events(removal_report(g2, g2.removal_queue()))
                && final(self).same_tree(&g2)
                && final(self).removal_queue() == g2.removal_queue(),
            forall|k: int| 0 <= k < r.0@.len() ==> final(self).live(#[trigger] r.0@[k].id),
    {
        let ghost g0 = *self;
        let cap = self.update_tree(input);
        let ghost g2 = *self;
        let events = self.take_events();
        proof {
            let g1 = choose|g1: Gui| #[trigger] g1.removal_done(&g0)
                && g2.grows_within(&g1, ROOT)
                && cap == tree_capture(g1, ROOT, *input)
                && (forall|y: Id| #[trigger] g1.live(y) ==> pointer_state_after(g2, g1, y, *input))
                && (forall|y: Id| #[trigger] pointer_events_of(g2.pending_since(g1.pending().len()), y) == (if g1.live(y) {
                    expected_pointer_events(g1, y, *input)
                } else {
                    Seq::<Event>::empty()
                }))
                && (forall|y: Id| g1.live(y) && #[trigger] no_list_between(g1, ROOT, y) ==> reacts(g2, g1, y, *input))
                && (forall|y: Id| g1.live(y) && #[trigger] no_list_between(g1, ROOT, y) ==> reported(g2.pending_since(g1.pending().len()), g2, g1, y, *input))
                && (forall|y: Id| g1.live(y) && #[trigger] no_list_between(g1, ROOT, y) ==> list_opens(g2, g1, y, *input))
                && (forall|y: Id| g1.live(y) && #[trigger] no_list_between(g1, ROOT, y) ==> list_closes(g2, g1, y, *input))
                && forall|y: Id| g1.live(y) && #[trigger] no_list_between(g1, ROOT, y)
                    ==> other_events_of(g2.pending_since(g1.pending().len()), y) == own_changes(g2, g1, y, *input);
            let rem = removed_events(removal_report(g2, g2.removal_queue()));
            assert(events@.subrange(g1.pending().len() as int, events@.len() as int) =~= g2.pending_since(g1.pending().len()) + rem);
            assert forall|y: Id| #[trigger] pointer_events_of(events@.subrange(g1.pending().len() as int, events@.len() as int), y) == (if g1.live(y) {
                expected_pointer_events(g1, y, *input)
            } else {
                Seq::<Event>::empty()
            }) by {
                Seq::filter_distributes_over_add(g2.pending_since(g1.pending().len()), rem, caused_on(y));
                assert forall|k: int| 0 <= k < rem.len() implies !caused_on(y)(#[trigger] rem[k]) by {}
                lemma_filter_none(rem, caused_on(y));
                assert(pointer_events_of(g2.pending_since(g1.pending().len()), y) + Seq::<Event>::empty() =~= pointer_events_of(g2.pending_since(g1.pending().len()), y));
            }
            assert forall|y: Id| g1.live(y) && #[trigger] no_list_between(g1, ROOT, y) implies reported(events@.subrange(g1.pending().len() as int, events@.len() as int), g2, g1, y, *input) by {
                lemma_contains_concat(g2.pending_since(g1.pending().len()), rem, toggled(y));
                lemma_contains_concat(g2.pending_since(g1.pending().len()), rem, radio_switched(y));
                lemma_contains_concat(g2.pending_since(g1.pending().len()), rem, select_changed(y));
                assert(!rem.contains(toggled(y)));
                assert(!rem.contains(radio_switched(y)));
                assert(!rem.contains(select_changed(y)));
            }
            Gui::lemma_removal_report_live(g2, g2.removal_queue());
            assert forall|k: int| 0 <= k < events@.len() implies self.live(#[trigger] events@[k].id) by {
                if k < g1.pending().len() {
                    assert(events@[k] == g2.pending()[k]);
                    assert(g2.pending().take(g1.pending().len() as int)[k] == g2.pending()[k]);
                    assert(g2.pending()[k] == g1.pending()[k]);
                    g0.pending().lemma_filter_pred(about_live(g1), k);
                    assert(g1.live(g1.pending()[k].id));
                    assert(g2.live(g1.pending()[k].id));
                } else if k < g2.pending().len() {
                    assert(events@[k] == g2.pending()[k]);
                    assert(g2.live(g2.pending()[k].id));
                } else {
                    let rep = removal_report(g2, g2.removal_queue());
                    assert(events@[k] == removed_events(rep)[k - g2.pending().len()]);
                    assert(g2.live(rep[k - g2.pending().len()]));
                }
            }
        }
        (events, cap)
    }
}


impl Gui {
    /// The widgets below the widget `id`: its children, then the widgets below each child in
    /// turn (see `descendants`).
    pub fn descendants_of(&self, id: Id) -> (r: Vec<Id>)
        requires
            self.wf(),
            self.live(id),
        ensures
            r@ == descendants(*self, id),
        decreases ID_LIMIT - id,
    {
        let children = self.widget_ref(id).children.clone();
        let mut r = children.clone();
        proof {
            assert(id <= self.last_id());
            assert(descendants_of_all(*self, children@.take(0), id) =~= Seq::<Id>::empty());
            assert(r@ =~= children@ + descendants_of_all(*self, children@.take(0), id));
        }
        let mut j: usize = 0;
        while j < children.len()
            invariant
                self.wf(),
                self.live(id),
                id <= self.last_id(),
                children@ == self.children_of(id),
                j <= children@.len(),
                r@ == children@ + descendants_of_all(*self, children@.take(j as int), id),
            decreases children@.len() - j,
        {
            let c = children[j];
            proof {
                assert(self.children_of(id).contains(c)) by {
                    assert(self.children_of(id)[j as int] == c);
                }
                Gui::lemma_child(*self, id, c);
            }
            let below = self.descendants_of(c);
            let mut k: usize = 0;
            let ghost r0 = r@;
            while k < below.len()
                invariant
                    k <= below@.len(),
                    r@ == r0 + below@.take(k as int),
                decreases below@.len() - k,
            {
                r.push(below[k]);
                proof {
                    assert(r@ =~= r0 + below@.take(k + 1));
                }
                k += 1;
            }
            proof {
                assert(below@.take(below@.len() as int) =~= below@);
                assert(children@.take(j + 1).drop_last() =~= children@.take(j as int));
                assert(children@.take(j + 1).last() == c);
                assert(r@ =~= children@ + descendants_of_all(*self, children@.take(j + 1), id));
            }
            j += 1;
        }
        proof {
            assert(children@.take(children@.len() as int) =~= children@);
        }
        r
    }
}

} // verus!
