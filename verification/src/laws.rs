//! Properties of the gui that relate several of its operations.
use vstd::prelude::*;
use vstd::multiset::Multiset;
use crate::{Id, ROOT};
use crate::event::{Event, EventKind, Capture, FieldId};
use crate::gui::{Gui, AsId, is_pointer_kind, initial_size};
use crate::gui::frame::{tree_capture, expected_pointer_events as expected_events, released_on, pressed_state_after, step_runs, removal_report, descendants, reacts, reported, radio_switched, pointer_events_of, other_events_of,
    expected_pointer_events, own_changes, events_about};
use crate::gui::lists::{toggled, select_changed, marks_only_list};
use crate::pointer::PointerInput;
use crate::lens::{FieldLens, WritableLens, Lens, MainButtonLens};
use crate::widget::{Widget, WidgetKind};

verus! {

/// A field read through a lens after it was set to `v` holds `v`.
pub proof fn law_put_then_get<L: WritableLens>(new: Gui, old: Gui, id: Id, lens: L, v: <L::Target as DeepView>::V)
    requires
        new.field_put(&old, id, lens, v),
    ensures
        lens.spec_read(new.widget(id)) == Some(v),
{
}

/// Setting a field to the value it already holds changes nothing and reports nothing.
pub proof fn law_put_same_value_is_silent<L: WritableLens>(new: Gui, old: Gui, id: Id, lens: L, v: <L::Target as DeepView>::V)
    requires
        new.field_put(&old, id, lens, v),
        lens.spec_read(old.widget(id)) == Some(v),
    ensures
        new.widget(id) == old.widget(id),
        new.pending() == old.pending(),
{
}

/// Setting a field to a new value reports exactly one `Change` of that field of that widget.
pub proof fn law_put_new_value_reports_change<L: WritableLens>(new: Gui, old: Gui, id: Id, lens: L, v: <L::Target as DeepView>::V)
    requires
        new.field_put(&old, id, lens, v),
        lens.spec_read(old.widget(id)) != Some(v),
    ensures
        new.pending() == old.pending().push(Event { id, kind: EventKind::Change { field: FieldId(lens.spec_field()) } }),
{
}

/// Setting a field twice to the same value reports at most one change: the second time is
/// silent.
pub proof fn law_put_twice<L: WritableLens>(g2: Gui, g1: Gui, g0: Gui, id: Id, lens: L, v: <L::Target as DeepView>::V)
    requires
        g1.field_put(&g0, id, lens, v),
        g2.field_put(&g1, id, lens, v),
    ensures
        g2.pending() == g1.pending(),
        g2.widget(id) == g1.widget(id),
{
}

/// An inserted widget exists under the parent it was inserted into, as that parent's last
/// child, with an id that no earlier widget had.
pub proof fn law_inserted_is_found(new: Gui, old: Gui, parent: Id, id: Id, k: WidgetKind)
    requires
        old.wf(),
        new.wf(),
        new.inserted(&old, parent, id, k),
    ensures
        new.live(id),
        new.parent_of(id) == parent,
        new.children_of(parent).last() == id,
        new.in_subtree(parent, id),
        forall|y: Id| old.live(y) ==> y < id,
        !old.live(id),
{
    assert(new.parent_ok(id));
    assert(new.children_of(parent)[new.children_of(parent).len() - 1] == id);
    if parent != ROOT {
        assert(new.path(id)[new.path(parent).len() as int] == parent);
    }
}

/// The queue of removals reports every existing widget of the queue, and every widget below it.
proof fn lemma_report_contains(g: Gui, q: Seq<Id>, j: int, y: Id)
    requires
        0 <= j < q.len(),
        g.live(q[j]),
        y == q[j] || descendants(g, q[j]).contains(y),
    ensures
        removal_report(g, q).contains(y),
    decreases q.len(),
{
    if j == q.len() - 1 {
        let a = removal_report(g, q.drop_last());
        let b = descendants(g, q.last()).push(q.last());
        assert(removal_report(g, q) == a + b);
        if y == q[j] {
            assert((a + b)[a.len() + b.len() - 1] == y);
        } else {
            let k = choose|k: int| 0 <= k < descendants(g, q[j]).len() && descendants(g, q[j])[k] == y;
            assert((a + b)[a.len() + k] == y);
        }
    } else {
        lemma_report_contains(g, q.drop_last(), j, y);
        let a = removal_report(g, q.drop_last());
        let k = choose|k: int| 0 <= k < a.len() && a[k] == y;
        let r = removal_report(g, q);
        assert(r[k] == a[k]);
    }
}

/// Successive insertions hand out successive ids: the first widget of a new gui gets the id
/// after the root, each widget the id after the last one handed out (its initial children
/// included), so ids only grow, no two widgets share one, and none is the root's.
pub proof fn law_successive_ids(g0: Gui, g1: Gui, g2: Gui, p1: Id, p2: Id, id1: Id, id2: Id, k1: WidgetKind, k2: WidgetKind)
    requires
        g0.wf(),
        g1.inserted(&g0, p1, id1, k1),
        g2.inserted(&g1, p2, id2, k2),
    ensures
        id1 == g0.last_id() + 1,
        g0.last_id() == ROOT ==> id1 == ROOT + 1,
        id2 == id1 + initial_size(k1),
        ROOT < id1 < id2,
        !g0.live(id1),
        !g1.live(id2),
        forall|y: Id| g1.live(y) ==> y < id2,
{
    assert forall|y: Id| g0.live(y) implies y <= g0.last_id() by {}
}

/// `try_get` and `try_get_mut` find the same widget, for the same gui and name: both find one
/// exactly where the other does, and then the same one, which carries the id it was found
/// under.
pub proof fn law_try_get_mut_agrees_with_try_get<I: AsId>(g: Gui, id: I, shared: Option<Widget>, lent: Option<Widget>)
    requires
        g.wf(),
        shared is Some <==> (match id.spec_resolve(&g) {
            Some(i) => g.live(i),
            None => false,
        }),
        shared is Some ==> shared.unwrap() == g.widget(id.spec_resolve(&g).unwrap()),
        lent is Some <==> (match id.spec_resolve(&g) {
            Some(i) => g.live(i),
            None => false,
        }),
        lent is Some ==> lent.unwrap() == g.widget(id.spec_resolve(&g).unwrap()),
    ensures
        shared == lent,
        shared is Some ==> shared.unwrap().spec_id() == id.spec_resolve(&g).unwrap(),
{
}

/// A widget lent by `try_get_mut` and handed back unchanged leaves the gui as it was: the same
/// widgets, paths, aliases, events and removals.
pub proof fn law_loan_returned_unchanged(new: Gui, old: Gui, id: Id)
    requires
        old.wf(),
        old.live(id),
        new.widget_replaced(&old, id, old.widget(id)),
    ensures
        new.wf(),
        forall|y: Id| #[trigger] new.live(y) == old.live(y),
        forall|y: Id| old.live(y) ==> #[trigger] new.widget(y) == old.widget(y),
        new.path_map() == old.path_map(),
        new.alias_map() == old.alias_map(),
        new.pending() == old.pending(),
        new.removal_queue() == old.removal_queue(),
{
    new.lemma_widget_replaced_wf(&old, id, old.widget(id));
}

/// A widget marked for removal is reported removed, with every widget below it, by the update
/// in which it was marked (its events are taken while it still exists), and it is gone, with
/// every widget below it, once the next update has begun.
pub proof fn law_marked_widget_is_reported_then_removed(g0: Gui, g1: Gui, g2: Gui, m: Id, y: Id)
    requires
        g0.wf(),
        g0.live(m),
        m != ROOT,
        g0.removal_queue().contains(m),
        g1.same_tree(&g0),
        g1.removal_queue() == g0.removal_queue(),
        g2.removal_done(&g1),
        g0.in_subtree(m, y),
    ensures
        removal_report(g0, g0.removal_queue()).contains(m),
        removal_report(g0, g0.removal_queue()).contains(y),
        !g2.live(m),
        !g2.live(y),
{
    let q = g0.removal_queue();
    let j = choose|j: int| 0 <= j < q.len() && q[j] == m;
    lemma_report_contains(g0, q, j, m);
    if y != m {
        assert(g0.has_path(y));
        Gui::lemma_descendants_complete(g0, m, y);
    }
    lemma_report_contains(g0, q, j, y);
    assert(g1.live(m));
    assert(g1.in_subtree(m, y)) by {
        if y != m {
            assert(g0.has_path(y));
        }
    }
    assert(q[j] != ROOT && g1.live(q[j]) && g1.in_subtree(q[j], y));
    assert(Gui::removes(g1, g1.removal_queue(), y));
    assert(q[j] != ROOT && g1.live(q[j]) && g1.in_subtree(q[j], m));
    assert(Gui::removes(g1, g1.removal_queue(), m));
}

/// Capturing what `a` or `b` captures does not depend on their order, and capturing twice
/// adds nothing.
pub proof fn law_capture_merge(a: Capture, b: Capture, c: Capture)
    ensures
        Capture::spec_or(a, b) == Capture::spec_or(b, a),
        Capture::spec_or(Capture::spec_or(a, b), c) == Capture::spec_or(a, Capture::spec_or(b, c)),
        Capture::spec_or(a, a) == a,
{
}

/// A frame in which the mouse button goes neither down nor up changes the state of no toggle
/// button, radio button, select or dropdown button that lived through it as `update` says, and
/// reports no change of their state.
pub proof fn law_quiet_frame_changes_nothing(new: Gui, old: Gui, events: Seq<Event>, y: Id, input: PointerInput)
    requires
        !input.pressed,
        !input.released,
        reacts(new, old, y, input),
        reported(events, new, old, y, input),
    ensures
        old.kind(y) is ToggleButton ==> new.toggle_state(y) == old.toggle_state(y) && !events.contains(toggled(y)),
        old.kind(y) is RadioButton ==> new.radio_state(y) == old.radio_state(y) && !events.contains(radio_switched(y)),
        old.kind(y) is Select ==> new.kind(y)->Select_0.spec_value() == old.kind(y)->Select_0.spec_value() && !events.contains(select_changed(y)),
        old.kind(y) is DropdownButton ==> new.kind(y)->DropdownButton_0.spec_value() == old.kind(y)->DropdownButton_0.spec_value(),
{
    reveal(reacts);
}

/// The events about `y` are those that the mouse caused on it and the others, as a multiset.
proof fn lemma_events_about_split(s: Seq<Event>, y: Id)
    ensures
        events_about(s, y).to_multiset() == pointer_events_of(s, y).to_multiset().add(other_events_of(s, y).to_multiset()),
    decreases s.len(),
{
    broadcast use vstd::seq_lib::group_to_multiset_ensures;
    reveal_with_fuel(Seq::filter, 1);
    if s.len() == 0 {
        assert(events_about(s, y) =~= Seq::<Event>::empty());
        assert(pointer_events_of(s, y) =~= Seq::<Event>::empty());
        assert(other_events_of(s, y) =~= Seq::<Event>::empty());
        assert(Multiset::<Event>::empty().add(Multiset::<Event>::empty()) =~= Multiset::<Event>::empty());
    } else {
        lemma_events_about_split(s.drop_last(), y);
        let e = s.last();
        let a = events_about(s.drop_last(), y).to_multiset();
        let p = pointer_events_of(s.drop_last(), y).to_multiset();
        let o = other_events_of(s.drop_last(), y).to_multiset();
        if e.id == y && is_pointer_kind(e.kind) {
            assert(a.insert(e) =~= p.insert(e).add(o));
        } else if e.id == y {
            assert(a.insert(e) =~= p.add(o.insert(e)));
        }
    }
}

/// Of a widget outside the lists of selects and dropdown buttons, the events of a frame are, as
/// a multiset, the mouse's events on it and the changes it announces (`update` states both
/// parts of every frame).
pub proof fn law_frame_events_about_widget(frame: Seq<Event>, g2: Gui, g1: Gui, y: Id, input: PointerInput)
    requires
        pointer_events_of(frame, y) == expected_pointer_events(g1, y, input),
        other_events_of(frame, y) == own_changes(g2, g1, y, input),
    ensures
        events_about(frame, y).to_multiset() == (expected_pointer_events(g1, y, input) + own_changes(g2, g1, y, input)).to_multiset(),
{
    lemma_events_about_split(frame, y);
    vstd::seq_lib::lemma_multiset_commutative(expected_pointer_events(g1, y, input), own_changes(g2, g1, y, input));
}

/// In a frame in which the mouse stays inside or outside a widget as it was and its button goes
/// neither down nor up, no event about the widget is collected, where it lies outside the lists
/// of selects and dropdown buttons (`update` states both parts of every frame, and how the
/// widget reacts).
pub proof fn law_quiet_frame_reports_nothing_of_widget(frame: Seq<Event>, g2: Gui, g1: Gui, y: Id, input: PointerInput)
    requires
        !input.pressed,
        !input.released,
        input.spec_inside(y) == g1.widget(y).inside,
        reacts(g2, g1, y, input),
        pointer_events_of(frame, y) == expected_pointer_events(g1, y, input),
        other_events_of(frame, y) == own_changes(g2, g1, y, input),
    ensures
        events_about(frame, y) == Seq::<Event>::empty(),
{
    reveal(reacts);
    crate::pointer::law_quiet_frame_reports_nothing(y, g1.widget(y).inside, g1.widget(y).pressed);
    assert(expected_pointer_events(g1, y, input) == Seq::<Event>::empty());
    assert(own_changes(g2, g1, y, input) == Seq::<Event>::empty());
    law_frame_events_about_widget(frame, g2, g1, y, input);
    assert(expected_pointer_events(g1, y, input) + own_changes(g2, g1, y, input) =~= Seq::<Event>::empty());
    vstd::seq_lib::to_multiset_len(events_about(frame, y));
    vstd::seq_lib::to_multiset_len(Seq::<Event>::empty());
    assert(events_about(frame, y) =~= Seq::<Event>::empty());
}

/// Closing a list marks exactly the children of the select or dropdown button other than its
/// main button: nothing at or below the main button (its text field among them) is marked,
/// and nothing outside the list.
pub proof fn law_closing_marks_only_the_list(old: Gui, queue: Seq<Id>, sid: Id, main: Id, x: Id)
    requires
        old.wf(),
        old.live(sid),
        old.main_ok(sid, main),
        queue == old.removal_queue() + old.children_of(sid).filter(|c: Id| c != main),
    ensures
        old.children_of(sid).contains(x) && x != main ==> queue.contains(x),
        queue.contains(x) ==> old.removal_queue().contains(x) || (old.children_of(sid).contains(x) && x != main),
        old.live(x) && old.in_subtree(main, x) ==> (queue.contains(x) <==> old.removal_queue().contains(x)),
{
    let kept = old.children_of(sid).filter(|c: Id| c != main);
    let q0 = old.removal_queue();
    if old.children_of(sid).contains(x) && x != main {
        let j = choose|j: int| 0 <= j < old.children_of(sid).len() && old.children_of(sid)[j] == x;
        old.children_of(sid).lemma_filter_contains(|c: Id| c != main, j);
        let k = choose|k: int| 0 <= k < kept.len() && kept[k] == x;
        assert(queue[q0.len() + k] == x);
    }
    if queue.contains(x) {
        let k = choose|k: int| 0 <= k < queue.len() && queue[k] == x;
        if k < q0.len() {
            assert(q0[k] == x);
        } else {
            assert(kept[k - q0.len()] == x);
            assert(kept.contains(x));
            old.children_of(sid).lemma_filter_contains_rev(|c: Id| c != main, x);
            broadcast use vstd::seq_lib::group_filter_ensures;
        }
    }
    if old.live(x) && old.in_subtree(main, x) && old.children_of(sid).contains(x) && x != main {
        // a child of `sid` other than `main` does not lie below `main`
        Gui::lemma_child(old, sid, main);
        Gui::lemma_child(old, sid, x);
        assert(old.parent_of(x) == sid);
        assert(old.parent_ok(x));
        assert(old.path(x).contains(main));
        if sid != ROOT {
            assert(old.path(x) == old.path(sid).push(sid));
            let k = choose|k: int| 0 <= k < old.path(x).len() && old.path(x)[k] == main;
            if k < old.path(sid).len() {
                assert(old.path(sid)[k] == main);
                assert(old.has_path(sid));
                assert(old.in_subtree(main, sid));
            }
        } else {
            assert(old.path(x) =~= Seq::<Id>::empty());
        }
    }
    if old.live(x) && old.in_subtree(main, x) {
        if queue.contains(x) && !q0.contains(x) {
            assert(old.children_of(sid).contains(x) && x != main);
        }
        if q0.contains(x) {
            let k = choose|k: int| 0 <= k < q0.len() && q0[k] == x;
            assert(queue[k] == x);
        }
    }
}

/// Selects and dropdown buttons capture the mouse while it is inside them, as buttons and
/// toggle buttons do; the root, containers, text fields, radio groups and radio buttons capture
/// nothing. No widget captures the keyboard.
pub proof fn law_what_widgets_capture(k: WidgetKind)
    ensures
        (k is Button || k is ToggleButton || k is Select || k is DropdownButton) ==> k.spec_captures() == (Capture { mouse: true, keyboard: false }),
        !(k is Button || k is ToggleButton || k is Select || k is DropdownButton) ==> k.spec_captures() == (Capture { mouse: false, keyboard: false }),
{
}

/// While the mouse is inside a select or dropdown button, the tree at that widget captures the
/// mouse, whether or not it is over one of its buttons.
pub proof fn law_list_captures_mouse(g: Gui, y: Id, input: PointerInput)
    requires
        g.kind(y) is Select || g.kind(y) is DropdownButton,
        input.spec_inside(y),
    ensures
        tree_capture(g, y, input).mouse,
{
}

/// A widget that is pressed is released in every frame in which the mouse button goes up and
/// nothing below it captures the mouse, wherever the mouse is: a `Release` is reported for it
/// and it is no longer pressed.
pub proof fn law_pressed_widget_is_released(g: Gui, y: Id, input: PointerInput)
    requires
        g.widget(y).pressed,
        step_runs(g, y, input),
        input.released,
    ensures
        released_on(g, y, input),
        expected_events(g, y, input).contains(Event { id: y, kind: EventKind::Release }),
        !pressed_state_after(g, y, input),
{
    let e = expected_events(g, y, input);
    assert(e[e.len() - 1] == Event { id: y, kind: EventKind::Release });
}

/// `Select::main_button` reaches, from a select, exactly the child that is its main button, and
/// from anything else nothing.
pub proof fn law_main_button_lens_reaches_the_main_button(g: Gui, from: Id)
    ensures
        MainButtonLens.spec_apply(g, from) matches Some(t) ==> g.kind(from) is Select
            && t == g.kind(from)->Select_0.main_button_id && g.children_of(from).contains(t),
        g.kind(from) is Select && g.children_of(from).contains(g.kind(from)->Select_0.main_button_id)
            ==> MainButtonLens.spec_apply(g, from) == Some(g.kind(from)->Select_0.main_button_id),
        !(g.kind(from) is Select) ==> MainButtonLens.spec_apply(g, from) is None,
{
}

/// Every way of naming a widget by an alias (an owned `String`, a `&String`, a `&str`) names
/// the same widget: the one the alias stands for.
pub proof fn law_aliases_name_alike(g: Gui, s: String, t: &str)
    requires
        s@ == t@,
    ensures
        s.spec_resolve(&g) == g.alias_of(s@),
        (&s).spec_resolve(&g) == g.alias_of(s@),
        t.spec_resolve(&g) == g.alias_of(s@),
{
}

/// An alias given to a widget names it, however the alias is written.
pub proof fn law_given_alias_names_the_widget(new: Gui, old: Gui, name: String, t: &str, id: Id)
    requires
        new.alias_map() == old.alias_map().insert(name@, id),
        t@ == name@,
    ensures
        name.spec_resolve(&new) == Some(id),
        (&name).spec_resolve(&new) == Some(id),
        t.spec_resolve(&new) == Some(id),
{
}

/// A select or dropdown button marks for removal, in an update, nothing at or below its main
/// button (`select_update`, `dropdown_update` and `widget_update` state `marks_only_list`): the
/// main button keeps its text field, and so its label.
pub proof fn law_list_keeps_its_main_button(old: Gui, new: Gui, sid: Id, main: Id, x: Id)
    requires
        new.wf(),
        new.live(sid),
        old.removal_queue().len() <= new.removal_queue().len(),
        new.removal_queue().take(old.removal_queue().len() as int) == old.removal_queue(),
        marks_only_list(new, old.removal_queue().len(), sid, main),
        new.children_of(sid).contains(main),
        new.live(x),
        new.in_subtree(main, x),
    ensures
        new.removal_queue().contains(x) ==> old.removal_queue().contains(x),
{
    if new.removal_queue().contains(x) {
        let k = choose|k: int| 0 <= k < new.removal_queue().len() && new.removal_queue()[k] == x;
        if k < old.removal_queue().len() {
            assert(new.removal_queue().take(old.removal_queue().len() as int)[k] == x);
        } else {
            assert(new.children_of(sid).contains(x) && x != main);
            Gui::lemma_sibling_disjoint(new, sid, x, main, x);
        }
    }
}

} // verus!
