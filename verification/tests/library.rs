use gui::event::{event_exists, Capture, Event, EventKind, Field, FieldId, WidgetEvent};
use gui::gui::Gui;
use gui::lens::{DropdownValueLens, LeafLens, LensDriver, TextFieldTextLens};
use gui::placement::Axis;
use gui::pointer::PointerInput;
use gui::widget::{
    Button, Container, DropdownButton, Radio, RadioButton, Select, TextField, ToggleButton, Widget,
    WidgetKind,
};
use gui::{Id, ROOT};

fn pointer(inside: &[Id], pressed: bool, released: bool) -> PointerInput {
    let mut v = vec![false; 512];
    for id in inside {
        v[*id] = true;
    }
    PointerInput { inside: v, pressed, released }
}

fn idle() -> PointerInput {
    pointer(&[], false, false)
}

/// The ids of `id` and of every widget below it.
fn subtree(gui: &Gui, id: Id) -> Vec<Id> {
    let mut out = vec![id];
    let mut i = 0;
    while i < out.len() {
        let w = gui.get(out[i]);
        out.extend(w.children.iter().cloned());
        i += 1;
    }
    out
}

fn text_of(gui: &Gui, id: Id) -> String {
    match &gui.get(id).inner {
        WidgetKind::TextField(t) => t.text.clone(),
        _ => panic!("not a text field"),
    }
}

fn select_value(gui: &Gui, id: Id) -> Option<String> {
    match &gui.get(id).inner {
        WidgetKind::Select(s) => s.value.clone(),
        _ => panic!("not a select"),
    }
}

#[test]
fn new_gui_holds_only_the_root() {
    let gui = Gui::new();
    assert!(gui.contains(ROOT));
    assert!(!gui.contains(0));
    assert!(!gui.contains(2));
    assert!(gui.root().children.is_empty());
    assert!(gui.events().is_empty());
}

#[test]
fn insert_gives_fresh_ids_with_initial_children() {
    let mut gui = Gui::new();
    let b = gui.insert_in_root(Button::new());
    assert_eq!(b, 2);
    assert_eq!(gui.get(b).children, vec![3]);
    assert_eq!(text_of(&gui, 3), "");
    let s = gui.insert_in_root(Select::new());
    assert_eq!(s, 4);
    assert_eq!(gui.get(s).children, vec![5]);
    assert!(matches!(gui.get(5).inner, WidgetKind::ToggleButton(_)));
    assert_eq!(gui.get(5).children, vec![6]);
    match &gui.get(s).inner {
        WidgetKind::Select(sel) => assert_eq!(sel.main_button_id(), 5),
        _ => panic!(),
    }
    let c = gui.insert(b, Container::new()).unwrap();
    assert_eq!(c, 7);
    assert_eq!(gui.get(b).children, vec![3, 7]);
    assert_eq!(
        gui.events().to_vec(),
        vec![
            Event::new(2, EventKind::New),
            Event::new(3, EventKind::New),
            Event::new(4, EventKind::New),
            Event::new(5, EventKind::New),
            Event::new(6, EventKind::New),
            Event::new(7, EventKind::New),
        ]
    );
}

#[test]
fn insert_under_missing_parent_gives_none() {
    let mut gui = Gui::new();
    assert_eq!(gui.insert(42usize, Container::new()), None);
    assert_eq!(gui.insert("nobody", Container::new()), None);
    assert!(gui.events().is_empty());
}

#[test]
fn parents_and_lookup() {
    let mut gui = Gui::new();
    let c = gui.insert_in_root(Container::new());
    let b = gui.insert(c, Button::new()).unwrap();
    let t = b + 1;
    assert_eq!(gui.try_parent(c), Some(ROOT));
    assert_eq!(gui.parent(c), ROOT);
    assert_eq!(gui.try_parent(ROOT), None);
    assert_eq!(gui.try_parent(b), Some(c));
    assert_eq!(gui.parent(t), b);
    assert!(gui.try_get(99usize).is_none());
    assert!(gui.is_in_subtree(c, t));
    assert!(gui.is_in_subtree(ROOT, t));
    assert!(!gui.is_in_subtree(b, c));
}

#[test]
fn aliases_name_widgets() {
    let mut gui = Gui::new();
    gui.insert_in_root_with_alias(ToggleButton::new(), "toggle".to_string());
    assert_eq!(gui.lookup_alias("toggle"), Some(2));
    assert_eq!(gui.lookup_alias("other"), None);
    assert!(gui.id_eq("toggle", 2usize));
    assert!(!gui.id_eq("toggle", "other"));
    assert!(matches!(gui.get("toggle").inner, WidgetKind::ToggleButton(_)));
    assert!(gui.try_get("other").is_none());
}

#[test]
fn lens_put_then_get_and_change_events() {
    let mut gui = Gui::new();
    let b = gui.insert_in_root(Button::new());
    gui.update(&idle());
    gui.access(b).chain(Button::text_field).chain(TextField::text).put("hi".to_string());
    assert_eq!(*gui.access(b).chain(Widget::first_child).chain(TextField::text).get(), "hi");
    assert_eq!(gui.events().to_vec(), vec![Event::change(b + 1, TextField::text)]);
    // the same value again reports nothing
    gui.access(b).chain(Button::text_field).chain(TextField::text).put("hi".to_string());
    assert_eq!(gui.events().len(), 1);
}

#[test]
fn toggle_flips_on_each_press() {
    let mut gui = Gui::new();
    let t = gui.insert_in_root(ToggleButton::new());
    gui.update(&idle());
    let (events, cap) = gui.update(&pointer(&[t], true, false));
    assert!(cap.mouse);
    assert!(events.contains(&Event::change(t, ToggleButton::state)));
    assert_eq!(*gui.access(t).chain(ToggleButton::state).get(), true);
    gui.update(&pointer(&[t], false, true));
    gui.update(&pointer(&[t], true, false));
    assert_eq!(*gui.access(t).chain(ToggleButton::state).get(), false);
}

#[test]
fn radio_button_switches_on_at_release_and_stays_on() {
    let mut gui = Gui::new();
    let r = gui.insert_in_root(RadioButton::new("r".to_string()));
    gui.update(&idle());
    let (events, _) = gui.update(&pointer(&[r], true, false));
    assert!(!events.contains(&Event::change(r, RadioButton::state)));
    let (events, _) = gui.update(&pointer(&[r], false, true));
    assert!(events.contains(&Event::change(r, RadioButton::state)));
    assert!(*gui.access(r).chain(RadioButton::state).get());
    gui.update(&pointer(&[r], true, false));
    let (events, _) = gui.update(&pointer(&[r], false, true));
    assert!(!events.contains(&Event::change(r, RadioButton::state)));
    assert!(*gui.access(r).chain(RadioButton::state).get());
}

#[test]
fn select_opens_and_takes_the_pressed_option() {
    let mut gui = Gui::new();
    let s = gui.insert_in_root(
        Select::new()
            .with_option("One".to_string(), "one".to_string())
            .with_option("Two".to_string(), "two".to_string()),
    );
    gui.update(&idle());
    let main = s + 1;
    let main_text = s + 2;
    // press the main button: the list opens
    let (events, _) = gui.update(&pointer(&[s, main, main_text], true, false));
    assert!(events.contains(&Event::change(main, ToggleButton::state)));
    let container = main_text + 1;
    assert_eq!(gui.get(s).children, vec![main, container]);
    // three options: "-", "One", "Two", each a toggle button with a text field
    let options = gui.get(container).children.clone();
    assert_eq!(options, vec![container + 1, container + 3, container + 5]);
    assert_eq!(text_of(&gui, container + 2), "-");
    assert_eq!(text_of(&gui, container + 4), "One");
    assert_eq!(text_of(&gui, container + 6), "Two");
    // the option "-" holds the current value (none), so its button is on
    assert_eq!(*gui.access(container + 1).chain(ToggleButton::state).get(), true);
    assert_eq!(*gui.access(container + 3).chain(ToggleButton::state).get(), false);
    gui.update(&pointer(&[], false, true));
    // press the option "Two"
    let two = container + 5;
    let (events, _) = gui.update(&pointer(&[two, two + 1], true, false));
    assert_eq!(select_value(&gui, s), Some("two".to_string()));
    assert!(events.contains(&Event::change(s, Select::value)));
    assert!(events.contains(&Event::change(main_text, TextField::text)));
    assert_eq!(text_of(&gui, main_text), "Two");
    assert_eq!(*gui.access(main).chain(ToggleButton::state).get(), false);
    // the list is reported removed, and is gone after the next update
    assert!(events.contains(&Event::new(container, EventKind::Removed)));
    assert!(events.contains(&Event::new(two, EventKind::Removed)));
    gui.update(&idle());
    assert!(!gui.contains(container));
    assert!(!gui.contains(two));
    assert_eq!(gui.get(s).children, vec![main]);
}

#[test]
fn select_reselecting_the_same_value_reports_no_value_change() {
    let mut gui = Gui::new();
    let s = gui.insert_in_root(Select::new().with_option("One".to_string(), "one".to_string()));
    gui.update(&idle());
    let main = s + 1;
    gui.update(&pointer(&[s, main], true, false));
    let container = s + 3;
    let dash = container + 1;
    let (events, _) = gui.update(&pointer(&[dash], true, false));
    assert_eq!(select_value(&gui, s), None);
    assert!(!events.contains(&Event::change(s, Select::value)));
}

#[test]
fn select_closes_when_main_button_is_pressed_again() {
    let mut gui = Gui::new();
    let s = gui.insert_in_root(Select::new().with_option("One".to_string(), "one".to_string()));
    gui.update(&idle());
    let main = s + 1;
    gui.update(&pointer(&[main], true, false));
    gui.update(&pointer(&[main], false, true));
    let container = s + 3;
    assert!(gui.contains(container));
    let (events, _) = gui.update(&pointer(&[main], true, false));
    assert!(events.contains(&Event::new(container, EventKind::Removed)));
    gui.update(&pointer(&[main], false, true));
    assert!(!gui.contains(container));
    assert_eq!(select_value(&gui, s), None);
}

#[test]
fn dropdown_button_takes_the_pressed_option() {
    let mut gui = Gui::new();
    let d = gui.insert_in_root(
        DropdownButton::new().option("A".to_string(), "a".to_string()).option("B".to_string(), "b".to_string()),
    );
    gui.update(&idle());
    let main = d + 1;
    gui.update(&pointer(&[main], true, false));
    let a = d + 3;
    let b = d + 5;
    assert_eq!(gui.get(d).children, vec![main, a, b]);
    assert_eq!(text_of(&gui, a + 1), "A");
    gui.update(&pointer(&[main], false, true));
    let (events, _) = gui.update(&pointer(&[b], true, false));
    match &gui.get(d).inner {
        WidgetKind::DropdownButton(dd) => assert_eq!(dd.value, Some("b".to_string())),
        _ => panic!(),
    }
    assert_eq!(text_of(&gui, main + 1), "B");
    assert!(events.contains(&Event::new(a, EventKind::Removed)));
    gui.update(&idle());
    assert_eq!(gui.get(d).children, vec![main]);
}

#[test]
fn removal_marked_between_frames_happens_at_the_next_update() {
    let mut gui = Gui::new();
    let c = gui.insert_in_root(Container::new());
    let b = gui.insert(c, Button::new()).unwrap();
    gui.update(&idle());
    gui.remove(c);
    assert!(gui.contains(c));
    let (events, _) = gui.update(&idle());
    assert!(events.is_empty());
    assert!(!gui.contains(c) && !gui.contains(b) && !gui.contains(b + 1));
    assert!(gui.root().children.is_empty());
    assert!(gui.try_get(b).is_none());
}

#[test]
fn removal_marked_during_a_frame_is_reported_then_done() {
    let mut gui = Gui::new();
    let c = gui.insert_in_root(Container::new());
    let b = gui.insert(c, Button::new()).unwrap();
    gui.update(&idle());
    gui.update_tree(&idle());
    gui.remove(c);
    let events = gui.take_events();
    // the widgets below first (children, then what lies below each), then the widget itself
    assert_eq!(
        events,
        vec![
            Event::new(b, EventKind::Removed),
            Event::new(b + 1, EventKind::Removed),
            Event::new(c, EventKind::Removed),
        ]
    );
    assert!(gui.contains(c) && gui.contains(b));
    let (events, _) = gui.update(&idle());
    assert!(events.is_empty());
    assert!(!gui.contains(c) && !gui.contains(b) && !gui.contains(b + 1));
}

#[test]
fn captured_mouse_hides_widgets_behind() {
    let mut gui = Gui::new();
    let c = gui.insert_in_root(Container::new());
    let b = gui.insert(c, Button::new()).unwrap();
    gui.update(&idle());
    let (events, cap) = gui.update(&pointer(&[c, b], false, false));
    assert!(cap.mouse);
    assert!(events.contains(&Event::new(b, EventKind::Hover)));
    assert!(!events.contains(&Event::new(c, EventKind::Hover)));
    let (_, cap) = gui.update(&pointer(&[c], false, false));
    assert!(!cap.mouse);
}

#[test]
fn pushed_events_are_handed_out_once() {
    let mut gui = Gui::new();
    gui.update(&idle());
    gui.push_event(Event::new(ROOT, EventKind::Hover));
    assert_eq!(gui.events().len(), 1);
    let (events, _) = gui.update(&idle());
    assert_eq!(events, vec![Event::new(ROOT, EventKind::Hover)]);
    let (events, _) = gui.update(&idle());
    assert!(events.is_empty());
}

#[test]
fn field_ids_and_event_kinds() {
    let f = FieldId::of(ToggleButton::state);
    assert_eq!(f, FieldId(Field::ToggleButtonState));
    assert!(f.is(ToggleButton::state));
    assert!(!f.is(TextField::text));
    assert!(FieldId::of(Widget::pos).is_pos());
    assert!(FieldId::of(Widget::size).is_size());
    assert!(!f.is_pos() && !f.is_size());
    let k = EventKind::change(TextFieldTextLens);
    assert_eq!(k, EventKind::Change { field: FieldId(Field::TextFieldText) });
    assert!(k.is_change(TextField::text));
    assert!(!k.is_change(ToggleButton::state));
    assert!(!EventKind::Press.is_change(TextField::text));
    assert_eq!(Event::change(7, Select::value), Event { id: 7, kind: EventKind::Change { field: FieldId(Field::SelectValue) } });
}

#[test]
fn axis_other() {
    assert_eq!(Axis::X.other(), Axis::Y);
    assert_eq!(Axis::Y.other(), Axis::X);
    assert_eq!(Axis::X.other().other(), Axis::X);
}

#[test]
fn capture_merges() {
    let mut c = Capture::none();
    assert!(!c.mouse && !c.keyboard);
    c |= Capture { mouse: true, keyboard: false };
    c |= Capture { mouse: false, keyboard: false };
    assert_eq!(c, Capture { mouse: true, keyboard: false });
    assert_eq!(WidgetKind::Button(Button::new()).captures(), Capture { mouse: true, keyboard: false });
    assert_eq!(WidgetKind::Container(Container::new()).captures(), Capture::none());
}

#[test]
fn old_style_widget_events() {
    let mut t = ToggleButton::new();
    assert!(!t.handle_event(WidgetEvent::Press));
    assert!(t.handle_event(WidgetEvent::Release));
    assert!(t.state);
    let mut r = RadioButton::new("x".to_string());
    assert!(r.handle_event(WidgetEvent::Release));
    assert!(!r.handle_event(WidgetEvent::Release));
    assert!(r.state);
    assert_eq!(Radio::new("g".to_string()).text, "g");
    let events = vec![("B1".to_string(), WidgetEvent::Hover), ("B1".to_string(), WidgetEvent::Press)];
    assert!(event_exists(&events, WidgetEvent::Press));
    assert!(!event_exists(&events, WidgetEvent::Release));
}

#[test]
fn select_builders() {
    let s = Select::new().with_option("A".to_string(), "a".to_string());
    assert_eq!(s.options.len(), 2);
    assert_eq!(s.options[0].name, "-");
    assert_eq!(s.options[1].value, Some("a".to_string()));
    assert_eq!(s.value, None);
    let d = DropdownButton::new().option("A".to_string(), "a".to_string());
    assert_eq!(d.options.len(), 1);
    assert_eq!(TextField::new("t".to_string()).text, "t");
}

#[test]
fn select_widget_for_option_and_main_button_lens() {
    let mut gui = Gui::new();
    let s = gui.insert_in_root(Select::new().with_option("One".to_string(), "one".to_string()));
    gui.update(&idle());
    let main = *gui.access(s).chain(Select::main_button).chain(Widget::id).get();
    assert_eq!(main, s + 1);
    match &gui.get(s).inner {
        WidgetKind::Select(sel) => assert_eq!(sel.get_widget_for_option("one"), None),
        _ => panic!(),
    }
    gui.update(&pointer(&[main], true, false));
    let container = s + 3;
    match &gui.get(s).inner {
        // the value is none, held by the option "-", whose button comes first
        WidgetKind::Select(sel) => assert_eq!(sel.get_widget_for_option("ignored"), Some(container + 1)),
        _ => panic!(),
    }
}

#[test]
fn widget_accessors_and_descendants() {
    let mut gui = Gui::new();
    let c = gui.insert_in_root(Container::new());
    let b = gui.insert(c, Button::new()).unwrap();
    let t = gui.insert(c, ToggleButton::new()).unwrap();
    assert_eq!(gui.get(c).get_id(), c);
    assert_eq!(gui.get(c).children().clone(), vec![b, t]);
    assert!(!gui.get(b).hover() && !gui.get(b).pressed());
    // children first, then what lies below each child in turn
    assert_eq!(gui.descendants_of(c), vec![b, t, b + 1, t + 1]);
    assert_eq!(gui.descendants_of(gui::ROOT), vec![c, b, t, b + 1, t + 1]);
    assert_eq!(*gui.access(c).chain(Widget::child(t)).chain(ToggleButton::state).get(), false);
    gui.update(&pointer(&[b, b + 1], true, false));
    assert!(gui.get(b).hover() && gui.get(b).pressed());
    assert!(gui.widget_ref(b).pressed());
}

#[test]
fn set_field_reports_whether_the_value_changed() {
    let mut gui = Gui::new();
    let t = gui.insert_in_root(TextField::new("a".to_string()));
    gui.update(&idle());
    assert!(gui.set_field(t, &TextField::text, "b".to_string()));
    assert!(!gui.set_field(t, &TextField::text, "b".to_string()));
    assert_eq!(text_of(&gui, t), "b");
    assert_eq!(gui.events().to_vec(), vec![Event::change(t, TextField::text)]);
}

#[test]
fn events_of_an_update_are_about_existing_widgets() {
    let mut gui = Gui::new();
    let s = gui.insert_in_root(Select::new().with_option("One".to_string(), "one".to_string()));
    gui.update(&idle());
    let (events, _) = gui.update(&pointer(&[s + 1], true, false));
    assert!(!events.is_empty());
    for e in events.iter() {
        assert!(gui.contains(e.id), "{:?}", e);
    }
}

#[test]
fn lens_targets_and_default_capture() {
    assert_eq!(TextField::text.target(), "TextField::text");
    assert_eq!(ToggleButton::state.target(), "ToggleButton::state");
    assert_eq!(Widget::pos.target(), "Widget::pos");
    assert_eq!(Widget::size.target(), "Widget::size");
    assert_eq!(Widget::id.target(), "Widget::id");
    assert_eq!(Select::value.target(), "Select::value");
    assert_eq!(RadioButton::state.target(), "RadioButton::state");
    assert_eq!(Capture::default(), Capture::none());
}

#[test]
fn pairs_are_indexed_by_axis() {
    let mut p = (1, 2);
    assert_eq!(p[Axis::X], 1);
    assert_eq!(p[Axis::Y], 2);
    p[Axis::X] = 5;
    assert_eq!(p, (5, 2));
    p[Axis::Y.other()] = 7;
    assert_eq!(p, (7, 2));
}

#[test]
fn lens_scenarios() {
    // a button inserted below a container, whose text is set through the container
    let mut gui = Gui::new();
    let parent_id = gui.insert_in_root(Container::new());
    let id = gui.insert(parent_id, Button::new()).unwrap();
    gui.access(parent_id)
        .chain(Widget::child(id))
        .chain(Widget::first_child)
        .chain(TextField::text)
        .put("Click me!".to_string());
    assert_eq!(text_of(&gui, id + 1), "Click me!");
    assert!(gui.events().contains(&Event::change(id + 1, TextField::text)));

    // the same through an alias
    let mut gui = Gui::new();
    gui.insert_in_root_with_alias(Button::new(), "my-button-id".to_string());
    gui.access("my-button-id").chain(Widget::first_child).chain(TextField::text).put("Click me!".to_string());
    assert_eq!("Click me!", gui.access("my-button-id").chain(Widget::first_child).chain(TextField::text).get());
}

#[test]
fn quiet_frame_changes_nothing() {
    let mut gui = Gui::new();
    let t = gui.insert_in_root(ToggleButton::new());
    let r = gui.insert_in_root(RadioButton::new("r".to_string()));
    gui.update(&idle());
    gui.update(&pointer(&[t], true, false));
    gui.update(&pointer(&[t], false, true));
    // the mouse moves over both, its button stays as it is
    let (events, _) = gui.update(&pointer(&[t, r], false, false));
    assert_eq!(*gui.access(t).chain(ToggleButton::state).get(), true);
    assert_eq!(*gui.access(r).chain(RadioButton::state).get(), false);
    assert!(!events.contains(&Event::change(t, ToggleButton::state)));
    assert!(!events.contains(&Event::change(r, RadioButton::state)));
    assert!(events.contains(&Event::new(r, EventKind::Hover)));
}

#[test]
fn events_about_widgets_taken_out_are_dropped() {
    let mut gui = Gui::new();
    let c = gui.insert_in_root(Container::new());
    let d = gui.insert_in_root(Container::new());
    gui.update(&idle());
    gui.remove(c);
    gui.update(&idle());
    // marked between frames, it is taken out at the start of the next update
    assert!(!gui.contains(c));
    gui.push_event(Event::new(c, EventKind::Hover));
    gui.push_event(Event::new(d, EventKind::Hover));
    let (events, _) = gui.update(&idle());
    assert!(!gui.contains(c));
    assert_eq!(events, vec![Event::new(d, EventKind::Hover)]);
}

#[test]
fn dropdown_value_lens_reads_and_sets_the_shown_text() {
    let mut gui = Gui::new();
    let b = gui.insert_in_root(Button::new());
    gui.update(&idle());
    assert_eq!(*DropdownValueLens.get(&gui, b), "");
    assert!(DropdownValueLens.put(&mut gui, b, "shown".to_string()));
    assert_eq!(*DropdownValueLens.get(&gui, b), "shown");
    assert_eq!(text_of(&gui, b + 1), "shown");
    assert_eq!(gui.events().to_vec(), vec![Event::change(b + 1, TextField::text)]);
    // the same text again changes nothing and reports nothing
    assert!(!DropdownValueLens.put(&mut gui, b, "shown".to_string()));
    assert_eq!(gui.events().len(), 1);
}

#[test]
fn get_mut_changes_the_widget_in_place() {
    let mut gui = Gui::new();
    let t = gui.insert_in_root(ToggleButton::new());
    assert!(gui.try_get_mut(99).is_none());
    {
        let w = gui.get_mut(t);
        if let WidgetKind::ToggleButton(tb) = &mut w.inner {
            tb.state = true;
        }
    }
    assert_eq!(*gui.access(t).chain(ToggleButton::state).get(), true);
    let w = gui.try_get_mut(t).unwrap();
    assert_eq!(w.id, t);
    w.pressed = true;
    assert!(gui.get(t).pressed);
}

#[test]
fn a_chain_reaches_the_same_widget_after_a_put() {
    let mut gui = Gui::new();
    let b = gui.insert_in_root(Button::new());
    let mut chain = gui.access(b).chain(Widget::first_child).chain(TextField::text);
    chain.put("one".to_string());
    assert_eq!(*chain.get(), "one");
    chain.put("two".to_string());
    assert_eq!(*chain.get(), "two");
    assert_eq!(text_of(&gui, b + 1), "two");
}

#[test]
fn select_shows_its_value_on_the_option_buttons_while_its_main_button_is_off() {
    let mut gui = Gui::new();
    let s = gui.insert_in_root(
        Select::new()
            .with_option("One".to_string(), "one".to_string())
            .with_option("Two".to_string(), "two".to_string()),
    );
    gui.update(&idle());
    let main = s + 1;
    let main_text = s + 2;
    gui.update(&pointer(&[s, main, main_text], true, false));
    gui.update(&pointer(&[], false, true));
    let container = main_text + 1;
    let one = container + 3;
    gui.access(one).chain(ToggleButton::state).put(true);
    gui.access(main).chain(ToggleButton::state).put(false);
    gui.update(&idle());
    // the list is still there, and its buttons show the value (none): only "-" is on
    assert_eq!(gui.get(s).children, vec![main, container]);
    assert_eq!(*gui.access(container + 1).chain(ToggleButton::state).get(), true);
    assert_eq!(*gui.access(one).chain(ToggleButton::state).get(), false);
    assert_eq!(*gui.access(container + 5).chain(ToggleButton::state).get(), false);
}

#[test]
fn a_quiet_frame_reports_nothing_of_a_toggle_button() {
    let mut gui = Gui::new();
    let t = gui.insert_in_root(ToggleButton::new());
    gui.update(&idle());
    let (events, _) = gui.update(&pointer(&[t, t + 1], false, false));
    assert_eq!(events.iter().filter(|e| e.id == t).count(), 1);
    let (events, _) = gui.update(&pointer(&[t, t + 1], false, false));
    assert!(events.iter().all(|e| e.id != t));
}

#[test]
fn a_select_reports_one_change_of_its_value_when_an_option_is_pressed() {
    let mut gui = Gui::new();
    let s = gui.insert_in_root(
        Select::new()
            .with_option("One".to_string(), "one".to_string())
            .with_option("Two".to_string(), "two".to_string()),
    );
    gui.update(&idle());
    let main = s + 1;
    let main_text = s + 2;
    gui.update(&pointer(&[s, main, main_text], true, false));
    gui.update(&pointer(&[], false, true));
    let two = main_text + 1 + 5;
    let (events, _) = gui.update(&pointer(&[two, two + 1], true, false));
    let about_select: Vec<Event> = events.iter().filter(|e| e.id == s).cloned().collect();
    assert_eq!(about_select, vec![Event::change(s, Select::value)]);
}

#[test]
fn select_open_and_close_entry_points() {
    let mut gui = Gui::new();
    let s = gui.insert_in_root(
        Select::new()
            .with_option("One".to_string(), "one".to_string())
            .with_option("Two".to_string(), "two".to_string()),
    );
    let main = s + 1;
    Select::open(&mut gui, s);
    let container = s + 3;
    assert_eq!(gui.get(s).children, vec![main, container]);
    assert_eq!(gui.get(container).children, vec![container + 1, container + 3, container + 5]);
    assert_eq!(text_of(&gui, container + 4), "One");
    assert_eq!(*gui.access(container + 1).chain(ToggleButton::state).get(), true);
    Select::close(&mut gui, s);
    gui.update(&idle());
    assert_eq!(gui.get(s).children, vec![main]);
    assert!(!gui.contains(container));
}

#[test]
fn dropdown_close_entry_point() {
    let mut gui = Gui::new();
    let d = gui.insert_in_root(
        DropdownButton::new().option("A".to_string(), "a".to_string()),
    );
    gui.update(&idle());
    let main = d + 1;
    gui.update(&pointer(&[main], true, false));
    assert_eq!(gui.get(d).children.len(), 2);
    DropdownButton::close(&mut gui, d);
    gui.update(&idle());
    assert_eq!(gui.get(d).children, vec![main]);
}

#[test]
fn successive_insertions_hand_out_successive_ids() {
    let mut gui = Gui::new();
    let c = gui.insert_in_root(Container::new());
    let b = gui.insert_in_root(Button::new());
    let s = gui.insert_in_root(Select::new());
    let t = gui.insert_in_root(TextField::new("x".to_string()));
    assert_eq!((c, b, s, t), (ROOT + 1, ROOT + 2, ROOT + 4, ROOT + 7));
    let lent = gui.try_get_mut(b).map(|w| w.id);
    assert_eq!(lent, gui.try_get(b).map(|w| w.id));
    assert!(gui.try_get_mut(ROOT + 100).is_none() && gui.try_get(ROOT + 100).is_none());
}
