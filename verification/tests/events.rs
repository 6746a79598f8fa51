use gui::event::{Capture, Event, EventKind};
use gui::gui::Gui;
use gui::lens::LensDriver;
use gui::pointer::PointerInput;
use gui::widget::{Button, Select, TextField, ToggleButton, Widget, WidgetKind};
use gui::Id;

/// Mouse input for one frame: inside the widgets `inside`, with the left button going down
/// (`pressed`) and/or up (`released`).
fn pointer(inside: &[Id], pressed: bool, released: bool) -> PointerInput {
    let mut v = vec![false; 512];
    for id in inside {
        v[*id] = true;
    }
    PointerInput { inside: v, pressed, released }
}

/// A frame in which the mouse is nowhere and the button is left alone.
fn idle() -> PointerInput {
    pointer(&[], false, false)
}

/// Five buttons and five toggle buttons in the root, named "Button i" and "ToggleButton i",
/// each showing "text".
fn fixture() -> Gui {
    let mut gui = Gui::new();
    for i in 0..10 {
        let alias = if i < 5 {
            let alias = format!("Button {}", i);
            gui.insert_in_root_with_alias(Button::new(), alias.clone());
            alias
        } else {
            let alias = format!("ToggleButton {}", i - 5);
            gui.insert_in_root_with_alias(ToggleButton::new(), alias.clone());
            alias
        };
        gui.access(alias.as_str())
            .chain(Widget::first_child)
            .chain(TextField::text)
            .put("text".to_string());
    }
    gui
}

/// The widget `alias` and the widgets below it.
fn widget_and_text(gui: &Gui, alias: &str) -> Vec<Id> {
    let id = gui.lookup_alias(alias).unwrap();
    let mut ids = vec![id];
    ids.extend(gui.get(id).children.iter().cloned());
    ids
}

/// Presses and releases the mouse on the widget `alias`; the events and capture of both frames.
fn click_widget(gui: &mut Gui, alias: &str) -> ((Vec<Event>, Capture), (Vec<Event>, Capture)) {
    let ids = widget_and_text(gui, alias);
    let press = gui.update(&pointer(&ids, true, false));
    let release = gui.update(&pointer(&ids, false, true));
    (press, release)
}

/// Each expected kind is the kind of some event, each event serving once.
fn assert_events(events: &[Event], expected: &[EventKind]) {
    let mut events = events.to_vec();
    for kind in expected {
        match events.iter().position(|e| e.kind == *kind) {
            Some(i) => {
                events.remove(i);
            }
            None => panic!("event {:?} not in {:?}", kind, events),
        }
    }
}

fn toggle_state(gui: &Gui, alias: &str) -> bool {
    match &gui.get(alias).inner {
        WidgetKind::ToggleButton(t) => t.state,
        _ => panic!("not a toggle button"),
    }
}

#[test]
fn test_toggle_button_state() {
    let mut gui = fixture();
    gui.update(&idle());
    let (_, (events, _)) = click_widget(&mut gui, "ToggleButton 0");
    assert_events(&events, &[EventKind::Release]);
    assert_eq!(toggle_state(&gui, "ToggleButton 0"), true);
}

#[test]
fn button_test_toggle_button_state() {
    let mut gui = fixture();
    gui.update(&idle());
    let (_, (events, _)) = click_widget(&mut gui, "ToggleButton 0");
    assert_events(&events, &[EventKind::Release]);
    assert!(toggle_state(&gui, "ToggleButton 0"));
}

#[test]
fn fixture_frames_after_the_first_report_nothing() {
    let mut gui = fixture();
    let (initial, _) = gui.update(&idle());
    assert!(initial.len() > 0);
    for _ in 0..4 {
        let (events, _) = gui.update(&idle());
        assert!(events.is_empty(), "{:?}", events);
    }
}

#[test]
fn idle_frames_after_the_first_report_nothing() {
    let mut gui = fixture();
    gui.update(&idle());
    for _ in 0..4 {
        let (e, _) = gui.update(&idle());
        assert_eq!(e.len(), 0);
    }
}

fn two_option_select() -> Select {
    Select::new()
        .option("one".to_string(), "one".to_string())
        .option("two".to_string(), "two".to_string())
}

#[test]
fn test_select_idempotence() {
    let mut gui = Gui::new();
    gui.insert_in_root(Button::new());
    let id = gui.insert_in_root(two_option_select());
    gui.update(&idle());

    let main_button_id = *gui.access(id).chain(Widget::first_child).chain(Widget::id).get();
    let text_id = gui.get(main_button_id).children[0];
    let inside = [id, main_button_id, text_id];
    let (events, _) = gui.update(&pointer(&inside, true, false));
    assert!(events.iter().any(|e| *e == Event { id: main_button_id, kind: EventKind::Press }));
    assert!(events.iter().any(|e| e.kind == EventKind::New));
    for _ in 0..4 {
        let (events, _) = gui.update(&pointer(&inside, false, false));
        assert!(events.is_empty(), "{:?}", events);
    }
}

#[test]
fn test_select_release_does_nothing() {
    let mut gui = Gui::new();
    let id = gui.insert_in_root(two_option_select());
    gui.update(&idle());
    let main_button_id = gui.get(id).children[0];
    let text_id = gui.get(main_button_id).children[0];
    let inside = [id, main_button_id, text_id];
    gui.update(&pointer(&inside, true, false));
    let (events, _) = gui.update(&pointer(&inside, false, true));
    assert_eq!(events.iter().filter(|e| e.kind != EventKind::Release).count(), 0);
}

#[test]
fn test_button_click_capture_and_events() {
    let mut gui = fixture();
    gui.update(&idle());
    let ((press_events, press_capture), (release_events, release_capture)) =
        click_widget(&mut gui, "ToggleButton 0");
    let relevant_events = press_events
        .into_iter()
        .filter(|event| gui.id_eq(event.id, "ToggleButton 0"))
        .chain(release_events.into_iter().filter(|event| gui.id_eq(event.id, "ToggleButton 0")))
        .collect::<Vec<_>>();
    assert!(press_capture.mouse);
    assert!(release_capture.mouse);
    assert_eq!(relevant_events.len(), 4);
    assert_events(
        &relevant_events,
        &[
            EventKind::Hover,
            EventKind::Press,
            EventKind::change(ToggleButton::state),
            EventKind::Release,
        ],
    );
}

#[test]
fn test_mark_change() {
    let mut gui = fixture();
    gui.update(&idle());
    gui.access("ToggleButton 0").chain(ToggleButton::state).put(true);
    let (events, capture) = gui.update(&idle());
    let relevant_events = events
        .into_iter()
        .filter(|event| gui.id_eq(event.id, "ToggleButton 0"))
        .collect::<Vec<_>>();
    assert_eq!(relevant_events.len(), 1);
    assert_events(&relevant_events, &[EventKind::change(ToggleButton::state)]);
    assert!(!capture.mouse);
}

#[test]
fn test_button_inside() {
    let mut gui = Gui::new();
    let id = gui.insert_in_root(Button::new());
    let text = gui.get(id).children[0];
    let (events, capture) = gui.update(&pointer(&[id, text], false, false));
    assert!(capture.mouse);
    assert!(gui.get(id).hover());
    assert!(events.contains(&Event { id, kind: EventKind::Hover }));
}

#[test]
fn events_test_button_inside() {
    let mut gui = Gui::new();
    let id = gui.insert_in_root(Button::new());
    gui.update(&idle());
    let (events, capture) = gui.update(&pointer(&[id], false, false));
    assert!(capture.mouse);
    assert_eq!(events, vec![Event { id, kind: EventKind::Hover }]);
    let (events, capture) = gui.update(&idle());
    assert!(!capture.mouse);
    assert_eq!(events, vec![Event { id, kind: EventKind::Unhover }]);
}

#[test]
fn test_test_button_inside() {
    let mut gui = Gui::new();
    let id = gui.insert_in_root(ToggleButton::new());
    gui.update(&idle());
    let (events, capture) = gui.update(&pointer(&[gui::ROOT], true, false));
    assert!(!capture.mouse);
    assert!(!events.iter().any(|e| e.id == id));
}

#[test]
fn test_gui_paths() {
    let mut gui = fixture();
    let names: Vec<String> = (0..5)
        .map(|i| format!("Button {}", i))
        .chain((0..5).map(|i| format!("ToggleButton {}", i)))
        .collect();
    for name in names.iter() {
        gui.get(name);
    }
    gui.update(&idle());
    for name in names.iter() {
        let w = gui.get(name);
        if name.starts_with("ToggleButton ") {
            assert!(matches!(w.inner, WidgetKind::ToggleButton(_)));
        } else if name.starts_with("Button ") {
            assert!(matches!(w.inner, WidgetKind::Button(_)));
        }
    }
}

fn single_toggle_button() -> Gui {
    let mut gui = Gui::new();
    gui.insert_in_root_with_alias(ToggleButton::new(), "B1".to_string());
    gui
}

#[test]
fn events_test_gui_paths() {
    let mut gui = single_toggle_button();
    assert!(matches!(gui.get("B1").inner, WidgetKind::ToggleButton(_)));
    let b1 = gui.lookup_alias("B1").unwrap();
    gui.update(&pointer(&[b1], false, false));
    assert!(matches!(gui.get("B1").inner, WidgetKind::ToggleButton(_)));
}

#[test]
fn test_test_gui_paths() {
    let mut gui = single_toggle_button();
    gui.get("B1");
    assert!(gui.try_get("B1").is_some());
    gui.update(&idle());
    gui.get("B1");
    assert!(matches!(gui.try_get("B1").unwrap().inner, WidgetKind::ToggleButton(_)));
}
