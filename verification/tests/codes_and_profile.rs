use steam_wrapper::codes::{parse_axis_code, parse_key_code, CodeError};
use steam_wrapper::input::{AxisWatcher, ButtonAction, ButtonWatcher, EventKind, InputEvent, WatchResult, Watcher};
use steam_wrapper::names::NameMap;
use steam_wrapper::profile::{physical_inputs, AxisDef, Delta, DeltaError, InputDef};

#[test]
fn key_codes_are_found_by_name() {
    assert!(matches!(parse_key_code("KEY_A"), Ok(30)));
    assert!(matches!(parse_key_code("BTN_LEFT"), Ok(272)));
    assert!(matches!(parse_key_code("BTN_RIGHT"), Ok(273)));
    assert!(matches!(parse_key_code("KEY_LEFTSHIFT"), Ok(42)));
}

#[test]
fn unknown_key_code_is_an_error() {
    match parse_key_code("KEY_NOT_A_KEY") {
        Err(CodeError::UnknownKeyCode(s)) => assert_eq!(s, "KEY_NOT_A_KEY"),
        _ => panic!("expected an unknown key code"),
    }
    assert!(parse_key_code("").is_err());
}

#[test]
fn axis_codes_are_found_by_name() {
    assert!(matches!(parse_axis_code("REL_X"), Ok(0)));
    assert!(matches!(parse_axis_code("REL_Y"), Ok(1)));
    assert!(matches!(parse_axis_code("REL_HWHEEL"), Ok(6)));
    assert!(matches!(parse_axis_code("REL_WHEEL"), Ok(8)));
    match parse_axis_code("KEY_A") {
        Err(CodeError::UnknownAxisCode(s)) => assert_eq!(s, "KEY_A"),
        _ => panic!("expected an unknown axis code"),
    }
}

#[test]
fn delta_accepts_only_one_and_minus_one() {
    assert_eq!(Delta::try_from(1), Ok(Delta::Positive));
    assert_eq!(Delta::try_from(-1), Ok(Delta::Negative));
    assert_eq!(Delta::try_from(0), Err(DeltaError { value: 0 }));
    assert_eq!(Delta::try_from(2), Err(DeltaError { value: 2 }));
    assert_eq!(Delta::try_from(-128), Err(DeltaError { value: -128 }));
}

#[test]
fn physical_key_of_each_input_kind() {
    assert_eq!(InputDef::Button("BTN_LEFT".to_string()).physical_key(), Some(272));
    assert_eq!(InputDef::Button("NOT_A_KEY".to_string()).physical_key(), None);
    assert_eq!(InputDef::KeyCode(280).physical_key(), Some(280));
    let axis = InputDef::Axis(AxisDef { axis: "REL_Y".to_string(), delta: Delta::Negative, noisy: false });
    assert_eq!(axis.physical_key(), None);
}

#[test]
fn physical_inputs_keep_only_keys() {
    let inputs = NameMap {
        entries: vec![
            ("left".to_string(), InputDef::Button("BTN_LEFT".to_string())),
            ("side".to_string(), InputDef::KeyCode(275)),
            ("up".to_string(), InputDef::Axis(AxisDef { axis: "REL_Y".to_string(), delta: Delta::Negative, noisy: true })),
            ("bad".to_string(), InputDef::Button("NOPE".to_string())),
        ],
    };
    let keys = physical_inputs(&inputs);
    assert_eq!(keys.entries.len(), 2);
    assert_eq!(keys.get("left"), Some(&272));
    assert_eq!(keys.get("side"), Some(&275));
    assert_eq!(keys.get("up"), None);
    assert_eq!(keys.get("bad"), None);
}

#[test]
fn into_watcher_builds_button_and_axis_watchers() {
    let w = InputDef::Button("BTN_SIDE".to_string()).into_watcher(false).ok().unwrap();
    assert_eq!(w.watcher, Watcher::Button(ButtonWatcher { key_code: 275 }));
    assert!(!w.announce);
    let w = InputDef::KeyCode(30).into_watcher(false).ok().unwrap();
    assert_eq!(w.watcher, Watcher::Button(ButtonWatcher { key_code: 30 }));

    let noisy = || InputDef::Axis(AxisDef { axis: "REL_Y".to_string(), delta: Delta::Negative, noisy: true });
    let w = noisy().into_watcher(false).ok().unwrap();
    assert_eq!(w.watcher, Watcher::Axis(AxisWatcher { axis: 1, direction: false, threshold: 1 }));
    assert!(!w.announce);
    assert!(noisy().into_watcher(true).ok().unwrap().announce);
    let quiet = InputDef::Axis(AxisDef { axis: "REL_WHEEL".to_string(), delta: Delta::Positive, noisy: false });
    let w = quiet.into_watcher(false).ok().unwrap();
    assert_eq!(w.watcher, Watcher::Axis(AxisWatcher { axis: 8, direction: true, threshold: 1 }));
    assert!(w.announce);
}

#[test]
fn into_watcher_reports_unknown_codes() {
    match InputDef::Button("BTN_NOPE".to_string()).into_watcher(false) {
        Err(CodeError::UnknownKeyCode(s)) => assert_eq!(s, "BTN_NOPE"),
        _ => panic!("expected an error"),
    }
    let bad = InputDef::Axis(AxisDef { axis: "REL_NOPE".to_string(), delta: Delta::Positive, noisy: false });
    match bad.into_watcher(false) {
        Err(CodeError::UnknownAxisCode(s)) => assert_eq!(s, "REL_NOPE"),
        _ => panic!("expected an error"),
    }
}

fn key(code: u16, value: i32) -> InputEvent {
    InputEvent { kind: EventKind::Key, code, value }
}

fn rel(code: u16, value: i32) -> InputEvent {
    InputEvent { kind: EventKind::RelativeAxis, code, value }
}

#[test]
fn button_watcher_reports_press_and_release_only() {
    let w = ButtonWatcher::new(272);
    assert_eq!(w.handle_event(&key(272, 1)), Some(ButtonAction::Down));
    assert_eq!(w.handle_event(&key(272, 0)), Some(ButtonAction::Up));
    assert_eq!(w.handle_event(&key(272, 2)), None);
    assert_eq!(w.handle_event(&key(273, 1)), None);
    assert_eq!(w.handle_event(&rel(272, 1)), None);
    assert_eq!(w.handle_event(&InputEvent { kind: EventKind::Other, code: 272, value: 1 }), None);
}

#[test]
fn axis_watcher_filters_direction_and_threshold() {
    let down = AxisWatcher::new(1, false, 1);
    assert_eq!(down.handle_event(&rel(1, -3)), Some(-3));
    assert_eq!(down.handle_event(&rel(1, 3)), None);
    assert_eq!(down.handle_event(&rel(1, 0)), None);
    assert_eq!(down.handle_event(&rel(0, -3)), None);
    assert_eq!(down.handle_event(&key(1, -3)), None);
    assert_eq!(down.handle_event(&rel(1, i32::MIN)), Some(i32::MIN));
    let up = AxisWatcher::new(8, true, 2);
    assert_eq!(up.handle_event(&rel(8, 1)), None);
    assert_eq!(up.handle_event(&rel(8, 2)), Some(2));
    let w = Watcher::Axis(up);
    assert_eq!(w.handle_event(&rel(8, 5)), WatchResult::Moved(5));
    assert_eq!(w.handle_event(&rel(8, -5)), WatchResult::Nothing);
    let b = Watcher::Button(ButtonWatcher::new(30));
    assert_eq!(b.handle_event(&key(30, 1)), WatchResult::Button(ButtonAction::Down));
}

#[test]
fn name_map_insert_get_remove() {
    let mut m: NameMap<u16> = NameMap::new();
    m.insert("a".to_string(), 1);
    m.insert("b".to_string(), 2);
    m.insert("a".to_string(), 3);
    assert_eq!(m.entries.len(), 2);
    assert_eq!(m.get("a"), Some(&3));
    assert!(m.contains_key("b"));
    assert_eq!(m.remove("a"), Some(3));
    assert_eq!(m.get("a"), None);
    assert_eq!(m.remove("zzz"), None);
    m.clear();
    assert!(!m.contains_key("b"));
}
