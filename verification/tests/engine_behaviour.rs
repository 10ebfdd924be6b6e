use steam_wrapper::engine::Engine;
use steam_wrapper::mappings::{build_mappings, Action, Mapping, MultiKey, OneToOne, SimpleKey};
use steam_wrapper::names::NameMap;
use steam_wrapper::profile::{ComplexMapping, InputSimple, MappingDef, ModifierDef, TimedMapping};

fn names<V>(pairs: Vec<(&str, V)>) -> NameMap<V> {
    NameMap { entries: pairs.into_iter().map(|(k, v)| (k.to_string(), v)).collect() }
}

fn complex() -> ComplexMapping {
    ComplexMapping {
        input_passthrough: false,
        input_simple: None,
        input_down: None,
        input_up: None,
        input_short: None,
        input_long: None,
        input_delayed: None,
        input_variable: None,
        input_combo: None,
        input_arguments: None,
    }
}

const KEY_A: u16 = 30;
const KEY_B: u16 = 48;
const KEY_C: u16 = 46;
const SHIFT: u16 = 42;
const CTRL: u16 = 29;
const BTN_SIDE: u16 = 275;
const BTN_EXTRA: u16 = 276;

fn output() -> NameMap<u16> {
    names(vec![("jump", KEY_A), ("crouch", KEY_B), ("use", KEY_C), ("sprint", SHIFT), ("walk", CTRL)])
}

fn physical() -> NameMap<u16> {
    names(vec![("side", BTN_SIDE), ("extra", BTN_EXTRA), ("left", 272)])
}

/// `side` holds a modifier `shifted` whose passive key is sprint and which
/// remaps `extra` to crouch; `extra` is jump by default.
fn engine_with_modifier() -> Engine {
    let defs = names(vec![
        ("side", MappingDef::Simple("shifted".to_string())),
        ("extra", MappingDef::Simple("jump".to_string())),
        (
            "shifted",
            MappingDef::Modifier(Box::new(ModifierDef {
                input_passive: Some("sprint".to_string()),
                entries: names(vec![("extra", MappingDef::Simple("crouch".to_string()))]),
            })),
        ),
    ]);
    let mappings = build_mappings(defs).ok().unwrap();
    Engine::new(output(), physical(), mappings)
}

#[test]
fn build_mappings_separates_modifiers() {
    let defs = names(vec![
        ("a", MappingDef::Simple("jump".to_string())),
        ("m", MappingDef::Modifier(Box::new(ModifierDef { input_passive: None, entries: NameMap::new() }))),
        ("b", MappingDef::Multi(vec!["jump".to_string()])),
    ]);
    let p = build_mappings(defs).ok().unwrap();
    assert!(p.input_mappings.contains_key("a"));
    assert!(p.input_mappings.contains_key("b"));
    assert!(!p.input_mappings.contains_key("m"));
    assert!(p.modifiers.contains_key("m"));
    assert!(!p.modifiers.contains_key("a"));
}

#[test]
fn simple_mapping_presses_and_releases_its_key() {
    let mut e = engine_with_modifier();
    assert!(e.has_room_for_press("extra"));
    assert_eq!(e.on_button_down("extra"), vec![Action::Press(KEY_A)]);
    assert_eq!(e.on_button_up("extra"), vec![Action::Release(KEY_A)]);
}

#[test]
fn unmapped_input_passes_its_own_key_through() {
    let mut e = engine_with_modifier();
    assert_eq!(e.on_button_down("left"), vec![Action::Press(272)]);
    assert_eq!(e.on_button_up("left"), vec![Action::Release(272)]);
    assert_eq!(e.on_button_down("unknown"), vec![]);
    assert_eq!(e.on_button_up("unknown"), vec![]);
}

#[test]
fn modifier_overrides_and_passive_key() {
    let mut e = engine_with_modifier();
    // Activating the modifier presses its passive key.
    assert_eq!(e.on_button_down("side"), vec![Action::Press(SHIFT)]);
    // The override applies and the passive key is let go while it is held.
    assert_eq!(e.on_button_down("extra"), vec![Action::Press(KEY_B), Action::Release(SHIFT)]);
    // Releasing the override brings the passive key back.
    assert_eq!(e.on_button_up("extra"), vec![Action::Release(KEY_B), Action::Press(SHIFT)]);
    // Releasing the modifier lets go of the passive key.
    assert_eq!(e.on_button_up("side"), vec![Action::Release(SHIFT)]);
    // Back to the default mapping.
    assert_eq!(e.on_button_down("extra"), vec![Action::Press(KEY_A)]);
}

#[test]
fn release_is_symmetric_when_modifier_changes_between() {
    let mut e = engine_with_modifier();
    assert_eq!(e.on_button_down("extra"), vec![Action::Press(KEY_A)]);
    assert_eq!(e.on_button_down("side"), vec![Action::Press(SHIFT)]);
    // The press was resolved without the modifier, so its release is too.
    assert_eq!(e.on_button_up("extra"), vec![Action::Release(KEY_A)]);
    // Releasing the modifier before the overridden input: the input still
    // releases exactly what it pressed.
    assert_eq!(e.on_button_down("extra"), vec![Action::Press(KEY_B), Action::Release(SHIFT)]);
    assert_eq!(e.on_button_up("side"), vec![]);
    assert_eq!(e.on_button_up("extra"), vec![Action::Release(KEY_B)]);
}

#[test]
fn latest_modifier_wins() {
    let defs = names(vec![
        ("side", MappingDef::Simple("m1".to_string())),
        ("extra", MappingDef::Simple("m2".to_string())),
        (
            "m1",
            MappingDef::Modifier(Box::new(ModifierDef {
                input_passive: None,
                entries: names(vec![("left", MappingDef::Simple("jump".to_string()))]),
            })),
        ),
        (
            "m2",
            MappingDef::Modifier(Box::new(ModifierDef {
                input_passive: None,
                entries: names(vec![("left", MappingDef::Simple("use".to_string()))]),
            })),
        ),
    ]);
    let mut e = Engine::new(output(), physical(), build_mappings(defs).ok().unwrap());
    assert_eq!(e.on_button_down("side"), vec![]);
    assert_eq!(e.on_button_down("extra"), vec![]);
    assert_eq!(e.on_button_down("left"), vec![Action::Press(KEY_C)]);
    assert_eq!(e.on_button_up("left"), vec![Action::Release(KEY_C)]);
    assert_eq!(e.on_button_up("extra"), vec![]);
    assert_eq!(e.on_button_down("left"), vec![Action::Press(KEY_A)]);
}

#[test]
fn multi_and_complex_mappings() {
    let mut c = complex();
    c.input_passthrough = true;
    c.input_simple = Some(InputSimple::Many(vec!["jump".to_string(), "nothing".to_string(), "use".to_string()]));
    c.input_down = Some("walk".to_string());
    c.input_up = Some("crouch".to_string());
    let defs = names(vec![
        ("side", MappingDef::Multi(vec!["jump".to_string(), "crouch".to_string(), "missing".to_string()])),
        ("extra", MappingDef::Complex(Box::new(c))),
    ]);
    let mut e = Engine::new(output(), physical(), build_mappings(defs).ok().unwrap());
    assert_eq!(e.on_button_down("side"), vec![Action::Press(KEY_A), Action::Press(KEY_B)]);
    assert_eq!(e.on_button_up("side"), vec![Action::Release(KEY_A), Action::Release(KEY_B)]);
    assert_eq!(
        e.on_button_down("extra"),
        vec![Action::Press(BTN_EXTRA), Action::Press(KEY_A), Action::Press(KEY_C), Action::Press(CTRL), Action::Release(CTRL)]
    );
    assert_eq!(
        e.on_button_up("extra"),
        vec![Action::Release(BTN_EXTRA), Action::Release(KEY_A), Action::Release(KEY_C), Action::Press(KEY_B), Action::Release(KEY_B)]
    );
}

#[test]
fn timed_mapping_is_reported_unimplemented() {
    let mut c = complex();
    c.input_short = Some(TimedMapping { input_arguments: (200,), input_simple: None, input_cycle: None });
    c.input_simple = Some(InputSimple::One("jump".to_string()));
    let defs = names(vec![("side", MappingDef::Complex(Box::new(c)))]);
    let mut e = Engine::new(output(), physical(), build_mappings(defs).ok().unwrap());
    assert_eq!(e.on_button_down("side"), vec![Action::Unimplemented, Action::Press(KEY_A)]);
}

#[test]
fn release_all_lets_go_of_everything() {
    let mut e = engine_with_modifier();
    e.on_button_down("side");
    e.on_button_down("left");
    let out = e.release_all();
    assert_eq!(out.len(), 2);
    assert!(out.contains(&Action::Release(272)));
    assert!(out.contains(&Action::Release(SHIFT)));
    // Nothing is held any more.
    assert_eq!(e.on_button_up("left"), vec![]);
    assert_eq!(e.on_button_up("side"), vec![]);
    assert_eq!(e.release_all(), vec![]);
}

#[test]
fn axis_movement_holds_until_it_stops() {
    let defs = names(vec![("wheel_up", MappingDef::Simple("jump".to_string()))]);
    let mut e = Engine::new(output(), physical(), build_mappings(defs).ok().unwrap());
    let (fired, out) = e.on_axis_move("wheel_up", 1000);
    assert!(fired);
    assert_eq!(out, vec![Action::Press(KEY_A)]);
    let (fired, out) = e.on_axis_move("wheel_up", 1030);
    assert!(fired);
    assert_eq!(out, vec![]);
    // Still moving within the timeout: nothing is released.
    assert_eq!(e.on_axis_release_maybe("wheel_up", 50, 1050), vec![]);
    // Movement stopped.
    assert_eq!(e.on_axis_release_maybe("wheel_up", 50, 1080), vec![Action::Release(KEY_A)]);
    // Never moved: released (nothing held).
    assert_eq!(e.on_axis_release_maybe("other", 50, 1080), vec![]);
}

#[test]
fn unmapped_axis_is_relayed() {
    let mut e = engine_with_modifier();
    let (fired, out) = e.on_axis_move("mouse_y", 5);
    assert!(!fired);
    assert!(out.is_empty());
    assert_eq!(e.relay_axis(1, -4), vec![Action::RelayAxis(1, -4)]);
}

#[test]
fn fixed_mappings_press_and_release_their_keys() {
    let mut s = SimpleKey::new(KEY_A);
    assert_eq!(s.on_down(), vec![Action::Press(KEY_A)]);
    assert_eq!(s.on_up(), vec![Action::Release(KEY_A)]);
    let mut o = OneToOne::new(KEY_B);
    assert_eq!(o.on_down(), vec![Action::Press(KEY_B)]);
    assert_eq!(o.on_up(), vec![Action::Release(KEY_B)]);
    let mut m = MultiKey::new(vec![KEY_A, SHIFT]);
    assert_eq!(m.on_down(), vec![Action::Press(KEY_A), Action::Press(SHIFT)]);
    assert_eq!(m.on_up(), vec![Action::Release(KEY_A), Action::Release(SHIFT)]);
}

#[test]
fn release_all_twice_does_nothing() {
    let mut e = engine_with_modifier();
    e.on_button_down("side");
    e.on_button_down("extra");
    e.on_button_down("left");
    let first = e.release_all();
    assert!(first.contains(&Action::Release(KEY_B)));
    assert!(first.contains(&Action::Release(272)));
    assert!(first.iter().all(|a| matches!(a, Action::Release(_))));
    assert_eq!(e.release_all(), vec![]);
    // Afterwards the engine starts over: no modifier is active.
    assert_eq!(e.on_button_down("extra"), vec![Action::Press(KEY_A)]);
}

/// `side` and `left` both activate `shifted`; `extra` is remapped under it.
fn engine_with_two_activators() -> Engine {
    let defs = names(vec![
        ("side", MappingDef::Simple("shifted".to_string())),
        ("left", MappingDef::Simple("shifted".to_string())),
        ("extra", MappingDef::Simple("jump".to_string())),
        (
            "shifted",
            MappingDef::Modifier(Box::new(ModifierDef {
                input_passive: Some("sprint".to_string()),
                entries: names(vec![("extra", MappingDef::Simple("crouch".to_string()))]),
            })),
        ),
    ]);
    let mappings = build_mappings(defs).ok().unwrap();
    Engine::new(output(), physical(), mappings)
}

#[test]
fn reactivating_a_modifier_in_its_own_scope_keeps_passive_key_up() {
    let mut e = engine_with_two_activators();
    assert_eq!(e.on_button_down("side"), vec![Action::Press(SHIFT)]);
    assert_eq!(e.on_button_down("extra"), vec![Action::Press(KEY_B), Action::Release(SHIFT)]);
    // The override of `extra` is still held: activating the modifier again
    // does not press its passive key.
    assert_eq!(e.on_button_down("left"), vec![]);
    // Leaving the scope brings the passive key back, once.
    assert_eq!(e.on_button_up("extra"), vec![Action::Release(KEY_B), Action::Press(SHIFT)]);
    // Either activator's release takes the modifier off and lets go of it.
    assert_eq!(e.on_button_up("left"), vec![Action::Release(SHIFT)]);
    assert_eq!(e.on_button_up("side"), vec![]);
    assert_eq!(e.release_all(), vec![]);
}

fn count(actions: &[Action], wanted: Action) -> usize {
    actions.iter().filter(|a| **a == wanted).count()
}

#[test]
fn press_then_release_restores_the_engine() {
    let mut e = engine_with_modifier();
    assert_eq!(e.on_button_down("side"), vec![Action::Press(SHIFT)]);
    let down = e.on_button_down("extra");
    let up = e.on_button_up("extra");
    let both: Vec<Action> = down.iter().chain(up.iter()).cloned().collect();
    for k in [KEY_A, KEY_B, KEY_C, SHIFT, CTRL] {
        assert_eq!(count(&both, Action::Press(k)), count(&both, Action::Release(k)));
    }
    // The engine answers the same press and release the same way again.
    assert_eq!(e.on_button_down("extra"), down);
    assert_eq!(e.on_button_up("extra"), up);
    assert_eq!(e.on_button_up("side"), vec![Action::Release(SHIFT)]);
    assert_eq!(e.release_all(), vec![]);
}

/// Whether `k` is left down after `actions`: the last action naming it is a press.
fn left_down(actions: &[Action], k: u16) -> bool {
    actions
        .iter()
        .rev()
        .find(|a| matches!(a, Action::Press(x) | Action::Release(x) if *x == k))
        .map_or(false, |a| matches!(a, Action::Press(_)))
}

#[test]
fn no_key_is_left_down_after_release_all() {
    let mut e = engine_with_two_activators();
    let mut all: Vec<Action> = Vec::new();
    all.extend(e.on_button_down("side"));
    all.extend(e.on_button_down("extra"));
    all.extend(e.on_button_down("left"));
    all.extend(e.on_button_up("side"));
    all.extend(e.on_button_down("side"));
    all.extend(e.on_button_up("extra"));
    all.extend(e.on_button_down("extra"));
    assert!(left_down(&all, SHIFT) || left_down(&all, KEY_B) || left_down(&all, KEY_A));
    all.extend(e.release_all());
    for k in [KEY_A, KEY_B, KEY_C, SHIFT, CTRL, BTN_SIDE, BTN_EXTRA, 272] {
        assert!(!left_down(&all, k), "key {} left down", k);
    }
}

#[test]
fn release_all_keeps_each_inputs_key_order() {
    let defs = names(vec![(
        "extra",
        MappingDef::Multi(vec!["use".to_string(), "jump".to_string(), "crouch".to_string()]),
    )]);
    let mappings = build_mappings(defs).ok().unwrap();
    let mut e = Engine::new(output(), physical(), mappings);
    assert_eq!(
        e.on_button_down("extra"),
        vec![Action::Press(KEY_C), Action::Press(KEY_A), Action::Press(KEY_B)]
    );
    assert_eq!(
        e.release_all(),
        vec![Action::Release(KEY_C), Action::Release(KEY_A), Action::Release(KEY_B)]
    );
}
