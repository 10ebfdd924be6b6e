use steam_wrapper::names::NameMap;
use steam_wrapper::output::{
    flatten_rebound, input_refs, rebind_lines, resolve_refs, settles_in, DefaultEntry, OutputSection, ReboundEntry,
    ResolvedOutput,
};
use steam_wrapper::profile::{AxisDef, Delta, InputDef};

fn pairs(v: Vec<(&str, &str)>) -> Vec<(String, String)> {
    v.into_iter().map(|(a, b)| (a.to_string(), b.to_string())).collect()
}

fn inputs() -> NameMap<InputDef> {
    NameMap {
        entries: vec![
            ("right_click".to_string(), InputDef::Button("BTN_RIGHT".to_string())),
            ("side".to_string(), InputDef::KeyCode(275)),
            ("up".to_string(), InputDef::Axis(AxisDef { axis: "REL_Y".to_string(), delta: Delta::Negative, noisy: true })),
        ],
    }
}

fn binding(r: &ResolvedOutput, name: &str) -> Option<u16> {
    r.bindings.get(name).copied()
}

#[test]
fn only_defaults_are_parsed_directly() {
    let section = OutputSection {
        default: vec![
            ("jump".to_string(), DefaultEntry::Direct("KEY_SPACE".to_string())),
            ("combat".to_string(), DefaultEntry::Context(pairs(vec![("attack", "BTN_LEFT"), ("block", "BTN_RIGHT")]))),
        ],
        rebinds: vec![],
    };
    assert!(!section.has_rebinds());
    let r = section.resolve(&inputs()).ok().unwrap();
    assert_eq!(binding(&r, "jump"), Some(57));
    assert_eq!(binding(&r, "combat/attack"), Some(272));
    assert_eq!(binding(&r, "combat/block"), Some(273));
    let names: Vec<&str> = r.bindings.entries.iter().map(|(k, _)| k.as_str()).collect();
    assert_eq!(names, vec!["jump", "combat/attack", "combat/block"]);
    assert!(r.rebinds.is_empty());
    assert!(!r.only_rebound);
    assert!(rebind_lines(&r).is_empty());
}

#[test]
fn only_rebinds_are_resolved_and_all_listed() {
    let section = OutputSection {
        default: vec![],
        rebinds: vec![
            ("aim".to_string(), ReboundEntry::Direct("right_click".to_string())),
            ("menu".to_string(), ReboundEntry::Context(pairs(vec![("open", "KEY_TAB"), ("back", "aim")]))),
        ],
    };
    assert!(section.has_rebinds());
    let r = section.resolve(&inputs()).ok().unwrap();
    assert_eq!(binding(&r, "aim"), Some(273));
    assert_eq!(binding(&r, "menu/open"), Some(15));
    assert_eq!(binding(&r, "menu/back"), Some(273));
    assert_eq!(r.rebinds, pairs(vec![("aim", "right_click"), ("menu/open", "KEY_TAB"), ("menu/back", "aim")]));
    assert!(r.only_rebound);
    let lines = rebind_lines(&r);
    assert_eq!(
        lines,
        vec![
            "".to_string(),
            "HEY YOU!".to_string(),
            "Remember to rebind the following controls in-game:".to_string(),
            "  aim -> right_click".to_string(),
            "  menu/open -> KEY_TAB".to_string(),
            "  menu/back -> aim".to_string(),
            "".to_string(),
        ]
    );
}

#[test]
fn both_list_only_changed_overrides_in_default_order() {
    let section = OutputSection {
        default: vec![
            ("jump".to_string(), DefaultEntry::Direct("KEY_SPACE".to_string())),
            ("fire".to_string(), DefaultEntry::Direct("BTN_LEFT".to_string())),
            ("aim".to_string(), DefaultEntry::Direct("BTN_RIGHT".to_string())),
        ],
        rebinds: vec![
            ("aim".to_string(), ReboundEntry::Direct("KEY_E".to_string())),
            ("jump".to_string(), ReboundEntry::Direct("KEY_F".to_string())),
            ("fire".to_string(), ReboundEntry::Direct("BTN_LEFT".to_string())),
            ("extra".to_string(), ReboundEntry::Direct("KEY_G".to_string())),
        ],
    };
    let r = section.resolve(&inputs()).ok().unwrap();
    assert_eq!(binding(&r, "jump"), Some(33));
    assert_eq!(binding(&r, "fire"), Some(272));
    assert_eq!(binding(&r, "aim"), Some(18));
    assert_eq!(binding(&r, "extra"), Some(34));
    assert_eq!(r.rebinds, pairs(vec![("jump", "KEY_F"), ("aim", "KEY_E")]));
    assert!(!r.only_rebound);
    let lines = rebind_lines(&r);
    assert_eq!(lines[3], "  jump -> KEY_F");
    assert_eq!(lines[4], "  aim -> KEY_E");
    assert_eq!(lines[5], "All other controls are default.");
    assert_eq!(lines.len(), 7);
}

#[test]
fn rebind_to_input_name_resolves_to_its_key() {
    let section = OutputSection {
        default: vec![("aim".to_string(), DefaultEntry::Direct("BTN_MIDDLE".to_string()))],
        rebinds: vec![("aim".to_string(), ReboundEntry::Direct("right_click".to_string()))],
    };
    let r = section.resolve(&inputs()).ok().unwrap();
    assert_eq!(binding(&r, "aim"), Some(273));
    assert_eq!(r.rebinds, pairs(vec![("aim", "right_click")]));
}

#[test]
fn mutual_references_settle_on_themselves() {
    // Each value names the other binding: one pass swaps them to their own
    // names, which then name no key code.
    let section = OutputSection {
        default: vec![],
        rebinds: vec![
            ("x".to_string(), ReboundEntry::Direct("y".to_string())),
            ("y".to_string(), ReboundEntry::Direct("x".to_string())),
        ],
    };
    let e = section.resolve(&inputs()).err().unwrap();
    assert_eq!(e.output, "x");
    assert_eq!(e.code, "x");
}

#[test]
fn unknown_key_code_names_the_output() {
    let section = OutputSection {
        default: vec![
            ("jump".to_string(), DefaultEntry::Direct("KEY_SPACE".to_string())),
            ("dash".to_string(), DefaultEntry::Direct("KEY_DASH".to_string())),
            ("duck".to_string(), DefaultEntry::Direct("KEY_DUCK".to_string())),
        ],
        rebinds: vec![],
    };
    let e = section.resolve(&inputs()).err().unwrap();
    assert_eq!(e.output, "dash");
    assert_eq!(e.code, "KEY_DASH");
}

#[test]
fn empty_output_section_resolves_to_nothing() {
    let section = OutputSection { default: vec![], rebinds: vec![] };
    let r = section.resolve(&inputs()).ok().unwrap();
    assert!(r.bindings.entries.is_empty());
    assert!(r.rebinds.is_empty());
    assert!(!r.only_rebound);
}

#[test]
fn later_context_entry_overrides_earlier_one() {
    let section = OutputSection {
        default: vec![
            ("a/b".to_string(), DefaultEntry::Direct("KEY_A".to_string())),
            ("a".to_string(), DefaultEntry::Context(pairs(vec![("b", "KEY_B")]))),
        ],
        rebinds: vec![],
    };
    let r = section.resolve(&inputs()).ok().unwrap();
    assert_eq!(r.bindings.entries.len(), 1);
    assert_eq!(binding(&r, "a/b"), Some(48));
}

#[test]
fn settling_references_are_resolvable_within_a_budget() {
    // A chain a -> b -> KEY_SPACE settles after two passes.
    let section = OutputSection {
        default: vec![],
        rebinds: vec![
            ("a".to_string(), ReboundEntry::Direct("b".to_string())),
            ("b".to_string(), ReboundEntry::Direct("KEY_SPACE".to_string())),
        ],
    };
    assert!(!section.resolvable_within(&inputs(), 0));
    assert!(section.resolvable_within(&inputs(), 1));
    assert!(section.resolvable_within(&inputs(), 4096));
    let r = section.resolve(&inputs()).ok().unwrap();
    assert_eq!(binding(&r, "a"), Some(57));
    assert_eq!(binding(&r, "b"), Some(57));
}

#[test]
fn three_way_cycle_never_settles() {
    // Each pass rotates the three values, so no count of passes settles them.
    let section = OutputSection {
        default: vec![],
        rebinds: vec![
            ("a".to_string(), ReboundEntry::Direct("b".to_string())),
            ("b".to_string(), ReboundEntry::Direct("c".to_string())),
            ("c".to_string(), ReboundEntry::Direct("a".to_string())),
        ],
    };
    assert!(!section.resolvable_within(&inputs(), 4096));
}

#[test]
fn defaults_alone_need_no_passes() {
    let section = OutputSection {
        default: vec![("a".to_string(), DefaultEntry::Direct("b".to_string()))],
        rebinds: vec![],
    };
    assert!(section.resolvable_within(&inputs(), 0));
}

#[test]
fn settling_is_tested_before_following_references() {
    let rebound = vec![
        ("a".to_string(), ReboundEntry::Direct("b".to_string())),
        ("b".to_string(), ReboundEntry::Direct("right_click".to_string())),
    ];
    let refs = input_refs(&inputs());
    let mut flat = flatten_rebound(&rebound);
    assert!(!settles_in(&flat, &refs, 1));
    assert!(settles_in(&flat, &refs, 2));
    resolve_refs(&mut flat, &refs);
    assert_eq!(flat.get("a").map(|s| s.as_str()), Some("BTN_RIGHT"));
    assert_eq!(flat.get("b").map(|s| s.as_str()), Some("BTN_RIGHT"));
    let cycle = vec![
        ("a".to_string(), ReboundEntry::Direct("b".to_string())),
        ("b".to_string(), ReboundEntry::Direct("c".to_string())),
        ("c".to_string(), ReboundEntry::Direct("a".to_string())),
    ];
    assert!(!settles_in(&flatten_rebound(&cycle), &refs, 1000));
}
