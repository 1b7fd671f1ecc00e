use core::cmp::Ordering;
use evremap::event::{KeyEventType, TimeVal};
use evremap::keycode::{is_modifier, modifiers_first, modifiers_last};
use evremap::keys::list_keys;
use evremap::keyset::{KeyMap, KeySet};
use evremap::mapping::{
    declared_output_keys, ConfigError, DualRoleEntry, Mapping, MappingConfig, ModeSection,
    RemapEntry, SwitchEntry,
};

const KEY_ESC: u16 = 1;
const KEY_LEFTCTRL: u16 = 29;
const KEY_A: u16 = 30;
const KEY_X: u16 = 45;
const KEY_H: u16 = 35;
const KEY_LEFT: u16 = 105;
const KEY_FN: u16 = 464;
const KEY_CAPSLOCK: u16 = 58;

#[test]
fn modifier_classification() {
    assert!(is_modifier(&KEY_LEFTCTRL));
    assert!(is_modifier(&KEY_FN));
    assert!(!is_modifier(&KEY_A));
    assert!(!is_modifier(&KEY_ESC));
}

#[test]
fn modifier_comparators_partition() {
    assert_eq!(modifiers_first(&KEY_LEFTCTRL, &KEY_A), Ordering::Less);
    assert_eq!(modifiers_first(&KEY_A, &KEY_LEFTCTRL), Ordering::Greater);
    assert_eq!(modifiers_first(&KEY_LEFTCTRL, &KEY_FN), Ordering::Equal);
    assert_eq!(modifiers_first(&KEY_A, &KEY_X), Ordering::Equal);
    assert_eq!(modifiers_last(&KEY_LEFTCTRL, &KEY_A), Ordering::Greater);
    assert_eq!(modifiers_last(&KEY_A, &KEY_LEFTCTRL), Ordering::Less);
}

#[test]
fn event_type_round_trip() {
    assert_eq!(KeyEventType::from_value(0).value(), 0);
    assert_eq!(KeyEventType::from_value(1).value(), 1);
    assert_eq!(KeyEventType::from_value(2).value(), 2);
    assert_eq!(KeyEventType::from_value(7).value(), 7);
    assert!(matches!(KeyEventType::from_value(0), KeyEventType::Release));
    assert!(matches!(KeyEventType::from_value(1), KeyEventType::Press));
    assert!(matches!(KeyEventType::from_value(2), KeyEventType::Repeat));
    assert!(matches!(KeyEventType::from_value(9), KeyEventType::Unknown(9)));
}

#[test]
fn timeval_diff_microseconds() {
    let a = TimeVal { tv_sec: 1, tv_usec: 500_000 };
    let b = TimeVal { tv_sec: 3, tv_usec: 200_000 };
    assert_eq!(evremap::event::timeval_diff(&b, &a), 1_700_000);
    let c = TimeVal { tv_sec: 1, tv_usec: 500_000 };
    assert_eq!(evremap::event::timeval_diff(&c, &a), 0);
    let d = TimeVal { tv_sec: 1, tv_usec: 500_001 };
    assert_eq!(evremap::event::timeval_diff(&d, &a), 1);
}

#[test]
fn key_set_holds_each_element_once() {
    let s = KeySet::from_vec(&vec![KEY_A, KEY_X, KEY_A, KEY_X]);
    assert_eq!(s.len(), 2);
    assert!(s.contains(KEY_A));
    assert!(s.contains(KEY_X));
    assert!(!s.contains(KEY_H));
    let t = KeySet::from_vec(&vec![KEY_X, KEY_A]);
    assert!(s.set_eq(&t));
    let u = KeySet::from_vec(&vec![KEY_X]);
    assert!(!s.set_eq(&u));
}

#[test]
fn key_map_insert_remove() {
    let mut m = KeyMap::new();
    let t0 = TimeVal { tv_sec: 0, tv_usec: 10 };
    let t1 = TimeVal { tv_sec: 0, tv_usec: 20 };
    m.insert(KEY_A, t0);
    assert!(m.contains_key(KEY_A));
    m.insert(KEY_A, t1);
    assert_eq!(m.remove(KEY_A), Some(t1), "insert replaces the stored timestamp");
    assert_eq!(m.remove(KEY_A), None);
    assert!(!m.contains_key(KEY_A));
}

#[test]
fn from_sections_flattens_in_order() {
    let config = MappingConfig::from_sections(
        Some("kbd".to_string()),
        None,
        vec![DualRoleEntry { input: KEY_CAPSLOCK, hold: vec![KEY_LEFTCTRL], tap: vec![KEY_ESC] }],
        vec![RemapEntry { input: vec![KEY_A], output: vec![KEY_X], mode: None }],
        vec![SwitchEntry { input: vec![KEY_A, KEY_H], mode: "nav".to_string() }],
        vec![ModeSection {
            name: "nav".to_string(),
            dual_role: vec![],
            remap: vec![RemapEntry { input: vec![KEY_H], output: vec![KEY_LEFT], mode: None }],
            switch: vec![SwitchEntry { input: vec![KEY_A], mode: "default".to_string() }],
        }],
    );
    assert_eq!(config.device_name.as_deref(), Some("kbd"));
    assert_eq!(config.phys, None);
    assert_eq!(config.mappings.len(), 5);
    assert!(matches!(
        &config.mappings[0],
        Mapping::DualRole { input, mode: None, .. } if *input == KEY_CAPSLOCK
    ));
    match &config.mappings[1] {
        Mapping::Remap { mode, .. } => {
            assert_eq!(mode.as_deref(), Some("default"), "top-level remap defaults its mode");
        },
        other => panic!("expected a remap, got {other:?}"),
    }
    match &config.mappings[2] {
        Mapping::ModeSwitch { mode, scope, .. } => {
            assert_eq!(mode, "nav");
            assert_eq!(*scope, None, "top-level switches carry no scope");
        },
        other => panic!("expected a mode switch, got {other:?}"),
    }
    match &config.mappings[3] {
        Mapping::Remap { mode, .. } => {
            assert_eq!(mode.as_deref(), Some("nav"), "per-mode remap scoped to its section");
        },
        other => panic!("expected a remap, got {other:?}"),
    }
    match &config.mappings[4] {
        Mapping::ModeSwitch { mode, scope, .. } => {
            assert_eq!(mode, "default");
            assert_eq!(scope.as_deref(), Some("nav"), "per-mode switch scoped to its section");
        },
        other => panic!("expected a mode switch, got {other:?}"),
    }
}

#[test]
fn declared_output_keys_covers_rule_outputs() {
    let config = MappingConfig::from_sections(
        None,
        None,
        vec![DualRoleEntry { input: KEY_CAPSLOCK, hold: vec![KEY_LEFTCTRL], tap: vec![KEY_ESC] }],
        vec![RemapEntry { input: vec![KEY_A], output: vec![KEY_X], mode: None }],
        vec![SwitchEntry { input: vec![KEY_A, KEY_H], mode: "nav".to_string() }],
        vec![],
    );
    let declared = declared_output_keys(&config.mappings);
    assert!(declared.contains(KEY_LEFTCTRL));
    assert!(declared.contains(KEY_ESC));
    assert!(declared.contains(KEY_X));
    assert!(!declared.contains(KEY_A), "trigger keys are not declared outputs");
    assert!(!declared.contains(KEY_H), "mode switches declare nothing");
}

#[test]
fn config_error_variants() {
    let e = ConfigError::InvalidKey("KEY_BOGUS".to_string());
    assert!(matches!(e, ConfigError::InvalidKey(ref s) if s == "KEY_BOGUS"));
    let e = ConfigError::ImpossibleParseKey;
    assert!(matches!(e, ConfigError::ImpossibleParseKey));
}

#[test]
fn list_keys_sorts_names() {
    let names = vec![
        "KEY_B".to_string(),
        "KEY_A".to_string(),
        "KEY_AB".to_string(),
        "KEY_1".to_string(),
    ];
    let sorted = list_keys(names);
    assert_eq!(
        sorted,
        vec![
            "KEY_1".to_string(),
            "KEY_A".to_string(),
            "KEY_AB".to_string(),
            "KEY_B".to_string(),
        ]
    );
}

#[test]
fn list_keys_keeps_duplicates() {
    let names = vec!["B".to_string(), "A".to_string(), "B".to_string()];
    let sorted = list_keys(names);
    assert_eq!(sorted, vec!["A".to_string(), "B".to_string(), "B".to_string()]);
}
