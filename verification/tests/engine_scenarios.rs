use evremap::engine::RemapEngine;
use evremap::event::{Emitted, KeyEvent, TimeVal};
use evremap::keyset::KeySet;
use evremap::mapping::Mapping;

const KEY_ESC: u16 = 1;
const KEY_LEFTCTRL: u16 = 29;
const KEY_A: u16 = 30;
const KEY_B: u16 = 48;
const KEY_C: u16 = 46;
const KEY_X: u16 = 45;
const KEY_Y: u16 = 21;
const KEY_H: u16 = 35;
const KEY_LEFT: u16 = 105;
const KEY_LEFTALT: u16 = 56;
const KEY_SPACE: u16 = 57;
const KEY_CAPSLOCK: u16 = 58;

fn at(ms: i64) -> TimeVal {
    TimeVal { tv_sec: ms / 1000, tv_usec: (ms % 1000) * 1000 }
}

fn ev(code: u16, value: i32, ms: i64) -> KeyEvent {
    KeyEvent { code, value, time: at(ms) }
}

fn key(code: u16, value: i32, ms: i64) -> Emitted {
    Emitted::Key(ev(code, value, ms))
}

fn sync(ms: i64) -> Emitted {
    Emitted::Sync(at(ms))
}

fn remap(input: &[u16], output: &[u16], mode: Option<&str>) -> Mapping {
    Mapping::Remap {
        input: KeySet::from_vec(&input.to_vec()),
        output: KeySet::from_vec(&output.to_vec()),
        mode: mode.map(|m| m.to_string()),
    }
}

fn dual_role(input: u16, hold: &[u16], tap: &[u16], mode: Option<&str>) -> Mapping {
    Mapping::DualRole { input, hold: hold.to_vec(), tap: tap.to_vec(), mode: mode.map(|m| m.to_string()) }
}

fn mode_switch(input: &[u16], mode: &str, scope: Option<&str>) -> Mapping {
    Mapping::ModeSwitch {
        input: KeySet::from_vec(&input.to_vec()),
        mode: mode.to_string(),
        scope: scope.map(|m| m.to_string()),
    }
}

#[test]
fn simple_remap_press_repeat_release() {
    let mut e = RemapEngine::new(vec![remap(&[KEY_A], &[KEY_X], Some("default"))]);
    let out = e.update_with_event(&ev(KEY_A, 1, 0));
    assert_eq!(out, vec![key(KEY_X, 1, 0), sync(0)]);
    let out = e.update_with_event(&ev(KEY_A, 2, 10));
    assert_eq!(out, vec![key(KEY_X, 2, 10), sync(10)]);
    let out = e.update_with_event(&ev(KEY_A, 0, 20));
    assert_eq!(out, vec![key(KEY_X, 0, 20), sync(20)]);
}

#[test]
fn dual_role_tap_within_window() {
    let mut e = RemapEngine::new(vec![dual_role(KEY_CAPSLOCK, &[KEY_LEFTCTRL], &[KEY_ESC], None)]);
    let out = e.update_with_event(&ev(KEY_CAPSLOCK, 1, 0));
    assert_eq!(out, vec![key(KEY_LEFTCTRL, 1, 0), sync(0)]);
    let out = e.update_with_event(&ev(KEY_CAPSLOCK, 0, 150));
    assert_eq!(
        out,
        vec![
            key(KEY_LEFTCTRL, 0, 150),
            sync(150),
            key(KEY_ESC, 1, 150),
            sync(150),
            key(KEY_ESC, 0, 150),
            sync(150),
        ]
    );
}

#[test]
fn dual_role_no_tap_past_window() {
    let mut e = RemapEngine::new(vec![dual_role(KEY_CAPSLOCK, &[KEY_LEFTCTRL], &[KEY_ESC], None)]);
    let out = e.update_with_event(&ev(KEY_CAPSLOCK, 1, 0));
    assert_eq!(out, vec![key(KEY_LEFTCTRL, 1, 0), sync(0)]);
    let out = e.update_with_event(&ev(KEY_CAPSLOCK, 0, 300));
    assert_eq!(out, vec![key(KEY_LEFTCTRL, 0, 300), sync(300)]);
}

#[test]
fn dual_role_tap_at_exact_window_boundary() {
    let mut e = RemapEngine::new(vec![dual_role(KEY_CAPSLOCK, &[KEY_LEFTCTRL], &[KEY_ESC], None)]);
    e.update_with_event(&ev(KEY_CAPSLOCK, 1, 0));
    let out = e.update_with_event(&ev(KEY_CAPSLOCK, 0, 200));
    assert_eq!(out.len(), 6, "tap fires at exactly 200 ms");
}

#[test]
fn dual_role_tap_cancelled_by_other_press() {
    let mut e = RemapEngine::new(vec![dual_role(KEY_CAPSLOCK, &[KEY_LEFTCTRL], &[KEY_ESC], None)]);
    e.update_with_event(&ev(KEY_CAPSLOCK, 1, 0));
    let out = e.update_with_event(&ev(KEY_A, 1, 50));
    assert_eq!(out, vec![key(KEY_A, 1, 50), sync(50)]);
    let out = e.update_with_event(&ev(KEY_CAPSLOCK, 0, 100));
    assert_eq!(out, vec![key(KEY_LEFTCTRL, 0, 100), sync(100)], "no tap after an intervening press");
}

#[test]
fn chord_breaking_suppresses_leaked_base_key() {
    let mut e = RemapEngine::new(vec![remap(&[KEY_A, KEY_B], &[KEY_X], Some("default"))]);
    let out = e.update_with_event(&ev(KEY_A, 1, 0));
    assert_eq!(out, vec![key(KEY_A, 1, 0), sync(0)]);
    let out = e.update_with_event(&ev(KEY_B, 1, 10));
    assert_eq!(out, vec![key(KEY_A, 0, 10), sync(10), key(KEY_X, 1, 10), sync(10)]);
    let out = e.update_with_event(&ev(KEY_A, 0, 20));
    assert_eq!(out, vec![key(KEY_X, 0, 20), sync(20)], "no bare B leak on broken chord");
    let out = e.update_with_event(&ev(KEY_B, 0, 30));
    assert_eq!(out, vec![], "nothing virtually held when B leaves");
}

#[test]
fn repeat_of_suppressed_key_is_swallowed() {
    let mut e = RemapEngine::new(vec![remap(&[KEY_A, KEY_B], &[KEY_X], Some("default"))]);
    e.update_with_event(&ev(KEY_A, 1, 0));
    e.update_with_event(&ev(KEY_B, 1, 10));
    e.update_with_event(&ev(KEY_A, 0, 20));
    let out = e.update_with_event(&ev(KEY_B, 2, 30));
    assert_eq!(out, vec![], "repeat of a suppressed key emits nothing");
}

#[test]
fn mode_switch_to_nav_and_remap_in_mode() {
    let mut e = RemapEngine::new(vec![
        mode_switch(&[KEY_LEFTALT, KEY_SPACE], "nav", None),
        remap(&[KEY_H], &[KEY_LEFT], Some("nav")),
    ]);
    let out = e.update_with_event(&ev(KEY_LEFTALT, 1, 0));
    assert_eq!(out, vec![key(KEY_LEFTALT, 1, 0), sync(0)]);
    let out = e.update_with_event(&ev(KEY_SPACE, 1, 10));
    assert_eq!(out, vec![key(KEY_LEFTALT, 0, 10), sync(10)], "chord suppressed, alt released");
    let out = e.update_with_event(&ev(KEY_SPACE, 0, 20));
    assert_eq!(out, vec![]);
    let out = e.update_with_event(&ev(KEY_LEFTALT, 0, 30));
    assert_eq!(out, vec![]);
    let out = e.update_with_event(&ev(KEY_H, 1, 40));
    assert_eq!(out, vec![key(KEY_LEFT, 1, 40), sync(40)], "nav remap active after switch");
    let out = e.update_with_event(&ev(KEY_H, 0, 50));
    assert_eq!(out, vec![key(KEY_LEFT, 0, 50), sync(50)]);
}

#[test]
fn mode_persists_until_next_switch() {
    let mut e = RemapEngine::new(vec![
        mode_switch(&[KEY_LEFTALT, KEY_SPACE], "nav", None),
        mode_switch(&[KEY_LEFTALT, KEY_H], "default", Some("nav")),
        remap(&[KEY_H], &[KEY_LEFT], Some("nav")),
    ]);
    e.update_with_event(&ev(KEY_LEFTALT, 1, 0));
    e.update_with_event(&ev(KEY_SPACE, 1, 10));
    e.update_with_event(&ev(KEY_SPACE, 0, 20));
    e.update_with_event(&ev(KEY_LEFTALT, 0, 30));
    // still in nav
    let out = e.update_with_event(&ev(KEY_H, 1, 40));
    assert_eq!(out, vec![key(KEY_LEFT, 1, 40), sync(40)]);
    e.update_with_event(&ev(KEY_H, 0, 50));
    // the scoped switch chord leads back to default; it beats the one-key
    // nav remap because its chord is longer
    e.update_with_event(&ev(KEY_LEFTALT, 1, 60));
    let out = e.update_with_event(&ev(KEY_H, 1, 70));
    assert_eq!(out, vec![key(KEY_LEFTALT, 0, 70), sync(70)]);
    e.update_with_event(&ev(KEY_H, 0, 80));
    e.update_with_event(&ev(KEY_LEFTALT, 0, 90));
    let out = e.update_with_event(&ev(KEY_H, 1, 100));
    assert_eq!(out, vec![key(KEY_H, 1, 100), sync(100)], "nav remap inactive back in default");
    e.update_with_event(&ev(KEY_H, 0, 110));
}

#[test]
fn longest_chord_wins_on_reselection() {
    let mut e = RemapEngine::new(vec![
        remap(&[KEY_A, KEY_B], &[KEY_X], Some("default")),
        remap(&[KEY_A, KEY_B, KEY_C], &[KEY_Y], Some("default")),
    ]);
    e.update_with_event(&ev(KEY_A, 1, 0));
    let out = e.update_with_event(&ev(KEY_B, 1, 10));
    assert_eq!(out, vec![key(KEY_A, 0, 10), sync(10), key(KEY_X, 1, 10), sync(10)]);
    // the three-key chord is selected and activated; the two-key chord is
    // still intact, so its output stays held alongside the new one
    let out = e.update_with_event(&ev(KEY_C, 1, 20));
    assert_eq!(out, vec![key(KEY_Y, 1, 20), sync(20)]);
}

#[test]
fn repeat_routed_to_longest_active_chord() {
    let mut e = RemapEngine::new(vec![
        remap(&[KEY_A, KEY_B], &[KEY_X], Some("default")),
        remap(&[KEY_A, KEY_B, KEY_C], &[KEY_Y], Some("default")),
    ]);
    e.update_with_event(&ev(KEY_A, 1, 0));
    e.update_with_event(&ev(KEY_B, 1, 10));
    e.update_with_event(&ev(KEY_C, 1, 20));
    let out = e.update_with_event(&ev(KEY_A, 2, 30));
    assert_eq!(out, vec![key(KEY_Y, 2, 30), sync(30)], "repeat goes to the longest chord");
}

#[test]
fn repeat_routing_multi_output() {
    let mut e = RemapEngine::new(vec![remap(&[KEY_A], &[KEY_X, KEY_Y], Some("default"))]);
    let out = e.update_with_event(&ev(KEY_A, 1, 0));
    assert_eq!(out, vec![key(KEY_X, 1, 0), key(KEY_Y, 1, 0), sync(0)]);
    let out = e.update_with_event(&ev(KEY_A, 2, 10));
    assert_eq!(out, vec![key(KEY_X, 2, 10), key(KEY_Y, 2, 10), sync(10)]);
    let out = e.update_with_event(&ev(KEY_A, 0, 20));
    assert_eq!(out, vec![key(KEY_X, 0, 20), key(KEY_Y, 0, 20), sync(20)]);
}

#[test]
fn modifiers_pressed_first_released_last() {
    let mut e = RemapEngine::new(vec![remap(&[KEY_A], &[KEY_LEFTCTRL, KEY_C], Some("default"))]);
    let out = e.update_with_event(&ev(KEY_A, 1, 0));
    assert_eq!(out, vec![key(KEY_LEFTCTRL, 1, 0), key(KEY_C, 1, 0), sync(0)]);
    let out = e.update_with_event(&ev(KEY_A, 0, 10));
    assert_eq!(out, vec![key(KEY_C, 0, 10), key(KEY_LEFTCTRL, 0, 10), sync(10)]);
}

#[test]
fn no_rules_passes_events_through() {
    let mut e = RemapEngine::new(vec![]);
    let out = e.update_with_event(&ev(KEY_A, 1, 0));
    assert_eq!(out, vec![key(KEY_A, 1, 0), sync(0)]);
    let out = e.update_with_event(&ev(KEY_A, 2, 5));
    assert_eq!(out, vec![key(KEY_A, 2, 5), sync(5)]);
    let out = e.update_with_event(&ev(KEY_B, 1, 10));
    assert_eq!(out, vec![key(KEY_B, 1, 10), sync(10)]);
    let out = e.update_with_event(&ev(KEY_A, 0, 20));
    assert_eq!(out, vec![key(KEY_A, 0, 20), sync(20)]);
    let out = e.update_with_event(&ev(KEY_B, 0, 30));
    assert_eq!(out, vec![key(KEY_B, 0, 30), sync(30)]);
}

#[test]
fn release_of_unheld_key_forwarded_verbatim() {
    let mut e = RemapEngine::new(vec![remap(&[KEY_A], &[KEY_X], Some("default"))]);
    let out = e.update_with_event(&ev(KEY_B, 0, 0));
    assert_eq!(out, vec![key(KEY_B, 0, 0), sync(0)]);
}

#[test]
fn unknown_phase_forwarded_verbatim() {
    let mut e = RemapEngine::new(vec![remap(&[KEY_A], &[KEY_X], Some("default"))]);
    let out = e.update_with_event(&ev(KEY_A, 5, 0));
    assert_eq!(out, vec![key(KEY_A, 5, 0), sync(0)]);
}

#[test]
fn remap_inactive_in_other_mode() {
    let mut e = RemapEngine::new(vec![remap(&[KEY_A], &[KEY_X], Some("nav"))]);
    let out = e.update_with_event(&ev(KEY_A, 1, 0));
    assert_eq!(out, vec![key(KEY_A, 1, 0), sync(0)], "nav-scoped rule idle in default mode");
    let out = e.update_with_event(&ev(KEY_A, 0, 10));
    assert_eq!(out, vec![key(KEY_A, 0, 10), sync(10)]);
}

#[test]
fn unscoped_remap_applies_in_any_mode() {
    let mut e = RemapEngine::new(vec![remap(&[KEY_A], &[KEY_X], None)]);
    let out = e.update_with_event(&ev(KEY_A, 1, 0));
    assert_eq!(out, vec![key(KEY_X, 1, 0), sync(0)]);
    e.update_with_event(&ev(KEY_A, 0, 10));
}

#[test]
fn dual_role_takes_precedence_over_remap() {
    let mut e = RemapEngine::new(vec![
        remap(&[KEY_CAPSLOCK], &[KEY_X], Some("default")),
        dual_role(KEY_CAPSLOCK, &[KEY_LEFTCTRL], &[KEY_ESC], None),
    ]);
    let out = e.update_with_event(&ev(KEY_CAPSLOCK, 1, 0));
    assert_eq!(out, vec![key(KEY_LEFTCTRL, 1, 0), sync(0)], "dual-role wins over remap");
    e.update_with_event(&ev(KEY_CAPSLOCK, 0, 300));
}

#[test]
fn mode_switch_beats_remap_of_same_length() {
    let mut e = RemapEngine::new(vec![
        remap(&[KEY_A, KEY_B], &[KEY_X], Some("default")),
        mode_switch(&[KEY_A, KEY_B], "nav", None),
        remap(&[KEY_H], &[KEY_LEFT], Some("nav")),
    ]);
    e.update_with_event(&ev(KEY_A, 1, 0));
    let out = e.update_with_event(&ev(KEY_B, 1, 10));
    // the switch fires: the already-forwarded A is released, nothing pressed
    assert_eq!(out, vec![key(KEY_A, 0, 10), sync(10)]);
    e.update_with_event(&ev(KEY_A, 0, 20));
    e.update_with_event(&ev(KEY_B, 0, 30));
    let out = e.update_with_event(&ev(KEY_H, 1, 40));
    assert_eq!(out, vec![key(KEY_LEFT, 1, 40), sync(40)], "mode nav reached");
    e.update_with_event(&ev(KEY_H, 0, 50));
}

#[test]
fn projection_idempotent_between_events() {
    let mut e = RemapEngine::new(vec![
        remap(&[KEY_A, KEY_B], &[KEY_X], Some("default")),
        dual_role(KEY_CAPSLOCK, &[KEY_LEFTCTRL], &[KEY_ESC], None),
    ]);
    e.update_with_event(&ev(KEY_CAPSLOCK, 1, 0));
    e.update_with_event(&ev(KEY_A, 1, 10));
    e.update_with_event(&ev(KEY_B, 1, 20));
    let first = e.compute_keys();
    let second = e.compute_keys();
    assert!(first.set_eq(&second), "projection is a pure function of the state");
    assert!(first.contains(KEY_X));
    assert!(first.contains(KEY_LEFTCTRL));
    assert!(!first.contains(KEY_A));
}
