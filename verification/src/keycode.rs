//! Key codes and the modifier classification.

use core::cmp::Ordering;
use vstd::prelude::*;

verus! {

/// A key code, drawn from the kernel's key-code namespace.
pub type KeyCode = u16;

pub const KEY_LEFTCTRL: u16 = 29;
pub const KEY_LEFTSHIFT: u16 = 42;
pub const KEY_RIGHTSHIFT: u16 = 54;
pub const KEY_LEFTALT: u16 = 56;
pub const KEY_RIGHTCTRL: u16 = 97;
pub const KEY_RIGHTALT: u16 = 100;
pub const KEY_LEFTMETA: u16 = 125;
pub const KEY_RIGHTMETA: u16 = 126;
pub const KEY_FN: u16 = 464;

/// The fixed modifier set: left/right Control, Shift, Alt, Meta, plus Fn.
pub open spec fn spec_is_modifier(k: KeyCode) -> bool {
    ||| k == KEY_FN
    ||| k == KEY_LEFTALT
    ||| k == KEY_RIGHTALT
    ||| k == KEY_LEFTMETA
    ||| k == KEY_RIGHTMETA
    ||| k == KEY_LEFTCTRL
    ||| k == KEY_RIGHTCTRL
    ||| k == KEY_LEFTSHIFT
    ||| k == KEY_RIGHTSHIFT
}

/// Whether a key is one of the fixed modifier keys.
pub fn is_modifier(key: &KeyCode) -> (r: bool)
    ensures
        r == spec_is_modifier(*key),
{
    let k = *key;
    k == KEY_FN || k == KEY_LEFTALT || k == KEY_RIGHTALT || k == KEY_LEFTMETA
        || k == KEY_RIGHTMETA || k == KEY_LEFTCTRL || k == KEY_RIGHTCTRL || k == KEY_LEFTSHIFT
        || k == KEY_RIGHTSHIFT
}

/// The comparator that partitions modifiers before non-modifiers.
pub open spec fn spec_modifiers_first(a: KeyCode, b: KeyCode) -> Ordering {
    if spec_is_modifier(a) {
        if spec_is_modifier(b) {
            Ordering::Equal
        } else {
            Ordering::Less
        }
    } else if spec_is_modifier(b) {
        Ordering::Greater
    } else {
        Ordering::Equal
    }
}

/// Orders modifiers before non-modifiers; keys of the same class compare equal.
pub fn modifiers_first(a: &KeyCode, b: &KeyCode) -> (r: Ordering)
    ensures
        r == spec_modifiers_first(*a, *b),
{
    if is_modifier(a) {
        if is_modifier(b) {
            Ordering::Equal
        } else {
            Ordering::Less
        }
    } else if is_modifier(b) {
        Ordering::Greater
    } else {
        Ordering::Equal
    }
}

/// The comparator that partitions modifiers after non-modifiers.
pub open spec fn spec_modifiers_last(a: KeyCode, b: KeyCode) -> Ordering {
    match spec_modifiers_first(a, b) {
        Ordering::Less => Ordering::Greater,
        Ordering::Greater => Ordering::Less,
        Ordering::Equal => Ordering::Equal,
    }
}

/// Orders non-modifiers before modifiers; keys of the same class compare equal.
pub fn modifiers_last(a: &KeyCode, b: &KeyCode) -> (r: Ordering)
    ensures
        r == spec_modifiers_last(*a, *b),
{
    match modifiers_first(a, b) {
        Ordering::Less => Ordering::Greater,
        Ordering::Greater => Ordering::Less,
        Ordering::Equal => Ordering::Equal,
    }
}

} // verus!
