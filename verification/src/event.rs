//! Key events, event phases, timestamps, and the emitted-event model.

use crate::keycode::KeyCode;
use vstd::prelude::*;

verus! {

/// A monotonic timestamp as a (seconds, microseconds) pair.
#[derive(Clone, Copy, Debug, PartialEq, Eq, Structural)]
pub struct TimeVal {
    pub tv_sec: i64,
    pub tv_usec: i64,
}

impl TimeVal {
    /// A timestamp of a monotonic clock: non-negative, with the microsecond
    /// part normalized below one million.
    pub open spec fn well_formed(self) -> bool {
        0 <= self.tv_sec && 0 <= self.tv_usec < 1_000_000
    }

    /// The timestamp as a total count of microseconds.
    pub open spec fn spec_micros(self) -> int {
        self.tv_sec * 1_000_000 + self.tv_usec
    }
}

/// Timestamp ordering by total microseconds.
pub open spec fn time_le(a: TimeVal, b: TimeVal) -> bool {
    a.spec_micros() <= b.spec_micros()
}

/// The elapsed microseconds from `older` to `newer`.
pub fn timeval_diff(newer: &TimeVal, older: &TimeVal) -> (r: u64)
    requires
        newer.well_formed(),
        older.well_formed(),
        time_le(*older, *newer),
        newer.spec_micros() - older.spec_micros() <= u64::MAX,
    ensures
        r == newer.spec_micros() - older.spec_micros(),
{
    let secs = newer.tv_sec - older.tv_sec;
    let usecs = newer.tv_usec - older.tv_usec;

    let (secs, usecs): (i64, i64) = if usecs < 0 {
        (secs - 1, usecs + 1_000_000)
    } else {
        (secs, usecs)
    };

    (secs as u64) * 1_000_000 + (usecs as u64)
}

/// The phase of a key event, as carried in the event's value field.
#[derive(Clone, Copy, Debug, PartialEq, Eq, Structural)]
pub enum KeyEventType {
    Release,
    Press,
    Repeat,
    Unknown(i32),
}

impl KeyEventType {
    /// The phase denoted by an event value.
    pub open spec fn spec_from_value(value: i32) -> KeyEventType {
        if value == 0 {
            KeyEventType::Release
        } else if value == 1 {
            KeyEventType::Press
        } else if value == 2 {
            KeyEventType::Repeat
        } else {
            KeyEventType::Unknown(value)
        }
    }

    /// Decodes an event value into its phase.
    pub fn from_value(value: i32) -> (r: Self)
        ensures
            r == Self::spec_from_value(value),
    {
        match value {
            0 => KeyEventType::Release,
            1 => KeyEventType::Press,
            2 => KeyEventType::Repeat,
            _ => KeyEventType::Unknown(value),
        }
    }

    /// The event value denoting this phase.
    pub open spec fn spec_value(self) -> i32 {
        match self {
            KeyEventType::Release => 0,
            KeyEventType::Press => 1,
            KeyEventType::Repeat => 2,
            KeyEventType::Unknown(n) => n,
        }
    }

    /// Encodes the phase as an event value.
    pub fn value(&self) -> (r: i32)
        ensures
            r == self.spec_value(),
    {
        match self {
            Self::Release => 0,
            Self::Press => 1,
            Self::Repeat => 2,
            Self::Unknown(n) => *n,
        }
    }
}

/// A key event on the wire: code, raw value (phase), and timestamp.
#[derive(Clone, Copy, Debug, PartialEq, Eq, Structural)]
pub struct KeyEvent {
    pub code: KeyCode,
    pub value: i32,
    pub time: TimeVal,
}

/// One event written to the virtual sink: a key event, or the sync event
/// that delimits an atomic group.
#[derive(Clone, Copy, Debug, PartialEq, Eq, Structural)]
pub enum Emitted {
    Key(KeyEvent),
    Sync(TimeVal),
}

/// The key event with the given code, phase and timestamp.
pub open spec fn spec_key_out(code: KeyCode, phase: KeyEventType, time: TimeVal) -> Emitted {
    Emitted::Key(KeyEvent { code, value: phase.spec_value(), time })
}

} // verus!
