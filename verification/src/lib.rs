//! A verified core for a Linux key-event remapper.
//!
//! The library is the remapping engine: a state machine that consumes a
//! stream of key events (press / release / repeat with timestamps) together
//! with a static list of mapping rules, tracks the physically held keys,
//! projects the set of keys the virtual output device should report, and
//! emits the minimal diff of press / release events to reconcile the two.
//! Device discovery, device I/O and configuration-file parsing live outside
//! the library and hand it plain values.

pub mod engine;
pub mod event;
pub mod keycode;
pub mod keys;
pub mod keyset;
pub mod laws;
pub mod mapping;
