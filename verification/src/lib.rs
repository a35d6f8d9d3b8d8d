//! An interactive picker for a filesystem-backed secret store.
//!
//! The verified core is the navigation state machine: a two-level view model
//! (a flat list of secret identifiers, with an optional key/value drill-down),
//! an incremental substring filter over sorted identifiers, a pure mapping
//! from key presses to intents, and a line-oriented key/value parser that
//! classifies retrieved plaintext. Enumerating the store, decrypting a
//! secret and delivering the final value to the clipboard are I/O and live
//! outside this library.

pub mod entries;
pub mod keymap;
pub mod order;
pub mod parse;
pub mod state;
pub mod text;
