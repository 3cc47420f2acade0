//! The layout engine of a keyboard firmware.
//!
//! A [`layout::Layout`] turns presses and releases on the key matrix, and the
//! passing of time, into the key codes that the keyboard reports. It knows
//! layers, hold-tap keys, key sequences, tri-layers and custom actions.
pub mod action;
mod collections;
pub mod key_code;
pub mod layout;
mod slots;
