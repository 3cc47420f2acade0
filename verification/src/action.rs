//! The actions that can be given to the keys of a layout.
use crate::key_code::KeyCode;
use crate::layout::HoldTapHandler;
use vstd::prelude::*;

verus! {

/// One step of a key sequence.
#[derive(Debug, PartialEq, Eq)]
pub enum SequenceEvent<K: 'static> {
    /// Presses the key.
    Press(K),
    /// Releases the key.
    Release(K),
    /// Presses the key and releases it at the next tick.
    Tap(K),
    /// Waits for this number of ticks, the tick of the event included.
    Delay {
        /// The number of ticks.
        duration: u32,
    },
    /// Releases every key that a sequence holds and ends the sequence.
    Complete,
    /// Takes out the pressed keys that are among these, for a later `Restore`.
    Filter(&'static &'static [K]),
    /// Presses again the keys that the sequence has filtered.
    Restore,
}

impl<K: 'static + Copy> Copy for SequenceEvent<K> {

}

impl<K: 'static + Copy> Clone for SequenceEvent<K> {
    fn clone(&self) -> (event: Self)
        ensures
            event == *self,
    {
        *self
    }
}

/// How a hold-tap key chooses between its two actions.
#[derive(Copy, Clone)]
pub enum HoldTapConfig {
    /// Tap if the key is released before the timeout, hold otherwise.
    Default,
    /// As the default, but hold as soon as another key is pressed.
    HoldOnOtherKeyPress,
    /// As the default, but hold as soon as another key is pressed and released.
    PermissiveHold,
    /// As the default, but the handler is asked first at every tick.
    Custom(&'static dyn HoldTapHandler),
}

/// A key that does one thing when it is held and another when it is tapped.
pub struct HoldTapAction<T: 'static, K: 'static> {
    /// The number of ticks after which the key counts as held.
    pub timeout: u16,
    /// What holding does.
    pub hold: Action<T, K>,
    /// What tapping does.
    pub tap: Action<T, K>,
    /// How to choose between the two.
    pub config: HoldTapConfig,
    /// The number of ticks after a press within which pressing the same key once
    /// more is a tap at once. Zero turns this off.
    pub tap_hold_interval: u16,
}

/// What pressing a key does.
pub enum Action<T: 'static = core::convert::Infallible, K: 'static = KeyCode> {
    /// Nothing.
    NoOp,
    /// What the default layer has at the same place.
    Trans,
    /// Holds a key code.
    KeyCode(K),
    /// Holds several key codes.
    MultipleKeyCodes(&'static &'static [K]),
    /// Does several actions, one after the other.
    MultipleActions(&'static &'static [Action<T, K>]),
    /// Activates a layer for as long as the key is pressed.
    Layer(usize),
    /// Changes the default layer.
    DefaultLayer(usize),
    /// Starts a key sequence.
    Sequence(&'static &'static [SequenceEvent<K>]),
    /// Chooses between two actions by how long the key is pressed.
    HoldTap(&'static HoldTapAction<T, K>),
    /// Reports a value of the user's to the caller of `tick`.
    Custom(T),
}

/// Shorthand for `Action::KeyCode`.
pub fn k<T: 'static, K: 'static>(kc: K) -> (action: Action<T, K>)
    ensures
        action == Action::<T, K>::KeyCode(kc),
{
    Action::KeyCode(kc)
}

/// Shorthand for `Action::Layer`.
pub fn l<T: 'static, K: 'static>(layer: usize) -> (action: Action<T, K>)
    ensures
        action == Action::<T, K>::Layer(layer),
{
    Action::Layer(layer)
}

/// Shorthand for `Action::MultipleKeyCodes`.
pub fn m<T: 'static, K: 'static>(kcs: &'static &'static [K]) -> (action: Action<T, K>)
    ensures
        action == Action::<T, K>::MultipleKeyCodes(kcs),
{
    Action::MultipleKeyCodes(kcs)
}

} // verus!
