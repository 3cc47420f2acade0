//! The states that pressed keys put a layout in.
use crate::layout::CustomEvent;
use vstd::prelude::*;
use vstd::std_specs::cmp::PartialEqSpec;
use vstd::std_specs::convert::{FromSpecImpl, TryFromSpecImpl};

verus! {

/// Something that is active in a layout.
#[allow(inconsistent_fields)]
#[derive(Debug, Eq, PartialEq)]
pub enum State<T: 'static, K: 'static + Copy> {
    /// A key code, for as long as the key is pressed.
    NormalKey {
        /// The key code.
        keycode: K,
        /// The key.
        coord: (u8, u8),
    },
    /// A layer, for as long as the key is pressed.
    LayerModifier {
        /// The layer.
        value: usize,
        /// The key.
        coord: (u8, u8),
    },
    /// A custom action, for as long as the key is pressed.
    Custom {
        /// The value of the action.
        value: &'static T,
        /// The key.
        coord: (u8, u8),
    },
    /// Fake key event for sequences
    FakeKey {
        /// The key code.
        keycode: K,
    },
}

impl<T: 'static, K: 'static + Copy> Copy for State<T, K> {

}

impl<T: 'static, K: 'static + Copy> Clone for State<T, K> {
    fn clone(&self) -> (state: Self)
        ensures
            state == *self,
    {
        *self
    }
}

impl<T: 'static, K: 'static + Copy> State<T, K> {
    /// The key code that the state reports, if it reports one.
    pub open spec fn keycode_spec(self) -> Option<K> {
        match self {
            State::NormalKey { keycode, .. } => Some(keycode),
            State::FakeKey { keycode } => Some(keycode),
            _ => None,
        }
    }

    /// The layer that the state activates, if it activates one.
    pub open spec fn layer_spec(self) -> Option<usize> {
        match self {
            State::LayerModifier { value, .. } => Some(value),
            _ => None,
        }
    }

    /// The key that the state comes from, if it comes from a key.
    pub open spec fn coord_spec(self) -> Option<(u8, u8)> {
        match self {
            State::NormalKey { coord, .. } => Some(coord),
            State::LayerModifier { coord, .. } => Some(coord),
            State::Custom { coord, .. } => Some(coord),
            State::FakeKey { .. } => None,
        }
    }

    /// The custom event that releasing the key at `c` causes by this state.
    pub open spec fn release_event(self, c: (u8, u8)) -> CustomEvent<T> {
        match self {
            State::Custom { value, coord } => if coord == c {
                CustomEvent::Release(value)
            } else {
                CustomEvent::NoEvent
            },
            _ => CustomEvent::NoEvent,
        }
    }
}

impl<T: 'static, K: 'static + Copy + Eq> State<T, K> {
    /// Whether the state is a fake key with this key code.
    pub open spec fn is_fake(self, kc: K) -> bool {
        match self {
            State::FakeKey { keycode } => keycode.eq_spec(&kc),
            _ => false,
        }
    }

    /// Returns the key code that the state reports, if it reports one.
    pub fn keycode(&self) -> (keycode: Option<K>)
        ensures
            keycode == self.keycode_spec(),
    {
        match self {
            State::NormalKey { keycode, .. } => Some(*keycode),
            State::FakeKey { keycode } => Some(*keycode),
            _ => None,
        }
    }

    /// Lets one tick pass: every state lasts.
    pub fn tick(&self) -> (state: Option<Self>)
        ensures
            state == Some(*self),
    {
        Some(*self)
    }

    /// What is left of the state when the key at `c` is released. The release of
    /// a custom action is noted in `custom`.
    pub fn release(&self, c: (u8, u8), custom: &mut CustomEvent<T>) -> (state: Option<Self>)
        ensures
            state == (if self.coord_spec() == Some(c) {
                None
            } else {
                Some(*self)
            }),
            *final(custom) == old(custom).updated(self.release_event(c)),
    {
        match *self {
            State::NormalKey { coord, .. } => {
                if coord.0 == c.0 && coord.1 == c.1 {
                    None
                } else {
                    Some(*self)
                }
            },
            State::LayerModifier { coord, .. } => {
                if coord.0 == c.0 && coord.1 == c.1 {
                    None
                } else {
                    Some(*self)
                }
            },
            State::Custom { value, coord } => {
                if coord.0 == c.0 && coord.1 == c.1 {
                    custom.update(CustomEvent::Release(value));
                    None
                } else {
                    Some(*self)
                }
            },
            State::FakeKey { .. } => Some(*self),
        }
    }

    /// What is left of the state when a sequence releases `kc`: nothing of a fake
    /// key with that key code, all of any other.
    pub fn seq_release(&self, kc: K) -> (state: Option<Self>)
        requires
            K::obeys_eq_spec(),
        ensures
            state == (if self.is_fake(kc) {
                None
            } else {
                Some(*self)
            }),
    {
        match *self {
            State::FakeKey { keycode } => {
                if keycode == kc {
                    None
                } else {
                    Some(*self)
                }
            },
            _ => Some(*self),
        }
    }

    /// Returns the layer that the state activates, if it activates one.
    pub fn get_layer(&self) -> (layer: Option<usize>)
        ensures
            layer == self.layer_spec(),
    {
        match self {
            State::LayerModifier { value, .. } => Some(*value),
            _ => None,
        }
    }
}

/// Enum to save a state that represents a key pressed
#[derive(Debug)]
pub enum SavedKeyCodeState<K: 'static + Copy> {
    /// Key pressed
    NormalKey {
        /// The key code.
        keycode: K,
        /// The key.
        coord: (u8, u8),
    },
    /// Fake key event for sequences
    FakeKey {
        /// The key code.
        keycode: K,
    },
}

impl<K: 'static + Copy> Copy for SavedKeyCodeState<K> {

}

impl<K: 'static + Copy> Clone for SavedKeyCodeState<K> {
    fn clone(&self) -> (saved: Self)
        ensures
            saved == *self,
    {
        *self
    }
}

impl<K: 'static + Copy> SavedKeyCodeState<K> {
    /// The state that was saved.
    pub open spec fn state<T: 'static>(self) -> State<T, K> {
        match self {
            SavedKeyCodeState::NormalKey { keycode, coord } => State::NormalKey { keycode, coord },
            SavedKeyCodeState::FakeKey { keycode } => State::FakeKey { keycode },
        }
    }
}

impl<T: 'static, K: 'static + Copy> From<SavedKeyCodeState<K>> for State<T, K> {
    /// Converts a [`SavedKeyCodeState`] into a [`State`].
    fn from(saved: SavedKeyCodeState<K>) -> (state: Self) {
        match saved {
            SavedKeyCodeState::NormalKey { keycode, coord } => State::NormalKey { keycode, coord },
            SavedKeyCodeState::FakeKey { keycode } => State::FakeKey { keycode },
        }
    }
}

impl<T: 'static, K: 'static + Copy> FromSpecImpl<SavedKeyCodeState<K>> for State<T, K> {
    open spec fn obeys_from_spec() -> bool {
        true
    }

    open spec fn from_spec(saved: SavedKeyCodeState<K>) -> Self {
        saved.state()
    }
}

/// The saved form of a state that reports a key code; an error for any other.
pub open spec fn saved_form<T: 'static, K: 'static + Copy>(state: State<T, K>) -> Result<
    SavedKeyCodeState<K>,
    &'static str,
> {
    match state {
        State::NormalKey { keycode, coord } => Ok(SavedKeyCodeState::NormalKey { keycode, coord }),
        State::FakeKey { keycode } => Ok(SavedKeyCodeState::FakeKey { keycode }),
        _ => Err("Unsupported State conversion to SavedKeyCodeState"),
    }
}

impl<T: 'static, K: 'static + Copy> TryFrom<State<T, K>> for SavedKeyCodeState<K> {
    type Error = &'static str;

    /// Tries to convert a [`State`] into a [`SavedKeyCodeState`].
    fn try_from(state: State<T, K>) -> (saved: Result<Self, Self::Error>) {
        match state {
            State::NormalKey { keycode, coord } => Ok(
                SavedKeyCodeState::NormalKey { keycode, coord },
            ),
            State::FakeKey { keycode } => Ok(SavedKeyCodeState::FakeKey { keycode }),
            _ => Err("Unsupported State conversion to SavedKeyCodeState"),
        }
    }
}

impl<T: 'static, K: 'static + Copy> TryFromSpecImpl<State<T, K>> for SavedKeyCodeState<K> {
    open spec fn obeys_try_from_spec() -> bool {
        true
    }

    open spec fn try_from_spec(state: State<T, K>) -> Result<Self, Self::Error> {
        saved_form(state)
    }
}

/// Saving a state and turning the saved form back into a state gives the state
/// that was saved, and the other way round. The states that can be saved are
/// those that report a key code.
pub proof fn law_saving_keeps_the_state<T: 'static, K: 'static + Copy>(
    state: State<T, K>,
    saved: SavedKeyCodeState<K>,
)
    ensures
        saved_form(state) matches Ok(form) ==> form.state::<T>() == state,
        saved_form(saved.state::<T>()) == Ok::<SavedKeyCodeState<K>, &'static str>(saved),
        saved_form(state) is Ok <==> state.keycode_spec() is Some,
{
}

} // verus!
