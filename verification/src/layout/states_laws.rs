//! What becomes of the list of states, told state by state.
//!
//! Each law here speaks of the states themselves: of their variants, their fields
//! and their places in the list.
use crate::key_code::KeyCode;
use crate::layout::sequence;
use crate::layout::sequence_laws;
use crate::layout::state;
use crate::layout::states;
use crate::layout::{CustomEvent, Event, LayoutView, SavedKeyCodeState, Stacked, State};
use vstd::prelude::*;
use vstd::std_specs::cmp::PartialEqSpec;
use vstd::std_specs::convert::{FromSpec, TryFromSpec};

verus! {

/// A key code is equal to itself and to no other.
pub proof fn law_key_codes_are_equal_to_themselves_only(one: KeyCode, other: KeyCode)
    ensures
        KeyCode::obeys_eq_spec(),
        one.eq_spec(&other) <==> one == other,
{
}

/// What the states of the four kinds report, activate and belong to, and what
/// they become when they are saved.
pub proof fn law_kinds_of_states<T: 'static, K: 'static + Copy>(
    keycode: K,
    layer: usize,
    value: T,
    coord: (u8, u8),
    other: (u8, u8),
)
    ensures
        ({
            let s = State::<T, K>::NormalKey { keycode, coord };
            &&& s.keycode_spec() == Some(keycode)
            &&& s.layer_spec() == None::<usize>
            &&& s.coord_spec() == Some(coord)
            &&& s.release_event(other) == CustomEvent::<T>::NoEvent
            &&& state::saved_form(s) == Ok::<SavedKeyCodeState<K>, &'static str>(
                SavedKeyCodeState::NormalKey { keycode, coord },
            )
            &&& (SavedKeyCodeState::NormalKey { keycode, coord }).state::<T>() == s
        }),
        ({
            let s = State::<T, K>::FakeKey { keycode };
            &&& s.keycode_spec() == Some(keycode)
            &&& s.layer_spec() == None::<usize>
            &&& s.coord_spec() == None::<(u8, u8)>
            &&& s.release_event(other) == CustomEvent::<T>::NoEvent
            &&& state::saved_form(s) == Ok::<SavedKeyCodeState<K>, &'static str>(
                SavedKeyCodeState::FakeKey { keycode },
            )
            &&& (SavedKeyCodeState::FakeKey { keycode }).state::<T>() == s
        }),
        ({
            let s = State::<T, K>::LayerModifier { value: layer, coord };
            &&& s.keycode_spec() == None::<K>
            &&& s.layer_spec() == Some(layer)
            &&& s.coord_spec() == Some(coord)
            &&& s.release_event(other) == CustomEvent::<T>::NoEvent
            &&& state::saved_form(s) is Err
        }),
        ({
            let s = State::<T, K>::Custom { value: &value, coord };
            &&& s.keycode_spec() == None::<K>
            &&& s.layer_spec() == None::<usize>
            &&& s.coord_spec() == Some(coord)
            &&& s.release_event(coord) == CustomEvent::Release(&value)
            &&& other != coord ==> s.release_event(other) == CustomEvent::<T>::NoEvent
            &&& state::saved_form(s) is Err
        }),
{
}

/// The conversions: an event becomes one that has not been stacked for any time, a
/// saved state becomes the state that was saved, and the states that can be saved
/// are those of the two kinds of keys.
pub proof fn law_conversions<T: 'static, K: 'static + Copy>(
    event: Event,
    keycode: K,
    layer: usize,
    value: T,
    coord: (u8, u8),
)
    ensures
        Stacked::from_spec(event) == (Stacked { event, since: 0 }),
        State::<T, K>::from_spec(SavedKeyCodeState::NormalKey { keycode, coord }) == (State::<
            T,
            K,
        >::NormalKey { keycode, coord }),
        State::<T, K>::from_spec(SavedKeyCodeState::FakeKey { keycode }) == (State::<
            T,
            K,
        >::FakeKey { keycode }),
        ({
            let key = SavedKeyCodeState::<K>::try_from_spec(
                State::<T, K>::NormalKey { keycode, coord },
            );
            let fake = SavedKeyCodeState::<K>::try_from_spec(State::<T, K>::FakeKey { keycode });
            let layers = SavedKeyCodeState::<K>::try_from_spec(
                State::<T, K>::LayerModifier { value: layer, coord },
            );
            let custom = SavedKeyCodeState::<K>::try_from_spec(
                State::<T, K>::Custom { value: &value, coord },
            );
            &&& key matches Ok(saved) && saved == (SavedKeyCodeState::NormalKey { keycode, coord })
            &&& fake matches Ok(saved) && saved == (SavedKeyCodeState::FakeKey { keycode })
            &&& layers matches Err(message) && message@
                == "Unsupported State conversion to SavedKeyCodeState"@
            &&& custom matches Err(message) && message@
                == "Unsupported State conversion to SavedKeyCodeState"@
        }),
{
}

/// The fake keys with a key code are those whose key code is equal to it.
pub proof fn law_fake_keys<T: 'static, K: 'static + Copy + Eq>(
    keycode: K,
    layer: usize,
    value: T,
    coord: (u8, u8),
    kc: K,
)
    ensures
        (State::<T, K>::FakeKey { keycode }).is_fake(kc) == keycode.eq_spec(&kc),
        !(State::<T, K>::NormalKey { keycode, coord }).is_fake(kc),
        !(State::<T, K>::LayerModifier { value: layer, coord }).is_fake(kc),
        !(State::<T, K>::Custom { value: &value, coord }).is_fake(kc),
{
}

/// There is room for 64 states: one more goes to the end of the list, and is left
/// out when the list is full.
pub proof fn law_room_for_states<T: 'static, K: 'static + Copy>(
    s: Seq<State<T, K>>,
    state: State<T, K>,
)
    ensures
        s.len() < 64 ==> states::pushed(s, state) == s.push(state),
        s.len() >= 64 ==> states::pushed(s, state) == s,
{
}

/// How many of `n` states there is room for.
pub open spec fn room_for(len: nat, n: nat) -> nat {
    if len >= 64 {
        0
    } else if len + n <= 64 {
        n
    } else {
        (64 - len) as nat
    }
}

/// The key codes of a key become one state each, in order and after the states
/// that there were, as far as there is room for them.
pub proof fn law_several_keycodes<T: 'static, K: 'static + Copy>(
    s: Seq<State<T, K>>,
    keycodes: Seq<K>,
    coord: (u8, u8),
)
    ensures
        ({
            let after = states::pushed_keys(s, keycodes, coord);
            let n = room_for(s.len(), keycodes.len());
            &&& after.len() == s.len() + n
            &&& forall|i: int| 0 <= i < s.len() ==> (#[trigger] after[i]) == s[i]
            &&& forall|i: int|
                0 <= i < n ==> #[trigger] after[s.len() + i] == (State::<T, K>::NormalKey {
                    keycode: keycodes[i],
                    coord,
                })
        }),
    decreases keycodes.len(),
{
    if keycodes.len() > 0 {
        let first = keycodes.drop_last();
        law_several_keycodes(s, first, coord);
        let before = states::pushed_keys(s, first, coord);
        let after = states::pushed_keys(s, keycodes, coord);
        let n = room_for(s.len(), keycodes.len());
        assert forall|i: int| 0 <= i < n implies #[trigger] after[s.len() + i] == (State::<
            T,
            K,
        >::NormalKey { keycode: keycodes[i], coord }) by {
            if i < first.len() {
                assert(before[s.len() + i] == (State::<T, K>::NormalKey {
                    keycode: first[i],
                    coord,
                }));
            }
        }
    }
}

/// What was saved becomes one state each, in order and after the states that there
/// are, as far as there is room for them.
pub proof fn law_restored_states<T: 'static, K: 'static + Copy>(
    s: Seq<State<T, K>>,
    saved: Seq<SavedKeyCodeState<K>>,
)
    ensures
        ({
            let after = states::restored(s, saved);
            let n = room_for(s.len(), saved.len());
            &&& after.len() == s.len() + n
            &&& forall|i: int| 0 <= i < s.len() ==> (#[trigger] after[i]) == s[i]
            &&& forall|i: int|
                0 <= i < n ==> #[trigger] after[s.len() + i] == match saved[i] {
                    SavedKeyCodeState::NormalKey { keycode, coord } => State::<T, K>::NormalKey {
                        keycode,
                        coord,
                    },
                    SavedKeyCodeState::FakeKey { keycode } => State::FakeKey { keycode },
                }
        }),
    decreases saved.len(),
{
    if saved.len() > 0 {
        let first = saved.drop_last();
        law_restored_states(s, first);
        let before = states::restored(s, first);
        let after = states::restored(s, saved);
        let n = room_for(s.len(), saved.len());
        assert forall|i: int| 0 <= i < n implies #[trigger] after[s.len() + i] == (match saved[i] {
            SavedKeyCodeState::NormalKey { keycode, coord } => State::<T, K>::NormalKey {
                keycode,
                coord,
            },
            SavedKeyCodeState::FakeKey { keycode } => State::FakeKey { keycode },
        }) by {
            if i < first.len() {
                assert(first[i] == saved[i]);
                assert(before[s.len() + i] == after[s.len() + i]);
            }
        }
    }
}

/// The report is made up state by state, in order: the key of a normal or of a
/// fake key adds its key code, a layer or a custom action adds nothing.
pub proof fn law_reports<T: 'static, K: 'static + Copy>(
    s: Seq<State<T, K>>,
    keycode: K,
    layer: usize,
    value: T,
    coord: (u8, u8),
)
    ensures
        states::keycodes_of(Seq::<State<T, K>>::empty()) == Seq::<K>::empty(),
        states::keycodes_of(s.push(State::NormalKey { keycode, coord })) == states::keycodes_of(
            s,
        ).push(keycode),
        states::keycodes_of(s.push(State::FakeKey { keycode })) == states::keycodes_of(s).push(
            keycode,
        ),
        states::keycodes_of(s.push(State::LayerModifier { value: layer, coord }))
            == states::keycodes_of(s),
        states::keycodes_of(s.push(State::Custom { value: &value, coord }))
            == states::keycodes_of(s),
{
    assert(s.push(State::NormalKey { keycode, coord }).drop_last() =~= s);
    assert(s.push(State::FakeKey { keycode }).drop_last() =~= s);
    assert(s.push(State::LayerModifier { value: layer, coord }).drop_last() =~= s);
    assert(s.push(State::Custom { value: &value, coord }).drop_last() =~= s);
}

/// The active layers are those of the layer states, in order.
pub proof fn law_active_layers<T: 'static, K: 'static + Copy>(
    s: Seq<State<T, K>>,
    keycode: K,
    layer: usize,
    value: T,
    coord: (u8, u8),
)
    ensures
        states::layers_of(Seq::<State<T, K>>::empty()) == Seq::<usize>::empty(),
        states::layers_of(s.push(State::NormalKey { keycode, coord })) == states::layers_of(s),
        states::layers_of(s.push(State::FakeKey { keycode })) == states::layers_of(s),
        states::layers_of(s.push(State::LayerModifier { value: layer, coord }))
            == states::layers_of(s).push(layer),
        states::layers_of(s.push(State::Custom { value: &value, coord })) == states::layers_of(s),
{
    assert(s.push(State::NormalKey { keycode, coord }).drop_last() =~= s);
    assert(s.push(State::FakeKey { keycode }).drop_last() =~= s);
    assert(s.push(State::LayerModifier { value: layer, coord }).drop_last() =~= s);
    assert(s.push(State::Custom { value: &value, coord }).drop_last() =~= s);
}

/// Whether the state was put there by the key at `coord`.
pub open spec fn comes_from<T: 'static, K: 'static + Copy>(
    state: State<T, K>,
    coord: (u8, u8),
) -> bool {
    ||| state matches State::NormalKey { coord: c, .. } && c == coord
    ||| state matches State::LayerModifier { coord: c, .. } && c == coord
    ||| state matches State::Custom { coord: c, .. } && c == coord
}

/// Whether the state is a fake key whose key code is equal to this one.
pub open spec fn fakes<T: 'static, K: 'static + Copy + Eq>(state: State<T, K>, kc: K) -> bool {
    state matches State::FakeKey { keycode } && keycode.eq_spec(&kc)
}

/// Whether the state is a fake key whose key code is equal to that of one of the
/// fake keys of the list.
pub open spec fn fakes_like_one_of<T: 'static, K: 'static + Copy + Eq>(
    state: State<T, K>,
    s: Seq<State<T, K>>,
) -> bool {
    exists|i: int|
        0 <= i < s.len() && (#[trigger] s[i] matches State::FakeKey { keycode } && fakes(
            state,
            keycode,
        ))
}

/// Whether the state reports a key code to which one of the list is equal.
pub open spec fn has_keycode_of<T: 'static, K: 'static + Copy + Eq>(
    state: State<T, K>,
    keycodes: Seq<K>,
) -> bool {
    exists|i: int|
        0 <= i < keycodes.len() && match state {
            State::NormalKey { keycode, .. } => (#[trigger] keycodes[i]).eq_spec(&keycode),
            State::FakeKey { keycode } => keycodes[i].eq_spec(&keycode),
            _ => false,
        }
}

/// Releasing a key takes out the states that come from it, a sequence that releases
/// a key code takes out the fake keys with an equal one, completing a sequence takes
/// out the fake keys that are equal to one of the list, and filtering key codes
/// takes out the states that report one of them. All other states stay, in order.
pub proof fn law_what_is_taken_out<T: 'static, K: 'static + Copy + Eq>(
    s: Seq<State<T, K>>,
    coord: (u8, u8),
    kc: K,
    keycodes: Seq<K>,
)
    ensures
        states::without_key(s, coord) == s.filter(|x: State<T, K>| !comes_from(x, coord)),
        states::without_fake(s, kc) == s.filter(|x: State<T, K>| !fakes(x, kc)),
        states::without_fakes(s) == s.filter(|x: State<T, K>| !fakes_like_one_of(x, s)),
        states::without_keycodes(s, keycodes) == s.filter(
            |x: State<T, K>| !has_keycode_of(x, keycodes),
        ),
{
    sequence_laws::lemma_filter_same(
        s,
        |x: State<T, K>| x.coord_spec() != Some(coord),
        |x: State<T, K>| !comes_from(x, coord),
    );
    sequence_laws::lemma_filter_same(s, |x: State<T, K>| !x.is_fake(kc), |x: State<T, K>| !fakes(x, kc));
    let among = |x: State<T, K>| !states::fake_among(x, s);
    let like = |x: State<T, K>| !fakes_like_one_of(x, s);
    assert forall|i: int| 0 <= i < s.len() implies among(#[trigger] s[i]) == like(s[i]) by {
        let x = s[i];
        if states::fake_among(x, s) {
            let j = choose|j: int|
                0 <= j < s.len() && match #[trigger] s[j] {
                    State::FakeKey { keycode } => x.is_fake(keycode),
                    _ => false,
                };
            assert(s[j] matches State::FakeKey { keycode } && fakes(x, keycode));
        }
        if fakes_like_one_of(x, s) {
            let j = choose|j: int|
                0 <= j < s.len() && (#[trigger] s[j] matches State::FakeKey { keycode } && fakes(
                    x,
                    keycode,
                ));
            assert(match s[j] {
                State::FakeKey { keycode } => x.is_fake(keycode),
                _ => false,
            });
        }
    }
    sequence_laws::lemma_filter_same(s, among, like);
    let reporting = |x: State<T, K>| !states::reports_one_of(x, keycodes);
    let having = |x: State<T, K>| !has_keycode_of(x, keycodes);
    assert forall|i: int| 0 <= i < s.len() implies reporting(#[trigger] s[i]) == having(s[i]) by {
        lemma_has_keycode_of(s[i], keycodes);
    }
    sequence_laws::lemma_filter_same(s, reporting, having);
}

proof fn lemma_has_keycode_of<T: 'static, K: 'static + Copy + Eq>(
    state: State<T, K>,
    keycodes: Seq<K>,
)
    ensures
        states::reports_one_of(state, keycodes) == has_keycode_of(state, keycodes),
{
    if states::reports_one_of(state, keycodes) {
        let kc = state.keycode_spec()->0;
        let i = choose|i: int|
            0 <= i < keycodes.len() && (#[trigger] keycodes[i]).eq_spec(&kc);
        assert(keycodes[i].eq_spec(&kc));
    }
    if has_keycode_of(state, keycodes) {
        let i = choose|i: int|
            0 <= i < keycodes.len() && match state {
                State::NormalKey { keycode, .. } => (#[trigger] keycodes[i]).eq_spec(&keycode),
                State::FakeKey { keycode } => keycodes[i].eq_spec(&keycode),
                _ => false,
            };
        let kc = state.keycode_spec()->0;
        assert(keycodes[i].eq_spec(&kc));
    }
}

/// Filtering saves the states that it takes out, in order, as far as there is room
/// for 64: state by state, one that is taken out is saved after those before it.
pub proof fn law_what_is_saved<T: 'static, K: 'static + Copy + Eq>(
    saved: Seq<SavedKeyCodeState<K>>,
    s: Seq<State<T, K>>,
    state: State<T, K>,
    keycodes: Seq<K>,
)
    ensures
        sequence::saved_from(saved, Seq::<State<T, K>>::empty(), keycodes) == saved,
        ({
            let before = sequence::saved_from(saved, s, keycodes);
            sequence::saved_from(saved, s.push(state), keycodes) == match state {
                State::NormalKey { keycode, coord } => if has_keycode_of(state, keycodes)
                    && before.len() < 64 {
                    before.push(SavedKeyCodeState::NormalKey { keycode, coord })
                } else {
                    before
                },
                State::FakeKey { keycode } => if has_keycode_of(state, keycodes) && before.len()
                    < 64 {
                    before.push(SavedKeyCodeState::FakeKey { keycode })
                } else {
                    before
                },
                _ => before,
            }
        }),
{
    assert(s.push(state).drop_last() =~= s);
    lemma_has_keycode_of(state, keycodes);
}

/// Whether the state at `i` is the first custom action of the key at `coord`.
pub open spec fn first_custom_of<T: 'static, K: 'static + Copy>(
    s: Seq<State<T, K>>,
    i: int,
    coord: (u8, u8),
) -> bool {
    &&& 0 <= i < s.len()
    &&& s[i] matches State::Custom { coord: c, .. } && c == coord
    &&& forall|j: int|
        0 <= j < i ==> !(#[trigger] s[j] matches State::Custom { coord: c, .. } && c == coord)
}

proof fn lemma_released_event<T: 'static, K: 'static + Copy>(
    s: Seq<State<T, K>>,
    coord: (u8, u8),
)
    ensures
        forall|i: int| #[trigger]
            first_custom_of(s, i, coord) ==> (s[i] matches State::Custom { value, .. }
                ==> states::released_event(s, coord) == CustomEvent::Release(value)),
        (forall|i: int| !#[trigger] first_custom_of(s, i, coord)) ==> states::released_event(
            s,
            coord,
        ) == CustomEvent::<T>::NoEvent,
    decreases s.len(),
{
    if s.len() > 0 {
        let first = s.drop_last();
        lemma_released_event(first, coord);
        let last = s.len() - 1;
        assert forall|i: int| #[trigger] first_custom_of(s, i, coord) implies (
        s[i] matches State::Custom { value, .. } ==> states::released_event(s, coord)
            == CustomEvent::Release(value)) by {
            if i < last {
                assert forall|j: int| 0 <= j < i implies !(
                #[trigger] first[j] matches State::Custom { coord: c, .. } && c == coord) by {
                    assert(s[j] == first[j]);
                }
                assert(first_custom_of(first, i, coord));
            } else {
                assert forall|j: int| !#[trigger] first_custom_of(first, j, coord) by {
                    if 0 <= j < first.len() {
                        assert(first[j] == s[j]);
                    }
                }
            }
        }
        if forall|i: int| !#[trigger] first_custom_of(s, i, coord) {
            assert forall|i: int| !#[trigger] first_custom_of(first, i, coord) by {
                if first_custom_of(first, i, coord) {
                    assert forall|j: int| 0 <= j < i implies !(
                    #[trigger] s[j] matches State::Custom { coord: c, .. } && c == coord) by {
                        assert(s[j] == first[j]);
                    }
                    assert(first_custom_of(s, i, coord));
                }
            }
            assert(!(s[last] matches State::Custom { coord: c, .. } && c == coord)) by {
                lemma_no_custom(first, coord);
                if s[last] matches State::Custom { coord: c, .. } && c == coord {
                    assert forall|j: int| 0 <= j < last implies !(
                    #[trigger] s[j] matches State::Custom { coord: c, .. } && c == coord) by {
                        assert(s[j] == first[j]);
                    }
                    assert(first_custom_of(s, last, coord));
                }
            }
        }
    }
}

/// A list without a first custom action of a key has none at all.
proof fn lemma_no_custom<T: 'static, K: 'static + Copy>(s: Seq<State<T, K>>, coord: (u8, u8))
    requires
        forall|i: int| !#[trigger] first_custom_of(s, i, coord),
    ensures
        forall|j: int|
            0 <= j < s.len() ==> !(#[trigger] s[j] matches State::Custom { coord: c, .. } && c
                == coord),
    decreases s.len(),
{
    if s.len() > 0 {
        let first = s.drop_last();
        assert forall|i: int| !#[trigger] first_custom_of(first, i, coord) by {
            if first_custom_of(first, i, coord) {
                assert forall|j: int| 0 <= j < i implies !(
                #[trigger] s[j] matches State::Custom { coord: c, .. } && c == coord) by {
                    assert(s[j] == first[j]);
                }
                assert(first_custom_of(s, i, coord));
            }
        }
        lemma_no_custom(first, coord);
        assert forall|j: int| 0 <= j < s.len() implies !(
        #[trigger] s[j] matches State::Custom { coord: c, .. } && c == coord) by {
            if j < first.len() {
                assert(s[j] == first[j]);
            } else {
                assert forall|x: int| 0 <= x < j implies !(
                #[trigger] s[x] matches State::Custom { coord: c, .. } && c == coord) by {
                    assert(s[x] == first[x]);
                }
                if s[j] matches State::Custom { coord: c, .. } && c == coord {
                    assert(first_custom_of(s, j, coord));
                }
            }
        }
    }
}

/// Releasing a key reports the release of its first custom action, whatever other
/// states come before or after it, and nothing if it has no custom action. It takes
/// out the states of the key and changes nothing else. It can always be done.
pub proof fn law_releases<T: 'static, K: 'static + Copy + Eq>(
    m: LayoutView<T, K>,
    i: u8,
    j: u8,
    since: u16,
)
    ensures
        ({
            let o = m.unstack(Stacked { event: Event::Release(i, j), since });
            &&& o.ok
            &&& forall|x: int| #[trigger]
                first_custom_of(m.states, x, (i, j)) ==> (
                m.states[x] matches State::Custom { value, .. } ==> o.event
                    == CustomEvent::Release(value))
            &&& (forall|x: int|
                0 <= x < m.states.len() ==> !(#[trigger] m.states[x] matches State::Custom {
                    coord: c,
                    ..
                } && c == (i, j))) ==> o.event == CustomEvent::<T>::NoEvent
            &&& o.layout == (LayoutView {
                states: m.states.filter(|x: State<T, K>| !comes_from(x, (i, j))),
                ..m
            })
        }),
{
    lemma_released_event(m.states, (i, j));
    sequence_laws::lemma_filter_same(
        m.states,
        |x: State<T, K>| x.coord_spec() != Some((i, j)),
        |x: State<T, K>| !comes_from(x, (i, j)),
    );
    if forall|x: int|
        0 <= x < m.states.len() ==> !(#[trigger] m.states[x] matches State::Custom {
            coord: c,
            ..
        } && c == (i, j)) {
        assert forall|x: int| !#[trigger] first_custom_of(m.states, x, (i, j)) by {
            if 0 <= x < m.states.len() {
                let s = m.states[x];
            }
        }
    }
}

/// Two keys that have the same custom actions in the same order report the same when
/// they are released: states of other keys have no influence on it.
pub proof fn law_other_keys_do_not_matter_to_a_release<T: 'static, K: 'static + Copy>(
    s: Seq<State<T, K>>,
    state: State<T, K>,
    coord: (u8, u8),
)
    requires
        !comes_from(state, coord),
    ensures
        states::released_event(s.push(state), coord) == states::released_event(s, coord),
{
    assert(s.push(state).drop_last() =~= s);
}

} // verus!
