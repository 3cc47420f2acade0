//! The list of all the states of a layout.
use crate::collections::BoundedVec;
use crate::layout::{CustomEvent, SavedKeyCodeState, State};
use vstd::prelude::*;
use vstd::std_specs::cmp::PartialEqSpec;

verus! {

/// How many states can be active at the same time.
pub const MAX_STATES: usize = 64;

/// The states of a layout, the oldest first.
pub(crate) type States<T, K> = BoundedVec<State<T, K>, MAX_STATES>;

/// The states with one more, which is left out if there is no room for it.
pub open spec fn pushed<T: 'static, K: 'static + Copy>(
    states: Seq<State<T, K>>,
    state: State<T, K>,
) -> Seq<State<T, K>> {
    if states.len() < MAX_STATES {
        states.push(state)
    } else {
        states
    }
}

/// The states with one more for each of the key codes of the key at `coord`, as
/// far as there is room for them.
pub open spec fn pushed_keys<T: 'static, K: 'static + Copy>(
    states: Seq<State<T, K>>,
    keycodes: Seq<K>,
    coord: (u8, u8),
) -> Seq<State<T, K>>
    decreases keycodes.len(),
{
    if keycodes.len() == 0 {
        states
    } else {
        pushed(
            pushed_keys(states, keycodes.drop_last(), coord),
            State::NormalKey { keycode: keycodes.last(), coord },
        )
    }
}

/// The states with the saved ones, as far as there is room for them.
pub open spec fn restored<T: 'static, K: 'static + Copy>(
    states: Seq<State<T, K>>,
    saved: Seq<SavedKeyCodeState<K>>,
) -> Seq<State<T, K>>
    decreases saved.len(),
{
    if saved.len() == 0 {
        states
    } else {
        pushed(restored(states, saved.drop_last()), saved.last().state())
    }
}

/// The key codes that the states report, in order.
pub open spec fn keycodes_of<T: 'static, K: 'static + Copy>(states: Seq<State<T, K>>) -> Seq<K> {
    states.filter_map(|s: State<T, K>| s.keycode_spec())
}

/// The layers that the states activate, in order.
pub open spec fn layers_of<T: 'static, K: 'static + Copy>(states: Seq<State<T, K>>) -> Seq<usize> {
    states.filter_map(|s: State<T, K>| s.layer_spec())
}

/// The states that are left when the key at `coord` is released: those that do
/// not come from it.
pub open spec fn without_key<T: 'static, K: 'static + Copy>(
    states: Seq<State<T, K>>,
    coord: (u8, u8),
) -> Seq<State<T, K>> {
    states.filter(|s: State<T, K>| s.coord_spec() != Some(coord))
}

/// The custom event of releasing the key at `coord`: the release of its first
/// custom action, if it has one.
pub open spec fn released_event<T: 'static, K: 'static + Copy>(
    states: Seq<State<T, K>>,
    coord: (u8, u8),
) -> CustomEvent<T>
    decreases states.len(),
{
    if states.len() == 0 {
        CustomEvent::NoEvent
    } else {
        released_event(states.drop_last(), coord).updated(states.last().release_event(coord))
    }
}

/// The states that are left when a sequence releases a key code: all but the
/// fake keys with that key code.
pub open spec fn without_fake<T: 'static, K: 'static + Copy + Eq>(
    states: Seq<State<T, K>>,
    kc: K,
) -> Seq<State<T, K>> {
    states.filter(|s: State<T, K>| !s.is_fake(kc))
}

/// Whether the state is a fake key with the key code of one of the fake keys.
pub open spec fn fake_among<T: 'static, K: 'static + Copy + Eq>(
    state: State<T, K>,
    states: Seq<State<T, K>>,
) -> bool {
    exists|i: int|
        0 <= i < states.len() && match #[trigger] states[i] {
            State::FakeKey { keycode } => state.is_fake(keycode),
            _ => false,
        }
}

/// The states that are left when a sequence is completed: all but those that
/// share their key code with a fake key and are fake keys themselves.
pub open spec fn without_fakes<T: 'static, K: 'static + Copy + Eq>(
    states: Seq<State<T, K>>,
) -> Seq<State<T, K>> {
    states.filter(|s: State<T, K>| !fake_among(s, states))
}

/// Whether a key code is among those of the list.
pub open spec fn key_among<K: 'static + Copy + Eq>(keycodes: Seq<K>, kc: K) -> bool {
    exists|i: int| 0 <= i < keycodes.len() && (#[trigger] keycodes[i]).eq_spec(&kc)
}

/// Whether the state reports one of the key codes.
pub open spec fn reports_one_of<T: 'static, K: 'static + Copy + Eq>(
    state: State<T, K>,
    keycodes: Seq<K>,
) -> bool {
    match state.keycode_spec() {
        Some(kc) => key_among(keycodes, kc),
        None => false,
    }
}

/// The states that do not report any of the key codes.
pub open spec fn without_keycodes<T: 'static, K: 'static + Copy + Eq>(
    states: Seq<State<T, K>>,
    keycodes: Seq<K>,
) -> Seq<State<T, K>> {
    states.filter(|s: State<T, K>| !reports_one_of(s, keycodes))
}

/// There are no more key codes than states.
pub(crate) proof fn lemma_keycodes_len<T: 'static, K: 'static + Copy>(states: Seq<State<T, K>>)
    ensures
        keycodes_of(states).len() <= states.len(),
    decreases states.len(),
{
    if states.len() > 0 {
        lemma_keycodes_len(states.drop_last());
    }
}

/// One more step of filtering a list from the front.
pub(crate) proof fn lemma_filter_step<A>(s: Seq<A>, p: spec_fn(A) -> bool, i: int)
    requires
        0 <= i < s.len(),
    ensures
        s.take(i + 1).filter(p) == if p(s[i]) {
            s.take(i).filter(p).push(s[i])
        } else {
            s.take(i).filter(p)
        },
        s.take(i).filter(p).len() <= i,
{
    reveal(Seq::filter);
    assert(s.take(i + 1).drop_last() == s.take(i));
    s.take(i).lemma_filter_len(p);
}

/// What is left when the key at `coord` is released. The release of a custom
/// action is noted in `custom`.
pub(crate) fn release_key<T: 'static, K: 'static + Copy + Eq>(
    states: &mut States<T, K>,
    coord: (u8, u8),
) -> (custom: CustomEvent<T>)
    requires
        old(states)@.len() <= MAX_STATES,
    ensures
        final(states)@ == without_key(old(states)@, coord),
        final(states)@.len() <= MAX_STATES,
        custom == released_event(old(states)@, coord),
{
    let mut custom = CustomEvent::NoEvent;
    let mut kept: States<T, K> = BoundedVec::new();
    let slice = states.as_slice();
    let ghost s = states@;
    let ghost keep = |s: State<T, K>| s.coord_spec() != Some(coord);
    assert(s.take(0).filter(keep) == Seq::<State<T, K>>::empty()) by {
        reveal(Seq::filter);
    }
    let mut i: usize = 0;
    while i < slice.len()
        invariant
            i <= slice@.len() <= MAX_STATES,
            slice@ == s,
            keep == (|s: State<T, K>| s.coord_spec() != Some(coord)),
            kept@ == s.take(i as int).filter(keep),
            custom == released_event(s.take(i as int), coord),
        decreases slice@.len() - i,
    {
        proof {
            lemma_filter_step(s, keep, i as int);
            assert(s.take(i + 1).drop_last() == s.take(i as int));
        }
        if let Some(state) = slice[i].release(coord, &mut custom) {
            let _ = kept.push(state);
        }
        i += 1;
    }
    assert(s.take(i as int) == s);
    proof {
        s.lemma_filter_len(keep);
    }
    *states = kept;
    custom
}

/// Lets one tick pass for every state.
pub(crate) fn tick_all<T: 'static, K: 'static + Copy + Eq>(states: &mut States<T, K>)
    requires
        old(states)@.len() <= MAX_STATES,
    ensures
        final(states)@ == old(states)@,
{
    let mut kept: States<T, K> = BoundedVec::new();
    let slice = states.as_slice();
    let ghost s = states@;
    let mut i: usize = 0;
    while i < slice.len()
        invariant
            i <= slice@.len() <= MAX_STATES,
            slice@ == s,
            kept@ == s.take(i as int),
        decreases slice@.len() - i,
    {
        if let Some(state) = slice[i].tick() {
            let _ = kept.push(state);
        }
        assert(s.take(i + 1) == s.take(i as int).push(s[i as int]));
        i += 1;
    }
    assert(s.take(i as int) == s);
    *states = kept;
}

/// What is left when a sequence releases a key code.
pub(crate) fn release_fake<T: 'static, K: 'static + Copy + Eq>(states: &mut States<T, K>, kc: K)
    requires
        old(states)@.len() <= MAX_STATES,
        K::obeys_eq_spec(),
    ensures
        final(states)@ == without_fake(old(states)@, kc),
        final(states)@.len() <= MAX_STATES,
{
    let mut kept: States<T, K> = BoundedVec::new();
    let slice = states.as_slice();
    let ghost s = states@;
    let ghost keep = |s: State<T, K>| !s.is_fake(kc);
    assert(s.take(0).filter(keep) == Seq::<State<T, K>>::empty()) by {
        reveal(Seq::filter);
    }
    let mut i: usize = 0;
    while i < slice.len()
        invariant
            i <= slice@.len() <= MAX_STATES,
            K::obeys_eq_spec(),
            slice@ == s,
            keep == (|s: State<T, K>| !s.is_fake(kc)),
            kept@ == s.take(i as int).filter(keep),
        decreases slice@.len() - i,
    {
        proof {
            lemma_filter_step(s, keep, i as int);
        }
        if let Some(state) = slice[i].seq_release(kc) {
            let _ = kept.push(state);
        }
        i += 1;
    }
    assert(s.take(i as int) == s);
    proof {
        s.lemma_filter_len(keep);
    }
    *states = kept;
}

/// Whether a sequence that releases the key codes of all the fake keys in the
/// list would release the state.
fn is_fake_among<T: 'static, K: 'static + Copy + Eq>(
    state: &State<T, K>,
    slice: &[State<T, K>],
) -> (among: bool)
    requires
        K::obeys_eq_spec(),
    ensures
        among == fake_among(*state, slice@),
{
    let mut i: usize = 0;
    while i < slice.len()
        invariant
            i <= slice@.len(),
            K::obeys_eq_spec(),
            forall|j: int|
                0 <= j < i ==> !(match #[trigger] slice@[j] {
                    State::FakeKey { keycode } => state.is_fake(keycode),
                    _ => false,
                }),
        decreases slice@.len() - i,
    {
        if let State::FakeKey { keycode } = slice[i] {
            if state.seq_release(keycode).is_none() {
                assert(match slice@[i as int] {
                    State::FakeKey { keycode } => state.is_fake(keycode),
                    _ => false,
                });
                return true;
            }
        }
        i += 1;
    }
    false
}

/// What is left when a sequence is completed.
pub(crate) fn release_fakes<T: 'static, K: 'static + Copy + Eq>(states: &mut States<T, K>)
    requires
        old(states)@.len() <= MAX_STATES,
        K::obeys_eq_spec(),
    ensures
        final(states)@ == without_fakes(old(states)@),
        final(states)@.len() <= MAX_STATES,
{
    let mut kept: States<T, K> = BoundedVec::new();
    let slice = states.as_slice();
    let ghost s = states@;
    let ghost keep = |x: State<T, K>| !fake_among(x, s);
    assert(s.take(0).filter(keep) == Seq::<State<T, K>>::empty()) by {
        reveal(Seq::filter);
    }
    let mut i: usize = 0;
    while i < slice.len()
        invariant
            i <= slice@.len() <= MAX_STATES,
            K::obeys_eq_spec(),
            slice@ == s,
            keep == (|x: State<T, K>| !fake_among(x, s)),
            kept@ == s.take(i as int).filter(keep),
        decreases slice@.len() - i,
    {
        proof {
            lemma_filter_step(s, keep, i as int);
        }
        if !is_fake_among(&slice[i], slice) {
            let _ = kept.push(slice[i]);
        }
        i += 1;
    }
    assert(s.take(i as int) == s);
    proof {
        s.lemma_filter_len(keep);
    }
    *states = kept;
}

/// Adds a state for each of the key codes of the key at `coord`, as far as there
/// is room for them.
pub(crate) fn push_keys<T: 'static, K: 'static + Copy + Eq>(
    states: &mut States<T, K>,
    keycodes: &[K],
    coord: (u8, u8),
)
    requires
        old(states)@.len() <= MAX_STATES,
    ensures
        final(states)@ == pushed_keys(old(states)@, keycodes@, coord),
        final(states)@.len() <= MAX_STATES,
{
    let ghost s = states@;
    let mut i: usize = 0;
    while i < keycodes.len()
        invariant
            i <= keycodes@.len(),
            states@.len() <= MAX_STATES,
            states@ == pushed_keys(s, keycodes@.take(i as int), coord),
        decreases keycodes@.len() - i,
    {
        assert(keycodes@.take(i + 1).drop_last() == keycodes@.take(i as int));
        let _ = states.push(State::NormalKey { keycode: keycodes[i], coord });
        i += 1;
    }
    assert(keycodes@.take(i as int) == keycodes@);
}

/// Whether the state reports one of the key codes.
pub(crate) fn is_reporting_one_of<T: 'static, K: 'static + Copy + Eq>(
    state: &State<T, K>,
    keycodes: &[K],
) -> (among: bool)
    requires
        K::obeys_eq_spec(),
    ensures
        among == reports_one_of(*state, keycodes@),
{
    match state.keycode() {
        Some(kc) => {
            let mut i: usize = 0;
            while i < keycodes.len()
                invariant
                    i <= keycodes@.len(),
                    K::obeys_eq_spec(),
                    state.keycode_spec() == Some(kc),
                    forall|j: int| 0 <= j < i ==> !(#[trigger] keycodes@[j]).eq_spec(&kc),
                decreases keycodes@.len() - i,
            {
                if keycodes[i] == kc {
                    assert(keycodes@[i as int].eq_spec(&kc));
                    return true;
                }
                i += 1;
            }
            false
        },
        None => false,
    }
}

/// Returns the key codes that the states report, in order.
pub(crate) fn collect_keycodes<T: 'static, K: 'static + Copy + Eq>(states: &States<T, K>) -> (keycodes:
    Vec<K>)
    ensures
        keycodes@ == keycodes_of(states@),
{
    let mut keycodes: Vec<K> = Vec::new();
    let slice = states.as_slice();
    let ghost f = |s: State<T, K>| s.keycode_spec();
    let mut i: usize = 0;
    while i < slice.len()
        invariant
            i <= slice@.len(),
            f == (|s: State<T, K>| s.keycode_spec()),
            keycodes@ == slice@.take(i as int).filter_map(f),
        decreases slice@.len() - i,
    {
        assert(slice@.take(i + 1).drop_last() == slice@.take(i as int));
        if let Some(keycode) = slice[i].keycode() {
            keycodes.push(keycode);
        }
        i += 1;
    }
    assert(slice@.take(i as int) == slice@);
    keycodes
}

/// Returns the layer that was activated last and the one before it, as far as
/// there are two.
pub(crate) fn last_two_layers<T: 'static, K: 'static + Copy + Eq>(states: &States<T, K>) -> (layers: (
    Option<usize>,
    Option<usize>,
))
    ensures
        layers == ({
            let all = layers_of(states@);
            (
                if all.len() > 0 {
                    Some(all[all.len() - 1])
                } else {
                    None
                },
                if all.len() > 1 {
                    Some(all[all.len() - 2])
                } else {
                    None
                },
            )
        }),
{
    let mut last: Option<usize> = None;
    let mut second_to_last: Option<usize> = None;
    let slice = states.as_slice();
    let ghost f = |s: State<T, K>| s.layer_spec();
    let mut i: usize = 0;
    while i < slice.len()
        invariant
            i <= slice@.len(),
            f == (|s: State<T, K>| s.layer_spec()),
            ({
                let seen = slice@.take(i as int).filter_map(f);
                &&& last == if seen.len() > 0 {
                    Some(seen[seen.len() - 1])
                } else {
                    None
                }
                &&& second_to_last == if seen.len() > 1 {
                    Some(seen[seen.len() - 2])
                } else {
                    None
                }
            }),
        decreases slice@.len() - i,
    {
        assert(slice@.take(i + 1).drop_last() == slice@.take(i as int));
        if let Some(layer) = slice[i].get_layer() {
            second_to_last = last;
            last = Some(layer);
        }
        i += 1;
    }
    assert(slice@.take(i as int) == slice@);
    (last, second_to_last)
}

} // verus!
