//! What holds of key sequences.
use crate::action::SequenceEvent;
use crate::layout::laws;
use crate::layout::sequence::{self, SequenceView};
use crate::layout::states::{self, MAX_STATES};
use crate::layout::{LayoutView, SavedKeyCodeState, State};
use vstd::prelude::*;
use vstd::std_specs::cmp::PartialEqSpec;

verus! {

/// Filtering twice is filtering once if the second filter is the finer one.
proof fn lemma_filter_twice<A>(s: Seq<A>, p: spec_fn(A) -> bool, q: spec_fn(A) -> bool)
    requires
        forall|i: int| 0 <= i < s.len() && q(#[trigger] s[i]) ==> p(s[i]),
    ensures
        s.filter(p).filter(q) == s.filter(q),
    decreases s.len(),
{
    reveal(Seq::filter);
    if s.len() > 0 {
        lemma_filter_twice(s.drop_last(), p, q);
        let last = s[s.len() - 1];
        if p(last) {
            assert(s.filter(p).drop_last() =~= s.drop_last().filter(p));
        }
    }
}

/// Filters that agree on a list give the same.
pub(crate) proof fn lemma_filter_same<A>(s: Seq<A>, p: spec_fn(A) -> bool, q: spec_fn(A) -> bool)
    requires
        forall|i: int| 0 <= i < s.len() ==> p(#[trigger] s[i]) == q(s[i]),
    ensures
        s.filter(p) == s.filter(q),
    decreases s.len(),
{
    reveal(Seq::filter);
    if s.len() > 0 {
        lemma_filter_same(s.drop_last(), p, q);
        assert(p(s[s.len() - 1]) == q(s[s.len() - 1]));
    }
}

/// A sequence that presses a key code reports it after all the others, as long as
/// there is room for it.
pub proof fn law_sequences_press_keys<T: 'static, K: 'static + Copy + Eq>(
    states: Seq<State<T, K>>,
    seq: SequenceView<K>,
    keycode: K,
)
    requires
        seq.delay == 0,
        seq.tapped is None,
        seq.remaining.len() > 0,
        seq.remaining[0] == SequenceEvent::Press(keycode) || seq.remaining[0]
            == SequenceEvent::Tap(keycode),
        states.len() < MAX_STATES,
    ensures
        states::keycodes_of(seq.stepped(states).0) == states::keycodes_of(states).push(keycode),
{
    let after = seq.stepped(states).0;
    assert(after.drop_last() =~= states);
}

/// A sequence that releases a key code undoes the press of that key code: what is
/// left is what releasing it without the press would have left. If the key code
/// was not held by a sequence before, nothing has changed.
pub proof fn law_sequence_release_undoes_press<T: 'static, K: 'static + Copy + Eq>(
    states: Seq<State<T, K>>,
    keycode: K,
)
    requires
        keycode.eq_spec(&keycode),
    ensures
        ({
            let pressed = states::pushed(states, State::FakeKey { keycode });
            &&& states::without_fake(pressed, keycode) == states::without_fake(states, keycode)
            &&& (forall|i: int| 0 <= i < states.len() ==> !(#[trigger] states[i]).is_fake(keycode))
                ==> states::without_fake(pressed, keycode) == states
        }),
{
    let keep = |s: State<T, K>| !s.is_fake(keycode);
    let pressed = states::pushed(states, State::FakeKey { keycode });
    assert(pressed.take(states.len() as int) =~= states);
    laws::lemma_filter_prefix(states, pressed, keep);
    if forall|i: int| 0 <= i < states.len() ==> !(#[trigger] states[i]).is_fake(keycode) {
        laws::lemma_filter_all(states, keep);
    }
}

/// A tapped key code is released at the next tick of the sequence, before anything
/// else of the sequence is played.
pub proof fn law_taps_last_one_tick<T: 'static, K: 'static + Copy + Eq>(
    states: Seq<State<T, K>>,
    seq: SequenceView<K>,
    keycode: K,
)
    requires
        seq.delay == 0,
        seq.tapped is None,
        seq.remaining.len() > 0,
        seq.remaining[0] == SequenceEvent::Tap(keycode),
        keycode.eq_spec(&keycode),
        forall|i: int| 0 <= i < states.len() ==> !(#[trigger] states[i]).is_fake(keycode),
    ensures
        ({
            let (pressed, tapping) = seq.stepped(states);
            let (released, tapped) = tapping.stepped(pressed);
            &&& tapping.ongoing()
            &&& released == states
            &&& tapped.remaining == seq.remaining.drop_first()
            &&& tapped.tapped is None
        }),
{
    law_sequence_release_undoes_press(states, keycode);
}

/// Completing a sequence releases every key code that a sequence holds, keeps
/// every other state in order, and ends the sequence.
pub proof fn law_complete_releases_all<T: 'static, K: 'static + Copy + Eq>(
    states: Seq<State<T, K>>,
    seq: SequenceView<K>,
)
    requires
        seq.delay == 0,
        seq.tapped is None,
        seq.remaining.len() > 0,
        seq.remaining[0] == SequenceEvent::<K>::Complete,
        forall|i: int|
            0 <= i < states.len() ==> (#[trigger] states[i] matches State::FakeKey { keycode }
                ==> keycode.eq_spec(&keycode)),
    ensures
        ({
            let (after, ended) = seq.stepped(states);
            &&& after == states.filter(|s: State<T, K>| !(s is FakeKey))
            &&& !ended.ongoing()
        }),
{
    let p = |s: State<T, K>| !states::fake_among(s, states);
    let q = |s: State<T, K>| !(s is FakeKey);
    assert forall|i: int| 0 <= i < states.len() implies p(#[trigger] states[i]) == q(states[i]) by {
        if let State::FakeKey { keycode } = states[i] {
            assert(states[i].is_fake(keycode));
        }
    }
    lemma_filter_same(states, p, q);
}

/// A tick of a sequence that neither filters nor restores keys touches only the key codes
/// that sequences hold: what is pressed stays pressed.
pub proof fn law_sequences_keep_pressed_keys<T: 'static, K: 'static + Copy + Eq>(
    states: Seq<State<T, K>>,
    seq: SequenceView<K>,
)
    requires
        seq.delay > 0 || seq.tapped is Some || !({
            ||| seq.next().cur_event matches Some(SequenceEvent::Filter(_))
            ||| seq.next().cur_event matches Some(SequenceEvent::Restore)
        }),
    ensures
        seq.stepped(states).0.filter(|s: State<T, K>| !(s is FakeKey)) == states.filter(
            |s: State<T, K>| !(s is FakeKey),
        ),
{
    let pressed_key = |s: State<T, K>| !(s is FakeKey);
    if seq.delay > 0 {
    } else if let Some(keycode) = seq.tapped {
        lemma_filter_twice(states, |s: State<T, K>| !s.is_fake(keycode), pressed_key);
    } else {
        match seq.next().cur_event {
            Some(SequenceEvent::Complete) => {
                lemma_filter_twice(
                    states,
                    |s: State<T, K>| !states::fake_among(s, states),
                    pressed_key,
                );
            },
            Some(SequenceEvent::Release(keycode)) => {
                lemma_filter_twice(states, |s: State<T, K>| !s.is_fake(keycode), pressed_key);
            },
            Some(SequenceEvent::Press(keycode)) => {
                let pressed = states::pushed(states, State::FakeKey { keycode });
                assert(pressed.take(states.len() as int) =~= states);
                laws::lemma_filter_prefix(states, pressed, pressed_key);
            },
            Some(SequenceEvent::Tap(keycode)) => {
                let pressed = states::pushed(states, State::FakeKey { keycode });
                assert(pressed.take(states.len() as int) =~= states);
                laws::lemma_filter_prefix(states, pressed, pressed_key);
            },
            _ => {},
        }
    }
}

/// The states and the sequence after a number of ticks.
pub open spec fn after_steps<T: 'static, K: 'static + Copy + Eq>(
    states: Seq<State<T, K>>,
    seq: SequenceView<K>,
    n: nat,
) -> (Seq<State<T, K>>, SequenceView<K>)
    decreases n,
{
    if n == 0 {
        (states, seq)
    } else {
        let (before, stepped) = after_steps(states, seq, (n - 1) as nat);
        stepped.stepped(before)
    }
}

/// A delay lasts for as many ticks as it says: during all of them the sequence
/// changes nothing, and after the last one it is at its next event.
pub proof fn law_delays_last<T: 'static, K: 'static + Copy + Eq>(
    states: Seq<State<T, K>>,
    seq: SequenceView<K>,
    duration: u32,
    n: nat,
)
    requires
        seq.delay == 0,
        seq.tapped is None,
        seq.remaining.len() > 0,
        seq.remaining[0] == (SequenceEvent::<K>::Delay { duration }),
        1 <= n <= duration,
    ensures
        after_steps(states, seq, n).0 == states,
        after_steps(states, seq, n).1 == (SequenceView {
            delay: (duration - n) as u32,
            ..seq.next()
        }),
    decreases n,
{
    reveal_with_fuel(after_steps, 2);
    if n > 1 {
        law_delays_last(states, seq, duration, (n - 1) as nat);
    }
}

/// The ticks that an event of a sequence takes.
pub open spec fn event_ticks<K: 'static>(event: SequenceEvent<K>) -> nat {
    match event {
        SequenceEvent::Tap(_) => 2,
        SequenceEvent::Delay { duration } => if duration > 0 {
            duration as nat
        } else {
            1
        },
        _ => 1,
    }
}

/// The ticks that several events of a sequence take.
pub open spec fn events_ticks<K: 'static>(events: Seq<SequenceEvent<K>>) -> nat
    decreases events.len(),
{
    if events.len() == 0 {
        0
    } else {
        event_ticks(events[0]) + events_ticks(events.drop_first())
    }
}

/// The ticks that a sequence takes until its last event is over, unless it is
/// completed before.
pub open spec fn ticks_left<K: 'static + Copy>(seq: SequenceView<K>) -> nat {
    seq.delay as nat + (if seq.tapped is Some {
        1nat
    } else {
        0nat
    }) + events_ticks(seq.remaining)
}

/// A sequence comes to its end: with every tick there is one tick less to go,
/// or less than that if the sequence is completed early. A sequence that goes on
/// has at least one tick to go.
pub proof fn law_sequences_come_to_an_end<T: 'static, K: 'static + Copy + Eq>(
    states: Seq<State<T, K>>,
    seq: SequenceView<K>,
)
    requires
        seq.ongoing(),
    ensures
        ticks_left(seq) > 0,
        ticks_left(seq.stepped(states).1) < ticks_left(seq),
        seq.delay > 0 || seq.tapped is Some || !(seq.remaining[0] is Complete) ==> ticks_left(
            seq.stepped(states).1,
        ) + 1 == ticks_left(seq),
{
}

/// The sequences that are kept are those that have to go on.
pub proof fn law_only_ongoing_sequences_are_kept<T: 'static, K: 'static + Copy + Eq>(
    states: Seq<State<T, K>>,
    sequences: Seq<SequenceView<K>>,
)
    ensures
        sequence::all_stepped(states, sequences).1.len() <= sequences.len(),
        forall|i: int|
            0 <= i < sequence::all_stepped(states, sequences).1.len() ==> (
            #[trigger] sequence::all_stepped(states, sequences).1[i]).ongoing(),
    decreases sequences.len(),
{
    if sequences.len() > 0 {
        law_only_ongoing_sequences_are_kept(states, sequences.drop_last());
        let (before, kept) = sequence::all_stepped(states, sequences.drop_last());
        let (after, last) = sequences.last().stepped(before);
        let all = sequence::all_stepped(states, sequences).1;
        assert(all == if last.ongoing() {
            kept.push(last)
        } else {
            kept
        });
        assert forall|i: int| 0 <= i < all.len() implies (#[trigger] all[i]).ongoing() by {
            if i < kept.len() {
                assert(all[i] == kept[i]);
            }
        }
    }
}

proof fn lemma_restored<T: 'static, K: 'static + Copy>(
    states: Seq<State<T, K>>,
    saved: Seq<SavedKeyCodeState<K>>,
)
    requires
        states.len() + saved.len() <= MAX_STATES,
    ensures
        states::restored(states, saved) == states + saved.map_values(
            |s: SavedKeyCodeState<K>| s.state::<T>(),
        ),
    decreases saved.len(),
{
    let f = |s: SavedKeyCodeState<K>| s.state::<T>();
    if saved.len() == 0 {
        assert(states + saved.map_values(f) =~= states);
    } else {
        lemma_restored(states, saved.drop_last());
        assert(states + saved.map_values(f) =~= (states + saved.drop_last().map_values(f)).push(
            saved.last().state::<T>(),
        ));
    }
}

proof fn lemma_saved_from<T: 'static, K: 'static + Copy + Eq>(
    states: Seq<State<T, K>>,
    keycodes: Seq<K>,
)
    requires
        states.len() <= MAX_STATES,
    ensures
        ({
            let saved = sequence::saved_from(Seq::empty(), states, keycodes);
            let taken = states.filter(|s: State<T, K>| states::reports_one_of(s, keycodes));
            saved.len() <= states.len() && saved.map_values(
                |s: SavedKeyCodeState<K>| s.state::<T>(),
            ) == taken
        }),
    decreases states.len(),
{
    reveal(Seq::filter);
    let f = |s: SavedKeyCodeState<K>| s.state::<T>();
    let p = |s: State<T, K>| states::reports_one_of(s, keycodes);
    let saved = sequence::saved_from(Seq::empty(), states, keycodes);
    if states.len() == 0 {
        assert(saved.map_values(f) =~= states.filter(p));
    } else {
        lemma_saved_from(states.drop_last(), keycodes);
        let before = sequence::saved_from(Seq::empty(), states.drop_last(), keycodes);
        if states::reports_one_of(states.last(), keycodes) {
            assert(saved.map_values(f) =~= before.map_values(f).push(states.last()));
        }
    }
}

/// Putting what passes a filter and what does not together again gives the whole,
/// up to the order.
proof fn lemma_filter_parts<A>(s: Seq<A>, p: spec_fn(A) -> bool)
    ensures
        (s.filter(|x: A| !p(x)) + s.filter(p)).to_multiset() == s.to_multiset(),
    decreases s.len(),
{
    broadcast use vstd::seq_lib::group_to_multiset_ensures;

    reveal(Seq::filter);
    let out = |x: A| !p(x);
    if s.len() == 0 {
        assert(s.filter(out) + s.filter(p) =~= s);
    } else {
        let first = s.drop_last();
        let last = s[s.len() - 1];
        lemma_filter_parts(first, p);
        assert(first.push(last) =~= s);
        let a = first.filter(out);
        let b = first.filter(p);
        vstd::seq_lib::lemma_multiset_commutative(a, b);
        vstd::seq_lib::lemma_multiset_commutative(s.filter(out), s.filter(p));
        assert((s.filter(out) + s.filter(p)).to_multiset() =~= s.to_multiset());
    }
}

/// Restoring gives back what filtering took away: filtering keys for the first
/// time and then restoring them leaves the states that there were before, those
/// that were filtered after the others.
pub proof fn law_restore_undoes_filter<T: 'static, K: 'static + Copy + Eq>(
    states: Seq<State<T, K>>,
    seq: SequenceView<K>,
    keycodes: &'static &'static [K],
)
    requires
        states.len() <= MAX_STATES,
        seq.delay == 0,
        seq.tapped is None,
        seq.saved.len() == 0,
        seq.remaining.len() > 1,
        seq.remaining[0] == SequenceEvent::Filter(keycodes),
        seq.remaining[1] == SequenceEvent::<K>::Restore,
    ensures
        ({
            let (filtered, filtering) = seq.stepped(states);
            let (restored, _) = filtering.stepped(filtered);
            &&& filtered == states.filter(
                |s: State<T, K>| !states::reports_one_of(s, keycodes@),
            )
            &&& restored == filtered + states.filter(
                |s: State<T, K>| states::reports_one_of(s, keycodes@),
            )
            &&& restored.to_multiset() == states.to_multiset()
        }),
{
    let (filtered, filtering) = seq.stepped(states);
    let (restored, last) = filtering.stepped(filtered);
    let p = |s: State<T, K>| states::reports_one_of(s, keycodes@);
    let out = |s: State<T, K>| !states::reports_one_of(s, keycodes@);
    assert(seq.saved =~= Seq::empty());
    lemma_saved_from(states, keycodes@);
    lemma_filter_parts(states, p);
    lemma_filter_same(states, out, |s: State<T, K>| !p(s));
    lemma_filter_lengths(states, p);
    let saved = sequence::saved_from(Seq::empty(), states, keycodes@);
    assert(saved.len() == saved.map_values(|s: SavedKeyCodeState<K>| s.state::<T>()).len());
    lemma_restored(filtered, saved);
}

/// What passes a filter and what does not is no more than there is.
proof fn lemma_filter_lengths<A>(s: Seq<A>, p: spec_fn(A) -> bool)
    ensures
        s.filter(p).len() + s.filter(|x: A| !p(x)).len() == s.len(),
    decreases s.len(),
{
    reveal(Seq::filter);
    if s.len() > 0 {
        lemma_filter_lengths(s.drop_last(), p);
    }
}

/// Whether the next tick of the sequence plays a `Filter` event that lists the key
/// code.
pub open spec fn filters<K: 'static + Copy + Eq>(seq: SequenceView<K>, keycode: K) -> bool {
    &&& seq.delay == 0
    &&& seq.tapped is None
    &&& seq.next().cur_event matches Some(SequenceEvent::Filter(keys)) && states::key_among(
        keys@,
        keycode,
    )
}

/// Whether the state is a layer or a custom action.
pub open spec fn is_layer_or_custom<T: 'static, K: 'static + Copy>(state: State<T, K>) -> bool {
    state is LayerModifier || state is Custom
}

/// Whether the state is the key code of a pressed key that no sequence filters at
/// the next tick.
pub open spec fn is_unfiltered_key<T: 'static, K: 'static + Copy + Eq>(
    state: State<T, K>,
    sequences: Seq<SequenceView<K>>,
) -> bool {
    state matches State::NormalKey { keycode, .. } && forall|i: int|
        0 <= i < sequences.len() ==> !filters(#[trigger] sequences[i], keycode)
}

/// What is restored comes after what was there, and reports key codes.
proof fn lemma_restored_prefix<T: 'static, K: 'static + Copy>(
    states: Seq<State<T, K>>,
    saved: Seq<SavedKeyCodeState<K>>,
)
    ensures
        ({
            let after = states::restored(states, saved);
            &&& states.len() <= after.len()
            &&& after.take(states.len() as int) == states
            &&& forall|i: int|
                states.len() <= i < after.len() ==> (#[trigger] after[i]).keycode_spec() is Some
        }),
    decreases saved.len(),
{
    let after = states::restored(states, saved);
    if saved.len() == 0 {
        assert(after.take(states.len() as int) =~= states);
    } else {
        lemma_restored_prefix(states, saved.drop_last());
        let before = states::restored(states, saved.drop_last());
        assert(after.take(states.len() as int) =~= before.take(states.len() as int));
        assert forall|i: int| states.len() <= i < after.len() implies (
        #[trigger] after[i]).keycode_spec() is Some by {
            if i < before.len() {
                assert(after[i] == before[i]);
            }
        }
    }
}

/// What is left of the beginning of a list is the beginning of what is left.
proof fn lemma_filter_of_prefix<A>(s: Seq<A>, t: Seq<A>, p: spec_fn(A) -> bool)
    requires
        s.len() <= t.len(),
        t.take(s.len() as int) == s,
    ensures
        s.filter(p).len() <= t.filter(p).len(),
        t.filter(p).take(s.filter(p).len() as int) == s.filter(p),
    decreases t.len(),
{
    if t.len() == s.len() {
        assert(t.take(s.len() as int) =~= t);
        assert(t.filter(p).take(s.filter(p).len() as int) =~= s.filter(p));
    } else {
        reveal(Seq::filter);
        assert(t.drop_last().take(s.len() as int) =~= t.take(s.len() as int));
        lemma_filter_of_prefix(s, t.drop_last(), p);
        assert(t.filter(p).take(s.filter(p).len() as int) =~= t.drop_last().filter(p).take(
            s.filter(p).len() as int,
        ));
    }
}

/// What one sequence leaves alone: what reports no key code, and the pressed keys
/// that it does not filter.
proof fn lemma_step_keeps<T: 'static, K: 'static + Copy + Eq>(
    states: Seq<State<T, K>>,
    seq: SequenceView<K>,
    p: spec_fn(State<T, K>) -> bool,
)
    requires
        forall|s: State<T, K>| #[trigger]
            p(s) ==> !(s is FakeKey) && (s.keycode_spec() matches Some(keycode) ==> !filters(
                seq,
                keycode,
            )),
    ensures
        ({
            let after = seq.stepped(states).0;
            &&& states.filter(p).len() <= after.filter(p).len()
            &&& after.filter(p).take(states.filter(p).len() as int) == states.filter(p)
            &&& (forall|s: State<T, K>| #[trigger] p(s) ==> s.keycode_spec() is None)
                ==> after.filter(p) == states.filter(p)
        }),
{
    let after = seq.stepped(states).0;
    assert(states.filter(p).take(states.filter(p).len() as int) =~= states.filter(p));
    if seq.delay > 0 {
    } else if let Some(keycode) = seq.tapped {
        lemma_filter_twice(states, |s: State<T, K>| !s.is_fake(keycode), p);
    } else {
        match seq.next().cur_event {
            Some(SequenceEvent::Complete) => {
                lemma_filter_twice(states, |s: State<T, K>| !states::fake_among(s, states), p);
            },
            Some(SequenceEvent::Release(keycode)) => {
                lemma_filter_twice(states, |s: State<T, K>| !s.is_fake(keycode), p);
            },
            Some(SequenceEvent::Press(_)) => {
                assert(after.take(states.len() as int) =~= states);
                laws::lemma_filter_prefix(states, after, p);
            },
            Some(SequenceEvent::Tap(_)) => {
                assert(after.take(states.len() as int) =~= states);
                laws::lemma_filter_prefix(states, after, p);
            },
            Some(SequenceEvent::Filter(keys)) => {
                lemma_filter_twice(
                    states,
                    |s: State<T, K>| !states::reports_one_of(s, keys@),
                    p,
                );
            },
            Some(SequenceEvent::Restore) => {
                lemma_restored_prefix(states, seq.next().saved);
                lemma_filter_of_prefix(states, after, p);
                if forall|s: State<T, K>| #[trigger] p(s) ==> s.keycode_spec() is None {
                    laws::lemma_filter_prefix(states, after, p);
                }
            },
            _ => {},
        }
    }
}

/// What all the sequences leave alone.
proof fn lemma_all_steps_keep<T: 'static, K: 'static + Copy + Eq>(
    states: Seq<State<T, K>>,
    sequences: Seq<SequenceView<K>>,
    p: spec_fn(State<T, K>) -> bool,
)
    requires
        forall|s: State<T, K>, i: int|
            0 <= i < sequences.len() && #[trigger] p(s) ==> !(s is FakeKey) && (
            s.keycode_spec() matches Some(keycode) ==> !filters(#[trigger] sequences[i], keycode)),
    ensures
        ({
            let after = sequence::all_stepped(states, sequences).0;
            &&& states.filter(p).len() <= after.filter(p).len()
            &&& after.filter(p).take(states.filter(p).len() as int) == states.filter(p)
            &&& (forall|s: State<T, K>| #[trigger] p(s) ==> s.keycode_spec() is None)
                ==> after.filter(p) == states.filter(p)
        }),
    decreases sequences.len(),
{
    assert(states.filter(p).take(states.filter(p).len() as int) =~= states.filter(p));
    if sequences.len() > 0 {
        let first = sequences.drop_last();
        assert forall|s: State<T, K>, i: int|
            0 <= i < first.len() && #[trigger] p(s) implies !(s is FakeKey) && (
        s.keycode_spec() matches Some(keycode) ==> !filters(#[trigger] first[i], keycode)) by {
            assert(first[i] == sequences[i]);
        }
        lemma_all_steps_keep(states, first, p);
        let before = sequence::all_stepped(states, first).0;
        let last = sequences[sequences.len() - 1];
        lemma_step_keeps(before, last, p);
        let after = sequence::all_stepped(states, sequences).0;
        let n = states.filter(p).len() as int;
        assert(after.filter(p).take(before.filter(p).len() as int).take(n)
            =~= after.filter(p).take(n));
    }
}

/// The layers are those of the states that are layers.
proof fn lemma_layers_of_filter<T: 'static, K: 'static + Copy>(
    states: Seq<State<T, K>>,
    p: spec_fn(State<T, K>) -> bool,
)
    requires
        forall|s: State<T, K>| s is LayerModifier ==> #[trigger] p(s),
    ensures
        states::layers_of(states.filter(p)) == states::layers_of(states),
    decreases states.len(),
{
    reveal(Seq::filter);
    if states.len() > 0 {
        lemma_layers_of_filter(states.drop_last(), p);
        let last = states[states.len() - 1];
        if p(last) {
            assert(states.filter(p).drop_last() =~= states.drop_last().filter(p));
        }
    }
}

/// Playing the sequences changes nothing of a layout but its states and its
/// sequences, of which there are no more than before. Every layer and every custom
/// action stays, in order, and so the same layer is in force. The key code of a
/// pressed key goes only if a `Filter` event lists it: the others stay, in order,
/// before any that are restored.
pub proof fn law_sequences_touch_only_key_codes<T: 'static, K: 'static + Copy + Eq>(
    m: LayoutView<T, K>,
)
    ensures
        ({
            let after = m.sequences_played();
            let held = |s: State<T, K>| is_layer_or_custom(s);
            let unfiltered = |s: State<T, K>| is_unfiltered_key(s, m.sequences);
            let stay = m.states.filter(unfiltered);
            &&& after == (LayoutView { states: after.states, sequences: after.sequences, ..m })
            &&& after.sequences.len() <= m.sequences.len()
            &&& after.states.filter(held) == m.states.filter(held)
            &&& after.current_layer() == m.current_layer()
            &&& stay.len() <= after.states.filter(unfiltered).len()
            &&& after.states.filter(unfiltered).take(stay.len() as int) == stay
            &&& forall|x: int|
                0 <= x < m.states.len() && (#[trigger] m.states[x]) is NormalKey
                    && !after.states.contains(m.states[x]) ==> !is_unfiltered_key(
                    m.states[x],
                    m.sequences,
                )
        }),
{
    let after = m.sequences_played();
    let held = |s: State<T, K>| is_layer_or_custom(s);
    let unfiltered = |s: State<T, K>| is_unfiltered_key(s, m.sequences);
    law_only_ongoing_sequences_are_kept(m.states, m.sequences);
    lemma_all_steps_keep(m.states, m.sequences, held);
    lemma_all_steps_keep(m.states, m.sequences, unfiltered);
    lemma_layers_of_filter(m.states, held);
    lemma_layers_of_filter(after.states, held);
    assert forall|x: int|
        0 <= x < m.states.len() && is_unfiltered_key(
            #[trigger] m.states[x],
            m.sequences,
        ) implies after.states.contains(m.states[x]) by {
        let stay = m.states.filter(unfiltered);
        m.states.lemma_filter_contains(unfiltered, x);
        let y = choose|y: int| 0 <= y < stay.len() && stay[y] == m.states[x];
        assert(after.states.filter(unfiltered).take(stay.len() as int)[y] == m.states[x]);
        assert(after.states.filter(unfiltered)[y] == m.states[x]);
        after.states.lemma_filter_contains_rev(unfiltered, m.states[x]);
    }
}

/// What one tick of a sequence does. A pause gets shorter by one tick, and nothing
/// else happens. Else a tapped key code is released, and nothing else happens. Else
/// the next event is played, or the last one once more if there is no next one: a
/// press or a tap adds a fake key, and a tap remembers it; a release, a completion
/// and a filter take states out; a completion drops the events that are left; a
/// filter saves what it takes out, and a restoration adds what was saved; a delay
/// begins a pause of one tick less than it says.
pub proof fn law_ticks_of_a_sequence<T: 'static, K: 'static + Copy + Eq>(
    states: Seq<State<T, K>>,
    seq: SequenceView<K>,
)
    ensures
        ({
            let (after, stepped) = seq.stepped(states);
            let pausing = seq.delay > 0;
            let tapping = !pausing && seq.tapped is Some;
            let playing = !pausing && !tapping;
            let next = seq.remaining.len() > 0;
            let event = if next {
                Some(seq.remaining[0])
            } else {
                seq.cur_event
            };
            let rest = if next {
                seq.remaining.drop_first()
            } else {
                seq.remaining
            };
            let taken = SequenceView { cur_event: event, remaining: rest, ..seq };
            &&& pausing ==> after == states && stepped == (SequenceView {
                delay: (seq.delay - 1) as u32,
                ..seq
            })
            &&& tapping ==> after == states::without_fake(states, seq.tapped->0) && stepped == (
            SequenceView { tapped: None, ..seq })
            &&& playing && event is None ==> after == states && stepped == taken
            &&& playing ==> (event matches Some(SequenceEvent::Press(keycode)) ==> after
                == states::pushed(states, State::FakeKey { keycode }) && stepped == taken)
            &&& playing ==> (event matches Some(SequenceEvent::Tap(keycode)) ==> after
                == states::pushed(states, State::FakeKey { keycode }) && stepped == (
            SequenceView { tapped: Some(keycode), ..taken }))
            &&& playing ==> (event matches Some(SequenceEvent::Release(keycode)) ==> after
                == states::without_fake(states, keycode) && stepped == taken)
            &&& playing ==> (event matches Some(SequenceEvent::Complete) ==> after
                == states::without_fakes(states) && stepped == (SequenceView {
                remaining: Seq::empty(),
                ..taken
            }))
            &&& playing ==> (event matches Some(SequenceEvent::Delay { duration }) ==> after
                == states && stepped == (SequenceView {
                delay: if duration > 0 {
                    (duration - 1) as u32
                } else {
                    0
                },
                ..taken
            }))
            &&& playing ==> (event matches Some(SequenceEvent::Filter(keys)) ==> after
                == states::without_keycodes(states, keys@) && stepped == (SequenceView {
                saved: sequence::saved_from(seq.saved, states, keys@),
                ..taken
            }))
            &&& playing ==> (event matches Some(SequenceEvent::Restore) ==> after
                == states::restored(states, seq.saved) && stepped == taken)
        }),
{
}

/// The sequences are played one after the other, in their order and each of them
/// once. Those that have events left or a tapped key code to release are kept, in
/// order; the others are over.
pub proof fn law_sequences_are_played_in_order<T: 'static, K: 'static + Copy + Eq>(
    states: Seq<State<T, K>>,
    sequences: Seq<SequenceView<K>>,
    last: SequenceView<K>,
)
    ensures
        sequence::all_stepped(states, Seq::<SequenceView<K>>::empty()) == (
            states,
            Seq::<SequenceView<K>>::empty(),
        ),
        ({
            let (before, kept) = sequence::all_stepped(states, sequences);
            let (after, stepped) = last.stepped(before);
            sequence::all_stepped(states, sequences.push(last)) == (
                after,
                if stepped.remaining.len() > 0 || stepped.tapped is Some {
                    kept.push(stepped)
                } else {
                    kept
                },
            )
        }),
{
    assert(sequences.push(last).drop_last() =~= sequences);
}

} // verus!
