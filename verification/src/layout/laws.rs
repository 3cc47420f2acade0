//! What holds of layouts whatever happens to them.
use crate::action::Action;
use crate::layout::states::{self, MAX_STATES};
use crate::layout::tri_layer::{self, TriLayer};
use crate::layout::waiting::STACK_SIZE;
use crate::layout::{CustomEvent, Event, LayoutView, Stacked, State, WaitingAction};
use vstd::prelude::*;

verus! {

/// What an action of the key at `coord` can change: it adds states of that key,
/// and it can start a sequence, wait for a hold-tap key, change the default layer
/// to another layer that exists, and note which key was pressed last.
pub open spec fn only_adds_states_of<T: 'static, K: 'static + Copy>(
    before: LayoutView<T, K>,
    after: LayoutView<T, K>,
    coord: (u8, u8),
) -> bool {
    &&& after.layers == before.layers
    &&& after.stacked == before.stacked
    &&& after.tri_layers == before.tri_layers
    &&& after.default_layer == before.default_layer || after.default_layer < before.layers.len()
    &&& before.states.len() <= after.states.len()
    &&& after.states.take(before.states.len() as int) == before.states
    &&& forall|i: int|
        before.states.len() <= i < after.states.len() ==> (
        #[trigger] after.states[i]).coord_spec() == Some(coord)
}

proof fn lemma_only_adds_trans<T: 'static, K: 'static + Copy>(
    a: LayoutView<T, K>,
    b: LayoutView<T, K>,
    c: LayoutView<T, K>,
    coord: (u8, u8),
)
    requires
        only_adds_states_of(a, b, coord),
        only_adds_states_of(b, c, coord),
    ensures
        only_adds_states_of(a, c, coord),
{
    assert(c.states.take(a.states.len() as int) =~= a.states) by {
        assert forall|i: int| 0 <= i < a.states.len() implies c.states[i] == a.states[i] by {
            assert(c.states.take(b.states.len() as int)[i] == b.states[i]);
            assert(b.states.take(a.states.len() as int)[i] == a.states[i]);
        }
    }
    assert forall|i: int| a.states.len() <= i < c.states.len() implies (
    #[trigger] c.states[i]).coord_spec() == Some(coord) by {
        if i < b.states.len() {
            assert(c.states.take(b.states.len() as int)[i] == b.states[i]);
        }
    }
}

proof fn lemma_pushed_keys<T: 'static, K: 'static + Copy>(
    s: Seq<State<T, K>>,
    keycodes: Seq<K>,
    coord: (u8, u8),
)
    ensures
        s.len() <= states::pushed_keys(s, keycodes, coord).len(),
        states::pushed_keys(s, keycodes, coord).take(s.len() as int) == s,
        forall|i: int|
            s.len() <= i < states::pushed_keys(s, keycodes, coord).len() ==> (
            #[trigger] states::pushed_keys(s, keycodes, coord)[i]).coord_spec() == Some(coord),
    decreases keycodes.len(),
{
    if keycodes.len() > 0 {
        lemma_pushed_keys(s, keycodes.drop_last(), coord);
        let before = states::pushed_keys(s, keycodes.drop_last(), coord);
        let after = states::pushed_keys(s, keycodes, coord);
        assert(after.take(s.len() as int) =~= before.take(s.len() as int));
    } else {
        assert(s.take(s.len() as int) =~= s);
    }
}

proof fn lemma_act_within_only_adds<T: 'static, K: 'static + Copy>(
    m: LayoutView<T, K>,
    action: Action<T, K>,
    coord: (u8, u8),
    delay: u16,
    depth: nat,
)
    ensures
        only_adds_states_of(m, m.act_within(action, coord, delay, depth).layout, coord),
    decreases depth, 0nat,
{
    assert(m.states.take(m.states.len() as int) =~= m.states);
    match action {
        Action::HoldTap(h) => {
            if depth > 0 {
                let m1 = m.without_interval();
                lemma_act_within_only_adds(m1, h.tap, coord, delay, (depth - 1) as nat);
            }
        },
        Action::MultipleKeyCodes(keycodes) => {
            lemma_pushed_keys(m.states, keycodes@, coord);
        },
        Action::MultipleActions(actions) => {
            if depth > 0 {
                lemma_act_all_only_adds(
                    m.with_last_key(coord),
                    actions@,
                    coord,
                    delay,
                    (depth - 1) as nat,
                );
            }
        },
        Action::KeyCode(keycode) => {
            let s = State::<T, K>::NormalKey { keycode, coord };
            assert(states::pushed(m.states, s).take(m.states.len() as int) =~= m.states);
        },
        Action::Layer(value) => {
            let s = State::<T, K>::LayerModifier { value, coord };
            assert(states::pushed(m.states, s).take(m.states.len() as int) =~= m.states);
        },
        Action::Custom(value) => {
            let s = State::<T, K>::Custom { value: &value, coord };
            assert(states::pushed(m.states, s).take(m.states.len() as int) =~= m.states);
        },
        _ => {},
    }
}

proof fn lemma_act_all_only_adds<T: 'static, K: 'static + Copy>(
    m: LayoutView<T, K>,
    actions: Seq<Action<T, K>>,
    coord: (u8, u8),
    delay: u16,
    depth: nat,
)
    ensures
        only_adds_states_of(m, m.act_all_within(actions, coord, delay, depth).layout, coord),
    decreases depth, actions.len() + 1,
{
    assert(m.states.take(m.states.len() as int) =~= m.states);
    if actions.len() > 0 {
        lemma_act_all_only_adds(m, actions.drop_last(), coord, delay, depth);
        let before = m.act_all_within(actions.drop_last(), coord, delay, depth).layout;
        lemma_act_within_only_adds(before, actions.last(), coord, delay, depth);
        let after = before.act_within(actions.last(), coord, delay, depth).layout;
        lemma_only_adds_trans(m, before, after, coord);
    }
}

/// An action of a key adds states of that key and takes none away; it leaves the
/// layers, the tri-layers and the stacked events as they are.
pub proof fn law_actions_only_add_states_of_their_key<T: 'static, K: 'static + Copy>(
    m: LayoutView<T, K>,
    action: Action<T, K>,
    coord: (u8, u8),
    delay: u16,
)
    ensures
        only_adds_states_of(m, m.act(action, coord, delay).layout, coord),
{
    let depth = choose|depth: nat| (#[trigger] m.act_within(action, coord, delay, depth)).ok;
    lemma_act_within_only_adds(m, action, coord, delay, depth);
}

/// Releasing a key takes away everything that the key had put there, keeps every
/// other state and keeps the order of the states.
pub proof fn law_release_clears_the_key<T: 'static, K: 'static + Copy>(
    m: LayoutView<T, K>,
    i: u8,
    j: u8,
    since: u16,
)
    ensures
        ({
            let after = m.unstack(Stacked { event: Event::Release(i, j), since }).layout;
            &&& forall|x: int|
                0 <= x < after.states.len() ==> (#[trigger] after.states[x]).coord_spec() != Some(
                    (i, j),
                )
            &&& after.states == m.states.filter(|s: State<T, K>| s.coord_spec() != Some((i, j)))
            &&& after == (LayoutView { states: after.states, ..m })
        }),
{
    let keep = |s: State<T, K>| s.coord_spec() != Some((i, j));
    assert forall|x: int| 0 <= x < m.states.filter(keep).len() implies (
    #[trigger] m.states.filter(keep)[x]).coord_spec() != Some((i, j)) by {
        m.states.lemma_filter_pred(keep, x);
    }
}

/// Filtering away what was appended is filtering what was there before.
pub(crate) proof fn lemma_filter_prefix<A>(s: Seq<A>, t: Seq<A>, p: spec_fn(A) -> bool)
    requires
        s.len() <= t.len(),
        t.take(s.len() as int) == s,
        forall|i: int| s.len() <= i < t.len() ==> !p(#[trigger] t[i]),
    ensures
        t.filter(p) == s.filter(p),
    decreases t.len(),
{
    if t.len() == s.len() {
        assert(t.take(s.len() as int) =~= t);
    } else {
        reveal(Seq::filter);
        assert(t.drop_last().take(s.len() as int) =~= t.take(s.len() as int));
        assert(!p(t[t.len() - 1]));
        lemma_filter_prefix(s, t.drop_last(), p);
    }
}

/// Releasing a key undoes pressing it: whatever the action of the key was, the
/// states that are left are those that releasing the key before it was pressed
/// would have left. If nothing of the key was active before, they are the very
/// states that there were before the press.
pub proof fn law_release_undoes_press<T: 'static, K: 'static + Copy>(
    m: LayoutView<T, K>,
    action: Action<T, K>,
    coord: (u8, u8),
    delay: u16,
)
    ensures
        states::without_key(m.act(action, coord, delay).layout.states, coord)
            == states::without_key(m.states, coord),
        (forall|i: int|
            0 <= i < m.states.len() ==> (#[trigger] m.states[i]).coord_spec() != Some(coord))
            ==> states::without_key(m.act(action, coord, delay).layout.states, coord) == m.states,
{
    law_actions_only_add_states_of_their_key(m, action, coord, delay);
    let keep = |s: State<T, K>| s.coord_spec() != Some(coord);
    lemma_filter_prefix(m.states, m.act(action, coord, delay).layout.states, keep);
    if forall|i: int|
        0 <= i < m.states.len() ==> (#[trigger] m.states[i]).coord_spec() != Some(coord) {
        lemma_filter_all(m.states, keep);
    }
}

/// A filter that everything passes changes nothing.
pub(crate) proof fn lemma_filter_all<A>(s: Seq<A>, p: spec_fn(A) -> bool)
    requires
        forall|i: int| 0 <= i < s.len() ==> p(#[trigger] s[i]),
    ensures
        s.filter(p) == s,
    decreases s.len(),
{
    reveal(Seq::filter);
    if s.len() > 0 {
        lemma_filter_all(s.drop_last(), p);
        assert(s.drop_last().push(s.last()) =~= s);
    }
}

/// An event is never lost: it is the last of the stacked events, whether there
/// was room for it or the oldest event had to go.
pub proof fn law_events_are_stacked_in_order<T: 'static, K: 'static + Copy>(
    m: LayoutView<T, K>,
    event: Event,
)
    requires
        m.stacked.len() <= STACK_SIZE,
    ensures
        m.event(event).layout.stacked == (if m.stacked.len() < STACK_SIZE {
            m.stacked
        } else {
            m.stacked.drop_first()
        }).push(Stacked { event, since: 0 }),
{
    if m.stacked.len() == STACK_SIZE {
        let full = LayoutView {
            stacked: m.stacked.drop_first().push(Stacked { event, since: 0 }),
            ..m
        };
        lemma_into_hold_frame(full);
        lemma_unstack_frame(full.waiting_into_hold().layout, m.stacked[0]);
    }
}

/// Two layouts that have the same keyboard, and whose default layer exists if
/// that of the first does.
pub open spec fn same_keyboard<T: 'static, K: 'static + Copy>(
    before: LayoutView<T, K>,
    after: LayoutView<T, K>,
) -> bool {
    &&& after.layers == before.layers
    &&& after.tri_layers == before.tri_layers
    &&& after.default_layer == before.default_layer || after.default_layer < before.layers.len()
}

proof fn lemma_into_hold_frame<T: 'static, K: 'static + Copy>(m: LayoutView<T, K>)
    ensures
        same_keyboard(m, m.waiting_into_hold().layout),
        m.waiting_into_hold().layout.stacked == m.stacked,
{
    if let Some(w) = m.waiting {
        let free = m.holding(w.coord);
        law_actions_only_add_states_of_their_key(free, *w.hold, w.coord, 0);
    }
}

proof fn lemma_into_tap_frame<T: 'static, K: 'static + Copy>(m: LayoutView<T, K>)
    ensures
        same_keyboard(m, m.waiting_into_tap().layout),
        m.waiting_into_tap().layout.stacked == m.stacked,
{
    if let Some(w) = m.waiting {
        let free = m.without_waiting();
        law_actions_only_add_states_of_their_key(free, *w.tap, w.coord, 0);
    }
}

proof fn lemma_unstack_frame<T: 'static, K: 'static + Copy>(m: LayoutView<T, K>, stacked: Stacked)
    ensures
        same_keyboard(m, m.unstack(stacked).layout),
        m.unstack(stacked).layout.stacked == m.stacked,
{
    if let Event::Press(i, j) = stacked.event {
        law_actions_only_add_states_of_their_key(
            m,
            m.press_as_action((i, j), m.current_layer()),
            (i, j),
            stacked.since,
        );
    }
}

/// A tick processes the oldest event and no other, and none at all while a key
/// waits.
pub proof fn law_ticks_process_events_in_order<T: 'static, K: 'static + Copy + Eq>(
    m: LayoutView<T, K>,
    answer: Option<WaitingAction>,
)
    ensures
        ({
            let aged = m.stacked.map_values(|s: Stacked| s.ticked());
            m.tick(answer).layout.stacked == if m.waiting is None && aged.len() > 0 {
                aged.drop_first()
            } else {
                aged
            }
        }),
{
    let aged = m.aged();
    match m.waiting {
        Some(w) => {
            let ticked = LayoutView { waiting: Some(w.ticked()), ..aged };
            lemma_into_hold_frame(ticked);
            lemma_into_tap_frame(ticked);
        },
        None => {
            if aged.stacked.len() > 0 {
                let rest = LayoutView { stacked: aged.stacked.drop_first(), ..aged };
                lemma_unstack_frame(rest, aged.stacked[0]);
            }
        },
    }
}

/// Neither events nor ticks change the layers or the tri-layers. A default layer
/// that exists is only ever replaced by one that exists.
pub proof fn law_the_keyboard_stays_the_same<T: 'static, K: 'static + Copy + Eq>(
    m: LayoutView<T, K>,
    event: Event,
    answer: Option<WaitingAction>,
)
    ensures
        same_keyboard(m, m.event(event).layout),
        same_keyboard(m, m.tick(answer).layout),
        m.default_layer < m.layers.len() ==> m.event(event).layout.default_layer < m.layers.len()
            && m.tick(answer).layout.default_layer < m.layers.len(),
{
    let full = LayoutView {
        stacked: m.stacked.drop_first().push(Stacked { event, since: 0 }),
        ..m
    };
    lemma_into_hold_frame(full);
    lemma_unstack_frame(full.waiting_into_hold().layout, m.stacked[0]);
    let aged = m.aged();
    if let Some(w) = m.waiting {
        let ticked = LayoutView { waiting: Some(w.ticked()), ..aged };
        lemma_into_hold_frame(ticked);
        lemma_into_tap_frame(ticked);
    }
    if aged.stacked.len() > 0 {
        let rest = LayoutView { stacked: aged.stacked.drop_first(), ..aged };
        lemma_unstack_frame(rest, aged.stacked[0]);
    }
}

/// With no key waiting, no event stacked and no sequence being played, a tick can
/// always be made. It causes no custom event, and changes nothing but the memory
/// of the last press: what is pressed stays pressed.
pub proof fn law_idle_ticks_change_nothing<T: 'static, K: 'static + Copy + Eq>(
    m: LayoutView<T, K>,
    answer: Option<WaitingAction>,
)
    requires
        m.waiting is None,
        m.stacked.len() == 0,
        m.sequences.len() == 0,
    ensures
        m.tick_ready(),
        m.tick(answer).layout == (LayoutView {
            tap_hold_tracker: m.tap_hold_tracker.ticked(),
            ..m
        }),
        m.tick(answer).event == CustomEvent::<T>::NoEvent,
{
    assert(m.aged().stacked =~= m.stacked);
}

/// The order in which the two layers of a tri-layer are activated is immaterial.
pub proof fn law_tri_layers_have_no_order(
    tri_layers: Seq<TriLayer>,
    layer_0: usize,
    layer_1: usize,
)
    ensures
        tri_layer::first_applied(tri_layers, layer_0, layer_1) == tri_layer::first_applied(
            tri_layers,
            layer_1,
            layer_0,
        ),
    decreases tri_layers.len(),
{
    if tri_layers.len() > 0 {
        law_tri_layers_have_no_order(tri_layers.drop_last(), layer_0, layer_1);
    }
}

/// The action that a press turns into is never the transparent one.
pub proof fn law_pressed_keys_are_not_transparent<T: 'static, K: 'static + Copy>(
    m: LayoutView<T, K>,
    coord: (u8, u8),
    layer: usize,
)
    ensures
        !(m.press_as_action(coord, layer) is Trans),
{
}

proof fn lemma_leaf_action<T: 'static, K: 'static + Copy>(
    m: LayoutView<T, K>,
    action: Action<T, K>,
    coord: (u8, u8),
    delay: u16,
)
    requires
        m.waiting is None,
        !(action is HoldTap),
        !(action is MultipleActions),
    ensures
        m.act(action, coord, delay).ok,
        m.act(action, coord, delay) == m.act_within(action, coord, delay, 0),
{
    assert(m.act_within(action, coord, delay, 0).ok);
}

/// Pressing a key with a key code reports that key code after all the others, as
/// long as there is room for it.
pub proof fn law_keycodes_are_reported<T: 'static, K: 'static + Copy>(
    m: LayoutView<T, K>,
    keycode: K,
    coord: (u8, u8),
    delay: u16,
)
    requires
        m.waiting is None,
        m.states.len() < MAX_STATES,
    ensures
        m.act(Action::KeyCode(keycode), coord, delay).ok,
        states::keycodes_of(m.act(Action::KeyCode(keycode), coord, delay).layout.states)
            == states::keycodes_of(m.states).push(keycode),
{
    lemma_leaf_action(m, Action::KeyCode(keycode), coord, delay);
    let after = m.act(Action::KeyCode(keycode), coord, delay).layout.states;
    assert(after.drop_last() =~= m.states);
}

/// Pressing a key with a layer makes that layer the current one, as long as there
/// is room for it and no tri-layer takes over.
pub proof fn law_layer_keys_activate_their_layer<T: 'static, K: 'static + Copy>(
    m: LayoutView<T, K>,
    value: usize,
    coord: (u8, u8),
    delay: u16,
)
    requires
        m.waiting is None,
        m.states.len() < MAX_STATES,
    ensures
        ({
            let o = m.act(Action::Layer(value), coord, delay);
            let active = states::layers_of(m.states);
            &&& o.ok
            &&& states::layers_of(o.layout.states) == active.push(value)
            &&& o.layout.current_layer() == if active.len() == 0 {
                value
            } else {
                match tri_layer::first_applied(m.tri_layers, value, active.last()) {
                    Some(target) => target,
                    None => value,
                }
            }
        }),
{
    lemma_leaf_action(m, Action::Layer(value), coord, delay);
    let after = m.act(Action::Layer(value), coord, delay).layout.states;
    assert(after.drop_last() =~= m.states);
    assert(states::layers_of(after) =~= states::layers_of(m.states).push(value));
}

/// Pressing a key with a custom action reports the press of its value, and
/// releasing the key reports the release of the same value, as long as there is
/// room for it and no other custom action of the key is active.
pub proof fn law_custom_actions_are_reported<T: 'static, K: 'static + Copy>(
    m: LayoutView<T, K>,
    value: T,
    coord: (u8, u8),
    delay: u16,
)
    requires
        m.waiting is None,
        m.states.len() < MAX_STATES,
        states::released_event(m.states, coord) is NoEvent,
    ensures
        ({
            let o = m.act(Action::Custom(value), coord, delay);
            &&& o.ok
            &&& o.event == CustomEvent::Press(&value)
            &&& states::released_event(o.layout.states, coord) == CustomEvent::Release(&value)
        }),
{
    lemma_leaf_action(m, Action::Custom(value), coord, delay);
    let after = m.act(Action::Custom(value), coord, delay).layout.states;
    assert(after.drop_last() =~= m.states);
}

/// If the two layers that were activated last are those that a tri-layer names,
/// the layer of the tri-layer is the current one, whichever of the two was
/// activated first.
pub proof fn law_tri_layers_are_activated<T: 'static, K: 'static + Copy>(
    m: LayoutView<T, K>,
    layer_0: usize,
    coord_0: (u8, u8),
    layer_1: usize,
    coord_1: (u8, u8),
    delay: u16,
)
    requires
        m.waiting is None,
        m.states.len() + 2 <= MAX_STATES,
        tri_layer::first_applied(m.tri_layers, layer_0, layer_1) is Some,
    ensures
        ({
            let target = tri_layer::first_applied(m.tri_layers, layer_0, layer_1)->0;
            let one = m.act(Action::Layer(layer_0), coord_0, delay).layout;
            let other = m.act(Action::Layer(layer_1), coord_1, delay).layout;
            &&& one.act(Action::Layer(layer_1), coord_1, delay).layout.current_layer() == target
            &&& other.act(Action::Layer(layer_0), coord_0, delay).layout.current_layer() == target
        }),
{
    lemma_leaf_action(m, Action::Layer(layer_0), coord_0, delay);
    lemma_leaf_action(m, Action::Layer(layer_1), coord_1, delay);
    law_layer_keys_activate_their_layer(m, layer_0, coord_0, delay);
    law_layer_keys_activate_their_layer(m, layer_1, coord_1, delay);
    let one = m.act(Action::Layer(layer_0), coord_0, delay).layout;
    let other = m.act(Action::Layer(layer_1), coord_1, delay).layout;
    law_layer_keys_activate_their_layer(one, layer_1, coord_1, delay);
    law_layer_keys_activate_their_layer(other, layer_0, coord_0, delay);
    law_tri_layers_have_no_order(m.tri_layers, layer_0, layer_1);
}

/// A tri-layer that is added applies to its two layers, unless an earlier one
/// does.
pub proof fn law_added_tri_layers_apply<T: 'static, K: 'static + Copy>(
    m: LayoutView<T, K>,
    layer_0: usize,
    layer_1: usize,
    target: usize,
)
    ensures
        tri_layer::first_applied(
            m.with_tri_layer((layer_0, layer_1), target).tri_layers,
            layer_0,
            layer_1,
        ) == match tri_layer::first_applied(m.tri_layers, layer_0, layer_1) {
            Some(earlier) => Some(earlier),
            None => Some(target),
        },
{
    let added = m.with_tri_layer((layer_0, layer_1), target).tri_layers;
    assert(added.drop_last() =~= m.tri_layers);
}

/// An event that finds nothing else going on is processed at the next tick.
pub proof fn law_events_take_effect_at_the_next_tick<T: 'static, K: 'static + Copy + Eq>(
    m: LayoutView<T, K>,
    event: Event,
    answer: Option<WaitingAction>,
)
    requires
        m.waiting is None,
        m.stacked.len() == 0,
        m.sequences.len() == 0,
    ensures
        ({
            let rested = LayoutView { tap_hold_tracker: m.tap_hold_tracker.ticked(), ..m };
            m.event(event).layout.tick(answer) == rested.unstack(Stacked { event, since: 1 })
        }),
{
    let rested = LayoutView { tap_hold_tracker: m.tap_hold_tracker.ticked(), ..m };
    let aged = m.event(event).layout.aged();
    assert(aged.stacked =~= seq![Stacked { event, since: 1 }]);
    assert(LayoutView { stacked: aged.stacked.drop_first(), ..aged } =~= rested);
}

/// Pressing and releasing a key leaves no trace among the states, whatever the
/// action of the key is, if the press has no after-effects: no key waits and no
/// sequence is being played when the release comes.
pub proof fn law_press_and_release_leave_no_trace<T: 'static, K: 'static + Copy + Eq>(
    m: LayoutView<T, K>,
    i: u8,
    j: u8,
)
    requires
        m.waiting is None,
        m.stacked.len() == 0,
        m.sequences.len() == 0,
        forall|x: int| 0 <= x < m.states.len() ==> (#[trigger] m.states[x]).coord_spec() != Some((i, j)),
        m.event(Event::Press(i, j)).layout.tick(None).layout.waiting is None,
        m.event(Event::Press(i, j)).layout.tick(None).layout.sequences.len() == 0,
    ensures
        m.event(Event::Press(i, j)).layout.tick(None).layout.event(Event::Release(i, j)).layout.tick(
            None,
        ).layout.states == m.states,
{
    let rested = LayoutView { tap_hold_tracker: m.tap_hold_tracker.ticked(), ..m };
    let pressed = m.event(Event::Press(i, j)).layout.tick(None).layout;
    law_events_take_effect_at_the_next_tick(m, Event::Press(i, j), None);
    let action = rested.press_as_action((i, j), rested.current_layer());
    law_release_undoes_press(rested, action, (i, j), 1);
    law_actions_only_add_states_of_their_key(rested, action, (i, j), 1);
    law_events_take_effect_at_the_next_tick(pressed, Event::Release(i, j), None);
}

} // verus!
