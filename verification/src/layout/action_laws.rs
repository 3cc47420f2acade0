//! What pressing a key does, told in terms of the layers and of the parts of the
//! layout.
use crate::action::{Action, HoldTapAction, SequenceEvent};
use crate::layout::states;
use crate::layout::states_laws;
use crate::layout::steady;
use crate::layout::tap_hold::TapHoldTracker;
use crate::layout::tri_layer::{self, TriLayer};
use crate::layout::{CustomEvent, Event, LayoutView, Stacked, State, WaitingState};
use vstd::prelude::*;

verus! {

/// Whether the layers have a key at row `i` and column `j` of a layer.
pub open spec fn has_key<T: 'static, K: 'static>(
    layers: Seq<Seq<Seq<Action<T, K>>>>,
    layer: usize,
    i: u8,
    j: u8,
) -> bool {
    layer < layers.len() && i < layers[layer as int].len() && j
        < layers[layer as int][i as int].len()
}

/// A key has the action that stands at its row and column of the layer in force. If
/// that is transparent, it has the action that stands at the same place of the
/// default layer, whatever other layers there are. It has none if that is
/// transparent too, or if there is no such key.
pub proof fn law_keys_have_the_action_of_their_layer<T: 'static, K: 'static + Copy>(
    m: LayoutView<T, K>,
    i: u8,
    j: u8,
    layer: usize,
)
    ensures
        ({
            let action = m.press_as_action((i, j), layer);
            let here = m.layers[layer as int][i as int][j as int];
            let below = m.layers[m.default_layer as int][i as int][j as int];
            &&& has_key(m.layers, layer, i, j) && !(here is Trans) ==> action == here
            &&& has_key(m.layers, layer, i, j) && here is Trans && has_key(
                m.layers,
                m.default_layer,
                i,
                j,
            ) && !(below is Trans) ==> action == below
            &&& has_key(m.layers, layer, i, j) && here is Trans && (!has_key(
                m.layers,
                m.default_layer,
                i,
                j,
            ) || below is Trans) ==> action is NoOp
            &&& !has_key(m.layers, layer, i, j) ==> action is NoOp
        }),
{
}

/// Whether the tri-layer names these two layers.
pub open spec fn names(tri_layer: TriLayer, layer_0: usize, layer_1: usize) -> bool {
    ||| tri_layer.activation_layers.0 == layer_0 && tri_layer.activation_layers.1 == layer_1
    ||| tri_layer.activation_layers.0 == layer_1 && tri_layer.activation_layers.1 == layer_0
}

/// Whether the tri-layer at `i` is the first one that names these two layers.
pub open spec fn first_naming(
    tri_layers: Seq<TriLayer>,
    i: int,
    layer_0: usize,
    layer_1: usize,
) -> bool {
    &&& 0 <= i < tri_layers.len()
    &&& names(tri_layers[i], layer_0, layer_1)
    &&& forall|j: int| 0 <= j < i ==> !names(#[trigger] tri_layers[j], layer_0, layer_1)
}

/// The first tri-layer that names two layers applies to them; if none does, none
/// applies.
pub proof fn law_the_first_tri_layer_applies(
    tri_layers: Seq<TriLayer>,
    layer_0: usize,
    layer_1: usize,
)
    ensures
        forall|i: int| #[trigger]
            first_naming(tri_layers, i, layer_0, layer_1) ==> tri_layer::first_applied(
                tri_layers,
                layer_0,
                layer_1,
            ) == Some(tri_layers[i].target_layer),
        (forall|i: int|
            0 <= i < tri_layers.len() ==> !names(#[trigger] tri_layers[i], layer_0, layer_1))
            ==> tri_layer::first_applied(tri_layers, layer_0, layer_1) == None::<usize>,
    decreases tri_layers.len(),
{
    if tri_layers.len() > 0 {
        let first = tri_layers.drop_last();
        let last = tri_layers.len() - 1;
        law_the_first_tri_layer_applies(first, layer_0, layer_1);
        assert forall|i: int| #[trigger]
            first_naming(tri_layers, i, layer_0, layer_1) implies tri_layer::first_applied(
            tri_layers,
            layer_0,
            layer_1,
        ) == Some(tri_layers[i].target_layer) by {
            assert forall|j: int| 0 <= j < i implies !names(
                #[trigger] first[j],
                layer_0,
                layer_1,
            ) by {
                assert(first[j] == tri_layers[j]);
            }
            if i < last {
                assert(first_naming(first, i, layer_0, layer_1));
            }
        }
        if forall|i: int|
            0 <= i < tri_layers.len() ==> !names(#[trigger] tri_layers[i], layer_0, layer_1) {
            assert forall|j: int| 0 <= j < first.len() implies !names(
                #[trigger] first[j],
                layer_0,
                layer_1,
            ) by {
                assert(first[j] == tri_layers[j]);
            }
            assert(!names(tri_layers[last], layer_0, layer_1));
        }
    }
}

/// With no layer active the default layer is in force. Otherwise it is the layer
/// that was activated last, unless a tri-layer names it and the one activated before
/// it: then it is the layer of the first such tri-layer.
pub proof fn law_the_layer_in_force<T: 'static, K: 'static + Copy>(m: LayoutView<T, K>)
    ensures
        ({
            let active = states::layers_of(m.states);
            let n = active.len();
            &&& n == 0 ==> m.current_layer() == m.default_layer
            &&& n == 1 ==> m.current_layer() == active[0]
            &&& n >= 2 ==> forall|i: int| #[trigger]
                first_naming(m.tri_layers, i, active[n - 1], active[n - 2])
                    ==> m.current_layer() == m.tri_layers[i].target_layer
            &&& n >= 2 && (forall|i: int|
                0 <= i < m.tri_layers.len() ==> !names(
                    #[trigger] m.tri_layers[i],
                    active[n - 1],
                    active[n - 2],
                )) ==> m.current_layer() == active[n - 1]
        }),
{
    let active = states::layers_of(m.states);
    if active.len() >= 2 {
        law_the_first_tri_layer_applies(
            m.tri_layers,
            active[active.len() - 1],
            active[active.len() - 2],
        );
    }
}

/// Adding a tri-layer puts it after the others and changes nothing else.
pub proof fn law_tri_layers_are_added<T: 'static, K: 'static + Copy>(
    m: LayoutView<T, K>,
    layer_0: usize,
    layer_1: usize,
    target_layer: usize,
)
    ensures
        m.with_tri_layer((layer_0, layer_1), target_layer) == (LayoutView {
            tri_layers: m.tri_layers.push(
                TriLayer { activation_layers: (layer_0, layer_1), target_layer },
            ),
            ..m
        }),
{
}

/// Every layer that exists, the first one too, can be made the default layer, by
/// the call as by the action of a key, and as often as one likes. Nothing else
/// changes, but that the key is the last one pressed. With no layer active the
/// default layer is in force. What does not exist is not made the default layer.
pub proof fn law_every_layer_can_be_the_default<T: 'static, K: 'static + Copy>(
    m: LayoutView<T, K>,
    value: usize,
    coord: (u8, u8),
    delay: u16,
)
    ensures
        value < m.layers.len() ==> m.with_default_layer(value) == (LayoutView {
            default_layer: value,
            ..m
        }),
        value >= m.layers.len() ==> m.with_default_layer(value) == m,
        value < m.layers.len() && states::layers_of(m.states).len() == 0 ==> m.with_default_layer(
            value,
        ).current_layer() == value,
        m.waiting is None ==> ({
            let o = m.act(Action::DefaultLayer(value), coord, delay);
            &&& o.ok
            &&& o.event == CustomEvent::<T>::NoEvent
            &&& o.layout == (LayoutView {
                default_layer: if value < m.layers.len() {
                    value
                } else {
                    m.default_layer
                },
                tap_hold_tracker: TapHoldTracker { coord, timeout: m.tap_hold_tracker.timeout },
                ..m
            })
        }),
{
    if m.waiting is None {
        assert(m.act_within(Action::DefaultLayer(value), coord, delay, 0).ok);
    }
}

/// The action of a sequence starts it after those that are being played, with all
/// of its events, however many they are, still to be played. If there are four
/// already, the oldest one ends. Nothing else changes.
pub proof fn law_sequences_start_with_all_their_events<T: 'static, K: 'static + Copy>(
    m: LayoutView<T, K>,
    events: &'static &'static [SequenceEvent<K>],
    coord: (u8, u8),
    delay: u16,
)
    requires
        m.waiting is None,
    ensures
        ({
            let o = m.act(Action::Sequence(events), coord, delay);
            let kept = if m.sequences.len() < 4 {
                m.sequences
            } else {
                m.sequences.drop_first()
            };
            &&& o.ok
            &&& o.event == CustomEvent::<T>::NoEvent
            &&& o.layout.sequences.len() == kept.len() + 1
            &&& o.layout.sequences.drop_last() == kept
            &&& o.layout.sequences.last().remaining == events@
            &&& o.layout.sequences.last().cur_event is None
            &&& o.layout.sequences.last().delay == 0
            &&& o.layout.sequences.last().tapped is None
            &&& o.layout.sequences.last().saved.len() == 0
            &&& o.layout == (LayoutView { sequences: o.layout.sequences, ..m })
        }),
{
    assert(m.act_within(Action::Sequence(events), coord, delay, 0).ok);
    let o = m.act(Action::Sequence(events), coord, delay);
    let kept = if m.sequences.len() < 4 {
        m.sequences
    } else {
        m.sequences.drop_first()
    };
    assert(o.layout.sequences.drop_last() =~= kept);
}

/// What the plain actions do. Nothing and transparency change nothing at all. A key
/// code, several key codes, a layer and a custom action become states of the key,
/// after the others and as far as there is room for 64; the key becomes the last one
/// pressed; nothing else changes. Only a custom action that there was room for is
/// reported.
pub proof fn law_plain_actions<T: 'static, K: 'static + Copy>(
    m: LayoutView<T, K>,
    keycode: K,
    keycodes: &'static &'static [K],
    layer: usize,
    value: T,
    coord: (u8, u8),
    delay: u16,
)
    requires
        m.waiting is None,
    ensures
        ({
            let noted = LayoutView {
                tap_hold_tracker: TapHoldTracker { coord, timeout: m.tap_hold_tracker.timeout },
                ..m
            };
            let room = m.states.len() < 64;
            let nothing = m.act(Action::NoOp, coord, delay);
            let trans = m.act(Action::Trans, coord, delay);
            let key = m.act(Action::KeyCode(keycode), coord, delay);
            let keys = m.act(Action::MultipleKeyCodes(keycodes), coord, delay);
            let layers = m.act(Action::Layer(layer), coord, delay);
            let custom = m.act(Action::Custom(value), coord, delay);
            &&& nothing.ok && trans.ok && key.ok && keys.ok && layers.ok && custom.ok
            &&& nothing.event is NoEvent && trans.event is NoEvent && key.event is NoEvent
            &&& keys.event is NoEvent && layers.event is NoEvent
            &&& custom.event == if room {
                CustomEvent::Press(&value)
            } else {
                CustomEvent::NoEvent
            }
            &&& nothing.layout == m
            &&& trans.layout == m
            &&& key.layout == (LayoutView {
                states: if room {
                    m.states.push(State::NormalKey { keycode, coord })
                } else {
                    m.states
                },
                ..noted
            })
            &&& layers.layout == (LayoutView {
                states: if room {
                    m.states.push(State::LayerModifier { value: layer, coord })
                } else {
                    m.states
                },
                ..noted
            })
            &&& custom.layout == (LayoutView {
                states: if room {
                    m.states.push(State::Custom { value: &value, coord })
                } else {
                    m.states
                },
                ..noted
            })
            &&& keys.layout == (LayoutView { states: keys.layout.states, ..noted })
            &&& keys.layout.states.len() == m.states.len() + states_laws::room_for(
                m.states.len(),
                keycodes@.len(),
            )
            &&& forall|i: int|
                0 <= i < m.states.len() ==> (#[trigger] keys.layout.states[i]) == m.states[i]
            &&& forall|i: int|
                0 <= i < keys.layout.states.len() - m.states.len()
                    ==> #[trigger] keys.layout.states[m.states.len() + i] == (State::<
                    T,
                    K,
                >::NormalKey { keycode: keycodes@[i], coord })
        }),
{
    assert(m.act_within(Action::NoOp, coord, delay, 0).ok);
    assert(m.act_within(Action::Trans, coord, delay, 0).ok);
    assert(m.act_within(Action::KeyCode(keycode), coord, delay, 0).ok);
    assert(m.act_within(Action::MultipleKeyCodes(keycodes), coord, delay, 0).ok);
    assert(m.act_within(Action::Layer(layer), coord, delay, 0).ok);
    assert(m.act_within(Action::Custom(value), coord, delay, 0).ok);
    states_laws::law_several_keycodes(m.states, keycodes@, coord);
}

/// A hold-tap key is tapped at once if it is the last one pressed and its tap-hold
/// interval is running: that ends the interval and does the tap action, and the key
/// is the last one pressed. Otherwise it waits for its timeout and its interval
/// begins; nothing else changes.
pub proof fn law_hold_tap_actions<T: 'static, K: 'static + Copy>(
    m: LayoutView<T, K>,
    h: &'static HoldTapAction<T, K>,
    coord: (u8, u8),
    delay: u16,
)
    requires
        m.waiting is None,
    ensures
        ({
            let o = m.act(Action::HoldTap(h), coord, delay);
            let at_once = h.tap_hold_interval > 0 && m.tap_hold_tracker.coord == coord
                && m.tap_hold_tracker.timeout > 0;
            let tapped = (LayoutView {
                tap_hold_tracker: TapHoldTracker { coord, timeout: 0 },
                ..m
            }).act(h.tap, coord, delay);
            &&& !at_once ==> o.ok && o.event == CustomEvent::<T>::NoEvent && o.layout == (
            LayoutView {
                waiting: Some(
                    WaitingState {
                        coord,
                        timeout: h.timeout,
                        delay,
                        hold: &h.hold,
                        tap: &h.tap,
                        config: h.config,
                        before: m.tap_hold_tracker,
                    },
                ),
                tap_hold_tracker: TapHoldTracker { coord, timeout: h.tap_hold_interval },
                ..m
            })
            &&& at_once ==> o.ok == tapped.ok
            &&& at_once && tapped.ok ==> o.event == tapped.event && o.layout == (LayoutView {
                tap_hold_tracker: TapHoldTracker {
                    coord,
                    timeout: tapped.layout.tap_hold_tracker.timeout,
                },
                ..tapped.layout
            })
        }),
{
    let action = Action::HoldTap(h);
    let at_once = h.tap_hold_interval > 0 && m.tap_hold_tracker.coord == coord
        && m.tap_hold_tracker.timeout > 0;
    if !at_once {
        steady::law_depth_is_immaterial(m, action, coord, delay, 0);
    } else {
        let start = LayoutView { tap_hold_tracker: TapHoldTracker { coord, timeout: 0 }, ..m };
        assert(start == m.without_interval());
        let tapped = start.act(h.tap, coord, delay);
        let o = m.act(action, coord, delay);
        if tapped.ok {
            let depth = choose|depth: nat|
                (#[trigger] start.act_within(h.tap, coord, delay, depth)).ok;
            assert((depth + 1 - 1) as nat == depth);
            steady::law_depth_is_immaterial(m, action, coord, delay, depth + 1);
        }
        if o.ok {
            let depth = choose|depth: nat|
                (#[trigger] m.act_within(action, coord, delay, depth)).ok;
            assert(start.act_within(h.tap, coord, delay, (depth - 1) as nat).ok);
        }
    }
}

/// The custom event of two steps together: a release that the first one reports
/// stays, a press gives way only to a release, and nothing gives way to anything.
pub open spec fn both_events<T: 'static>(
    first: CustomEvent<T>,
    second: CustomEvent<T>,
) -> CustomEvent<T> {
    match first {
        CustomEvent::Release(value) => CustomEvent::Release(value),
        CustomEvent::Press(value) => match second {
            CustomEvent::Release(other) => CustomEvent::Release(other),
            _ => CustomEvent::Press(value),
        },
        CustomEvent::NoEvent => second,
    }
}

/// An update combines the custom events of two steps.
pub proof fn law_custom_events_are_combined<T: 'static>(
    first: CustomEvent<T>,
    second: CustomEvent<T>,
)
    ensures
        first.updated(second) == both_events(first, second),
{
}

/// Whether actions of a key can be done one after the other, and the layout and the
/// custom event after that.
pub open spec fn in_turn<T: 'static, K: 'static + Copy>(
    m: LayoutView<T, K>,
    actions: Seq<Action<T, K>>,
    coord: (u8, u8),
    delay: u16,
) -> (bool, LayoutView<T, K>, CustomEvent<T>)
    decreases actions.len(),
{
    if actions.len() == 0 {
        (true, m, CustomEvent::NoEvent)
    } else {
        let (ok, before, event) = in_turn(m, actions.drop_last(), coord, delay);
        let last = before.act(actions.last(), coord, delay);
        (ok && last.ok, last.layout, both_events(event, last.event))
    }
}

proof fn lemma_all_within_in_turn<T: 'static, K: 'static + Copy>(
    m: LayoutView<T, K>,
    actions: Seq<Action<T, K>>,
    coord: (u8, u8),
    delay: u16,
    depth: nat,
)
    requires
        m.act_all_within(actions, coord, delay, depth).ok,
    ensures
        ({
            let o = m.act_all_within(actions, coord, delay, depth);
            in_turn(m, actions, coord, delay) == (true, o.layout, o.event)
        }),
    decreases actions.len(),
{
    if actions.len() > 0 {
        lemma_all_within_in_turn(m, actions.drop_last(), coord, delay, depth);
        let before = m.act_all_within(actions.drop_last(), coord, delay, depth);
        steady::law_depth_is_immaterial(before.layout, actions.last(), coord, delay, depth);
    }
}

proof fn lemma_in_turn_within<T: 'static, K: 'static + Copy>(
    m: LayoutView<T, K>,
    actions: Seq<Action<T, K>>,
    coord: (u8, u8),
    delay: u16,
) -> (depth: nat)
    requires
        in_turn(m, actions, coord, delay).0,
    ensures
        m.act_all_within(actions, coord, delay, depth).ok,
    decreases actions.len(),
{
    if actions.len() == 0 {
        0
    } else {
        let first = actions.drop_last();
        let d1 = lemma_in_turn_within(m, first, coord, delay);
        lemma_all_within_in_turn(m, first, coord, delay, d1);
        let before = m.act_all_within(first, coord, delay, d1).layout;
        assert(before.act(actions.last(), coord, delay).ok);
        let d2 = choose|depth: nat|
            (#[trigger] before.act_within(actions.last(), coord, delay, depth)).ok;
        let depth = if d1 < d2 {
            d2
        } else {
            d1
        };
        steady::lemma_act_all_deeper(m, first, coord, delay, d1, depth);
        steady::lemma_act_within_deeper(before, actions.last(), coord, delay, d2, depth);
        depth
    }
}

/// Several actions are done one after the other, all of them and in their order,
/// after the key has become the last one pressed. They can be done exactly if each
/// can when its turn comes.
pub proof fn law_several_actions<T: 'static, K: 'static + Copy>(
    m: LayoutView<T, K>,
    actions: &'static &'static [Action<T, K>],
    coord: (u8, u8),
    delay: u16,
)
    requires
        m.waiting is None,
    ensures
        ({
            let noted = LayoutView {
                tap_hold_tracker: TapHoldTracker { coord, timeout: m.tap_hold_tracker.timeout },
                ..m
            };
            let o = m.act(Action::MultipleActions(actions), coord, delay);
            let (ok, layout, event) = in_turn(noted, actions@, coord, delay);
            &&& o.ok == ok
            &&& ok ==> o.layout == layout && o.event == event
        }),
{
    let noted = LayoutView {
        tap_hold_tracker: TapHoldTracker { coord, timeout: m.tap_hold_tracker.timeout },
        ..m
    };
    let action = Action::MultipleActions(actions);
    assert(noted == m.with_last_key(coord));
    let o = m.act(action, coord, delay);
    if o.ok {
        let depth = choose|depth: nat| (#[trigger] m.act_within(action, coord, delay, depth)).ok;
        lemma_all_within_in_turn(noted, actions@, coord, delay, (depth - 1) as nat);
    }
    if in_turn(noted, actions@, coord, delay).0 {
        let depth = lemma_in_turn_within(noted, actions@, coord, delay);
        assert((depth + 1 - 1) as nat == depth);
        steady::law_depth_is_immaterial(m, action, coord, delay, depth + 1);
        lemma_all_within_in_turn(noted, actions@, coord, delay, depth);
    }
}

/// No action can be done while a key waits.
pub proof fn law_nothing_is_done_while_a_key_waits<T: 'static, K: 'static + Copy>(
    m: LayoutView<T, K>,
    action: Action<T, K>,
    coord: (u8, u8),
    delay: u16,
)
    requires
        m.waiting is Some,
    ensures
        !m.act(action, coord, delay).ok,
{
}

/// A layout and the one that differs from it only in what a waiting key remembers.
pub open spec fn same_but_for_before<T: 'static, K: 'static + Copy>(
    m: LayoutView<T, K>,
    other: LayoutView<T, K>,
    before: TapHoldTracker,
) -> bool {
    &&& other == (LayoutView { waiting: other.waiting, ..m })
    &&& m.waiting is None ==> other.waiting is None
    &&& m.waiting matches Some(w) ==> other.waiting == Some(WaitingState { before, ..w })
}

/// A press does the action that the key has on the layer in force, with the time for
/// which the press was stacked. A key that it leaves waiting remembers which key was
/// the last one pressed before.
pub proof fn law_presses<T: 'static, K: 'static + Copy>(
    m: LayoutView<T, K>,
    i: u8,
    j: u8,
    since: u16,
)
    ensures
        ({
            let o = m.unstack(Stacked { event: Event::Press(i, j), since });
            let done = m.act(m.press_as_action((i, j), m.current_layer()), (i, j), since);
            &&& o.ok == done.ok
            &&& o.event == done.event
            &&& same_but_for_before(done.layout, o.layout, m.tap_hold_tracker)
        }),
{
}

/// A key that is held or tapped no longer waits and does its hold or its tap action,
/// as one that was not stacked. Holding ends the tap-hold interval of the key. A key
/// that is dropped only makes the key before it the last one pressed again. With no
/// key waiting there is nothing to decide.
pub proof fn law_decided_keys<T: 'static, K: 'static + Copy>(m: LayoutView<T, K>)
    ensures
        m.waiting is None ==> ({
            &&& m.waiting_into_hold().layout == m && m.waiting_into_hold().ok
            &&& m.waiting_into_tap().layout == m && m.waiting_into_tap().ok
            &&& m.drop_waiting().layout == m && m.drop_waiting().ok
            &&& m.waiting_into_hold().event is NoEvent && m.waiting_into_tap().event is NoEvent
        }),
        m.drop_waiting().event is NoEvent,
        m.waiting matches Some(w) ==> ({
            let hold = m.waiting_into_hold();
            let tap = m.waiting_into_tap();
            let drop = m.drop_waiting();
            let held = (LayoutView {
                waiting: None,
                tap_hold_tracker: TapHoldTracker {
                    coord: m.tap_hold_tracker.coord,
                    timeout: if w.coord == m.tap_hold_tracker.coord {
                        0
                    } else {
                        m.tap_hold_tracker.timeout
                    },
                },
                ..m
            }).act(*w.hold, w.coord, 0);
            let tapped = (LayoutView { waiting: None, ..m }).act(*w.tap, w.coord, 0);
            &&& hold.ok == held.ok && hold.event == held.event
            &&& same_but_for_before(held.layout, hold.layout, w.before)
            &&& tap.ok == tapped.ok && tap.event == tapped.event
            &&& same_but_for_before(tapped.layout, tap.layout, w.before)
            &&& drop.ok
            &&& drop.layout == (LayoutView { waiting: None, tap_hold_tracker: w.before, ..m })
        }),
{
    if let Some(w) = m.waiting {
        let held = LayoutView {
            waiting: None,
            tap_hold_tracker: TapHoldTracker {
                coord: m.tap_hold_tracker.coord,
                timeout: if w.coord == m.tap_hold_tracker.coord {
                    0
                } else {
                    m.tap_hold_tracker.timeout
                },
            },
            ..m
        };
        assert(held == m.holding(w.coord));
        assert((LayoutView { waiting: None, ..m }) == m.without_waiting());
    }
}

/// A new layout has the layers that it was made from. Nothing is active, stacked or
/// played in it, no key waits, there are no tri-layers, and the first layer is the
/// default layer.
pub proof fn law_new_layouts<T: 'static, K: 'static + Copy>(layers: Seq<Seq<Seq<Action<T, K>>>>)
    ensures
        ({
            let m = LayoutView::initial(layers);
            &&& m.layers == layers
            &&& m.default_layer == 0
            &&& m.states.len() == 0
            &&& m.waiting is None
            &&& m.stacked.len() == 0
            &&& m.tap_hold_tracker.timeout == 0
            &&& m.tap_hold_tracker.coord == (0u8, 0u8)
            &&& m.sequences.len() == 0
            &&& m.tri_layers.len() == 0
        }),
{
}

} // verus!
