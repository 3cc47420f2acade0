//! Keys, layers, custom actions, and what there is room for.
use keyberon::action::Action::{Custom, DefaultLayer, HoldTap, MultipleActions, NoOp, Trans};
use keyberon::action::{k, l, m, Action, HoldTapAction, HoldTapConfig};
use keyberon::key_code::KeyCode::{self, A, B, C, D, LAlt, LShift, Space};
use keyberon::layout::tri_layer::TriLayer;
use keyberon::layout::Event::{Press, Release};
use keyberon::layout::{CustomEvent, Event, Layers, Layout, SavedKeyCodeState, Stacked, State};

fn leak<X>(x: X) -> &'static X {
    Box::leak(Box::new(x))
}

fn slice<X>(items: Vec<X>) -> &'static &'static [X] {
    let items: &'static [X] = items.leak();
    leak(items)
}

#[test]
fn transform_changes_the_coordinates() {
    assert_eq!(Press(3, 10), Press(3, 1).transform(|i, j| (i, 11 - j)));
    assert_eq!(Release(1, 3), Release(3, 1).transform(|i, j| (j, i)));
}

#[test]
fn parts_of_an_event() {
    assert_eq!(Press(3, 10).coord(), (3, 10));
    assert_eq!(Release(4, 5).coord(), (4, 5));
    assert!(Press(0, 0).is_press());
    assert!(!Press(0, 0).is_release());
    assert!(!Release(0, 0).is_press());
    assert!(Release(0, 0).is_release());
}

#[test]
fn custom_events_go_up_only() {
    let all: [fn() -> CustomEvent<u8>; 5] = [
        || CustomEvent::NoEvent,
        || CustomEvent::Press(&1),
        || CustomEvent::Press(&2),
        || CustomEvent::Release(&3),
        || CustomEvent::Release(&4),
    ];
    assert_eq!(CustomEvent::<u8>::default(), CustomEvent::NoEvent);
    // the index of what each of them is after an update by each of them
    let expected = [
        [0, 1, 2, 3, 4],
        [1, 1, 1, 3, 4],
        [2, 2, 2, 3, 4],
        [3, 3, 3, 3, 3],
        [4, 4, 4, 4, 4],
    ];
    for (i, before) in all.iter().enumerate() {
        for (j, new) in all.iter().enumerate() {
            let mut event = before();
            event.update(new());
            assert_eq!(event, all[expected[i][j]]());
        }
    }
}

#[test]
fn stacked_events_age() {
    let mut stacked = Stacked::from(Press(1, 2));
    assert_eq!((stacked.event(), stacked.since), (Press(1, 2), 0));
    stacked.tick();
    assert_eq!((stacked.event(), stacked.since), (Press(1, 2), 1));
    stacked.since = 65534;
    stacked.tick();
    stacked.tick();
    assert_eq!(stacked.since, 65535);
}

#[test]
fn states_are_released_by_their_key() {
    let normal: State<u8, KeyCode> = State::NormalKey { keycode: A, coord: (1, 2) };
    let layer: State<u8, KeyCode> = State::LayerModifier { value: 3, coord: (1, 2) };
    let custom: State<u8, KeyCode> = State::Custom { value: &7, coord: (1, 2) };
    let fake: State<u8, KeyCode> = State::FakeKey { keycode: A };
    assert_eq!([normal, layer, custom, fake].map(|s| s.keycode()), [Some(A), None, None, Some(A)]);
    assert_eq!([normal, layer, custom, fake].map(|s| s.get_layer()), [None, Some(3), None, None]);
    for state in [normal, layer, custom, fake] {
        assert_eq!(state.tick(), Some(state));
        let mut event = CustomEvent::NoEvent;
        assert_eq!(state.release((2, 1), &mut event), Some(state));
        assert_eq!(event, CustomEvent::NoEvent);
        let left = state.release((1, 2), &mut event);
        assert_eq!(left, if state == fake { Some(fake) } else { None });
        let released = if state == custom { CustomEvent::Release(&7) } else { CustomEvent::NoEvent };
        assert_eq!(event, released);
        assert_eq!(state.seq_release(B), Some(state));
        assert_eq!(state.seq_release(A), if state == fake { None } else { Some(state) });
    }
}

#[test]
fn saving_keeps_the_state() {
    for state in [
        State::<u8, KeyCode>::NormalKey { keycode: A, coord: (1, 2) },
        State::FakeKey { keycode: B },
    ] {
        let saved = SavedKeyCodeState::try_from(state).unwrap();
        assert_eq!(State::from(saved), state);
    }
    for state in [
        State::<u8, KeyCode>::LayerModifier { value: 3, coord: (1, 2) },
        State::Custom { value: &7, coord: (1, 2) },
    ] {
        assert_eq!(
            SavedKeyCodeState::try_from(state).unwrap_err(),
            "Unsupported State conversion to SavedKeyCodeState",
        );
    }
}

#[test]
fn tri_layers_apply_in_any_order() {
    let tri_layer = TriLayer { activation_layers: (1, 2), target_layer: 3 };
    assert_eq!(tri_layer.apply(1, 2), Some(3));
    assert_eq!(tri_layer.apply(2, 1), Some(3));
    assert_eq!(tri_layer.apply(1, 1), None);
    assert_eq!(tri_layer.apply(2, 3), None);
}

#[test]
fn first_tri_layer_wins() {
    let layers: &'static Layers<3, 1, 5> = leak([
        [[l(1), l(2), l(4)]],
        [[Trans, Trans, Trans]],
        [[Trans, Trans, Trans]],
        [[k(A), k(A), k(A)]],
        [[Trans, Trans, Trans]],
    ]);
    let mut layout = Layout::new(layers);
    layout.add_tri_layer((2, 1), 3);
    layout.add_tri_layer((1, 2), 0);
    layout.add_tri_layer((2, 4), 1);
    for event in [Press(0, 1), Press(0, 0)] {
        layout.event(event);
        layout.tick();
    }
    assert_eq!(layout.current_layer(), 3);
    layout.event(Release(0, 0));
    layout.tick();
    assert_eq!(layout.current_layer(), 2);
    layout.event(Press(0, 2));
    layout.tick();
    assert_eq!(layout.current_layer(), 1);
    layout.event(Release(0, 1));
    layout.tick();
    assert_eq!(layout.current_layer(), 4);
}

#[test]
fn tri_layer_looks_at_the_last_two_layers_only() {
    let layers: &'static Layers<3, 1, 4> = leak([
        [[l(1), l(2), l(3)]],
        [[Trans, Trans, Trans]],
        [[Trans, Trans, Trans]],
        [[Trans, Trans, Trans]],
    ]);
    let mut layout = Layout::new(layers);
    layout.add_tri_layer((1, 2), 0);
    for event in [Press(0, 0), Press(0, 2), Press(0, 1)] {
        layout.event(event);
        layout.tick();
    }
    assert_eq!(layout.current_layer(), 2);
    layout.event(Release(0, 2));
    layout.tick();
    assert_eq!(layout.current_layer(), 0);
}

#[test]
fn transparent_keys_fall_to_the_default_layer() {
    let layers: &'static Layers<3, 1, 3> = leak([
        [[k(A), Trans, DefaultLayer(1)]],
        [[k(B), k(C), l(2)]],
        [[Trans, Trans, NoOp]],
    ]);
    let mut layout = Layout::new(layers);
    // transparent on the default layer itself: nothing
    layout.event(Press(0, 1));
    layout.tick();
    assert_eq!(layout.keycodes(), vec![]);
    layout.event(Release(0, 1));
    layout.tick();
    layout.event(Press(0, 2));
    layout.event(Release(0, 2));
    layout.tick();
    layout.tick();
    assert_eq!(layout.current_layer(), 1);
    // transparent above the default layer
    for event in [Press(0, 2), Press(0, 0), Press(0, 1)] {
        layout.event(event);
        layout.tick();
    }
    assert_eq!(layout.current_layer(), 2);
    assert_eq!(layout.keycodes(), vec![B, C]);
    // a key that does nothing, and keys that do not exist
    for event in [Press(0, 2), Press(0, 3), Press(1, 0), Press(255, 255)] {
        layout.event(event);
        layout.tick();
    }
    assert_eq!(layout.keycodes(), vec![B, C]);
}

#[test]
fn layer_that_does_not_exist_has_no_keys() {
    let layers: &'static Layers<2, 1, 1> = leak([[[l(5), k(A)]]]);
    let mut layout = Layout::new(layers);
    layout.event(Press(0, 0));
    layout.event(Press(0, 1));
    layout.tick();
    layout.tick();
    assert_eq!(layout.current_layer(), 5);
    assert_eq!(layout.keycodes(), vec![]);
}

#[test]
fn default_layer_stays_one_that_exists() {
    let layers: &'static Layers<1, 1, 2> = leak([[[DefaultLayer(2)]], [[k(A)]]]);
    let mut layout = Layout::new(layers);
    layout.event(Press(0, 0));
    layout.tick();
    assert_eq!(layout.current_layer(), 0);
    layout.set_default_layer(2);
    assert_eq!(layout.current_layer(), 0);
    layout.set_default_layer(1);
    assert_eq!(layout.current_layer(), 1);
    layout.set_default_layer(7);
    assert_eq!(layout.current_layer(), 1);
}

#[test]
fn keycodes_are_reported_in_the_order_of_the_presses() {
    let layers: &'static Layers<3, 1, 1> = leak([[[k(C), k(A), m(slice(vec![LShift, B]))]]]);
    let mut layout = Layout::new(layers);
    for event in [Press(0, 0), Press(0, 2), Press(0, 1), Release(0, 0)] {
        layout.event(event);
    }
    let mut seen = Vec::new();
    for _ in 0..5 {
        layout.tick();
        seen.push(layout.keycodes());
    }
    assert_eq!(
        seen,
        vec![
            vec![C],
            vec![C, LShift, B],
            vec![C, LShift, B, A],
            vec![LShift, B, A],
            vec![LShift, B, A],
        ]
    );
}

#[test]
fn press_and_release_leave_no_trace() {
    let action: Action<u8> = MultipleActions(slice(vec![
        l(1),
        k(A),
        m(slice(vec![B, C])),
        MultipleActions(slice(vec![Custom(5), k(D)])),
    ]));
    let layers: &'static Layers<2, 1, 2, u8> = leak([[[k(Space), action]], [[Trans, Trans]]]);
    let mut layout = Layout::new(layers);
    layout.event(Press(0, 0));
    layout.tick();
    layout.event(Press(0, 1));
    assert_eq!(layout.tick(), CustomEvent::Press(&5));
    assert_eq!(layout.keycodes(), vec![Space, A, B, C, D]);
    assert_eq!(layout.current_layer(), 1);
    layout.event(Release(0, 1));
    assert_eq!(layout.tick(), CustomEvent::Release(&5));
    assert_eq!(layout.keycodes(), vec![Space]);
    assert_eq!(layout.current_layer(), 0);
}

#[test]
fn first_custom_action_of_a_key_is_reported() {
    let layers: &'static Layers<1, 1, 1, u8> =
        leak([[[MultipleActions(slice(vec![Custom(1), Custom(2)]))]]]);
    let mut layout = Layout::new(layers);
    layout.event(Press(0, 0));
    layout.event(Release(0, 0));
    assert_eq!(layout.tick(), CustomEvent::Press(&1));
    assert_eq!(layout.tick(), CustomEvent::Release(&1));
    assert_eq!(layout.tick(), CustomEvent::NoEvent);
}

#[test]
fn idle_ticks_change_nothing() {
    let layers: &'static Layers<2, 1, 2, u8> = leak([[[k(A), l(1)]], [[Trans, Trans]]]);
    let mut layout = Layout::new(layers);
    layout.event(Press(0, 0));
    layout.event(Press(0, 1));
    layout.tick();
    layout.tick();
    for _ in 0..1000 {
        assert_eq!(layout.tick(), CustomEvent::NoEvent);
        assert_eq!(layout.keycodes(), vec![A]);
        assert_eq!(layout.current_layer(), 1);
    }
}

#[test]
fn there_is_room_for_64_states() {
    let layers: &'static Layers<3, 1, 1, u8> =
        leak([[[m(slice(vec![A; 63])), Custom(1), m(slice(vec![B, C]))]]]);
    let mut layout = Layout::new(layers);
    layout.event(Press(0, 0));
    layout.tick();
    assert_eq!(layout.keycodes(), vec![A; 63]);
    layout.event(Press(0, 2));
    layout.tick();
    let mut expected = vec![A; 63];
    expected.push(B);
    assert_eq!(layout.keycodes(), expected);
    // no room for the custom action either: its press is not reported
    layout.event(Press(0, 1));
    assert_eq!(layout.tick(), CustomEvent::NoEvent);
    layout.event(Release(0, 1));
    assert_eq!(layout.tick(), CustomEvent::NoEvent);
    layout.event(Release(0, 0));
    layout.tick();
    assert_eq!(layout.keycodes(), vec![B]);
}

#[test]
fn there_is_room_for_32_events() {
    let layers: &'static Layers<2, 1, 1> = leak([[[k(A), k(B)]]]);
    let mut layout = Layout::new(layers);
    layout.event(Press(0, 0));
    for _ in 0..31 {
        layout.event(Press(0, 1));
    }
    assert_eq!(layout.keycodes(), vec![]);
    // one more: the oldest is processed at once, and the newest comes last
    layout.event(Release(0, 0));
    assert_eq!(layout.keycodes(), vec![A]);
    for n in 1..32 {
        layout.tick();
        assert_eq!(layout.keycodes().len(), 1 + n);
    }
    layout.tick();
    assert_eq!(layout.keycodes(), vec![B; 31]);
    layout.tick();
    assert_eq!(layout.keycodes(), vec![B; 31]);
}

#[test]
fn too_many_events_hold_the_waiting_key() {
    let layers: &'static Layers<2, 1, 1> = leak([[[
        HoldTap(leak(HoldTapAction {
            timeout: 200,
            hold: k(LAlt),
            tap: k(Space),
            config: HoldTapConfig::Default,
            tap_hold_interval: 0,
        })),
        k(B),
    ]]]);
    let mut layout = Layout::new(layers);
    layout.event(Press(0, 0));
    layout.tick();
    for _ in 0..32 {
        layout.event(Press(0, 1));
    }
    assert_eq!(layout.keycodes(), vec![]);
    layout.event(Release(0, 0));
    assert_eq!(layout.keycodes(), vec![LAlt, B]);
}

/// Hold-tap keys of every kind, layers, sequences and nested actions, with
/// thousands of events and ticks in a pseudo-random order.
#[test]
fn steady_layouts_take_everything() {
    let hold_tap = |timeout, config, tap_hold_interval| {
        HoldTap(leak(HoldTapAction {
            timeout,
            hold: MultipleActions(slice(vec![l(1), k(LAlt)])),
            tap: k(Space),
            config,
            tap_hold_interval,
        }))
    };
    let layers: &'static Layers<4, 2, 2> = leak([
        [
            [
                hold_tap(2046, HoldTapConfig::Default, 0),
                hold_tap(3, HoldTapConfig::HoldOnOtherKeyPress, 20),
                hold_tap(9, HoldTapConfig::PermissiveHold, 5),
                k(A),
            ],
            [
                MultipleActions(slice(vec![k(B), hold_tap(5, HoldTapConfig::Default, 7)])),
                DefaultLayer(1),
                l(1),
                m(slice(vec![A, B])),
            ],
        ],
        [[Trans, Trans, k(C), Trans], [DefaultLayer(0), Trans, Trans, Trans]],
    ]);
    let mut layout = Layout::new(layers);
    layout.add_tri_layer((1, 1), 0);
    let mut seed: u32 = 12345;
    let mut next = |bound: u32| {
        seed = seed.wrapping_mul(1664525).wrapping_add(1013904223);
        (seed >> 16) % bound
    };
    for _ in 0..20000 {
        match next(4) {
            0 => layout.event(Event::Press(next(3) as u8, next(5) as u8)),
            1 => layout.event(Event::Release(next(3) as u8, next(5) as u8)),
            _ => {
                layout.tick();
            }
        }
        assert!(layout.keycodes().len() <= 64);
        assert!(layout.current_layer() < 2);
    }
}
