//! How a layout behaves, event by event and tick by tick.
use keyberon::action::Action::{self, HoldTap, MultipleActions, Sequence, Trans};
use keyberon::action::{k, l, m, HoldTapAction, HoldTapConfig, SequenceEvent};
use keyberon::key_code::KeyCode::{
    self, Enter, Kb0, Kb1, Kb2, Kb3, Kb4, Kb5, Kb6, Kb7, LAlt, LCtrl, LShift, RAlt, RShift, Space, A, B,
    C, D, E, F, I, L, M, N, O, P, Q, R, T, U, W, X, Y, Z,
};
use keyberon::layout::Event::{Press, Release};
use keyberon::layout::{CustomEvent, HoldTapHandler, Layers, Layout, StackedIter, WaitingAction};
use std::collections::BTreeSet;

fn leak<X>(x: X) -> &'static X {
    Box::leak(Box::new(x))
}

fn slice<X>(items: Vec<X>) -> &'static &'static [X] {
    let items: &'static [X] = items.leak();
    leak(items)
}

fn assert_keys(expected: &[KeyCode], keycodes: Vec<KeyCode>) {
    let expected: BTreeSet<KeyCode> = expected.iter().copied().collect();
    let tested: BTreeSet<KeyCode> = keycodes.into_iter().collect();
    assert_eq!(expected, tested);
}

/// A handler that always gives the same answer.
struct Always(Option<WaitingAction>);

impl HoldTapHandler for Always {
    fn decide(&self, _: StackedIter) -> Option<WaitingAction> {
        self.0
    }
}

#[test]
fn basic_hold_tap() {
    let layers: &'static Layers<2, 1, 2> = leak([
        [[
            HoldTap(leak(HoldTapAction {
                timeout: 200,
                hold: l(1),
                tap: k(Space),
                config: HoldTapConfig::Default,
                tap_hold_interval: 0,
            })),
            HoldTap(leak(HoldTapAction {
                timeout: 200,
                hold: k(LCtrl),
                tap: k(Enter),
                config: HoldTapConfig::Default,
                tap_hold_interval: 0,
            })),
        ]],
        [[Trans, m(slice(vec![LCtrl, Enter]))]],
    ]);
    let mut layout = Layout::new(layers);
    assert_eq!(CustomEvent::NoEvent, layout.tick());
    assert_keys(&[], layout.keycodes());
    layout.event(Press(0, 1));
    assert_eq!(CustomEvent::NoEvent, layout.tick());
    assert_keys(&[], layout.keycodes());
    layout.event(Press(0, 0));
    assert_eq!(CustomEvent::NoEvent, layout.tick());
    assert_keys(&[], layout.keycodes());
    layout.event(Release(0, 0));
    for _ in 0..197 {
        assert_eq!(CustomEvent::NoEvent, layout.tick());
        assert_keys(&[], layout.keycodes());
    }
    assert_eq!(CustomEvent::NoEvent, layout.tick());
    assert_keys(&[], layout.keycodes());
    assert_eq!(CustomEvent::NoEvent, layout.tick());
    assert_keys(&[LCtrl], layout.keycodes());
    assert_eq!(CustomEvent::NoEvent, layout.tick());
    assert_keys(&[LCtrl], layout.keycodes());
    assert_eq!(CustomEvent::NoEvent, layout.tick());
    assert_keys(&[LCtrl, Space], layout.keycodes());
    assert_eq!(CustomEvent::NoEvent, layout.tick());
    assert_keys(&[LCtrl], layout.keycodes());
    layout.event(Release(0, 1));
    assert_eq!(CustomEvent::NoEvent, layout.tick());
    assert_keys(&[], layout.keycodes());
}

#[test]
fn hold_tap_interleaved_timeout() {
    let layers: &'static Layers<2, 1, 1> = leak([[[
        HoldTap(leak(HoldTapAction {
            timeout: 200,
            hold: k(LAlt),
            tap: k(Space),
            config: HoldTapConfig::Default,
            tap_hold_interval: 0,
        })),
        HoldTap(leak(HoldTapAction {
            timeout: 20,
            hold: k(LCtrl),
            tap: k(Enter),
            config: HoldTapConfig::Default,
            tap_hold_interval: 0,
        })),
    ]]]);
    let mut layout = Layout::new(layers);
    assert_eq!(CustomEvent::NoEvent, layout.tick());
    assert_keys(&[], layout.keycodes());
    layout.event(Press(0, 0));
    assert_eq!(CustomEvent::NoEvent, layout.tick());
    assert_keys(&[], layout.keycodes());
    layout.event(Press(0, 1));
    for _ in 0..15 {
        assert_eq!(CustomEvent::NoEvent, layout.tick());
        assert_keys(&[], layout.keycodes());
    }
    layout.event(Release(0, 0));
    assert_eq!(CustomEvent::NoEvent, layout.tick());
    assert_keys(&[Space], layout.keycodes());
    for _ in 0..10 {
        assert_eq!(CustomEvent::NoEvent, layout.tick());
        assert_keys(&[Space], layout.keycodes());
    }
    layout.event(Release(0, 1));
    assert_eq!(CustomEvent::NoEvent, layout.tick());
    assert_keys(&[Space, LCtrl], layout.keycodes());
    assert_eq!(CustomEvent::NoEvent, layout.tick());
    assert_keys(&[LCtrl], layout.keycodes());
    assert_eq!(CustomEvent::NoEvent, layout.tick());
    assert_keys(&[], layout.keycodes());
    assert_eq!(CustomEvent::NoEvent, layout.tick());
    assert_keys(&[], layout.keycodes());
}

#[test]
fn hold_on_press() {
    let layers: &'static Layers<2, 1, 1> = leak([[[
        HoldTap(leak(HoldTapAction {
            timeout: 200,
            hold: k(LAlt),
            tap: k(Space),
            config: HoldTapConfig::HoldOnOtherKeyPress,
            tap_hold_interval: 0,
        })),
        k(Enter),
    ]]]);
    let mut layout = Layout::new(layers);

    // Press another key before timeout
    assert_eq!(CustomEvent::NoEvent, layout.tick());
    assert_keys(&[], layout.keycodes());
    layout.event(Press(0, 0));
    assert_eq!(CustomEvent::NoEvent, layout.tick());
    assert_keys(&[], layout.keycodes());
    layout.event(Press(0, 1));
    assert_eq!(CustomEvent::NoEvent, layout.tick());
    assert_keys(&[LAlt], layout.keycodes());
    assert_eq!(CustomEvent::NoEvent, layout.tick());
    assert_keys(&[LAlt, Enter], layout.keycodes());
    layout.event(Release(0, 0));
    assert_eq!(CustomEvent::NoEvent, layout.tick());
    assert_keys(&[Enter], layout.keycodes());
    layout.event(Release(0, 1));
    assert_eq!(CustomEvent::NoEvent, layout.tick());
    assert_keys(&[], layout.keycodes());
    assert_eq!(CustomEvent::NoEvent, layout.tick());
    assert_keys(&[], layout.keycodes());

    // Press another key after timeout
    assert_eq!(CustomEvent::NoEvent, layout.tick());
    assert_keys(&[], layout.keycodes());
    layout.event(Press(0, 0));
    for _ in 0..200 {
        assert_eq!(CustomEvent::NoEvent, layout.tick());
        assert_keys(&[], layout.keycodes());
    }
    assert_eq!(CustomEvent::NoEvent, layout.tick());
    assert_keys(&[LAlt], layout.keycodes());
    layout.event(Press(0, 1));
    assert_eq!(CustomEvent::NoEvent, layout.tick());
    assert_keys(&[LAlt, Enter], layout.keycodes());
    layout.event(Release(0, 0));
    assert_eq!(CustomEvent::NoEvent, layout.tick());
    assert_keys(&[Enter], layout.keycodes());
    layout.event(Release(0, 1));
    assert_eq!(CustomEvent::NoEvent, layout.tick());
    assert_keys(&[], layout.keycodes());
    assert_eq!(CustomEvent::NoEvent, layout.tick());
    assert_keys(&[], layout.keycodes());
}

#[test]
fn permissive_hold() {
    let layers: &'static Layers<2, 1, 1> = leak([[[
        HoldTap(leak(HoldTapAction {
            timeout: 200,
            hold: k(LAlt),
            tap: k(Space),
            config: HoldTapConfig::PermissiveHold,
            tap_hold_interval: 0,
        })),
        k(Enter),
    ]]]);
    let mut layout = Layout::new(layers);

    // Press and release another key before timeout
    assert_eq!(CustomEvent::NoEvent, layout.tick());
    assert_keys(&[], layout.keycodes());
    layout.event(Press(0, 0));
    assert_eq!(CustomEvent::NoEvent, layout.tick());
    assert_keys(&[], layout.keycodes());
    layout.event(Press(0, 1));
    assert_eq!(CustomEvent::NoEvent, layout.tick());
    assert_keys(&[], layout.keycodes());
    layout.event(Release(0, 1));
    assert_eq!(CustomEvent::NoEvent, layout.tick());
    assert_keys(&[LAlt], layout.keycodes());
    assert_eq!(CustomEvent::NoEvent, layout.tick());
    assert_keys(&[LAlt, Enter], layout.keycodes());
    assert_eq!(CustomEvent::NoEvent, layout.tick());
    assert_keys(&[LAlt], layout.keycodes());
    assert_eq!(CustomEvent::NoEvent, layout.tick());
    assert_keys(&[LAlt], layout.keycodes());
    layout.event(Release(0, 0));
    assert_eq!(CustomEvent::NoEvent, layout.tick());
    assert_keys(&[], layout.keycodes());
    assert_eq!(CustomEvent::NoEvent, layout.tick());
    assert_keys(&[], layout.keycodes());
}

#[test]
fn stacked_hold_tap() {
    let layers: &'static Layers<2, 1, 1> = leak([[[
        k(Enter),
        HoldTap(leak(HoldTapAction {
            timeout: 10,
            hold: k(LAlt),
            tap: k(Space),
            config: HoldTapConfig::Default,
            tap_hold_interval: 0,
        })),
    ]]]);

    let mut layout = Layout::new(layers);
    assert_eq!(CustomEvent::NoEvent, layout.tick());
    // Push 2 events in a row, without ticking:
    // Press/Release attached to a HoldTap
    layout.event(Press(0, 1));
    layout.event(Release(0, 1));
    assert_eq!(CustomEvent::NoEvent, layout.tick());
    assert_eq!(CustomEvent::NoEvent, layout.tick());
}

#[test]
fn multiple_actions() {
    let layers: &'static Layers<2, 1, 2> = leak([
        [[MultipleActions(slice(vec![l(1), k(LShift)])), k(F)]],
        [[Trans, k(E)]],
    ]);
    let mut layout = Layout::new(layers);
    assert_eq!(CustomEvent::NoEvent, layout.tick());
    assert_keys(&[], layout.keycodes());
    layout.event(Press(0, 0));
    assert_eq!(CustomEvent::NoEvent, layout.tick());
    assert_keys(&[LShift], layout.keycodes());
    layout.event(Press(0, 1));
    assert_eq!(CustomEvent::NoEvent, layout.tick());
    assert_keys(&[LShift, E], layout.keycodes());
    layout.event(Release(0, 1));
    layout.event(Release(0, 0));
    assert_eq!(CustomEvent::NoEvent, layout.tick());
    assert_keys(&[LShift], layout.keycodes());
    assert_eq!(CustomEvent::NoEvent, layout.tick());
    assert_keys(&[], layout.keycodes());
}

#[test]
fn custom() {
    let layers: &'static Layers<1, 1, 1, u8> = leak([[[Action::Custom(42)]]]);
    let mut layout = Layout::new(layers);
    assert_eq!(CustomEvent::NoEvent, layout.tick());
    assert_keys(&[], layout.keycodes());

    // Custom event
    layout.event(Press(0, 0));
    assert_eq!(CustomEvent::Press(&42), layout.tick());
    assert_keys(&[], layout.keycodes());

    // nothing more
    assert_eq!(CustomEvent::NoEvent, layout.tick());
    assert_keys(&[], layout.keycodes());

    // release custom
    layout.event(Release(0, 0));
    assert_eq!(CustomEvent::Release(&42), layout.tick());
    assert_keys(&[], layout.keycodes());
}

#[test]
fn multiple_layers() {
    let layers: &'static Layers<2, 1, 4> = leak([
        [[l(1), l(2)]],
        [[k(A), l(3)]],
        [[l(0), k(B)]],
        [[k(C), k(D)]],
    ]);
    let mut layout = Layout::new(layers);
    assert_eq!(CustomEvent::NoEvent, layout.tick());
    assert_eq!(0, layout.current_layer());
    assert_keys(&[], layout.keycodes());

    // press L1
    layout.event(Press(0, 0));
    assert_eq!(CustomEvent::NoEvent, layout.tick());
    assert_eq!(1, layout.current_layer());
    assert_keys(&[], layout.keycodes());
    // press L3 on L1
    layout.event(Press(0, 1));
    assert_eq!(CustomEvent::NoEvent, layout.tick());
    assert_eq!(3, layout.current_layer());
    assert_keys(&[], layout.keycodes());
    // release L1, still on l3
    layout.event(Release(0, 0));
    assert_eq!(CustomEvent::NoEvent, layout.tick());
    assert_eq!(3, layout.current_layer());
    assert_keys(&[], layout.keycodes());
    // press and release C on L3
    layout.event(Press(0, 0));
    assert_eq!(CustomEvent::NoEvent, layout.tick());
    assert_keys(&[C], layout.keycodes());
    layout.event(Release(0, 0));
    assert_eq!(CustomEvent::NoEvent, layout.tick());
    assert_keys(&[], layout.keycodes());
    // release L3, back to L0
    layout.event(Release(0, 1));
    assert_eq!(CustomEvent::NoEvent, layout.tick());
    assert_eq!(0, layout.current_layer());
    assert_keys(&[], layout.keycodes());

    // back to empty, going to L2
    layout.event(Press(0, 1));
    assert_eq!(CustomEvent::NoEvent, layout.tick());
    assert_eq!(2, layout.current_layer());
    assert_keys(&[], layout.keycodes());
    // and press the L0 key on L2
    layout.event(Press(0, 0));
    assert_eq!(CustomEvent::NoEvent, layout.tick());
    assert_eq!(0, layout.current_layer());
    assert_keys(&[], layout.keycodes());
    // release the L0, back to L2
    layout.event(Release(0, 0));
    assert_eq!(CustomEvent::NoEvent, layout.tick());
    assert_eq!(2, layout.current_layer());
    assert_keys(&[], layout.keycodes());
    // release the L2, back to L0
    layout.event(Release(0, 1));
    assert_eq!(CustomEvent::NoEvent, layout.tick());
    assert_eq!(0, layout.current_layer());
    assert_keys(&[], layout.keycodes());
}

#[test]
fn custom_handler() {
    let layers: &'static Layers<4, 1, 1> = leak([[[
        HoldTap(leak(HoldTapAction {
            timeout: 200,
            hold: k(Kb1),
            tap: k(Kb0),
            config: HoldTapConfig::Custom(&Always(Some(WaitingAction::Tap))),
            tap_hold_interval: 0,
        })),
        HoldTap(leak(HoldTapAction {
            timeout: 200,
            hold: k(Kb3),
            tap: k(Kb2),
            config: HoldTapConfig::Custom(&Always(Some(WaitingAction::Hold))),
            tap_hold_interval: 0,
        })),
        HoldTap(leak(HoldTapAction {
            timeout: 200,
            hold: k(Kb5),
            tap: k(Kb4),
            config: HoldTapConfig::Custom(&Always(Some(WaitingAction::NoOp))),
            tap_hold_interval: 0,
        })),
        HoldTap(leak(HoldTapAction {
            timeout: 200,
            hold: k(Kb7),
            tap: k(Kb6),
            config: HoldTapConfig::Custom(&Always(None)),
            tap_hold_interval: 0,
        })),
    ]]]);
    let mut layout = Layout::new(layers);
    assert_eq!(CustomEvent::NoEvent, layout.tick());
    assert_keys(&[], layout.keycodes());

    // Custom handler always taps
    layout.event(Press(0, 0));
    assert_eq!(CustomEvent::NoEvent, layout.tick());
    assert_keys(&[], layout.keycodes());
    assert_eq!(CustomEvent::NoEvent, layout.tick());
    assert_keys(&[Kb0], layout.keycodes());

    // nothing more
    layout.event(Release(0, 0));
    assert_eq!(CustomEvent::NoEvent, layout.tick());
    assert_keys(&[], layout.keycodes());

    // Custom handler always holds
    layout.event(Press(0, 1));
    assert_eq!(CustomEvent::NoEvent, layout.tick());
    assert_keys(&[], layout.keycodes());
    assert_eq!(CustomEvent::NoEvent, layout.tick());
    assert_keys(&[Kb3], layout.keycodes());

    // nothing more
    layout.event(Release(0, 1));
    assert_eq!(CustomEvent::NoEvent, layout.tick());
    assert_keys(&[], layout.keycodes());

    // Custom handler always prevents any event
    layout.event(Press(0, 2));
    assert_eq!(CustomEvent::NoEvent, layout.tick());
    assert_keys(&[], layout.keycodes());

    // even timeout does not trigger
    for _ in 0..200 {
        assert_eq!(CustomEvent::NoEvent, layout.tick());
        assert_keys(&[], layout.keycodes());
    }

    assert_eq!(CustomEvent::NoEvent, layout.tick());
    assert_keys(&[], layout.keycodes());

    // nothing more
    layout.event(Release(0, 2));
    assert_eq!(CustomEvent::NoEvent, layout.tick());
    assert_keys(&[], layout.keycodes());

    // Custom handler timeout fallback
    layout.event(Press(0, 3));
    assert_eq!(CustomEvent::NoEvent, layout.tick());
    assert_keys(&[], layout.keycodes());

    for _ in 0..199 {
        assert_eq!(CustomEvent::NoEvent, layout.tick());
        assert_keys(&[], layout.keycodes());
    }

    assert_eq!(CustomEvent::NoEvent, layout.tick());
    assert_keys(&[Kb7], layout.keycodes());
}

#[test]
fn tap_hold_interval() {
    let layers: &'static Layers<2, 1, 1> = leak([[[
        HoldTap(leak(HoldTapAction {
            timeout: 200,
            hold: k(LAlt),
            tap: k(Space),
            config: HoldTapConfig::Default,
            tap_hold_interval: 200,
        })),
        k(Enter),
    ]]]);
    let mut layout = Layout::new(layers);

    // press and release the HT key, expect tap action
    assert_eq!(CustomEvent::NoEvent, layout.tick());
    assert_keys(&[], layout.keycodes());
    layout.event(Press(0, 0));
    assert_eq!(CustomEvent::NoEvent, layout.tick());
    assert_keys(&[], layout.keycodes());
    layout.event(Release(0, 0));
    assert_eq!(CustomEvent::NoEvent, layout.tick());
    assert_keys(&[Space], layout.keycodes());
    assert_eq!(CustomEvent::NoEvent, layout.tick());
    assert_keys(&[], layout.keycodes());

    // press again within tap_hold_interval, tap action should be in keycode immediately
    layout.event(Press(0, 0));
    assert_eq!(CustomEvent::NoEvent, layout.tick());
    assert_keys(&[Space], layout.keycodes());

    // tap action should continue to be in keycodes even after timeout
    for _ in 0..300 {
        assert_eq!(CustomEvent::NoEvent, layout.tick());
        assert_keys(&[Space], layout.keycodes());
    }
    layout.event(Release(0, 0));
    assert_eq!(CustomEvent::NoEvent, layout.tick());
    assert_keys(&[], layout.keycodes());

    // Press again. This is outside the tap_hold_interval window, so should result in hold
    // action.
    layout.event(Press(0, 0));
    for _ in 0..200 {
        assert_eq!(CustomEvent::NoEvent, layout.tick());
        assert_keys(&[], layout.keycodes());
    }
    assert_eq!(CustomEvent::NoEvent, layout.tick());
    assert_keys(&[LAlt], layout.keycodes());
    layout.event(Release(0, 0));
    assert_eq!(CustomEvent::NoEvent, layout.tick());
    assert_keys(&[], layout.keycodes());
}

#[test]
fn tap_hold_interval_interleave() {
    let layers: &'static Layers<3, 1, 1> = leak([[[
        HoldTap(leak(HoldTapAction {
            timeout: 200,
            hold: k(LAlt),
            tap: k(Space),
            config: HoldTapConfig::Default,
            tap_hold_interval: 200,
        })),
        k(Enter),
        HoldTap(leak(HoldTapAction {
            timeout: 200,
            hold: k(LAlt),
            tap: k(Enter),
            config: HoldTapConfig::Default,
            tap_hold_interval: 200,
        })),
    ]]]);
    let mut layout = Layout::new(layers);

    // press and release the HT key, expect tap action
    assert_eq!(CustomEvent::NoEvent, layout.tick());
    assert_keys(&[], layout.keycodes());
    layout.event(Press(0, 0));
    assert_eq!(CustomEvent::NoEvent, layout.tick());
    assert_keys(&[], layout.keycodes());
    layout.event(Release(0, 0));
    assert_eq!(CustomEvent::NoEvent, layout.tick());
    assert_keys(&[Space], layout.keycodes());
    assert_eq!(CustomEvent::NoEvent, layout.tick());
    assert_keys(&[], layout.keycodes());

    // press a different key in between
    layout.event(Press(0, 1));
    assert_eq!(CustomEvent::NoEvent, layout.tick());
    assert_keys(&[Enter], layout.keycodes());
    layout.event(Release(0, 1));
    assert_eq!(CustomEvent::NoEvent, layout.tick());
    assert_keys(&[], layout.keycodes());

    // press HT key again, should result in hold action
    layout.event(Press(0, 0));
    for _ in 0..200 {
        assert_eq!(CustomEvent::NoEvent, layout.tick());
        assert_keys(&[], layout.keycodes());
    }
    assert_eq!(CustomEvent::NoEvent, layout.tick());
    assert_keys(&[LAlt], layout.keycodes());
    layout.event(Release(0, 0));
    assert_eq!(CustomEvent::NoEvent, layout.tick());
    assert_keys(&[], layout.keycodes());

    // press HT key, press+release diff key, release HT key
    assert_eq!(CustomEvent::NoEvent, layout.tick());
    assert_keys(&[], layout.keycodes());
    layout.event(Press(0, 0));
    assert_eq!(CustomEvent::NoEvent, layout.tick());
    assert_keys(&[], layout.keycodes());
    layout.event(Press(0, 1));
    assert_eq!(CustomEvent::NoEvent, layout.tick());
    assert_keys(&[], layout.keycodes());
    layout.event(Release(0, 1));
    assert_eq!(CustomEvent::NoEvent, layout.tick());
    assert_keys(&[], layout.keycodes());
    layout.event(Release(0, 0));
    assert_eq!(CustomEvent::NoEvent, layout.tick());
    assert_keys(&[Space], layout.keycodes());
    assert_eq!(CustomEvent::NoEvent, layout.tick());
    assert_keys(&[Enter, Space], layout.keycodes());
    assert_eq!(CustomEvent::NoEvent, layout.tick());
    assert_keys(&[Space], layout.keycodes());
    assert_eq!(CustomEvent::NoEvent, layout.tick());
    assert_keys(&[], layout.keycodes());

    // press HT key again, should result in hold action
    layout.event(Press(0, 0));
    for _ in 0..200 {
        assert_eq!(CustomEvent::NoEvent, layout.tick());
        assert_keys(&[], layout.keycodes());
    }
    assert_eq!(CustomEvent::NoEvent, layout.tick());
    assert_keys(&[LAlt], layout.keycodes());
    layout.event(Release(0, 0));
    assert_eq!(CustomEvent::NoEvent, layout.tick());
    assert_keys(&[], layout.keycodes());

    // press HT key, press+release diff (HT) key, release HT key
    assert_eq!(CustomEvent::NoEvent, layout.tick());
    assert_keys(&[], layout.keycodes());
    layout.event(Press(0, 0));
    assert_eq!(CustomEvent::NoEvent, layout.tick());
    assert_keys(&[], layout.keycodes());
    layout.event(Press(0, 2));
    assert_eq!(CustomEvent::NoEvent, layout.tick());
    assert_keys(&[], layout.keycodes());
    layout.event(Release(0, 2));
    assert_eq!(CustomEvent::NoEvent, layout.tick());
    assert_keys(&[], layout.keycodes());
    layout.event(Release(0, 0));
    assert_eq!(CustomEvent::NoEvent, layout.tick());
    assert_keys(&[Space], layout.keycodes());
    assert_eq!(CustomEvent::NoEvent, layout.tick());
    assert_keys(&[Space], layout.keycodes());
    assert_eq!(CustomEvent::NoEvent, layout.tick());
    assert_keys(&[Enter, Space], layout.keycodes());
    assert_eq!(CustomEvent::NoEvent, layout.tick());
    assert_keys(&[Space], layout.keycodes());
    assert_eq!(CustomEvent::NoEvent, layout.tick());
    assert_keys(&[], layout.keycodes());

    // press HT key again, should result in hold action
    layout.event(Press(0, 0));
    for _ in 0..200 {
        assert_eq!(CustomEvent::NoEvent, layout.tick());
        assert_keys(&[], layout.keycodes());
    }
    assert_eq!(CustomEvent::NoEvent, layout.tick());
    assert_keys(&[LAlt], layout.keycodes());
}

#[test]
fn tap_hold_interval_short_hold() {
    let layers: &'static Layers<1, 1, 1> = leak([[[HoldTap(leak(HoldTapAction {
        timeout: 50,
        hold: k(LAlt),
        tap: k(Space),
        config: HoldTapConfig::Default,
        tap_hold_interval: 200,
    }))]]]);
    let mut layout = Layout::new(layers);

    // press and hold the HT key, expect hold action
    assert_eq!(CustomEvent::NoEvent, layout.tick());
    assert_keys(&[], layout.keycodes());
    layout.event(Press(0, 0));
    for _ in 0..50 {
        assert_eq!(CustomEvent::NoEvent, layout.tick());
        assert_keys(&[], layout.keycodes());
    }
    assert_eq!(CustomEvent::NoEvent, layout.tick());
    assert_keys(&[LAlt], layout.keycodes());
    layout.event(Release(0, 0));
    assert_eq!(CustomEvent::NoEvent, layout.tick());
    assert_keys(&[], layout.keycodes());

    // press and hold the HT key, expect hold action, even though it's within the
    // tap_hold_interval
    assert_eq!(CustomEvent::NoEvent, layout.tick());
    assert_keys(&[], layout.keycodes());
    layout.event(Press(0, 0));
    for _ in 0..50 {
        assert_eq!(CustomEvent::NoEvent, layout.tick());
        assert_keys(&[], layout.keycodes());
    }
    assert_eq!(CustomEvent::NoEvent, layout.tick());
    assert_keys(&[LAlt], layout.keycodes());
    layout.event(Release(0, 0));
    assert_eq!(CustomEvent::NoEvent, layout.tick());
    assert_keys(&[], layout.keycodes());
}

#[test]
fn tap_hold_interval_different_hold() {
    let layers: &'static Layers<2, 1, 1> = leak([[[
        HoldTap(leak(HoldTapAction {
            timeout: 50,
            hold: k(LAlt),
            tap: k(Space),
            config: HoldTapConfig::Default,
            tap_hold_interval: 200,
        })),
        HoldTap(leak(HoldTapAction {
            timeout: 200,
            hold: k(RAlt),
            tap: k(Enter),
            config: HoldTapConfig::Default,
            tap_hold_interval: 200,
        })),
    ]]]);
    let mut layout = Layout::new(layers);

    // press HT1, press HT2, release HT1 after hold timeout, release HT2, press HT2
    layout.event(Press(0, 0));
    layout.event(Press(0, 1));
    for _ in 0..50 {
        assert_eq!(CustomEvent::NoEvent, layout.tick());
        assert_keys(&[], layout.keycodes());
    }
    assert_eq!(CustomEvent::NoEvent, layout.tick());
    assert_keys(&[LAlt], layout.keycodes());
    layout.event(Release(0, 0));
    assert_eq!(CustomEvent::NoEvent, layout.tick());
    assert_keys(&[LAlt], layout.keycodes());
    layout.event(Release(0, 1));
    assert_eq!(CustomEvent::NoEvent, layout.tick());
    assert_keys(&[LAlt, Enter], layout.keycodes());
    assert_eq!(CustomEvent::NoEvent, layout.tick());
    assert_keys(&[Enter], layout.keycodes());
    // press HT2 again, should result in tap action
    layout.event(Press(0, 1));
    assert_eq!(CustomEvent::NoEvent, layout.tick());
    assert_keys(&[], layout.keycodes());

    for _ in 0..300 {
        assert_eq!(CustomEvent::NoEvent, layout.tick());
        assert_keys(&[Enter], layout.keycodes());
    }
}

#[test]
fn sequences() {
    let layers: &'static Layers<6, 1, 1> = leak([[[
        Sequence(
            // Simple Ctrl-C sequence/macro
            slice(vec![
                SequenceEvent::Press(LCtrl),
                SequenceEvent::Press(C),
                SequenceEvent::Release(C),
                SequenceEvent::Release(LCtrl),
            ]),
        ),
        Sequence(
            // So we can test that Complete works
            slice(vec![
                SequenceEvent::Press(LCtrl),
                SequenceEvent::Press(C),
                SequenceEvent::Complete,
            ]),
        ),
        Sequence(
            // YO with a delay in the middle
            slice(vec![
                SequenceEvent::Press(Y),
                SequenceEvent::Release(Y),
                // "How many licks does it take to get to the center?"
                SequenceEvent::Delay { duration: 3 }, // Let's find out
                SequenceEvent::Press(O),
                SequenceEvent::Release(O),
            ]),
        ),
        Sequence(
            // A long sequence to test the chunking capability
            slice(vec![
                SequenceEvent::Press(LShift), // Important: Shift must remain held
                SequenceEvent::Press(U),      // ...or the message just isn't the same!
                SequenceEvent::Release(U),
                SequenceEvent::Press(N),
                SequenceEvent::Release(N),
                SequenceEvent::Press(L),
                SequenceEvent::Release(L),
                SequenceEvent::Press(I),
                SequenceEvent::Release(I),
                SequenceEvent::Press(M),
                SequenceEvent::Release(M),
                SequenceEvent::Press(I),
                SequenceEvent::Release(I),
                SequenceEvent::Press(T),
                SequenceEvent::Release(T),
                SequenceEvent::Press(E),
                SequenceEvent::Release(E),
                SequenceEvent::Press(D),
                SequenceEvent::Release(D),
                SequenceEvent::Press(Space),
                SequenceEvent::Release(Space),
                SequenceEvent::Press(P),
                SequenceEvent::Release(P),
                SequenceEvent::Press(O),
                SequenceEvent::Release(O),
                SequenceEvent::Press(W),
                SequenceEvent::Release(W),
                SequenceEvent::Press(E),
                SequenceEvent::Release(E),
                SequenceEvent::Press(R),
                SequenceEvent::Release(R),
                SequenceEvent::Press(Kb1),
                SequenceEvent::Release(Kb1),
                SequenceEvent::Press(Kb1),
                SequenceEvent::Release(Kb1),
                SequenceEvent::Press(Kb1),
                SequenceEvent::Release(Kb1),
                SequenceEvent::Press(Kb1),
                SequenceEvent::Release(Kb1),
                SequenceEvent::Release(LShift),
            ]),
        ),
        Sequence(
            slice(vec![
                SequenceEvent::Tap(Q),
                SequenceEvent::Tap(W),
                SequenceEvent::Tap(E),
            ]),
        ),
        Sequence(
            slice(vec![
                SequenceEvent::Tap(X),
                SequenceEvent::Tap(Y),
                SequenceEvent::Tap(Z),
            ]),
        ),
    ]]]);
    let mut layout = Layout::new(layers);
    // Test a basic sequence
    assert_eq!(CustomEvent::NoEvent, layout.tick());
    assert_keys(&[], layout.keycodes());
    layout.event(Press(0, 0));
    // Sequences take an extra tick to kickoff since the first tick starts the sequence:
    assert_eq!(CustomEvent::NoEvent, layout.tick()); // Sequence detected & added
    assert_eq!(CustomEvent::NoEvent, layout.tick()); // Sequence starts
    assert_keys(&[LCtrl], layout.keycodes()); // First item in the SequenceEvent
    assert_eq!(CustomEvent::NoEvent, layout.tick());
    assert_keys(&[LCtrl, C], layout.keycodes());
    assert_eq!(CustomEvent::NoEvent, layout.tick());
    assert_keys(&[LCtrl], layout.keycodes());
    assert_eq!(CustomEvent::NoEvent, layout.tick());
    assert_keys(&[], layout.keycodes());
    layout.event(Release(0, 0));
    assert_eq!(CustomEvent::NoEvent, layout.tick());
    assert_keys(&[], layout.keycodes());

    // Test the use of Complete()
    assert_keys(&[], layout.keycodes());
    layout.event(Press(0, 1));
    assert_eq!(CustomEvent::NoEvent, layout.tick());
    assert_eq!(CustomEvent::NoEvent, layout.tick());
    assert_keys(&[LCtrl], layout.keycodes());
    assert_eq!(CustomEvent::NoEvent, layout.tick());
    assert_keys(&[LCtrl, C], layout.keycodes());
    assert_eq!(CustomEvent::NoEvent, layout.tick());
    assert_keys(&[], layout.keycodes());
    layout.event(Release(0, 1));
    assert_eq!(CustomEvent::NoEvent, layout.tick());
    assert_keys(&[], layout.keycodes());

    // Test a sequence with a Delay() (aka The Mr Owl test; duration == 3)
    layout.event(Press(0, 2));
    assert_eq!(CustomEvent::NoEvent, layout.tick());
    assert_eq!(CustomEvent::NoEvent, layout.tick());
    assert_keys(&[Y], layout.keycodes());
    assert_eq!(CustomEvent::NoEvent, layout.tick()); // First decrement (2)
    assert_keys(&[], layout.keycodes()); // "Eh Ooone!"
    assert_eq!(CustomEvent::NoEvent, layout.tick()); // Second decrement (1)
    assert_keys(&[], layout.keycodes()); // "Eh two!"
    assert_eq!(CustomEvent::NoEvent, layout.tick()); // Final decrement (0)
    assert_keys(&[], layout.keycodes()); // "Eh three."
    assert_eq!(CustomEvent::NoEvent, layout.tick()); // Press() added for the next tick()
    assert_eq!(CustomEvent::NoEvent, layout.tick()); // FakeKey Press()
    assert_keys(&[O], layout.keycodes()); // CHOMP!
    assert_eq!(CustomEvent::NoEvent, layout.tick());
    assert_keys(&[], layout.keycodes());
    layout.event(Release(0, 2));
    assert_eq!(CustomEvent::NoEvent, layout.tick());
    assert_keys(&[], layout.keycodes());

    // // Test really long sequences (aka macros)...
    layout.event(Press(0, 3));
    assert_eq!(CustomEvent::NoEvent, layout.tick());
    assert_eq!(CustomEvent::NoEvent, layout.tick());
    assert_keys(&[LShift], layout.keycodes());
    assert_eq!(CustomEvent::NoEvent, layout.tick());
    assert_keys(&[LShift, U], layout.keycodes());
    assert_eq!(CustomEvent::NoEvent, layout.tick());
    assert_keys(&[LShift], layout.keycodes());
    assert_eq!(CustomEvent::NoEvent, layout.tick());
    assert_keys(&[LShift, N], layout.keycodes());
    assert_eq!(CustomEvent::NoEvent, layout.tick());
    assert_keys(&[LShift], layout.keycodes());
    assert_eq!(CustomEvent::NoEvent, layout.tick());
    assert_keys(&[LShift, L], layout.keycodes());
    assert_eq!(CustomEvent::NoEvent, layout.tick());
    assert_keys(&[LShift], layout.keycodes());
    assert_eq!(CustomEvent::NoEvent, layout.tick());
    assert_keys(&[LShift, I], layout.keycodes());
    assert_eq!(CustomEvent::NoEvent, layout.tick());
    assert_keys(&[LShift], layout.keycodes());
    assert_eq!(CustomEvent::NoEvent, layout.tick());
    assert_keys(&[LShift, M], layout.keycodes());
    assert_eq!(CustomEvent::NoEvent, layout.tick());
    assert_keys(&[LShift], layout.keycodes());
    assert_eq!(CustomEvent::NoEvent, layout.tick());
    assert_keys(&[LShift, I], layout.keycodes());
    assert_eq!(CustomEvent::NoEvent, layout.tick());
    assert_keys(&[LShift], layout.keycodes());
    assert_eq!(CustomEvent::NoEvent, layout.tick());
    assert_keys(&[LShift, T], layout.keycodes());
    assert_eq!(CustomEvent::NoEvent, layout.tick());
    assert_keys(&[LShift], layout.keycodes());
    assert_eq!(CustomEvent::NoEvent, layout.tick());
    assert_keys(&[LShift, E], layout.keycodes());
    assert_eq!(CustomEvent::NoEvent, layout.tick());
    assert_keys(&[LShift], layout.keycodes());
    assert_eq!(CustomEvent::NoEvent, layout.tick());
    assert_keys(&[LShift, D], layout.keycodes());
    assert_eq!(CustomEvent::NoEvent, layout.tick());
    assert_keys(&[LShift], layout.keycodes());
    assert_eq!(CustomEvent::NoEvent, layout.tick());
    assert_keys(&[LShift, Space], layout.keycodes());
    assert_eq!(CustomEvent::NoEvent, layout.tick());
    assert_keys(&[LShift], layout.keycodes());
    assert_eq!(CustomEvent::NoEvent, layout.tick());
    assert_keys(&[LShift, P], layout.keycodes());
    assert_eq!(CustomEvent::NoEvent, layout.tick());
    assert_keys(&[LShift], layout.keycodes());
    assert_eq!(CustomEvent::NoEvent, layout.tick());
    assert_keys(&[LShift, O], layout.keycodes());
    assert_eq!(CustomEvent::NoEvent, layout.tick());
    assert_keys(&[LShift], layout.keycodes());
    assert_eq!(CustomEvent::NoEvent, layout.tick());
    assert_keys(&[LShift, W], layout.keycodes());
    assert_eq!(CustomEvent::NoEvent, layout.tick());
    assert_keys(&[LShift], layout.keycodes());
    assert_eq!(CustomEvent::NoEvent, layout.tick());
    assert_keys(&[LShift, E], layout.keycodes());
    assert_eq!(CustomEvent::NoEvent, layout.tick());
    assert_keys(&[LShift], layout.keycodes());
    assert_eq!(CustomEvent::NoEvent, layout.tick());
    assert_keys(&[LShift, R], layout.keycodes());
    assert_eq!(CustomEvent::NoEvent, layout.tick());
    assert_keys(&[LShift], layout.keycodes());
    assert_eq!(CustomEvent::NoEvent, layout.tick());
    assert_keys(&[LShift, Kb1], layout.keycodes());
    assert_eq!(CustomEvent::NoEvent, layout.tick());
    assert_keys(&[LShift], layout.keycodes());
    assert_eq!(CustomEvent::NoEvent, layout.tick());
    assert_keys(&[LShift, Kb1], layout.keycodes());
    assert_eq!(CustomEvent::NoEvent, layout.tick());
    assert_keys(&[LShift], layout.keycodes());
    assert_eq!(CustomEvent::NoEvent, layout.tick());
    assert_keys(&[LShift, Kb1], layout.keycodes());
    assert_eq!(CustomEvent::NoEvent, layout.tick());
    assert_keys(&[LShift], layout.keycodes());
    assert_eq!(CustomEvent::NoEvent, layout.tick());
    assert_keys(&[LShift, Kb1], layout.keycodes());
    assert_eq!(CustomEvent::NoEvent, layout.tick());
    assert_keys(&[LShift], layout.keycodes());
    assert_eq!(CustomEvent::NoEvent, layout.tick());
    layout.event(Release(0, 3));
    assert_eq!(CustomEvent::NoEvent, layout.tick());
    assert_keys(&[], layout.keycodes());

    // Test a sequence with Tap Events
    assert_eq!(CustomEvent::NoEvent, layout.tick());
    assert_keys(&[], layout.keycodes());
    layout.event(Press(0, 4));
    assert_eq!(CustomEvent::NoEvent, layout.tick()); // Sequence detected & added
    assert_keys(&[], layout.keycodes());
    assert_eq!(CustomEvent::NoEvent, layout.tick()); // To Process Tap(Q)
    assert_keys(&[Q], layout.keycodes());
    assert_eq!(CustomEvent::NoEvent, layout.tick()); // Release(Q)
    assert_keys(&[], layout.keycodes());
    assert_eq!(CustomEvent::NoEvent, layout.tick()); // To Process Tap(W)
    assert_keys(&[W], layout.keycodes());
    assert_eq!(CustomEvent::NoEvent, layout.tick()); // Release(W)
    assert_keys(&[], layout.keycodes());
    assert_eq!(CustomEvent::NoEvent, layout.tick()); // To Process Tap(E)
    assert_keys(&[E], layout.keycodes());
    assert_eq!(CustomEvent::NoEvent, layout.tick()); // Release(E)
    assert_keys(&[], layout.keycodes());
    assert_eq!(CustomEvent::NoEvent, layout.tick()); // Sequence is finished
    assert_keys(&[], layout.keycodes());
    layout.event(Release(0, 4));
    assert_eq!(CustomEvent::NoEvent, layout.tick());
    assert_keys(&[], layout.keycodes());

    // Test two sequences
    assert_eq!(CustomEvent::NoEvent, layout.tick());
    assert_keys(&[], layout.keycodes());
    layout.event(Press(0, 5));
    assert_eq!(CustomEvent::NoEvent, layout.tick()); // Sequence detected & added
    assert_keys(&[], layout.keycodes());
    layout.event(Press(0, 4));
    assert_eq!(CustomEvent::NoEvent, layout.tick()); // Tap(X)
    assert_keys(&[X], layout.keycodes());
    layout.event(Release(0, 5));
    assert_eq!(CustomEvent::NoEvent, layout.tick()); // Release(X), Tap(Q)
    assert_keys(&[Q], layout.keycodes());
    layout.event(Release(0, 4));
    assert_eq!(CustomEvent::NoEvent, layout.tick()); // Tap(Y), Release(Q)
    assert_keys(&[Y], layout.keycodes());
    assert_eq!(CustomEvent::NoEvent, layout.tick()); // Release(Y), Press(W)
    assert_keys(&[W], layout.keycodes());
    assert_eq!(CustomEvent::NoEvent, layout.tick()); // Press(Z), Release(W)
    assert_keys(&[Z], layout.keycodes());
    assert_eq!(CustomEvent::NoEvent, layout.tick()); // Release(Z), Press(E)
    assert_keys(&[E], layout.keycodes());
    assert_eq!(CustomEvent::NoEvent, layout.tick()); // Release(E)
    assert_keys(&[], layout.keycodes());
    assert_eq!(CustomEvent::NoEvent, layout.tick()); // Sequence is finished
    assert_keys(&[], layout.keycodes());
}

#[test]
fn sequences_unshift() {
    let layers: &'static Layers<8, 1, 1> = leak([[[
        k(LShift),
        k(RShift),
        k(A),
        k(B),
        k(C),
        Sequence(
            slice(vec![
                SequenceEvent::Press(A),
                SequenceEvent::Release(A),
                SequenceEvent::Press(RShift),
                SequenceEvent::Press(B),
                SequenceEvent::Release(B),
                SequenceEvent::Release(RShift),
                SequenceEvent::Press(C),
                SequenceEvent::Release(C),
            ]),
        ),
        Sequence(
            slice(vec![
                SequenceEvent::Tap(A),
                SequenceEvent::Press(RShift),
                SequenceEvent::Tap(B),
                SequenceEvent::Release(RShift),
                SequenceEvent::Tap(C),
            ]),
        ),
        Sequence(
            slice(vec![
                SequenceEvent::Tap(A),
                SequenceEvent::Filter(slice(vec![LShift, RShift])),
                SequenceEvent::Tap(B),
                SequenceEvent::Restore,
                SequenceEvent::Tap(C),
            ]),
        ),
    ]]]);
    let mut layout = Layout::new(layers);

    // Test a sequence that contains Shift
    assert_eq!(CustomEvent::NoEvent, layout.tick());
    assert_keys(&[], layout.keycodes());
    layout.event(Press(0, 2)); // A
    assert_eq!(CustomEvent::NoEvent, layout.tick());
    assert_keys(&[A], layout.keycodes());
    layout.event(Release(0, 2)); // A
    assert_eq!(CustomEvent::NoEvent, layout.tick());
    assert_keys(&[], layout.keycodes());
    layout.event(Press(0, 1)); // RShift
    assert_eq!(CustomEvent::NoEvent, layout.tick());
    assert_keys(&[RShift], layout.keycodes());
    layout.event(Press(0, 3)); // B
    assert_eq!(CustomEvent::NoEvent, layout.tick());
    assert_keys(&[B, RShift], layout.keycodes());
    layout.event(Release(0, 3)); // B
    assert_eq!(CustomEvent::NoEvent, layout.tick());
    assert_keys(&[RShift], layout.keycodes());
    layout.event(Release(0, 1)); // RShift
    assert_eq!(CustomEvent::NoEvent, layout.tick());
    assert_keys(&[], layout.keycodes());
    layout.event(Press(0, 4)); // C
    assert_eq!(CustomEvent::NoEvent, layout.tick());
    assert_keys(&[C], layout.keycodes());
    layout.event(Release(0, 4)); // C
    assert_eq!(CustomEvent::NoEvent, layout.tick());
    assert_keys(&[], layout.keycodes());
    assert_eq!(CustomEvent::NoEvent, layout.tick());
    assert_keys(&[], layout.keycodes());

    // Test a sequence that contains Shift
    layout.event(Press(0, 5));
    assert_eq!(CustomEvent::NoEvent, layout.tick()); // Sequence detected & added
    assert_keys(&[], layout.keycodes());
    layout.event(Release(0, 5));
    assert_eq!(CustomEvent::NoEvent, layout.tick()); // To Process Press(A)
    assert_keys(&[A], layout.keycodes());
    assert_eq!(CustomEvent::NoEvent, layout.tick()); // Release(A)
    assert_keys(&[], layout.keycodes());
    assert_eq!(CustomEvent::NoEvent, layout.tick()); // Press(RShift)
    assert_keys(&[RShift], layout.keycodes());
    assert_eq!(CustomEvent::NoEvent, layout.tick()); // Press(B)
    assert_keys(&[RShift, B], layout.keycodes());
    assert_eq!(CustomEvent::NoEvent, layout.tick()); // Release(B)
    assert_keys(&[RShift], layout.keycodes());
    assert_eq!(CustomEvent::NoEvent, layout.tick()); // Release(RShift)
    assert_keys(&[], layout.keycodes());
    assert_eq!(CustomEvent::NoEvent, layout.tick()); // Tap(C)
    assert_keys(&[C], layout.keycodes());
    assert_eq!(CustomEvent::NoEvent, layout.tick()); // Release(C)
    assert_keys(&[], layout.keycodes());
    assert_eq!(CustomEvent::NoEvent, layout.tick()); // Sequence is finished
    assert_keys(&[], layout.keycodes());

    // Test a sequence that contains Shift with Tap
    layout.event(Press(0, 6));
    assert_eq!(CustomEvent::NoEvent, layout.tick()); // Sequence detected & added
    assert_keys(&[], layout.keycodes());
    layout.event(Release(0, 6));
    assert_eq!(CustomEvent::NoEvent, layout.tick()); // To Process Tap(A)
    assert_keys(&[A], layout.keycodes());
    assert_eq!(CustomEvent::NoEvent, layout.tick()); // Release(A)
    assert_keys(&[], layout.keycodes());
    assert_eq!(CustomEvent::NoEvent, layout.tick()); // Press(RShift)
    assert_keys(&[RShift], layout.keycodes());
    assert_eq!(CustomEvent::NoEvent, layout.tick()); // Tap(B)
    assert_keys(&[RShift, B], layout.keycodes());
    assert_eq!(CustomEvent::NoEvent, layout.tick()); // Release(B)
    assert_keys(&[RShift], layout.keycodes());
    assert_eq!(CustomEvent::NoEvent, layout.tick()); // Release(RShift)
    assert_keys(&[], layout.keycodes());
    assert_eq!(CustomEvent::NoEvent, layout.tick()); // Tap(C)
    assert_keys(&[C], layout.keycodes());
    assert_eq!(CustomEvent::NoEvent, layout.tick()); // Release(C)
    assert_keys(&[], layout.keycodes());
    assert_eq!(CustomEvent::NoEvent, layout.tick()); // Sequence is finished
    assert_keys(&[], layout.keycodes());

    // Test a sequence with Unshift/Restore while Shift has not been
    // pressed
    layout.event(Press(0, 7));
    assert_eq!(CustomEvent::NoEvent, layout.tick()); // Sequence detected & added
    assert_keys(&[], layout.keycodes());
    layout.event(Release(0, 7));
    assert_eq!(CustomEvent::NoEvent, layout.tick()); // To Process Tap(A)
    assert_keys(&[A], layout.keycodes());
    assert_eq!(CustomEvent::NoEvent, layout.tick()); // Release(A)
    assert_keys(&[], layout.keycodes());
    assert_eq!(CustomEvent::NoEvent, layout.tick()); // Unshift
    assert_keys(&[], layout.keycodes());
    assert_eq!(CustomEvent::NoEvent, layout.tick()); // Tap(B)
    assert_keys(&[B], layout.keycodes());
    assert_eq!(CustomEvent::NoEvent, layout.tick()); // Release(B)
    assert_keys(&[], layout.keycodes());
    assert_eq!(CustomEvent::NoEvent, layout.tick()); // RestoreShift
    assert_keys(&[], layout.keycodes());
    assert_eq!(CustomEvent::NoEvent, layout.tick()); // Tap(C)
    assert_keys(&[C], layout.keycodes());
    assert_eq!(CustomEvent::NoEvent, layout.tick()); // Release(C)
    assert_keys(&[], layout.keycodes());
    assert_eq!(CustomEvent::NoEvent, layout.tick()); // Sequence is finished
    assert_keys(&[], layout.keycodes());

    // Test a sequence with Unshift/Restore while RShift has been pressed

    layout.event(Press(0, 1)); // RShift
    assert_eq!(CustomEvent::NoEvent, layout.tick());
    assert_keys(&[RShift], layout.keycodes());

    layout.event(Press(0, 7));
    assert_eq!(CustomEvent::NoEvent, layout.tick()); // Sequence detected & added
    assert_keys(&[RShift], layout.keycodes());
    layout.event(Release(0, 7));
    assert_eq!(CustomEvent::NoEvent, layout.tick()); // To Process Tap(A)
    assert_keys(&[RShift, A], layout.keycodes());
    assert_eq!(CustomEvent::NoEvent, layout.tick()); // Release(A)
    assert_keys(&[RShift], layout.keycodes());
    assert_eq!(CustomEvent::NoEvent, layout.tick()); // Unshift
    assert_keys(&[], layout.keycodes());
    assert_eq!(CustomEvent::NoEvent, layout.tick()); // Tap(B)
    assert_keys(&[B], layout.keycodes());
    assert_eq!(CustomEvent::NoEvent, layout.tick()); // Release(B)
    assert_keys(&[], layout.keycodes());
    assert_eq!(CustomEvent::NoEvent, layout.tick()); // RestoreShift
    assert_keys(&[RShift], layout.keycodes());
    assert_eq!(CustomEvent::NoEvent, layout.tick()); // Tap(C)
    assert_keys(&[RShift, C], layout.keycodes());
    assert_eq!(CustomEvent::NoEvent, layout.tick()); // Release(C)
    assert_keys(&[RShift], layout.keycodes());
    assert_eq!(CustomEvent::NoEvent, layout.tick()); // Sequence is finished
    assert_keys(&[RShift], layout.keycodes());
    layout.event(Release(0, 1)); // RShift
    assert_eq!(CustomEvent::NoEvent, layout.tick());
    assert_keys(&[], layout.keycodes());
}

#[test]
fn tri_layers() {
    let layers: &'static Layers<3, 1, 4> = leak([
        [[l(1), k(A), l(2)]],
        [[Trans, k(B), Trans]],
        [[Trans, k(C), Trans]],
        [[Trans, k(D), Trans]],
    ]);
    let mut layout = Layout::new(layers);
    layout.add_tri_layer((1, 2), 3);

    assert_eq!(CustomEvent::NoEvent, layout.tick());
    assert_eq!(0, layout.current_layer());
    assert_keys(&[], layout.keycodes());

    // press L1
    layout.event(Press(0, 0));
    assert_eq!(CustomEvent::NoEvent, layout.tick());
    assert_eq!(1, layout.current_layer());
    assert_keys(&[], layout.keycodes());
    // press L2, going to tri-layer L3
    layout.event(Press(0, 2));
    assert_eq!(CustomEvent::NoEvent, layout.tick());
    assert_eq!(3, layout.current_layer());
    assert_keys(&[], layout.keycodes());
    // release L1, going to L2
    layout.event(Release(0, 0));
    assert_eq!(CustomEvent::NoEvent, layout.tick());
    assert_eq!(2, layout.current_layer());
    // release L2, going back to L0
    layout.event(Release(0, 2));
    assert_eq!(CustomEvent::NoEvent, layout.tick());
    assert_eq!(0, layout.current_layer());
    assert_keys(&[], layout.keycodes());

    // press L2
    layout.event(Press(0, 2));
    assert_eq!(CustomEvent::NoEvent, layout.tick());
    assert_eq!(2, layout.current_layer());
    assert_keys(&[], layout.keycodes());
    // press L1, going to tri-layer L3
    layout.event(Press(0, 0));
    assert_eq!(CustomEvent::NoEvent, layout.tick());
    assert_eq!(3, layout.current_layer());
    assert_keys(&[], layout.keycodes());
    // release L2, going to L1
    layout.event(Release(0, 2));
    assert_eq!(CustomEvent::NoEvent, layout.tick());
    assert_eq!(1, layout.current_layer());
    // release L2, going back to L0
    layout.event(Release(0, 0));
    assert_eq!(CustomEvent::NoEvent, layout.tick());
    assert_eq!(0, layout.current_layer());
    assert_keys(&[], layout.keycodes());
}
