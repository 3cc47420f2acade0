//! Hold-tap keys: how they are timed and what decides on them.
use keyberon::action::Action::HoldTap;
use keyberon::action::{k, l, Action, HoldTapAction, HoldTapConfig};
use keyberon::key_code::KeyCode::{A, B, C, LAlt, LCtrl, Enter, Space};
use keyberon::layout::Event::{Press, Release};
use keyberon::layout::tap_hold::TapHoldTracker;
use keyberon::layout::{
    CustomEvent, Event, HoldTapHandler, Layers, Layout, StackedIter, WaitingAction,
};
use std::sync::Mutex;

fn leak<X>(x: X) -> &'static X {
    Box::leak(Box::new(x))
}

fn key(
    timeout: u16,
    hold: Action,
    tap: Action,
    config: HoldTapConfig,
    tap_hold_interval: u16,
) -> Action {
    HoldTap(leak(HoldTapAction { timeout, hold, tap, config, tap_hold_interval }))
}

/// What a handler was asked: the events, and the hints before each of them.
struct Recorder {
    asked: Mutex<Vec<(Vec<Event>, Vec<(usize, Option<usize>)>)>>,
    answer: Option<WaitingAction>,
}

impl HoldTapHandler for Recorder {
    fn decide(&self, mut stacked: StackedIter) -> Option<WaitingAction> {
        let mut events = Vec::new();
        let mut hints = vec![stacked.size_hint()];
        while let Some(s) = stacked.next() {
            events.push(s.event());
            hints.push(stacked.size_hint());
        }
        assert!(stacked.next().is_none());
        self.asked.lock().unwrap().push((events, hints));
        self.answer
    }
}

fn recorder(answer: Option<WaitingAction>) -> &'static Recorder {
    leak(Recorder { asked: Mutex::new(Vec::new()), answer })
}

#[test]
fn key_is_held_at_its_timeout() {
    let layers: &'static Layers<1, 1, 1> =
        leak([[[key(7, k(LAlt), k(Space), HoldTapConfig::Default, 0)]]]);
    let mut layout = Layout::new(layers);
    layout.event(Press(0, 0));
    for _ in 0..7 {
        layout.tick();
        assert_eq!(layout.keycodes(), vec![]);
    }
    layout.tick();
    assert_eq!(layout.keycodes(), vec![LAlt]);
    layout.event(Release(0, 0));
    layout.tick();
    assert_eq!(layout.keycodes(), vec![]);
}

#[test]
fn key_with_no_timeout_is_held_at_once() {
    let layers: &'static Layers<1, 1, 1> =
        leak([[[key(0, k(LAlt), k(Space), HoldTapConfig::Default, 0)]]]);
    let mut layout = Layout::new(layers);
    layout.event(Press(0, 0));
    layout.tick();
    assert_eq!(layout.keycodes(), vec![]);
    layout.tick();
    assert_eq!(layout.keycodes(), vec![LAlt]);
}

/// Presses a key with a timeout of 5 while another one waits, and releases it
/// `held` ticks later. Returns what it was.
fn decided_after(held: usize) -> Vec<keyberon::key_code::KeyCode> {
    let layers: &'static Layers<2, 1, 1> = leak([[[
        key(20, k(LAlt), k(Space), HoldTapConfig::Default, 0),
        key(5, k(LCtrl), k(Enter), HoldTapConfig::Default, 0),
    ]]]);
    let mut layout = Layout::new(layers);
    layout.event(Press(0, 0));
    layout.tick();
    layout.event(Press(0, 1));
    for _ in 0..held {
        layout.tick();
    }
    layout.event(Release(0, 1));
    for _ in 0..10 {
        layout.tick();
    }
    assert_eq!(layout.keycodes(), vec![]);
    layout.event(Release(0, 0));
    layout.tick();
    assert_eq!(layout.keycodes(), vec![Space]);
    layout.tick();
    layout.tick();
    layout.keycodes()
}

#[test]
fn taps_are_timed_from_press_to_release() {
    assert_eq!(decided_after(0), vec![Space, Enter]);
    assert_eq!(decided_after(4), vec![Space, Enter]);
    assert_eq!(decided_after(5), vec![Space, Enter]);
    assert_eq!(decided_after(6), vec![Space, LCtrl]);
    assert_eq!(decided_after(8), vec![Space, LCtrl]);
}

#[test]
fn other_press_decides() {
    let layers: &'static Layers<2, 1, 1> = leak([[[
        key(100, k(LAlt), k(Space), HoldTapConfig::HoldOnOtherKeyPress, 0),
        k(A),
    ]]]);
    let mut layout = Layout::new(layers);
    // a release of another key decides nothing
    layout.event(Press(0, 0));
    layout.event(Release(0, 1));
    layout.tick();
    layout.tick();
    assert_eq!(layout.keycodes(), vec![]);
    // a press does, even if the key itself has been released
    layout.event(Release(0, 0));
    layout.event(Press(0, 1));
    layout.tick();
    assert_eq!(layout.keycodes(), vec![LAlt]);
}

#[test]
fn other_press_and_release_decide() {
    let layers: &'static Layers<3, 1, 1> = leak([[[
        key(100, k(LAlt), k(Space), HoldTapConfig::PermissiveHold, 0),
        k(A),
        k(B),
    ]]]);
    let mut layout = Layout::new(layers);
    layout.event(Press(0, 0));
    layout.tick();
    // a release that comes before the press, and that of another key, decide nothing
    layout.event(Release(0, 1));
    layout.event(Press(0, 1));
    layout.event(Release(0, 2));
    layout.tick();
    assert_eq!(layout.keycodes(), vec![]);
    layout.event(Release(0, 1));
    layout.tick();
    assert_eq!(layout.keycodes(), vec![LAlt]);
}

#[test]
fn handler_is_asked_about_the_stacked_events() {
    let handler = recorder(None);
    let layers: &'static Layers<2, 1, 1> =
        leak([[[key(100, k(LAlt), k(Space), HoldTapConfig::Custom(handler), 0), k(A)]]]);
    let mut layout = Layout::new(layers);
    layout.tick();
    layout.event(Press(0, 0));
    layout.tick();
    assert_eq!(handler.asked.lock().unwrap().len(), 0);
    layout.event(Press(0, 1));
    layout.event(Release(0, 1));
    layout.tick();
    layout.event(Release(0, 0));
    layout.tick();
    let asked = handler.asked.lock().unwrap();
    assert_eq!(
        *asked,
        vec![
            (
                vec![Press(0, 1), Release(0, 1)],
                vec![(2, Some(2)), (1, Some(1)), (0, Some(0))],
            ),
            (
                vec![Press(0, 1), Release(0, 1), Release(0, 0)],
                vec![(3, Some(3)), (2, Some(2)), (1, Some(1)), (0, Some(0))],
            ),
        ]
    );
    // the release has decided
    assert_eq!(layout.keycodes(), vec![Space]);
}

#[test]
fn open_answer_leaves_the_default() {
    for config in [HoldTapConfig::Default, HoldTapConfig::Custom(recorder(None))] {
        let layers: &'static Layers<1, 1, 1> = leak([[[key(3, k(LAlt), k(Space), config, 0)]]]);
        let mut layout = Layout::new(layers);
        layout.event(Press(0, 0));
        let mut seen = Vec::new();
        for _ in 0..5 {
            layout.tick();
            seen.push(layout.keycodes());
        }
        assert_eq!(seen, vec![vec![], vec![], vec![], vec![LAlt], vec![LAlt]]);
    }
}

#[test]
fn answers_decide_on_custom_keys() {
    for (answer, expected) in [
        (Some(WaitingAction::Hold), vec![LAlt]),
        (Some(WaitingAction::Tap), vec![Space]),
        (Some(WaitingAction::NoOp), vec![]),
        (None, vec![]),
    ] {
        let handler = recorder(Some(WaitingAction::Hold));
        let layers: &'static Layers<1, 1, 1> =
            leak([[[key(100, k(LAlt), k(Space), HoldTapConfig::Custom(handler), 0)]]]);
        let mut layout = Layout::new(layers);
        layout.event(Press(0, 0));
        layout.tick_with(None);
        assert_eq!(layout.tick_with(answer), CustomEvent::NoEvent);
        assert_eq!(layout.keycodes(), expected);
        assert_eq!(handler.asked.lock().unwrap().len(), 0);
    }
}

#[test]
fn answers_matter_only_to_custom_keys() {
    let layers: &'static Layers<2, 1, 1> =
        leak([[[key(3, k(LAlt), k(Space), HoldTapConfig::Default, 0), k(A)]]]);
    let mut one = Layout::new(layers);
    let mut other = Layout::new(layers);
    for event in [Press(0, 1), Press(0, 0), Release(0, 1)] {
        one.event(event);
        other.event(event);
    }
    for _ in 0..8 {
        one.tick();
        other.tick_with(Some(WaitingAction::Tap));
        assert_eq!(one.keycodes(), other.keycodes());
    }
    assert_eq!(one.keycodes(), vec![LAlt]);
}

#[test]
fn no_op_drops_the_key() {
    let handler = recorder(Some(WaitingAction::NoOp));
    let layers: &'static Layers<2, 1, 1> =
        leak([[[key(100, k(LAlt), k(Space), HoldTapConfig::Custom(handler), 0), k(A)]]]);
    let mut layout = Layout::new(layers);
    layout.event(Press(0, 0));
    layout.event(Press(0, 1));
    layout.tick();
    layout.tick();
    assert_eq!(layout.keycodes(), vec![]);
    layout.tick();
    assert_eq!(layout.keycodes(), vec![A]);
}

#[test]
fn dropped_press_does_not_start_the_interval() {
    let handler = recorder(Some(WaitingAction::NoOp));
    let layers: &'static Layers<1, 1, 1> =
        leak([[[key(100, k(LAlt), k(Space), HoldTapConfig::Custom(handler), 50)]]]);
    let mut layout = Layout::new(layers);
    for n in 1..4 {
        layout.event(Press(0, 0));
        layout.tick();
        assert_eq!(layout.keycodes(), vec![]);
        layout.event(Release(0, 0));
        layout.tick();
        layout.tick();
        assert_eq!(layout.keycodes(), vec![]);
        assert_eq!(handler.asked.lock().unwrap().len(), n);
    }
}

#[test]
fn dropped_press_leaves_the_last_press_as_it_was() {
    let handler = recorder(None);
    let layers: &'static Layers<2, 1, 1> = leak([[[
        key(10, k(LAlt), k(Space), HoldTapConfig::Default, 10),
        key(100, k(LCtrl), k(Enter), HoldTapConfig::Custom(handler), 50),
    ]]]);
    // the interval of 10 goes on while the dropped key waits
    for (waits, expected) in [(0, vec![Space]), (3, vec![Space]), (4, vec![]), (9, vec![])] {
        let mut layout = Layout::new(layers);
        layout.event(Press(0, 0));
        layout.event(Release(0, 0));
        for _ in 0..3 {
            layout.tick();
        }
        layout.event(Press(0, 1));
        layout.tick();
        for _ in 0..waits {
            layout.tick();
        }
        layout.tick_with(Some(WaitingAction::NoOp));
        layout.event(Release(0, 1));
        layout.tick();
        layout.event(Press(0, 0));
        layout.tick();
        assert_eq!(layout.keycodes(), expected, "after {} ticks", waits);
    }
}

/// The memory of the key at (0, 1) and its interval outlast a press at (0, 0) that
/// is dropped, whether its hold-tap key stands alone, is one of several actions or
/// is what another hold-tap key does when it is held.
#[test]
fn dropped_part_of_a_press_leaves_the_last_press_as_it_was() {
    let dropped = || {
        let handler = recorder(Some(WaitingAction::NoOp));
        key(100, k(LCtrl), k(Enter), HoldTapConfig::Custom(handler), 0)
    };
    let several: Vec<Action> = vec![l(1), dropped()];
    let several: &'static [Action] = several.leak();
    for (action, ticks) in [
        (dropped(), 2),
        (Action::MultipleActions(leak(several)), 2),
        (key(1, dropped(), k(C), HoldTapConfig::Default, 0), 3),
    ] {
        let layers: &'static Layers<2, 1, 2> = leak([
            [[action, key(100, k(LAlt), k(Space), HoldTapConfig::Default, 1000)]],
            [[
                key(100, k(B), k(A), HoldTapConfig::Default, 1000),
                key(100, k(LAlt), k(Space), HoldTapConfig::Default, 1000),
            ]],
        ]);
        // the last key is tapped at once, any other one waits
        for (again, expected) in [(Press(0, 1), vec![Space]), (Press(0, 0), vec![])] {
            let mut layout = Layout::new(layers);
            layout.event(Press(0, 1));
            layout.event(Release(0, 1));
            for _ in 0..3 {
                layout.tick();
            }
            layout.event(Press(0, 0));
            for _ in 0..ticks {
                layout.tick();
            }
            assert_eq!(layout.keycodes(), vec![]);
            layout.set_default_layer(1);
            layout.event(again);
            layout.tick();
            assert_eq!(layout.keycodes(), expected);
        }
    }
}

#[test]
fn pressing_again_in_time_is_a_tap() {
    let layers: &'static Layers<1, 1, 1> =
        leak([[[key(10, k(LAlt), k(Space), HoldTapConfig::Default, 5)]]]);
    // the interval of 5 is counted from the tick of the first press
    for (pause, expected) in [(0, vec![Space]), (1, vec![Space]), (2, vec![]), (3, vec![])] {
        let mut layout = Layout::new(layers);
        layout.event(Press(0, 0));
        layout.event(Release(0, 0));
        for _ in 0..3 + pause {
            layout.tick();
        }
        assert_eq!(layout.keycodes(), vec![]);
        layout.event(Press(0, 0));
        layout.tick();
        assert_eq!(layout.keycodes(), expected, "after {} ticks", pause);
    }
}

#[test]
fn holding_ends_the_interval() {
    let layers: &'static Layers<1, 1, 2> =
        leak([[[key(2, l(1), k(Space), HoldTapConfig::Default, 100)]], [[Action::Trans]]]);
    let mut layout = Layout::new(layers);
    layout.event(Press(0, 0));
    for _ in 0..3 {
        layout.tick();
    }
    assert_eq!(layout.current_layer(), 1);
    layout.event(Release(0, 0));
    layout.tick();
    layout.event(Press(0, 0));
    layout.tick();
    assert_eq!(layout.keycodes(), vec![]);
    layout.tick();
    layout.tick();
    assert_eq!(layout.current_layer(), 1);
    assert_eq!(layout.keycodes(), vec![]);
}

#[test]
fn tap_at_once_reports_its_custom_event() {
    let tap: Action<u8> = Action::Custom(9);
    let layers: &'static Layers<1, 1, 1, u8> = leak([[[HoldTap(leak(HoldTapAction {
        timeout: 10,
        hold: k(C),
        tap,
        config: HoldTapConfig::Default,
        tap_hold_interval: 50,
    }))]]]);
    let mut layout = Layout::new(layers);
    layout.event(Press(0, 0));
    layout.event(Release(0, 0));
    assert_eq!(layout.tick(), CustomEvent::NoEvent);
    assert_eq!(layout.tick(), CustomEvent::Press(&9));
    assert_eq!(layout.tick(), CustomEvent::Release(&9));
    layout.event(Press(0, 0));
    assert_eq!(layout.tick(), CustomEvent::Press(&9));
    assert_eq!(layout.tick(), CustomEvent::NoEvent);
    layout.event(Release(0, 0));
    assert_eq!(layout.tick(), CustomEvent::Release(&9));
}

#[test]
fn tracker_counts_down_to_zero() {
    let mut tracker = TapHoldTracker::default();
    assert_eq!((tracker.coord, tracker.timeout), ((0, 0), 0));
    tracker.tick();
    assert_eq!(tracker.timeout, 0);
    tracker = TapHoldTracker { coord: (1, 2), timeout: 2 };
    tracker.tick();
    assert_eq!((tracker.coord, tracker.timeout), ((1, 2), 1));
    tracker.tick();
    tracker.tick();
    assert_eq!((tracker.coord, tracker.timeout), ((1, 2), 0));
}
