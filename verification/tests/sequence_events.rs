//! Key sequences, tick by tick.
use keyberon::action::Action::Sequence;
use keyberon::action::SequenceEvent::{Complete, Delay, Filter, Press, Release, Restore, Tap};
use keyberon::action::{k, l, m, Action, SequenceEvent};
use keyberon::key_code::KeyCode::{self, A, B, C, D, E, LCtrl, LShift, RShift};
use keyberon::layout::{CustomEvent, Event, Layers, Layout};

fn leak<X>(x: X) -> &'static X {
    Box::leak(Box::new(x))
}

fn slice<X>(items: Vec<X>) -> &'static &'static [X] {
    let items: &'static [X] = items.leak();
    leak(items)
}

fn sequence(events: Vec<SequenceEvent<KeyCode>>) -> Action {
    Sequence(slice(events))
}

/// A layout with a key, a key for two key codes, and a key for a sequence.
fn layout_for(events: Vec<SequenceEvent<KeyCode>>) -> Layout<3, 1, 1> {
    let layers: &'static Layers<3, 1, 1> =
        leak([[[k(LShift), m(slice(vec![LCtrl, RShift])), sequence(events)]]]);
    Layout::new(layers)
}

/// Presses a key and waits until its press is processed.
fn press(layout: &mut Layout<3, 1, 1>, j: u8) {
    layout.event(Event::Press(0, j));
    layout.tick();
}

/// What is reported at each of the next ticks.
fn reports(layout: &mut Layout<3, 1, 1>, n: usize) -> Vec<Vec<KeyCode>> {
    (0..n)
        .map(|_| {
            layout.tick();
            layout.keycodes()
        })
        .collect()
}

#[test]
fn press_and_release() {
    let mut layout = layout_for(vec![Press(A), Press(B), Release(A), Release(C), Release(B)]);
    press(&mut layout, 0);
    press(&mut layout, 2);
    assert_eq!(layout.keycodes(), vec![LShift]);
    assert_eq!(
        reports(&mut layout, 6),
        vec![
            vec![LShift, A],
            vec![LShift, A, B],
            vec![LShift, B],
            vec![LShift, B],
            vec![LShift],
            vec![LShift],
        ]
    );
}

#[test]
fn release_takes_every_press_of_the_key_code() {
    let mut layout = layout_for(vec![Press(LShift), Press(A), Press(LShift), Release(LShift)]);
    press(&mut layout, 0);
    press(&mut layout, 2);
    // the pressed key is not one of them
    assert_eq!(
        reports(&mut layout, 4),
        vec![
            vec![LShift, LShift],
            vec![LShift, LShift, A],
            vec![LShift, LShift, A, LShift],
            vec![LShift, A],
        ]
    );
}

#[test]
fn taps_last_one_tick() {
    let mut layout = layout_for(vec![Tap(A), Tap(B)]);
    press(&mut layout, 2);
    assert_eq!(
        reports(&mut layout, 5),
        vec![vec![A], vec![], vec![B], vec![], vec![]]
    );
}

#[test]
fn delays_last_as_long_as_they_say() {
    for (duration, pause) in [(0, 1), (1, 1), (2, 2), (5, 5)] {
        let mut layout = layout_for(vec![Press(A), Delay { duration }, Release(A)]);
        press(&mut layout, 2);
        let seen = reports(&mut layout, 10);
        let held = seen.iter().take_while(|keys| **keys == vec![A]).count();
        assert_eq!(held, 1 + pause);
        assert_eq!(seen[held..], vec![vec![]; 9 - pause]);
    }
}

#[test]
fn delay_at_the_end_is_cut() {
    let mut layout = layout_for(vec![Press(A), Delay { duration: 50 }]);
    press(&mut layout, 2);
    reports(&mut layout, 2);
    // the sequence is over: the same key starts it anew at once
    press(&mut layout, 2);
    assert_eq!(reports(&mut layout, 1), vec![vec![A, A]]);
}

#[test]
fn complete_releases_all() {
    let mut layout =
        layout_for(vec![Press(A), Press(B), Press(A), Complete, Press(D), Press(E)]);
    press(&mut layout, 0);
    press(&mut layout, 2);
    assert_eq!(
        reports(&mut layout, 6),
        vec![
            vec![LShift, A],
            vec![LShift, A, B],
            vec![LShift, A, B, A],
            vec![LShift],
            vec![LShift],
            vec![LShift],
        ]
    );
}

#[test]
fn restore_undoes_filter() {
    let filter: &'static &'static [KeyCode] = slice(vec![LShift, RShift, A]);
    let mut layout = layout_for(vec![Press(A), Press(B), Filter(filter), Press(C), Restore]);
    press(&mut layout, 0);
    press(&mut layout, 1);
    press(&mut layout, 2);
    assert_eq!(
        reports(&mut layout, 6),
        vec![
            vec![LShift, LCtrl, RShift, A],
            vec![LShift, LCtrl, RShift, A, B],
            vec![LCtrl, B],
            vec![LCtrl, B, C],
            vec![LCtrl, B, C, LShift, RShift, A],
            vec![LCtrl, B, C, LShift, RShift, A],
        ]
    );
    // what is restored is released by its key as before
    layout.event(Event::Release(0, 1));
    layout.tick();
    assert_eq!(layout.keycodes(), vec![B, C, LShift, A]);
}

#[test]
fn filtered_keys_can_be_restored_more_than_once() {
    let filter: &'static &'static [KeyCode] = slice(vec![LShift]);
    let mut layout = layout_for(vec![Restore, Filter(filter), Restore, Restore]);
    press(&mut layout, 0);
    press(&mut layout, 2);
    assert_eq!(
        reports(&mut layout, 4),
        vec![vec![LShift], vec![], vec![LShift], vec![LShift, LShift]]
    );
}

#[test]
fn all_the_states_can_be_filtered_and_restored() {
    let filter: &'static &'static [KeyCode] = slice(vec![A, B]);
    let layers: &'static Layers<2, 1, 1> = leak([[[
        m(slice([vec![A; 30], vec![B; 34]].concat())),
        sequence(vec![Filter(filter), Restore]),
    ]]]);
    let mut layout = Layout::new(layers);
    layout.event(Event::Press(0, 0));
    layout.event(Event::Press(0, 1));
    layout.tick();
    layout.tick();
    assert_eq!(layout.keycodes().len(), 64);
    layout.tick();
    assert_eq!(layout.keycodes(), vec![]);
    layout.tick();
    assert_eq!(layout.keycodes(), [vec![A; 30], vec![B; 34]].concat());
}

#[test]
fn sequences_are_played_in_the_order_of_their_start() {
    let layers: &'static Layers<2, 1, 1> = leak([[[
        sequence(vec![Press(A), Press(B), Press(C)]),
        sequence(vec![Press(D), Press(E)]),
    ]]]);
    let mut layout = Layout::new(layers);
    layout.event(Event::Press(0, 0));
    layout.event(Event::Press(0, 1));
    layout.tick();
    layout.tick();
    assert_eq!(layout.keycodes(), vec![A]);
    layout.tick();
    assert_eq!(layout.keycodes(), vec![A, B, D]);
    layout.tick();
    assert_eq!(layout.keycodes(), vec![A, B, D, C, E]);
    layout.tick();
    assert_eq!(layout.keycodes(), vec![A, B, D, C, E]);
}

#[test]
fn there_is_room_for_four_sequences() {
    let slow = |keycode| sequence(vec![Delay { duration: 10 }, Tap(keycode)]);
    let layers: &'static Layers<5, 1, 1> =
        leak([[[slow(A), slow(B), slow(C), slow(D), slow(E)]]]);
    for (count, expected) in [(4, vec![A, B, C, D]), (5, vec![B, C, D, E])] {
        let mut layout = Layout::new(layers);
        for j in 0..count {
            layout.event(Event::Press(0, j));
        }
        let mut seen = Vec::new();
        for _ in 0..30 {
            layout.tick();
            seen.extend(layout.keycodes());
        }
        assert_eq!(seen, expected);
    }
}

#[test]
fn sequence_goes_on_when_its_key_is_released() {
    let mut layout = layout_for(vec![Tap(A), Tap(B)]);
    press(&mut layout, 2);
    layout.event(Event::Release(0, 2));
    assert_eq!(
        reports(&mut layout, 5),
        vec![vec![A], vec![], vec![B], vec![], vec![]]
    );
}

#[test]
fn sequences_touch_only_key_codes() {
    let filter: &'static &'static [KeyCode] = slice(vec![LShift, B]);
    let layers: &'static Layers<4, 1, 2, u8> = leak([
        [[
            l(1),
            Action::Custom(7),
            m(slice(vec![LShift, LCtrl])),
            Sequence(slice(vec![Press(B), Filter(filter), Complete])),
        ]],
        [[Action::Trans, Action::Trans, Action::Trans, Action::Trans]],
    ]);
    let mut layout = Layout::new(layers);
    for j in 0..4 {
        layout.event(Event::Press(0, j));
        layout.tick();
    }
    let mut seen = Vec::new();
    for _ in 0..3 {
        assert_eq!(layout.tick(), CustomEvent::NoEvent);
        assert_eq!(layout.current_layer(), 1);
        seen.push(layout.keycodes());
    }
    assert_eq!(seen, vec![vec![LShift, LCtrl, B], vec![LCtrl], vec![LCtrl]]);
    layout.event(Event::Release(0, 1));
    assert_eq!(layout.tick(), CustomEvent::Release(&7));
    layout.event(Event::Release(0, 0));
    layout.tick();
    assert_eq!(layout.current_layer(), 0);
}

#[test]
fn events_are_played_in_turn() {
    // starts at ticks 1, 2, 4, 7, 8, 9 and 11
    let mut layout = layout_for(vec![
        Press(A),
        Tap(B),
        Delay { duration: 3 },
        Delay { duration: 0 },
        Press(C),
        Tap(D),
        Press(E),
    ]);
    press(&mut layout, 2);
    let seen = reports(&mut layout, 12);
    assert_eq!(
        seen,
        vec![
            vec![A],
            vec![A, B],
            vec![A],
            vec![A],
            vec![A],
            vec![A],
            vec![A],
            vec![A, C],
            vec![A, C, D],
            vec![A, C],
            vec![A, C, E],
            vec![A, C, E],
        ]
    );
}
