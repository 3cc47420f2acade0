//! What holds of hold-tap keys.
use crate::action::{Action, HoldTapAction, HoldTapConfig};
use crate::layout::laws;
use crate::layout::steady;
use crate::layout::tap_hold::TapHoldTracker;
use crate::layout::waiting;
use crate::layout::{CustomEvent, Event, LayoutView, Stacked, WaitingAction, WaitingState};
use vstd::prelude::*;

verus! {

/// A hold-tap key does not wait any longer than its timeout, nor once it has been
/// released: after that tick it has been decided.
pub proof fn law_hold_tap_keys_are_decided_in_time<T: 'static, K: 'static + Copy + Eq>(
    m: LayoutView<T, K>,
    answer: Option<WaitingAction>,
)
    requires
        m.waiting is Some,
        ({
            let w = m.waiting->0;
            w.timeout <= 1 || exists|i: int|
                0 <= i < m.stacked.len() && w.released_by((#[trigger] m.stacked[i]).event)
        }),
    ensures
        m.waiting->0.ticked().decision(m.aged().stacked, answer) is Some,
{
    let w = m.waiting->0;
    let stacked = m.aged().stacked;
    if exists|i: int| 0 <= i < m.stacked.len() && w.released_by((#[trigger] m.stacked[i]).event) {
        let i = choose|i: int|
            0 <= i < m.stacked.len() && w.released_by((#[trigger] m.stacked[i]).event);
        assert(w.ticked().released_by(stacked[i].event));
        lemma_first_release_found(w.ticked(), stacked, i);
    }
}

proof fn lemma_first_release_found<T: 'static, K: 'static>(
    w: WaitingState<T, K>,
    stacked: Seq<Stacked>,
    i: int,
)
    requires
        0 <= i < stacked.len(),
        w.released_by(stacked[i].event),
    ensures
        w.first_release(stacked) is Some,
    decreases stacked.len(),
{
    if i < stacked.len() - 1 {
        lemma_first_release_found(w, stacked.drop_last(), i);
    }
}

/// While a hold-tap key is not decided, it goes on waiting with one tick less
/// left, and nothing but time passes for the layout.
pub proof fn law_undecided_keys_wait<T: 'static, K: 'static + Copy + Eq>(
    m: LayoutView<T, K>,
    answer: Option<WaitingAction>,
)
    requires
        m.waiting is Some,
        m.waiting->0.ticked().decision(m.aged().stacked, answer) is None,
    ensures
        m.waiting->0.timeout > 1,
        m.tick(answer).layout == (LayoutView {
            waiting: Some(m.waiting->0.ticked()),
            ..m.aged()
        }),
        m.tick(answer).event == CustomEvent::<T>::NoEvent,
{
}

/// What a handler could say makes no difference to a tick at which no handler is
/// asked.
pub proof fn law_answers_matter_only_to_custom_keys<T: 'static, K: 'static + Copy + Eq>(
    m: LayoutView<T, K>,
    answer: Option<WaitingAction>,
    other: Option<WaitingAction>,
)
    requires
        !m.asks_handler(),
    ensures
        m.tick(answer) == m.tick(other),
{
}

/// A handler that leaves the decision open leaves it to the release of the key
/// and its timeout, as if the key had no handler.
pub proof fn law_open_answers_leave_the_default<T: 'static, K: 'static>(
    w: WaitingState<T, K>,
    stacked: Seq<Stacked>,
)
    requires
        w.config is Custom,
    ensures
        w.decision(stacked, None) == (WaitingState { config: HoldTapConfig::Default, ..w }).decision(
            stacked,
            None,
        ),
{
    lemma_first_release_of_key(
        w,
        WaitingState { config: HoldTapConfig::Default, ..w },
        stacked,
    );
}

/// The first release of a key is a matter of the key alone.
proof fn lemma_first_release_of_key<T: 'static, K: 'static>(
    w: WaitingState<T, K>,
    other: WaitingState<T, K>,
    stacked: Seq<Stacked>,
)
    requires
        w.coord == other.coord,
    ensures
        w.first_release(stacked) == other.first_release(stacked),
    decreases stacked.len(),
{
    if stacked.len() > 0 {
        lemma_first_release_of_key(w, other, stacked.drop_last());
    }
}

/// If the handler says that nothing is to be done, it is as if the key had not
/// been pressed: what is left is what the layout would be without the key, one
/// tick later.
pub proof fn law_no_op_drops_the_key<T: 'static, K: 'static + Copy + Eq>(m: LayoutView<T, K>)
    requires
        m.asks_handler(),
    ensures
        m.tick(Some(WaitingAction::NoOp)).layout == m.forgetting().aged(),
        m.tick(Some(WaitingAction::NoOp)).event == CustomEvent::<T>::NoEvent,
{
}

/// What a layout would be without the waiting key is what it was before the key
/// was pressed, but for the time that has passed. When a hold-tap key begins to
/// wait it is the layout at that moment, and it ages as any layout does for as
/// long as the key is not decided.
pub proof fn law_waiting_keys_can_be_forgotten<T: 'static, K: 'static + Copy + Eq>(
    m: LayoutView<T, K>,
    i: u8,
    j: u8,
    since: u16,
    h: &'static HoldTapAction<T, K>,
    answer: Option<WaitingAction>,
)
    ensures
        m.waiting is None && m.press_as_action((i, j), m.current_layer()) == Action::HoldTap(h)
            && (h.tap_hold_interval == 0 || m.tap_hold_tracker.coord != (i, j)
            || m.tap_hold_tracker.timeout == 0) ==> m.unstack(
            Stacked { event: Event::Press(i, j), since },
        ).layout.forgetting() == m,
        m.waiting is Some && m.waiting->0.ticked().decision(m.aged().stacked, answer) is None
            ==> m.tick(answer).layout.forgetting() == m.forgetting().aged(),
{
    if m.waiting is None && m.press_as_action((i, j), m.current_layer()) == Action::HoldTap(h) && (
    h.tap_hold_interval == 0 || m.tap_hold_tracker.coord != (i, j) || m.tap_hold_tracker.timeout
        == 0) {
        steady::law_depth_is_immaterial(m, Action::HoldTap(h), (i, j), since, 0);
    }
}

/// Whatever the action of a key is and however it comes to leave a key waiting, at
/// once or only when it has been decided to be held or tapped, without the waiting
/// key the memory of the last press is what it was before the press.
pub proof fn law_the_memory_before_a_press_is_kept<T: 'static, K: 'static + Copy>(
    m: LayoutView<T, K>,
    i: u8,
    j: u8,
    since: u16,
)
    ensures
        ({
            let pressed = m.unstack(Stacked { event: Event::Press(i, j), since }).layout;
            pressed.waiting is Some ==> pressed.forgetting().tap_hold_tracker == m.tap_hold_tracker
        }),
        ({
            let held = m.waiting_into_hold().layout;
            held.waiting is Some ==> held.forgetting().tap_hold_tracker
                == m.forgetting().tap_hold_tracker
        }),
        ({
            let tapped = m.waiting_into_tap().layout;
            tapped.waiting is Some ==> tapped.forgetting().tap_hold_tracker
                == m.forgetting().tap_hold_tracker
        }),
{
}

/// A press that the handler drops, however many ticks later, leaves no trace at
/// all: the layout is the one that the same number of ticks without the press
/// would have led to.
pub proof fn law_dropped_presses_leave_no_trace<T: 'static, K: 'static + Copy + Eq>(
    m: LayoutView<T, K>,
    i: u8,
    j: u8,
    h: &'static HoldTapAction<T, K>,
    n: nat,
)
    requires
        m.waiting is None,
        m.stacked.len() == 0,
        m.sequences.len() == 0,
        m.press_as_action((i, j), m.current_layer()) == Action::HoldTap(h),
        h.config is Custom,
        h.tap_hold_interval == 0 || m.tap_hold_tracker.coord != (i, j)
            || m.tap_hold_tracker.timeout <= 1,
        n == 0 || n < h.timeout,
    ensures
        ({
            let pressed = m.event(Event::Press(i, j)).layout.tick(None).layout;
            after_ticks(pressed, n).tick(Some(WaitingAction::NoOp)).layout == after_ticks(m, n + 2)
        }),
{
    let pressed = m.event(Event::Press(i, j)).layout.tick(None).layout;
    let rested = LayoutView { tap_hold_tracker: m.tap_hold_tracker.ticked(), ..m };
    laws::law_events_take_effect_at_the_next_tick(m, Event::Press(i, j), None);
    laws::law_idle_ticks_change_nothing(m, None);
    law_hold_tap_keys_wait(rested, h, (i, j), 1);
    law_waiting_keys_can_be_forgotten(rested, i, j, 1, h, None);
    assert(after_ticks(m, 0) == m);
    assert(after_ticks(m, 1) == rested);
    steady::law_depth_is_immaterial(rested, Action::HoldTap(h), (i, j), 1, 0);
    lemma_undecided_forgotten(pressed, m, n);
    law_no_op_drops_the_key(after_ticks(pressed, n));
    let free = after_ticks(m, n + 1);
    laws::law_idle_ticks_change_nothing(free, None);
    assert(free.aged().stacked =~= free.stacked);
}

/// While a key with a handler waits and nothing else goes on, the layout without
/// the key is the one that never had it.
proof fn lemma_undecided_forgotten<T: 'static, K: 'static + Copy + Eq>(
    pressed: LayoutView<T, K>,
    m: LayoutView<T, K>,
    n: nat,
)
    requires
        pressed.asks_handler(),
        pressed.stacked.len() == 0,
        pressed.sequences.len() == 0,
        pressed.forgetting() == after_ticks(m, 1),
        n == 0 || n < pressed.waiting->0.timeout,
    ensures
        ({
            let after = after_ticks(pressed, n);
            &&& after.asks_handler()
            &&& after.waiting->0.timeout == pressed.waiting->0.timeout - n
            &&& after.stacked.len() == 0
            &&& after.sequences.len() == 0
            &&& after.forgetting() == after_ticks(m, n + 1)
        }),
    decreases n,
{
    if n > 0 {
        lemma_undecided_forgotten(pressed, m, (n - 1) as nat);
        let before = after_ticks(pressed, (n - 1) as nat);
        assert(before.aged().stacked =~= before.stacked);
        assert(before.waiting->0.ticked().decision(before.aged().stacked, None) is None);
        let free = before.forgetting();
        laws::law_idle_ticks_change_nothing(free, None);
        assert(free.aged().stacked =~= free.stacked);
        assert((n + 1 - 1) as nat == n);
    }
}

/// A hold-tap key that is configured so is held at the first tick after another
/// press, or after another press and its release, whatever else has happened.
pub proof fn law_other_keys_can_decide<T: 'static, K: 'static + Copy + Eq>(
    m: LayoutView<T, K>,
    answer: Option<WaitingAction>,
)
    requires
        m.waiting is Some,
        ({
            let config = m.waiting->0.config;
            ||| config is HoldOnOtherKeyPress && waiting::some_press(m.stacked)
            ||| config is PermissiveHold && waiting::some_press_and_release(m.stacked)
        }),
    ensures
        m.tick(answer).layout == (LayoutView {
            waiting: Some(m.waiting->0.ticked()),
            ..m.aged()
        }).waiting_into_hold().layout,
{
    let aged = m.aged().stacked;
    if m.waiting->0.config is HoldOnOtherKeyPress {
        let x = choose|x: int|
            0 <= x < m.stacked.len() && (#[trigger] m.stacked[x]).event is Press;
        assert(aged[x].event is Press);
    } else {
        let (x, y) = choose|x: int, y: int|
            0 <= x < y < m.stacked.len() && #[trigger] waiting::press_and_release(
                m.stacked,
                x,
                y,
            );
        assert(waiting::press_and_release(aged, x, y));
    }
}

/// Pressing a hold-tap key again within its tap-hold interval taps it at once:
/// what is active then, and the custom event, are those of the tap alone.
pub proof fn law_pressing_again_in_time_is_a_tap<T: 'static, K: 'static + Copy>(
    m: LayoutView<T, K>,
    h: &'static HoldTapAction<T, K>,
    coord: (u8, u8),
    delay: u16,
)
    requires
        m.waiting is None,
        h.tap_hold_interval > 0,
        m.tap_hold_tracker.coord == coord,
        m.tap_hold_tracker.timeout > 0,
        m.without_interval().act(h.tap, coord, delay).ok,
    ensures
        ({
            let tapped = m.without_interval().act(h.tap, coord, delay);
            let o = m.act(Action::HoldTap(h), coord, delay);
            &&& o.ok
            &&& o.layout == tapped.layout.with_last_key(coord)
            &&& o.event == tapped.event
        }),
{
    let started = m.without_interval();
    let depth = choose|depth: nat|
        (#[trigger] started.act_within(h.tap, coord, delay, depth)).ok;
    assert((depth + 1 - 1) as nat == depth);
    steady::law_depth_is_immaterial(m, Action::HoldTap(h), coord, delay, depth + 1);
}

/// Pressing a hold-tap key with no tap-hold interval, or after the interval, or
/// after another key, makes the key wait for its whole timeout.
pub proof fn law_hold_tap_keys_wait<T: 'static, K: 'static + Copy>(
    m: LayoutView<T, K>,
    h: &'static HoldTapAction<T, K>,
    coord: (u8, u8),
    delay: u16,
)
    requires
        m.waiting is None,
        h.tap_hold_interval == 0 || m.tap_hold_tracker.coord != coord || m.tap_hold_tracker.timeout
            == 0,
    ensures
        ({
            let o = m.act(Action::HoldTap(h), coord, delay);
            &&& o.ok
            &&& o.event == CustomEvent::<T>::NoEvent
            &&& o.layout.states == m.states
            &&& o.layout.waiting == Some(
                WaitingState {
                    coord,
                    timeout: h.timeout,
                    delay,
                    hold: &h.hold,
                    tap: &h.tap,
                    config: h.config,
                    before: m.tap_hold_tracker,
                },
            )
        }),
{
    steady::law_depth_is_immaterial(m, Action::HoldTap(h), coord, delay, 0);
}

/// For how many ticks a key has been pressed that waits for `timeout` ticks in
/// all, counted from the event of its press.
pub open spec fn pressed_for<T: 'static, K: 'static>(w: WaitingState<T, K>, timeout: u16) -> int {
    w.delay + timeout - w.timeout
}

/// A hold-tap key whose release decides on it is tapped if its press and its
/// release are at most its timeout apart, and held otherwise. It is the time
/// between the two events that counts, however long either of them was stacked.
/// The time since the press grows by one with every tick.
pub proof fn law_taps_are_timed_from_press_to_release<T: 'static, K: 'static>(
    w: WaitingState<T, K>,
    timeout: u16,
    stacked: Seq<Stacked>,
)
    requires
        0 < w.timeout <= timeout,
    ensures
        pressed_for(w.ticked(), timeout) == pressed_for(w, timeout) + 1,
        ({
            let aged = stacked.map_values(|s: Stacked| s.ticked());
            w.first_release(stacked) matches Some(since) ==> since < u16::MAX
                ==> w.ticked().late_decision(aged) == Some(
                if pressed_for(w, timeout) - since <= timeout {
                    WaitingAction::Tap
                } else {
                    WaitingAction::Hold
                },
            )
        }),
{
    lemma_first_release_aged(w, w.ticked(), stacked);
}

/// The first release of a key stays the first one, and ages with the others.
proof fn lemma_first_release_aged<T: 'static, K: 'static>(
    w: WaitingState<T, K>,
    other: WaitingState<T, K>,
    stacked: Seq<Stacked>,
)
    requires
        w.coord == other.coord,
    ensures
        ({
            let aged = stacked.map_values(|s: Stacked| s.ticked());
            other.first_release(aged) == match w.first_release(stacked) {
                Some(since) => Some(if since < u16::MAX {
                    (since + 1) as u16
                } else {
                    u16::MAX
                }),
                None => None::<u16>,
            }
        }),
    decreases stacked.len(),
{
    let aged = stacked.map_values(|s: Stacked| s.ticked());
    if stacked.len() > 0 {
        lemma_first_release_aged(w, other, stacked.drop_last());
        assert(aged.drop_last() =~= stacked.drop_last().map_values(|s: Stacked| s.ticked()));
    }
}

/// The layout after a number of ticks at which no handler is asked.
pub open spec fn after_ticks<T: 'static, K: 'static + Copy + Eq>(
    m: LayoutView<T, K>,
    n: nat,
) -> LayoutView<T, K>
    decreases n,
{
    if n == 0 {
        m
    } else {
        after_ticks(m, (n - 1) as nat).tick(None).layout
    }
}

/// A hold-tap key that nothing interferes with is undecided until its timeout is
/// over, and is held at that very tick.
pub proof fn law_keys_are_held_at_their_timeout<T: 'static, K: 'static + Copy + Eq>(
    m: LayoutView<T, K>,
    n: nat,
)
    requires
        m.waiting is Some,
        !(m.waiting->0.config is Custom),
        m.stacked.len() == 0,
        m.sequences.len() == 0,
        m.waiting->0.timeout > 0,
        n < m.waiting->0.timeout,
    ensures
        ({
            let w = m.waiting->0;
            let after = after_ticks(m, n);
            &&& after.waiting == Some(
                WaitingState {
                    timeout: (w.timeout - n) as u16,
                    before: after.waiting->0.before,
                    ..w
                },
            )
            &&& after.states == m.states
            &&& after.stacked == m.stacked
            &&& after.sequences == m.sequences
            &&& n + 1 == w.timeout ==> {
                let ticked = after.waiting->0.ticked();
                &&& after.waiting->0.ticked().decision(after.aged().stacked, None) == Some(
                    WaitingAction::Hold,
                )
                &&& after.tick(None).layout == (LayoutView {
                    waiting: Some(ticked),
                    ..after.aged()
                }).waiting_into_hold().layout
            }
        }),
    decreases n,
{
    let w = m.waiting->0;
    if n > 0 {
        law_keys_are_held_at_their_timeout(m, (n - 1) as nat);
        let before = after_ticks(m, (n - 1) as nat);
        assert(before.aged().stacked =~= m.stacked);
        assert(!waiting::some_press(before.aged().stacked));
        assert(before.waiting->0.ticked().decision(before.aged().stacked, None) is None);
    }
    let after = after_ticks(m, n);
    assert(after.aged().stacked =~= m.stacked);
}

/// Whether the waiting key, if there is one, is the key that was pressed last.
pub open spec fn waits_for_last_key<T: 'static, K: 'static + Copy>(m: LayoutView<T, K>) -> bool {
    m.waiting matches Some(w) ==> m.tap_hold_tracker.coord == w.coord
}

proof fn lemma_act_within_waits<T: 'static, K: 'static + Copy>(
    m: LayoutView<T, K>,
    action: Action<T, K>,
    coord: (u8, u8),
    delay: u16,
    depth: nat,
)
    requires
        waits_for_last_key(m),
    ensures
        waits_for_last_key(m.act_within(action, coord, delay, depth).layout),
        m.waiting is None ==> (m.act_within(action, coord, delay, depth).layout.waiting matches Some(w)
            ==> w.coord == coord),
    decreases depth, 0nat,
{
    match action {
        Action::HoldTap(h) => {
            if depth > 0 {
                let m1 = m.without_interval();
                lemma_act_within_waits(m1, h.tap, coord, delay, (depth - 1) as nat);
            }
        },
        Action::MultipleActions(actions) => {
            if depth > 0 && m.waiting is None {
                lemma_act_all_waits(
                    m.with_last_key(coord),
                    actions@,
                    coord,
                    delay,
                    (depth - 1) as nat,
                );
            }
        },
        _ => {},
    }
}

proof fn lemma_act_all_waits<T: 'static, K: 'static + Copy>(
    m: LayoutView<T, K>,
    actions: Seq<Action<T, K>>,
    coord: (u8, u8),
    delay: u16,
    depth: nat,
)
    requires
        m.waiting is None,
    ensures
        waits_for_last_key(m.act_all_within(actions, coord, delay, depth).layout),
        m.act_all_within(actions, coord, delay, depth).layout.waiting matches Some(w) ==> w.coord
            == coord,
    decreases depth, actions.len() + 1,
{
    if actions.len() > 0 {
        lemma_act_all_waits(m, actions.drop_last(), coord, delay, depth);
        let before = m.act_all_within(actions.drop_last(), coord, delay, depth).layout;
        lemma_act_within_waits(before, actions.last(), coord, delay, depth);
    }
}

proof fn lemma_act_waits<T: 'static, K: 'static + Copy>(
    m: LayoutView<T, K>,
    action: Action<T, K>,
    coord: (u8, u8),
    delay: u16,
)
    requires
        waits_for_last_key(m),
    ensures
        waits_for_last_key(m.act(action, coord, delay).layout),
{
    let depth = choose|depth: nat| (#[trigger] m.act_within(action, coord, delay, depth)).ok;
    lemma_act_within_waits(m, action, coord, delay, depth);
}

proof fn lemma_unstack_waits<T: 'static, K: 'static + Copy>(m: LayoutView<T, K>, stacked: Stacked)
    requires
        waits_for_last_key(m),
    ensures
        waits_for_last_key(m.unstack(stacked).layout),
{
    if let Event::Press(i, j) = stacked.event {
        let action = m.press_as_action((i, j), m.current_layer());
        lemma_act_waits(m, action, (i, j), stacked.since);
    }
}

/// The key that waits is always the key that was pressed last: this holds of new
/// layouts, and events and ticks keep it.
pub proof fn law_the_waiting_key_is_the_last_one<T: 'static, K: 'static + Copy + Eq>(
    layers: Seq<Seq<Seq<Action<T, K>>>>,
    m: LayoutView<T, K>,
    event: Event,
    answer: Option<WaitingAction>,
)
    requires
        waits_for_last_key(m),
    ensures
        waits_for_last_key(LayoutView::<T, K>::initial(layers)),
        waits_for_last_key(m.event(event).layout),
        waits_for_last_key(m.tick(answer).layout),
{
    let full = LayoutView {
        stacked: m.stacked.drop_first().push(Stacked { event, since: 0 }),
        ..m
    };
    lemma_into_hold_waits(full);
    lemma_unstack_waits(full.waiting_into_hold().layout, m.stacked[0]);
    let aged = m.aged();
    match m.waiting {
        Some(w) => {
            let ticked = LayoutView { waiting: Some(w.ticked()), ..aged };
            lemma_into_hold_waits(ticked);
            lemma_act_waits(ticked.without_waiting(), *w.tap, w.coord, 0);
        },
        None => {
            let rest = LayoutView { stacked: aged.stacked.drop_first(), ..aged };
            lemma_unstack_waits(rest, aged.stacked[0]);
        },
    }
}

proof fn lemma_into_hold_waits<T: 'static, K: 'static + Copy>(m: LayoutView<T, K>)
    requires
        waits_for_last_key(m),
    ensures
        waits_for_last_key(m.waiting_into_hold().layout),
{
    if let Some(w) = m.waiting {
        let free = m.holding(w.coord);
        lemma_act_waits(free, *w.hold, w.coord, 0);
    }
}

proof fn lemma_settled_tracker<T: 'static, K: 'static + Copy>(
    m: LayoutView<T, K>,
    action: Action<T, K>,
    coord: (u8, u8),
    delay: u16,
    depth: nat,
)
    requires
        steady::settles(action, depth),
        m.tap_hold_tracker.coord == coord,
    ensures
        m.act_within(action, coord, delay, depth).layout.tap_hold_tracker == m.tap_hold_tracker,
    decreases depth, 0nat,
{
    if let Action::MultipleActions(actions) = action {
        lemma_all_settled_tracker(
            m.with_last_key(coord),
            actions@,
            coord,
            delay,
            (depth - 1) as nat,
        );
    }
}

proof fn lemma_all_settled_tracker<T: 'static, K: 'static + Copy>(
    m: LayoutView<T, K>,
    actions: Seq<Action<T, K>>,
    coord: (u8, u8),
    delay: u16,
    depth: nat,
)
    requires
        forall|i: int| 0 <= i < actions.len() ==> steady::settles(#[trigger] actions[i], depth),
        m.tap_hold_tracker.coord == coord,
    ensures
        m.act_all_within(actions, coord, delay, depth).layout.tap_hold_tracker
            == m.tap_hold_tracker,
    decreases depth, actions.len() + 1,
{
    if actions.len() > 0 {
        lemma_all_settled_tracker(m, actions.drop_last(), coord, delay, depth);
        let before = m.act_all_within(actions.drop_last(), coord, delay, depth).layout;
        assert(steady::settles(actions[actions.len() - 1], depth));
        lemma_settled_tracker(before, actions.last(), coord, delay, depth);
    }
}

/// Holding a hold-tap key ends its tap-hold interval: pressing it once more makes
/// it wait again. The hold action is one that leaves no key waiting itself.
pub proof fn law_holding_ends_the_interval<T: 'static, K: 'static + Copy>(
    m: LayoutView<T, K>,
    depth: nat,
)
    requires
        waits_for_last_key(m),
        m.waiting is Some,
        steady::settles(*m.waiting->0.hold, depth),
    ensures
        m.waiting_into_hold().layout.tap_hold_tracker == (TapHoldTracker {
            coord: m.waiting->0.coord,
            timeout: 0,
        }),
{
    let w = m.waiting->0;
    let free = m.holding(w.coord);
    steady::lemma_settles(free, *w.hold, w.coord, 0, depth);
    steady::law_depth_is_immaterial(free, *w.hold, w.coord, 0, depth);
    lemma_settled_tracker(free, *w.hold, w.coord, 0, depth);
}

} // verus!
