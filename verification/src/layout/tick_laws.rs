//! What events and ticks do, told in terms of the stacked events, of the waiting key
//! and of the parts of the layout.
use crate::action::HoldTapConfig;
use crate::layout::sequence::{self, MAX_SAVED, MAX_SEQUENCES};
use crate::layout::states::MAX_STATES;
use crate::layout::tap_hold::TapHoldTracker;
use crate::layout::waiting::{self, STACK_SIZE};
use crate::layout::{Event, LayoutView, Outcome, Stacked, WaitingAction, WaitingState};
use vstd::prelude::*;

verus! {

/// What there is room for: 64 states, 32 stacked events, 4 sequences, and 64 keys
/// that a sequence has filtered.
pub proof fn law_sizes()
    ensures
        MAX_STATES == 64,
        STACK_SIZE == 32,
        MAX_SEQUENCES == 4,
        MAX_SAVED == 64,
{
}

/// The parts of an event.
pub proof fn law_events(i: u8, j: u8)
    ensures
        Event::Press(i, j).coord_spec() == (i, j),
        Event::Release(i, j).coord_spec() == (i, j),
{
}

/// Whether nothing happens to be stacked as a press.
pub open spec fn no_press(stacked: Seq<Stacked>) -> bool {
    forall|x: int|
        0 <= x < stacked.len() ==> !(#[trigger] stacked[x].event matches Event::Press(_, _))
}

/// Whether the events at `x` and at `y` are a press and the release of the same key.
pub open spec fn pressed_and_released(stacked: Seq<Stacked>, x: int, y: int) -> bool {
    stacked[x].event matches Event::Press(i, j) && stacked[y].event == Event::Release(i, j)
}

/// Whether no stacked press is followed by its release.
pub open spec fn no_press_and_release(stacked: Seq<Stacked>) -> bool {
    forall|x: int, y: int|
        0 <= x < y < stacked.len() ==> !#[trigger] pressed_and_released(stacked, x, y)
}

/// Whether the event at `r` is the first release of the key at `coord`.
pub open spec fn first_release_at(stacked: Seq<Stacked>, r: int, coord: (u8, u8)) -> bool {
    &&& 0 <= r < stacked.len()
    &&& stacked[r].event == Event::Release(coord.0, coord.1)
    &&& forall|x: int|
        0 <= x < r ==> (#[trigger] stacked[x]).event != Event::Release(coord.0, coord.1)
}

/// Whether the key at `coord` is not released.
pub open spec fn not_released(stacked: Seq<Stacked>, coord: (u8, u8)) -> bool {
    forall|x: int|
        0 <= x < stacked.len() ==> (#[trigger] stacked[x]).event != Event::Release(
            coord.0,
            coord.1,
        )
}

proof fn lemma_first_release<T: 'static, K: 'static>(w: WaitingState<T, K>, stacked: Seq<Stacked>)
    ensures
        forall|r: int| #[trigger]
            first_release_at(stacked, r, w.coord) ==> w.first_release(stacked) == Some(
                stacked[r].since,
            ),
        not_released(stacked, w.coord) ==> w.first_release(stacked) == None::<u16>,
    decreases stacked.len(),
{
    if stacked.len() > 0 {
        let first = stacked.drop_last();
        lemma_first_release(w, first);
        assert forall|r: int| #[trigger] first_release_at(stacked, r, w.coord) implies w.first_release(
            stacked,
        ) == Some(stacked[r].since) by {
            assert forall|x: int| 0 <= x < r implies (#[trigger] first[x]).event != Event::Release(
                w.coord.0,
                w.coord.1,
            ) by {
                assert(first[x] == stacked[x]);
            }
            if r < first.len() {
                assert(first_release_at(first, r, w.coord));
            } else {
                assert(not_released(first, w.coord));
            }
        }
        if not_released(stacked, w.coord) {
            assert forall|x: int| 0 <= x < first.len() implies (
            #[trigger] first[x]).event != Event::Release(w.coord.0, w.coord.1) by {
                assert(first[x] == stacked[x]);
            }
            assert(stacked[stacked.len() - 1].event != Event::Release(w.coord.0, w.coord.1));
        }
    }
}

/// Whether the decision on a waiting key is left to its release and its timeout: for
/// a key that is held on another press, if there is none; for a permissive one, if
/// no key was pressed and then released; for one with a handler, if the handler
/// leaves it open.
pub open spec fn left_to_time<T: 'static, K: 'static>(
    w: WaitingState<T, K>,
    stacked: Seq<Stacked>,
    answer: Option<WaitingAction>,
) -> bool {
    match w.config {
        HoldTapConfig::Default => true,
        HoldTapConfig::HoldOnOtherKeyPress => no_press(stacked),
        HoldTapConfig::PermissiveHold => no_press_and_release(stacked),
        HoldTapConfig::Custom(_) => answer is None,
    }
}

/// How a waiting key is decided, whatever its configuration. If the decision is not
/// left to time, the key is held, or it is what its handler says. If it is, the first
/// release of the key decides, and the key is tapped exactly if the time that it has
/// left, with the time for which the release was stacked, is no less than the time
/// for which its press was stacked; with no release the key is held when it has no
/// time left, and is not decided before.
pub proof fn law_decisions<T: 'static, K: 'static>(
    w: WaitingState<T, K>,
    stacked: Seq<Stacked>,
    answer: Option<WaitingAction>,
)
    ensures
        ({
            let decision = w.decision(stacked, answer);
            let by_time = left_to_time(w, stacked, answer);
            &&& !by_time && !(w.config is Custom) ==> decision == Some(WaitingAction::Hold)
            &&& !by_time && w.config is Custom ==> decision == answer
            &&& by_time ==> forall|r: int| #[trigger]
                first_release_at(stacked, r, w.coord) ==> decision == Some(
                    if w.timeout + stacked[r].since >= w.delay {
                        WaitingAction::Tap
                    } else {
                        WaitingAction::Hold
                    },
                )
            &&& by_time && not_released(stacked, w.coord) && w.timeout == 0 ==> decision == Some(
                WaitingAction::Hold,
            )
            &&& by_time && not_released(stacked, w.coord) && w.timeout > 0 ==> decision is None
        }),
        ({
            let by_time = left_to_time(w, stacked, answer);
            &&& !by_time ==> w.in_range(stacked, answer)
            &&& not_released(stacked, w.coord) ==> w.in_range(stacked, answer)
            &&& by_time ==> forall|r: int| #[trigger]
                first_release_at(stacked, r, w.coord) ==> w.in_range(stacked, answer) == (w.timeout
                    + stacked[r].since <= 65535)
        }),
{
    lemma_first_release(w, stacked);
    lemma_early_decision(w, stacked, answer);
}

proof fn lemma_early_decision<T: 'static, K: 'static>(
    w: WaitingState<T, K>,
    stacked: Seq<Stacked>,
    answer: Option<WaitingAction>,
)
    ensures
        left_to_time(w, stacked, answer) ==> w.early_decision(stacked, answer) is None,
        !left_to_time(w, stacked, answer) && !(w.config is Custom) ==> w.early_decision(
            stacked,
            answer,
        ) == Some(WaitingAction::Hold),
        !left_to_time(w, stacked, answer) && w.config is Custom ==> w.early_decision(
            stacked,
            answer,
        ) == answer,
{
    if w.config is HoldOnOtherKeyPress {
        if !no_press(stacked) {
            let x = choose|x: int|
                0 <= x < stacked.len() && (
                #[trigger] stacked[x].event matches Event::Press(_, _));
            assert(stacked[x].event is Press);
        }
    }
    if w.config is PermissiveHold {
        if !no_press_and_release(stacked) {
            let (x, y) = choose|x: int, y: int|
                0 <= x < y < stacked.len() && #[trigger] pressed_and_released(stacked, x, y);
            assert(waiting::press_and_release(stacked, x, y));
        }
        if waiting::some_press_and_release(stacked) {
            let (x, y) = choose|x: int, y: int|
                0 <= x < y < stacked.len() && #[trigger] waiting::press_and_release(
                    stacked,
                    x,
                    y,
                );
            assert(pressed_and_released(stacked, x, y));
        }
    }
}

/// The events one tick later: the same ones in the same order, each of them stacked
/// for one tick longer, as far as a `u16` counts.
pub open spec fn one_tick_later(before: Seq<Stacked>, after: Seq<Stacked>) -> bool {
    &&& after.len() == before.len()
    &&& forall|i: int|
        0 <= i < before.len() ==> (#[trigger] after[i]).event == before[i].event && after[i].since
            == if before[i].since < 65535 {
            before[i].since + 1
        } else {
            65535
        }
}

/// A tracker that has one tick less left, if it had any.
pub open spec fn counted_down(before: TapHoldTracker, after: TapHoldTracker) -> bool {
    &&& after.coord == before.coord
    &&& after.timeout == if before.timeout > 0 {
        before.timeout - 1
    } else {
        0
    }
}

/// A waiting key that has one tick less left, if it had any.
pub open spec fn waited<T: 'static, K: 'static>(
    before: WaitingState<T, K>,
    after: WaitingState<T, K>,
) -> bool {
    &&& after == (WaitingState { timeout: after.timeout, before: after.before, ..before })
    &&& after.timeout == if before.timeout > 0 {
        before.timeout - 1
    } else {
        0
    }
    &&& counted_down(before.before, after.before)
}

/// Time passes for the events, for the memory of the last press and for a waiting
/// key by one tick; the sequences are played; nothing else changes.
pub proof fn law_time_passes<T: 'static, K: 'static + Copy + Eq>(m: LayoutView<T, K>)
    ensures
        ({
            let aged = m.aged();
            let (states, sequences) = sequence::all_stepped(m.states, m.sequences);
            &&& aged.layers == m.layers
            &&& aged.default_layer == m.default_layer
            &&& aged.tri_layers == m.tri_layers
            &&& aged.waiting == m.waiting
            &&& one_tick_later(m.stacked, aged.stacked)
            &&& counted_down(m.tap_hold_tracker, aged.tap_hold_tracker)
            &&& aged.states == states
            &&& aged.sequences == sequences
        }),
        m.waiting matches Some(w) ==> waited(w, w.ticked()),
{
}

/// A step whose outcome is that of another one.
pub open spec fn same_outcome<T: 'static, K: 'static + Copy>(
    o: Outcome<T, K>,
    other: Outcome<T, K>,
) -> bool {
    o.layout == other.layout && o.event == other.event
}

/// After time has passed, a tick does one thing. While a key waits, it decides on it
/// from the stacked events and from what the handler says, and the key is held,
/// tapped, dropped or goes on waiting; no event is processed. Otherwise it processes
/// the oldest event, if there is one. A tick can be made exactly if every sequence
/// has something to play, the times can be added up, and what it does can be done.
pub proof fn law_ticks<T: 'static, K: 'static + Copy + Eq>(
    m: LayoutView<T, K>,
    answer: Option<WaitingAction>,
)
    ensures
        ({
            let o = m.tick(answer);
            let aged = m.aged();
            let playable = forall|i: int|
                0 <= i < m.sequences.len() ==> (#[trigger] m.sequences[i]).remaining.len() > 0
                    || m.sequences[i].delay > 0 || m.sequences[i].tapped is Some
                    || m.sequences[i].cur_event is Some;
            &&& m.waiting is None && m.stacked.len() == 0 ==> {
                &&& o.layout == aged
                &&& o.event is NoEvent
                &&& o.ok == playable
            }
            &&& m.waiting is None && m.stacked.len() > 0 ==> {
                let rest = LayoutView { stacked: aged.stacked.drop_first(), ..aged };
                let processed = rest.unstack(aged.stacked[0]);
                &&& same_outcome(o, processed)
                &&& o.ok == (playable && processed.ok)
            }
            &&& m.waiting matches Some(w) ==> {
                let late = LayoutView { waiting: Some(w.ticked()), ..aged };
                let in_range = w.ticked().in_range(aged.stacked, answer);
                match w.ticked().decision(aged.stacked, answer) {
                    Some(WaitingAction::Hold) => {
                        &&& same_outcome(o, late.waiting_into_hold())
                        &&& o.ok == (playable && in_range && late.waiting_into_hold().ok)
                    },
                    Some(WaitingAction::Tap) => {
                        &&& same_outcome(o, late.waiting_into_tap())
                        &&& o.ok == (playable && in_range && late.waiting_into_tap().ok)
                    },
                    Some(WaitingAction::NoOp) => {
                        &&& same_outcome(o, late.drop_waiting())
                        &&& o.ok == (playable && in_range)
                    },
                    None => {
                        &&& o.layout == late
                        &&& o.event is NoEvent
                        &&& o.ok == (playable && in_range)
                    },
                }
            }
        }),
{
    assert forall|i: int|
        0 <= i < m.sequences.len() implies (#[trigger] m.sequences[i]).playable() == (
    m.sequences[i].remaining.len() > 0 || m.sequences[i].delay > 0 || m.sequences[i].tapped is Some
        || m.sequences[i].cur_event is Some) by {}
}

/// An event that there is room for is stacked as the newest one, and nothing else
/// happens. If 32 events are stacked already, the oldest one gives way to it: a
/// waiting key is held first, then the oldest event is processed.
pub proof fn law_new_events<T: 'static, K: 'static + Copy>(m: LayoutView<T, K>, event: Event)
    ensures
        ({
            let o = m.event(event);
            let new = Stacked { event, since: 0 };
            &&& m.stacked.len() < 32 ==> {
                &&& o.ok
                &&& o.event is NoEvent
                &&& o.layout == (LayoutView { stacked: m.stacked.push(new), ..m })
            }
            &&& m.stacked.len() >= 32 ==> {
                let held = (LayoutView {
                    stacked: m.stacked.drop_first().push(new),
                    ..m
                }).waiting_into_hold();
                let processed = held.layout.unstack(m.stacked[0]);
                &&& same_outcome(o, processed)
                &&& o.ok == (held.ok && processed.ok)
            }
        }),
{
}

/// An event can be taken, and a tick can be made, exactly if the step can be made,
/// for a tick with every answer that a handler may give. A handler is asked exactly
/// if a key with a handler waits, and about the events as they are one tick later;
/// with no handler asked there is no answer.
pub proof fn law_readiness_and_answers<T: 'static, K: 'static + Copy + Eq>(
    m: LayoutView<T, K>,
    event: Event,
    answer: Option<WaitingAction>,
    stacked: Seq<Stacked>,
)
    requires
        one_tick_later(m.stacked, stacked),
    ensures
        m.event_ready(event) == m.event(event).ok,
        m.tick_ready() && m.may_be_told(answer) ==> m.tick(answer).ok,
        (forall|a: Option<WaitingAction>| (#[trigger] m.tick(a)).ok) ==> m.tick_ready(),
        m.waiting is None ==> !m.asks_handler() && m.may_be_told(answer) == (answer is None),
        m.waiting matches Some(w) ==> match w.config {
            HoldTapConfig::Custom(handler) => m.asks_handler() && m.may_be_told(answer)
                == handler.may_answer(stacked, answer),
            _ => !m.asks_handler() && m.may_be_told(answer) == (answer is None),
        },
{
    assert(m.aged().stacked =~= stacked) by {
        assert forall|i: int| 0 <= i < stacked.len() implies m.aged().stacked[i] == stacked[i] by {
            assert(stacked[i].event == m.stacked[i].event);
        }
    }
    assert(m.tick(answer).ok ==> m.all_playable());
}

/// A tick with every sequence playable can be made if no answer that may be given
/// makes it impossible.
pub proof fn law_tick_readiness<T: 'static, K: 'static + Copy + Eq>(m: LayoutView<T, K>)
    requires
        forall|i: int|
            0 <= i < m.sequences.len() ==> (#[trigger] m.sequences[i]).remaining.len() > 0
                || m.sequences[i].delay > 0 || m.sequences[i].tapped is Some
                || m.sequences[i].cur_event is Some,
        forall|answer: Option<WaitingAction>|
            m.may_be_told(answer) ==> (#[trigger] m.tick(answer)).ok,
    ensures
        m.tick_ready(),
{
}

/// A waiting key whose press and release are at most its timeout apart is tapped at
/// the next tick, and one whose press and release are further apart is held,
/// whatever its configuration, unless another press, a press with its release, or
/// its handler decides on it. It is the time between the two events that counts.
pub proof fn law_ticks_tap_keys_that_are_released_in_time<T: 'static, K: 'static + Copy + Eq>(
    m: LayoutView<T, K>,
    answer: Option<WaitingAction>,
    timeout: u16,
    r: int,
)
    requires
        m.waiting is Some,
        0 < m.waiting->0.timeout <= timeout,
        left_to_time(m.waiting->0, m.stacked, answer),
        first_release_at(m.stacked, r, m.waiting->0.coord),
        m.stacked[r].since < 65535,
    ensures
        ({
            let w = m.waiting->0;
            let late = LayoutView { waiting: Some(w.ticked()), ..m.aged() };
            let apart = w.delay + timeout - w.timeout - m.stacked[r].since;
            same_outcome(
                m.tick(answer),
                if apart <= timeout {
                    late.waiting_into_tap()
                } else {
                    late.waiting_into_hold()
                },
            )
        }),
{
    let w = m.waiting->0;
    let aged = m.aged().stacked;
    lemma_left_to_time_later(w, m.stacked, aged, answer);
    assert(first_release_at(aged, r, w.coord)) by {
        assert(aged[r].event == m.stacked[r].event);
        assert forall|x: int| 0 <= x < r implies (#[trigger] aged[x]).event != Event::Release(
            w.coord.0,
            w.coord.1,
        ) by {
            assert(aged[x].event == m.stacked[x].event);
        }
    }
    law_decisions(w.ticked(), aged, answer);
}

/// Whether the decision is left to time does not depend on how long the events have
/// been stacked.
proof fn lemma_left_to_time_later<T: 'static, K: 'static>(
    w: WaitingState<T, K>,
    stacked: Seq<Stacked>,
    later: Seq<Stacked>,
    answer: Option<WaitingAction>,
)
    requires
        one_tick_later(stacked, later),
        left_to_time(w, stacked, answer),
    ensures
        left_to_time(w.ticked(), later, answer),
{
    if w.config is HoldOnOtherKeyPress {
        assert forall|x: int| 0 <= x < later.len() implies !(
        #[trigger] later[x].event matches Event::Press(_, _)) by {
            assert(later[x].event == stacked[x].event);
        }
    }
    if w.config is PermissiveHold {
        assert forall|x: int, y: int|
            0 <= x < y < later.len() implies !#[trigger] pressed_and_released(later, x, y) by {
            assert(later[x].event == stacked[x].event);
            assert(later[y].event == stacked[y].event);
            assert(!pressed_and_released(stacked, x, y));
        }
    }
}

} // verus!
