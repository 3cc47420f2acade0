//! When the events of a sequence are played, and how long a sequence lasts.
use crate::action::{Action, SequenceEvent};
use crate::layout::action_laws;
use crate::layout::sequence::{self, SequenceView};
use crate::layout::sequence_laws;
use crate::layout::{LayoutView, State};
use vstd::prelude::*;

verus! {

/// The ticks that pass before the event at `i` is played: those that the events
/// before it take.
pub open spec fn start_of<K: 'static>(events: Seq<SequenceEvent<K>>, i: int) -> nat {
    sequence_laws::events_ticks(events.take(i))
}

/// The ticks that a sequence is played for: those that its events take, but a
/// delay at the end takes only one.
pub open spec fn duration_of<K: 'static>(events: Seq<SequenceEvent<K>>) -> nat {
    start_of(events, events.len() - 1) + if events.last() is Delay {
        1
    } else {
        sequence_laws::event_ticks(events.last())
    }
}

/// An event is over when the next one starts.
proof fn lemma_start_of_next<K: 'static>(events: Seq<SequenceEvent<K>>, i: int)
    requires
        0 <= i < events.len(),
    ensures
        start_of(events, i + 1) == start_of(events, i) + sequence_laws::event_ticks(events[i]),
    decreases i,
{
    let rest = events.drop_first();
    assert(events.take(i + 1).drop_first() =~= rest.take(i));
    if i > 0 {
        assert(events.take(i).drop_first() =~= rest.take(i - 1));
        lemma_start_of_next(rest, i - 1);
    } else {
        assert(rest.take(0) =~= Seq::<SequenceEvent<K>>::empty());
        assert(events.take(0) =~= Seq::<SequenceEvent<K>>::empty());
    }
}

/// A started sequence is about to play the event at `i` when the events before it
/// are over.
proof fn lemma_at_event<T: 'static, K: 'static + Copy + Eq>(
    states: Seq<State<T, K>>,
    events: Seq<SequenceEvent<K>>,
    i: int,
)
    requires
        0 <= i <= events.len(),
        forall|j: int| 0 <= j < i ==> !((#[trigger] events[j]) is Complete),
    ensures
        ({
            let start = start_of(events, i);
            let seq = sequence_laws::after_steps(states, SequenceView::started(events), start).1;
            seq.delay == 0 && seq.tapped is None && seq.remaining == events.skip(i)
        }),
    decreases i, 0nat,
{
    if i == 0 {
        assert(events.take(0) =~= Seq::<SequenceEvent<K>>::empty());
        assert(events.skip(0) =~= events);
    } else {
        lemma_start_of_next(events, i - 1);
        lemma_during_event(states, events, i - 1, sequence_laws::event_ticks(events[i - 1]));
    }
}

/// Where a started sequence is `k` ticks into the event at `i`.
proof fn lemma_during_event<T: 'static, K: 'static + Copy + Eq>(
    states: Seq<State<T, K>>,
    events: Seq<SequenceEvent<K>>,
    i: int,
    k: nat,
)
    requires
        0 <= i < events.len(),
        forall|j: int| 0 <= j <= i ==> !((#[trigger] events[j]) is Complete),
        1 <= k <= sequence_laws::event_ticks(events[i]),
    ensures
        ({
            let start = start_of(events, i);
            let seq = sequence_laws::after_steps(
                states,
                SequenceView::started(events),
                start + k,
            ).1;
            &&& seq.remaining == events.skip(i + 1)
            &&& seq.delay == match events[i] {
                SequenceEvent::Delay { duration } => if duration > 0 {
                    duration - k
                } else {
                    0
                },
                _ => 0,
            }
            &&& seq.tapped == match events[i] {
                SequenceEvent::Tap(keycode) => if k == 1 {
                    Some(keycode)
                } else {
                    None
                },
                _ => None,
            }
        }),
    decreases i, k,
{
    let start = start_of(events, i);
    let started = SequenceView::started(events);
    assert((start + k - 1) as nat == start + (k - 1) as nat);
    if k == 1 {
        lemma_at_event(states, events, i);
        assert(events.skip(i).drop_first() =~= events.skip(i + 1));
        assert(events.skip(i)[0] == events[i]);
    } else {
        lemma_during_event(states, events, i, (k - 1) as nat);
    }
}

/// The events of a sequence are played in order, none is left out and none is
/// played twice. The event at `i` is played at the tick after those that the
/// events before it take. Until it is over, the sequence only waits or releases
/// what it has tapped. What comes after a `Complete` is not played.
pub proof fn law_events_are_played_in_turn<T: 'static, K: 'static + Copy + Eq>(
    states: Seq<State<T, K>>,
    events: Seq<SequenceEvent<K>>,
    i: int,
)
    requires
        0 <= i < events.len(),
        forall|j: int| 0 <= j < i ==> !((#[trigger] events[j]) is Complete),
    ensures
        ({
            let started = SequenceView::started(events);
            let start = start_of(events, i);
            let (before, seq) = sequence_laws::after_steps(states, started, start);
            &&& seq.delay == 0
            &&& seq.tapped is None
            &&& seq.remaining == events.skip(i)
            &&& sequence_laws::after_steps(states, started, start + 1) == (SequenceView {
                cur_event: Some(events[i]),
                remaining: events.skip(i + 1),
                ..seq
            }).played(before)
            &&& forall|n: nat|
                start < n < start + sequence_laws::event_ticks(events[i]) ==> {
                    let waiting = (#[trigger] sequence_laws::after_steps(states, started, n)).1;
                    &&& waiting.delay > 0 || waiting.tapped is Some
                    &&& waiting.remaining == events.skip(i + 1)
                }
        }),
{
    let started = SequenceView::started(events);
    let start = start_of(events, i);
    lemma_at_event(states, events, i);
    assert(events.skip(i).drop_first() =~= events.skip(i + 1));
    assert((start + 1 - 1) as nat == start);
    assert forall|n: nat| start < n < start + sequence_laws::event_ticks(events[i]) implies {
        let waiting = (#[trigger] sequence_laws::after_steps(states, started, n)).1;
        &&& waiting.delay > 0 || waiting.tapped is Some
        &&& waiting.remaining == events.skip(i + 1)
    } by {
        lemma_during_event(states, events, i, (n - start) as nat);
    }
}

/// The event that a sequence is at after a number of ticks.
proof fn lemma_event_at<K: 'static>(events: Seq<SequenceEvent<K>>, n: nat) -> (i: int)
    requires
        n < sequence_laws::events_ticks(events),
    ensures
        0 <= i < events.len(),
        start_of(events, i) <= n < start_of(events, i) + sequence_laws::event_ticks(events[i]),
    decreases events.len(),
{
    let last = events.len() - 1;
    lemma_start_of_next(events, last);
    assert(events.take(events.len() as int) =~= events);
    if start_of(events, last) <= n {
        last
    } else {
        let first = events.drop_last();
        assert(events.take(last) =~= first);
        let i = lemma_event_at(first, n);
        assert(first.take(i) =~= events.take(i));
        i
    }
}

/// A sequence that is not completed early has to go on until all the ticks that it
/// is played for are over, and not any longer.
pub proof fn law_sequences_last<T: 'static, K: 'static + Copy + Eq>(
    states: Seq<State<T, K>>,
    events: Seq<SequenceEvent<K>>,
)
    requires
        events.len() > 0,
        forall|j: int| 0 <= j < events.len() ==> !((#[trigger] events[j]) is Complete),
    ensures
        duration_of(events) > 0,
        ({
            let started = SequenceView::started(events);
            &&& forall|n: nat|
                n < duration_of(events) ==> (#[trigger] sequence_laws::after_steps(
                    states,
                    started,
                    n,
                )).1.ongoing()
            &&& !sequence_laws::after_steps(states, started, duration_of(events)).1.ongoing()
        }),
{
    let started = SequenceView::started(events);
    let last = events.len() - 1;
    lemma_start_of_next(events, last);
    assert(events.take(events.len() as int) =~= events);
    assert forall|n: nat| n < duration_of(events) implies (#[trigger] sequence_laws::after_steps(
        states,
        started,
        n,
    )).1.ongoing() by {
        let i = lemma_event_at(events, n);
        if n == start_of(events, i) {
            lemma_at_event(states, events, i);
        } else {
            lemma_during_event(states, events, i, (n - start_of(events, i)) as nat);
        }
    }
    lemma_during_event(
        states,
        events,
        last,
        (duration_of(events) - start_of(events, last)) as nat,
    );
}

/// The layout after its sequences have been played for a number of ticks.
pub open spec fn after_played<T: 'static, K: 'static + Copy + Eq>(
    m: LayoutView<T, K>,
    n: nat,
) -> LayoutView<T, K>
    decreases n,
{
    if n == 0 {
        m
    } else {
        after_played(m, (n - 1) as nat).sequences_played()
    }
}

/// A layout that has just started its only sequence, one that is not completed
/// early, plays it step by step for as many ticks as it lasts. Then the sequence
/// is gone.
pub proof fn law_layouts_play_their_sequence<T: 'static, K: 'static + Copy + Eq>(
    m: LayoutView<T, K>,
    events: Seq<SequenceEvent<K>>,
    n: nat,
)
    requires
        m.sequences == seq![SequenceView::started(events)],
        events.len() > 0,
        forall|j: int| 0 <= j < events.len() ==> !((#[trigger] events[j]) is Complete),
        n <= duration_of(events),
    ensures
        ({
            let (states, seq) = sequence_laws::after_steps(
                m.states,
                SequenceView::started(events),
                n,
            );
            after_played(m, n) == (LayoutView {
                states,
                sequences: if n < duration_of(events) {
                    seq![seq]
                } else {
                    Seq::empty()
                },
                ..m
            })
        }),
    decreases n,
{
    law_sequences_last(m.states, events);
    if n > 0 {
        let before = (n - 1) as nat;
        law_layouts_play_their_sequence(m, events, before);
        let started = SequenceView::started(events);
        let (states, seq) = sequence_laws::after_steps(m.states, started, before);
        let (after, stepped) = sequence_laws::after_steps(m.states, started, n);
        assert(seq![seq].drop_last() =~= Seq::<SequenceView<K>>::empty());
        reveal_with_fuel(sequence::all_stepped, 2);
        assert(sequence::all_stepped(states, seq![seq]).0 == after);
        assert(stepped.ongoing() == (n < duration_of(events)));
        assert(Seq::<SequenceView<K>>::empty().push(stepped) =~= seq![stepped]);
    }
}

/// Every event of a sequence that a key starts is played, in its turn, however many
/// there are, if it is the only sequence and is not completed early: after the ticks
/// that the events before it take, the event at `i` is the next one to be played.
pub proof fn law_started_sequences_are_played_whole<T: 'static, K: 'static + Copy + Eq>(
    m: LayoutView<T, K>,
    events: &'static &'static [SequenceEvent<K>],
    coord: (u8, u8),
    delay: u16,
    i: int,
)
    requires
        m.waiting is None,
        m.sequences.len() == 0,
        0 <= i < events@.len(),
        forall|j: int| 0 <= j < events@.len() ==> !((#[trigger] events@[j]) is Complete),
    ensures
        ({
            let started = m.act(Action::Sequence(events), coord, delay).layout;
            let then = after_played(started, start_of(events@, i));
            &&& then.sequences.len() == 1
            &&& then.sequences[0].remaining == events@.skip(i)
            &&& then.sequences[0].delay == 0
            &&& then.sequences[0].tapped is None
        }),
{
    let started = m.act(Action::Sequence(events), coord, delay).layout;
    let n = start_of(events@, i);
    let all = events@;
    action_laws::law_sequences_start_with_all_their_events(m, events, coord, delay);
    assert(m.act_within(Action::Sequence(events), coord, delay, 0).ok);
    assert(started.sequences =~= seq![SequenceView::started(all)]);
    lemma_start_before_end(all, i);
    law_layouts_play_their_sequence(started, all, n);
    law_events_are_played_in_turn(started.states, all, i);
}

/// Every event starts before the sequence is over.
proof fn lemma_start_before_end<K: 'static>(events: Seq<SequenceEvent<K>>, i: int)
    requires
        0 <= i < events.len(),
    ensures
        start_of(events, i) < duration_of(events),
    decreases events.len() - i,
{
    if i < events.len() - 1 {
        lemma_start_of_next(events, i);
        lemma_start_before_end(events, i + 1);
    }
}

} // verus!
