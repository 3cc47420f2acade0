//! Key sequences that are being played.
use crate::action::SequenceEvent;
use crate::collections::BoundedVec;
use crate::layout::states::{self, States, MAX_STATES};
use crate::layout::{state, SavedKeyCodeState, State};
use crate::slots;
use vstd::prelude::*;
use vstd::slice::slice_subrange;
use vstd::std_specs::cmp::PartialEqSpec;

verus! {

/// The maximum number of simultaneously-executing sequences.
pub const MAX_SEQUENCES: usize = 4;

/// How many keys a sequence can filter.
pub const MAX_SAVED: usize = 64;

/// A sequence that is being played.
#[derive(Debug)]
pub struct SequenceState<K: 'static + Copy> {
    /// Current event being processed
    cur_event: Option<SequenceEvent<K>>,
    /// Remaining events to process
    remaining_events: &'static [SequenceEvent<K>],
    /// Keeps track of SequenceEvent::Delay time remaining
    delay: u32,
    /// Keycode of a key that should be released at the next tick
    tapped: Option<K>,
    /// Keys filtered that can be restored later
    to_restore: [Option<SavedKeyCodeState<K>>; MAX_SAVED],
}

/// What a sequence that is being played consists of.
#[verifier::ext_equal]
pub struct SequenceView<K: 'static + Copy> {
    /// The event that was played last, if one was.
    pub cur_event: Option<SequenceEvent<K>>,
    /// The events that are still to be played.
    pub remaining: Seq<SequenceEvent<K>>,
    /// The number of ticks that the sequence pauses for.
    pub delay: u32,
    /// The key code that the next tick releases, if there is one.
    pub tapped: Option<K>,
    /// The keys that were filtered, in the order in which they were pressed.
    pub saved: Seq<SavedKeyCodeState<K>>,
}

impl<K: 'static + Copy> View for SequenceState<K> {
    type V = SequenceView<K>;

    closed spec fn view(&self) -> SequenceView<K> {
        SequenceView {
            cur_event: self.cur_event,
            remaining: self.remaining_events@,
            delay: self.delay,
            tapped: self.tapped,
            saved: slots::contents(self.to_restore@),
        }
    }
}

impl<K: 'static + Copy> Default for SequenceState<K> {
    /// A sequence without events.
    fn default() -> (seq: Self)
        ensures
            seq.wf(),
            seq@ == SequenceView::<K>::started(Seq::empty()),
    {
        let seq = SequenceState {
            cur_event: None,
            remaining_events: &[],
            delay: 0,
            tapped: None,
            to_restore: slots::unused(),
        };
        proof {
            slots::lemma_contents(seq.to_restore@, 0);
        }
        seq
    }
}

/// The saved keys with one more, which is left out if there is no room for it or
/// if it is no key.
pub open spec fn saved_with<T: 'static, K: 'static + Copy>(
    saved: Seq<SavedKeyCodeState<K>>,
    state: State<T, K>,
) -> Seq<SavedKeyCodeState<K>> {
    match state::saved_form(state) {
        Ok(form) => if saved.len() < MAX_SAVED {
            saved.push(form)
        } else {
            saved
        },
        Err(_) => saved,
    }
}

impl<K: 'static + Copy> SequenceState<K> {
    /// The slots are filled from the front.
    pub closed spec fn wf(self) -> bool {
        forall|i: int, j: int|
            0 <= i < j < MAX_SAVED && (#[trigger] self.to_restore@[j]) is Some ==> (
            #[trigger] self.to_restore@[i]) is Some
    }

    /// A sequence that is about to play these events.
    pub(crate) fn new(events: &'static [SequenceEvent<K>]) -> (seq: Self)
        ensures
            seq.wf(),
            seq@ == SequenceView::<K>::started(events@),
    {
        SequenceState { remaining_events: events, ..Default::default() }
    }

    /// Saves a key for a later `Restore`.
    fn add_to_restore<T: 'static>(&mut self, s: State<T, K>)
        requires
            old(self).wf(),
        ensures
            final(self).wf(),
            final(self)@ == (SequenceView { saved: saved_with(old(self)@.saved, s), ..old(self)@ }),
    {
        let mut i: usize = 0;
        while i < MAX_SAVED
            invariant
                i <= MAX_SAVED,
                *self == *old(self),
                self.wf(),
                forall|j: int| 0 <= j < i ==> (#[trigger] self.to_restore@[j]) is Some,
            decreases MAX_SAVED - i,
        {
            if self.to_restore[i].is_none() {
                proof {
                    slots::lemma_contents(self.to_restore@, i as int);
                }
                if let Ok(saved) = SavedKeyCodeState::<K>::try_from(s) {
                    self.to_restore[i] = Some(saved);
                    proof {
                        slots::lemma_contents(self.to_restore@, i + 1);
                        assert(self@.saved =~= old(self)@.saved.push(saved));
                    }
                }
                return ;
            }
            i += 1;
        }
        proof {
            slots::lemma_contents(self.to_restore@, MAX_SAVED as int);
        }
    }
}

impl<K: 'static + Copy> SequenceView<K> {
    /// A sequence that is about to play these events.
    pub open spec fn started(events: Seq<SequenceEvent<K>>) -> Self {
        SequenceView {
            cur_event: None,
            remaining: events,
            delay: 0,
            tapped: None,
            saved: Seq::empty(),
        }
    }

    /// Whether there is something to play at the next tick. Only a sequence that
    /// was started with no events at all has nothing.
    pub open spec fn playable(self) -> bool {
        ||| self.delay > 0
        ||| self.tapped is Some
        ||| self.remaining.len() > 0
        ||| self.cur_event is Some
    }

    /// Whether the sequence has to go on.
    pub open spec fn ongoing(self) -> bool {
        self.remaining.len() > 0 || self.tapped is Some
    }

    /// The sequence with its next event taken up. One with no events left stays
    /// with the event that it has.
    pub open spec fn next(self) -> Self {
        if self.remaining.len() > 0 {
            SequenceView {
                cur_event: Some(self.remaining[0]),
                remaining: self.remaining.drop_first(),
                ..self
            }
        } else {
            self
        }
    }
}

/// The saved keys with those of the states that report one of the key codes.
pub open spec fn saved_from<T: 'static, K: 'static + Copy + Eq>(
    saved: Seq<SavedKeyCodeState<K>>,
    states: Seq<State<T, K>>,
    keycodes: Seq<K>,
) -> Seq<SavedKeyCodeState<K>>
    decreases states.len(),
{
    if states.len() == 0 {
        saved
    } else {
        let before = saved_from(saved, states.drop_last(), keycodes);
        if states::reports_one_of(states.last(), keycodes) {
            saved_with(before, states.last())
        } else {
            before
        }
    }
}

impl<K: 'static + Copy + Eq> SequenceView<K> {
    /// The states and the sequence after the event that the sequence is at.
    pub open spec fn played<T: 'static>(self, states: Seq<State<T, K>>) -> (
        Seq<State<T, K>>,
        Self,
    ) {
        match self.cur_event {
            None => (states, self),
            Some(SequenceEvent::Complete) => (
                states::without_fakes(states),
                SequenceView { remaining: Seq::empty(), ..self },
            ),
            Some(SequenceEvent::Press(keycode)) => (
                states::pushed(states, State::FakeKey { keycode }),
                self,
            ),
            Some(SequenceEvent::Tap(keycode)) => (
                states::pushed(states, State::FakeKey { keycode }),
                SequenceView { tapped: Some(keycode), ..self },
            ),
            Some(SequenceEvent::Release(keycode)) => (states::without_fake(states, keycode), self),
            Some(SequenceEvent::Delay { duration }) => (
                states,
                if duration > 0 {
                    SequenceView { delay: (duration - 1) as u32, ..self }
                } else {
                    self
                },
            ),
            Some(SequenceEvent::Filter(keys)) => (
                states::without_keycodes(states, keys@),
                SequenceView { saved: saved_from(self.saved, states, keys@), ..self },
            ),
            Some(SequenceEvent::Restore) => (states::restored(states, self.saved), self),
        }
    }

    /// The states and the sequence one tick later: a pause gets shorter, else a
    /// tapped key is released, else the next event is played.
    pub open spec fn stepped<T: 'static>(self, states: Seq<State<T, K>>) -> (
        Seq<State<T, K>>,
        Self,
    ) {
        if self.delay > 0 {
            (states, SequenceView { delay: (self.delay - 1) as u32, ..self })
        } else {
            match self.tapped {
                Some(keycode) => (
                    states::without_fake(states, keycode),
                    SequenceView { tapped: None, ..self },
                ),
                None => self.next().played(states),
            }
        }
    }
}

/// The states and the sequences one tick later: the sequences are played one
/// after the other, and those that do not have to go on are dropped.
pub open spec fn all_stepped<T: 'static, K: 'static + Copy + Eq>(
    states: Seq<State<T, K>>,
    sequences: Seq<SequenceView<K>>,
) -> (Seq<State<T, K>>, Seq<SequenceView<K>>)
    decreases sequences.len(),
{
    if sequences.len() == 0 {
        (states, sequences)
    } else {
        let (before, kept) = all_stepped(states, sequences.drop_last());
        let (after, last) = sequences.last().stepped(before);
        (
            after,
            if last.ongoing() {
                kept.push(last)
            } else {
                kept
            },
        )
    }
}

impl<K: 'static + Copy + Eq> SequenceState<K> {
    /// Takes the states that report one of the key codes out of the list and
    /// saves them for a later `Restore`.
    fn filter<T: 'static>(&mut self, states: &mut States<T, K>, keys: &[K])
        requires
            old(self).wf(),
            old(states)@.len() <= MAX_STATES,
            K::obeys_eq_spec(),
        ensures
            final(self).wf(),
            final(states)@.len() <= MAX_STATES,
            final(states)@ == states::without_keycodes(old(states)@, keys@),
            final(self)@ == (SequenceView {
                saved: saved_from(old(self)@.saved, old(states)@, keys@),
                ..old(self)@
            }),
    {
        let mut kept: States<T, K> = BoundedVec::new();
        let slice = states.as_slice();
        let ghost s = states@;
        let ghost keep = |s: State<T, K>| !states::reports_one_of(s, keys@);
        assert(s.take(0).filter(keep) == Seq::<State<T, K>>::empty()) by {
            reveal(Seq::filter);
        }
        let mut i: usize = 0;
        while i < slice.len()
            invariant
                i <= slice@.len() <= MAX_STATES,
                K::obeys_eq_spec(),
                slice@ == s,
                keep == (|s: State<T, K>| !states::reports_one_of(s, keys@)),
                kept@ == s.take(i as int).filter(keep),
                self.wf(),
                self@ == (SequenceView {
                    saved: saved_from(old(self)@.saved, s.take(i as int), keys@),
                    ..old(self)@
                }),
            decreases slice@.len() - i,
        {
            proof {
                states::lemma_filter_step(s, keep, i as int);
                assert(s.take(i + 1).drop_last() == s.take(i as int));
            }
            if states::is_reporting_one_of(&slice[i], keys) {
                self.add_to_restore(slice[i]);
            } else {
                let _ = kept.push(slice[i]);
            }
            i += 1;
        }
        assert(s.take(i as int) == s);
        proof {
            s.lemma_filter_len(keep);
        }
        *states = kept;
    }

    /// Adds the saved states to the list, as far as there is room for them.
    fn restore<T: 'static>(&self, states: &mut States<T, K>)
        requires
            self.wf(),
            old(states)@.len() <= MAX_STATES,
        ensures
            final(states)@.len() <= MAX_STATES,
            final(states)@ == states::restored(old(states)@, self@.saved),
    {
        let ghost all = self.to_restore@;
        let ghost s = states@;
        let mut i: usize = 0;
        while i < MAX_SAVED
            invariant
                i <= MAX_SAVED,
                all == self.to_restore@,
                all.len() == MAX_SAVED,
                states@.len() <= MAX_STATES,
                states@ == states::restored(s, slots::contents(all.take(i as int))),
            decreases MAX_SAVED - i,
        {
            assert(all.take(i + 1).drop_last() == all.take(i as int));
            if let Some(saved) = self.to_restore[i] {
                proof {
                    let so_far = slots::contents(all.take(i + 1));
                    assert(so_far.drop_last() == slots::contents(all.take(i as int)));
                }
                let _ = states.push(State::from(saved));
            }
            i += 1;
        }
        assert(all.take(i as int) == all);
    }

    /// Whether the sequence has to go on.
    pub(crate) fn is_ongoing(&self) -> (ongoing: bool)
        ensures
            ongoing == self@.ongoing(),
    {
        !self.remaining_events.is_empty() || self.tapped.is_some()
    }

    /// Plays the sequence for one tick.
    pub(crate) fn step<T: 'static>(&mut self, states: &mut States<T, K>)
        requires
            old(self).wf(),
            old(self)@.playable(),
            old(states)@.len() <= MAX_STATES,
            K::obeys_eq_spec(),
        ensures
            final(self).wf(),
            final(states)@.len() <= MAX_STATES,
            (final(states)@, final(self)@) == old(self)@.stepped(old(states)@),
    {
        // If we've encountered a SequenceEvent::Delay we must count
        // that down completely before doing anything else...
        if self.delay > 0 {
            self.delay = self.delay.saturating_sub(1);
        } else if let Some(keycode) = self.tapped {
            // Clear out the Press() matching this Tap()'s keycode
            states::release_fake(states, keycode);
            self.tapped = None;
        } else {
            // Pull the next SequenceEvent
            if self.remaining_events.len() > 0 {
                let events = self.remaining_events;
                self.cur_event = Some(events[0]);
                self.remaining_events = slice_subrange(events, 1, events.len());
            }
            assert(self@ == old(self)@.next());
            // Process it (SequenceEvent)
            match self.cur_event {
                Some(SequenceEvent::Complete) => {
                    states::release_fakes(states);
                    self.remaining_events = &[];
                    assert(self@.remaining =~= Seq::empty());
                },
                Some(SequenceEvent::Press(keycode)) => {
                    // Start tracking this fake key Press() event
                    let _ = states.push(State::FakeKey { keycode });
                },
                Some(SequenceEvent::Tap(keycode)) => {
                    // Same as Press() except we track it for one tick via tapped:
                    let _ = states.push(State::FakeKey { keycode });
                    self.tapped = Some(keycode);
                },
                Some(SequenceEvent::Release(keycode)) => {
                    // Clear out the Press() matching this Release's keycode
                    states::release_fake(states, keycode);
                },
                Some(SequenceEvent::Delay { duration }) => {
                    // Setup a delay that will be decremented once per tick until 0
                    if duration > 0 {
                        // -1 to start since this tick counts
                        self.delay = duration - 1;
                    }
                },
                Some(SequenceEvent::Filter(keys)) => {
                    self.filter(states, *keys);
                },
                Some(SequenceEvent::Restore) => {
                    self.restore(states);
                },
                None => {},
            }
        }
    }
}

} // verus!
