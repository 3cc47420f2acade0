//! Hold-tap keys that have not been decided yet.
use crate::action::{Action, HoldTapConfig};
use crate::collections::{DequeIter, WrappingDeque};
use crate::layout::tap_hold::TapHoldTracker;
use crate::layout::{Event, Stacked};
use vstd::prelude::*;

verus! {

/// How many events can be stacked.
pub const STACK_SIZE: usize = 32;

/// The current event stack.
///
/// Events can be retrieved by iterating over this struct and calling [Stacked::event].
pub(crate) type Stack = WrappingDeque<Stacked, STACK_SIZE>;

/// An iterator over the currently stacked events. Its view is the sequence of
/// the events that are still to come.
///
/// Events can be retrieved by iterating over this struct and calling [Stacked::event].
pub struct StackedIter<'a>(DequeIter<'a, Stacked>);

impl<'a> View for StackedIter<'a> {
    type V = Seq<Stacked>;

    closed spec fn view(&self) -> Seq<Stacked> {
        self.0@
    }
}

impl<'a> StackedIter<'a> {
    /// An iterator over the whole stack.
    pub(crate) fn new(stacked: &'a Stack) -> (iter: Self)
        ensures
            iter@ == stacked@,
    {
        StackedIter(stacked.iter())
    }

    /// Returns the next event, if there is one.
    pub fn next(&mut self) -> (item: Option<&'a Stacked>)
        ensures
            item == (if old(self)@.len() > 0 {
                Some(&old(self)@[0])
            } else {
                None
            }),
            final(self)@ == (if old(self)@.len() > 0 {
                old(self)@.drop_first()
            } else {
                old(self)@
            }),
    {
        self.0.next()
    }

    /// Returns the number of events to come, as the lower and as the upper bound.
    pub fn size_hint(&self) -> (hint: (usize, Option<usize>))
        ensures
            hint.0 == self@.len(),
            hint.1 == Some(hint.0),
    {
        self.0.size_hint()
    }
}

/// A user's own rule for a hold-tap key.
pub trait HoldTapHandler: Sync {
    /// Whether this is an answer that the handler gives to these events. A handler
    /// that does not say may give any.
    open spec fn may_answer(&self, stacked: Seq<Stacked>, answer: Option<WaitingAction>) -> bool {
        true
    }

    /// Decides on the key at hand, from the events that came after it. With
    /// `None` the decision is left to the release of the key and its timeout.
    fn decide(&self, stacked: StackedIter<'_>) -> (answer: Option<WaitingAction>)
        ensures
            self.may_answer(stacked@, answer),
    ;
}

/// Actions that can be triggered for a key configured for HoldTap.
#[derive(Debug, Copy, Clone, PartialEq, Eq, Structural)]
pub enum WaitingAction {
    /// Trigger the holding event.
    Hold,
    /// Trigger the tapping event.
    Tap,
    /// Drop this event. It will act as if no key was pressed.
    NoOp,
}

/// A hold-tap key that is pressed and has not been decided yet.
pub struct WaitingState<T: 'static, K: 'static> {
    /// The key.
    pub coord: (u8, u8),
    /// The number of ticks that are left.
    pub timeout: u16,
    /// For how long the press had been stacked.
    pub delay: u16,
    /// What holding does.
    pub hold: &'static Action<T, K>,
    /// What tapping does.
    pub tap: &'static Action<T, K>,
    /// How to choose between the two.
    pub config: HoldTapConfig,
    /// The memory of the last press as it would be if this key had not been
    /// pressed.
    pub before: TapHoldTracker,
}

/// Whether a key was pressed.
pub open spec fn some_press(stacked: Seq<Stacked>) -> bool {
    exists|x: int| 0 <= x < stacked.len() && (#[trigger] stacked[x]).event is Press
}

/// Whether the press at `x` is followed by its release at `y`.
pub open spec fn press_and_release(stacked: Seq<Stacked>, x: int, y: int) -> bool {
    let (i, j) = stacked[x].event.coord_spec();
    stacked[x].event is Press && stacked[y].event == Event::Release(i, j)
}

/// Whether a key was pressed and, after that, released.
pub open spec fn some_press_and_release(stacked: Seq<Stacked>) -> bool {
    exists|x: int, y: int|
        0 <= x < y < stacked.len() && #[trigger] press_and_release(stacked, x, y)
}

impl<T: 'static, K: 'static> WaitingState<T, K> {
    /// The state one tick later.
    pub open spec fn ticked(self) -> Self {
        WaitingState {
            timeout: if self.timeout > 0 {
                (self.timeout - 1) as u16
            } else {
                0
            },
            before: self.before.ticked(),
            ..self
        }
    }

    /// Whether the event is the release of the waiting key.
    pub open spec fn released_by(self, event: Event) -> bool {
        event == Event::Release(self.coord.0, self.coord.1)
    }

    /// For how long the first release of the waiting key has been stacked, if
    /// there is one.
    pub open spec fn first_release(self, stacked: Seq<Stacked>) -> Option<u16>
        decreases stacked.len(),
    {
        if stacked.len() == 0 {
            None
        } else {
            match self.first_release(stacked.drop_last()) {
                Some(since) => Some(since),
                None => if self.released_by(stacked.last().event) {
                    Some(stacked.last().since)
                } else {
                    None
                },
            }
        }
    }

    /// Whether this is an answer that the handler of a custom configuration gives
    /// to these events. Without a handler there is none.
    pub open spec fn may_be_told(
        self,
        stacked: Seq<Stacked>,
        answer: Option<WaitingAction>,
    ) -> bool {
        match self.config {
            HoldTapConfig::Custom(handler) => handler.may_answer(stacked, answer),
            _ => answer is None,
        }
    }

    /// What the configuration says before the release and the timeout are looked
    /// at. `answer` is what the handler of a custom configuration said.
    pub open spec fn early_decision(
        self,
        stacked: Seq<Stacked>,
        answer: Option<WaitingAction>,
    ) -> Option<WaitingAction> {
        match self.config {
            HoldTapConfig::Default => None,
            HoldTapConfig::HoldOnOtherKeyPress => if some_press(stacked) {
                Some(WaitingAction::Hold)
            } else {
                None
            },
            HoldTapConfig::PermissiveHold => if some_press_and_release(stacked) {
                Some(WaitingAction::Hold)
            } else {
                None
            },
            HoldTapConfig::Custom(_) => answer,
        }
    }

    /// What the release of the key and its timeout say: a key that is released in
    /// time is tapped, one that is released too late or not at all is held.
    pub open spec fn late_decision(self, stacked: Seq<Stacked>) -> Option<WaitingAction> {
        match self.first_release(stacked) {
            Some(since) => if self.timeout + since >= self.delay {
                Some(WaitingAction::Tap)
            } else {
                Some(WaitingAction::Hold)
            },
            None => if self.timeout == 0 {
                Some(WaitingAction::Hold)
            } else {
                None
            },
        }
    }

    /// The decision on the key, if it is time for one.
    pub open spec fn decision(
        self,
        stacked: Seq<Stacked>,
        answer: Option<WaitingAction>,
    ) -> Option<WaitingAction> {
        match self.early_decision(stacked, answer) {
            Some(action) => Some(action),
            None => self.late_decision(stacked),
        }
    }

    /// Whether the times that the decision compares can be added up in a `u16`.
    pub open spec fn in_range(
        self,
        stacked: Seq<Stacked>,
        answer: Option<WaitingAction>,
    ) -> bool {
        match (self.early_decision(stacked, answer), self.first_release(stacked)) {
            (None, Some(since)) => self.timeout + since <= u16::MAX,
            _ => true,
        }
    }

    /// Asks the handler of a custom configuration.
    pub(crate) fn ask(&self, stacked: &Stack) -> (answer: Option<WaitingAction>)
        ensures
            self.may_be_told(stacked@, answer),
    {
        match self.config {
            HoldTapConfig::Custom(handler) => handler.decide(StackedIter::new(stacked)),
            _ => None,
        }
    }

    /// Lets one tick pass and decides on the key. `answer` is what the handler of
    /// a custom configuration said.
    pub(crate) fn tick(&mut self, stacked: &Stack, answer: Option<WaitingAction>) -> (action:
        Option<WaitingAction>)
        requires
            stacked@.len() <= STACK_SIZE,
            old(self).ticked().in_range(stacked@, answer),
        ensures
            *final(self) == old(self).ticked(),
            action == old(self).ticked().decision(stacked@, answer),
    {
        self.timeout = self.timeout.saturating_sub(1);
        self.before.tick();
        match self.config {
            HoldTapConfig::Default => (),
            HoldTapConfig::HoldOnOtherKeyPress => {
                if Self::any_press(stacked) {
                    return Some(WaitingAction::Hold);
                }
            },
            HoldTapConfig::PermissiveHold => {
                if Self::any_press_and_release(stacked) {
                    return Some(WaitingAction::Hold);
                }
            },
            HoldTapConfig::Custom(_) => {
                if let Some(waiting_action) = answer {
                    return Some(waiting_action);
                }
            },
        }
        match self.find_release(stacked) {
            Some(since) => {
                if self.timeout + since >= self.delay {
                    Some(WaitingAction::Tap)
                } else {
                    Some(WaitingAction::Hold)
                }
            },
            None => {
                if self.timeout == 0 {
                    Some(WaitingAction::Hold)
                } else {
                    None
                }
            },
        }
    }

    /// Whether a key was pressed.
    fn any_press(stacked: &Stack) -> (any: bool)
        requires
            stacked@.len() <= STACK_SIZE,
        ensures
            any == some_press(stacked@),
    {
        let mut x: usize = 0;
        while x < stacked.len()
            invariant
                x <= stacked@.len() <= STACK_SIZE,
                forall|i: int| 0 <= i < x ==> !((#[trigger] stacked@[i]).event is Press),
            decreases stacked@.len() - x,
        {
            if let Some(s) = stacked.get(x) {
                if s.event.is_press() {
                    assert(stacked@[x as int].event is Press);
                    return true;
                }
            }
            x += 1;
        }
        false
    }

    /// Whether a key was pressed and, after that, released.
    fn any_press_and_release(stacked: &Stack) -> (any: bool)
        requires
            stacked@.len() <= STACK_SIZE,
        ensures
            any == some_press_and_release(stacked@),
    {
        let mut x: usize = 0;
        while x < stacked.len()
            invariant
                x <= stacked@.len() <= STACK_SIZE,
                forall|i: int, j: int|
                    0 <= i < x && i < j < stacked@.len() ==> !#[trigger] press_and_release(
                        stacked@,
                        i,
                        j,
                    ),
            decreases stacked@.len() - x,
        {
            if let Some(s) = stacked.get(x) {
                if s.event.is_press() {
                    let (i, j) = s.event.coord();
                    let target = Event::Release(i, j);
                    let mut y: usize = x + 1;
                    while y < stacked.len()
                        invariant
                            x < y <= stacked@.len() <= STACK_SIZE,
                            stacked@[x as int].event is Press,
                            target == Event::Release(i, j),
                            (i, j) == stacked@[x as int].event.coord_spec(),
                            forall|k: int|
                                x < k < y ==> !#[trigger] press_and_release(stacked@, x as int, k),
                        decreases stacked@.len() - y,
                    {
                        if let Some(t) = stacked.get(y) {
                            if t.event == target {
                                assert(press_and_release(stacked@, x as int, y as int));
                                return true;
                            }
                        }
                        y += 1;
                    }
                }
            }
            x += 1;
        }
        false
    }

    /// For how long the first release of the waiting key has been stacked, if
    /// there is one.
    fn find_release(&self, stacked: &Stack) -> (since: Option<u16>)
        requires
            stacked@.len() <= STACK_SIZE,
        ensures
            since == self.first_release(stacked@),
    {
        let mut x: usize = 0;
        while x < stacked.len()
            invariant
                x <= stacked@.len() <= STACK_SIZE,
                self.first_release(stacked@.take(x as int)) is None,
            decreases stacked@.len() - x,
        {
            assert(stacked@.take(x + 1).drop_last() == stacked@.take(x as int));
            if let Some(s) = stacked.get(x) {
                if self.is_corresponding_release(&s.event) {
                    proof {
                        self.lemma_first_release_is_first(stacked@, x + 1);
                    }
                    return Some(s.since);
                }
            }
            x += 1;
        }
        assert(stacked@.take(x as int) == stacked@);
        None
    }

    /// The first release among the first events is the first release of all.
    proof fn lemma_first_release_is_first(self, stacked: Seq<Stacked>, n: int)
        requires
            0 <= n <= stacked.len(),
            self.first_release(stacked.take(n)) is Some,
        ensures
            self.first_release(stacked) == self.first_release(stacked.take(n)),
        decreases stacked.len(),
    {
        if n == stacked.len() {
            assert(stacked.take(n) == stacked);
        } else {
            assert(stacked.drop_last().take(n) == stacked.take(n));
            self.lemma_first_release_is_first(stacked.drop_last(), n);
        }
    }

    /// Whether the event is the release of the waiting key.
    fn is_corresponding_release(&self, event: &Event) -> (corresponding: bool)
        ensures
            corresponding == self.released_by(*event),
    {
        match event {
            Event::Release(i, j) => *i == self.coord.0 && *j == self.coord.1,
            _ => false,
        }
    }
}

} // verus!
