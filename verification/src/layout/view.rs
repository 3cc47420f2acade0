//! What a layout does, in terms of what it consists of.
use crate::action::{Action, SequenceEvent};
use crate::layout::sequence::{self, SequenceView, MAX_SEQUENCES};
use crate::layout::states::{self, MAX_STATES};
use crate::layout::tap_hold::TapHoldTracker;
use crate::layout::tri_layer::{self, TriLayer};
use crate::layout::waiting::STACK_SIZE;
use crate::layout::{CustomEvent, Event, Stacked, State, WaitingAction, WaitingState};
use vstd::prelude::*;

verus! {

/// What a layout consists of.
#[verifier::ext_equal]
pub struct LayoutView<T: 'static, K: 'static + Copy> {
    /// The actions, by layer, row and column.
    pub layers: Seq<Seq<Seq<Action<T, K>>>>,
    /// The layer that is in force when no other is.
    pub default_layer: usize,
    /// What is active, the oldest first.
    pub states: Seq<State<T, K>>,
    /// The hold-tap key that has not been decided yet, if there is one.
    pub waiting: Option<WaitingState<T, K>>,
    /// The events that have not been processed yet, the oldest first.
    pub stacked: Seq<Stacked>,
    /// The memory of the last press.
    pub tap_hold_tracker: TapHoldTracker,
    /// The sequences that are being played, in the order in which they are played.
    pub sequences: Seq<SequenceView<K>>,
    /// The tri-layers, in the order in which they were added.
    pub tri_layers: Seq<TriLayer>,
}

/// What comes of a step of a layout.
pub struct Outcome<T: 'static, K: 'static + Copy> {
    /// The layout after the step.
    pub layout: LayoutView<T, K>,
    /// The custom event of the step.
    pub event: CustomEvent<T>,
    /// Whether the step can be made at all.
    pub ok: bool,
}

impl<T: 'static, K: 'static + Copy> LayoutView<T, K> {
    /// A layout in which nothing has happened yet.
    pub open spec fn initial(layers: Seq<Seq<Seq<Action<T, K>>>>) -> Self {
        LayoutView {
            layers,
            default_layer: 0,
            states: Seq::empty(),
            waiting: None,
            stacked: Seq::empty(),
            tap_hold_tracker: TapHoldTracker { coord: (0, 0), timeout: 0 },
            sequences: Seq::empty(),
            tri_layers: Seq::empty(),
        }
    }

    /// The collections hold no more than they can.
    pub open spec fn bounded(self) -> bool {
        &&& self.states.len() <= MAX_STATES
        &&& self.stacked.len() <= STACK_SIZE
        &&& self.sequences.len() <= MAX_SEQUENCES
        &&& self.tri_layers.len() <= self.layers.len()
    }

    /// The layer that is in force: that of the first tri-layer that the two layers
    /// that were activated last activate, else the one that was activated last,
    /// else the default layer.
    pub open spec fn current_layer(self) -> usize {
        let active = states::layers_of(self.states);
        if active.len() == 0 {
            self.default_layer
        } else {
            let last = active[active.len() - 1];
            if active.len() == 1 {
                last
            } else {
                match tri_layer::first_applied(self.tri_layers, last, active[active.len() - 2]) {
                    Some(target) => target,
                    None => last,
                }
            }
        }
    }

    /// The action that a layer has for a key, if the layer and the key exist.
    pub open spec fn action_at(self, coord: (u8, u8), layer: usize) -> Option<Action<T, K>> {
        if layer < self.layers.len() && coord.0 < self.layers[layer as int].len() && coord.1
            < self.layers[layer as int][coord.0 as int].len() {
            Some(self.layers[layer as int][coord.0 as int][coord.1 as int])
        } else {
            None
        }
    }

    /// The action of pressing a key while a layer is in force. A transparent key
    /// has the action of the default layer; a key that is transparent there too,
    /// or that does not exist, has none.
    pub open spec fn press_as_action(self, coord: (u8, u8), layer: usize) -> Action<T, K> {
        match self.action_at(coord, layer) {
            None => Action::NoOp,
            Some(Action::Trans) => match self.action_at(coord, self.default_layer) {
                None => Action::NoOp,
                Some(Action::Trans) => Action::NoOp,
                Some(action) => action,
            },
            Some(action) => action,
        }
    }

    /// The layout with this key as the last one pressed.
    pub open spec fn with_last_key(self, coord: (u8, u8)) -> Self {
        LayoutView {
            tap_hold_tracker: TapHoldTracker { coord, ..self.tap_hold_tracker },
            ..self
        }
    }

    /// The layout with no time left in which pressing the last key once more is a
    /// tap.
    pub open spec fn without_interval(self) -> Self {
        LayoutView {
            tap_hold_tracker: TapHoldTracker { timeout: 0, ..self.tap_hold_tracker },
            ..self
        }
    }

    /// The layout with one more state, as far as there is room for it.
    pub open spec fn with_state(self, state: State<T, K>) -> Self {
        LayoutView { states: states::pushed(self.states, state), ..self }
    }

    /// The layout with one more sequence. The oldest one goes if there are too
    /// many.
    pub open spec fn with_sequence(self, events: Seq<SequenceEvent<K>>) -> Self {
        LayoutView {
            sequences: (if self.sequences.len() < MAX_SEQUENCES {
                self.sequences
            } else {
                self.sequences.drop_first()
            }).push(SequenceView::started(events)),
            ..self
        }
    }

    /// The layout with another default layer, if there is such a layer.
    pub open spec fn with_default_layer(self, value: usize) -> Self {
        if value < self.layers.len() {
            LayoutView { default_layer: value, ..self }
        } else {
            self
        }
    }

    /// The layout with one more tri-layer.
    pub open spec fn with_tri_layer(
        self,
        activation_layers: (usize, usize),
        target_layer: usize,
    ) -> Self {
        LayoutView {
            tri_layers: self.tri_layers.push(TriLayer { activation_layers, target_layer }),
            ..self
        }
    }

    /// The step that changes nothing more.
    pub open spec fn done(self) -> Outcome<T, K> {
        Outcome { layout: self, event: CustomEvent::NoEvent, ok: true }
    }

    /// The step that cannot be made.
    pub open spec fn stuck(self) -> Outcome<T, K> {
        Outcome { layout: self, event: CustomEvent::NoEvent, ok: false }
    }

    /// What comes of an action of the key at `coord` whose press had been stacked
    /// for `delay` ticks, if actions are nested at most `depth` deep.
    ///
    /// An action cannot be done while a hold-tap key is waiting.
    pub open spec fn act_within(
        self,
        action: Action<T, K>,
        coord: (u8, u8),
        delay: u16,
        depth: nat,
    ) -> Outcome<T, K>
        decreases depth, 0nat,
    {
        if self.waiting is Some {
            self.stuck()
        } else {
            match action {
                Action::NoOp => self.done(),
                Action::Trans => self.done(),
                Action::HoldTap(h) => {
                    let tracker = self.tap_hold_tracker;
                    if h.tap_hold_interval == 0 || coord != tracker.coord || tracker.timeout == 0 {
                        LayoutView {
                            waiting: Some(
                                WaitingState {
                                    coord,
                                    timeout: h.timeout,
                                    delay,
                                    hold: &h.hold,
                                    tap: &h.tap,
                                    config: h.config,
                                    before: tracker,
                                },
                            ),
                            tap_hold_tracker: TapHoldTracker { coord, timeout: h.tap_hold_interval },
                            ..self
                        }.done()
                    } else if depth == 0 {
                        self.stuck()
                    } else {
                        let tapped = self.without_interval().act_within(
                            h.tap,
                            coord,
                            delay,
                            (depth - 1) as nat,
                        );
                        Outcome {
                            layout: tapped.layout.with_last_key(coord),
                            event: tapped.event,
                            ok: tapped.ok,
                        }
                    }
                },
                Action::KeyCode(keycode) => self.with_last_key(coord).with_state(
                    State::NormalKey { keycode, coord },
                ).done(),
                Action::MultipleKeyCodes(keycodes) => LayoutView {
                    states: states::pushed_keys(self.states, keycodes@, coord),
                    ..self.with_last_key(coord)
                }.done(),
                Action::MultipleActions(actions) => if depth == 0 {
                    self.stuck()
                } else {
                    self.with_last_key(coord).act_all_within(
                        actions@,
                        coord,
                        delay,
                        (depth - 1) as nat,
                    )
                },
                Action::Layer(value) => self.with_last_key(coord).with_state(
                    State::LayerModifier { value, coord },
                ).done(),
                Action::DefaultLayer(value) => self.with_last_key(coord).with_default_layer(
                    value,
                ).done(),
                Action::Sequence(events) => self.with_sequence(events@).done(),
                Action::Custom(value) => Outcome {
                    event: if self.states.len() < MAX_STATES {
                        CustomEvent::Press(&value)
                    } else {
                        CustomEvent::NoEvent
                    },
                    ..self.with_last_key(coord).with_state(
                        State::Custom { value: &value, coord },
                    ).done()
                },
            }
        }
    }

    /// What comes of several actions of a key, one after the other.
    pub open spec fn act_all_within(
        self,
        actions: Seq<Action<T, K>>,
        coord: (u8, u8),
        delay: u16,
        depth: nat,
    ) -> Outcome<T, K>
        decreases depth, actions.len() + 1,
    {
        if actions.len() == 0 {
            self.done()
        } else {
            let before = self.act_all_within(actions.drop_last(), coord, delay, depth);
            let last = before.layout.act_within(actions.last(), coord, delay, depth);
            Outcome {
                layout: last.layout,
                event: before.event.updated(last.event),
                ok: before.ok && last.ok,
            }
        }
    }

    /// If several actions can be done, so can the first ones of them.
    pub(crate) proof fn lemma_act_all_prefix_ok(
        self,
        actions: Seq<Action<T, K>>,
        coord: (u8, u8),
        delay: u16,
        depth: nat,
        n: int,
    )
        requires
            0 <= n <= actions.len(),
            self.act_all_within(actions, coord, delay, depth).ok,
        ensures
            self.act_all_within(actions.take(n), coord, delay, depth).ok,
        decreases actions.len(),
    {
        if n == actions.len() {
            assert(actions.take(n) == actions);
        } else {
            assert(actions.drop_last().take(n) == actions.take(n));
            self.lemma_act_all_prefix_ok(actions.drop_last(), coord, delay, depth, n);
        }
    }

    /// What comes of an action of the key at `coord` whose press had been stacked
    /// for `delay` ticks. An action that never comes to an end, such as one that
    /// has itself among its parts, cannot be done.
    pub open spec fn act(self, action: Action<T, K>, coord: (u8, u8), delay: u16) -> Outcome<T, K> {
        let depth = choose|depth: nat| (#[trigger] self.act_within(action, coord, delay, depth)).ok;
        self.act_within(action, coord, delay, depth)
    }

    /// The layout in which the waiting key, if there is one, was pressed when this
    /// was the memory of the last press.
    pub open spec fn with_before(self, before: TapHoldTracker) -> Self {
        LayoutView {
            waiting: match self.waiting {
                Some(w) => Some(WaitingState { before, ..w }),
                None => None,
            },
            ..self
        }
    }

    /// What comes of an action of the key at `coord`, which was pressed when
    /// `before` was the memory of the last press.
    pub open spec fn act_since(
        self,
        before: TapHoldTracker,
        action: Action<T, K>,
        coord: (u8, u8),
        delay: u16,
    ) -> Outcome<T, K> {
        let outcome = self.act(action, coord, delay);
        Outcome { layout: outcome.layout.with_before(before), ..outcome }
    }

    /// What comes of processing an event that was stacked.
    pub open spec fn unstack(self, stacked: Stacked) -> Outcome<T, K> {
        match stacked.event {
            Event::Release(i, j) => Outcome {
                layout: LayoutView { states: states::without_key(self.states, (i, j)), ..self },
                event: states::released_event(self.states, (i, j)),
                ok: true,
            },
            Event::Press(i, j) => self.act_since(
                self.tap_hold_tracker,
                self.press_as_action((i, j), self.current_layer()),
                (i, j),
                stacked.since,
            ),
        }
    }

    /// The layout with no key waiting.
    pub open spec fn without_waiting(self) -> Self {
        LayoutView { waiting: None, ..self }
    }

    /// The layout that does the hold action of the key at `coord`: no key waits
    /// any more, and pressing that key once more is not a tap.
    pub open spec fn holding(self, coord: (u8, u8)) -> Self {
        if coord == self.tap_hold_tracker.coord {
            self.without_waiting().without_interval()
        } else {
            self.without_waiting()
        }
    }

    /// What comes of deciding that the waiting key, if there is one, is held.
    pub open spec fn waiting_into_hold(self) -> Outcome<T, K> {
        match self.waiting {
            Some(w) => self.holding(w.coord).act_since(w.before, *w.hold, w.coord, 0),
            None => self.done(),
        }
    }

    /// What comes of deciding that the waiting key, if there is one, is tapped.
    pub open spec fn waiting_into_tap(self) -> Outcome<T, K> {
        match self.waiting {
            Some(w) => self.without_waiting().act_since(w.before, *w.tap, w.coord, 0),
            None => self.done(),
        }
    }

    /// The layout as it would be if the waiting key had not been pressed: no key
    /// waits, and the key pressed before it is the last one again.
    pub open spec fn forgetting(self) -> Self {
        match self.waiting {
            Some(w) => LayoutView { waiting: None, tap_hold_tracker: w.before, ..self },
            None => self,
        }
    }

    /// What comes of dropping the waiting key.
    pub open spec fn drop_waiting(self) -> Outcome<T, K> {
        self.forgetting().done()
    }

    /// What comes of an event: it is stacked. If there is no room for it, a
    /// waiting key is held and the oldest event is processed at once.
    pub open spec fn event(self, event: Event) -> Outcome<T, K> {
        let new = Stacked { event, since: 0 };
        if self.stacked.len() < STACK_SIZE {
            LayoutView { stacked: self.stacked.push(new), ..self }.done()
        } else {
            let held = LayoutView {
                stacked: self.stacked.drop_first().push(new),
                ..self
            }.waiting_into_hold();
            let processed = held.layout.unstack(self.stacked[0]);
            Outcome { ok: held.ok && processed.ok, ..processed }
        }
    }

    /// Whether the event can be taken.
    pub open spec fn event_ready(self, event: Event) -> bool {
        self.event(event).ok
    }

    /// Whether the decision on the waiting key is left to a user's handler.
    pub open spec fn asks_handler(self) -> bool {
        self.waiting is Some && self.waiting->0.config is Custom
    }

    /// Whether all the sequences can be played.
    pub open spec fn all_playable(self) -> bool {
        forall|i: int| 0 <= i < self.sequences.len() ==> (#[trigger] self.sequences[i]).playable()
    }

    /// What comes of deciding on the waiting key, if there is one, and of
    /// processing the oldest event otherwise. `answer` is what the handler of the
    /// waiting key said.
    pub open spec fn resumed(self, answer: Option<WaitingAction>) -> Outcome<T, K> {
        match self.waiting {
            Some(w) => {
                let ticked = LayoutView { waiting: Some(w.ticked()), ..self };
                let outcome = match w.ticked().decision(self.stacked, answer) {
                    Some(WaitingAction::Hold) => ticked.waiting_into_hold(),
                    Some(WaitingAction::Tap) => ticked.waiting_into_tap(),
                    Some(WaitingAction::NoOp) => ticked.drop_waiting(),
                    None => ticked.done(),
                };
                Outcome { ok: w.ticked().in_range(self.stacked, answer) && outcome.ok, ..outcome }
            },
            None => if self.stacked.len() == 0 {
                self.done()
            } else {
                LayoutView { stacked: self.stacked.drop_first(), ..self }.unstack(self.stacked[0])
            },
        }
    }
}

impl<T: 'static, K: 'static + Copy + Eq> LayoutView<T, K> {
    /// The layout after its sequences have been played for one tick.
    pub open spec fn sequences_played(self) -> Self {
        let (states, sequences) = sequence::all_stepped(self.states, self.sequences);
        LayoutView { states, sequences, ..self }
    }

    /// The layout after time has passed for its events, for the memory of the last
    /// press and for its sequences.
    pub open spec fn aged(self) -> Self {
        LayoutView {
            stacked: self.stacked.map_values(|s: Stacked| s.ticked()),
            tap_hold_tracker: self.tap_hold_tracker.ticked(),
            ..self.sequences_played()
        }
    }

    /// What comes of a tick. `answer` is what the handler of the waiting key said.
    pub open spec fn tick(self, answer: Option<WaitingAction>) -> Outcome<T, K> {
        let outcome = self.aged().resumed(answer);
        Outcome { ok: self.all_playable() && outcome.ok, ..outcome }
    }

    /// Whether this is an answer that the handler of the waiting key gives at the
    /// next tick, when it is asked about the events that are stacked then. Without
    /// a handler there is none.
    pub open spec fn may_be_told(self, answer: Option<WaitingAction>) -> bool {
        match self.waiting {
            Some(w) => w.may_be_told(self.aged().stacked, answer),
            None => answer is None,
        }
    }

    /// Whether a tick can be made, whatever the handler of the waiting key says.
    pub open spec fn tick_ready(self) -> bool {
        &&& self.all_playable()
        &&& forall|answer: Option<WaitingAction>|
            self.may_be_told(answer) ==> (#[trigger] self.tick(answer)).ok
    }
}

} // verus!
