//! Layout management.
pub mod action_laws;
pub mod event;
pub mod hold_tap_laws;
pub mod laws;
pub mod sequence;
pub mod sequence_laws;
pub mod sequence_timing;
pub mod state;
pub mod states;
pub mod states_laws;
pub mod steady;
pub mod tap_hold;
pub mod tick_laws;
pub mod tri_layer;
pub mod view;
pub mod waiting;

pub use event::{CustomEvent, Event, Stacked};
pub use state::{SavedKeyCodeState, State};
pub use view::{LayoutView, Outcome};
pub use waiting::{HoldTapHandler, StackedIter, WaitingAction, WaitingState};

use crate::action::Action;
use crate::collections::{BoundedVec, WrappingDeque};
use crate::key_code::KeyCode;
use sequence::{SequenceState, SequenceView, MAX_SEQUENCES};
use states::{States, MAX_STATES};
use tap_hold::TapHoldTracker;
use tri_layer::TriLayer;
use vstd::prelude::*;
use vstd::std_specs::cmp::PartialEqSpec;
use waiting::{Stack, STACK_SIZE};

verus! {

/// The Layers type.
///
/// `Layers` type is an array of layers which contain the description
/// of actions on the switch matrix. For example `layers[1][2][3]`
/// corresponds to the key on the first layer, row 2, column 3.
/// The generic parameters are in order: the number of columns, rows and layers,
/// and the type contained in custom actions.
pub type Layers<
    const C: usize,
    const R: usize,
    const L: usize,
    T = core::convert::Infallible,
    K = KeyCode,
> = [[[Action<T, K>; C]; R]; L];

/// The layout manager. It takes `Event`s and `tick`s as input, and
/// generate keyboard reports.
#[verifier::reject_recursive_types(T)]
#[verifier::reject_recursive_types(K)]
pub struct Layout<
    const C: usize,
    const R: usize,
    const L: usize,
    T = core::convert::Infallible,
    K = KeyCode,
> where T: 'static, K: 'static + Copy {
    layers: &'static [[[Action<T, K>; C]; R]; L],
    default_layer: usize,
    states: States<T, K>,
    waiting: Option<WaitingState<T, K>>,
    stacked: Stack,
    tap_hold_tracker: TapHoldTracker,
    active_sequences: WrappingDeque<SequenceState<K>, MAX_SEQUENCES>,
    tri_layers: BoundedVec<TriLayer, L>,
}

/// The actions of the layers, by layer, row and column.
pub open spec fn layers_view<T: 'static, K: 'static, const C: usize, const R: usize, const L: usize>(
    layers: [[[Action<T, K>; C]; R]; L],
) -> Seq<Seq<Seq<Action<T, K>>>> {
    layers@.map_values(
        |layer: [[Action<T, K>; C]; R]| layer@.map_values(|row: [Action<T, K>; C]| row@),
    )
}

impl<const C: usize, const R: usize, const L: usize, T: 'static, K: 'static + Copy> View for Layout<
    C,
    R,
    L,
    T,
    K,
> {
    type V = LayoutView<T, K>;

    closed spec fn view(&self) -> LayoutView<T, K> {
        LayoutView {
            layers: layers_view(*self.layers),
            default_layer: self.default_layer,
            states: self.states@,
            waiting: self.waiting,
            stacked: self.stacked@,
            tap_hold_tracker: self.tap_hold_tracker,
            sequences: self.active_sequences@.map_values(|s: SequenceState<K>| s@),
            tri_layers: self.tri_layers@,
        }
    }
}

impl<const C: usize, const R: usize, const L: usize, T: 'static, K: 'static + Copy + Eq> Layout<
    C,
    R,
    L,
    T,
    K,
> {
    /// What holds of every layout: its collections keep to their bounds and its
    /// sequences are well-formed.
    pub closed spec fn wf(self) -> bool {
        &&& self@.bounded()
        &&& forall|i: int|
            0 <= i < self.active_sequences@.len() ==> (#[trigger] self.active_sequences@[i]).wf()
    }

    /// Creates a new `Layout` object.
    pub fn new(layers: &'static [[[Action<T, K>; C]; R]; L]) -> (layout: Self)
        ensures
            layout.wf(),
            layout@ == LayoutView::initial(layers_view(*layers)),
    {
        Self {
            layers,
            default_layer: 0,
            states: BoundedVec::new(),
            waiting: None,
            stacked: WrappingDeque::new(),
            tap_hold_tracker: Default::default(),
            active_sequences: WrappingDeque::new(),
            tri_layers: BoundedVec::new(),
        }
    }

    /// Adds a tri-layer that becomes active if two given activation layers are activated.
    pub fn add_tri_layer(&mut self, activation_layers: (usize, usize), target_layer: usize)
        requires
            old(self).wf(),
            // there should be not more tri-layers than layers overall
            old(self)@.tri_layers.len() < L,
        ensures
            final(self).wf(),
            final(self)@ == old(self)@.with_tri_layer(activation_layers, target_layer),
    {
        let _ = self.tri_layers.push(TriLayer { activation_layers, target_layer });
    }

    /// Returns the key codes of the current state.
    pub fn keycodes(&self) -> (keycodes: Vec<K>)
        ensures
            keycodes@ == states::keycodes_of(self@.states),
    {
        states::collect_keycodes(&self.states)
    }

    /// Obtain the index of the current active layer
    pub fn current_layer(&self) -> (layer: usize)
        ensures
            layer == self@.current_layer(),
    {
        let (last_layer, second_to_last_layer) = states::last_two_layers(&self.states);
        match (last_layer, second_to_last_layer) {
            (Some(last), Some(second)) => {
                match tri_layer::find_applied(self.tri_layers.as_slice(), last, second) {
                    Some(target) => target,
                    None => last,
                }
            },
            (Some(last), None) => last,
            _ => self.default_layer,
        }
    }

    /// Sets the default layer for the layout
    pub fn set_default_layer(&mut self, value: usize)
        requires
            old(self).wf(),
        ensures
            final(self).wf(),
            final(self)@ == old(self)@.with_default_layer(value),
    {
        if value < self.layers.len() {
            self.default_layer = value
        }
    }

    /// The action of pressing a key while a layer is in force.
    fn press_as_action(&self, coord: (u8, u8), layer: usize) -> (action: &'static Action<T, K>)
        ensures
            *action == self@.press_as_action(coord, layer),
        decreases (if layer != self.default_layer { 1int } else { 0int }),
    {
        let row = coord.0 as usize;
        let column = coord.1 as usize;
        if layer < L && row < R && column < C {
            let action = &self.layers[layer][row][column];
            match action {
                Action::Trans => {
                    if layer != self.default_layer {
                        self.press_as_action(coord, self.default_layer)
                    } else {
                        &Action::NoOp
                    }
                },
                _ => action,
            }
        } else {
            &Action::NoOp
        }
    }

    /// Does an action of the key at `coord` whose press had been stacked for
    /// `delay` ticks.
    fn do_action(
        &mut self,
        action: &'static Action<T, K>,
        coord: (u8, u8),
        delay: u16,
        Ghost(depth): Ghost<nat>,
    ) -> (event: CustomEvent<T>)
        requires
            old(self).wf(),
            old(self)@.act_within(*action, coord, delay, depth).ok,
        ensures
            final(self).wf(),
            final(self)@ == old(self)@.act_within(*action, coord, delay, depth).layout,
            event == old(self)@.act_within(*action, coord, delay, depth).event,
        decreases depth,
    {
        match action {
            Action::NoOp => (),
            Action::Trans => (),
            Action::HoldTap(h) => {
                let h = *h;
                if h.tap_hold_interval == 0 || coord.0 != self.tap_hold_tracker.coord.0 || coord.1
                    != self.tap_hold_tracker.coord.1 || self.tap_hold_tracker.timeout == 0 {
                    let waiting: WaitingState<T, K> = WaitingState {
                        coord,
                        timeout: h.timeout,
                        delay,
                        hold: &h.hold,
                        tap: &h.tap,
                        config: h.config,
                        before: self.tap_hold_tracker,
                    };
                    self.waiting = Some(waiting);
                    self.tap_hold_tracker.timeout = h.tap_hold_interval;
                    // Need to set tap_hold_tracker coord AFTER the checks.
                    self.tap_hold_tracker.coord = coord;
                } else {
                    self.tap_hold_tracker.timeout = 0;
                    let custom = self.do_action(&h.tap, coord, delay, Ghost((depth - 1) as nat));
                    self.tap_hold_tracker.coord = coord;
                    return custom;
                }
            },
            Action::KeyCode(keycode) => {
                self.tap_hold_tracker.coord = coord;
                let _ = self.states.push(State::NormalKey { coord, keycode: *keycode });
            },
            Action::MultipleKeyCodes(v) => {
                self.tap_hold_tracker.coord = coord;
                states::push_keys(&mut self.states, **v, coord);
            },
            Action::MultipleActions(v) => {
                self.tap_hold_tracker.coord = coord;
                let actions: &'static [Action<T, K>] = **v;
                let mut custom = CustomEvent::NoEvent;
                let ghost start = self@;
                let mut i: usize = 0;
                while i < actions.len()
                    invariant
                        i <= actions@.len(),
                        depth > 0,
                        self.wf(),
                        start.act_all_within(actions@, coord, delay, (depth - 1) as nat).ok,
                        ({
                            let o = start.act_all_within(
                                actions@.take(i as int),
                                coord,
                                delay,
                                (depth - 1) as nat,
                            );
                            self@ == o.layout && custom == o.event
                        }),
                    decreases actions@.len() - i,
                {
                    assert(actions@.take(i + 1).drop_last() == actions@.take(i as int));
                    proof {
                        start.lemma_act_all_prefix_ok(
                            actions@,
                            coord,
                            delay,
                            (depth - 1) as nat,
                            i + 1,
                        );
                    }
                    let event = self.do_action(
                        &actions[i],
                        coord,
                        delay,
                        Ghost((depth - 1) as nat),
                    );
                    custom.update(event);
                    i += 1;
                }
                assert(actions@.take(i as int) == actions@);
                return custom;
            },
            Action::Sequence(events) => {
                let _ = self.active_sequences.push_back(SequenceState::new(**events));
            },
            Action::Layer(value) => {
                self.tap_hold_tracker.coord = coord;
                let _ = self.states.push(State::LayerModifier { value: *value, coord });
            },
            Action::DefaultLayer(value) => {
                self.tap_hold_tracker.coord = coord;
                self.set_default_layer(*value);
            },
            Action::Custom(value) => {
                self.tap_hold_tracker.coord = coord;
                if self.states.push(State::Custom { value, coord }).is_ok() {
                    return CustomEvent::Press(value);
                }
            },
        }
        CustomEvent::NoEvent
    }

    /// Does an action of the key at `coord`, which was pressed when `before` was the
    /// memory of the last press.
    fn do_action_since(
        &mut self,
        before: TapHoldTracker,
        action: &'static Action<T, K>,
        coord: (u8, u8),
        delay: u16,
    ) -> (event: CustomEvent<T>)
        requires
            old(self).wf(),
            old(self)@.act_since(before, *action, coord, delay).ok,
        ensures
            final(self).wf(),
            final(self)@ == old(self)@.act_since(before, *action, coord, delay).layout,
            event == old(self)@.act_since(before, *action, coord, delay).event,
    {
        let ghost depth = choose|depth: nat|
            (#[trigger] self@.act_within(*action, coord, delay, depth)).ok;
        let event = self.do_action(action, coord, delay, Ghost(depth));
        if let Some(w) = &mut self.waiting {
            w.before = before;
        }
        event
    }

    /// Decides that the waiting key, if there is one, is held.
    fn waiting_into_hold(&mut self) -> (event: CustomEvent<T>)
        requires
            old(self).wf(),
            old(self)@.waiting_into_hold().ok,
        ensures
            final(self).wf(),
            final(self)@ == old(self)@.waiting_into_hold().layout,
            event == old(self)@.waiting_into_hold().event,
    {
        if let Some(w) = &self.waiting {
            let hold = w.hold;
            let coord = w.coord;
            let before = w.before;
            self.waiting = None;
            if coord.0 == self.tap_hold_tracker.coord.0 && coord.1
                == self.tap_hold_tracker.coord.1 {
                self.tap_hold_tracker.timeout = 0;
            }
            self.do_action_since(before, hold, coord, 0)
        } else {
            CustomEvent::NoEvent
        }
    }

    /// Decides that the waiting key, if there is one, is tapped.
    fn waiting_into_tap(&mut self) -> (event: CustomEvent<T>)
        requires
            old(self).wf(),
            old(self)@.waiting_into_tap().ok,
        ensures
            final(self).wf(),
            final(self)@ == old(self)@.waiting_into_tap().layout,
            event == old(self)@.waiting_into_tap().event,
    {
        if let Some(w) = &self.waiting {
            let tap = w.tap;
            let coord = w.coord;
            let before = w.before;
            self.waiting = None;
            self.do_action_since(before, tap, coord, 0)
        } else {
            CustomEvent::NoEvent
        }
    }

    /// Drops the waiting key, if there is one, as if it had not been pressed.
    fn drop_waiting(&mut self) -> (event: CustomEvent<T>)
        requires
            old(self).wf(),
        ensures
            final(self).wf(),
            final(self)@ == old(self)@.drop_waiting().layout,
            event == old(self)@.drop_waiting().event,
    {
        if let Some(w) = &self.waiting {
            self.tap_hold_tracker = w.before;
        }
        self.waiting = None;
        CustomEvent::NoEvent
    }

    /// Processes an event that was stacked.
    fn unstack(&mut self, stacked: Stacked) -> (event: CustomEvent<T>)
        requires
            old(self).wf(),
            old(self)@.unstack(stacked).ok,
        ensures
            final(self).wf(),
            final(self)@ == old(self)@.unstack(stacked).layout,
            event == old(self)@.unstack(stacked).event,
    {
        match stacked.event {
            Event::Release(i, j) => states::release_key(&mut self.states, (i, j)),
            Event::Press(i, j) => {
                let action = self.press_as_action((i, j), self.current_layer());
                self.do_action_since(self.tap_hold_tracker, action, (i, j), stacked.since)
            },
        }
    }

    /// Register a key event.
    pub fn event(&mut self, event: Event)
        requires
            old(self).wf(),
            old(self)@.event_ready(event),
        ensures
            final(self).wf(),
            final(self)@ == old(self)@.event(event).layout,
    {
        if let Some(stacked) = self.stacked.push_back(event.into()) {
            self.waiting_into_hold();
            self.unstack(stacked);
        }
    }

    /// Lets one tick pass for every stacked event.
    fn tick_stacked(&mut self)
        requires
            old(self).wf(),
        ensures
            final(self).wf(),
            final(self)@ == (LayoutView {
                stacked: old(self)@.stacked.map_values(|s: Stacked| s.ticked()),
                ..old(self)@
            }),
    {
        let count = self.stacked.len();
        let ghost before = self.stacked@;
        let mut i: usize = 0;
        while i < count
            invariant
                i <= count <= STACK_SIZE,
                self.stacked@.len() == count == before.len(),
                before == old(self).stacked@,
                *self == (Layout { stacked: self.stacked, ..*old(self) }),
                forall|j: int|
                    0 <= j < count - i ==> (#[trigger] self.stacked@[j]) == before[i + j],
                forall|j: int|
                    count - i <= j < count ==> (#[trigger] self.stacked@[j]) == before[j - (count
                        - i)].ticked(),
            decreases count - i,
        {
            if let Some(mut s) = self.stacked.pop_front() {
                s.tick();
                let _ = self.stacked.push_back(s);
            }
            i += 1;
        }
        assert(self@.stacked =~= before.map_values(|s: Stacked| s.ticked()));
    }

    /// Plays every sequence for one tick and drops those that do not have to go
    /// on.
    fn process_sequences(&mut self)
        requires
            old(self).wf(),
            old(self)@.all_playable(),
            K::obeys_eq_spec(),
        ensures
            final(self).wf(),
            final(self)@ == old(self)@.sequences_played(),
    {
        let count = self.active_sequences.len();
        let ghost all = self@.sequences;
        let mut i: usize = 0;
        assert(all.take(0) == Seq::<SequenceView<K>>::empty());
        assert(all.skip(0) + all.take(0) == self@.sequences);
        while i < count
            invariant
                i <= count <= MAX_SEQUENCES,
                count == all.len(),
                all == old(self)@.sequences,
                K::obeys_eq_spec(),
                forall|j: int| 0 <= j < all.len() ==> (#[trigger] all[j]).playable(),
                self.wf(),
                ({
                    let (states, kept) = sequence::all_stepped(
                        old(self)@.states,
                        all.take(i as int),
                    );
                    &&& self@ == (LayoutView {
                        states,
                        sequences: all.skip(i as int) + kept,
                        ..old(self)@
                    })
                    &&& kept.len() <= i
                }),
            decreases count - i,
        {
            let ghost kept = sequence::all_stepped(old(self)@.states, all.take(i as int)).1;
            assert(all.take(i + 1).drop_last() == all.take(i as int));
            assert(self.active_sequences@[0]@ == self@.sequences[0]);
            assert(self@.sequences[0] == all[i as int]);
            let ghost queue = self@.sequences;
            if let Some(mut seq) = self.active_sequences.pop_front() {
                assert(self@.sequences =~= queue.drop_first());
                assert(queue.drop_first() =~= all.skip(i + 1) + kept);
                seq.step(&mut self.states);
                if seq.is_ongoing() {
                    // Put it back
                    let _ = self.active_sequences.push_back(seq);
                    assert(self@.sequences =~= queue.drop_first().push(seq@));
                    assert(queue.drop_first().push(seq@) =~= all.skip(i + 1) + kept.push(seq@));
                }
            }
            i += 1;
        }
        assert(all.take(i as int) == all);
        assert(all.skip(i as int) + sequence::all_stepped(old(self)@.states, all).1
            =~= sequence::all_stepped(old(self)@.states, all).1);
    }

    /// Lets time pass for the states, the stacked events, the memory of the last
    /// press and the sequences.
    fn age(&mut self)
        requires
            old(self).wf(),
            old(self)@.all_playable(),
            K::obeys_eq_spec(),
        ensures
            final(self).wf(),
            final(self)@ == old(self)@.aged(),
    {
        states::tick_all(&mut self.states);
        self.tick_stacked();
        self.tap_hold_tracker.tick();
        self.process_sequences();
    }

    /// Decides on the waiting key, if there is one, and processes the oldest event
    /// otherwise. `answer` is what the handler of the waiting key said.
    fn resume(&mut self, answer: Option<WaitingAction>) -> (event: CustomEvent<T>)
        requires
            old(self).wf(),
            old(self)@.resumed(answer).ok,
        ensures
            final(self).wf(),
            final(self)@ == old(self)@.resumed(answer).layout,
            event == old(self)@.resumed(answer).event,
    {
        match &mut self.waiting {
            Some(w) => match w.tick(&self.stacked, answer) {
                Some(WaitingAction::Hold) => self.waiting_into_hold(),
                Some(WaitingAction::Tap) => self.waiting_into_tap(),
                Some(WaitingAction::NoOp) => self.drop_waiting(),
                None => CustomEvent::NoEvent,
            },
            None => match self.stacked.pop_front() {
                Some(s) => self.unstack(s),
                None => CustomEvent::NoEvent,
            },
        }
    }

    /// A time event.
    ///
    /// This method must be called regularly, typically every millisecond.
    ///
    /// Returns the corresponding `CustomEvent`, allowing to manage
    /// custom actions thanks to the `Action::Custom` variant.
    ///
    /// If the key that is waiting has a handler, the handler is asked about the
    /// events that are stacked. What comes of the tick is then what comes of it
    /// with the answer of the handler.
    pub fn tick(&mut self) -> (event: CustomEvent<T>)
        requires
            old(self).wf(),
            old(self)@.tick_ready(),
            K::obeys_eq_spec(),
        ensures
            final(self).wf(),
            !old(self)@.asks_handler() ==> final(self)@ == old(self)@.tick(None).layout && event
                == old(self)@.tick(None).event,
            exists|answer: Option<WaitingAction>|
                old(self)@.may_be_told(answer) && final(self)@ == (
                #[trigger] old(self)@.tick(answer)).layout && event == old(self)@.tick(
                    answer,
                ).event,
    {
        self.age();
        let answer = match &self.waiting {
            Some(w) => w.ask(&self.stacked),
            None => None,
        };
        assert(old(self)@.may_be_told(answer));
        assert(old(self)@.tick(answer).ok);
        self.resume(answer)
    }

    /// A time event, as `tick`, with the answer that the handler of the waiting
    /// key gives. If no handler is to be asked, the answer plays no part.
    pub fn tick_with(&mut self, answer: Option<WaitingAction>) -> (event: CustomEvent<T>)
        requires
            old(self).wf(),
            old(self)@.tick(answer).ok,
            K::obeys_eq_spec(),
        ensures
            final(self).wf(),
            final(self)@ == old(self)@.tick(answer).layout,
            event == old(self)@.tick(answer).event,
    {
        self.age();
        self.resume(answer)
    }
}

/// A layout never holds more than its collections have room for: at most 64
/// states, and so at most 64 key codes to report, at most 32 stacked events, at
/// most 4 sequences and no more tri-layers than layers.
pub proof fn law_layouts_are_bounded<
    const C: usize,
    const R: usize,
    const L: usize,
    T: 'static,
    K: 'static + Copy + Eq,
>(layout: Layout<C, R, L, T, K>)
    requires
        layout.wf(),
    ensures
        layout@.bounded(),
        layout@.states.len() <= 64,
        layout@.stacked.len() <= 32,
        layout@.sequences.len() <= 4,
        layout@.tri_layers.len() <= L,
        layout@.layers.len() == L,
        states::keycodes_of(layout@.states).len() <= MAX_STATES,
{
    states::lemma_keycodes_len(layout@.states);
}

/// The layers of a layout are those that it was made from: the action at a layer, a
/// row and a column is the one that stands there in the array.
pub proof fn law_layers_are_indexed_by_layer_row_and_column<
    const C: usize,
    const R: usize,
    const L: usize,
    T: 'static,
    K: 'static + Copy,
>(layers: [[[Action<T, K>; C]; R]; L], layer: int, row: int, column: int)
    requires
        0 <= layer < L,
        0 <= row < R,
        0 <= column < C,
    ensures
        layers_view(layers).len() == L,
        layers_view(layers)[layer].len() == R,
        layers_view(layers)[layer][row].len() == C,
        layers_view(layers)[layer][row][column] == layers@[layer]@[row]@[column],
{
}

} // verus!
