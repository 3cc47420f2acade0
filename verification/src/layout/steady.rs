//! Layouts that can take every event and every tick.
//!
//! Some layouts come to a point where a step cannot be made: an action that has
//! a hold-tap key before its end, a sequence without events, an action that never
//! comes to an end, or hold-tap times that are too long to be added up. The
//! layouts here never do, and that can be read off their actions.
use crate::action::Action;
use crate::layout::laws;
use crate::layout::sequence_laws;
use crate::layout::waiting::STACK_SIZE;
use crate::layout::{Event, LayoutView, Stacked, WaitingAction, WaitingState};
use vstd::prelude::*;

verus! {

/// The longest timeout of a hold-tap key for which the times that a decision
/// compares can always be added up.
pub const MAX_TIMEOUT: u16 = 2046;

/// An action that is nested at most `depth` deep and that leaves no key waiting.
pub open spec fn settles<T: 'static, K: 'static>(action: Action<T, K>, depth: nat) -> bool
    decreases depth,
{
    match action {
        Action::HoldTap(_) => false,
        Action::MultipleActions(actions) => depth > 0 && forall|i: int|
            0 <= i < actions@.len() ==> settles(#[trigger] actions@[i], (depth - 1) as nat),
        Action::Sequence(events) => events@.len() > 0,
        _ => true,
    }
}

/// An action that is nested at most `depth` deep and that can leave a key waiting
/// only as the last thing that it does. The actions of that key leave none.
pub open spec fn manageable<T: 'static, K: 'static>(action: Action<T, K>, depth: nat) -> bool
    decreases depth,
{
    match action {
        Action::HoldTap(h) => {
            &&& h.timeout <= MAX_TIMEOUT
            &&& settles(h.hold, depth)
            &&& settles(h.tap, depth)
        },
        Action::MultipleActions(actions) => {
            &&& depth > 0
            &&& forall|i: int|
                0 <= i < actions@.len() - 1 ==> settles(
                    #[trigger] actions@[i],
                    (depth - 1) as nat,
                )
            &&& actions@.len() > 0 ==> manageable(actions@.last(), (depth - 1) as nat)
        },
        _ => settles(action, depth),
    }
}

/// Layers of which every action is manageable.
pub open spec fn all_manageable<T: 'static, K: 'static>(
    layers: Seq<Seq<Seq<Action<T, K>>>>,
    depth: nat,
) -> bool {
    forall|l: int, i: int, j: int|
        0 <= l < layers.len() && 0 <= i < layers[l].len() && 0 <= j < layers[l][i].len()
            ==> manageable(#[trigger] layers[l][i][j], depth)
}

/// A waiting key, if there is one, that does not wait for too long and whose
/// actions leave no key waiting.
pub open spec fn well_kept<T: 'static, K: 'static>(
    waiting: Option<WaitingState<T, K>>,
    depth: nat,
) -> bool {
    waiting matches Some(w) ==> {
        &&& w.timeout <= MAX_TIMEOUT
        &&& settles(*w.hold, depth)
        &&& settles(*w.tap, depth)
    }
}

/// The number of ticks within which the waiting key is decided.
pub open spec fn patience<T: 'static, K: 'static>(waiting: Option<WaitingState<T, K>>) -> int {
    match waiting {
        Some(w) => if w.timeout > 0 {
            w.timeout as int
        } else {
            1
        },
        None => 0,
    }
}

/// An event that has been stacked for `since` ticks at place `i` is processed
/// before it has been stacked for too long.
pub open spec fn in_time(since: u16, patience: int, i: int) -> bool {
    since + patience + 1 + i * (MAX_TIMEOUT + 1) <= STACK_SIZE * (MAX_TIMEOUT + 1)
}

impl<T: 'static, K: 'static + Copy> LayoutView<T, K> {
    /// A layout whose actions are manageable, and in which nothing has happened
    /// that such actions cannot bring about.
    pub open spec fn steady(self, depth: nat) -> bool {
        &&& all_manageable(self.layers, depth)
        &&& self.stacked.len() <= STACK_SIZE
        &&& well_kept(self.waiting, depth)
        &&& self.all_playable()
        &&& forall|i: int|
            0 <= i < self.stacked.len() ==> in_time(
                (#[trigger] self.stacked[i]).since,
                patience(self.waiting),
                i,
            )
    }
}

/// A deeper bound on the nesting changes nothing once an action can be done.
pub(crate) proof fn lemma_act_within_deeper<T: 'static, K: 'static + Copy>(
    m: LayoutView<T, K>,
    action: Action<T, K>,
    coord: (u8, u8),
    delay: u16,
    depth: nat,
    deeper: nat,
)
    requires
        m.act_within(action, coord, delay, depth).ok,
        depth <= deeper,
    ensures
        m.act_within(action, coord, delay, deeper) == m.act_within(action, coord, delay, depth),
    decreases depth, 0nat,
{
    match action {
        Action::HoldTap(h) => {
            if depth > 0 {
                let m1 = m.without_interval();
                if m1.act_within(h.tap, coord, delay, (depth - 1) as nat).ok {
                    lemma_act_within_deeper(
                        m1,
                        h.tap,
                        coord,
                        delay,
                        (depth - 1) as nat,
                        (deeper - 1) as nat,
                    );
                }
            }
        },
        Action::MultipleActions(actions) => {
            lemma_act_all_deeper(
                m.with_last_key(coord),
                actions@,
                coord,
                delay,
                (depth - 1) as nat,
                (deeper - 1) as nat,
            );
        },
        _ => {},
    }
}

pub(crate) proof fn lemma_act_all_deeper<T: 'static, K: 'static + Copy>(
    m: LayoutView<T, K>,
    actions: Seq<Action<T, K>>,
    coord: (u8, u8),
    delay: u16,
    depth: nat,
    deeper: nat,
)
    requires
        m.act_all_within(actions, coord, delay, depth).ok,
        depth <= deeper,
    ensures
        m.act_all_within(actions, coord, delay, deeper) == m.act_all_within(
            actions,
            coord,
            delay,
            depth,
        ),
    decreases depth, actions.len() + 1,
{
    if actions.len() > 0 {
        lemma_act_all_deeper(m, actions.drop_last(), coord, delay, depth, deeper);
        let before = m.act_all_within(actions.drop_last(), coord, delay, depth);
        lemma_act_within_deeper(before.layout, actions.last(), coord, delay, depth, deeper);
    }
}

/// What comes of an action does not depend on the bound on the nesting, as long
/// as the action can be done within the bound.
pub proof fn law_depth_is_immaterial<T: 'static, K: 'static + Copy>(
    m: LayoutView<T, K>,
    action: Action<T, K>,
    coord: (u8, u8),
    delay: u16,
    depth: nat,
)
    requires
        m.act_within(action, coord, delay, depth).ok,
    ensures
        m.act(action, coord, delay) == m.act_within(action, coord, delay, depth),
{
    let chosen = choose|depth: nat| (#[trigger] m.act_within(action, coord, delay, depth)).ok;
    if chosen <= depth {
        lemma_act_within_deeper(m, action, coord, delay, chosen, depth);
    } else {
        lemma_act_within_deeper(m, action, coord, delay, depth, chosen);
    }
}

/// An action that settles can be done, and leaves no key waiting. It leaves the
/// sequences such that they can be played.
pub(crate) proof fn lemma_settles<T: 'static, K: 'static + Copy>(
    m: LayoutView<T, K>,
    action: Action<T, K>,
    coord: (u8, u8),
    delay: u16,
    depth: nat,
)
    requires
        m.waiting is None,
        settles(action, depth),
    ensures
        ({
            let o = m.act_within(action, coord, delay, depth);
            &&& o.ok
            &&& o.layout.waiting is None
            &&& m.all_playable() ==> o.layout.all_playable()
        }),
    decreases depth, 0nat,
{
    match action {
        Action::MultipleActions(actions) => {
            lemma_all_settle(
                m.with_last_key(coord),
                actions@,
                coord,
                delay,
                (depth - 1) as nat,
            );
        },
        _ => {},
    }
}

proof fn lemma_all_settle<T: 'static, K: 'static + Copy>(
    m: LayoutView<T, K>,
    actions: Seq<Action<T, K>>,
    coord: (u8, u8),
    delay: u16,
    depth: nat,
)
    requires
        m.waiting is None,
        forall|i: int| 0 <= i < actions.len() ==> settles(#[trigger] actions[i], depth),
    ensures
        ({
            let o = m.act_all_within(actions, coord, delay, depth);
            &&& o.ok
            &&& o.layout.waiting is None
            &&& m.all_playable() ==> o.layout.all_playable()
        }),
    decreases depth, actions.len() + 1,
{
    if actions.len() > 0 {
        lemma_all_settle(m, actions.drop_last(), coord, delay, depth);
        let before = m.act_all_within(actions.drop_last(), coord, delay, depth);
        assert(settles(actions[actions.len() - 1], depth));
        lemma_settles(before.layout, actions.last(), coord, delay, depth);
    }
}

/// What settles within a bound on the nesting settles within a deeper one.
proof fn lemma_settles_deeper<T: 'static, K: 'static>(action: Action<T, K>, depth: nat, deeper: nat)
    requires
        settles(action, depth),
        depth <= deeper,
    ensures
        settles(action, deeper),
    decreases depth,
{
    match action {
        Action::MultipleActions(actions) => {
            assert forall|i: int| 0 <= i < actions@.len() implies settles(
                #[trigger] actions@[i],
                (deeper - 1) as nat,
            ) by {
                lemma_settles_deeper(actions@[i], (depth - 1) as nat, (deeper - 1) as nat);
            }
        },
        _ => {},
    }
}

/// An action that is manageable can be done. It needs one more level of nesting
/// than its parts, for a hold-tap key that is tapped at once.
proof fn lemma_manageable<T: 'static, K: 'static + Copy>(
    m: LayoutView<T, K>,
    action: Action<T, K>,
    coord: (u8, u8),
    delay: u16,
    depth: nat,
)
    requires
        m.waiting is None,
        manageable(action, depth),
        m.all_playable(),
    ensures
        ({
            let o = m.act_within(action, coord, delay, depth + 1);
            &&& o.ok
            &&& well_kept(o.layout.waiting, depth)
            &&& o.layout.all_playable()
        }),
    decreases depth,
{
    match action {
        Action::HoldTap(h) => {
            let m1 = m.without_interval();
            lemma_settles(m1, h.tap, coord, delay, depth);
        },
        Action::MultipleActions(actions) => {
            let m1 = m.with_last_key(coord);
            if actions@.len() > 0 {
                let first = actions@.drop_last();
                assert forall|i: int| 0 <= i < first.len() implies settles(
                    #[trigger] first[i],
                    depth,
                ) by {
                    assert(first[i] == actions@[i]);
                    lemma_settles_deeper(actions@[i], (depth - 1) as nat, depth);
                }
                lemma_all_settle(m1, first, coord, delay, depth);
                let before = m1.act_all_within(first, coord, delay, depth);
                lemma_manageable(
                    before.layout,
                    actions@.last(),
                    coord,
                    delay,
                    (depth - 1) as nat,
                );
                let o = before.layout.act_within(actions@.last(), coord, delay, depth);
                assert((depth - 1) as nat + 1 == depth);
                assert(o.ok);
                assert(m1.act_all_within(actions@, coord, delay, depth).layout == o.layout);
                if let Some(w) = o.layout.waiting {
                    lemma_settles_deeper(*w.hold, (depth - 1) as nat, depth);
                    lemma_settles_deeper(*w.tap, (depth - 1) as nat, depth);
                }
            }
        },
        _ => {
            lemma_settles(m, action, coord, delay, depth + 1);
        },
    }
}

/// The actions of steady layers can be done, and keep a layout steady.
proof fn lemma_act_steady<T: 'static, K: 'static + Copy>(
    m: LayoutView<T, K>,
    action: Action<T, K>,
    coord: (u8, u8),
    delay: u16,
    depth: nat,
)
    requires
        m.waiting is None,
        manageable(action, depth),
        all_manageable(m.layers, depth),
        m.stacked.len() <= STACK_SIZE,
        m.all_playable(),
        forall|i: int|
            0 <= i < m.stacked.len() ==> in_time(
                (#[trigger] m.stacked[i]).since,
                if settles(action, depth) {
                    0
                } else {
                    MAX_TIMEOUT as int
                },
                i,
            ),
    ensures
        m.act(action, coord, delay).ok,
        m.act(action, coord, delay).layout.steady(depth),
        settles(action, depth) ==> m.act(action, coord, delay).layout.waiting is None,
        m.act(action, coord, delay).layout.stacked == m.stacked,
{
    lemma_manageable(m, action, coord, delay, depth);
    law_depth_is_immaterial(m, action, coord, delay, depth + 1);
    laws::law_actions_only_add_states_of_their_key(m, action, coord, delay);
    if settles(action, depth) {
        lemma_settles(m, action, coord, delay, depth);
        law_depth_is_immaterial(m, action, coord, delay, depth);
    }
}

/// Processing an event keeps a layout steady that has time for one more key to
/// wait.
proof fn lemma_unstack_steady<T: 'static, K: 'static + Copy>(
    m: LayoutView<T, K>,
    stacked: Stacked,
    depth: nat,
)
    requires
        m.waiting is None,
        all_manageable(m.layers, depth),
        m.stacked.len() <= STACK_SIZE,
        m.all_playable(),
        forall|i: int|
            0 <= i < m.stacked.len() ==> in_time(
                (#[trigger] m.stacked[i]).since,
                MAX_TIMEOUT as int,
                i,
            ),
    ensures
        m.unstack(stacked).ok,
        m.unstack(stacked).layout.steady(depth),
{
    match stacked.event {
        Event::Press(i, j) => {
            let action = m.press_as_action((i, j), m.current_layer());
            assert(manageable(action, depth)) by {
                let layer = m.current_layer();
                if let Some(a) = m.action_at((i, j), layer) {
                    assert(manageable(m.layers[layer as int][i as int][j as int], depth));
                }
                if let Some(a) = m.action_at((i, j), m.default_layer) {
                    assert(manageable(
                        m.layers[m.default_layer as int][i as int][j as int],
                        depth,
                    ));
                }
            }
            lemma_act_steady(m, action, (i, j), stacked.since, depth);
        },
        Event::Release(..) => {},
    }
}

/// The first release of a key is one of the stacked events.
proof fn lemma_first_release_is_stacked<T: 'static, K: 'static>(
    w: WaitingState<T, K>,
    stacked: Seq<Stacked>,
) -> (i: int)
    requires
        w.first_release(stacked) is Some,
    ensures
        0 <= i < stacked.len(),
        w.first_release(stacked) == Some(stacked[i].since),
    decreases stacked.len(),
{
    if w.first_release(stacked.drop_last()) is Some {
        lemma_first_release_is_stacked(w, stacked.drop_last())
    } else {
        stacked.len() - 1
    }
}

proof fn lemma_tick_steady<T: 'static, K: 'static + Copy + Eq>(
    m: LayoutView<T, K>,
    answer: Option<WaitingAction>,
    depth: nat,
)
    requires
        m.steady(depth),
    ensures
        m.tick(answer).ok,
        m.tick(answer).layout.steady(depth),
{
    let aged = m.aged();
    sequence_laws::law_only_ongoing_sequences_are_kept(m.states, m.sequences);
    assert forall|i: int| 0 <= i < aged.stacked.len() implies in_time(
        (#[trigger] aged.stacked[i]).since,
        patience(m.waiting) - 1,
        i,
    ) by {
        assert(in_time(m.stacked[i].since, patience(m.waiting), i));
    }
    match m.waiting {
        Some(w) => {
            let ticked = LayoutView { waiting: Some(w.ticked()), ..aged };
            if w.ticked().first_release(aged.stacked) is Some {
                let i = lemma_first_release_is_stacked(w.ticked(), aged.stacked);
                assert(in_time(aged.stacked[i].since, patience(m.waiting) - 1, i));
            }
            assert forall|i: int| 0 <= i < aged.stacked.len() implies in_time(
                (#[trigger] aged.stacked[i]).since,
                0,
                i,
            ) by {
                assert(in_time(aged.stacked[i].since, patience(m.waiting) - 1, i));
            }
            let free = ticked.without_waiting();
            let held = ticked.holding(w.coord);
            lemma_settles_is_manageable(*w.hold, depth);
            lemma_settles_is_manageable(*w.tap, depth);
            lemma_act_steady(held, *w.hold, w.coord, 0, depth);
            lemma_act_steady(free, *w.tap, w.coord, 0, depth);
        },
        None => {
            if aged.stacked.len() > 0 {
                let rest = LayoutView { stacked: aged.stacked.drop_first(), ..aged };
                assert forall|i: int| 0 <= i < rest.stacked.len() implies in_time(
                    (#[trigger] rest.stacked[i]).since,
                    MAX_TIMEOUT as int,
                    i,
                ) by {
                    assert(in_time(aged.stacked[i + 1].since, -1, i + 1));
                }
                lemma_unstack_steady(rest, aged.stacked[0], depth);
            }
        },
    }
}

/// What settles is manageable.
proof fn lemma_settles_is_manageable<T: 'static, K: 'static>(action: Action<T, K>, depth: nat)
    requires
        settles(action, depth),
    ensures
        manageable(action, depth),
    decreases depth,
{
    match action {
        Action::MultipleActions(actions) => {
            if actions@.len() > 0 {
                assert(settles(actions@[actions@.len() - 1], (depth - 1) as nat));
                lemma_settles_is_manageable(actions@.last(), (depth - 1) as nat);
            }
        },
        _ => {},
    }
}

proof fn lemma_event_steady<T: 'static, K: 'static + Copy>(
    m: LayoutView<T, K>,
    event: Event,
    depth: nat,
)
    requires
        m.steady(depth),
    ensures
        m.event(event).ok,
        m.event(event).layout.steady(depth),
{
    let new = Stacked { event, since: 0 };
    if m.stacked.len() == STACK_SIZE {
        let full = LayoutView { stacked: m.stacked.drop_first().push(new), ..m };
        assert forall|i: int| 0 <= i < full.stacked.len() implies in_time(
            (#[trigger] full.stacked[i]).since,
            MAX_TIMEOUT as int,
            i,
        ) && in_time(full.stacked[i].since, 0, i) by {
            if i < STACK_SIZE - 1 {
                assert(in_time(m.stacked[i + 1].since, patience(m.waiting), i + 1));
            }
        }
        if let Some(w) = m.waiting {
            let held = full.holding(w.coord);
            lemma_settles_is_manageable(*w.hold, depth);
            lemma_act_steady(held, *w.hold, w.coord, 0, depth);
        }
        lemma_unstack_steady(full.waiting_into_hold().layout, m.stacked[0], depth);
    } else {
        let after = m.event(event).layout;
        assert forall|i: int| 0 <= i < after.stacked.len() implies in_time(
            (#[trigger] after.stacked[i]).since,
            patience(m.waiting),
            i,
        ) by {
            if i < m.stacked.len() {
                assert(in_time(m.stacked[i].since, patience(m.waiting), i));
            }
        }
    }
}

/// A layout in which nothing has happened yet is steady if its actions are
/// manageable.
pub proof fn law_new_layouts_are_steady<T: 'static, K: 'static + Copy>(
    layers: Seq<Seq<Seq<Action<T, K>>>>,
    depth: nat,
)
    requires
        all_manageable(layers, depth),
    ensures
        LayoutView::initial(layers).steady(depth),
{
}

/// A steady layout can take every event and every tick.
pub proof fn law_steady_layouts_are_ready<T: 'static, K: 'static + Copy + Eq>(
    m: LayoutView<T, K>,
    depth: nat,
)
    requires
        m.steady(depth),
    ensures
        m.tick_ready(),
        forall|event: Event| m.event_ready(event),
{
    assert forall|answer: Option<WaitingAction>| (#[trigger] m.tick(answer)).ok by {
        lemma_tick_steady(m, answer, depth);
    }
    assert forall|event: Event| m.event_ready(event) by {
        lemma_event_steady(m, event, depth);
    }
}

/// A steady layout stays steady, whatever happens to it.
pub proof fn law_steady_layouts_stay_steady<T: 'static, K: 'static + Copy + Eq>(
    m: LayoutView<T, K>,
    depth: nat,
)
    requires
        m.steady(depth),
    ensures
        forall|answer: Option<WaitingAction>| (#[trigger] m.tick(answer)).layout.steady(depth),
        forall|event: Event| (#[trigger] m.event(event)).layout.steady(depth),
        forall|value: usize| (#[trigger] m.with_default_layer(value)).steady(depth),
        forall|activation: (usize, usize), target: usize|
            (#[trigger] m.with_tri_layer(activation, target)).steady(depth),
{
    assert forall|answer: Option<WaitingAction>| (#[trigger] m.tick(answer)).layout.steady(
        depth,
    ) by {
        lemma_tick_steady(m, answer, depth);
    }
    assert forall|event: Event| (#[trigger] m.event(event)).layout.steady(depth) by {
        lemma_event_steady(m, event, depth);
    }
}

} // verus!
