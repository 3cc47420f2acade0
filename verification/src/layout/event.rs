//! What goes into a layout and what comes out of it.
use vstd::prelude::*;
use vstd::std_specs::convert::FromSpecImpl;

verus! {

/// An event on the key matrix.
#[derive(Debug, Copy, Clone, PartialEq, Eq, Structural)]
pub enum Event {
    /// Press event with coordinates (i, j).
    Press(u8, u8),
    /// Release event with coordinates (i, j).
    Release(u8, u8),
}

impl Event {
    /// The coordinates (i, j) of the event.
    pub open spec fn coord_spec(self) -> (u8, u8) {
        match self {
            Event::Press(i, j) => (i, j),
            Event::Release(i, j) => (i, j),
        }
    }

    /// Returns the coordinates (i, j) of the event.
    pub fn coord(self) -> (coord: (u8, u8))
        ensures
            coord == self.coord_spec(),
    {
        match self {
            Event::Press(i, j) => (i, j),
            Event::Release(i, j) => (i, j),
        }
    }

    /// Transforms the coordinates of the event: a press stays a press and a
    /// release stays a release, at the coordinates that `f` gives.
    pub fn transform(self, f: impl FnOnce(u8, u8) -> (u8, u8)) -> (event: Self)
        requires
            call_requires(f, self.coord_spec()),
        ensures
            call_ensures(f, self.coord_spec(), event.coord_spec()),
            event is Press <==> self is Press,
    {
        match self {
            Event::Press(i, j) => {
                let (i, j) = f(i, j);
                Event::Press(i, j)
            },
            Event::Release(i, j) => {
                let (i, j) = f(i, j);
                Event::Release(i, j)
            },
        }
    }

    /// Returns `true` if the event is a key press.
    pub fn is_press(self) -> (press: bool)
        ensures
            press == (self is Press),
    {
        match self {
            Event::Press(..) => true,
            Event::Release(..) => false,
        }
    }

    /// Returns `true` if the event is a key release.
    pub fn is_release(self) -> (release: bool)
        ensures
            release == (self is Release),
    {
        match self {
            Event::Release(..) => true,
            Event::Press(..) => false,
        }
    }
}

/// Event from custom action.
#[derive(Debug, PartialEq, Eq)]
pub enum CustomEvent<T: 'static> {
    /// No custom action.
    NoEvent,
    /// The given custom action key is pressed.
    Press(&'static T),
    /// The given custom action key is released.
    Release(&'static T),
}

impl<T: 'static> Default for CustomEvent<T> {
    fn default() -> (event: Self)
        ensures
            event == CustomEvent::<T>::NoEvent,
    {
        CustomEvent::NoEvent
    }
}

impl<T: 'static> CustomEvent<T> {
    /// The place of the event in the order `NoEvent < Press < Release`.
    pub open spec fn rank(self) -> int {
        match self {
            CustomEvent::NoEvent => 0,
            CustomEvent::Press(_) => 1,
            CustomEvent::Release(_) => 2,
        }
    }

    /// The event after an update: the new event if it is higher in the order,
    /// the present one otherwise.
    pub open spec fn updated(self, e: Self) -> Self {
        if e.rank() > self.rank() {
            e
        } else {
            self
        }
    }

    /// Updates an event according to a new event.
    ///
    /// The event can only be modified in the order `NoEvent < Press < Release`.
    pub fn update(&mut self, e: Self)
        ensures
            *final(self) == old(self).updated(e),
            old(self).rank() <= final(self).rank(),
    {
        match (&e, &*self) {
            (CustomEvent::Release(_), CustomEvent::NoEvent) => {
                *self = e;
            },
            (CustomEvent::Release(_), CustomEvent::Press(_)) => {
                *self = e;
            },
            (CustomEvent::Press(_), CustomEvent::NoEvent) => {
                *self = e;
            },
            _ => (),
        }
    }
}

/// An event, waiting in a stack to be processed.
#[derive(Debug)]
pub struct Stacked {
    /// The event.
    pub event: Event,
    /// For how many ticks it has been waiting, as far as a `u16` counts.
    pub since: u16,
}

impl From<Event> for Stacked {
    fn from(event: Event) -> (stacked: Self) {
        Stacked { event, since: 0 }
    }
}

impl FromSpecImpl<Event> for Stacked {
    open spec fn obeys_from_spec() -> bool {
        true
    }

    open spec fn from_spec(event: Event) -> Self {
        Stacked { event, since: 0 }
    }
}

impl Stacked {
    /// The event one tick later.
    pub open spec fn ticked(self) -> Self {
        Stacked {
            event: self.event,
            since: if self.since < u16::MAX {
                (self.since + 1) as u16
            } else {
                u16::MAX
            },
        }
    }

    /// Lets one tick pass.
    pub fn tick(&mut self)
        ensures
            *final(self) == old(self).ticked(),
    {
        self.since = self.since.saturating_add(1);
    }

    /// Get the [Event] from this object.
    pub fn event(&self) -> (event: Event)
        ensures
            event == self.event,
    {
        self.event
    }
}

} // verus!
