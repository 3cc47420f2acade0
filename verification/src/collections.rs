//! The fixed-capacity collections that a layout is made of.
//!
//! A [`BoundedVec`] is a `heapless::Vec`, a [`WrappingDeque`] is an
//! `arraydeque::ArrayDeque` with the wrapping behavior and a [`DequeIter`] is an
//! `arraydeque::Iter`. Each carries, for specifications only, the sequence of
//! the items that it holds. The fields are private to this file, which holds
//! nothing but the calls into the two crates, so that a collection and its
//! sequence are made together and change together.
use vstd::prelude::*;

verus! {

/// Makes `heapless::Vec` known; nothing is claimed of what is inside.
#[verifier::external_type_specification]
#[verifier::external_body]
#[verifier::reject_recursive_types(T)]
pub struct ExHeaplessVec<T, const N: usize>(heapless::Vec<T, N>);

/// Makes `arraydeque::Iter` known; nothing is claimed of what is inside.
#[verifier::external_type_specification]
#[verifier::external_body]
#[verifier::reject_recursive_types(T)]
pub struct ExArrayDequeIter<'a, T: 'a>(arraydeque::Iter<'a, T>);

/// An `arraydeque::ArrayDeque` with the wrapping behavior.
#[verifier::external_body]
#[verifier::reject_recursive_types(T)]
struct RawDeque<T, const CAP: usize>(
    arraydeque::ArrayDeque<T, CAP, arraydeque::behavior::Wrapping>,
);

/// A vector of at most `N` items. Its view is the sequence of the items.
#[verifier::reject_recursive_types(T)]
pub(crate) struct BoundedVec<T, const N: usize> {
    items: heapless::Vec<T, N>,
    model: Ghost<Seq<T>>,
}

impl<T, const N: usize> View for BoundedVec<T, N> {
    type V = Seq<T>;

    closed spec fn view(&self) -> Seq<T> {
        self.model@
    }
}

impl<T, const N: usize> BoundedVec<T, N> {
    /// `heapless::Vec::new`: the new vector is empty.
    #[verifier::external_body]
    pub(crate) fn new() -> (vec: Self)
        ensures
            vec@ == Seq::<T>::empty(),
    {
        BoundedVec { items: heapless::Vec::new(), model: Ghost(Seq::empty()) }
    }

    /// `heapless::Vec::push`: appends the item while there are fewer than `N`;
    /// otherwise hands it back and changes nothing.
    #[verifier::external_body]
    pub(crate) fn push(&mut self, item: T) -> (result: Result<(), T>)
        ensures
            result == (if old(self)@.len() < N {
                Ok(())
            } else {
                Err(item)
            }),
            final(self)@ == (if old(self)@.len() < N {
                old(self)@.push(item)
            } else {
                old(self)@
            }),
    {
        proof {
            if self.model@.len() < N {
                self.model@ = self.model@.push(item);
            }
        }
        self.items.push(item)
    }

    /// `heapless::Vec::as_slice`: the items, in order.
    #[verifier::external_body]
    pub(crate) fn as_slice(&self) -> (slice: &[T])
        ensures
            slice@ == self@,
    {
        self.items.as_slice()
    }
}

/// A queue of at most `CAP` items that drops the oldest one to make room. Its
/// view is the sequence of the items, the oldest first.
#[verifier::reject_recursive_types(T)]
pub(crate) struct WrappingDeque<T, const CAP: usize> {
    items: RawDeque<T, CAP>,
    model: Ghost<Seq<T>>,
}

impl<T, const CAP: usize> View for WrappingDeque<T, CAP> {
    type V = Seq<T>;

    closed spec fn view(&self) -> Seq<T> {
        self.model@
    }
}

impl<T, const CAP: usize> WrappingDeque<T, CAP> {
    /// `ArrayDeque::new`: the new queue is empty.
    #[verifier::external_body]
    pub(crate) fn new() -> (deque: Self)
        ensures
            deque@ == Seq::<T>::empty(),
    {
        WrappingDeque {
            items: RawDeque(arraydeque::ArrayDeque::new()),
            model: Ghost(Seq::empty()),
        }
    }

    /// `ArrayDeque::push_back` of the wrapping behavior: appends the item; a full
    /// queue first gives up its oldest item, which is returned.
    #[verifier::external_body]
    pub(crate) fn push_back(&mut self, item: T) -> (dropped: Option<T>)
        requires
            0 < CAP,
            2 * CAP <= usize::MAX,
            old(self)@.len() <= CAP,
        ensures
            dropped == (if old(self)@.len() < CAP {
                None
            } else {
                Some(old(self)@[0])
            }),
            final(self)@ == (if old(self)@.len() < CAP {
                old(self)@.push(item)
            } else {
                old(self)@.drop_first().push(item)
            }),
    {
        proof {
            if self.model@.len() >= CAP {
                self.model@ = self.model@.drop_first();
            }
            self.model@ = self.model@.push(item);
        }
        self.items.0.push_back(item)
    }

    /// `ArrayDeque::pop_front`: takes the oldest item out, if there is one.
    #[verifier::external_body]
    pub(crate) fn pop_front(&mut self) -> (item: Option<T>)
        ensures
            item == (if old(self)@.len() > 0 {
                Some(old(self)@[0])
            } else {
                None
            }),
            final(self)@ == (if old(self)@.len() > 0 {
                old(self)@.drop_first()
            } else {
                old(self)@
            }),
    {
        proof {
            if self.model@.len() > 0 {
                self.model@ = self.model@.drop_first();
            }
        }
        self.items.0.pop_front()
    }

    /// `ArrayDeque::len`: how many items there are.
    #[verifier::external_body]
    pub(crate) fn len(&self) -> (len: usize)
        ensures
            len == self@.len(),
    {
        self.items.0.len()
    }

    /// `ArrayDeque::get`: the item at `index`, counted from the oldest, if there
    /// are that many.
    #[verifier::external_body]
    pub(crate) fn get(&self, index: usize) -> (item: Option<&T>)
        requires
            2 * CAP <= usize::MAX,
        ensures
            item == (if index < self@.len() {
                Some(&self@[index as int])
            } else {
                None
            }),
    {
        self.items.0.get(index)
    }

    /// `ArrayDeque::iter`: an iterator over the items from the oldest on.
    #[verifier::external_body]
    pub(crate) fn iter(&self) -> (iter: DequeIter<'_, T>)
        ensures
            iter@ == self@,
    {
        DequeIter { items: self.items.0.iter(), model: Ghost(self.model@) }
    }
}

/// An iterator over a [`WrappingDeque`]. Its view is the sequence of the items
/// that are still to come.
#[verifier::reject_recursive_types(T)]
pub(crate) struct DequeIter<'a, T: 'a> {
    items: arraydeque::Iter<'a, T>,
    model: Ghost<Seq<T>>,
}

impl<'a, T: 'a> View for DequeIter<'a, T> {
    type V = Seq<T>;

    closed spec fn view(&self) -> Seq<T> {
        self.model@
    }
}

impl<'a, T: 'a> DequeIter<'a, T> {
    /// `arraydeque::Iter::next`: yields the next item, if there is one.
    #[verifier::external_body]
    pub(crate) fn next(&mut self) -> (item: Option<&'a T>)
        ensures
            item == (if old(self)@.len() > 0 {
                Some(&old(self)@[0])
            } else {
                None
            }),
            final(self)@ == (if old(self)@.len() > 0 {
                old(self)@.drop_first()
            } else {
                old(self)@
            }),
    {
        proof {
            if self.model@.len() > 0 {
                self.model@ = self.model@.drop_first();
            }
        }
        self.items.next()
    }

    /// `arraydeque::Iter::size_hint`: the exact number of items to come, as the
    /// lower and as the upper bound.
    #[verifier::external_body]
    pub(crate) fn size_hint(&self) -> (hint: (usize, Option<usize>))
        ensures
            hint.0 == self@.len(),
            hint.1 == Some(hint.0),
    {
        self.items.size_hint()
    }
}

} // verus!
