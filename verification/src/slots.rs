//! Arrays of slots, each of which holds an item or is not in use.
use vstd::prelude::*;

verus! {

/// The contents of the slots that are in use.
pub open spec fn contents<A>(slots: Seq<Option<A>>) -> Seq<A> {
    slots.filter_map(|slot: Option<A>| slot)
}

/// Slots of which exactly the first `n` are in use hold their contents in order.
pub(crate) proof fn lemma_contents<A>(slots: Seq<Option<A>>, n: int)
    requires
        0 <= n <= slots.len(),
        forall|i: int| 0 <= i < n ==> (#[trigger] slots[i]) is Some,
        forall|i: int| n <= i < slots.len() ==> (#[trigger] slots[i]) is None,
    ensures
        contents(slots).len() == n,
        forall|i: int| 0 <= i < n ==> slots[i] == Some(#[trigger] contents(slots)[i]),
    decreases slots.len(),
{
    if slots.len() > 0 {
        if n == slots.len() {
            lemma_contents(slots.drop_last(), n - 1);
        } else {
            lemma_contents(slots.drop_last(), n);
        }
    }
}

/// Slots none of which is in use.
pub(crate) fn unused<A: Copy, const N: usize>() -> (slots: [Option<A>; N])
    ensures
        forall|i: int| 0 <= i < N ==> (#[trigger] slots@[i]) is None,
{
    [None;N]
}

} // verus!
