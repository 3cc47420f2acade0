//! Layers that two others activate together.
use vstd::prelude::*;

verus! {

/// A layer that is in force when two given ones are those that were activated
/// last.
#[derive(Debug)]
pub struct TriLayer {
    /// The two layers, in whatever order.
    pub activation_layers: (usize, usize),
    /// The layer that they activate.
    pub target_layer: usize,
}

impl TriLayer {
    /// The layer that the two layers activate, in whatever order, if they do.
    pub open spec fn applied(self, layer_0: usize, layer_1: usize) -> Option<usize> {
        if self.activation_layers == (layer_0, layer_1) || self.activation_layers == (
            layer_1,
            layer_0,
        ) {
            Some(self.target_layer)
        } else {
            None
        }
    }

    /// Returns the layer that the two layers activate, in whatever order, if they
    /// do.
    pub fn apply(&self, layer_0: usize, layer_1: usize) -> (layer: Option<usize>)
        ensures
            layer == self.applied(layer_0, layer_1),
    {
        let (a, b) = self.activation_layers;
        if (a == layer_0 && b == layer_1) || (a == layer_1 && b == layer_0) {
            Some(self.target_layer)
        } else {
            None
        }
    }
}

/// The layer that the first tri-layer that applies activates, if one applies.
pub open spec fn first_applied(tri_layers: Seq<TriLayer>, layer_0: usize, layer_1: usize) -> Option<
    usize,
>
    decreases tri_layers.len(),
{
    if tri_layers.len() == 0 {
        None
    } else {
        match first_applied(tri_layers.drop_last(), layer_0, layer_1) {
            Some(layer) => Some(layer),
            None => tri_layers.last().applied(layer_0, layer_1),
        }
    }
}

/// The first tri-layer that applies among the first ones is the first of all.
proof fn lemma_first_applied_is_first(
    tri_layers: Seq<TriLayer>,
    layer_0: usize,
    layer_1: usize,
    n: int,
)
    requires
        0 <= n <= tri_layers.len(),
        first_applied(tri_layers.take(n), layer_0, layer_1) is Some,
    ensures
        first_applied(tri_layers, layer_0, layer_1) == first_applied(
            tri_layers.take(n),
            layer_0,
            layer_1,
        ),
    decreases tri_layers.len(),
{
    if n == tri_layers.len() {
        assert(tri_layers.take(n) == tri_layers);
    } else {
        assert(tri_layers.drop_last().take(n) == tri_layers.take(n));
        lemma_first_applied_is_first(tri_layers.drop_last(), layer_0, layer_1, n);
    }
}

/// Returns the layer that the first tri-layer that applies activates, if one
/// applies.
pub(crate) fn find_applied(tri_layers: &[TriLayer], layer_0: usize, layer_1: usize) -> (layer:
    Option<usize>)
    ensures
        layer == first_applied(tri_layers@, layer_0, layer_1),
{
    let mut i: usize = 0;
    while i < tri_layers.len()
        invariant
            i <= tri_layers@.len(),
            first_applied(tri_layers@.take(i as int), layer_0, layer_1) is None,
        decreases tri_layers@.len() - i,
    {
        assert(tri_layers@.take(i + 1).drop_last() == tri_layers@.take(i as int));
        if let Some(layer) = tri_layers[i].apply(layer_0, layer_1) {
            proof {
                lemma_first_applied_is_first(tri_layers@, layer_0, layer_1, i + 1);
            }
            return Some(layer);
        }
        i += 1;
    }
    assert(tri_layers@.take(i as int) == tri_layers@);
    None
}

} // verus!
