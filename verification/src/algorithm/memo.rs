//! The memo table of a backward pass: when it is sound, how it advances,
//! and when it is complete.
//!
//! A slot that holds the not-computed mark is a miss. Any other value in a
//! slot is a result of the derivative that the slot stands for.
use vstd::prelude::*;
use crate::ieee::{NAN, nan};
use crate::network::{LayerView, well_formed, same_shape, blank, layer_blank, has_edge, has_node, layer_shaped,
    with_a, with_z, with_w, with_b, lemma_same_shape_transitive};
use crate::algorithm::derivative::{Calculus, cost_by_sum, cost_by_activation, cost_by_weight, cost_by_bias,
    derivatives_are_numbers};

verus! {

/// The slot of the cache for the derivative by a weighted sum is not
/// computed, or holds a result of that derivative; and where it differs from
/// the mark on a layer before the last, the slot for the derivative by the
/// activation of the same node holds a result too.
pub open spec fn sum_slot_sound(
    c: Calculus,
    net: Seq<LayerView>,
    target: Seq<u32>,
    cache: Seq<LayerView>,
    l: int,
    n: int,
) -> bool {
    cache[l].z[n] == NAN || (cost_by_sum(c, net, target, l, n, cache[l].z[n]) && (l < net.len() - 1
        ==> cost_by_activation(c, net, target, l, n, cache[l].a[n])))
}

/// The slot of the cache for the derivative by an activation is not
/// computed, or holds a result of that derivative.
pub open spec fn activation_slot_sound(
    c: Calculus,
    net: Seq<LayerView>,
    target: Seq<u32>,
    cache: Seq<LayerView>,
    l: int,
    n: int,
) -> bool {
    cache[l].a[n] == NAN || cost_by_activation(c, net, target, l, n, cache[l].a[n])
}

/// The slots of the cache for the derivatives by the weight and the bias of
/// an edge are not computed, or hold results of those derivatives; and where
/// one differs from the mark, the slot for the derivative by the weighted
/// sum of the destination node holds a result too.
pub open spec fn edge_slots_sound(
    c: Calculus,
    net: Seq<LayerView>,
    target: Seq<u32>,
    cache: Seq<LayerView>,
    l: int,
    f: int,
    t: int,
) -> bool {
    &&& cache[l].w[f][t] == NAN || (cost_by_weight(c, net, target, l, f, t, cache[l].w[f][t]) && node_complete(
        c,
        net,
        target,
        cache,
        l,
        t,
    ))
    &&& cache[l].b[f][t] == NAN || (cost_by_bias(c, net, target, l, f, t, cache[l].b[f][t]) && node_complete(
        c,
        net,
        target,
        cache,
        l,
        t,
    ))
}

/// The slots of node `n` on layer `l` hold results: the derivative by its
/// weighted sum and, before the last layer, the derivative by its
/// activation.
pub open spec fn node_complete(
    c: Calculus,
    net: Seq<LayerView>,
    target: Seq<u32>,
    cache: Seq<LayerView>,
    l: int,
    n: int,
) -> bool {
    &&& cost_by_sum(c, net, target, l, n, cache[l].z[n])
    &&& l < net.len() - 1 ==> cost_by_activation(c, net, target, l, n, cache[l].a[n])
}

/// The slots of the edge `(f, t)` of layer `l` and of its destination node
/// hold results.
pub open spec fn edge_complete(
    c: Calculus,
    net: Seq<LayerView>,
    target: Seq<u32>,
    cache: Seq<LayerView>,
    l: int,
    f: int,
    t: int,
) -> bool {
    &&& cost_by_weight(c, net, target, l, f, t, cache[l].w[f][t])
    &&& cost_by_bias(c, net, target, l, f, t, cache[l].b[f][t])
    &&& node_complete(c, net, target, cache, l, t)
}

/// The cache is a memo table for `net` and `target`: it has the shape of the
/// network, and every slot is either not computed or holds a result of the
/// derivative that it stands for.
pub open spec fn cache_sound(c: Calculus, net: Seq<LayerView>, target: Seq<u32>, cache: Seq<LayerView>) -> bool {
    &&& same_shape(net, cache)
    &&& forall|l: int, n: int|
        1 <= l && has_node(net, l, n) ==> #[trigger] sum_slot_sound(c, net, target, cache, l, n)
    &&& forall|l: int, n: int| has_node(net, l, n) ==> #[trigger] activation_slot_sound(c, net, target, cache, l, n)
    &&& forall|l: int, f: int, t: int|
        has_edge(net, l, f, t) ==> #[trigger] edge_slots_sound(c, net, target, cache, l, f, t)
}

/// From `before` to `after`, the slot of node `n` on layer `l` for the
/// derivative by the weighted sum was kept or now holds a result, and so for
/// the derivative by the activation.
pub open spec fn node_slots_advanced(
    c: Calculus,
    net: Seq<LayerView>,
    target: Seq<u32>,
    before: Seq<LayerView>,
    after: Seq<LayerView>,
    l: int,
    n: int,
) -> bool {
    &&& l >= 1 ==> after[l].z[n] == before[l].z[n] || cost_by_sum(c, net, target, l, n, after[l].z[n])
    &&& after[l].a[n] == before[l].a[n] || cost_by_activation(c, net, target, l, n, after[l].a[n])
}

/// From `before` to `after`, the slots of the edge `(f, t)` of layer `l`
/// were kept or now hold results.
pub open spec fn edge_slots_advanced(
    c: Calculus,
    net: Seq<LayerView>,
    target: Seq<u32>,
    before: Seq<LayerView>,
    after: Seq<LayerView>,
    l: int,
    f: int,
    t: int,
) -> bool {
    &&& after[l].w[f][t] == before[l].w[f][t] || cost_by_weight(c, net, target, l, f, t, after[l].w[f][t])
    &&& after[l].b[f][t] == before[l].b[f][t] || cost_by_bias(c, net, target, l, f, t, after[l].b[f][t])
}

/// From `before` to `after`, the cache kept its shape, and every slot was
/// kept or now holds a result of the derivative that it stands for.
pub open spec fn cache_advanced(
    c: Calculus,
    net: Seq<LayerView>,
    target: Seq<u32>,
    before: Seq<LayerView>,
    after: Seq<LayerView>,
) -> bool {
    &&& same_shape(before, after)
    &&& forall|l: int, n: int|
        has_node(net, l, n) ==> #[trigger] node_slots_advanced(c, net, target, before, after, l, n)
    &&& forall|l: int, f: int, t: int|
        has_edge(net, l, f, t) ==> #[trigger] edge_slots_advanced(c, net, target, before, after, l, f, t)
}

/// Every edge of the network and its destination node have their
/// derivatives in the cache; the slots for the derivative by an activation
/// of the last layer and of the input layer are not computed.
pub open spec fn cache_complete(c: Calculus, net: Seq<LayerView>, target: Seq<u32>, cache: Seq<LayerView>) -> bool {
    &&& same_shape(net, cache)
    &&& forall|l: int, f: int, t: int|
        has_edge(net, l, f, t) ==> #[trigger] edge_complete(c, net, target, cache, l, f, t)
    &&& forall|n: int| 0 <= n < cache[net.len() - 1].a.len() ==> #[trigger] cache[net.len() - 1].a[n] == NAN
    &&& forall|n: int| 0 <= n < cache[0].a.len() ==> #[trigger] cache[0].a[n] == NAN
}

/// The layers before layer `l` are in `after` what they are in `before`.
pub open spec fn layers_below_kept(before: Seq<LayerView>, after: Seq<LayerView>, l: int) -> bool {
    forall|i: int| 0 <= i < l && i < before.len() ==> #[trigger] after[i] == before[i]
}

/// An empty memo table of the shape of the network is sound.
pub proof fn lemma_blank_cache_sound(c: Calculus, net: Seq<LayerView>, target: Seq<u32>, cache: Seq<LayerView>)
    requires
        well_formed(net),
        same_shape(net, cache),
        blank(cache),
    ensures
        cache_sound(c, net, target, cache),
{
    assert forall|l: int, n: int| 1 <= l && has_node(net, l, n) implies #[trigger] sum_slot_sound(
        c,
        net,
        target,
        cache,
        l,
        n,
    ) by {
        assert(layer_blank(cache[l]));
        assert(layer_shaped(net, l));
    }
    assert forall|l: int, n: int| has_node(net, l, n) implies #[trigger] activation_slot_sound(
        c,
        net,
        target,
        cache,
        l,
        n,
    ) by {
        assert(layer_blank(cache[l]));
    }
    assert forall|l: int, f: int, t: int| has_edge(net, l, f, t) implies #[trigger] edge_slots_sound(
        c,
        net,
        target,
        cache,
        l,
        f,
        t,
    ) by {
        assert(layer_blank(cache[l]));
        assert(layer_shaped(net, l));
        assert(net[l].w[f].len() == net[l].a.len());
        assert(net[l].b[f].len() == net[l].a.len());
        assert(cache[l].w[f].len() == net[l].w[f].len());
        assert(cache[l].b[f].len() == net[l].b[f].len());
    }
}

/// A cache that does not change has advanced.
pub proof fn lemma_advanced_reflexive(c: Calculus, net: Seq<LayerView>, target: Seq<u32>, cache: Seq<LayerView>)
    ensures
        cache_advanced(c, net, target, cache, cache),
{
    assert forall|l: int, n: int| has_node(net, l, n) implies #[trigger] node_slots_advanced(
        c,
        net,
        target,
        cache,
        cache,
        l,
        n,
    ) by {}
    assert forall|l: int, f: int, t: int| has_edge(net, l, f, t) implies #[trigger] edge_slots_advanced(
        c,
        net,
        target,
        cache,
        cache,
        l,
        f,
        t,
    ) by {}
}

/// Two advances in a row are an advance.
pub proof fn lemma_advanced_transitive(
    c: Calculus,
    net: Seq<LayerView>,
    target: Seq<u32>,
    x: Seq<LayerView>,
    y: Seq<LayerView>,
    z: Seq<LayerView>,
)
    requires
        cache_advanced(c, net, target, x, y),
        cache_advanced(c, net, target, y, z),
    ensures
        cache_advanced(c, net, target, x, z),
{
    assert forall|l: int, n: int| has_node(net, l, n) implies #[trigger] node_slots_advanced(
        c,
        net,
        target,
        x,
        z,
        l,
        n,
    ) by {
        assert(node_slots_advanced(c, net, target, x, y, l, n));
        assert(node_slots_advanced(c, net, target, y, z, l, n));
    }
    assert forall|l: int, f: int, t: int| has_edge(net, l, f, t) implies #[trigger] edge_slots_advanced(
        c,
        net,
        target,
        x,
        z,
        l,
        f,
        t,
    ) by {
        assert(edge_slots_advanced(c, net, target, x, y, l, f, t));
        assert(edge_slots_advanced(c, net, target, y, z, l, f, t));
    }
    lemma_same_shape_transitive(x, y, z);
}

/// Results that a node's slots hold stay results when the cache advances.
pub proof fn lemma_node_complete_kept(
    c: Calculus,
    net: Seq<LayerView>,
    target: Seq<u32>,
    before: Seq<LayerView>,
    after: Seq<LayerView>,
    l: int,
    n: int,
)
    requires
        cache_advanced(c, net, target, before, after),
        1 <= l,
        has_node(net, l, n),
        node_complete(c, net, target, before, l, n),
    ensures
        node_complete(c, net, target, after, l, n),
{
    assert(node_slots_advanced(c, net, target, before, after, l, n));
}

/// Results that an edge's slots hold stay results when the cache advances.
pub proof fn lemma_edge_complete_kept(
    c: Calculus,
    net: Seq<LayerView>,
    target: Seq<u32>,
    before: Seq<LayerView>,
    after: Seq<LayerView>,
    l: int,
    f: int,
    t: int,
)
    requires
        cache_advanced(c, net, target, before, after),
        has_edge(net, l, f, t),
        edge_complete(c, net, target, before, l, f, t),
    ensures
        edge_complete(c, net, target, after, l, f, t),
{
    assert(edge_slots_advanced(c, net, target, before, after, l, f, t));
    lemma_node_complete_kept(c, net, target, before, after, l, t);
}

/// Writing a result of the derivative by a weighted sum into its slot keeps
/// the cache sound.
pub proof fn lemma_write_sum(
    c: Calculus,
    net: Seq<LayerView>,
    target: Seq<u32>,
    cache: Seq<LayerView>,
    l: int,
    n: int,
    v: u32,
)
    requires
        well_formed(net),
        cache_sound(c, net, target, cache),
        1 <= l,
        has_node(net, l, n),
        cost_by_sum(c, net, target, l, n, v),
        l < net.len() - 1 ==> cost_by_activation(c, net, target, l, n, cache[l].a[n]),
    ensures
        cache_sound(c, net, target, with_z(cache, l, n, v)),
        cache_advanced(c, net, target, cache, with_z(cache, l, n, v)),
{
    let after = with_z(cache, l, n, v);
    assert(layer_shaped(net, l));
    assert(same_shape(cache, after));
    assert(same_shape(net, after));
    assert forall|i: int, j: int| 1 <= i && has_node(net, i, j) implies #[trigger] sum_slot_sound(
        c,
        net,
        target,
        after,
        i,
        j,
    ) by {
        assert(sum_slot_sound(c, net, target, cache, i, j));
    }
    assert forall|i: int, j: int| has_node(net, i, j) implies #[trigger] activation_slot_sound(
        c,
        net,
        target,
        after,
        i,
        j,
    ) by {
        assert(activation_slot_sound(c, net, target, cache, i, j));
    }
    assert forall|i: int, f: int, t: int| has_edge(net, i, f, t) implies #[trigger] edge_slots_sound(
        c,
        net,
        target,
        after,
        i,
        f,
        t,
    ) by {
        assert(edge_slots_sound(c, net, target, cache, i, f, t));
    }
    assert forall|i: int, j: int| has_node(net, i, j) implies #[trigger] node_slots_advanced(
        c,
        net,
        target,
        cache,
        after,
        i,
        j,
    ) by {}
    assert forall|i: int, f: int, t: int| has_edge(net, i, f, t) implies #[trigger] edge_slots_advanced(
        c,
        net,
        target,
        cache,
        after,
        i,
        f,
        t,
    ) by {}
}

/// Writing a result of the derivative by an activation into its slot keeps
/// the cache sound.
pub proof fn lemma_write_activation(
    c: Calculus,
    net: Seq<LayerView>,
    target: Seq<u32>,
    cache: Seq<LayerView>,
    l: int,
    n: int,
    v: u32,
)
    requires
        well_formed(net),
        cache_sound(c, net, target, cache),
        has_node(net, l, n),
        cost_by_activation(c, net, target, l, n, v),
    ensures
        cache_sound(c, net, target, with_a(cache, l, n, v)),
        cache_advanced(c, net, target, cache, with_a(cache, l, n, v)),
{
    let after = with_a(cache, l, n, v);
    assert(same_shape(cache, after));
    assert(same_shape(net, after));
    assert forall|i: int, j: int| 1 <= i && has_node(net, i, j) implies #[trigger] sum_slot_sound(
        c,
        net,
        target,
        after,
        i,
        j,
    ) by {
        assert(sum_slot_sound(c, net, target, cache, i, j));
    }
    assert forall|i: int, j: int| has_node(net, i, j) implies #[trigger] activation_slot_sound(
        c,
        net,
        target,
        after,
        i,
        j,
    ) by {
        assert(activation_slot_sound(c, net, target, cache, i, j));
    }
    assert forall|i: int, f: int, t: int| has_edge(net, i, f, t) implies #[trigger] edge_slots_sound(
        c,
        net,
        target,
        after,
        i,
        f,
        t,
    ) by {
        assert(edge_slots_sound(c, net, target, cache, i, f, t));
    }
    assert forall|i: int, j: int| has_node(net, i, j) implies #[trigger] node_slots_advanced(
        c,
        net,
        target,
        cache,
        after,
        i,
        j,
    ) by {}
    assert forall|i: int, f: int, t: int| has_edge(net, i, f, t) implies #[trigger] edge_slots_advanced(
        c,
        net,
        target,
        cache,
        after,
        i,
        f,
        t,
    ) by {}
}

/// Writing a result of the derivative by a weight into its slot keeps the
/// cache sound.
pub proof fn lemma_write_weight(
    c: Calculus,
    net: Seq<LayerView>,
    target: Seq<u32>,
    cache: Seq<LayerView>,
    l: int,
    f: int,
    t: int,
    v: u32,
)
    requires
        well_formed(net),
        cache_sound(c, net, target, cache),
        has_edge(net, l, f, t),
        cost_by_weight(c, net, target, l, f, t, v),
        node_complete(c, net, target, cache, l, t),
    ensures
        cache_sound(c, net, target, with_w(cache, l, f, t, v)),
        cache_advanced(c, net, target, cache, with_w(cache, l, f, t, v)),
{
    let after = with_w(cache, l, f, t, v);
    assert(layer_shaped(net, l));
    assert(net[l].w[f].len() == net[l].a.len());
    assert(cache[l].w[f].len() == net[l].w[f].len());
    assert(same_shape(cache, after));
    assert(same_shape(net, after));
    assert forall|i: int, j: int| 1 <= i && has_node(net, i, j) implies #[trigger] sum_slot_sound(
        c,
        net,
        target,
        after,
        i,
        j,
    ) by {
        assert(sum_slot_sound(c, net, target, cache, i, j));
    }
    assert forall|i: int, j: int| has_node(net, i, j) implies #[trigger] activation_slot_sound(
        c,
        net,
        target,
        after,
        i,
        j,
    ) by {
        assert(activation_slot_sound(c, net, target, cache, i, j));
    }
    assert forall|i: int, g: int, u: int| has_edge(net, i, g, u) implies #[trigger] edge_slots_sound(
        c,
        net,
        target,
        after,
        i,
        g,
        u,
    ) by {
        assert(edge_slots_sound(c, net, target, cache, i, g, u));
        assert(layer_shaped(net, i));
        assert(net[i].w[g].len() == net[i].a.len());
        assert(cache[i].w[g].len() == net[i].w[g].len());
    }
    assert forall|i: int, j: int| has_node(net, i, j) implies #[trigger] node_slots_advanced(
        c,
        net,
        target,
        cache,
        after,
        i,
        j,
    ) by {}
    assert forall|i: int, g: int, u: int| has_edge(net, i, g, u) implies #[trigger] edge_slots_advanced(
        c,
        net,
        target,
        cache,
        after,
        i,
        g,
        u,
    ) by {
        assert(layer_shaped(net, i));
        assert(net[i].w[g].len() == net[i].a.len());
        assert(cache[i].w[g].len() == net[i].w[g].len());
    }
}

/// Writing a result of the derivative by a bias into its slot keeps the
/// cache sound.
pub proof fn lemma_write_bias(
    c: Calculus,
    net: Seq<LayerView>,
    target: Seq<u32>,
    cache: Seq<LayerView>,
    l: int,
    f: int,
    t: int,
    v: u32,
)
    requires
        well_formed(net),
        cache_sound(c, net, target, cache),
        has_edge(net, l, f, t),
        cost_by_bias(c, net, target, l, f, t, v),
        node_complete(c, net, target, cache, l, t),
    ensures
        cache_sound(c, net, target, with_b(cache, l, f, t, v)),
        cache_advanced(c, net, target, cache, with_b(cache, l, f, t, v)),
{
    let after = with_b(cache, l, f, t, v);
    assert(layer_shaped(net, l));
    assert(net[l].b[f].len() == net[l].a.len());
    assert(cache[l].b[f].len() == net[l].b[f].len());
    assert(same_shape(cache, after));
    assert(same_shape(net, after));
    assert forall|i: int, j: int| 1 <= i && has_node(net, i, j) implies #[trigger] sum_slot_sound(
        c,
        net,
        target,
        after,
        i,
        j,
    ) by {
        assert(sum_slot_sound(c, net, target, cache, i, j));
    }
    assert forall|i: int, j: int| has_node(net, i, j) implies #[trigger] activation_slot_sound(
        c,
        net,
        target,
        after,
        i,
        j,
    ) by {
        assert(activation_slot_sound(c, net, target, cache, i, j));
    }
    assert forall|i: int, g: int, u: int| has_edge(net, i, g, u) implies #[trigger] edge_slots_sound(
        c,
        net,
        target,
        after,
        i,
        g,
        u,
    ) by {
        assert(edge_slots_sound(c, net, target, cache, i, g, u));
        assert(layer_shaped(net, i));
        assert(net[i].b[g].len() == net[i].a.len());
        assert(cache[i].b[g].len() == net[i].b[g].len());
    }
    assert forall|i: int, j: int| has_node(net, i, j) implies #[trigger] node_slots_advanced(
        c,
        net,
        target,
        cache,
        after,
        i,
        j,
    ) by {}
    assert forall|i: int, g: int, u: int| has_edge(net, i, g, u) implies #[trigger] edge_slots_advanced(
        c,
        net,
        target,
        cache,
        after,
        i,
        g,
        u,
    ) by {
        assert(layer_shaped(net, i));
        assert(net[i].b[g].len() == net[i].a.len());
        assert(cache[i].b[g].len() == net[i].b[g].len());
    }
}

/// After a backward pass in which no derivative came out as a not-a-number,
/// every slot of the cache that belongs to an edge or to the destination
/// node of an edge holds a number, except the slots for the derivative by an
/// activation on the last layer: those are never computed and hold the
/// mark.
pub proof fn lemma_complete_cache_holds_numbers(
    c: Calculus,
    net: Seq<LayerView>,
    target: Seq<u32>,
    cache: Seq<LayerView>,
)
    requires
        net.len() > 0,
        cache_complete(c, net, target, cache),
        derivatives_are_numbers(c, net, target),
    ensures
        forall|l: int, f: int, t: int| #[trigger]
            has_edge(net, l, f, t) ==> {
                &&& !nan(cache[l].w[f][t])
                &&& !nan(cache[l].b[f][t])
                &&& !nan(cache[l].z[t])
                &&& l < net.len() - 1 ==> !nan(cache[l].a[t])
            },
        forall|n: int| 0 <= n < net[net.len() - 1].a.len() ==> nan(#[trigger] cache[net.len() - 1].a[n]),
{
    assert forall|l: int, f: int, t: int| #[trigger] has_edge(net, l, f, t) implies {
        &&& !nan(cache[l].w[f][t])
        &&& !nan(cache[l].b[f][t])
        &&& !nan(cache[l].z[t])
        &&& l < net.len() - 1 ==> !nan(cache[l].a[t])
    } by {
        assert(edge_complete(c, net, target, cache, l, f, t));
    }
    assert forall|n: int| 0 <= n < net[net.len() - 1].a.len() implies nan(#[trigger] cache[net.len() - 1].a[n]) by {
        assert(cache[net.len() - 1].a.len() == net[net.len() - 1].a.len());
        assert(cache[net.len() - 1].a[n] == NAN);
    }
}

} // verus!
