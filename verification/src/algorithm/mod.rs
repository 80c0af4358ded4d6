//! Initialisation, forward propagation and training.
pub mod func;
pub mod forward;
pub mod derivative;
pub mod memo;
pub mod backward;
pub mod driver;

pub use crate::algorithm::forward::ForwardPropagation;
pub use crate::algorithm::backward::BackPropagation;
pub use crate::algorithm::driver::{train_network_back_propagation, test_network_forward_propagation};

use vstd::prelude::*;
use crate::network::{Network, LayerView, well_formed, same_shape, has_edge, layer_shaped, edge_at, edges_before,
    edge_total, edge_place, lemma_edges_before, lemma_edge_place, lemma_same_shape_transitive,
    lemma_edge_enumeration_complete, lemma_edge_position};
use crate::algorithm::func::{activation_step, activation_step_d, step, step_slope};

verus! {

/// The activations and weighted sums of `y` are those of `x`.
pub open spec fn nodes_kept(x: Seq<LayerView>, y: Seq<LayerView>) -> bool {
    &&& x.len() == y.len()
    &&& forall|i: int| 0 <= i < x.len() ==> (#[trigger] y[i]).a == x[i].a && y[i].z == x[i].z
}

/// The weights and biases of `y` are those of `x`.
pub open spec fn edges_kept(x: Seq<LayerView>, y: Seq<LayerView>) -> bool {
    &&& x.len() == y.len()
    &&& forall|i: int| 0 <= i < x.len() ==> (#[trigger] y[i]).w == x[i].w && y[i].b == x[i].b
}

/// The weight and the bias of the edge are results of the generator.
pub open spec fn edge_generated<G: FnMut() -> u32>(net: Seq<LayerView>, g: G, l: int, f: int, t: int) -> bool {
    call_ensures(g, (), net[l].w[f][t]) && call_ensures(g, (), net[l].b[f][t])
}

/// Every weight and every bias of the network is a result of the generator.
pub open spec fn generated<G: FnMut() -> u32>(net: Seq<LayerView>, g: G) -> bool {
    forall|l: int, f: int, t: int| has_edge(net, l, f, t) ==> #[trigger] edge_generated(net, g, l, f, t)
}

/// Every weight and every bias of the network is `val`.
pub open spec fn filled_with(net: Seq<LayerView>, val: u32) -> bool {
    forall|l: int, f: int, t: int| #[trigger]
        has_edge(net, l, f, t) ==> net[l].w[f][t] == val && net[l].b[f][t] == val
}

/// Initializes the network with a provided generator: every edge gets a
/// weight, then a bias, each from one call. The edges are visited layer by
/// layer and, inside a layer, in the order of the walk over its edges.
pub fn network_init_with_generator<G: FnMut() -> u32>(net: &mut Network, generator: &mut G)
    requires
        well_formed(old(net)@),
        call_requires(*old(generator), ()),
    ensures
        well_formed(final(net)@),
        same_shape(old(net)@, final(net)@),
        nodes_kept(old(net)@, final(net)@),
        generated(final(net)@, *old(generator)),
{
    let ghost g = *generator;
    let mut ilayer: usize = 1;
    while ilayer < net.n_layers()
        invariant
            1 <= ilayer,
            well_formed(net@),
            same_shape(old(net)@, net@),
            nodes_kept(old(net)@, net@),
            *generator == g,
            call_requires(g, ()),
            forall|l: int, f: int, t: int|
                has_edge(net@, l, f, t) && l < ilayer ==> #[trigger] edge_generated(net@, g, l, f, t),
        decreases net@.len() - ilayer,
    {
        let ghost len_from = net@[ilayer - 1].a.len() as int;
        let ghost len_to = net@[ilayer as int].a.len() as int;
        let mut edges = net.edge_index_iter(ilayer);
        proof {
            lemma_edge_enumeration_complete(len_from, len_to);
        }
        loop
            invariant_except_break
                0 <= edges.position() <= edges.count(),
            invariant
                1 <= ilayer < net@.len(),
                edges.wf(),
                edges.len_from() == len_from,
                edges.len_to() == len_to,
                len_from == net@[ilayer - 1].a.len(),
                len_to == net@[ilayer as int].a.len(),
                well_formed(net@),
                same_shape(old(net)@, net@),
                nodes_kept(old(net)@, net@),
                *generator == g,
                call_requires(g, ()),
                forall|k: int|
                    0 <= k < len_from * len_to ==> {
                        &&& 0 <= (#[trigger] edge_at(len_to, k)).0 < len_from
                        &&& 0 <= edge_at(len_to, k).1 < len_to
                    },
                forall|l: int, f: int, t: int|
                    has_edge(net@, l, f, t) && (l < ilayer || (l == ilayer && f * len_to + t < edges.position()))
                        ==> #[trigger] edge_generated(net@, g, l, f, t),
            ensures
                forall|l: int, f: int, t: int|
                    has_edge(net@, l, f, t) && l <= ilayer ==> #[trigger] edge_generated(net@, g, l, f, t),
            decreases edges.count() - edges.position(),
        {
            let ghost before = net@;
            let ghost place = edges.position();
            match edges.next() {
                None => {
                    proof {
                        assert forall|l: int, f: int, t: int| has_edge(net@, l, f, t) && l <= ilayer implies #[trigger] edge_generated(
                            net@,
                            g,
                            l,
                            f,
                            t,
                        ) by {
                            if l == ilayer {
                                lemma_edge_position(len_from, len_to, f, t);
                            }
                        }
                    }
                    break ;
                },
                Some((ifrom, ito)) => {
                    proof {
                        assert((ifrom as int, ito as int) == edge_at(len_to, place));
                    }
                    let w = generator();
                    net.set_w(ilayer, ifrom, ito, w);
                    let ghost between = net@;
                    let b = generator();
                    net.set_b(ilayer, ifrom, ito, b);
                    proof {
                        assert(layer_shaped(before, ilayer as int));
                        assert(layer_shaped(between, ilayer as int));
                        assert forall|l: int, f: int, t: int|
                            has_edge(net@, l, f, t) && (l < ilayer || (l == ilayer && f * len_to + t < place + 1))
                            implies #[trigger] edge_generated(net@, g, l, f, t) by {
                            if l == ilayer {
                                lemma_edge_position(len_from, len_to, f, t);
                            }
                            if l == ilayer && f == ifrom && t == ito {
                            } else {
                                assert(has_edge(before, l, f, t));
                                assert(edge_generated(before, g, l, f, t));
                                assert(layer_shaped(before, l));
                                assert(net@[l].w[f][t] == before[l].w[f][t]);
                                assert(net@[l].b[f][t] == before[l].b[f][t]);
                            }
                        }
                        assert(same_shape(old(net)@, net@));
                    }
                },
            }
        }
        ilayer += 1;
    }
}

/// Every edge holds the two values at its place: the edge at place `k` of
/// the walk over all edges has the weight `values[2 * k]` and the bias
/// `values[2 * k + 1]`.
pub open spec fn filled_from(net: Seq<LayerView>, values: Seq<u32>) -> bool {
    forall|l: int, f: int, t: int| #[trigger]
        has_edge(net, l, f, t) ==> net[l].w[f][t] == values[2 * edge_place(net, l, f, t)] && net[l].b[f][t]
            == values[2 * edge_place(net, l, f, t) + 1]
}

/// Initializes the network with the given values, two for each edge: the
/// edges are visited layer by layer and, inside a layer, source by source,
/// and each takes the next value as its weight and the one after as its
/// bias.
pub fn network_init_with_values(net: &mut Network, values: &Vec<u32>)
    requires
        well_formed(old(net)@),
        values@.len() == 2 * edge_total(old(net)@),
    ensures
        well_formed(final(net)@),
        same_shape(old(net)@, final(net)@),
        nodes_kept(old(net)@, final(net)@),
        filled_from(final(net)@, values@),
{
    let ghost net0 = net@;
    let mut next: usize = 0;
    let mut ilayer: usize = 1;
    proof {
        lemma_same_shape_transitive(net0, net0, net0);
    }
    while ilayer < net.n_layers()
        invariant
            1 <= ilayer,
            well_formed(net0),
            well_formed(net@),
            same_shape(net0, net@),
            nodes_kept(net0, net@),
            values@.len() == 2 * edge_total(net0),
            ilayer <= net0.len() ==> next == 2 * edges_before(net0, ilayer as int),
            forall|l: int, f: int, t: int|
                has_edge(net0, l, f, t) && l < ilayer ==> #[trigger] edge_filled(net0, net@, values@, l, f, t),
        decreases net@.len() - ilayer,
    {
        let ghost len_from = net0[ilayer - 1].a.len() as int;
        let ghost len_to = net0[ilayer as int].a.len() as int;
        let mut edges = net.edge_index_iter(ilayer);
        proof {
            lemma_edge_enumeration_complete(len_from, len_to);
        }
        loop
            invariant_except_break
                0 <= edges.position() <= edges.count(),
                next == 2 * (edges_before(net0, ilayer as int) + edges.position()),
            invariant
                1 <= ilayer < net0.len(),
                edges.wf(),
                edges.len_from() == len_from,
                edges.len_to() == len_to,
                len_from == net0[ilayer - 1].a.len(),
                len_to == net0[ilayer as int].a.len(),
                well_formed(net0),
                well_formed(net@),
                same_shape(net0, net@),
                nodes_kept(net0, net@),
                values@.len() == 2 * edge_total(net0),
                forall|k: int|
                    0 <= k < len_from * len_to ==> {
                        &&& 0 <= (#[trigger] edge_at(len_to, k)).0 < len_from
                        &&& 0 <= edge_at(len_to, k).1 < len_to
                        &&& edge_at(len_to, k).0 * len_to + edge_at(len_to, k).1 == k
                    },
                forall|l: int, f: int, t: int|
                    has_edge(net0, l, f, t) && (l < ilayer || (l == ilayer && f * len_to + t < edges.position()))
                        ==> #[trigger] edge_filled(net0, net@, values@, l, f, t),
            ensures
                next == 2 * edges_before(net0, ilayer + 1),
                forall|l: int, f: int, t: int|
                    has_edge(net0, l, f, t) && l <= ilayer ==> #[trigger] edge_filled(net0, net@, values@, l, f, t),
            decreases edges.count() - edges.position(),
        {
            let ghost before = net@;
            let ghost place = edges.position();
            match edges.next() {
                None => {
                    proof {
                        assert forall|l: int, f: int, t: int| has_edge(net0, l, f, t) && l <= ilayer implies #[trigger] edge_filled(
                            net0,
                            net@,
                            values@,
                            l,
                            f,
                            t,
                        ) by {
                            if l == ilayer {
                                lemma_edge_position(len_from, len_to, f, t);
                            }
                        }
                    }
                    break ;
                },
                Some((ifrom, ito)) => {
                    proof {
                        assert((ifrom as int, ito as int) == edge_at(len_to, place));
                        assert(ifrom * len_to + ito == place);
                        assert(has_edge(net0, ilayer as int, ifrom as int, ito as int));
                        lemma_edge_place(net0, ilayer as int, ifrom as int, ito as int);
                        assert(edge_place(net0, ilayer as int, ifrom as int, ito as int) == edges_before(
                            net0,
                            ilayer as int,
                        ) + place);
                    }
                    let w = values[next];
                    let b = values[next + 1];
                    net.set_w(ilayer, ifrom, ito, w);
                    let ghost between = net@;
                    net.set_b(ilayer, ifrom, ito, b);
                    proof {
                        assert(values.len() == values@.len());
                    }
                    next = next + 2;
                    proof {
                        assert(layer_shaped(before, ilayer as int));
                        assert(layer_shaped(between, ilayer as int));
                        lemma_same_shape_transitive(net0, before, between);
                        lemma_same_shape_transitive(net0, between, net@);
                        assert forall|l: int, f: int, t: int|
                            has_edge(net0, l, f, t) && (l < ilayer || (l == ilayer && f * len_to + t < place + 1))
                            implies #[trigger] edge_filled(net0, net@, values@, l, f, t) by {
                            if l == ilayer {
                                lemma_edge_position(len_from, len_to, f, t);
                            }
                            if l == ilayer && f == ifrom && t == ito {
                            } else {
                                assert(edge_filled(net0, before, values@, l, f, t));
                                assert(layer_shaped(before, l));
                                assert(net@[l].w[f][t] == before[l].w[f][t]);
                                assert(net@[l].b[f][t] == before[l].b[f][t]);
                            }
                        }
                    }
                },
            }
        }
        ilayer += 1;
    }
    proof {
        assert forall|l: int, f: int, t: int| #[trigger] has_edge(net@, l, f, t) implies net@[l].w[f][t] == values@[2
            * edge_place(net@, l, f, t)] && net@[l].b[f][t] == values@[2 * edge_place(net@, l, f, t) + 1] by {
            assert(has_edge(net0, l, f, t));
            assert(edge_filled(net0, net@, values@, l, f, t));
            lemma_edges_before(net0, net@, l, l);
        }
    }
}

/// The edge `(f, t)` of layer `l` holds in `net` the two values at its
/// place in a network of the shape of `shape`.
pub open spec fn edge_filled(shape: Seq<LayerView>, net: Seq<LayerView>, values: Seq<u32>, l: int, f: int, t: int) -> bool {
    &&& net[l].w[f][t] == values[2 * edge_place(shape, l, f, t)]
    &&& net[l].b[f][t] == values[2 * edge_place(shape, l, f, t) + 1]
}

/// Initializes every weight and every bias of a network with a constant
/// value.
pub fn network_init_with_value(net: &mut Network, val: u32)
    requires
        well_formed(old(net)@),
    ensures
        well_formed(final(net)@),
        same_shape(old(net)@, final(net)@),
        nodes_kept(old(net)@, final(net)@),
        filled_with(final(net)@, val),
{
    let mut generator = || -> (r: u32)
        ensures
            r == val,
    { val };
    let ghost g = generator;
    network_init_with_generator(net, &mut generator);
    proof {
        assert forall|l: int, f: int, t: int| #[trigger] has_edge(net@, l, f, t) implies net@[l].w[f][t] == val
            && net@[l].b[f][t] == val by {
            assert(edge_generated(net@, g, l, f, t));
        }
    }
}

/// The families of activation functions that the library brings along.
pub enum ActivationFunctionFamily {
    /// Zero below zero, the identity elsewhere.
    StepFunction,
}

/// An activation function together with its derivative.
pub struct ActivationProfile {
    family: ActivationFunctionFamily,
}

impl ActivationProfile {
    /// The family that the profile stands for.
    pub closed spec fn family(&self) -> ActivationFunctionFamily {
        self.family
    }

    /// The value of the activation function of a family at `z`.
    pub open spec fn activation(family: ActivationFunctionFamily, z: u32) -> u32 {
        match family {
            ActivationFunctionFamily::StepFunction => step(z),
        }
    }

    /// The value of the derivative of the activation function of a family at
    /// `z`.
    pub open spec fn activation_derivative(family: ActivationFunctionFamily, z: u32) -> u32 {
        match family {
            ActivationFunctionFamily::StepFunction => step_slope(z),
        }
    }

    /// The profile of the given family.
    pub fn new(activation_function_family: ActivationFunctionFamily) -> (profile: ActivationProfile)
        ensures
            profile.family() == activation_function_family,
    {
        ActivationProfile { family: activation_function_family }
    }

    /// The activation function of the profile.
    pub fn activation_function(&self, z: u32) -> (a: u32)
        ensures
            a == Self::activation(self.family(), z),
    {
        match self.family {
            ActivationFunctionFamily::StepFunction => activation_step(z),
        }
    }

    /// The derivative of the activation function of the profile.
    pub fn activation_function_derivative(&self, z: u32) -> (d: u32)
        ensures
            d == Self::activation_derivative(self.family(), z),
    {
        match self.family {
            ActivationFunctionFamily::StepFunction => activation_step_d(z),
        }
    }
}

} // verus!
