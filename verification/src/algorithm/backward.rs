//! Training by gradient descent: the partial derivatives of the cost by
//! every weight and bias, found by memoized recursion through the chain
//! rule, and the update that follows from them.
use vstd::prelude::*;
use crate::ieee::{NAN, ZERO, ONE, nan, is_nan};
use crate::network::{Network, LayerView, well_formed, same_shape, blank, layer_blank, has_edge, has_node,
    layer_shaped, geometry_of, edge_at, lemma_same_shape_well_formed, lemma_same_geometry_same_shape,
    lemma_edge_enumeration_complete, lemma_edge_position};
use crate::algorithm::nodes_kept;
use crate::algorithm::func::{Operation, rounds, compute, evaluate, evaluate2, arithmetic_total, unary_total,
    binary_total, arithmetic_relation, unary_relation, binary_relation};
use crate::algorithm::derivative::{Calculus, cost_by_sum, cost_by_activation, cost_by_activation_upto,
    cost_by_weight, cost_by_bias, descended, functional, lemma_cost_by_edge_unique};
use crate::algorithm::memo::{cache_sound, cache_advanced, cache_complete, layers_below_kept, node_complete, sum_slot_sound,
    activation_slot_sound, edge_slots_sound, edge_slots_advanced, edge_complete, lemma_blank_cache_sound,
    lemma_advanced_reflexive, lemma_advanced_transitive, lemma_node_complete_kept, lemma_edge_complete_kept,
    lemma_write_sum, lemma_write_activation, lemma_write_weight, lemma_write_bias};
use crate::ut::data::Signal;

verus! {

/// The weight and the bias of one edge are what they were.
pub open spec fn edge_kept(before: Seq<LayerView>, after: Seq<LayerView>, l: int, f: int, t: int) -> bool {
    after[l].w[f][t] == before[l].w[f][t] && after[l].b[f][t] == before[l].b[f][t]
}

/// The weight and the bias of one edge have moved against their gradients.
pub open spec fn edge_trained(
    ar: spec_fn(Operation, u32, u32, u32) -> bool,
    rate: u32,
    before: Seq<LayerView>,
    cache: Seq<LayerView>,
    after: Seq<LayerView>,
    l: int,
    f: int,
    t: int,
) -> bool {
    &&& descended(ar, before[l].w[f][t], cache[l].w[f][t], rate, after[l].w[f][t])
    &&& descended(ar, before[l].b[f][t], cache[l].b[f][t], rate, after[l].b[f][t])
}

/// `after` is `before` after one step of gradient descent with the
/// gradients that the cache holds: activations and weighted sums are kept,
/// and every weight and every bias has moved against its gradient.
pub open spec fn trained(
    ar: spec_fn(Operation, u32, u32, u32) -> bool,
    rate: u32,
    before: Seq<LayerView>,
    cache: Seq<LayerView>,
    after: Seq<LayerView>,
) -> bool {
    &&& same_shape(before, after)
    &&& nodes_kept(before, after)
    &&& forall|l: int, f: int, t: int|
        has_edge(before, l, f, t) ==> #[trigger] edge_trained(ar, rate, before, cache, after, l, f, t)
}

/// `after` is `before` after a backward pass towards `target`: some memo
/// table holds every gradient of `before`, and every weight and every bias
/// has moved against its gradient in that table.
pub open spec fn learned(
    c: Calculus,
    rate: u32,
    before: Seq<LayerView>,
    target: Seq<u32>,
    after: Seq<LayerView>,
) -> bool {
    exists|cache: Seq<LayerView>|
        cache_complete(c, before, target, cache) && (#[trigger] trained(c.arithmetic, rate, before, cache, after))
}

/// Training is deterministic: with capabilities that give one result per
/// input, two networks that both hold the outcome of a backward pass on the
/// same network towards the same desired output are the same network.
pub proof fn lemma_backward_deterministic(
    c: Calculus,
    rate: u32,
    before: Seq<LayerView>,
    target: Seq<u32>,
    x: Seq<LayerView>,
    y: Seq<LayerView>,
)
    requires
        functional(c),
        well_formed(before),
        learned(c, rate, before, target, x),
        learned(c, rate, before, target, y),
    ensures
        x == y,
{
    let cache_x = choose|cache: Seq<LayerView>|
        cache_complete(c, before, target, cache) && (#[trigger] trained(c.arithmetic, rate, before, cache, x));
    let cache_y = choose|cache: Seq<LayerView>|
        cache_complete(c, before, target, cache) && (#[trigger] trained(c.arithmetic, rate, before, cache, y));
    assert forall|l: int, f: int, t: int| has_edge(before, l, f, t) implies #[trigger] edge_kept(x, y, l, f, t) by {
        assert(edge_complete(c, before, target, cache_x, l, f, t));
        assert(edge_complete(c, before, target, cache_y, l, f, t));
        lemma_cost_by_edge_unique(c, before, target, l, f, t, cache_x[l].w[f][t], cache_y[l].w[f][t]);
        lemma_cost_by_edge_unique(c, before, target, l, f, t, cache_x[l].b[f][t], cache_y[l].b[f][t]);
        assert(edge_trained(c.arithmetic, rate, before, cache_x, x, l, f, t));
        assert(edge_trained(c.arithmetic, rate, before, cache_y, y, l, f, t));
        let (w, gw, b, gb) = (before[l].w[f][t], cache_x[l].w[f][t], before[l].b[f][t], cache_x[l].b[f][t]);
        let step_wx = choose|step: u32|
            rounds(c.arithmetic, Operation::Mul, gw, rate, step) && #[trigger] rounds(c.arithmetic, Operation::Sub, w, step, x[l].w[f][t]);
        let step_wy = choose|step: u32|
            rounds(c.arithmetic, Operation::Mul, gw, rate, step) && #[trigger] rounds(c.arithmetic, Operation::Sub, w, step, y[l].w[f][t]);
        assert(step_wx == step_wy);
        let step_bx = choose|step: u32|
            rounds(c.arithmetic, Operation::Mul, gb, rate, step) && #[trigger] rounds(c.arithmetic, Operation::Sub, b, step, x[l].b[f][t]);
        let step_by = choose|step: u32|
            rounds(c.arithmetic, Operation::Mul, gb, rate, step) && #[trigger] rounds(c.arithmetic, Operation::Sub, b, step, y[l].b[f][t]);
        assert(step_bx == step_by);
    }
    assert forall|l: int| 0 <= l < before.len() implies x[l] == y[l] by {
        assert(layer_shaped(before, l));
        assert(x[l].a == before[l].a && x[l].z == before[l].z);
        assert(y[l].a == before[l].a && y[l].z == before[l].z);
        assert(x[l].a.len() == before[l].a.len());
        assert(x[l].w.len() == y[l].w.len());
        assert forall|f: int| 0 <= f < x[l].w.len() implies x[l].w[f] == y[l].w[f] by {
            assert(x[l].w[f].len() == before[l].w[f].len());
            assert(y[l].w[f].len() == before[l].w[f].len());
            assert forall|t: int| 0 <= t < x[l].w[f].len() implies x[l].w[f][t] == y[l].w[f][t] by {
                assert(has_edge(before, l, f, t));
                assert(edge_kept(x, y, l, f, t));
            }
            assert(x[l].w[f] =~= y[l].w[f]);
        }
        assert(x[l].w =~= y[l].w);
        assert forall|f: int| 0 <= f < x[l].b.len() implies x[l].b[f] == y[l].b[f] by {
            assert(x[l].b[f].len() == before[l].b[f].len());
            assert(y[l].b[f].len() == before[l].b[f].len());
            assert forall|t: int| 0 <= t < x[l].b[f].len() implies x[l].b[f][t] == y[l].b[f][t] by {
                assert(has_edge(before, l, f, t));
                assert(edge_kept(x, y, l, f, t));
            }
            assert(x[l].b[f] =~= y[l].b[f]);
        }
        assert(x[l].b =~= y[l].b);
    }
    assert(x =~= y);
}

/// Training by back propagation: a cost derivative for the output layer,
/// the derivative of the activation function, an arithmetic, a learning
/// rate, and the memo table of one backward pass.
pub struct BackPropagation<Cd, Ad, Ar> {
    /// Cost function derivative for the output layer: (desired value,
    /// factual weighted sum).
    dcdz_output: Cd,
    /// Derivative of the activation function by the weighted sum.
    dadz: Ad,
    /// Sums, differences and products.
    arith: Ar,
    /// Intermediate results storage.
    net_cache: Network,
    /// Learning rate.
    epsilon: u32,
}

impl<Cd: Fn(u32, u32) -> u32, Ad: Fn(u32) -> u32, Ar: Fn(Operation, u32, u32) -> u32> BackPropagation<Cd, Ad, Ar> {
    /// The capabilities as relations.
    pub closed spec fn calculus(&self) -> Calculus {
        Calculus {
            cost_slope: binary_relation(self.dcdz_output),
            activation_slope: unary_relation(self.dadz),
            arithmetic: arithmetic_relation(self.arith),
        }
    }

    /// Every capability accepts every input.
    pub closed spec fn total(&self) -> bool {
        binary_total(self.dcdz_output) && unary_total(self.dadz) && arithmetic_total(self.arith)
    }

    /// The learning rate.
    pub closed spec fn rate(&self) -> u32 {
        self.epsilon
    }

    /// What the memo table holds.
    pub closed spec fn cache(&self) -> Seq<LayerView> {
        self.net_cache@
    }

    /// The same capabilities and learning rate as `other`.
    pub open spec fn same_setup(&self, other: &Self) -> bool {
        &&& self.calculus() == other.calculus()
        &&& self.total() == other.total()
        &&& self.rate() == other.rate()
    }

    /// Training for networks of the geometry of `net`, with an empty memo
    /// table.
    pub fn from_network(net: &Network, dcdz_output: Cd, dadz: Ad, arith: Ar, epsilon: u32) -> (bp: Self)
        ensures
            bp.calculus() == (Calculus {
                cost_slope: binary_relation(dcdz_output),
                activation_slope: unary_relation(dadz),
                arithmetic: arithmetic_relation(arith),
            }),
            bp.total() == (binary_total(dcdz_output) && unary_total(dadz) && arithmetic_total(arith)),
            bp.rate() == epsilon,
            well_formed(bp.cache()),
            geometry_of(bp.cache()) == geometry_of(net@),
            blank(bp.cache()),
    {
        let geometry = net.geometry();
        BackPropagation { dcdz_output, dadz, arith, net_cache: Network::from_geometry(&geometry), epsilon }
    }

    /// The memo table.
    pub fn net_cache(&self) -> (cache: &Network)
        ensures
            cache@ == self.cache(),
    {
        &self.net_cache
    }

    /// The derivative of the weighted sum of node `iz` on layer
    /// `ialayer + 1` by the activation of node `ia` on layer `ialayer`: the
    /// weight of the edge between them.
    pub fn dzda(&self, ialayer: usize, ia: usize, iz: usize, net: &Network) -> (d: u32)
        requires
            well_formed(net@),
            has_edge(net@, ialayer + 1, ia as int, iz as int),
        ensures
            d == net@[ialayer + 1].w[ia as int][iz as int],
    {
        proof {
            net.lemma_storable();
        }
        net.w(ialayer + 1, ia, iz)
    }

    /// The derivative of the weighted sum of node `ito` on layer `iwlayer`
    /// by the weight of the edge from `ifrom`: the activation of `ifrom`.
    pub fn dzdw(&self, iwlayer: usize, ifrom: usize, ito: usize, net: &Network) -> (d: u32)
        requires
            has_edge(net@, iwlayer as int, ifrom as int, ito as int),
        ensures
            d == net@[iwlayer - 1].a[ifrom as int],
    {
        net.a(iwlayer - 1, ifrom)
    }

    /// The derivative of a weighted sum by a bias: one.
    pub fn dzdb(&self) -> (d: u32)
        ensures
            d == ONE,
    {
        ONE
    }

    /// The partial derivative of the cost by the activation of node `ia` on
    /// layer `ialayer`, taken from the memo table or computed and noted
    /// there.
    pub fn dcda(&mut self, ialayer: usize, ia: usize, net: &Network, reference: &Signal) -> (ret: u32)
        requires
            old(self).total(),
            well_formed(net@),
            reference@.len() == net@[net@.len() - 1].a.len(),
            ialayer + 1 < net@.len(),
            has_node(net@, ialayer as int, ia as int),
            cache_sound(old(self).calculus(), net@, reference@, old(self).cache()),
        ensures
            final(self).same_setup(old(self)),
            cache_sound(old(self).calculus(), net@, reference@, final(self).cache()),
            cache_advanced(old(self).calculus(), net@, reference@, old(self).cache(), final(self).cache()),
            cost_by_activation(old(self).calculus(), net@, reference@, ialayer as int, ia as int, ret),
            final(self).cache()[ialayer as int].a[ia as int] == ret,
            !nan(old(self).cache()[ialayer as int].a[ia as int]) ==> ret == old(self).cache()[ialayer as int].a[ia as int]
                && final(self).cache() == old(self).cache(),
            layers_below_kept(old(self).cache(), final(self).cache(), ialayer as int),
        decreases net@.len() - ialayer, 0int,
    {
        let ghost c = self.calculus();
        let ghost start = self.cache();
        proof {
            net.lemma_storable();
            lemma_same_shape_well_formed(net@, start);
            lemma_advanced_reflexive(c, net@, reference@, start);
            assert(activation_slot_sound(c, net@, reference@, start, ialayer as int, ia as int));
        }
        let mut ret = self.net_cache.a(ialayer, ia);
        if is_nan(ret) {
            ret = ZERO;
            let len = net.layer_len(ialayer + 1);
            let mut iz: usize = 0;
            while iz < len
                invariant
                    self.same_setup(old(self)),
                    self.total(),
                    c == self.calculus(),
                    well_formed(net@),
                    reference@.len() == net@[net@.len() - 1].a.len(),
                    ialayer + 1 < net@.len(),
                    ialayer < usize::MAX,
                    has_node(net@, ialayer as int, ia as int),
                    len == net@[ialayer + 1].a.len(),
                    iz <= len,
                    cache_sound(c, net@, reference@, self.cache()),
                    cache_advanced(c, net@, reference@, start, self.cache()),
                    layers_below_kept(start, self.cache(), ialayer + 1),
                    cost_by_activation_upto(c, net@, reference@, ialayer as int, ia as int, iz as nat, ret),
                decreases len - iz,
            {
                let ghost before = self.cache();
                let dcdz = self.dcdz(ialayer + 1, iz, net, reference);
                let dzda = self.dzda(ialayer, ia, iz, net);
                let m = compute(&self.arith, Operation::Mul, dcdz, dzda);
                let next = compute(&self.arith, Operation::Add, ret, m);
                proof {
                    lemma_advanced_transitive(c, net@, reference@, start, before, self.cache());
                    let l = ialayer as int;
                    let n = ia as int;
                    let k = (iz + 1) as nat;
                    assert((k - 1) as nat == iz as nat);
                    assert(cost_by_activation_upto(c, net@, reference@, l, n, (k - 1) as nat, ret));
                    assert(cost_by_sum(c, net@, reference@, l + 1, k - 1, dcdz));
                    assert(rounds(c.arithmetic, Operation::Mul, dcdz, net@[l + 1].w[n][k - 1], m));
                    assert(rounds(c.arithmetic, Operation::Add, ret, m, next));
                    assert(cost_by_activation_upto(
                        c,
                        net@,
                        reference@,
                        ialayer as int,
                        ia as int,
                        (iz + 1) as nat,
                        next,
                    ));
                }
                ret = next;
                iz += 1;
            }
        }
        let ghost before = self.cache();
        proof {
            lemma_same_shape_well_formed(net@, before);
        }
        self.net_cache.set_a(ialayer, ia, ret);
        proof {
            lemma_write_activation(c, net@, reference@, before, ialayer as int, ia as int, ret);
            lemma_advanced_transitive(c, net@, reference@, start, before, self.cache());
            if !nan(start[ialayer as int].a[ia as int]) {
                assert(before == start);
                assert(start[ialayer as int].a.update(ia as int, ret) =~= start[ialayer as int].a);
                assert(self.cache() =~= start);
            }
        }
        ret
    }

    /// The partial derivative of the cost by the weighted sum of node `iz`
    /// on layer `izlayer`, taken from the memo table or computed and noted
    /// there.
    pub fn dcdz(&mut self, izlayer: usize, iz: usize, net: &Network, reference: &Signal) -> (ret: u32)
        requires
            old(self).total(),
            well_formed(net@),
            reference@.len() == net@[net@.len() - 1].a.len(),
            1 <= izlayer,
            has_node(net@, izlayer as int, iz as int),
            cache_sound(old(self).calculus(), net@, reference@, old(self).cache()),
        ensures
            final(self).same_setup(old(self)),
            cache_sound(old(self).calculus(), net@, reference@, final(self).cache()),
            cache_advanced(old(self).calculus(), net@, reference@, old(self).cache(), final(self).cache()),
            cost_by_sum(old(self).calculus(), net@, reference@, izlayer as int, iz as int, ret),
            node_complete(old(self).calculus(), net@, reference@, final(self).cache(), izlayer as int, iz as int),
            final(self).cache()[izlayer as int].z[iz as int] == ret,
            !nan(old(self).cache()[izlayer as int].z[iz as int]) ==> ret == old(self).cache()[izlayer as int].z[iz as int]
                && final(self).cache() == old(self).cache(),
            layers_below_kept(old(self).cache(), final(self).cache(), izlayer as int),
        decreases net@.len() - izlayer, 1int,
    {
        let ghost c = self.calculus();
        let ghost start = self.cache();
        proof {
            lemma_same_shape_well_formed(net@, start);
            lemma_advanced_reflexive(c, net@, reference@, start);
            assert(sum_slot_sound(c, net@, reference@, start, izlayer as int, iz as int));
            assert(layer_shaped(net@, izlayer as int));
        }
        let mut ret = self.net_cache.z(izlayer, iz);
        if is_nan(ret) {
            let z = net.z(izlayer, iz);
            if izlayer == net.n_layers() - 1 {
                let ref_z = reference[iz];
                ret = evaluate2(&self.dcdz_output, ref_z, z);
            } else {
                let dcda = self.dcda(izlayer, iz, net, reference);
                let dadz = evaluate(&self.dadz, z);
                ret = compute(&self.arith, Operation::Mul, dcda, dadz);
                proof {
                    assert(rounds(c.arithmetic, Operation::Mul, dcda, dadz, ret));
                    assert(cost_by_sum(c, net@, reference@, izlayer as int, iz as int, ret));
                }
            }
        }
        let ghost before = self.cache();
        proof {
            lemma_same_shape_well_formed(net@, before);
        }
        self.net_cache.set_z(izlayer, iz, ret);
        proof {
            lemma_write_sum(c, net@, reference@, before, izlayer as int, iz as int, ret);
            lemma_advanced_transitive(c, net@, reference@, start, before, self.cache());
            if !nan(start[izlayer as int].z[iz as int]) {
                assert(before == start);
                assert(start[izlayer as int].z.update(iz as int, ret) =~= start[izlayer as int].z);
                assert(self.cache() =~= start);
            }
        }
        ret
    }

    /// The partial derivative of the cost by the weight of the edge
    /// `(ifrom, ito)` of layer `ilayer`, taken from the memo table or
    /// computed and noted there.
    pub fn dcdw(&mut self, ilayer: usize, ifrom: usize, ito: usize, net: &Network, reference: &Signal) -> (ret: u32)
        requires
            old(self).total(),
            well_formed(net@),
            reference@.len() == net@[net@.len() - 1].a.len(),
            has_edge(net@, ilayer as int, ifrom as int, ito as int),
            cache_sound(old(self).calculus(), net@, reference@, old(self).cache()),
        ensures
            final(self).same_setup(old(self)),
            cache_sound(old(self).calculus(), net@, reference@, final(self).cache()),
            cache_advanced(old(self).calculus(), net@, reference@, old(self).cache(), final(self).cache()),
            cost_by_weight(old(self).calculus(), net@, reference@, ilayer as int, ifrom as int, ito as int, ret),
            node_complete(old(self).calculus(), net@, reference@, final(self).cache(), ilayer as int, ito as int),
            final(self).cache()[ilayer as int].w[ifrom as int][ito as int] == ret,
            !nan(old(self).cache()[ilayer as int].w[ifrom as int][ito as int]) ==> ret == old(self).cache()[ilayer
                as int].w[ifrom as int][ito as int] && final(self).cache() == old(self).cache(),
            layers_below_kept(old(self).cache(), final(self).cache(), ilayer as int),
    {
        let ghost c = self.calculus();
        let ghost start = self.cache();
        proof {
            lemma_same_shape_well_formed(net@, start);
            lemma_advanced_reflexive(c, net@, reference@, start);
            assert(edge_slots_sound(c, net@, reference@, start, ilayer as int, ifrom as int, ito as int));
        }
        let mut ret = self.net_cache.w(ilayer, ifrom, ito);
        if is_nan(ret) {
            let dcdz = self.dcdz(ilayer, ito, net, reference);
            let dzdw = self.dzdw(ilayer, ifrom, ito, net);
            ret = compute(&self.arith, Operation::Mul, dcdz, dzdw);
            let ghost before = self.cache();
            proof {
                lemma_same_shape_well_formed(net@, before);
                assert(rounds(c.arithmetic, Operation::Mul, dcdz, net@[ilayer - 1].a[ifrom as int], ret));
            }
            self.net_cache.set_w(ilayer, ifrom, ito, ret);
            proof {
                assert(layer_shaped(before, ilayer as int));
                assert(before[ilayer as int].w[ifrom as int].len() == before[ilayer as int].a.len());
                lemma_write_weight(c, net@, reference@, before, ilayer as int, ifrom as int, ito as int, ret);
                lemma_advanced_transitive(c, net@, reference@, start, before, self.cache());
                lemma_node_complete_kept(c, net@, reference@, before, self.cache(), ilayer as int, ito as int);
            }
        }
        ret
    }

    /// The partial derivative of the cost by the bias of the edge
    /// `(ifrom, ito)` of layer `ilayer`, taken from the memo table or
    /// computed and noted there.
    pub fn dcdb(&mut self, ilayer: usize, ifrom: usize, ito: usize, net: &Network, reference: &Signal) -> (ret: u32)
        requires
            old(self).total(),
            well_formed(net@),
            reference@.len() == net@[net@.len() - 1].a.len(),
            has_edge(net@, ilayer as int, ifrom as int, ito as int),
            cache_sound(old(self).calculus(), net@, reference@, old(self).cache()),
        ensures
            final(self).same_setup(old(self)),
            cache_sound(old(self).calculus(), net@, reference@, final(self).cache()),
            cache_advanced(old(self).calculus(), net@, reference@, old(self).cache(), final(self).cache()),
            cost_by_bias(old(self).calculus(), net@, reference@, ilayer as int, ifrom as int, ito as int, ret),
            node_complete(old(self).calculus(), net@, reference@, final(self).cache(), ilayer as int, ito as int),
            final(self).cache()[ilayer as int].b[ifrom as int][ito as int] == ret,
            !nan(old(self).cache()[ilayer as int].b[ifrom as int][ito as int]) ==> ret == old(self).cache()[ilayer
                as int].b[ifrom as int][ito as int] && final(self).cache() == old(self).cache(),
            layers_below_kept(old(self).cache(), final(self).cache(), ilayer as int),
    {
        let ghost c = self.calculus();
        let ghost start = self.cache();
        proof {
            lemma_same_shape_well_formed(net@, start);
            lemma_advanced_reflexive(c, net@, reference@, start);
            assert(edge_slots_sound(c, net@, reference@, start, ilayer as int, ifrom as int, ito as int));
        }
        let mut ret = self.net_cache.b(ilayer, ifrom, ito);
        if is_nan(ret) {
            let dcdz = self.dcdz(ilayer, ito, net, reference);
            let dzdb = self.dzdb();
            ret = compute(&self.arith, Operation::Mul, dcdz, dzdb);
            let ghost before = self.cache();
            proof {
                lemma_same_shape_well_formed(net@, before);
                assert(rounds(c.arithmetic, Operation::Mul, dcdz, ONE, ret));
            }
            self.net_cache.set_b(ilayer, ifrom, ito, ret);
            proof {
                assert(layer_shaped(before, ilayer as int));
                assert(before[ilayer as int].b[ifrom as int].len() == before[ilayer as int].a.len());
                lemma_write_bias(c, net@, reference@, before, ilayer as int, ifrom as int, ito as int, ret);
                lemma_advanced_transitive(c, net@, reference@, start, before, self.cache());
                lemma_node_complete_kept(c, net@, reference@, before, self.cache(), ilayer as int, ito as int);
            }
        }
        ret
    }

    /// Trains the network on one example: `reference` is the desired output
    /// for the input that the network was last run on.
    ///
    /// The memo table is emptied, every gradient is computed against the
    /// network as it is handed in, and then every weight and every bias
    /// moves against its gradient by the learning rate.
    pub fn run(&mut self, net: &mut Network, reference: &Signal)
        requires
            old(self).total(),
            well_formed(old(net)@),
            old(net)@.len() > 0,
            reference@.len() == old(net)@[old(net)@.len() - 1].a.len(),
            well_formed(old(self).cache()),
            geometry_of(old(self).cache()) == geometry_of(old(net)@),
        ensures
            final(self).same_setup(old(self)),
            well_formed(final(self).cache()),
            geometry_of(final(self).cache()) == geometry_of(old(net)@),
            cache_sound(old(self).calculus(), old(net)@, reference@, final(self).cache()),
            cache_complete(old(self).calculus(), old(net)@, reference@, final(self).cache()),
            well_formed(final(net)@),
            trained(old(self).calculus().arithmetic, old(self).rate(), old(net)@, final(self).cache(), final(net)@),
            learned(old(self).calculus(), old(self).rate(), old(net)@, reference@, final(net)@),
    {
        let ghost c = self.calculus();
        let ghost net0 = net@;
        let ghost target = reference@;
        self.net_cache.reset();
        proof {
            lemma_same_shape_well_formed(old(self).cache(), self.cache());
            lemma_same_geometry_same_shape(net0, self.cache());
            lemma_blank_cache_sound(c, net0, target, self.cache());
        }
        let ghost empty = self.cache();
        let n_layers = net.n_layers();
        let mut ilayer: usize = n_layers - 1;
        while ilayer >= 1
            invariant
                self.same_setup(old(self)),
                self.total(),
                c == self.calculus(),
                net@ == net0,
                target == reference@,
                well_formed(net0),
                n_layers == net0.len(),
                ilayer < n_layers,
                target.len() == net0[net0.len() - 1].a.len(),
                cache_sound(c, net0, target, self.cache()),
                layers_below_kept(empty, self.cache(), 1),
                forall|l: int, f: int, t: int|
                    has_edge(net0, l, f, t) && l > ilayer ==> #[trigger] edge_complete(
                        c,
                        net0,
                        target,
                        self.cache(),
                        l,
                        f,
                        t,
                    ),
            decreases ilayer,
        {
            let ghost len_from = net0[ilayer - 1].a.len() as int;
            let ghost len_to = net0[ilayer as int].a.len() as int;
            let mut edges = net.edge_index_iter(ilayer);
            proof {
                lemma_edge_enumeration_complete(len_from, len_to);
            }
            loop
                invariant_except_break
                    0 <= edges.position() <= edges.count(),
                invariant
                    self.same_setup(old(self)),
                    self.total(),
                    c == self.calculus(),
                    net@ == net0,
                    target == reference@,
                    well_formed(net0),
                    1 <= ilayer < net0.len(),
                    edges.wf(),
                    edges.len_from() == len_from,
                    edges.len_to() == len_to,
                    len_from == net0[ilayer - 1].a.len(),
                    len_to == net0[ilayer as int].a.len(),
                    target.len() == net0[net0.len() - 1].a.len(),
                    cache_sound(c, net0, target, self.cache()),
                    layers_below_kept(empty, self.cache(), 1),
                    forall|k: int|
                        0 <= k < len_from * len_to ==> {
                            &&& 0 <= (#[trigger] edge_at(len_to, k)).0 < len_from
                            &&& 0 <= edge_at(len_to, k).1 < len_to
                        },
                    forall|l: int, f: int, t: int|
                        has_edge(net0, l, f, t) && (l > ilayer || (l == ilayer && f * len_to + t < edges.position()))
                            ==> #[trigger] edge_complete(c, net0, target, self.cache(), l, f, t),
                ensures
                    forall|l: int, f: int, t: int|
                        has_edge(net0, l, f, t) && l >= ilayer ==> #[trigger] edge_complete(
                            c,
                            net0,
                            target,
                            self.cache(),
                            l,
                            f,
                            t,
                        ),
                decreases edges.count() - edges.position(),
            {
                let ghost before = self.cache();
                let ghost place = edges.position();
                match edges.next() {
                    None => {
                        proof {
                            assert forall|l: int, f: int, t: int|
                                has_edge(net0, l, f, t) && l >= ilayer implies #[trigger] edge_complete(
                                c,
                                net0,
                                target,
                                before,
                                l,
                                f,
                                t,
                            ) by {
                                if l == ilayer {
                                    lemma_edge_position(len_from, len_to, f, t);
                                }
                            }
                        }
                        break ;
                    },
                    Some((ifrom, ito)) => {
                        proof {
                            assert((ifrom as int, ito as int) == edge_at(len_to, place));
                        }
                        let _ = self.dcdw(ilayer, ifrom, ito, net, reference);
                        let ghost between = self.cache();
                        let _ = self.dcdb(ilayer, ifrom, ito, net, reference);
                        proof {
                            let after = self.cache();
                            lemma_advanced_transitive(c, net0, target, before, between, after);
                            assert(edge_slots_advanced(
                                c,
                                net0,
                                target,
                                between,
                                after,
                                ilayer as int,
                                ifrom as int,
                                ito as int,
                            ));
                            assert forall|l: int, f: int, t: int|
                                has_edge(net0, l, f, t) && (l > ilayer || (l == ilayer && f * len_to + t < place
                                    + 1)) implies #[trigger] edge_complete(c, net0, target, after, l, f, t) by {
                                if l == ilayer {
                                    lemma_edge_position(len_from, len_to, f, t);
                                }
                                if l == ilayer && f == ifrom && t == ito {
                                } else {
                                    lemma_edge_complete_kept(c, net0, target, before, after, l, f, t);
                                }
                            }
                        }
                    },
                }
            }
            ilayer -= 1;
        }
        let ghost cache = self.cache();
        proof {
            lemma_same_shape_well_formed(net0, cache);
            assert forall|n: int| 0 <= n < cache[net0.len() - 1].a.len() implies #[trigger] cache[net0.len() - 1].a[n]
                == NAN by {
                assert(activation_slot_sound(c, net0, target, cache, net0.len() - 1, n));
            }
            assert forall|n: int| 0 <= n < cache[0].a.len() implies #[trigger] cache[0].a[n] == NAN by {
                if net0.len() > 1 {
                    assert(cache[0] == empty[0]);
                    assert(layer_blank(empty[0]));
                } else {
                    assert(activation_slot_sound(c, net0, target, cache, 0, n));
                }
            }
        }
        let mut ilayer: usize = n_layers - 1;
        while ilayer >= 1
            invariant
                self.same_setup(old(self)),
                self.total(),
                c == self.calculus(),
                cache == self.cache(),
                well_formed(cache),
                same_shape(net0, cache),
                well_formed(net0),
                well_formed(net@),
                same_shape(net0, net@),
                nodes_kept(net0, net@),
                n_layers == net0.len(),
                ilayer < n_layers,
                forall|l: int, f: int, t: int|
                    has_edge(net0, l, f, t) && l > ilayer ==> #[trigger] edge_trained(
                        c.arithmetic,
                        self.rate(),
                        net0,
                        cache,
                        net@,
                        l,
                        f,
                        t,
                    ),
                forall|l: int, f: int, t: int|
                    has_edge(net0, l, f, t) && l <= ilayer ==> #[trigger] edge_kept(net0, net@, l, f, t),
            decreases ilayer,
        {
            let ghost len_from = net0[ilayer - 1].a.len() as int;
            let ghost len_to = net0[ilayer as int].a.len() as int;
            let mut edges = net.edge_index_iter(ilayer);
            proof {
                lemma_edge_enumeration_complete(len_from, len_to);
            }
            loop
                invariant_except_break
                    0 <= edges.position() <= edges.count(),
                invariant
                    self.same_setup(old(self)),
                    self.total(),
                    c == self.calculus(),
                    cache == self.cache(),
                    well_formed(cache),
                    same_shape(net0, cache),
                    well_formed(net0),
                    well_formed(net@),
                    same_shape(net0, net@),
                    nodes_kept(net0, net@),
                    1 <= ilayer < net0.len(),
                    edges.wf(),
                    edges.len_from() == len_from,
                    edges.len_to() == len_to,
                    len_from == net0[ilayer - 1].a.len(),
                    len_to == net0[ilayer as int].a.len(),
                    forall|k: int|
                        0 <= k < len_from * len_to ==> {
                            &&& 0 <= (#[trigger] edge_at(len_to, k)).0 < len_from
                            &&& 0 <= edge_at(len_to, k).1 < len_to
                            &&& edge_at(len_to, k).0 * len_to + edge_at(len_to, k).1 == k
                        },
                    forall|l: int, f: int, t: int|
                        has_edge(net0, l, f, t) && (l > ilayer || (l == ilayer && f * len_to + t < edges.position()))
                            ==> #[trigger] edge_trained(c.arithmetic, self.rate(), net0, cache, net@, l, f, t),
                    forall|l: int, f: int, t: int|
                        has_edge(net0, l, f, t) && !(l > ilayer || (l == ilayer && f * len_to + t
                            < edges.position())) ==> #[trigger] edge_kept(net0, net@, l, f, t),
                ensures
                    forall|l: int, f: int, t: int|
                        has_edge(net0, l, f, t) && l >= ilayer ==> #[trigger] edge_trained(
                            c.arithmetic,
                            self.rate(),
                            net0,
                            cache,
                            net@,
                            l,
                            f,
                            t,
                        ),
                    forall|l: int, f: int, t: int|
                        has_edge(net0, l, f, t) && l < ilayer ==> #[trigger] edge_kept(net0, net@, l, f, t),
                decreases edges.count() - edges.position(),
            {
                let ghost before = net@;
                let ghost place = edges.position();
                match edges.next() {
                    None => {
                        proof {
                            assert forall|l: int, f: int, t: int|
                                has_edge(net0, l, f, t) && l >= ilayer implies #[trigger] edge_trained(
                                c.arithmetic,
                                self.rate(),
                                net0,
                                cache,
                                before,
                                l,
                                f,
                                t,
                            ) by {
                                if l == ilayer {
                                    lemma_edge_position(len_from, len_to, f, t);
                                }
                            }
                        }
                        break ;
                    },
                    Some((ifrom, ito)) => {
                        proof {
                            assert((ifrom as int, ito as int) == edge_at(len_to, place));
                            assert(ifrom * len_to + ito == place);
                            assert(has_edge(net0, ilayer as int, ifrom as int, ito as int));
                            assert(edge_kept(net0, before, ilayer as int, ifrom as int, ito as int));
                        }
                        let dcdw = self.net_cache.w(ilayer, ifrom, ito);
                        let step_w = compute(&self.arith, Operation::Mul, dcdw, self.epsilon);
                        let w = compute(&self.arith, Operation::Sub, net.w(ilayer, ifrom, ito), step_w);
                        net.set_w(ilayer, ifrom, ito, w);
                        let ghost between = net@;
                        let dcdb = self.net_cache.b(ilayer, ifrom, ito);
                        let step_b = compute(&self.arith, Operation::Mul, dcdb, self.epsilon);
                        let b = compute(&self.arith, Operation::Sub, net.b(ilayer, ifrom, ito), step_b);
                        net.set_b(ilayer, ifrom, ito, b);
                        proof {
                            let after = net@;
                            let rate = self.rate();
                            assert(layer_shaped(before, ilayer as int));
                            assert(layer_shaped(between, ilayer as int));
                            assert(before[ilayer as int].w[ifrom as int].len() == len_to);
                            assert(between[ilayer as int].b[ifrom as int].len() == len_to);
                            assert(rounds(c.arithmetic, Operation::Mul, dcdw, rate, step_w));
                            assert(rounds(c.arithmetic, Operation::Mul, dcdb, rate, step_b));
                            assert(edge_trained(
                                c.arithmetic,
                                rate,
                                net0,
                                cache,
                                after,
                                ilayer as int,
                                ifrom as int,
                                ito as int,
                            ));
                            assert(same_shape(net0, after));
                            assert forall|l: int, f: int, t: int|
                                has_edge(net0, l, f, t) && (l > ilayer || (l == ilayer && f * len_to + t < place
                                    + 1)) implies #[trigger] edge_trained(
                                c.arithmetic,
                                rate,
                                net0,
                                cache,
                                after,
                                l,
                                f,
                                t,
                            ) by {
                                if l == ilayer {
                                    lemma_edge_position(len_from, len_to, f, t);
                                }
                                if l == ilayer && f == ifrom && t == ito {
                                } else {
                                    assert(edge_trained(c.arithmetic, rate, net0, cache, before, l, f, t));
                                    assert(layer_shaped(before, l));
                                    assert(after[l].w[f][t] == before[l].w[f][t]);
                                    assert(after[l].b[f][t] == before[l].b[f][t]);
                                }
                            }
                            assert forall|l: int, f: int, t: int|
                                has_edge(net0, l, f, t) && !(l > ilayer || (l == ilayer && f * len_to + t < place
                                    + 1)) implies #[trigger] edge_kept(net0, after, l, f, t) by {
                                assert(edge_kept(net0, before, l, f, t));
                                assert(layer_shaped(before, l));
                                assert(after[l].w[f][t] == before[l].w[f][t]);
                                assert(after[l].b[f][t] == before[l].b[f][t]);
                            }
                            assert(nodes_kept(net0, after));
                        }
                    },
                }
            }
            ilayer -= 1;
        }
        proof {
            assert(trained(c.arithmetic, self.rate(), net0, cache, net@));
            assert(cache_complete(c, net0, target, cache));
            assert(learned(c, self.rate(), net0, target, net@));
        }
    }
}

} // verus!
