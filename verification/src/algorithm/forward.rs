//! Forward propagation: the weighted sums and activations of every layer,
//! from the input layer onwards.
use vstd::prelude::*;
use crate::ieee::ZERO;
use crate::network::{Network, LayerView, well_formed, same_shape, layer_shaped,
    lemma_same_shape_well_formed};
use crate::algorithm::edges_kept;
use crate::ut::data::Signal;
use crate::algorithm::func::{Operation, rounds, maps, compute, evaluate, arithmetic_total, unary_total,
    arithmetic_relation, unary_relation, arithmetic_functional, unary_functional};

verus! {

/// `t` is a result of `a * w + b`, rounded after the product and after the
/// sum.
pub open spec fn affine(ar: spec_fn(Operation, u32, u32, u32) -> bool, a: u32, w: u32, b: u32, t: u32) -> bool {
    exists|m: u32| rounds(ar, Operation::Mul, a, w, m) && #[trigger] rounds(ar, Operation::Add, m, b, t)
}

/// `s` is a result of the weighted sum that enters node `to`, taken over the
/// first `n` nodes of the layer before: starting from zero, the term
/// `prev[k] * w[k][to] + b[k][to]` is added for `k = 0, 1, ..`, in this order,
/// with a rounding after every operation.
pub open spec fn weighted_sum(
    ar: spec_fn(Operation, u32, u32, u32) -> bool,
    prev: Seq<u32>,
    w: Seq<Seq<u32>>,
    b: Seq<Seq<u32>>,
    to: int,
    n: nat,
    s: u32,
) -> bool
    decreases n,
{
    if n == 0 {
        s == ZERO
    } else {
        exists|p: u32, t: u32|
            weighted_sum(ar, prev, w, b, to, (n - 1) as nat, p) && affine(
                ar,
                prev[n - 1],
                w[n - 1][to],
                b[n - 1][to],
                t,
            ) && #[trigger] rounds(ar, Operation::Add, p, t, s)
    }
}

/// Every weighted sum of layer `l` is a result of the sum over the whole
/// layer before it.
pub open spec fn layer_propagated(
    ar: spec_fn(Operation, u32, u32, u32) -> bool,
    net: Seq<LayerView>,
    l: int,
) -> bool {
    forall|to: int|
        0 <= to < net[l].a.len() ==> weighted_sum(
            ar,
            net[l - 1].a,
            net[l].w,
            net[l].b,
            to,
            net[l - 1].a.len(),
            #[trigger] net[l].z[to],
        )
}

/// Every activation of layer `l` is a result of the activation function on
/// the weighted sum of its node.
pub open spec fn layer_activated(act: spec_fn(u32, u32) -> bool, net: Seq<LayerView>, l: int) -> bool {
    forall|n: int| 0 <= n < net[l].a.len() ==> maps(act, net[l].z[n], #[trigger] net[l].a[n])
}

/// Layer `l` holds the sums and activations that follow from the layer
/// before it.
pub open spec fn layer_forwarded(
    ar: spec_fn(Operation, u32, u32, u32) -> bool,
    act: spec_fn(u32, u32) -> bool,
    net: Seq<LayerView>,
    l: int,
) -> bool {
    layer_propagated(ar, net, l) && layer_activated(act, net, l)
}

/// Every layer after the input layer holds the sums and activations that
/// follow from the layer before it.
pub open spec fn propagated(
    ar: spec_fn(Operation, u32, u32, u32) -> bool,
    act: spec_fn(u32, u32) -> bool,
    net: Seq<LayerView>,
) -> bool {
    forall|l: int| 1 <= l < net.len() ==> #[trigger] layer_forwarded(ar, act, net, l)
}

/// `after` is `before` after a forward pass on `input`: the same shape,
/// weights and biases, the input on the input layer, and on every later
/// layer the sums and activations that follow from the layer before it.
pub open spec fn forwarded(
    ar: spec_fn(Operation, u32, u32, u32) -> bool,
    act: spec_fn(u32, u32) -> bool,
    before: Seq<LayerView>,
    input: Seq<u32>,
    after: Seq<LayerView>,
) -> bool {
    &&& well_formed(after)
    &&& same_shape(before, after)
    &&& edges_kept(before, after)
    &&& after[0].a == input
    &&& propagated(ar, act, after)
}

/// `y` is `x` with other weighted sums on layer `l`.
pub open spec fn only_sums_differ(x: Seq<LayerView>, y: Seq<LayerView>, l: int) -> bool {
    &&& y.len() == x.len()
    &&& y[l].z.len() == x[l].z.len()
    &&& y =~= x.update(l, LayerView { z: y[l].z, ..x[l] })
}

/// `y` is `x` with other activations on layer `l`.
pub open spec fn only_activations_differ(x: Seq<LayerView>, y: Seq<LayerView>, l: int) -> bool {
    &&& y.len() == x.len()
    &&& y[l].a.len() == x[l].a.len()
    &&& y =~= x.update(l, LayerView { a: y[l].a, ..x[l] })
}

/// Forward propagation with an activation function and an arithmetic, both
/// handed in by the caller.
pub struct ForwardPropagation<Act, Ar> {
    /// The activation function.
    pub activate: Act,
    /// Sums and products.
    pub arith: Ar,
}

impl<Act: Fn(u32) -> u32, Ar: Fn(Operation, u32, u32) -> u32> ForwardPropagation<Act, Ar> {
    /// The results that the arithmetic may give.
    pub open spec fn arithmetic(&self) -> spec_fn(Operation, u32, u32, u32) -> bool {
        arithmetic_relation(self.arith)
    }

    /// The results that the activation function may give.
    pub open spec fn activation(&self) -> spec_fn(u32, u32) -> bool {
        unary_relation(self.activate)
    }

    /// Both capabilities accept every input.
    pub open spec fn total(&self) -> bool {
        unary_total(self.activate) && arithmetic_total(self.arith)
    }

    /// Forward propagation with the given activation function and
    /// arithmetic.
    pub fn new(activate: Act, arith: Ar) -> (fp: Self)
        ensures
            fp.activate == activate,
            fp.arith == arith,
    {
        ForwardPropagation { activate, arith }
    }

    /// Forward propagation between adjacent layers: computes the weighted
    /// sums of layer `ilayer` from the activations of the layer before.
    pub fn network_update_layer_propagate(&self, net: &mut Network, ilayer: usize)
        requires
            self.total(),
            well_formed(old(net)@),
            0 < ilayer < old(net)@.len(),
        ensures
            well_formed(final(net)@),
            only_sums_differ(old(net)@, final(net)@, ilayer as int),
            layer_propagated(self.arithmetic(), final(net)@, ilayer as int),
    {
        let ghost ar = self.arithmetic();
        let ghost start = net@;
        let len_to = net.layer_len(ilayer);
        let len_from = net.layer_len(ilayer - 1);
        proof {
            assert(layer_shaped(start, ilayer as int));
        }
        let mut ito: usize = 0;
        while ito < len_to
            invariant
                self.total(),
                ar == self.arithmetic(),
                0 < ilayer < start.len(),
                well_formed(start),
                well_formed(net@),
                ito <= len_to,
                len_to == start[ilayer as int].a.len(),
                len_to == start[ilayer as int].z.len(),
                len_from == start[ilayer - 1].a.len(),
                only_sums_differ(start, net@, ilayer as int),
                forall|to: int|
                    0 <= to < ito ==> weighted_sum(
                        ar,
                        start[ilayer - 1].a,
                        start[ilayer as int].w,
                        start[ilayer as int].b,
                        to,
                        len_from as nat,
                        #[trigger] net@[ilayer as int].z[to],
                    ),
            decreases len_to - ito,
        {
            let mut sum: u32 = ZERO;
            let mut ifrom: usize = 0;
            while ifrom < len_from
                invariant
                    self.total(),
                    ar == self.arithmetic(),
                    0 < ilayer < start.len(),
                    well_formed(net@),
                    ito < len_to,
                    ifrom <= len_from,
                    len_to == start[ilayer as int].a.len(),
                    len_to == start[ilayer as int].z.len(),
                    len_from == start[ilayer - 1].a.len(),
                    only_sums_differ(start, net@, ilayer as int),
                    weighted_sum(
                        ar,
                        start[ilayer - 1].a,
                        start[ilayer as int].w,
                        start[ilayer as int].b,
                        ito as int,
                        ifrom as nat,
                        sum,
                    ),
                decreases len_from - ifrom,
            {
                let (w, b) = net.edge_coef_wb(ilayer, ifrom, ito);
                let a = net.a(ilayer - 1, ifrom);
                let m = compute(&self.arith, Operation::Mul, a, w);
                let t = compute(&self.arith, Operation::Add, m, b);
                let next = compute(&self.arith, Operation::Add, sum, t);
                proof {
                    assert(affine(ar, a, w, b, t));
                    assert(weighted_sum(
                        ar,
                        start[ilayer - 1].a,
                        start[ilayer as int].w,
                        start[ilayer as int].b,
                        ito as int,
                        (ifrom + 1) as nat,
                        next,
                    ));
                }
                sum = next;
                ifrom += 1;
            }
            let ghost before = net@;
            net.set_z(ilayer, ito, sum);
            proof {
                assert(net@[ilayer as int].z == before[ilayer as int].z.update(ito as int, sum));
                assert forall|to: int| 0 <= to < ito + 1 implies weighted_sum(
                    ar,
                    start[ilayer - 1].a,
                    start[ilayer as int].w,
                    start[ilayer as int].b,
                    to,
                    len_from as nat,
                    #[trigger] net@[ilayer as int].z[to],
                ) by {
                    if to < ito {
                        assert(net@[ilayer as int].z[to] == before[ilayer as int].z[to]);
                    }
                }
            }
            ito += 1;
        }
    }

    /// Activation of the weighted sums of layer `ilayer`.
    pub fn network_update_layer_activate(&self, net: &mut Network, ilayer: usize)
        requires
            self.total(),
            well_formed(old(net)@),
            0 < ilayer < old(net)@.len(),
        ensures
            well_formed(final(net)@),
            only_activations_differ(old(net)@, final(net)@, ilayer as int),
            layer_activated(self.activation(), final(net)@, ilayer as int),
    {
        let ghost act = self.activation();
        let ghost start = net@;
        let len = net.layer_len(ilayer);
        proof {
            assert(layer_shaped(start, ilayer as int));
        }
        let mut i: usize = 0;
        while i < len
            invariant
                self.total(),
                act == self.activation(),
                0 < ilayer < start.len(),
                well_formed(net@),
                i <= len,
                len == start[ilayer as int].a.len(),
                only_activations_differ(start, net@, ilayer as int),
                forall|n: int| 0 <= n < i ==> maps(act, start[ilayer as int].z[n], #[trigger] net@[ilayer as int].a[n]),
            decreases len - i,
        {
            let z = net.z(ilayer, i);
            let a = evaluate(&self.activate, z);
            let ghost before = net@;
            net.set_a(ilayer, i, a);
            proof {
                assert(net@[ilayer as int].a == before[ilayer as int].a.update(i as int, a));
                assert forall|n: int| 0 <= n < i + 1 implies maps(
                    act,
                    start[ilayer as int].z[n],
                    #[trigger] net@[ilayer as int].a[n],
                ) by {
                    if n < i {
                        assert(net@[ilayer as int].a[n] == before[ilayer as int].a[n]);
                    }
                }
            }
            i += 1;
        }
    }

    /// Runs the network on `input`: the input layer takes the signal as its
    /// activations, then every later layer gets its weighted sums and its
    /// activations from the layer before it. Weights and biases stay.
    pub fn run(&self, net: &mut Network, input: &Signal)
        requires
            self.total(),
            well_formed(old(net)@),
            old(net)@.len() > 0,
            input@.len() == old(net)@[0].a.len(),
        ensures
            well_formed(final(net)@),
            same_shape(old(net)@, final(net)@),
            edges_kept(old(net)@, final(net)@),
            final(net)@[0].a == input@,
            propagated(self.arithmetic(), self.activation(), final(net)@),
            forwarded(self.arithmetic(), self.activation(), old(net)@, input@, final(net)@),
    {
        let ghost ar = self.arithmetic();
        let ghost act = self.activation();
        net.init_input_layer(input);
        proof {
            assert(same_shape(old(net)@, net@));
            lemma_same_shape_well_formed(old(net)@, net@);
        }
        let mut ilayer: usize = 1;
        while ilayer < net.n_layers()
            invariant
                self.total(),
                ar == self.arithmetic(),
                act == self.activation(),
                1 <= ilayer,
                well_formed(net@),
                same_shape(old(net)@, net@),
                edges_kept(old(net)@, net@),
                net@.len() > 0,
                net@[0].a == input@,
                forall|l: int| 1 <= l < ilayer && l < net@.len() ==> #[trigger] layer_forwarded(ar, act, net@, l),
            decreases net@.len() - ilayer,
        {
            let ghost before = net@;
            self.network_update_layer_propagate(net, ilayer);
            let ghost between = net@;
            self.network_update_layer_activate(net, ilayer);
            proof {
                let after = net@;
                assert(same_shape(before, after));
                assert(same_shape(old(net)@, after));
                assert forall|l: int| 1 <= l < ilayer + 1 && l < after.len() implies #[trigger] layer_forwarded(
                    ar,
                    act,
                    after,
                    l,
                ) by {
                    if l < ilayer {
                        assert(layer_forwarded(ar, act, before, l));
                        assert(after[l] == before[l]);
                        assert(after[l - 1] == before[l - 1]);
                    } else {
                        assert(layer_propagated(ar, between, l));
                        assert(after[l - 1] == between[l - 1]);
                        assert(after[l].z == between[l].z);
                        assert(after[l].w == between[l].w);
                        assert(after[l].b == between[l].b);
                    }
                }
            }
            ilayer += 1;
        }
    }
}

/// With an arithmetic that gives one result per operation, a weighted sum
/// has one result.
pub proof fn lemma_weighted_sum_unique(
    ar: spec_fn(Operation, u32, u32, u32) -> bool,
    prev: Seq<u32>,
    w: Seq<Seq<u32>>,
    b: Seq<Seq<u32>>,
    to: int,
    n: nat,
    x: u32,
    y: u32,
)
    requires
        arithmetic_functional(ar),
        weighted_sum(ar, prev, w, b, to, n, x),
        weighted_sum(ar, prev, w, b, to, n, y),
    ensures
        x == y,
    decreases n,
{
    if n > 0 {
        let k = (n - 1) as nat;
        let (sum_x, term_x) = choose|p: u32, t: u32|
            weighted_sum(ar, prev, w, b, to, k, p) && affine(ar, prev[n - 1], w[n - 1][to], b[n - 1][to], t)
                && #[trigger] rounds(ar, Operation::Add, p, t, x);
        let (sum_y, term_y) = choose|p: u32, t: u32|
            weighted_sum(ar, prev, w, b, to, k, p) && affine(ar, prev[n - 1], w[n - 1][to], b[n - 1][to], t)
                && #[trigger] rounds(ar, Operation::Add, p, t, y);
        lemma_weighted_sum_unique(ar, prev, w, b, to, k, sum_x, sum_y);
        let product_x = choose|m: u32|
            rounds(ar, Operation::Mul, prev[n - 1], w[n - 1][to], m) && #[trigger] rounds(
                ar,
                Operation::Add,
                m,
                b[n - 1][to],
                term_x,
            );
        let product_y = choose|m: u32|
            rounds(ar, Operation::Mul, prev[n - 1], w[n - 1][to], m) && #[trigger] rounds(
                ar,
                Operation::Add,
                m,
                b[n - 1][to],
                term_y,
            );
        assert(product_x == product_y);
        assert(term_x == term_y);
    }
}

/// Forward propagation is deterministic: with an arithmetic and an
/// activation function that give one result per input, two networks with
/// the same weights, biases and input that both hold the outcome of a
/// forward pass are the same network.
pub proof fn lemma_forward_deterministic(
    ar: spec_fn(Operation, u32, u32, u32) -> bool,
    act: spec_fn(u32, u32) -> bool,
    x: Seq<LayerView>,
    y: Seq<LayerView>,
)
    requires
        arithmetic_functional(ar),
        unary_functional(act),
        well_formed(x),
        well_formed(y),
        same_shape(x, y),
        edges_kept(x, y),
        x.len() > 0,
        x[0].a == y[0].a,
        propagated(ar, act, x),
        propagated(ar, act, y),
    ensures
        x == y,
{
    lemma_forward_agrees(ar, act, x, y, x.len() as int);
    assert forall|l: int| 0 <= l < x.len() implies x[l] == y[l] by {
        assert(layer_shaped(x, l));
        assert(layer_shaped(y, l));
        assert(x[l].a == y[l].a);
        assert(x[l].z =~= y[l].z);
        assert(y[l].w == x[l].w && y[l].b == x[l].b);
    }
    assert(x =~= y);
}

/// The first `k` layers of two forward passes from the same state agree.
proof fn lemma_forward_agrees(
    ar: spec_fn(Operation, u32, u32, u32) -> bool,
    act: spec_fn(u32, u32) -> bool,
    x: Seq<LayerView>,
    y: Seq<LayerView>,
    k: int,
)
    requires
        arithmetic_functional(ar),
        unary_functional(act),
        well_formed(x),
        well_formed(y),
        same_shape(x, y),
        edges_kept(x, y),
        x.len() > 0,
        x[0].a == y[0].a,
        propagated(ar, act, x),
        propagated(ar, act, y),
        0 <= k <= x.len(),
    ensures
        forall|l: int| 0 <= l < k ==> (#[trigger] x[l]).a == y[l].a,
        forall|l: int| 1 <= l < k ==> (#[trigger] x[l]).z == y[l].z,
    decreases k,
{
    if k > 1 {
        lemma_forward_agrees(ar, act, x, y, k - 1);
        let l = k - 1;
        assert(layer_shaped(x, l));
        assert(layer_shaped(y, l));
        assert(layer_forwarded(ar, act, x, l));
        assert(layer_forwarded(ar, act, y, l));
        assert(x[l - 1].a == y[l - 1].a);
        assert(y[l].w == x[l].w && y[l].b == x[l].b);
        assert(x[l].a.len() == y[l].a.len());
        assert forall|to: int| 0 <= to < x[l].z.len() implies x[l].z[to] == y[l].z[to] by {
            lemma_weighted_sum_unique(
                ar,
                x[l - 1].a,
                x[l].w,
                x[l].b,
                to,
                x[l - 1].a.len(),
                x[l].z[to],
                y[l].z[to],
            );
        }
        assert(x[l].z =~= y[l].z);
        assert forall|n: int| 0 <= n < x[l].a.len() implies x[l].a[n] == y[l].a[n] by {
            assert(maps(act, x[l].z[n], x[l].a[n]));
            assert(maps(act, y[l].z[n], y[l].a[n]));
        }
        assert(x[l].a =~= y[l].a);
    } else if k == 1 {
    }
}

} // verus!
