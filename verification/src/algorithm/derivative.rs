//! The partial derivatives of the cost, as relations over the capabilities
//! that training is handed.
//!
//! A capability may round as it likes and need not give the same result
//! twice, so a derivative is not a value but a relation: the values that the
//! chain rule can give when every operation is done by the capability.
use vstd::prelude::*;
use crate::ieee::{ZERO, ONE, nan};
use crate::network::{LayerView, has_node, has_edge};
use crate::algorithm::func::{Operation, rounds, maps, maps2, unary_functional, binary_functional,
    arithmetic_functional};

verus! {

/// The capabilities of training, each as the relation between its arguments
/// and its results.
pub ghost struct Calculus {
    /// The derivative of the cost by the weighted sum of an output node:
    /// (desired value, weighted sum, result).
    pub cost_slope: spec_fn(u32, u32, u32) -> bool,
    /// The derivative of the activation function by the weighted sum:
    /// (weighted sum, result).
    pub activation_slope: spec_fn(u32, u32) -> bool,
    /// Sums, differences and products.
    pub arithmetic: spec_fn(Operation, u32, u32, u32) -> bool,
}

/// `v` is a result of the derivative of the cost by the weighted sum of node
/// `n` on layer `l`. On the last layer it comes from the cost derivative; on
/// an earlier layer it is the derivative by the activation times the slope
/// of the activation function.
pub open spec fn cost_by_sum(c: Calculus, net: Seq<LayerView>, target: Seq<u32>, l: int, n: int, v: u32) -> bool
    decreases net.len() - l, 2int, 0int,
{
    if l == net.len() - 1 {
        maps2(c.cost_slope, target[n], net[l].z[n], v)
    } else if 0 <= l < net.len() - 1 {
        exists|g: u32, d: u32|
            cost_by_activation_upto(c, net, target, l, n, net[l + 1].a.len(), g) && maps(
                c.activation_slope,
                net[l].z[n],
                d,
            ) && #[trigger] rounds(c.arithmetic, Operation::Mul, g, d, v)
    } else {
        false
    }
}

/// `v` is a result of the part of the derivative of the cost by the
/// activation of node `n` on layer `l` that goes through the first `k` nodes
/// of the next layer: starting from zero, the derivative by the weighted sum
/// of node `j`, times the weight of the edge from `n` to `j`, is added for
/// `j = 0, 1, ..`, in this order.
pub open spec fn cost_by_activation_upto(
    c: Calculus,
    net: Seq<LayerView>,
    target: Seq<u32>,
    l: int,
    n: int,
    k: nat,
    v: u32,
) -> bool
    decreases net.len() - l, 1int, k,
{
    if !(0 <= l < net.len() - 1) {
        false
    } else if k == 0 {
        v == ZERO
    } else {
        exists|p: u32, g: u32, m: u32|
            cost_by_activation_upto(c, net, target, l, n, (k - 1) as nat, p) && cost_by_sum(
                c,
                net,
                target,
                l + 1,
                k - 1,
                g,
            ) && #[trigger] rounds(c.arithmetic, Operation::Mul, g, net[l + 1].w[n][k - 1], m)
                && #[trigger] rounds(c.arithmetic, Operation::Add, p, m, v)
    }
}

/// `v` is a result of the derivative of the cost by the activation of node
/// `n` on layer `l`, which is not the last layer.
pub open spec fn cost_by_activation(
    c: Calculus,
    net: Seq<LayerView>,
    target: Seq<u32>,
    l: int,
    n: int,
    v: u32,
) -> bool {
    cost_by_activation_upto(c, net, target, l, n, net[l + 1].a.len(), v)
}

/// `v` is a result of the derivative of the cost by the weight of the edge
/// `(f, t)` of layer `l`: the derivative by the weighted sum of `t` times the
/// activation of `f`.
pub open spec fn cost_by_weight(
    c: Calculus,
    net: Seq<LayerView>,
    target: Seq<u32>,
    l: int,
    f: int,
    t: int,
    v: u32,
) -> bool {
    exists|g: u32|
        cost_by_sum(c, net, target, l, t, g) && #[trigger] rounds(
            c.arithmetic,
            Operation::Mul,
            g,
            net[l - 1].a[f],
            v,
        )
}

/// `v` is a result of the derivative of the cost by the bias of the edge
/// `(f, t)` of layer `l`: the derivative by the weighted sum of `t` times
/// one.
pub open spec fn cost_by_bias(
    c: Calculus,
    net: Seq<LayerView>,
    target: Seq<u32>,
    l: int,
    f: int,
    t: int,
    v: u32,
) -> bool {
    exists|g: u32| cost_by_sum(c, net, target, l, t, g) && #[trigger] rounds(c.arithmetic, Operation::Mul, g, ONE, v)
}

/// `after` is a result of one step of gradient descent on `before`:
/// `before - gradient * rate`.
pub open spec fn descended(
    ar: spec_fn(Operation, u32, u32, u32) -> bool,
    before: u32,
    gradient: u32,
    rate: u32,
    after: u32,
) -> bool {
    exists|step: u32|
        rounds(ar, Operation::Mul, gradient, rate, step) && #[trigger] rounds(
            ar,
            Operation::Sub,
            before,
            step,
            after,
        )
}

/// No result of a derivative of this example is a not-a-number: not by the
/// weighted sum of a node after the input layer, not by the activation of a
/// node on a hidden layer, not by the weight or the bias of an edge.
pub open spec fn derivatives_are_numbers(c: Calculus, net: Seq<LayerView>, target: Seq<u32>) -> bool {
    &&& forall|l: int, n: int, v: u32|
        1 <= l && has_node(net, l, n) && #[trigger] cost_by_sum(c, net, target, l, n, v) ==> !nan(v)
    &&& forall|l: int, n: int, v: u32|
        1 <= l < net.len() - 1 && has_node(net, l, n) && #[trigger] cost_by_activation(c, net, target, l, n, v)
            ==> !nan(v)
    &&& forall|l: int, f: int, t: int, v: u32|
        has_edge(net, l, f, t) && #[trigger] cost_by_weight(c, net, target, l, f, t, v) ==> !nan(v)
    &&& forall|l: int, f: int, t: int, v: u32|
        has_edge(net, l, f, t) && #[trigger] cost_by_bias(c, net, target, l, f, t, v) ==> !nan(v)
}

/// Every capability gives at most one result for each input.
pub open spec fn functional(c: Calculus) -> bool {
    &&& binary_functional(c.cost_slope)
    &&& unary_functional(c.activation_slope)
    &&& arithmetic_functional(c.arithmetic)
}

/// With capabilities that give one result per input, the derivative of the
/// cost by a weighted sum has one result.
pub proof fn lemma_cost_by_sum_unique(
    c: Calculus,
    net: Seq<LayerView>,
    target: Seq<u32>,
    l: int,
    n: int,
    x: u32,
    y: u32,
)
    requires
        functional(c),
        cost_by_sum(c, net, target, l, n, x),
        cost_by_sum(c, net, target, l, n, y),
    ensures
        x == y,
    decreases net.len() - l, 2int, 0int,
{
    if l == net.len() - 1 {
        assert(maps2(c.cost_slope, target[n], net[l].z[n], x));
        assert(maps2(c.cost_slope, target[n], net[l].z[n], y));
    } else {
        let k = net[l + 1].a.len();
        let (by_activation_x, slope_x) = choose|g: u32, d: u32|
            cost_by_activation_upto(c, net, target, l, n, k, g) && maps(c.activation_slope, net[l].z[n], d)
                && #[trigger] rounds(c.arithmetic, Operation::Mul, g, d, x);
        let (by_activation_y, slope_y) = choose|g: u32, d: u32|
            cost_by_activation_upto(c, net, target, l, n, k, g) && maps(c.activation_slope, net[l].z[n], d)
                && #[trigger] rounds(c.arithmetic, Operation::Mul, g, d, y);
        lemma_cost_by_activation_unique(c, net, target, l, n, k, by_activation_x, by_activation_y);
        assert(slope_x == slope_y);
    }
}

/// With capabilities that give one result per input, the part of the
/// derivative of the cost by an activation that goes through the first `k`
/// nodes of the next layer has one result.
pub proof fn lemma_cost_by_activation_unique(
    c: Calculus,
    net: Seq<LayerView>,
    target: Seq<u32>,
    l: int,
    n: int,
    k: nat,
    x: u32,
    y: u32,
)
    requires
        functional(c),
        cost_by_activation_upto(c, net, target, l, n, k, x),
        cost_by_activation_upto(c, net, target, l, n, k, y),
    ensures
        x == y,
    decreases net.len() - l, 1int, k,
{
    if k > 0 {
        let j = (k - 1) as nat;
        let (sum_x, by_sum_x, term_x) = choose|p: u32, g: u32, m: u32|
            cost_by_activation_upto(c, net, target, l, n, j, p) && cost_by_sum(c, net, target, l + 1, k - 1, g)
                && #[trigger] rounds(c.arithmetic, Operation::Mul, g, net[l + 1].w[n][k - 1], m)
                && #[trigger] rounds(c.arithmetic, Operation::Add, p, m, x);
        let (sum_y, by_sum_y, term_y) = choose|p: u32, g: u32, m: u32|
            cost_by_activation_upto(c, net, target, l, n, j, p) && cost_by_sum(c, net, target, l + 1, k - 1, g)
                && #[trigger] rounds(c.arithmetic, Operation::Mul, g, net[l + 1].w[n][k - 1], m)
                && #[trigger] rounds(c.arithmetic, Operation::Add, p, m, y);
        lemma_cost_by_activation_unique(c, net, target, l, n, j, sum_x, sum_y);
        lemma_cost_by_sum_unique(c, net, target, l + 1, k - 1, by_sum_x, by_sum_y);
        assert(term_x == term_y);
    }
}

/// With capabilities that give one result per input, the derivatives of the
/// cost by a weight and by a bias have one result each.
pub proof fn lemma_cost_by_edge_unique(
    c: Calculus,
    net: Seq<LayerView>,
    target: Seq<u32>,
    l: int,
    f: int,
    t: int,
    x: u32,
    y: u32,
)
    requires
        functional(c),
    ensures
        cost_by_weight(c, net, target, l, f, t, x) && cost_by_weight(c, net, target, l, f, t, y) ==> x == y,
        cost_by_bias(c, net, target, l, f, t, x) && cost_by_bias(c, net, target, l, f, t, y) ==> x == y,
{
    if cost_by_weight(c, net, target, l, f, t, x) && cost_by_weight(c, net, target, l, f, t, y) {
        let by_sum_x = choose|g: u32|
            cost_by_sum(c, net, target, l, t, g) && #[trigger] rounds(c.arithmetic, Operation::Mul, g, net[l - 1].a[f], x);
        let by_sum_y = choose|g: u32|
            cost_by_sum(c, net, target, l, t, g) && #[trigger] rounds(c.arithmetic, Operation::Mul, g, net[l - 1].a[f], y);
        lemma_cost_by_sum_unique(c, net, target, l, t, by_sum_x, by_sum_y);
    }
    if cost_by_bias(c, net, target, l, f, t, x) && cost_by_bias(c, net, target, l, f, t, y) {
        let by_sum_x = choose|g: u32|
            cost_by_sum(c, net, target, l, t, g) && #[trigger] rounds(c.arithmetic, Operation::Mul, g, ONE, x);
        let by_sum_y = choose|g: u32|
            cost_by_sum(c, net, target, l, t, g) && #[trigger] rounds(c.arithmetic, Operation::Mul, g, ONE, y);
        lemma_cost_by_sum_unique(c, net, target, l, t, by_sum_x, by_sum_y);
    }
}

} // verus!
