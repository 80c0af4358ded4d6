//! Utilities around the network: signals sized for it, comparison within a
//! tolerance, and, in [`codec`], the binary form of a network.
pub mod data;
pub mod codec;

pub use crate::ut::codec::{network_serialize, network_deserialize, network_from_records, PersistenceError};

use vstd::prelude::*;
use crate::ieee::{NAN, EPSILON, nan, less, less_eq, magnitude, is_nan, is_less, is_less_eq, abs};
use crate::network::{Network, LayerView, Coeff, geometry_of};
use crate::algorithm::func::{Operation, rounds, compute, arithmetic_total, arithmetic_relation,
    arithmetic_functional};
use crate::ut::data::Signal;

verus! {

/// A signal of the length of layer `ilayer`, every entry the not-computed
/// mark.
fn signal_stub_from_network(network: &Network, ilayer: usize) -> (signal: Signal)
    requires
        ilayer < network@.len(),
    ensures
        signal@.len() == network@[ilayer as int].a.len(),
        forall|i: int| 0 <= i < signal@.len() ==> signal@[i] == NAN,
{
    let len = network.layer_len(ilayer);
    let mut signal: Vec<u32> = Vec::new();
    let mut i: usize = 0;
    while i < len
        invariant
            i <= len,
            signal@.len() == i,
            forall|j: int| 0 <= j < i ==> signal@[j] == NAN,
        decreases len - i,
    {
        signal.push(NAN);
        i += 1;
    }
    signal
}

/// A signal of the length of the input layer, every entry the not-computed
/// mark.
pub fn signal_stub_from_network_input(network: &Network) -> (signal: Signal)
    requires
        network@.len() > 0,
    ensures
        signal@.len() == network@[0].a.len(),
        forall|i: int| 0 <= i < signal@.len() ==> signal@[i] == NAN,
{
    signal_stub_from_network(network, 0)
}

/// A signal of the length of the output layer, every entry the not-computed
/// mark.
pub fn signal_stub_from_network_output(network: &Network) -> (signal: Signal)
    requires
        network@.len() > 0,
    ensures
        signal@.len() == network@[network@.len() - 1].a.len(),
        forall|i: int| 0 <= i < signal@.len() ==> signal@[i] == NAN,
{
    signal_stub_from_network(network, network.n_layers() - 1)
}

/// The index and the value that a scan for the largest number holds after
/// the first `k` entries: it starts at entry 0 and moves on to an entry
/// whenever that entry is greater than the value it holds.
pub open spec fn running_maximum(signal: Seq<u32>, k: nat) -> (int, u32)
    decreases k,
{
    if k == 0 {
        (0, signal[0])
    } else {
        let before = running_maximum(signal, (k - 1) as nat);
        if less(before.1, signal[k - 1]) {
            (k - 1, signal[k - 1])
        } else {
            before
        }
    }
}

/// The scan of a signal without not-a-numbers ends on the first of its
/// largest entries.
pub proof fn lemma_running_maximum(signal: Seq<u32>, k: nat)
    requires
        0 < signal.len(),
        k <= signal.len(),
        forall|i: int| 0 <= i < signal.len() ==> !nan(#[trigger] signal[i]),
    ensures
        0 <= running_maximum(signal, k).0 < signal.len(),
        k > 0 ==> running_maximum(signal, k).0 < k,
        running_maximum(signal, k).1 == signal[running_maximum(signal, k).0],
        forall|i: int| 0 <= i < k ==> less_eq(#[trigger] signal[i], running_maximum(signal, k).1),
        forall|i: int| 0 <= i < running_maximum(signal, k).0 ==> less(#[trigger] signal[i], running_maximum(signal, k).1),
    decreases k,
{
    if k > 0 {
        lemma_running_maximum(signal, (k - 1) as nat);
        let before = running_maximum(signal, (k - 1) as nat);
        assert(!nan(signal[k - 1]));
        assert(!nan(before.1));
        assert forall|i: int| 0 <= i < k implies less_eq(#[trigger] signal[i], running_maximum(signal, k).1) by {
            assert(!nan(signal[i]));
            if i < k - 1 {
                assert(less_eq(signal[i], before.1));
            }
        }
        assert forall|i: int| 0 <= i < running_maximum(signal, k).0 implies less(
            #[trigger] signal[i],
            running_maximum(signal, k).1,
        ) by {
            assert(!nan(signal[i]));
            if less(before.1, signal[k - 1]) {
                assert(less_eq(signal[i], before.1));
            } else {
                assert(less(signal[i], before.1));
            }
        }
    }
}

/// The offset of the largest value in the signal: the place where the scan
/// for the largest number ends.
pub fn signal_find_max_index(signal: &Signal) -> (index: usize)
    requires
        signal@.len() > 0,
    ensures
        index == running_maximum(signal@, signal@.len()).0,
        index < signal@.len(),
{
    let mut max_index: usize = 0;
    let mut max_value: u32 = signal[0];
    let mut i: usize = 0;
    while i < signal.len()
        invariant
            i <= signal.len(),
            0 < signal@.len(),
            max_index < signal@.len(),
            (max_index as int, max_value) == running_maximum(signal@, i as nat),
        decreases signal.len() - i,
    {
        let value = signal[i];
        if is_less(max_value, value) {
            max_index = i;
            max_value = value;
        }
        i += 1;
    }
    max_index
}

/// `alike` is a result of comparing `x` and `y` within the tolerance: the
/// two are taken for equal when the magnitude of their rounded difference is
/// at most the tolerance, or when one of them is a not-a-number.
pub open spec fn close(ar: spec_fn(Operation, u32, u32, u32) -> bool, x: u32, y: u32, alike: bool) -> bool {
    exists|d: u32| #[trigger]
        rounds(ar, Operation::Sub, x, y, d) && alike == (less_eq(magnitude(d), EPSILON) || nan(x) || nan(y))
}

/// The two vectors have one length and may compare equal entry by entry.
pub open spec fn coeffs_alike(ar: spec_fn(Operation, u32, u32, u32) -> bool, x: Seq<u32>, y: Seq<u32>) -> bool {
    &&& x.len() == y.len()
    &&& forall|i: int| 0 <= i < x.len() ==> #[trigger] close(ar, x[i], y[i], true)
}

/// The two vectors differ in length or may compare unequal at some entry.
pub open spec fn coeffs_apart(ar: spec_fn(Operation, u32, u32, u32) -> bool, x: Seq<u32>, y: Seq<u32>) -> bool {
    ||| x.len() != y.len()
    ||| exists|i: int| 0 <= i < x.len() && #[trigger] close(ar, x[i], y[i], false)
}

/// The two tables have one number of rows, and their rows may compare
/// equal one by one.
pub open spec fn edges_alike(
    ar: spec_fn(Operation, u32, u32, u32) -> bool,
    x: Seq<Seq<u32>>,
    y: Seq<Seq<u32>>,
) -> bool {
    &&& x.len() == y.len()
    &&& forall|f: int| 0 <= f < x.len() ==> #[trigger] coeffs_alike(ar, x[f], y[f])
}

/// The two tables differ in their number of rows or have a pair of rows
/// that may compare unequal.
pub open spec fn edges_apart(
    ar: spec_fn(Operation, u32, u32, u32) -> bool,
    x: Seq<Seq<u32>>,
    y: Seq<Seq<u32>>,
) -> bool {
    ||| x.len() != y.len()
    ||| exists|f: int| 0 <= f < x.len() && f < y.len() && #[trigger] coeffs_apart(ar, x[f], y[f])
}

/// The two layers may compare equal: activations, sums, biases and weights.
pub open spec fn layers_alike(ar: spec_fn(Operation, u32, u32, u32) -> bool, x: LayerView, y: LayerView) -> bool {
    &&& coeffs_alike(ar, x.a, y.a)
    &&& coeffs_alike(ar, x.z, y.z)
    &&& edges_alike(ar, x.b, y.b)
    &&& edges_alike(ar, x.w, y.w)
}

/// The two layers may compare unequal in one of their arrays.
pub open spec fn layers_apart(ar: spec_fn(Operation, u32, u32, u32) -> bool, x: LayerView, y: LayerView) -> bool {
    ||| coeffs_apart(ar, x.a, y.a)
    ||| coeffs_apart(ar, x.z, y.z)
    ||| edges_apart(ar, x.b, y.b)
    ||| edges_apart(ar, x.w, y.w)
}

/// The two networks have one geometry and may compare equal layer by layer.
pub open spec fn networks_alike(
    ar: spec_fn(Operation, u32, u32, u32) -> bool,
    x: Seq<LayerView>,
    y: Seq<LayerView>,
) -> bool {
    &&& geometry_of(x) == geometry_of(y)
    &&& forall|l: int| 0 <= l < x.len() ==> layers_alike(ar, #[trigger] x[l], y[l])
}

/// The two networks differ in geometry or may compare unequal on some layer.
pub open spec fn networks_apart(
    ar: spec_fn(Operation, u32, u32, u32) -> bool,
    x: Seq<LayerView>,
    y: Seq<LayerView>,
) -> bool {
    ||| geometry_of(x) != geometry_of(y)
    ||| exists|l: int| 0 <= l < x.len() && layers_apart(ar, #[trigger] x[l], y[l])
}

/// With an arithmetic that gives one result per operation, two networks
/// that compare equal do not compare unequal.
pub proof fn lemma_alike_or_apart(ar: spec_fn(Operation, u32, u32, u32) -> bool, x: Seq<LayerView>, y: Seq<LayerView>)
    requires
        arithmetic_functional(ar),
    ensures
        !(networks_alike(ar, x, y) && networks_apart(ar, x, y)),
{
    if networks_alike(ar, x, y) && networks_apart(ar, x, y) {
        let l = choose|l: int| 0 <= l < x.len() && layers_apart(ar, #[trigger] x[l], y[l]);
        assert(layers_alike(ar, x[l], y[l]));
        lemma_coeffs_alike_or_apart(ar, x[l].a, y[l].a);
        lemma_coeffs_alike_or_apart(ar, x[l].z, y[l].z);
        if edges_apart(ar, x[l].b, y[l].b) {
            let f = choose|f: int| 0 <= f < x[l].b.len() && f < y[l].b.len() && #[trigger] coeffs_apart(ar, x[l].b[f], y[l].b[f]);
            assert(coeffs_alike(ar, x[l].b[f], y[l].b[f]));
            lemma_coeffs_alike_or_apart(ar, x[l].b[f], y[l].b[f]);
        }
        if edges_apart(ar, x[l].w, y[l].w) {
            let f = choose|f: int| 0 <= f < x[l].w.len() && f < y[l].w.len() && #[trigger] coeffs_apart(ar, x[l].w[f], y[l].w[f]);
            assert(coeffs_alike(ar, x[l].w[f], y[l].w[f]));
            lemma_coeffs_alike_or_apart(ar, x[l].w[f], y[l].w[f]);
        }
    }
}

/// One weight off by more than the tolerance breaks equality: two networks
/// do not compare equal when, for some weight that is a number in both,
/// every difference that the arithmetic gives is greater in magnitude than
/// the tolerance.
pub proof fn lemma_weight_apart_breaks_equality(
    ar: spec_fn(Operation, u32, u32, u32) -> bool,
    x: Seq<LayerView>,
    y: Seq<LayerView>,
    l: int,
    f: int,
    t: int,
)
    requires
        0 <= l < x.len(),
        0 <= f < x[l].w.len(),
        0 <= t < x[l].w[f].len(),
        !nan(x[l].w[f][t]),
        !nan(y[l].w[f][t]),
        forall|d: u32| #[trigger]
            rounds(ar, Operation::Sub, x[l].w[f][t], y[l].w[f][t], d) ==> !less_eq(magnitude(d), EPSILON),
    ensures
        !networks_alike(ar, x, y),
{
    if networks_alike(ar, x, y) {
        assert(layers_alike(ar, x[l], y[l]));
        assert(coeffs_alike(ar, x[l].w[f], y[l].w[f]));
        assert(close(ar, x[l].w[f][t], y[l].w[f][t], true));
    }
}

/// With an arithmetic that gives one result per operation, two vectors that
/// compare equal do not compare unequal.
pub proof fn lemma_coeffs_alike_or_apart(ar: spec_fn(Operation, u32, u32, u32) -> bool, x: Seq<u32>, y: Seq<u32>)
    requires
        arithmetic_functional(ar),
    ensures
        !(coeffs_alike(ar, x, y) && coeffs_apart(ar, x, y)),
{
    if coeffs_alike(ar, x, y) && coeffs_apart(ar, x, y) {
        let i = choose|i: int| 0 <= i < x.len() && #[trigger] close(ar, x[i], y[i], false);
        assert(close(ar, x[i], y[i], true));
        let d = choose|d: u32| #[trigger]
            rounds(ar, Operation::Sub, x[i], y[i], d) && true == (less_eq(magnitude(d), EPSILON) || nan(x[i]) || nan(
                y[i],
            ));
        let e = choose|d: u32| #[trigger]
            rounds(ar, Operation::Sub, x[i], y[i], d) && false == (less_eq(magnitude(d), EPSILON) || nan(x[i]) || nan(
                y[i],
            ));
        assert(d == e);
    }
}

/// Compares two numbers within the tolerance.
pub fn is_close<Ar: Fn(Operation, u32, u32) -> u32>(x: u32, y: u32, arith: &Ar) -> (alike: bool)
    requires
        arithmetic_total(*arith),
    ensures
        close(arithmetic_relation(*arith), x, y, alike),
{
    let d = compute(arith, Operation::Sub, x, y);
    is_less_eq(abs(d), EPSILON) || is_nan(x) || is_nan(y)
}

/// Compares two vectors of numbers entry by entry within the tolerance,
/// taking a not-a-number for equal to anything.
pub fn vecf32_float_safe_is_eq<Ar: Fn(Operation, u32, u32) -> u32>(lhs: &Coeff, rhs: &Coeff, arith: &Ar) -> (r: bool)
    requires
        arithmetic_total(*arith),
    ensures
        r ==> coeffs_alike(arithmetic_relation(*arith), lhs@, rhs@),
        !r ==> coeffs_apart(arithmetic_relation(*arith), lhs@, rhs@),
{
    if lhs.len() != rhs.len() {
        return false;
    }
    let mut i: usize = 0;
    while i < lhs.len()
        invariant
            arithmetic_total(*arith),
            lhs@.len() == rhs@.len(),
            i <= lhs.len(),
            forall|j: int| 0 <= j < i ==> #[trigger] close(arithmetic_relation(*arith), lhs@[j], rhs@[j], true),
        decreases lhs.len() - i,
    {
        if !is_close(lhs[i], rhs[i], arith) {
            proof {
                assert(close(arithmetic_relation(*arith), lhs@[i as int], rhs@[i as int], false));
            }
            return false;
        }
        i += 1;
    }
    true
}

} // verus!
