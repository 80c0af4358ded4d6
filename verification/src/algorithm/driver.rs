//! Training and testing over a whole source of examples.
use vstd::prelude::*;
use crate::network::{Network, LayerView, well_formed, same_shape, geometry_of, layer_shaped,
    lemma_same_shape_well_formed, lemma_same_shape_transitive};
use crate::algorithm::func::Operation;
use crate::algorithm::forward::{ForwardPropagation, forwarded};
use crate::algorithm::derivative::Calculus;
use crate::algorithm::backward::{BackPropagation, learned};
use crate::ut::data::{Dataset, Signal};
use crate::ut::{running_maximum, signal_find_max_index};

verus! {

/// The capabilities of a training session, each as a relation.
pub ghost struct Session {
    /// Sums and products of the forward pass.
    pub arithmetic: spec_fn(Operation, u32, u32, u32) -> bool,
    /// The activation function.
    pub activation: spec_fn(u32, u32) -> bool,
    /// The capabilities of the backward pass.
    pub calculus: Calculus,
    /// The learning rate.
    pub rate: u32,
}

/// Every example of the source fits a network of this shape: its input has
/// the length of the input layer, its desired output that of the last
/// layer.
pub open spec fn fits<D: Dataset>(net: Seq<LayerView>, data: D) -> bool {
    forall|i: int|
        0 <= i < data.count() ==> (#[trigger] data.input(i)).len() == net[0].a.len() && data.output(i).len()
            == net[net.len() - 1].a.len()
}

/// `after` is `before` after training on one example: a forward pass on the
/// input, then a backward pass towards the desired output.
pub open spec fn example_learned(
    s: Session,
    input: Seq<u32>,
    target: Seq<u32>,
    before: Seq<LayerView>,
    after: Seq<LayerView>,
) -> bool {
    exists|mid: Seq<LayerView>|
        learned(s.calculus, s.rate, mid, target, after) && (#[trigger] forwarded(
            s.arithmetic,
            s.activation,
            before,
            input,
            mid,
        ))
}

/// `end` is `start` after training on the first `k` examples of the source,
/// one after the other.
pub open spec fn trained_through<D: Dataset>(
    s: Session,
    data: D,
    k: nat,
    start: Seq<LayerView>,
    end: Seq<LayerView>,
) -> bool
    decreases k,
{
    if k == 0 {
        end == start
    } else {
        exists|prev: Seq<LayerView>|
            trained_through(s, data, (k - 1) as nat, start, prev) && (#[trigger] example_learned(
                s,
                data.input(k - 1),
                data.output(k - 1),
                prev,
                end,
            ))
    }
}

/// The place of the largest entry of the desired output and of the factual
/// output of a network: the weighted sums of its last layer.
pub open spec fn reading(target: Seq<u32>, net: Seq<LayerView>) -> (int, int) {
    (running_maximum(target, target.len()).0, running_maximum(net[net.len() - 1].z, net[net.len() - 1].z.len()).0)
}

/// `end` is `start` after forward passes on the first `k` examples of the
/// source, one after the other, and `readings` holds, for each of them, the
/// place of the largest entry of the desired output and of the factual one.
pub open spec fn tested_through<D: Dataset>(
    ar: spec_fn(Operation, u32, u32, u32) -> bool,
    act: spec_fn(u32, u32) -> bool,
    data: D,
    k: nat,
    start: Seq<LayerView>,
    end: Seq<LayerView>,
    readings: Seq<(usize, usize)>,
) -> bool
    decreases k,
{
    if k == 0 {
        end == start && readings.len() == 0
    } else {
        &&& readings.len() == k
        &&& (readings[k - 1].0 as int, readings[k - 1].1 as int) == reading(data.output(k - 1), end)
        &&& exists|prev: Seq<LayerView>|
            tested_through(ar, act, data, (k - 1) as nat, start, prev, readings.subrange(0, k - 1)) && (
            #[trigger] forwarded(ar, act, prev, data.input(k - 1), end))
    }
}

/// Trains the network on every example of the source, in order: a forward
/// pass on the input of the example, then a backward pass towards its
/// desired output. Before each example `progress` is told its index.
pub fn train_network_back_propagation<
    D: Dataset,
    Act: Fn(u32) -> u32,
    Ar: Fn(Operation, u32, u32) -> u32,
    Cd: Fn(u32, u32) -> u32,
    Ad: Fn(u32) -> u32,
    Ar2: Fn(Operation, u32, u32) -> u32,
    P: Fn(usize),
>(
    net: &mut Network,
    forward: &ForwardPropagation<Act, Ar>,
    backward: &mut BackPropagation<Cd, Ad, Ar2>,
    dataset: &D,
    progress: &P,
)
    requires
        forward.total(),
        old(backward).total(),
        forall|i: usize| #[trigger] call_requires(*progress, (i,)),
        dataset.valid(),
        well_formed(old(net)@),
        old(net)@.len() > 0,
        fits(old(net)@, *dataset),
        well_formed(old(backward).cache()),
        geometry_of(old(backward).cache()) == geometry_of(old(net)@),
    ensures
        final(backward).same_setup(old(backward)),
        well_formed(final(backward).cache()),
        geometry_of(final(backward).cache()) == geometry_of(old(net)@),
        well_formed(final(net)@),
        same_shape(old(net)@, final(net)@),
        trained_through(
            Session {
                arithmetic: forward.arithmetic(),
                activation: forward.activation(),
                calculus: old(backward).calculus(),
                rate: old(backward).rate(),
            },
            *dataset,
            dataset.count(),
            old(net)@,
            final(net)@,
        ),
{
    let ghost s = Session {
        arithmetic: forward.arithmetic(),
        activation: forward.activation(),
        calculus: backward.calculus(),
        rate: backward.rate(),
    };
    let ghost net0 = net@;
    let n = dataset.nimages();
    let mut input: Signal = Vec::new();
    let mut target: Signal = Vec::new();
    proof {
        lemma_same_shape_transitive(net0, net0, net0);
    }
    let mut i: usize = 0;
    while i < n
        invariant
            forward.total(),
            backward.total(),
            backward.same_setup(old(backward)),
            s.arithmetic == forward.arithmetic(),
            s.activation == forward.activation(),
            s.calculus == backward.calculus(),
            s.rate == backward.rate(),
            forall|k: usize| #[trigger] call_requires(*progress, (k,)),
            dataset.valid(),
            n == dataset.count(),
            i <= n,
            well_formed(net0),
            net0.len() > 0,
            fits(net0, *dataset),
            well_formed(net@),
            same_shape(net0, net@),
            well_formed(backward.cache()),
            geometry_of(backward.cache()) == geometry_of(net0),
            trained_through(s, *dataset, i as nat, net0, net@),
        decreases n - i,
    {
        let ghost before = net@;
        progress(i);
        dataset.copy_training_input_signal(i, &mut input);
        dataset.copy_training_output_signal(i, &mut target);
        proof {
            assert(dataset.input(i as int).len() == net0[0].a.len());
            lemma_same_shape_well_formed(net0, before);
        }
        forward.run(net, &input);
        let ghost mid = net@;
        proof {
            lemma_same_shape_well_formed(before, mid);
        }
        backward.run(net, &target);
        proof {
            let after = net@;
            lemma_same_shape_transitive(net0, before, mid);
            lemma_same_shape_transitive(net0, mid, after);
            lemma_same_shape_well_formed(mid, after);
            assert(forwarded(s.arithmetic, s.activation, before, input@, mid));
            assert(learned(s.calculus, s.rate, mid, target@, after));
            let k = (i + 1) as nat;
            assert(k - 1 == i);
            assert(example_learned(s, dataset.input(k - 1), dataset.output(k - 1), before, after));
            assert(trained_through(s, *dataset, (k - 1) as nat, net0, before));
            assert(trained_through(s, *dataset, k, net0, after));
        }
        i += 1;
    }
}

/// Runs the network on every example of the source, in order, and reports
/// for each the place of the largest entry of the desired output and of the
/// factual one. After each example `report` is handed the desired output and
/// the factual one.
pub fn test_network_forward_propagation<
    D: Dataset,
    Act: Fn(u32) -> u32,
    Ar: Fn(Operation, u32, u32) -> u32,
    R: Fn(&Signal, &Signal),
>(
    net: &mut Network,
    forward: &ForwardPropagation<Act, Ar>,
    dataset: &D,
    report: &R,
) -> (readings: Vec<(usize, usize)>)
    requires
        forward.total(),
        forall|expected: &Signal, actual: &Signal| #[trigger] call_requires(*report, (expected, actual)),
        dataset.valid(),
        well_formed(old(net)@),
        old(net)@.len() > 1,
        old(net)@[old(net)@.len() - 1].a.len() > 0,
        fits(old(net)@, *dataset),
    ensures
        well_formed(final(net)@),
        same_shape(old(net)@, final(net)@),
        tested_through(
            forward.arithmetic(),
            forward.activation(),
            *dataset,
            dataset.count(),
            old(net)@,
            final(net)@,
            readings@,
        ),
{
    let ghost ar = forward.arithmetic();
    let ghost act = forward.activation();
    let ghost net0 = net@;
    let n = dataset.nimages();
    let mut input: Signal = Vec::new();
    let mut target: Signal = Vec::new();
    let mut readings: Vec<(usize, usize)> = Vec::new();
    proof {
        lemma_same_shape_transitive(net0, net0, net0);
    }
    let mut i: usize = 0;
    while i < n
        invariant
            forward.total(),
            forall|expected: &Signal, actual: &Signal| #[trigger] call_requires(*report, (expected, actual)),
            ar == forward.arithmetic(),
            act == forward.activation(),
            dataset.valid(),
            n == dataset.count(),
            i <= n,
            well_formed(net0),
            net0.len() > 1,
            net0[net0.len() - 1].a.len() > 0,
            fits(net0, *dataset),
            well_formed(net@),
            same_shape(net0, net@),
            tested_through(ar, act, *dataset, i as nat, net0, net@, readings@),
        decreases n - i,
    {
        let ghost before = net@;
        let ghost earlier = readings@;
        dataset.copy_training_input_signal(i, &mut input);
        dataset.copy_training_output_signal(i, &mut target);
        proof {
            assert(dataset.input(i as int).len() == net0[0].a.len());
            assert(dataset.output(i as int).len() == net0[net0.len() - 1].a.len());
        }
        forward.run(net, &input);
        proof {
            let after = net@;
            lemma_same_shape_transitive(net0, before, after);
            assert(layer_shaped(after, after.len() - 1));
        }
        let expected = signal_find_max_index(&target);
        let actual = signal_find_max_index(net.output_layer());
        report(&target, net.output_layer());
        readings.push((expected, actual));
        proof {
            let after = net@;
            let k = (i + 1) as nat;
            assert(k - 1 == i);
            assert(readings@.subrange(0, k - 1) =~= earlier);
            assert(forwarded(ar, act, before, dataset.input(k - 1), after));
            assert(tested_through(ar, act, *dataset, (k - 1) as nat, net0, before, readings@.subrange(0, k - 1)));
            assert(readings@[k - 1] == (expected, actual));
            assert((readings@[k - 1].0 as int, readings@[k - 1].1 as int) == reading(dataset.output(k - 1), after));
            assert(tested_through(ar, act, *dataset, k, net0, after, readings@));
        }
        i += 1;
    }
    readings
}

} // verus!
