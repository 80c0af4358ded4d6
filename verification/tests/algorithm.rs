use rand::distributions::{Distribution, Uniform};
use rusty_props::algorithm::func::{activation_step, activation_step_d, cost_mse_d, Operation};
use rusty_props::algorithm::{
    network_init_with_generator, network_init_with_value, network_init_with_values, ActivationFunctionFamily,
    ActivationProfile, BackPropagation, ForwardPropagation,
};
use rusty_props::ieee;
use rusty_props::network::Network;
use rusty_props::ut;

fn arith(op: Operation, x: u32, y: u32) -> u32 {
    let (a, b) = (f32::from_bits(x), f32::from_bits(y));
    match op {
        Operation::Add => (a + b).to_bits(),
        Operation::Sub => (a - b).to_bits(),
        Operation::Mul => (a * b).to_bits(),
    }
}

fn bits(x: f32) -> u32 {
    x.to_bits()
}

fn num(x: u32) -> f32 {
    f32::from_bits(x)
}

fn cost_d(reference: u32, value: u32) -> u32 {
    cost_mse_d(reference, value, &arith)
}

fn network_init_random(net: &mut Network) {
    let mut rng = rand::thread_rng();
    let gen = Uniform::from(0.0f32..1.0f32);
    network_init_with_generator(net, &mut || gen.sample(&mut rng).to_bits());
}

fn vec_init_random(vec: &mut Vec<u32>, from: f32, to: f32) {
    let mut rng = rand::thread_rng();
    let gen = Uniform::from(from..to);
    for s in vec {
        *s = gen.sample(&mut rng).to_bits();
    }
}

fn dcdz_output_stub(_reference: u32, _actual: u32) -> u32 {
    f32::NAN.to_bits()
}

fn dadz_stub(_dz: u32) -> u32 {
    f32::NAN.to_bits()
}

#[test]
fn test_network_random_initialization() {
    let geometry = vec![128, 16, 32, 4];
    let mut network = Network::from_geometry(&geometry);
    network_init_random(&mut network);
}

#[test]
fn network_random_initialization() {
    let geometry = vec![128, 16, 32, 4];
    let mut network = Network::from_geometry(&geometry);
    network_init_random(&mut network);
    for ilayer in 1..network.n_layers() {
        let mut it = network.edge_index_iter(ilayer);
        while let Some((ifrom, ito)) = it.next() {
            let (w, b) = network.edge_coef_wb(ilayer, ifrom, ito);
            assert!(0.0 <= num(w) && num(w) < 1.0);
            assert!(0.0 <= num(b) && num(b) < 1.0);
        }
    }
}

#[test]
fn test_forward_propagation() {
    let geometry = vec![128, 16, 32, 4];
    let mut network = Network::from_geometry(&geometry);
    let signal = ut::signal_stub_from_network_input(&network);
    network_init_random(&mut network);
    let forward_propagation = ForwardPropagation { activate: activation_step, arith };
    forward_propagation.run(&mut network, &signal);
}

#[test]
fn mod_run_forward() {
    let geometry = vec![2, 4, 2, 4];
    let mut network = Network::from_geometry(&geometry);
    // Initialize random input
    let mut signal = ut::signal_stub_from_network_input(&network);
    vec_init_random(&mut signal, 0.0f32, 1.0f32);

    network_init_random(&mut network);
    let forward_propagation = ForwardPropagation { activate: activation_step, arith };
    forward_propagation.run(&mut network, &signal);
    let ilayer = network.n_layers() - 1;
    let layer_len = network.layer_len(ilayer);

    for inode in 0..layer_len {
        assert!(!num(network.a(ilayer, inode)).is_nan());
    }
}

#[test]
fn test_back_propagation_construction() {
    let geometry = vec![128, 16, 32, 4];
    let network = Network::from_geometry(&geometry);
    let _back_propagation = BackPropagation::from_network(&network, dcdz_output_stub, dadz_stub, arith, bits(0.01));
}

#[test]
fn mod_construction() {
    let geometry = vec![128, 16, 32, 4];
    let network = Network::from_geometry(&geometry);
    let back_propagation = BackPropagation::from_network(&network, dcdz_output_stub, dadz_stub, arith, bits(0.01));
    assert_eq!(back_propagation.net_cache().geometry(), geometry);
    assert!(back_propagation.net_cache().is_well_formed());
}

/// Runs full circle, viz. forward and back propagation
#[test]
fn mod_run() {
    // Initialize network, its input, and output (reference) signals
    let geometry = vec![2, 2, 2];
    let mut network = Network::from_geometry(&geometry);
    network_init_random(&mut network);
    let mut signal_input = ut::signal_stub_from_network_input(&network);
    let mut signal_output = ut::signal_stub_from_network_output(&network);
    let epsilon = 0.01f32;
    vec_init_random(&mut signal_input, 0.0f32, 1.0f32);
    vec_init_random(&mut signal_output, 0.0f32, 1.0f32);

    // Initialize forward and back propagation algorithms w/ cost and activation functions
    let mut back_propagation =
        BackPropagation::from_network(&network, cost_d, activation_step_d, arith, bits(epsilon));
    let forward_propagation = ForwardPropagation { activate: activation_step, arith };

    // Run fwd. and back propagation algorithms
    forward_propagation.run(&mut network, &signal_input);
    let ilayer = network.n_layers() - 1;
    for inode in 0..network.layer_len(ilayer) {
        assert!(!num(network.a(ilayer, inode)).is_nan());
    }
    back_propagation.run(&mut network, &signal_output);

    let net_cache = back_propagation.net_cache();
    for ilayer in 1..net_cache.n_layers() {
        for inode in 0..net_cache.layer_len(ilayer) {
            assert!(ilayer == net_cache.n_layers() - 1 || !num(net_cache.a(ilayer, inode)).is_nan()); // NAN -> LAST LAYER, or !LAST_LAYER -> !NAN
            assert!(!num(net_cache.z(ilayer, inode)).is_nan());

            for ifrom in 0..net_cache.layer_len(ilayer - 1) {
                assert!(!num(net_cache.w(ilayer, ifrom, inode)).is_nan());
                assert!(!num(net_cache.b(ilayer, ifrom, inode)).is_nan());
            }
        }
    }
    // the slots that are never computed
    for inode in 0..net_cache.layer_len(2) {
        assert!(num(net_cache.a(2, inode)).is_nan());
    }
    for inode in 0..net_cache.layer_len(0) {
        assert!(num(net_cache.a(0, inode)).is_nan());
    }
}

#[test]
fn constant_initialisation_reaches_every_edge() {
    let mut network = Network::from_geometry(&vec![3, 2, 4]);
    network.set_a(1, 0, bits(9.0));
    network_init_with_value(&mut network, bits(0.25));
    for ilayer in 1..3 {
        for ifrom in 0..network.layer_len(ilayer - 1) {
            for ito in 0..network.layer_len(ilayer) {
                assert_eq!(network.edge_coef_wb(ilayer, ifrom, ito), (bits(0.25), bits(0.25)));
            }
        }
    }
    // nodes are left alone
    assert_eq!(network.a(1, 0), bits(9.0));
    assert!(num(network.a(0, 0)).is_nan());
    assert!(num(network.z(1, 0)).is_nan());
}

#[test]
fn generator_is_called_once_per_coefficient_in_order() {
    let mut network = Network::from_geometry(&vec![2, 2, 1]);
    let mut next = 0u32;
    network_init_with_generator(&mut network, &mut || {
        next += 1;
        bits(next as f32)
    });
    assert_eq!(next, 2 * (2 * 2 + 2 * 1));
    // layer by layer, source by source, weight before bias
    assert_eq!(network.edge_coef_wb(1, 0, 0), (bits(1.0), bits(2.0)));
    assert_eq!(network.edge_coef_wb(1, 0, 1), (bits(3.0), bits(4.0)));
    assert_eq!(network.edge_coef_wb(1, 1, 0), (bits(5.0), bits(6.0)));
    assert_eq!(network.edge_coef_wb(1, 1, 1), (bits(7.0), bits(8.0)));
    assert_eq!(network.edge_coef_wb(2, 0, 0), (bits(9.0), bits(10.0)));
    assert_eq!(network.edge_coef_wb(2, 1, 0), (bits(11.0), bits(12.0)));
}

#[test]
fn step_activation_and_its_slope() {
    assert_eq!(num(activation_step(bits(1.5))), 1.5);
    assert_eq!(num(activation_step(bits(-1.5))), 0.0);
    assert_eq!(activation_step(bits(0.0)), bits(0.0));
    assert_eq!(activation_step(bits(-0.0)), bits(-0.0));
    assert_eq!(activation_step(bits(f32::NEG_INFINITY)), bits(0.0));
    assert_eq!(activation_step(bits(f32::INFINITY)), bits(f32::INFINITY));
    assert!(num(activation_step(bits(f32::NAN))).is_nan());
    assert_eq!(num(activation_step_d(bits(1.5))), 1.0);
    assert_eq!(num(activation_step_d(bits(-1.5))), 0.0);
    assert_eq!(num(activation_step_d(bits(0.0))), 1.0);
    assert_eq!(num(activation_step_d(bits(-0.0))), 1.0);
    assert_eq!(num(activation_step_d(bits(f32::NAN))), 1.0);
    for x in [-3.0f32, -0.0, 0.0, 1.0e-30, 2.5, f32::MAX] {
        let expected = if x < 0.0 { 0.0 } else { x };
        assert_eq!(activation_step(bits(x)), bits(expected));
        let expected = if x < 0.0 { 0.0f32 } else { 1.0 };
        assert_eq!(activation_step_d(bits(x)), bits(expected));
    }
}

#[test]
fn activation_profile_of_the_step_family() {
    let profile = ActivationProfile::new(ActivationFunctionFamily::StepFunction);
    assert_eq!(profile.activation_function(bits(-4.0)), bits(0.0));
    assert_eq!(profile.activation_function(bits(4.0)), bits(4.0));
    assert_eq!(profile.activation_function_derivative(bits(-4.0)), bits(0.0));
    assert_eq!(profile.activation_function_derivative(bits(4.0)), bits(1.0));
}

#[test]
fn squared_error_derivative() {
    assert_eq!(num(cost_mse_d(bits(1.0), bits(2.5), &arith)), 3.0);
    assert_eq!(num(cost_mse_d(bits(0.0), bits(2.5), &arith)), 5.0);
    assert_eq!(num(cost_mse_d(bits(2.0), bits(0.5), &arith)), -3.0);
    let (r, v) = (0.3f32, 0.7f32);
    assert_eq!(cost_mse_d(bits(r), bits(v), &arith), bits(-2.0f32 * r + 2.0f32 * v));
}

#[test]
fn forward_pass_matches_the_hand_computed_values() {
    let mut network = Network::from_geometry(&vec![2, 2, 2]);
    network_init_with_value(&mut network, bits(0.5));
    let forward = ForwardPropagation::new(activation_step, arith);
    forward.run(&mut network, &vec![bits(1.0), bits(0.0)]);
    assert_eq!(network.a(0, 0), bits(1.0));
    assert_eq!(network.a(0, 1), bits(0.0));
    for inode in 0..2 {
        // (1 * 0.5 + 0.5) + (0 * 0.5 + 0.5)
        assert_eq!(num(network.z(1, inode)), 1.5);
        assert_eq!(num(network.a(1, inode)), 1.5);
        // (1.5 * 0.5 + 0.5) + (1.5 * 0.5 + 0.5)
        assert_eq!(num(network.z(2, inode)), 2.5);
        assert_eq!(num(network.a(2, inode)), 2.5);
        assert!(num(network.a(2, inode)).is_finite());
    }
    assert_eq!(network.output_layer(), &vec![bits(2.5), bits(2.5)]);
    // weights and biases stay
    assert_eq!(network.edge_coef_wb(1, 1, 0), (bits(0.5), bits(0.5)));
    assert_eq!(network.edge_coef_wb(2, 0, 1), (bits(0.5), bits(0.5)));
}

#[test]
fn forward_pass_sums_in_order_of_the_source_nodes() {
    // with these terms the order of the additions shows in the result
    let mut network = Network::from_geometry(&vec![3, 1]);
    network_init_with_value(&mut network, bits(0.0));
    let terms = [1.0e8f32, -1.0e8, 1.0];
    for ifrom in 0..3 {
        network.set_w(1, ifrom, 0, bits(1.0));
    }
    let forward = ForwardPropagation::new(activation_step, arith);
    forward.run(&mut network, &terms.iter().map(|x| bits(*x)).collect());
    assert_eq!(num(network.z(1, 0)), ((0.0 + 1.0e8f32) + -1.0e8f32) + 1.0);
    assert_eq!(num(network.z(1, 0)), 1.0);
    let terms = [1.0f32, 1.0e8, -1.0e8];
    forward.run(&mut network, &terms.iter().map(|x| bits(*x)).collect());
    assert_eq!(num(network.z(1, 0)), 0.0);
}

#[test]
fn forward_pass_activates_every_node() {
    let mut network = Network::from_geometry(&vec![1, 3]);
    network_init_with_value(&mut network, bits(1.0));
    network.set_b(1, 0, 0, bits(-5.0));
    let forward = ForwardPropagation::new(activation_step, arith);
    forward.run(&mut network, &vec![bits(2.0)]);
    assert_eq!(num(network.z(1, 0)), -3.0);
    assert_eq!(num(network.a(1, 0)), 0.0);
    assert_eq!(num(network.z(1, 1)), 3.0);
    assert_eq!(num(network.a(1, 1)), 3.0);
    assert_eq!(num(network.a(1, 2)), 3.0);
}

#[test]
fn forward_pass_twice_gives_the_same_bits() {
    let mut network = Network::from_geometry(&vec![4, 5, 3]);
    network_init_random(&mut network);
    let mut signal = ut::signal_stub_from_network_input(&network);
    vec_init_random(&mut signal, -1.0, 1.0);
    let forward = ForwardPropagation::new(activation_step, arith);
    forward.run(&mut network, &signal);
    let first = network.as_layer_tuple_vec().iter().map(|t| (t.0.clone(), t.1.clone())).collect::<Vec<_>>();
    forward.run(&mut network, &signal);
    let second = network.as_layer_tuple_vec().iter().map(|t| (t.0.clone(), t.1.clone())).collect::<Vec<_>>();
    assert_eq!(first, second);
}

#[test]
fn gradient_descent_on_the_worked_example() {
    let mut network = Network::from_geometry(&vec![2, 2, 2]);
    network_init_with_value(&mut network, bits(0.5));
    let forward = ForwardPropagation::new(activation_step, arith);
    forward.run(&mut network, &vec![bits(1.0), bits(0.0)]);
    let before = network.as_layer_tuple_vec().iter().map(|t| (t.2.clone(), t.3.clone())).collect::<Vec<_>>();

    let rate = 0.01f32;
    let mut backward = BackPropagation::from_network(&network, cost_d, activation_step_d, arith, bits(rate));
    backward.run(&mut network, &vec![bits(1.0), bits(0.0)]);
    let cache = backward.net_cache();

    // the derivatives by the weighted sums of the output layer: -2 * target + 2 * sum
    assert_eq!(num(cache.z(2, 0)), 3.0);
    assert_eq!(num(cache.z(2, 1)), 5.0);
    // by the activations of the hidden layer: 3 * 0.5 + 5 * 0.5, with the weights as they were
    assert_eq!(num(cache.a(1, 0)), 4.0);
    assert_eq!(num(cache.a(1, 1)), 4.0);
    // times the slope of the activation at 1.5
    assert_eq!(num(cache.z(1, 0)), 4.0);
    assert_eq!(num(cache.z(1, 1)), 4.0);
    for ito in 0..2 {
        // times the activation of the source node
        assert_eq!(num(cache.w(2, 0, ito)), num(cache.z(2, ito)) * 1.5);
        assert_eq!(num(cache.w(2, 1, ito)), num(cache.z(2, ito)) * 1.5);
        assert_eq!(num(cache.b(2, 0, ito)), num(cache.z(2, ito)));
        assert_eq!(num(cache.w(1, 0, ito)), 4.0);
        assert_eq!(num(cache.w(1, 1, ito)), 0.0);
        assert_eq!(num(cache.b(1, 0, ito)), 4.0);
        assert_eq!(num(cache.b(1, 1, ito)), 4.0);
    }
    assert_eq!(num(cache.w(2, 0, 0)), 4.5);
    assert_eq!(num(cache.w(2, 1, 1)), 7.5);

    // every weight and bias moved by exactly minus the rate times its gradient
    for ilayer in 1..3 {
        for ifrom in 0..2 {
            for ito in 0..2 {
                let old_w = num(before[ilayer].0[ifrom][ito]);
                let old_b = num(before[ilayer].1[ifrom][ito]);
                assert_eq!(old_w, 0.5);
                assert_eq!(num(network.w(ilayer, ifrom, ito)), old_w - num(cache.w(ilayer, ifrom, ito)) * rate);
                assert_eq!(num(network.b(ilayer, ifrom, ito)), old_b - num(cache.b(ilayer, ifrom, ito)) * rate);
            }
        }
    }
    assert_eq!(num(network.w(2, 0, 0)), 0.5 - 4.5 * rate);
    assert_eq!(num(network.w(1, 1, 0)), 0.5);
    // activations and sums are left as the forward pass put them
    assert_eq!(num(network.z(2, 0)), 2.5);
    assert_eq!(num(network.a(1, 1)), 1.5);
}

#[test]
fn backward_pass_starts_from_an_empty_table_each_time() {
    let mut network = Network::from_geometry(&vec![2, 2, 2]);
    network_init_with_value(&mut network, bits(0.5));
    let forward = ForwardPropagation::new(activation_step, arith);
    let mut backward = BackPropagation::from_network(&network, cost_d, activation_step_d, arith, bits(0.01));
    forward.run(&mut network, &vec![bits(1.0), bits(0.0)]);
    backward.run(&mut network, &vec![bits(1.0), bits(0.0)]);
    assert_eq!(num(backward.net_cache().z(2, 0)), 3.0);
    forward.run(&mut network, &vec![bits(0.0), bits(0.0)]);
    backward.run(&mut network, &vec![bits(0.0), bits(0.0)]);
    let z = num(network.z(2, 0));
    assert_eq!(num(backward.net_cache().z(2, 0)), -2.0 * 0.0 + 2.0 * z);
    assert_eq!(num(backward.net_cache().w(1, 0, 0)), 0.0);
}

#[test]
fn a_derivative_that_is_no_number_shows_in_the_update() {
    let mut network = Network::from_geometry(&vec![1, 1]);
    network_init_with_value(&mut network, bits(0.5));
    let forward = ForwardPropagation::new(activation_step, arith);
    forward.run(&mut network, &vec![bits(1.0)]);
    let mut backward = BackPropagation::from_network(&network, dcdz_output_stub, dadz_stub, arith, bits(0.01));
    backward.run(&mut network, &vec![bits(1.0)]);
    assert!(num(backward.net_cache().z(1, 0)).is_nan());
    assert!(num(backward.net_cache().w(1, 0, 0)).is_nan());
    assert!(num(network.w(1, 0, 0)).is_nan());
    assert!(num(network.b(1, 0, 0)).is_nan());
    assert!(ieee::is_nan(network.w(1, 0, 0)));
}

#[test]
fn derivatives_one_by_one() {
    let mut network = Network::from_geometry(&vec![2, 2, 2]);
    network_init_with_value(&mut network, bits(0.5));
    let forward = ForwardPropagation::new(activation_step, arith);
    forward.run(&mut network, &vec![bits(1.0), bits(0.0)]);
    let target = vec![bits(1.0), bits(0.0)];
    let mut backward = BackPropagation::from_network(&network, cost_d, activation_step_d, arith, bits(0.01));

    // the direct ones
    assert_eq!(backward.dzda(1, 0, 1, &network), bits(0.5));
    assert_eq!(backward.dzdw(2, 1, 0, &network), bits(1.5));
    assert_eq!(backward.dzdw(1, 0, 1, &network), bits(1.0));
    assert_eq!(backward.dzdb(), bits(1.0));

    // a miss computes, and notes what it needed on the way
    assert!(num(backward.net_cache().w(1, 0, 0)).is_nan());
    assert_eq!(num(backward.dcdw(1, 0, 0, &network, &target)), 4.0);
    assert_eq!(num(backward.net_cache().w(1, 0, 0)), 4.0);
    assert_eq!(num(backward.net_cache().z(1, 0)), 4.0);
    assert_eq!(num(backward.net_cache().a(1, 0)), 4.0);
    assert_eq!(num(backward.net_cache().z(2, 0)), 3.0);
    assert_eq!(num(backward.net_cache().z(2, 1)), 5.0);
    // what was not asked for is still a miss
    assert!(num(backward.net_cache().w(1, 1, 0)).is_nan());
    assert!(num(backward.net_cache().b(1, 0, 0)).is_nan());
    assert!(num(backward.net_cache().z(1, 1)).is_nan());
    assert!(num(backward.net_cache().w(2, 0, 0)).is_nan());

    assert_eq!(num(backward.dcdb(2, 1, 1, &network, &target)), 5.0);
    assert_eq!(num(backward.dcdz(2, 0, &network, &target)), 3.0);
    assert_eq!(num(backward.dcda(1, 1, &network, &target)), 4.0);
    assert_eq!(num(backward.dcdz(1, 1, &network, &target)), 4.0);
    assert_eq!(num(backward.dcdw(2, 0, 1, &network, &target)), 7.5);
    assert_eq!(num(backward.dcda(0, 0, &network, &target)), 4.0);
}

#[test]
fn a_hit_is_returned_as_it_stands() {
    let mut network = Network::from_geometry(&vec![1, 1, 1]);
    network_init_with_value(&mut network, bits(0.5));
    let forward = ForwardPropagation::new(activation_step, arith);
    forward.run(&mut network, &vec![bits(1.0)]);
    let target = vec![bits(0.0)];
    let mut backward = BackPropagation::from_network(&network, cost_d, activation_step_d, arith, bits(0.01));
    let first = backward.dcdz(1, 0, &network, &target);
    let noted = backward.net_cache().as_layer_tuple_vec().iter().map(|t| (t.0.clone(), t.1.clone())).collect::<Vec<_>>();
    assert_eq!(backward.dcdz(1, 0, &network, &target), first);
    assert_eq!(backward.dcda(1, 0, &network, &target), backward.net_cache().a(1, 0));
    let after = backward.net_cache().as_layer_tuple_vec().iter().map(|t| (t.0.clone(), t.1.clone())).collect::<Vec<_>>();
    assert_eq!(noted, after);
}

#[test]
fn a_network_of_one_layer_only_takes_its_input() {
    let mut network = Network::from_geometry(&vec![3]);
    let forward = ForwardPropagation::new(activation_step, arith);
    forward.run(&mut network, &vec![bits(1.0), bits(2.0), bits(3.0)]);
    assert_eq!(network.a(0, 2), bits(3.0));
    assert!(network.output_layer().is_empty());
    let mut backward = BackPropagation::from_network(&network, cost_d, activation_step_d, arith, bits(0.01));
    backward.run(&mut network, &vec![bits(0.0), bits(0.0), bits(0.0)]);
    assert_eq!(network.a(0, 2), bits(3.0));
    assert!(num(backward.net_cache().a(0, 0)).is_nan());
    network_init_with_value(&mut network, bits(0.5));
    assert_eq!(network.geometry(), vec![3]);
}

#[test]
fn initialisation_of_a_network_without_edges() {
    let mut network = Network::from_geometry(&vec![]);
    let mut calls = 0;
    network_init_with_generator(&mut network, &mut || {
        calls += 1;
        0
    });
    assert_eq!(calls, 0);
    let mut network = Network::from_geometry(&vec![2, 0, 3]);
    network_init_with_generator(&mut network, &mut || {
        calls += 1;
        0
    });
    assert_eq!(calls, 0);
    assert!(network.is_well_formed());
}

#[test]
fn values_are_placed_in_the_order_of_the_walk() {
    let mut network = Network::from_geometry(&vec![2, 2, 2]);
    let values: Vec<u32> = (1..=16).map(|k| bits(k as f32)).collect();
    network_init_with_values(&mut network, &values);
    let mut expected = 0.0f32;
    for ilayer in 1..3 {
        for ifrom in 0..2 {
            for ito in 0..2 {
                expected += 1.0;
                assert_eq!(num(network.w(ilayer, ifrom, ito)), expected);
                expected += 1.0;
                assert_eq!(num(network.b(ilayer, ifrom, ito)), expected);
            }
        }
    }
    assert_eq!(expected, 16.0);
    assert_eq!(network.edge_coef_wb(1, 0, 0), (bits(1.0), bits(2.0)));
    assert_eq!(network.edge_coef_wb(1, 1, 0), (bits(5.0), bits(6.0)));
    assert_eq!(network.edge_coef_wb(2, 0, 0), (bits(9.0), bits(10.0)));
    assert_eq!(network.edge_coef_wb(2, 1, 1), (bits(15.0), bits(16.0)));
    for ilayer in 0..3 {
        for inode in 0..2 {
            assert!(num(network.a(ilayer, inode)).is_nan());
            if ilayer > 0 {
                assert!(num(network.z(ilayer, inode)).is_nan());
            }
        }
    }

    // a counting generator leaves the same network
    let mut counted = Network::from_geometry(&vec![2, 2, 2]);
    let mut k = 0.0f32;
    network_init_with_generator(&mut counted, &mut || {
        k += 1.0;
        bits(k)
    });
    assert_eq!(k, 16.0);
    for ilayer in 1..3 {
        for ifrom in 0..2 {
            for ito in 0..2 {
                assert_eq!(counted.edge_coef_wb(ilayer, ifrom, ito), network.edge_coef_wb(ilayer, ifrom, ito));
            }
        }
    }
}

#[test]
fn values_for_layers_of_different_sizes() {
    let mut network = Network::from_geometry(&vec![3, 1, 2]);
    assert_eq!(network.n_edges(), Some(5));
    let values: Vec<u32> = (0..10).collect();
    network_init_with_values(&mut network, &values);
    assert_eq!(network.edge_coef_wb(1, 0, 0), (0, 1));
    assert_eq!(network.edge_coef_wb(1, 1, 0), (2, 3));
    assert_eq!(network.edge_coef_wb(1, 2, 0), (4, 5));
    assert_eq!(network.edge_coef_wb(2, 0, 0), (6, 7));
    assert_eq!(network.edge_coef_wb(2, 0, 1), (8, 9));
    let mut none = Network::from_geometry(&vec![4]);
    network_init_with_values(&mut none, &vec![]);
    assert_eq!(none.geometry(), vec![4]);
}

#[test]
fn a_filled_slot_of_the_table_is_not_computed_again() {
    let calls = std::cell::Cell::new(0);
    let counting_cost = |reference: u32, value: u32| {
        calls.set(calls.get() + 1);
        cost_mse_d(reference, value, &arith)
    };
    let mut network = Network::from_geometry(&vec![1, 1]);
    network_init_with_value(&mut network, bits(0.5));
    let forward = ForwardPropagation::new(activation_step, arith);
    forward.run(&mut network, &vec![bits(1.0)]);
    let target = vec![bits(0.0)];
    let mut backward = BackPropagation::from_network(&network, counting_cost, activation_step_d, arith, bits(0.01));
    let first = backward.dcdz(1, 0, &network, &target);
    assert_eq!(calls.get(), 1);
    assert_eq!(backward.dcdz(1, 0, &network, &target), first);
    assert_eq!(backward.dcdw(1, 0, 0, &network, &target), bits(num(first) * 1.0));
    assert_eq!(backward.dcdb(1, 0, 0, &network, &target), first);
    assert_eq!(backward.dcdw(1, 0, 0, &network, &target), bits(num(first) * 1.0));
    assert_eq!(calls.get(), 1);
}
