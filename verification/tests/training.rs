use rusty_props::algorithm::func::{activation_step, activation_step_d, cost_mse_d, Operation};
use rusty_props::algorithm::{
    network_init_with_value, test_network_forward_propagation, train_network_back_propagation, BackPropagation,
    ForwardPropagation,
};
use rusty_props::network::Network;
use rusty_props::training::mnist::{train, Mnist, MnistTrainingState, IMG_SIZE, IMG_SIZE_BYTES, N_CLASSES};
use rusty_props::ut::data::Dataset;

fn arith(op: Operation, x: u32, y: u32) -> u32 {
    let (a, b) = (f32::from_bits(x), f32::from_bits(y));
    match op {
        Operation::Add => (a + b).to_bits(),
        Operation::Sub => (a - b).to_bits(),
        Operation::Mul => (a * b).to_bits(),
    }
}

fn bits(x: f32) -> u32 {
    x.to_bits()
}

fn num(x: u32) -> f32 {
    f32::from_bits(x)
}

fn cost_d(reference: u32, value: u32) -> u32 {
    cost_mse_d(reference, value, &arith)
}

fn quiet(_: usize) {}

fn unheard(_: &Vec<u32>, _: &Vec<u32>) {}

fn corpus(labels: &[u8]) -> Mnist {
    let mut trn_img = Vec::new();
    for (i, label) in labels.iter().enumerate() {
        for k in 0..IMG_SIZE_BYTES {
            trn_img.push(if k % N_CLASSES == *label as usize { (i + 1) as u8 } else { 0 });
        }
    }
    Mnist { trn_img, trn_lbl: labels.to_vec(), tst_img: Vec::new(), tst_lbl: Vec::new() }
}

#[test]
fn sizes_of_the_corpus() {
    assert_eq!(IMG_SIZE, 28);
    assert_eq!(IMG_SIZE_BYTES, 28 * 28);
    assert_eq!(N_CLASSES, 10);
}

#[test]
fn offsets_count_from_the_start_of_the_session() {
    let mnist = corpus(&[3, 1, 4, 1, 5]);
    let state = MnistTrainingState { dataset: &mnist, base_offset: 2 };
    assert_eq!(state.offset_as_relative(0), 2);
    assert_eq!(state.offset_as_relative(2), 4);
    assert_eq!(state.nimages(), 3);
    let state = MnistTrainingState { dataset: &mnist, base_offset: 5 };
    assert_eq!(state.nimages(), 0);
}

#[test]
fn examples_of_a_session() {
    let mnist = corpus(&[3, 1, 4]);
    let state = MnistTrainingState { dataset: &mnist, base_offset: 1 };
    let mut signal = vec![bits(9.0); 3];
    state.copy_training_input_signal(0, &mut signal);
    assert_eq!(signal.len(), IMG_SIZE_BYTES);
    for k in 0..IMG_SIZE_BYTES {
        assert_eq!(num(signal[k]), if k % 10 == 1 { 2.0 } else { 0.0 });
    }
    state.copy_training_input_signal(1, &mut signal);
    assert_eq!(num(signal[4]), 3.0);
    assert_eq!(num(signal[1]), 0.0);

    let mut target = Vec::new();
    state.copy_training_output_signal(0, &mut target);
    assert_eq!(target.iter().map(|x| num(*x)).collect::<Vec<_>>(), vec![0.0, 1.0, 0.0, 0.0, 0.0, 0.0, 0.0, 0.0, 0.0, 0.0]);
    // the signal is replaced, not added to
    state.copy_training_output_signal(1, &mut target);
    assert_eq!(target.iter().map(|x| num(*x)).collect::<Vec<_>>(), vec![0.0, 0.0, 0.0, 0.0, 1.0, 0.0, 0.0, 0.0, 0.0, 0.0]);
}

#[test]
fn training_is_one_forward_and_one_backward_pass_per_image() {
    let mnist = corpus(&[3, 1, 4]);
    let geometry = vec![IMG_SIZE_BYTES, 4, N_CLASSES];
    let forward = ForwardPropagation::new(activation_step, arith);

    let mut network = Network::from_geometry(&geometry);
    network_init_with_value(&mut network, bits(0.001));
    let mut backward = BackPropagation::from_network(&network, cost_d, activation_step_d, arith, bits(0.0001));
    train(&mut network, &mnist, 1, &forward, &mut backward, &quiet);

    let mut by_hand = Network::from_geometry(&geometry);
    network_init_with_value(&mut by_hand, bits(0.001));
    let mut backward = BackPropagation::from_network(&by_hand, cost_d, activation_step_d, arith, bits(0.0001));
    let state = MnistTrainingState { dataset: &mnist, base_offset: 1 };
    let (mut input, mut target) = (Vec::new(), Vec::new());
    for i in 0..2 {
        state.copy_training_input_signal(i, &mut input);
        state.copy_training_output_signal(i, &mut target);
        forward.run(&mut by_hand, &input);
        backward.run(&mut by_hand, &target);
    }
    let owned = |n: &Network| {
        n.as_layer_tuple_vec().iter().map(|t| (t.0.clone(), t.1.clone(), t.2.clone(), t.3.clone())).collect::<Vec<_>>()
    };
    assert_eq!(owned(&network), owned(&by_hand));
    assert_ne!(network.w(2, 0, 1), bits(0.001));

    let mut generic = Network::from_geometry(&geometry);
    network_init_with_value(&mut generic, bits(0.001));
    let mut backward = BackPropagation::from_network(&generic, cost_d, activation_step_d, arith, bits(0.0001));
    train_network_back_propagation(&mut generic, &forward, &mut backward, &state, &quiet);
    assert_eq!(owned(&generic), owned(&network));
}

#[test]
fn training_from_the_end_of_the_corpus_changes_nothing() {
    let mnist = corpus(&[3, 1]);
    let mut network = Network::from_geometry(&vec![IMG_SIZE_BYTES, N_CLASSES]);
    network_init_with_value(&mut network, bits(0.5));
    let forward = ForwardPropagation::new(activation_step, arith);
    let mut backward = BackPropagation::from_network(&network, cost_d, activation_step_d, arith, bits(0.01));
    train(&mut network, &mnist, 2, &forward, &mut backward, &quiet);
    assert_eq!(network.w(1, 0, 0), bits(0.5));
    assert!(num(network.a(0, 0)).is_nan());
}

#[test]
fn testing_reports_the_digit_shown_and_the_digit_read() {
    let mnist = corpus(&[3, 1, 4]);
    let mut network = Network::from_geometry(&vec![IMG_SIZE_BYTES, N_CLASSES]);
    network_init_with_value(&mut network, bits(0.0));
    // pixel k speaks for digit k % 10
    for k in 0..IMG_SIZE_BYTES {
        network.set_w(1, k, k % N_CLASSES, bits(1.0));
    }
    let forward = ForwardPropagation::new(activation_step, arith);
    let readings = rusty_props::training::mnist::test(&mut network, &mnist, &forward, &unheard);
    assert_eq!(readings, vec![(3, 3), (1, 1), (4, 4)]);
    // with every weight alike the first digit wins
    network_init_with_value(&mut network, bits(1.0));
    let readings = rusty_props::training::mnist::test(&mut network, &mnist, &forward, &unheard);
    assert_eq!(readings, vec![(3, 0), (1, 0), (4, 0)]);
    let state = MnistTrainingState { dataset: &mnist, base_offset: 2 };
    let readings = test_network_forward_propagation(&mut network, &forward, &state, &unheard);
    assert_eq!(readings, vec![(4, 0)]);
}

/// Two examples for a network of two inputs and two outputs.
struct Pairs;

impl Dataset for Pairs {
    fn copy_training_input_signal(&self, image_index: usize, signal: &mut Vec<u32>) {
        *signal = vec![bits(image_index as f32), bits(1.0)];
    }

    fn copy_training_output_signal(&self, image_index: usize, signal: &mut Vec<u32>) {
        *signal = if image_index == 0 { vec![bits(1.0), bits(0.0)] } else { vec![bits(0.0), bits(1.0)] };
    }

    fn nimages(&self) -> usize {
        2
    }
}

#[test]
fn a_source_of_examples_of_ones_own() {
    let forward = ForwardPropagation::new(activation_step, arith);
    let mut network = Network::from_geometry(&vec![2, 2]);
    network_init_with_value(&mut network, bits(0.5));
    let readings = test_network_forward_propagation(&mut network, &forward, &Pairs, &unheard);
    assert_eq!(readings, vec![(0, 0), (1, 0)]);
    // the second example was the last to run: (1 * 0.5 + 0.5) + (1 * 0.5 + 0.5)
    assert_eq!(num(network.z(1, 0)), 2.0);

    let mut backward = BackPropagation::from_network(&network, cost_d, activation_step_d, arith, bits(0.25));
    let seen = std::cell::RefCell::new(Vec::new());
    train_network_back_propagation(&mut network, &forward, &mut backward, &Pairs, &|i: usize| seen.borrow_mut().push(i));
    assert_eq!(seen.into_inner(), vec![0, 1]);
    assert_ne!(network.w(1, 1, 0), bits(0.5));
}

#[test]
fn every_example_is_reported_with_both_outputs() {
    let forward = ForwardPropagation::new(activation_step, arith);
    let mut network = Network::from_geometry(&vec![2, 2]);
    network_init_with_value(&mut network, bits(0.5));
    let heard = std::cell::RefCell::new(Vec::new());
    let readings = test_network_forward_propagation(&mut network, &forward, &Pairs, &|expected: &Vec<u32>, actual: &Vec<u32>| {
        heard.borrow_mut().push((expected.clone(), actual.clone()));
    });
    let heard = heard.into_inner();
    assert_eq!(readings.len(), 2);
    assert_eq!(heard.len(), 2);
    assert_eq!(heard[0].0, vec![bits(1.0), bits(0.0)]);
    assert_eq!(heard[1].0, vec![bits(0.0), bits(1.0)]);
    // (0 * 0.5 + 0.5) + (1 * 0.5 + 0.5), then (1 * 0.5 + 0.5) + (1 * 0.5 + 0.5)
    assert_eq!(heard[0].1, vec![bits(1.5), bits(1.5)]);
    assert_eq!(heard[1].1, vec![bits(2.0), bits(2.0)]);
}
