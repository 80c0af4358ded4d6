use rusty_props::algorithm::func::Operation;
use rusty_props::algorithm::network_init_with_value;
use rusty_props::ieee;
use rusty_props::network::{EdgeIndexIter, Layer, Network};

fn arith(op: Operation, x: u32, y: u32) -> u32 {
    let (a, b) = (f32::from_bits(x), f32::from_bits(y));
    match op {
        Operation::Add => (a + b).to_bits(),
        Operation::Sub => (a - b).to_bits(),
        Operation::Mul => (a * b).to_bits(),
    }
}

fn bits(x: f32) -> u32 {
    x.to_bits()
}

#[test]
fn network_construction() {
    let geometry = vec![128, 16, 32, 4];
    let network = Network::from_geometry(&geometry);

    for i in 0..geometry.len() {
        assert_eq!(network.layer_len(i), geometry[i]);
    }
}

#[test]
fn geometry_is_kept_for_every_layer() {
    for geometry in [vec![], vec![1], vec![3, 0, 2], vec![2, 2, 2], vec![784, 16, 8, 10]] {
        let network = Network::from_geometry(&geometry);
        assert_eq!(network.n_layers(), geometry.len());
        assert_eq!(network.geometry(), geometry);
        assert!(network.is_match_geometry(&geometry));
        assert!(network.is_well_formed());
        for i in 0..geometry.len() {
            assert_eq!(network.layer_len(i), geometry[i]);
        }
    }
}

#[test]
fn geometry_mismatch_is_told() {
    let network = Network::from_geometry(&vec![2, 3, 1]);
    assert!(!network.is_match_geometry(&vec![2, 3]));
    assert!(!network.is_match_geometry(&vec![2, 3, 2]));
    assert!(!network.is_match_geometry(&vec![2, 3, 1, 1]));
    assert!(network.is_match_geometry(&vec![2, 3, 1]));
}

#[test]
fn fresh_network_holds_the_mark_everywhere() {
    let network = Network::from_geometry(&vec![2, 3, 2]);
    assert_eq!(ieee::NAN, f32::NAN.to_bits());
    for ilayer in 0..3 {
        for inode in 0..network.layer_len(ilayer) {
            assert!(f32::from_bits(network.a(ilayer, inode)).is_nan());
            if ilayer > 0 {
                assert!(f32::from_bits(network.z(ilayer, inode)).is_nan());
                for ifrom in 0..network.layer_len(ilayer - 1) {
                    assert_eq!(network.w(ilayer, ifrom, inode), ieee::NAN);
                    assert_eq!(network.b(ilayer, ifrom, inode), ieee::NAN);
                }
            }
        }
    }
}

#[test]
fn accessors_read_what_mutators_wrote() {
    let mut network = Network::from_geometry(&vec![2, 3, 2]);
    network.set_a(0, 1, bits(1.5));
    network.set_a(2, 0, bits(-2.0));
    network.set_z(1, 2, bits(0.25));
    network.set_w(1, 1, 2, bits(3.0));
    network.set_b(2, 2, 1, bits(4.0));
    assert_eq!(network.a(0, 1), bits(1.5));
    assert_eq!(network.a(2, 0), bits(-2.0));
    assert_eq!(network.z(1, 2), bits(0.25));
    assert_eq!(network.w(1, 1, 2), bits(3.0));
    assert_eq!(network.b(2, 2, 1), bits(4.0));
    assert_eq!(network.edge_coef_wb(1, 1, 2), (bits(3.0), ieee::NAN));
    assert_eq!(network.edge_coef_wb(2, 2, 1), (ieee::NAN, bits(4.0)));
    // the neighbours are untouched
    assert_eq!(network.a(0, 0), ieee::NAN);
    assert_eq!(network.w(1, 1, 1), ieee::NAN);
    assert_eq!(network.w(1, 0, 2), ieee::NAN);
    assert_eq!(network.b(2, 1, 1), ieee::NAN);
    assert_eq!(network.geometry(), vec![2, 3, 2]);
}

#[test]
fn input_and_output_layers() {
    let mut network = Network::from_geometry(&vec![3, 2]);
    let signal = vec![bits(1.0), bits(2.0), bits(3.0)];
    network.init_input_layer(&signal);
    for i in 0..3 {
        assert_eq!(network.a(0, i), signal[i]);
    }
    network.set_z(1, 0, bits(7.0));
    network.set_z(1, 1, bits(8.0));
    network.set_a(1, 0, bits(70.0));
    assert_eq!(network.output_layer(), &vec![bits(7.0), bits(8.0)]);
}

#[test]
fn edge_enumeration_covers_the_cross_product_once() {
    let network = Network::from_geometry(&vec![3, 4, 2]);
    let mut it = network.edge_index_iter(1);
    let mut seen = Vec::new();
    while let Some(edge) = it.next() {
        seen.push(edge);
    }
    assert_eq!(it.next(), None);
    assert_eq!(seen.len(), 3 * 4);
    let mut expected = Vec::new();
    for ifrom in 0..3 {
        for ito in 0..4 {
            expected.push((ifrom, ito));
        }
    }
    assert_eq!(seen, expected);
    for i in 0..seen.len() {
        for j in 0..i {
            assert_ne!(seen[i], seen[j]);
        }
    }
    // a second walk starts over
    let mut again = network.edge_index_iter(1);
    assert_eq!(again.next(), Some((0, 0)));
    assert_eq!(again.next(), Some((0, 1)));

    let mut last = network.edge_index_iter(2);
    let mut count = 0;
    while let Some((ifrom, ito)) = last.next() {
        assert!(ifrom < 4 && ito < 2);
        count += 1;
    }
    assert_eq!(count, 8);
}

#[test]
fn edge_enumeration_of_empty_layers() {
    let mut none = EdgeIndexIter::new(0, 5);
    assert_eq!(none.next(), None);
    let mut none = EdgeIndexIter::new(5, 0);
    assert_eq!(none.next(), None);
    let mut one = EdgeIndexIter::new(1, 1);
    assert_eq!(one.next(), Some((0, 0)));
    assert_eq!(one.next(), None);
    assert_eq!(one.next(), None);
}

#[test]
fn reset_twice_leaves_every_probe_a_miss() {
    let mut network = Network::from_geometry(&vec![2, 3, 2]);
    network_init_with_value(&mut network, bits(0.5));
    network.set_a(1, 1, bits(1.0));
    network.set_z(2, 0, bits(1.0));
    network.reset();
    let once = network.as_layer_tuple_vec().iter().map(|t| (t.0.clone(), t.1.clone(), t.2.clone(), t.3.clone())).collect::<Vec<_>>();
    network.reset();
    let twice = network.as_layer_tuple_vec().iter().map(|t| (t.0.clone(), t.1.clone(), t.2.clone(), t.3.clone())).collect::<Vec<_>>();
    assert_eq!(once, twice);
    assert_eq!(network.geometry(), vec![2, 3, 2]);
    for ilayer in 0..3 {
        for inode in 0..network.layer_len(ilayer) {
            assert!(ieee::is_nan(network.a(ilayer, inode)));
            if ilayer > 0 {
                assert!(ieee::is_nan(network.z(ilayer, inode)));
                for ifrom in 0..network.layer_len(ilayer - 1) {
                    assert!(ieee::is_nan(network.w(ilayer, ifrom, inode)));
                    assert!(ieee::is_nan(network.b(ilayer, ifrom, inode)));
                }
            }
        }
    }
}

#[test]
fn layers_as_tuples_and_back() {
    let mut network = Network::from_geometry(&vec![2, 1]);
    network_init_with_value(&mut network, bits(0.5));
    network.set_a(0, 0, bits(1.0));
    network.set_z(1, 0, bits(2.0));
    let tuples = network.as_layer_tuple_vec();
    assert_eq!(tuples.len(), 2);
    // sums, activations, weights, biases
    assert_eq!(tuples[0].0.len(), 0);
    assert_eq!(tuples[0].1, &vec![bits(1.0), ieee::NAN]);
    assert_eq!(tuples[0].2.len(), 0);
    assert_eq!(tuples[0].3.len(), 0);
    assert_eq!(tuples[1].0, &vec![bits(2.0)]);
    assert_eq!(tuples[1].1, &vec![ieee::NAN]);
    assert_eq!(tuples[1].2, &vec![vec![bits(0.5)], vec![bits(0.5)]]);
    assert_eq!(tuples[1].3, &vec![vec![bits(0.5)], vec![bits(0.5)]]);

    let layer = Layer::from_layer_tuple(tuples[1]);
    let copy = layer.as_tuple();
    assert_eq!(copy.0, tuples[1].0);
    assert_eq!(copy.2, tuples[1].2);

    let owned = tuples.iter().map(|t| (t.0.clone(), t.1.clone(), t.2.clone(), t.3.clone())).collect::<Vec<_>>();
    let rebuilt = Network::from_layer_tuple_vec(&owned);
    assert!(rebuilt.is_well_formed());
    assert_eq!(rebuilt.geometry(), vec![2, 1]);
    assert_eq!(rebuilt.w(1, 1, 0), bits(0.5));
    assert_eq!(rebuilt.z(1, 0), bits(2.0));
    assert!(rebuilt.eq(&network, &arith));
}

#[test]
fn ill_fitting_arrays_are_told() {
    // one weight row is missing
    let owned = vec![
        (vec![], vec![0u32, 0], vec![], vec![]),
        (vec![0u32], vec![0u32], vec![vec![0u32]], vec![vec![0u32], vec![0]]),
    ];
    let network = Network::from_layer_tuple_vec(&owned);
    assert!(!network.is_well_formed());
    assert_eq!(network.geometry(), vec![2, 1]);
    // sums on the input layer
    let owned = vec![(vec![0u32], vec![0u32], vec![], vec![])];
    assert!(!Network::from_layer_tuple_vec(&owned).is_well_formed());
    // a row of the wrong length
    let owned = vec![
        (vec![], vec![0u32], vec![], vec![]),
        (vec![0u32, 0], vec![0u32, 0], vec![vec![0u32, 0]], vec![vec![0u32]]),
    ];
    assert!(!Network::from_layer_tuple_vec(&owned).is_well_formed());
    let owned = vec![
        (vec![], vec![0u32], vec![], vec![]),
        (vec![0u32, 0], vec![0u32, 0], vec![vec![0u32, 0]], vec![vec![0u32, 0]]),
    ];
    assert!(Network::from_layer_tuple_vec(&owned).is_well_formed());
}

#[test]
fn equality_within_the_tolerance() {
    let mut x = Network::from_geometry(&vec![2, 2]);
    network_init_with_value(&mut x, bits(0.5));
    let mut y = Network::from_geometry(&vec![2, 2]);
    network_init_with_value(&mut y, bits(0.5));
    // activations and sums are the mark on both sides: the mark equals anything
    assert!(x.eq(&y, &arith));
    y.set_a(0, 0, bits(3.0));
    assert!(x.eq(&y, &arith));
    // inside the tolerance
    y.set_w(1, 0, 0, bits(0.5 + f32::EPSILON));
    assert!(x.eq(&y, &arith));
    // outside
    y.set_w(1, 0, 0, bits(0.5 + 4.0 * f32::EPSILON));
    assert!(!x.eq(&y, &arith));
    y.set_w(1, 0, 0, bits(0.5));
    y.set_b(1, 1, 1, bits(-0.5));
    assert!(!x.eq(&y, &arith));
    // another geometry
    let z = Network::from_geometry(&vec![2, 3]);
    assert!(!x.eq(&z, &arith));
    let z = Network::from_geometry(&vec![2, 2, 2]);
    assert!(!x.eq(&z, &arith));
}

#[test]
fn edges_are_counted() {
    assert_eq!(Network::from_geometry(&vec![]).n_edges(), Some(0));
    assert_eq!(Network::from_geometry(&vec![7]).n_edges(), Some(0));
    assert_eq!(Network::from_geometry(&vec![2, 3]).n_edges(), Some(6));
    assert_eq!(Network::from_geometry(&vec![2, 3, 4]).n_edges(), Some(18));
    assert_eq!(Network::from_geometry(&vec![2, 0, 4]).n_edges(), Some(0));
    assert_eq!(Network::from_geometry(&vec![128, 16, 32, 4]).n_edges(), Some(128 * 16 + 16 * 32 + 32 * 4));
}

#[test]
fn tables_with_different_numbers_of_rows_are_not_equal() {
    let fitting = vec![
        (vec![], vec![0u32, 0], vec![], vec![]),
        (vec![0u32], vec![0u32], vec![vec![0u32], vec![0]], vec![vec![0u32], vec![0]]),
    ];
    let more_weights = vec![
        (vec![], vec![0u32, 0], vec![], vec![]),
        (vec![0u32], vec![0u32], vec![vec![0u32], vec![0], vec![0]], vec![vec![0u32], vec![0]]),
    ];
    let fewer_biases = vec![
        (vec![], vec![0u32, 0], vec![], vec![]),
        (vec![0u32], vec![0u32], vec![vec![0u32], vec![0]], vec![vec![0u32]]),
    ];
    let x = Network::from_layer_tuple_vec(&fitting);
    let y = Network::from_layer_tuple_vec(&more_weights);
    let z = Network::from_layer_tuple_vec(&fewer_biases);
    assert_eq!(x.geometry(), y.geometry());
    assert_eq!(x.geometry(), z.geometry());
    assert!(x.eq(&x, &arith));
    assert!(!x.eq(&y, &arith));
    assert!(!y.eq(&x, &arith));
    assert!(!x.eq(&z, &arith));
    assert!(!z.eq(&x, &arith));
}
