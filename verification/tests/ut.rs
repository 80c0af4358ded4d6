use rand::distributions::{Distribution, Uniform};
use rusty_props::algorithm::func::Operation;
use rusty_props::algorithm::{network_init_with_generator, network_init_with_value};
use rusty_props::ieee;
use rusty_props::network::Network;
use rusty_props::ut::data::CopyConvertIntoSignal;
use rusty_props::ut::{
    is_close, network_deserialize, network_from_records, network_serialize, signal_find_max_index,
    signal_stub_from_network_input, signal_stub_from_network_output, vecf32_float_safe_is_eq, PersistenceError,
};

fn arith(op: Operation, x: u32, y: u32) -> u32 {
    let (a, b) = (f32::from_bits(x), f32::from_bits(y));
    match op {
        Operation::Add => (a + b).to_bits(),
        Operation::Sub => (a - b).to_bits(),
        Operation::Mul => (a * b).to_bits(),
    }
}

fn bits(x: f32) -> u32 {
    x.to_bits()
}

fn signal(values: &[f32]) -> Vec<u32> {
    values.iter().map(|x| x.to_bits()).collect()
}

fn network_init_random(net: &mut Network) {
    let mut rng = rand::thread_rng();
    let gen = Uniform::from(0.0f32..1.0f32);
    network_init_with_generator(net, &mut || gen.sample(&mut rng).to_bits());
}

#[test]
fn ut_serialize() {
    let geometry = vec![2, 2, 2, 2];
    let mut network = Network::from_geometry(&geometry);
    network_init_random(&mut network);
    let bytes = network_serialize(&network).unwrap();
    let network_clone = network_deserialize(&bytes).unwrap();

    assert!(network_clone.eq(&network, &arith))
}

#[test]
fn mod_serialize() {
    let geometry = vec![2, 2, 2, 2];
    let mut network = Network::from_geometry(&geometry);
    network_init_random(&mut network);
    let bytes = network_serialize(&network).unwrap();
    let mut network_clone = network_deserialize(&bytes).unwrap();
    assert!(network_clone.eq(&network, &arith));
    network_clone.set_w(1, 0, 0, bits(f32::from_bits(network.w(1, 0, 0)) + 1.0f32));
    assert!(!network_clone.eq(&network, &arith));
}

#[test]
fn round_trip_gives_the_same_bits() {
    let mut network = Network::from_geometry(&vec![3, 2, 4]);
    network_init_random(&mut network);
    network.set_a(0, 1, bits(f32::INFINITY));
    network.set_z(2, 3, 0xffc0_1234);
    let bytes = network_serialize(&network).unwrap();
    let back = network_deserialize(&bytes).unwrap();
    assert_eq!(back.geometry(), vec![3, 2, 4]);
    assert!(back.is_well_formed());
    let owned = |n: &Network| {
        n.as_layer_tuple_vec().iter().map(|t| (t.0.clone(), t.1.clone(), t.2.clone(), t.3.clone())).collect::<Vec<_>>()
    };
    assert_eq!(owned(&back), owned(&network));
    assert_eq!(network_serialize(&back).unwrap(), bytes);
}

#[test]
fn the_bytes_are_length_prefixed_little_endian_singles() {
    let mut network = Network::from_geometry(&vec![1, 1]);
    network_init_with_value(&mut network, bits(1.0));
    network.set_a(0, 0, bits(2.0));
    let bytes = network_serialize(&network).unwrap();
    let len = |n: u64| n.to_le_bytes().to_vec();
    let one = 1.0f32.to_le_bytes().to_vec();
    let two = 2.0f32.to_le_bytes().to_vec();
    let nan = f32::NAN.to_le_bytes().to_vec();
    let expected = vec![
        len(2),
        // input layer: no sums, one activation, no weights, no biases
        len(0),
        len(1),
        two,
        len(0),
        len(0),
        // second layer: one sum, one activation, one row of one weight, one row of one bias
        len(1),
        nan.clone(),
        len(1),
        nan,
        len(1),
        len(1),
        one.clone(),
        len(1),
        len(1),
        one,
    ]
    .concat();
    assert_eq!(bytes, expected);
    // the same bytes as for the arrays of numbers themselves
    let as_numbers: Vec<(Vec<f32>, Vec<f32>, Vec<Vec<f32>>, Vec<Vec<f32>>)> = vec![
        (vec![], vec![2.0], vec![], vec![]),
        (vec![f32::NAN], vec![f32::NAN], vec![vec![1.0]], vec![vec![1.0]]),
    ];
    assert_eq!(bytes, bincode::serialize(&as_numbers).unwrap());
}

#[test]
fn bytes_that_do_not_decode_are_refused() {
    let mut network = Network::from_geometry(&vec![2, 2]);
    network_init_with_value(&mut network, bits(0.5));
    let bytes = network_serialize(&network).unwrap();
    for cut in [0, 1, 7, 8, 20, bytes.len() - 1] {
        assert!(matches!(network_deserialize(&bytes[..cut]), Err(PersistenceError::Malformed)), "{}", cut);
    }
    assert!(matches!(network_deserialize(&[0xff; 8]), Err(PersistenceError::Malformed)));
    assert!(network_deserialize(&bytes).is_ok());
}

#[test]
fn arrays_that_do_not_fit_are_refused() {
    // two layers, the second without its biases
    let records: Vec<(Vec<u32>, Vec<u32>, Vec<Vec<u32>>, Vec<Vec<u32>>)> =
        vec![(vec![], vec![0, 0], vec![], vec![]), (vec![0], vec![0], vec![vec![0], vec![0]], vec![])];
    assert!(matches!(network_from_records(&records), Err(PersistenceError::Inconsistent)));
    let bytes = bincode::serialize(&records).unwrap();
    assert!(matches!(network_deserialize(&bytes), Err(PersistenceError::Inconsistent)));
    let records: Vec<(Vec<u32>, Vec<u32>, Vec<Vec<u32>>, Vec<Vec<u32>>)> =
        vec![(vec![], vec![0, 0], vec![], vec![]), (vec![0], vec![0], vec![vec![0], vec![0]], vec![vec![1], vec![2]])];
    let network = network_from_records(&records).unwrap();
    assert_eq!(network.geometry(), vec![2, 1]);
    assert_eq!(network.b(1, 1, 0), 2);
    // no layer at all is a network
    let empty = network_deserialize(&bincode::serialize(&Vec::<(Vec<u32>, Vec<u32>, Vec<Vec<u32>>, Vec<Vec<u32>>)>::new()).unwrap()).unwrap();
    assert_eq!(empty.n_layers(), 0);
}

#[test]
fn signal_stubs_have_the_length_of_their_layer() {
    let network = Network::from_geometry(&vec![5, 3, 2]);
    let input = signal_stub_from_network_input(&network);
    let output = signal_stub_from_network_output(&network);
    assert_eq!(input.len(), 5);
    assert_eq!(output.len(), 2);
    assert!(input.iter().chain(output.iter()).all(|x| *x == ieee::NAN));
}

#[test]
fn largest_entry_is_found_at_its_first_place() {
    assert_eq!(signal_find_max_index(&signal(&[1.0])), 0);
    assert_eq!(signal_find_max_index(&signal(&[1.0, 3.0, 2.0])), 1);
    assert_eq!(signal_find_max_index(&signal(&[1.0, 3.0, 3.0])), 1);
    assert_eq!(signal_find_max_index(&signal(&[-1.0, -3.0, -0.5])), 2);
    assert_eq!(signal_find_max_index(&signal(&[0.0, -0.0])), 0);
    assert_eq!(signal_find_max_index(&signal(&[-0.0, 0.0])), 0);
    assert_eq!(signal_find_max_index(&signal(&[0.0, 0.0, 1.0, 0.0, 0.0, 0.0, 0.0, 0.0, 0.0, 0.0])), 2);
    assert_eq!(signal_find_max_index(&signal(&[f32::NEG_INFINITY, f32::INFINITY, f32::MAX])), 1);
    // a not-a-number is never greater and never exceeded
    assert_eq!(signal_find_max_index(&signal(&[f32::NAN, 5.0])), 0);
    assert_eq!(signal_find_max_index(&signal(&[1.0, f32::NAN, 5.0])), 2);
    assert_eq!(signal_find_max_index(&signal(&[5.0, f32::NAN, 1.0])), 0);
}

#[test]
fn vectors_compare_within_the_tolerance() {
    let eq = |x: &[f32], y: &[f32]| vecf32_float_safe_is_eq(&signal(x), &signal(y), &arith);
    assert!(eq(&[], &[]));
    assert!(eq(&[1.0, 2.0], &[1.0, 2.0]));
    assert!(!eq(&[1.0, 2.0], &[1.0]));
    assert!(!eq(&[1.0], &[1.0, 2.0]));
    assert!(eq(&[1.0], &[1.0 + f32::EPSILON]));
    assert!(eq(&[0.0], &[f32::EPSILON]));
    assert!(eq(&[0.0], &[-f32::EPSILON]));
    assert!(!eq(&[0.0], &[2.0 * f32::EPSILON]));
    assert!(!eq(&[1.0, 2.0], &[1.0, 2.5]));
    assert!(eq(&[f32::NAN, 2.0], &[1.0, 2.0]));
    assert!(eq(&[1.0, 2.0], &[1.0, f32::NAN]));
    assert!(eq(&[f32::NAN], &[f32::NAN]));
    // the difference of two equal infinities is no number
    assert!(!eq(&[f32::INFINITY], &[f32::INFINITY]));
    assert!(is_close(bits(0.5), bits(0.5), &arith));
    assert!(!is_close(bits(0.5), bits(0.75), &arith));
}

#[test]
fn bytes_convert_into_a_signal() {
    let bytes: [u8; 5] = [0, 1, 2, 128, 255];
    let mut signal = vec![7u32; 9];
    bytes[..].copy_convert_into_signal(&mut signal);
    assert_eq!(signal, vec![bits(0.0), bits(1.0), bits(2.0), bits(128.0), bits(255.0)]);
    bytes[1..1].copy_convert_into_signal(&mut signal);
    assert!(signal.is_empty());
}

fn written_coeff(v: &Vec<u32>, out: &mut Vec<u8>) {
    out.extend_from_slice(&(v.len() as u64).to_le_bytes());
    for x in v {
        out.extend_from_slice(&x.to_le_bytes());
    }
}

fn written_edge(e: &Vec<Vec<u32>>, out: &mut Vec<u8>) {
    out.extend_from_slice(&(e.len() as u64).to_le_bytes());
    for row in e {
        written_coeff(row, out);
    }
}

fn written(network: &Network) -> Vec<u8> {
    let layers = network.as_layer_tuple_vec();
    let mut out = Vec::new();
    out.extend_from_slice(&(layers.len() as u64).to_le_bytes());
    for (z, a, w, b) in layers {
        written_coeff(z, &mut out);
        written_coeff(a, &mut out);
        written_edge(w, &mut out);
        written_edge(b, &mut out);
    }
    out
}

#[test]
fn every_network_is_written_by_the_same_rule() {
    for geometry in [vec![], vec![0], vec![4], vec![1, 1], vec![3, 2, 4], vec![2, 0, 3], vec![5, 300, 2]] {
        let mut network = Network::from_geometry(&geometry);
        network_init_random(&mut network);
        for ilayer in 0..network.n_layers() {
            for inode in 0..network.layer_len(ilayer) {
                network.set_a(ilayer, inode, bits((ilayer * 1000 + inode) as f32));
            }
        }
        assert_eq!(network_serialize(&network).unwrap(), written(&network), "{:?}", geometry);
    }
}

#[test]
fn what_follows_a_network_is_not_read() {
    let mut network = Network::from_geometry(&vec![2, 3]);
    network_init_random(&mut network);
    let mut bytes = network_serialize(&network).unwrap();
    bytes.extend_from_slice(&[1, 2, 3, 4, 5]);
    let back = network_deserialize(&bytes).unwrap();
    assert_eq!(written(&back), written(&network));
}

#[test]
fn every_network_can_be_written() {
    for geometry in [vec![], vec![0], vec![1], vec![2, 0, 2], vec![3, 4, 5]] {
        let network = Network::from_geometry(&geometry);
        assert!(network_serialize(&network).is_ok());
    }
    // also one whose arrays do not fit each other
    let odd = Network::from_layer_tuple_vec(&vec![(vec![1u32], vec![], vec![vec![2u32, 3]], vec![])]);
    let bytes = network_serialize(&odd).unwrap();
    assert!(matches!(network_deserialize(&bytes), Err(PersistenceError::Inconsistent)));
    assert!(matches!(network_deserialize(&[]), Err(PersistenceError::Malformed)));
}
