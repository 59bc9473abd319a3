use neural_network::{LayerTopology, Network, NetworkError};
use rand::{Rng, SeedableRng};
use rand_chacha::ChaCha8Rng;

fn times(a: u32, b: u32) -> u32 {
    (f32::from_bits(a) * f32::from_bits(b)).to_bits()
}

fn plus(a: u32, b: u32) -> u32 {
    (f32::from_bits(a) + f32::from_bits(b)).to_bits()
}

fn words(values: &[f32]) -> Vec<u32> {
    values.iter().map(|v| v.to_bits()).collect()
}

fn numbers(values: &[u32]) -> Vec<f32> {
    values.iter().map(|w| f32::from_bits(*w)).collect()
}

fn topology(sizes: &[usize]) -> Vec<LayerTopology> {
    sizes.iter().map(|n| LayerTopology { neurons: *n }).collect()
}

fn seeded(seed: u64, layers: &[LayerTopology]) -> Network {
    let mut rng = ChaCha8Rng::seed_from_u64(seed);
    let mut draw = || rng.gen_range(-1.0f32..=1.0).to_bits();
    Network::random(&mut draw, layers).unwrap()
}

fn word_count(sizes: &[usize]) -> usize {
    sizes.windows(2).map(|pair| pair[1] * (1 + pair[0])).sum()
}

#[test]
fn three_two_one_answers_as_computed_by_hand() {
    let layers = topology(&[3, 2, 1]);
    let flat = words(&[0.0, 0.1, 0.2, 0.3, 0.0, -0.1, -0.2, -0.3, 0.0, 1.0, 1.0]);
    assert_eq!(flat.len(), 11);
    let network = Network::from_weights(&layers, flat).unwrap();
    let out = network.propagate(words(&[1.0, 1.0, 1.0]), &times, &plus).unwrap();
    assert_eq!(out.len(), 1);
    let answer = f32::from_bits(out[0]);
    assert!((answer - 0.6).abs() < 1e-6, "{}", answer);
    assert_eq!(answer, 0.1f32 + 0.2f32 + 0.3f32);
}

#[test]
fn random_has_the_shape_of_the_topology() {
    for sizes in [vec![3usize, 2, 1], vec![1, 1], vec![4, 8, 8, 2], vec![2, 0, 3], vec![0, 5]] {
        let layers = topology(&sizes);
        let network = seeded(7, &layers);
        assert_eq!(network.weights().len(), word_count(&sizes));
        let inputs = vec![0u32; sizes[0]];
        let out = network.propagate(inputs, &times, &plus).unwrap();
        assert_eq!(out.len(), *sizes.last().unwrap());
    }
}

#[test]
fn random_counts_three_times_five_plus_two_times_four_words() {
    let network = seeded(1, &topology(&[4, 3, 2]));
    assert_eq!(network.weights().len(), 23);
}

#[test]
fn random_takes_its_words_from_the_source_in_order() {
    let layers = topology(&[3, 2, 1]);
    let network = seeded(42, &layers);
    let mut rng = ChaCha8Rng::seed_from_u64(42);
    let expected: Vec<u32> = (0..11).map(|_| rng.gen_range(-1.0f32..=1.0).to_bits()).collect();
    assert_eq!(network.weights(), expected);
}

#[test]
fn random_is_the_same_for_the_same_seed() {
    let layers = topology(&[5, 4, 3]);
    assert_eq!(seeded(9, &layers).weights(), seeded(9, &layers).weights());
    assert_ne!(seeded(9, &layers).weights(), seeded(10, &layers).weights());
}

#[test]
fn random_weights_lie_between_minus_one_and_one() {
    let network = seeded(3, &topology(&[6, 5, 4]));
    for value in numbers(&network.weights()) {
        assert!((-1.0..=1.0).contains(&value), "{}", value);
    }
}

#[test]
fn random_refuses_a_topology_of_fewer_than_two_entries() {
    let mut draw = || 0u32;
    let none = Network::random(&mut draw, &topology(&[])).unwrap_err();
    assert_eq!(none, NetworkError::InvalidTopology);
    let one = Network::random(&mut draw, &topology(&[3])).unwrap_err();
    assert_eq!(one, NetworkError::InvalidTopology);
}

#[test]
fn from_weights_refuses_a_topology_of_fewer_than_two_entries() {
    let none = Network::from_weights(&topology(&[]), Vec::new()).unwrap_err();
    assert_eq!(none, NetworkError::InvalidTopology);
    let one = Network::from_weights(&topology(&[3]), vec![1, 2, 3]).unwrap_err();
    assert_eq!(one, NetworkError::InvalidTopology);
}

#[test]
fn from_weights_refuses_too_few_words() {
    let layers = topology(&[3, 2, 1]);
    for len in [0usize, 1, 7, 8, 10] {
        let error = Network::from_weights(&layers, vec![0u32; len]).unwrap_err();
        assert_eq!(error, NetworkError::InsufficientWeights, "{} words", len);
    }
}

#[test]
fn from_weights_refuses_too_many_words() {
    let layers = topology(&[3, 2, 1]);
    for len in [12usize, 13, 100] {
        let error = Network::from_weights(&layers, vec![0u32; len]).unwrap_err();
        assert_eq!(error, NetworkError::ExcessWeights, "{} words", len);
    }
}

#[test]
fn from_weights_takes_exactly_the_words_of_the_topology() {
    let layers = topology(&[4, 3, 2]);
    assert!(Network::from_weights(&layers, vec![0u32; 23]).is_ok());
    assert_eq!(
        Network::from_weights(&layers, vec![0u32; 22]).unwrap_err(),
        NetworkError::InsufficientWeights
    );
    assert_eq!(
        Network::from_weights(&layers, vec![0u32; 24]).unwrap_err(),
        NetworkError::ExcessWeights
    );
}

#[test]
fn weights_come_back_as_they_went_in() {
    let layers = topology(&[2, 3, 2]);
    let flat: Vec<u32> = (1..=17).collect();
    let network = Network::from_weights(&layers, flat.clone()).unwrap();
    assert_eq!(network.weights(), flat);
}

#[test]
fn weights_keep_every_bit_pattern() {
    let layers = topology(&[1, 2]);
    let flat = vec![f32::NAN.to_bits(), 0x7fc0_0001, (-0.0f32).to_bits(), 0xffff_ffff];
    let network = Network::from_weights(&layers, flat.clone()).unwrap();
    assert_eq!(network.weights(), flat);
}

#[test]
fn round_trip_keeps_weights_and_answers() {
    let layers = topology(&[4, 6, 3]);
    for seed in 0..8 {
        let network = seeded(seed, &layers);
        let copy = Network::from_weights(&layers, network.weights()).unwrap();
        assert_eq!(copy.weights(), network.weights());
        let mut rng = ChaCha8Rng::seed_from_u64(1000 + seed);
        for _ in 0..16 {
            let inputs: Vec<u32> = (0..4).map(|_| rng.gen_range(-5.0f32..=5.0).to_bits()).collect();
            let first = network.propagate(inputs.clone(), &times, &plus).unwrap();
            let second = copy.propagate(inputs, &times, &plus).unwrap();
            assert_eq!(first, second);
        }
    }
}

#[test]
fn answers_have_the_length_of_the_last_layer_and_no_negative_element() {
    let layers = topology(&[3, 5, 4]);
    for seed in 0..16 {
        let network = seeded(seed, &layers);
        let mut rng = ChaCha8Rng::seed_from_u64(77 + seed);
        let inputs: Vec<u32> = (0..3).map(|_| rng.gen_range(-10.0f32..=10.0).to_bits()).collect();
        let out = network.propagate(inputs, &times, &plus).unwrap();
        assert_eq!(out.len(), 4);
        for value in numbers(&out) {
            assert!(value >= 0.0, "{}", value);
            assert!(value.is_sign_positive());
        }
    }
}

#[test]
fn answers_go_through_the_layers_in_order() {
    let layers = topology(&[2, 2, 1]);
    let flat = words(&[1.0, 1.0, 0.0, -1.0, 0.0, 1.0, 0.5, 2.0, 3.0]);
    let network = Network::from_weights(&layers, flat).unwrap();
    // first layer: 1 + 2 = 3 and -1 + 4 = 3; second: 0.5 + 2 * 3 + 3 * 3
    let out = network.propagate(words(&[2.0, 4.0]), &times, &plus).unwrap();
    assert_eq!(numbers(&out), vec![15.5]);
}

#[test]
fn a_negative_sum_inside_the_network_becomes_zero() {
    let layers = topology(&[1, 1, 1]);
    let flat = words(&[0.0, -1.0, 2.0, 5.0]);
    let network = Network::from_weights(&layers, flat).unwrap();
    let out = network.propagate(words(&[3.0]), &times, &plus).unwrap();
    assert_eq!(numbers(&out), vec![2.0]);
}

#[test]
fn propagate_refuses_inputs_of_another_length() {
    let network = seeded(5, &topology(&[3, 2, 1]));
    for len in [0usize, 1, 2, 4] {
        let error = network.propagate(vec![0u32; len], &times, &plus).unwrap_err();
        assert_eq!(error, NetworkError::DimensionMismatch, "{} inputs", len);
    }
    assert!(network.propagate(vec![0u32; 3], &times, &plus).is_ok());
}

#[test]
fn a_layer_without_neurons_answers_with_nothing() {
    let layers = topology(&[3, 0, 2]);
    let flat = words(&[0.25, -4.0]);
    let network = Network::from_weights(&layers, flat.clone()).unwrap();
    assert_eq!(network.weights(), flat);
    let out = network.propagate(words(&[1.0, 2.0, 3.0]), &times, &plus).unwrap();
    assert_eq!(numbers(&out), vec![0.25, 0.0]);
    assert!(network.propagate(Vec::new(), &times, &plus).is_ok());
}
