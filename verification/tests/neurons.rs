use neural_network::{Layer, NetworkError, Neuron, WeightSource};

fn float_times(a: u32, b: u32) -> u32 {
    (f32::from_bits(a) * f32::from_bits(b)).to_bits()
}

fn float_plus(a: u32, b: u32) -> u32 {
    (f32::from_bits(a) + f32::from_bits(b)).to_bits()
}

fn words_of(values: &[f32]) -> Vec<u32> {
    values.iter().map(|v| v.to_bits()).collect()
}

#[test]
fn source_hands_out_words_in_order() {
    let mut source = WeightSource::new(vec![7, 8, 9]);
    assert_eq!(source.remaining(), 3);
    assert_eq!(source.next(), Some(7));
    assert_eq!(source.next(), Some(8));
    assert_eq!(source.remaining(), 1);
    assert_eq!(source.next(), Some(9));
    assert_eq!(source.remaining(), 0);
    assert_eq!(source.next(), None);
    assert_eq!(source.next(), None);
    assert_eq!(source.remaining(), 0);
}

#[test]
fn neuron_reads_bias_then_weights() {
    let mut source = WeightSource::new(vec![1, 2, 3, 4]);
    let neuron = Neuron::from_weights(2, &mut source).unwrap();
    assert_eq!(neuron.to_weights(), vec![1, 2, 3]);
    assert_eq!(source.remaining(), 1);
    assert_eq!(source.next(), Some(4));
}

#[test]
fn neuron_without_inputs_is_a_bias() {
    let mut source = WeightSource::new(vec![42, 43]);
    let neuron = Neuron::from_weights(0, &mut source).unwrap();
    assert_eq!(neuron.to_weights(), vec![42]);
    assert_eq!(source.remaining(), 1);
}

#[test]
fn neuron_fails_when_the_words_run_out() {
    let mut source = WeightSource::new(vec![1, 2]);
    let error = Neuron::from_weights(2, &mut source).unwrap_err();
    assert_eq!(error, NetworkError::InsufficientWeights);
    assert_eq!(source.remaining(), 0);

    let mut empty = WeightSource::new(Vec::new());
    assert_eq!(Neuron::from_weights(0, &mut empty).unwrap_err(), NetworkError::InsufficientWeights);
}

#[test]
fn neuron_fails_on_the_largest_input_size() {
    let mut source = WeightSource::new(vec![1, 2, 3]);
    let error = Neuron::from_weights(usize::MAX, &mut source).unwrap_err();
    assert_eq!(error, NetworkError::InsufficientWeights);
}

#[test]
fn neuron_random_draws_bias_then_weights() {
    let mut next: u32 = 100;
    let mut draw = || {
        next += 1;
        next
    };
    let neuron = Neuron::random(&mut draw, 3);
    assert_eq!(neuron.to_weights(), vec![101, 102, 103, 104]);
    assert_eq!(next, 104);
}

#[test]
fn neuron_adds_products_from_the_left_then_the_bias() {
    let mut source = WeightSource::new(vec![5, 2, 3]);
    let neuron = Neuron::from_weights(2, &mut source).unwrap();
    let times = |a: u32, b: u32| a.wrapping_mul(b);
    let plus = |a: u32, b: u32| a.wrapping_mul(31).wrapping_add(b);
    // ((0 * 31 + 10 * 2) * 31 + 20 * 3) * 31 + 5
    assert_eq!(neuron.propagate(&[10, 20], &times, &plus), Ok(21_085));
}

#[test]
fn neuron_answers_with_the_rectified_sum() {
    let mut source = WeightSource::new(words_of(&[0.5, 2.0, -1.0]));
    let neuron = Neuron::from_weights(2, &mut source).unwrap();
    let up = neuron.propagate(&words_of(&[3.0, 1.0]), &float_times, &float_plus).unwrap();
    assert_eq!(f32::from_bits(up), 5.5);
    let down = neuron.propagate(&words_of(&[1.0, 4.0]), &float_times, &float_plus).unwrap();
    assert_eq!(down, 0);
    let level = neuron.propagate(&words_of(&[0.0, 0.5]), &float_times, &float_plus).unwrap();
    assert_eq!(level, 0);
}

#[test]
fn neuron_answers_a_nan_with_zero() {
    let mut source = WeightSource::new(words_of(&[0.0, 1.0]));
    let neuron = Neuron::from_weights(1, &mut source).unwrap();
    let out = neuron.propagate(&words_of(&[f32::NAN]), &float_times, &float_plus).unwrap();
    assert_eq!(out, 0);
}

#[test]
fn neuron_refuses_inputs_of_another_length() {
    let mut source = WeightSource::new(vec![5, 2, 3]);
    let neuron = Neuron::from_weights(2, &mut source).unwrap();
    let error = neuron.propagate(&[10], &float_times, &float_plus).unwrap_err();
    assert_eq!(error, NetworkError::DimensionMismatch);
    let error = neuron.propagate(&[10, 20, 30], &float_times, &float_plus).unwrap_err();
    assert_eq!(error, NetworkError::DimensionMismatch);
}

#[test]
fn layer_reads_neuron_after_neuron() {
    let mut source = WeightSource::new(vec![1, 2, 3, 4, 5, 6, 7]);
    let layer = Layer::from_weights(2, 2, &mut source).unwrap();
    assert_eq!(layer.to_weights(), vec![1, 2, 3, 4, 5, 6]);
    assert_eq!(source.remaining(), 1);
    let plus = |a: u32, b: u32| a.wrapping_add(b);
    let times = |a: u32, b: u32| a.wrapping_mul(b);
    // 1 + 10 * 2 + 100 * 3 and 4 + 10 * 5 + 100 * 6
    assert_eq!(layer.propagate(vec![10, 100], &times, &plus), Ok(vec![321, 654]));
}

#[test]
fn layer_without_neurons_needs_no_words() {
    let mut source = WeightSource::new(vec![1]);
    let layer = Layer::from_weights(5, 0, &mut source).unwrap();
    assert_eq!(layer.to_weights(), Vec::<u32>::new());
    assert_eq!(source.remaining(), 1);
    let out = layer.propagate(vec![1, 2, 3], &float_times, &float_plus);
    assert_eq!(out, Ok(Vec::new()));
}

#[test]
fn layer_fails_when_the_words_run_out() {
    let mut source = WeightSource::new(vec![1, 2, 3, 4, 5]);
    let error = Layer::from_weights(2, 2, &mut source).unwrap_err();
    assert_eq!(error, NetworkError::InsufficientWeights);
    assert_eq!(source.remaining(), 0);
}

#[test]
fn layer_random_draws_neuron_after_neuron() {
    let mut next: u32 = 0;
    let mut draw = || {
        next += 1;
        next
    };
    let layer = Layer::random(&mut draw, 2, 3);
    assert_eq!(layer.to_weights(), vec![1, 2, 3, 4, 5, 6, 7, 8, 9]);
}

#[test]
fn layer_refuses_inputs_of_another_length() {
    let mut source = WeightSource::new(vec![1, 2, 3, 4, 5, 6]);
    let layer = Layer::from_weights(2, 2, &mut source).unwrap();
    let error = layer.propagate(vec![1, 2, 3], &float_times, &float_plus).unwrap_err();
    assert_eq!(error, NetworkError::DimensionMismatch);
}
