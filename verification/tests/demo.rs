use expander_coder::demo::{compare_at, demo_verify_sampling};
use expander_coder::encoder::apply_matrix;
use expander_coder::expander::{build_layer, SamplingMode};
use expander_coder::field::Fe;

#[test]
fn sampling_accepts_the_propagated_vector() {
    let layers = vec![build_layer(8, 4, 3, SamplingMode::Hybrid), build_layer(4, 2, 3, SamplingMode::NonZero)];
    let x: Vec<Fe> = (0..8u64).map(Fe::from_u64).collect();
    let mut current = x.clone();
    for layer in &layers {
        let inner = apply_matrix(&current, &layer.A);
        current = apply_matrix(&inner, &layer.B);
    }
    assert_eq!(current.len(), 4);
    assert!(demo_verify_sampling(&x, &current, &layers, 10));
    assert!(demo_verify_sampling(&x, &[], &[], 0));
}

#[test]
fn sampling_rejects_a_vector_that_differs_everywhere() {
    let layers = vec![build_layer(4, 4, 2, SamplingMode::Random)];
    let x: Vec<Fe> = (1..5u64).map(Fe::from_u64).collect();
    let inner = apply_matrix(&x, &layers[0].A);
    let out = apply_matrix(&inner, &layers[0].B);
    let y: Vec<Fe> = out
        .iter()
        .map(|v| {
            let mut w = *v;
            expander_coder::experiment::corrupt_positions(std::slice::from_mut(&mut w), &[0]);
            w
        })
        .collect();
    assert!(!demo_verify_sampling(&x, &y, &layers, 1));
}

#[test]
fn compare_at_checks_exactly_the_listed_coordinates() {
    let layers = vec![build_layer(4, 4, 2, SamplingMode::NonZero)];
    let x: Vec<Fe> = (1..5u64).map(Fe::from_u64).collect();
    let inner = apply_matrix(&x, &layers[0].A);
    let out = apply_matrix(&inner, &layers[0].B);
    let mut y = out.clone();
    expander_coder::experiment::corrupt_positions(&mut y, &[1]);
    assert!(compare_at(&x, &y, &layers, &[0, 2, 3]));
    assert!(!compare_at(&x, &y, &layers, &[1]));
    assert!(!compare_at(&x, &y, &layers, &[0, 1]));
    assert!(compare_at(&x, &y, &layers, &[]));
    assert!(compare_at(&x, &out, &layers, &[3, 2, 1, 0]));
}
