use ark_bn254::Fr;
use ark_ff::{BigInt, PrimeField};
use expander_coder::encoder::{encode_with_trace, EncodingTrace, Layer};
use expander_coder::expander::SamplingMode;
use expander_coder::experiment::{
    build_layers, corrupt, corrupt_positions, corrupt_trace_layer, corrupt_trace_layer_with, corrupt_with,
    corrupted_trace_at_positions, detect_innermost_corruption, detect_with, is_zero_vector, local_test,
    random_sparse_vector, random_vector, recompute_parity_row, sparse_vector_with, verify_trace_fully,
    verify_trace_rows, ExperimentConfig,
};
use expander_coder::matrix::SparseMatrix;
use expander_coder::field::Fe;

fn small_cfg() -> ExperimentConfig {
    ExperimentConfig {
        n: 16,
        alpha_num: 1,
        alpha_den: 3,
        d: 5,
        layers: 2,
        trials: 1,
        weight: 2,
        mode: SamplingMode::Hybrid,
    }
}

#[test]
fn clean_trace_passes_full_verification() {
    let cfg = small_cfg();
    let layers = build_layers(&cfg);
    let trace = encode_with_trace(random_vector(cfg.n), &layers);

    assert!(verify_trace_fully(&trace, &layers));
}

#[test]
fn corrupting_innermost_trace_breaks_full_verification() {
    let cfg = small_cfg();
    let layers = build_layers(&cfg);
    let trace = encode_with_trace(random_vector(cfg.n), &layers);
    let corrupted_trace = corrupted_trace_at_positions(&trace, trace.layers.len() - 1, &[0]);

    assert!(!verify_trace_fully(&corrupted_trace, &layers));
}

#[test]
fn corrupting_parity_coordinates_breaks_full_verification() {
    let cfg = small_cfg();
    let layers = build_layers(&cfg);
    let trace = encode_with_trace(random_vector(cfg.n), &layers);
    let outer_input_len = cfg.n;
    let corrupted_trace = corrupted_trace_at_positions(&trace, 0, &[outer_input_len]);

    assert!(!verify_trace_fully(&corrupted_trace, &layers));
}

#[test]
fn random_local_test_rejects_obviously_corrupted_trace_when_sampling_all_rows() {
    let cfg = small_cfg();
    let layers = build_layers(&cfg);
    let trace = encode_with_trace(random_vector(cfg.n), &layers);
    let corrupted_trace = corrupted_trace_at_positions(&trace, trace.layers.len() - 1, &[0]);

    let checks = layers
        .iter()
        .map(|layer| layer.B.rows.len())
        .max()
        .unwrap_or(1);

    assert!(!local_test(&corrupted_trace, &layers, checks));
}

fn cfg_with(n: usize, layers: usize, mode: SamplingMode) -> ExperimentConfig {
    ExperimentConfig {
        n,
        alpha_num: 1,
        alpha_den: 3,
        d: 3,
        layers,
        trials: 1,
        weight: 2,
        mode,
    }
}

#[test]
fn build_layers_halves_each_layer() {
    let cfg = cfg_with(32, 3, SamplingMode::Random);
    let layers = build_layers(&cfg);
    assert_eq!(layers.len(), 3);
    let sizes = [16usize, 8, 4];
    for (layer, &s) in layers.iter().zip(sizes.iter()) {
        assert_eq!(layer.A.rows.len(), s);
        assert_eq!(layer.B.rows.len(), s);
        let a_entries: usize = layer.A.rows.iter().map(|r| r.len()).sum();
        let b_entries: usize = layer.B.rows.iter().map(|r| r.len()).sum();
        assert_eq!(a_entries, s * cfg.d);
        assert_eq!(b_entries, s * cfg.d);
        for row in layer.A.rows.iter().chain(layer.B.rows.iter()) {
            for (col, _) in row {
                assert!(*col < s);
            }
        }
    }
}

#[test]
fn nonzero_mode_gives_nonzero_weights() {
    let layers = build_layers(&cfg_with(16, 2, SamplingMode::NonZero));
    for layer in &layers {
        for row in layer.A.rows.iter().chain(layer.B.rows.iter()) {
            for (_, w) in row {
                assert_ne!(w.limbs, [0u64; 4]);
            }
        }
    }
    let hybrid = build_layers(&cfg_with(16, 2, SamplingMode::Hybrid));
    for layer in &hybrid {
        for row in layer.A.rows.iter() {
            for (_, w) in row {
                assert_ne!(w.limbs, [0u64; 4]);
            }
        }
    }
}

#[test]
fn zero_layers_build_nothing() {
    let layers = build_layers(&cfg_with(7, 0, SamplingMode::Hybrid));
    assert!(layers.is_empty());
}

#[test]
fn trace_lengths_follow_the_recursion() {
    let cfg = small_cfg();
    let layers = build_layers(&cfg);
    let trace = encode_with_trace(random_vector(cfg.n), &layers);
    assert_eq!(trace.layers.len(), 3);
    assert_eq!(trace.layers[0].len(), 16 + 8);
    assert_eq!(trace.layers[1].len(), 8 + 4);
    assert_eq!(trace.layers[2].len(), 4);
}

#[test]
fn every_parity_coordinate_corruption_is_detected() {
    let cfg = small_cfg();
    let layers = build_layers(&cfg);
    let trace = encode_with_trace(random_vector(cfg.n), &layers);
    for pos in 16..24 {
        let corrupted = corrupted_trace_at_positions(&trace, 0, &[pos]);
        assert!(!verify_trace_fully(&corrupted, &layers));
    }
    for pos in 8..12 {
        let corrupted = corrupted_trace_at_positions(&trace, 1, &[pos]);
        assert!(!verify_trace_fully(&corrupted, &layers));
    }
}

#[test]
fn systematic_corruption_of_outer_layer_is_not_checked() {
    // Only parity relations are checked: changing the systematic prefix of
    // the outermost entry leaves every relation intact.
    let cfg = small_cfg();
    let layers = build_layers(&cfg);
    let trace = encode_with_trace(random_vector(cfg.n), &layers);
    let corrupted = corrupted_trace_at_positions(&trace, 0, &[3]);
    assert!(verify_trace_fully(&corrupted, &layers));
}

#[test]
fn clean_trace_passes_local_test() {
    let cfg = small_cfg();
    let layers = build_layers(&cfg);
    let trace = encode_with_trace(random_vector(cfg.n), &layers);
    assert!(local_test(&trace, &layers, 5));
    assert!(local_test(&trace, &layers, 0));
}

#[test]
fn verify_trace_rows_checks_only_listed_rows() {
    let cfg = small_cfg();
    let layers = build_layers(&cfg);
    let trace = encode_with_trace(random_vector(cfg.n), &layers);
    // Corrupt parity row 2 of the outermost entry.
    let corrupted = corrupted_trace_at_positions(&trace, 0, &[16 + 2]);
    assert!(verify_trace_rows(&corrupted, &layers, &[vec![0, 1, 3], vec![0, 1, 2, 3]]));
    assert!(!verify_trace_rows(&corrupted, &layers, &[vec![2], vec![]]));
    assert!(verify_trace_rows(&corrupted, &layers, &[vec![], vec![]]));
}

#[test]
fn detection_without_errors_reports_nothing() {
    let cfg = small_cfg();
    let layers = build_layers(&cfg);
    let trace = encode_with_trace(random_sparse_vector(cfg.n, cfg.weight), &layers);
    assert!(!detect_innermost_corruption(&trace, &layers, 0));
}

#[test]
fn corrupt_trace_layer_keeps_other_layers() {
    let cfg = small_cfg();
    let layers = build_layers(&cfg);
    let trace = encode_with_trace(random_vector(cfg.n), &layers);
    let corrupted = corrupt_trace_layer(&trace, 2, 2);
    assert_eq!(corrupted.layers.len(), 3);
    assert_eq!(corrupted.layers[0], trace.layers[0]);
    assert_eq!(corrupted.layers[1], trace.layers[1]);
    let changed = corrupted.layers[2]
        .iter()
        .zip(trace.layers[2].iter())
        .filter(|(a, b)| a != b)
        .count();
    assert!(changed <= 2);
}

#[test]
fn corrupt_positions_changes_exactly_the_listed_positions() {
    let mut v: Vec<Fe> = (0..6u64).map(Fe::from_u64).collect();
    let original = v.clone();
    corrupt_positions(&mut v, &[1, 4]);
    for i in 0..6 {
        if i == 1 || i == 4 {
            assert_ne!(v[i], original[i]);
        } else {
            assert_eq!(v[i], original[i]);
        }
    }
}

#[test]
fn corrupt_changes_at_most_the_requested_number() {
    let mut v: Vec<Fe> = (0..10u64).map(Fe::from_u64).collect();
    let original = v.clone();
    corrupt(&mut v, 3);
    let changed = v.iter().zip(original.iter()).filter(|(a, b)| a != b).count();
    assert!(changed <= 3);
    let mut w: Vec<Fe> = (0..4u64).map(Fe::from_u64).collect();
    corrupt(&mut w, 0);
    assert_eq!(w, (0..4u64).map(Fe::from_u64).collect::<Vec<_>>());
}

#[test]
fn sparse_vector_has_few_nonzero_positions() {
    let v = random_sparse_vector(20, 3);
    assert_eq!(v.len(), 20);
    let nonzero = v.iter().filter(|x| x.limbs != [0u64; 4]).count();
    assert_eq!(nonzero, 3);
    let all = random_sparse_vector(4, 9);
    assert_eq!(all.iter().filter(|x| x.limbs != [0u64; 4]).count(), 4);
    assert!(is_zero_vector(&random_sparse_vector(5, 0)));
}

#[test]
fn zero_vector_check() {
    assert!(is_zero_vector(&[]));
    assert!(is_zero_vector(&[Fe::zero(), Fe::zero()]));
    assert!(!is_zero_vector(&[Fe::zero(), Fe::one()]));
    assert_eq!(random_vector(7).len(), 7);
}

#[test]
fn trace_from_handmade_layers_verifies() {
    // A single layer on inputs of length 2: A = [[(0, 1)]], B = [[(0, 2)]].
    let a = expander_coder::matrix::SparseMatrix { rows: vec![vec![(0, Fe::from_u64(1))]] };
    let b = expander_coder::matrix::SparseMatrix { rows: vec![vec![(0, Fe::from_u64(2))]] };
    let layers = vec![Layer { A: a, B: b }];
    let trace = encode_with_trace(vec![Fe::from_u64(3), Fe::from_u64(5)], &layers);
    assert_eq!(trace.layers.len(), 2);
    assert_eq!(trace.layers[1].len(), 1);
    // parity = 2 * inner[0]
    let inner = trace.layers[1][0];
    let parity = trace.layers[0][2];
    let bad = EncodingTrace { layers: vec![vec![trace.layers[0][0], trace.layers[0][1], inner], trace.layers[1].clone()] };
    assert!(verify_trace_fully(&trace, &layers));
    assert_ne!(parity, inner);
    assert!(!verify_trace_fully(&bad, &layers));
}

#[test]
fn experiment_counts_undetected_trials() {
    let mut cfg = small_cfg();
    cfg.trials = 3;
    let counts = expander_coder::experiment::run_experiment_trials(&cfg);
    assert!(counts.failures <= 3);
    // With no coordinate corrupted there is nothing to detect.
    cfg.weight = 0;
    let none = expander_coder::experiment::run_experiment_trials(&cfg);
    assert_eq!(none.failures, 3);
}

#[test]
fn experiment_without_layers_counts_every_trial() {
    let cfg = ExperimentConfig {
        n: 4,
        alpha_num: 1,
        alpha_den: 3,
        d: 3,
        layers: 0,
        trials: 3,
        weight: 1,
        mode: SamplingMode::Random,
    };
    let counts = expander_coder::experiment::run_experiment_trials(&cfg);
    assert_eq!(counts.failures, 3);
}

#[test]
fn corrupt_with_writes_the_given_values_at_the_given_positions() {
    let mut v: Vec<Fe> = (0..5u64).map(Fe::from_u64).collect();
    let order = [3usize, 1, 4, 0, 2];
    let fresh = [Fe::from_u64(100), Fe::from_u64(200), Fe::from_u64(300)];
    corrupt_with(&mut v, &order, &fresh, 3);
    let expected: Vec<Fe> = [0u64, 200, 2, 100, 300].iter().map(|&x| Fe::from_u64(x)).collect();
    assert_eq!(v, expected);

    // More errors than positions: every position is rewritten.
    let mut w: Vec<Fe> = (0..3u64).map(Fe::from_u64).collect();
    let all = [Fe::from_u64(7), Fe::from_u64(8), Fe::from_u64(9)];
    corrupt_with(&mut w, &[2, 0, 1], &all, 10);
    let expected: Vec<Fe> = [8u64, 9, 7].iter().map(|&x| Fe::from_u64(x)).collect();
    assert_eq!(w, expected);

    // No errors: nothing changes.
    let mut u: Vec<Fe> = (0..3u64).map(Fe::from_u64).collect();
    corrupt_with(&mut u, &[1, 2, 0], &[], 0);
    assert_eq!(u, (0..3u64).map(Fe::from_u64).collect::<Vec<_>>());
}

#[test]
fn sparse_vector_with_places_the_given_values() {
    let v = sparse_vector_with(5, &[4, 2, 0, 1, 3], &[Fe::from_u64(7), Fe::from_u64(9)], 2);
    let expected: Vec<Fe> = [0u64, 0, 9, 0, 7].iter().map(|&x| Fe::from_u64(x)).collect();
    assert_eq!(v, expected);
    assert!(is_zero_vector(&sparse_vector_with(3, &[0, 1, 2], &[], 0)));
}

fn handmade() -> (Vec<Layer>, EncodingTrace) {
    // A single layer on inputs of length 2: A = [[(0, 1)]], B = [[(0, 2)]].
    let a = SparseMatrix { rows: vec![vec![(0, Fe::from_u64(1))]] };
    let b = SparseMatrix { rows: vec![vec![(0, Fe::from_u64(2))]] };
    let layers = vec![Layer { A: a, B: b }];
    let trace = encode_with_trace(vec![Fe::from_u64(3), Fe::from_u64(5)], &layers);
    (layers, trace)
}

fn other_than(x: Fe) -> Fe {
    if x == Fe::from_u64(1) {
        Fe::from_u64(2)
    } else {
        Fe::from_u64(1)
    }
}

#[test]
fn corrupt_trace_layer_with_rewrites_only_the_chosen_entry() {
    let cfg = small_cfg();
    let layers = build_layers(&cfg);
    let trace = encode_with_trace(random_vector(cfg.n), &layers);
    let fresh = [Fe::from_u64(11), Fe::from_u64(12)];
    let corrupted = corrupt_trace_layer_with(&trace, 2, &[3, 0, 1, 2], &fresh, 2);
    assert_eq!(corrupted.layers[0], trace.layers[0]);
    assert_eq!(corrupted.layers[1], trace.layers[1]);
    assert_eq!(corrupted.layers[2][3], Fe::from_u64(11));
    assert_eq!(corrupted.layers[2][0], Fe::from_u64(12));
    assert_eq!(corrupted.layers[2][1], trace.layers[2][1]);
    assert_eq!(corrupted.layers[2][2], trace.layers[2][2]);
}

#[test]
fn detect_with_checks_the_corrupted_trace() {
    let (layers, trace) = handmade();
    let inner = trace.layers[1][0];
    // Writing a different value is caught by the one parity row.
    assert!(detect_with(&trace, &layers, &[0], &[other_than(inner)], 1, &[vec![0]]));
    // Writing the same value back leaves the trace consistent.
    assert!(!detect_with(&trace, &layers, &[0], &[inner], 1, &[vec![0]]));
    // Nothing corrupted, or no row checked: nothing detected.
    assert!(!detect_with(&trace, &layers, &[0], &[other_than(inner)], 0, &[vec![0]]));
    assert!(!detect_with(&trace, &layers, &[0], &[other_than(inner)], 1, &[vec![]]));
}

#[test]
fn detection_of_innermost_corruption_on_a_single_coordinate() {
    // The innermost entry has one coordinate and the single row of `B` reads
    // it, so a corruption that changes it is always noticed.
    let (layers, trace) = handmade();
    let mut noticed = 0;
    for _ in 0..5 {
        if detect_innermost_corruption(&trace, &layers, 1) {
            noticed += 1;
        }
    }
    assert_eq!(noticed, 5);
}

#[test]
fn recompute_parity_row_matches_the_encoding() {
    let (layers, trace) = handmade();
    let inner = trace.layers[1][0];
    assert_eq!(recompute_parity_row(&trace, &layers, 0, 0), trace.layers[0][2]);
    let to_fr = |x: Fe| Fr::from_bigint(BigInt::new(x.limbs)).unwrap();
    assert_eq!(to_fr(recompute_parity_row(&trace, &layers, 0, 0)), to_fr(inner) + to_fr(inner));
}

#[test]
fn alpha_fields_do_not_change_a_batch() {
    let mut a = small_cfg();
    a.trials = 4;
    a.weight = 0;
    let b = ExperimentConfig { alpha_num: 7, alpha_den: 2, ..small_cfg() };
    let b = ExperimentConfig { trials: 4, weight: 0, ..b };
    assert_eq!(
        expander_coder::experiment::run_experiment_trials(&a).failures,
        expander_coder::experiment::run_experiment_trials(&b).failures
    );
}
