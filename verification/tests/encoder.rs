use ark_bn254::Fr;
use ark_ff::{BigInt, PrimeField};
use expander_coder::encoder::{encode, encode_with_trace, project, Layer};
use expander_coder::expander::{build_layer, mode_label, SamplingMode};
use expander_coder::field::{hash_pair, Fe};
use expander_coder::matrix::SparseMatrix;

fn fe(x: u64) -> Fe {
    Fe::from_u64(x)
}

fn to_fr(x: Fe) -> Fr {
    Fr::from_bigint(BigInt::new(x.limbs)).unwrap()
}

#[test]
fn project_combines_pairs_with_hash_coefficients() {
    let x = [fe(1), fe(2), fe(3), fe(4)];
    let r = project(&x, 5);
    assert_eq!(r.len(), 2);
    for k in 0..2 {
        let (a, b) = hash_pair(5, k);
        let expected = to_fr(x[2 * k]) * to_fr(a) + to_fr(x[2 * k + 1]) * to_fr(b);
        assert_eq!(to_fr(r[k]), expected);
    }
    assert!(project(&[], 0).is_empty());
}

#[test]
fn encode_without_layers_is_identity() {
    let x = vec![fe(9), fe(8), fe(7)];
    assert_eq!(encode(x.clone(), &[], 0), x);
}

#[test]
fn encode_one_layer_by_hand() {
    // A doubles its single input, B triples it.
    let layers = vec![Layer {
        A: SparseMatrix { rows: vec![vec![(0, fe(2))]] },
        B: SparseMatrix { rows: vec![vec![(0, fe(3))]] },
    }];
    let x = vec![fe(1), fe(2)];
    let out = encode(x.clone(), &layers, 0);
    let (a, b) = hash_pair(0, 0);
    let inner = to_fr(a) + Fr::from(2u64) * to_fr(b);
    assert_eq!(out.len(), 3);
    assert_eq!(&out[..2], &x[..]);
    assert_eq!(to_fr(out[2]), Fr::from(6u64) * inner);
}

#[test]
fn trace_starts_with_the_codeword() {
    let layers = vec![build_layer(4, 4, 3, SamplingMode::Hybrid), build_layer(2, 2, 3, SamplingMode::Random)];
    let x: Vec<Fe> = (1..=8u64).map(fe).collect();
    let trace = encode_with_trace(x.clone(), &layers);
    let out = encode(x.clone(), &layers, 0);
    assert_eq!(trace.layers[0], out);
    assert_eq!(&out[..8], &x[..]);
    assert_eq!(trace.layers[2], project(&project(&x, 0), 1));
    assert_eq!(trace.layers[1], encode(project(&x, 0), &layers[1..], 1));
}

#[test]
fn build_layer_shapes() {
    let l = build_layer(6, 3, 2, SamplingMode::NonZero);
    assert_eq!(l.A.rows.len(), 3);
    assert_eq!(l.B.rows.len(), 6);
    assert_eq!(l.A.rows.iter().map(|r| r.len()).sum::<usize>(), 12);
    assert_eq!(l.B.rows.iter().map(|r| r.len()).sum::<usize>(), 6);
    assert!(l.A.rows.iter().flatten().all(|(c, _)| *c < 6));
    assert!(l.B.rows.iter().flatten().all(|(c, _)| *c < 3));
}

#[test]
fn mode_labels() {
    assert_eq!(mode_label(SamplingMode::Random), "brakedown");
    assert_eq!(mode_label(SamplingMode::NonZero), "spielman");
    assert_eq!(mode_label(SamplingMode::Hybrid), "hybrid");
}

#[test]
fn encoding_is_linear() {
    let layers = vec![build_layer(4, 4, 3, SamplingMode::Random), build_layer(2, 2, 3, SamplingMode::Hybrid)];
    let x: Vec<Fe> = (1..=8u64).map(fe).collect();
    let y: Vec<Fe> = (10..18u64).map(fe).collect();
    let sum: Vec<Fe> = (0..8).map(|i| fe(x[i].limbs[0] + y[i].limbs[0])).collect();
    let ex = encode(x.clone(), &layers, 0);
    let ey = encode(y.clone(), &layers, 0);
    let es = encode(sum, &layers, 0);
    for i in 0..ex.len() {
        assert_eq!(to_fr(es[i]), to_fr(ex[i]) + to_fr(ey[i]));
    }
    let scaled: Vec<Fe> = x.iter().map(|v| fe(3 * v.limbs[0])).collect();
    let esc = encode(scaled, &layers, 0);
    for i in 0..ex.len() {
        assert_eq!(to_fr(esc[i]), Fr::from(3u64) * to_fr(ex[i]));
    }
}
