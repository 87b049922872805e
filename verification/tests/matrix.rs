use ark_bn254::Fr;
use ark_ff::{BigInt, PrimeField};
use expander_coder::encoder::apply_matrix;
use expander_coder::field::Fe;
use expander_coder::graph::{sample_d_regular, Graph};
use expander_coder::matrix::{from_graph_nonzero, from_graph_random, SparseMatrix};

fn fe(x: u64) -> Fe {
    Fe::from_u64(x)
}

fn to_fr(x: Fe) -> Fr {
    Fr::from_bigint(BigInt::new(x.limbs)).unwrap()
}

#[test]
fn apply_computes_sparse_products() {
    let m = SparseMatrix {
        rows: vec![vec![(0, fe(2)), (1, fe(3))], vec![], vec![(1, fe(4)), (1, fe(5))]],
    };
    let r = m.apply(&[fe(5), fe(7)]);
    assert_eq!(r, vec![fe(31), fe(0), fe(63)]);
    assert_eq!(apply_matrix(&[fe(5), fe(7)], &m), r);
}

#[test]
fn apply_reduces_modulo_the_prime() {
    // p - 1 times 2 plus 3 is 1 in the field.
    let minus_one = -Fr::from(1u64);
    let minus_one_fe = Fe { limbs: minus_one.into_bigint().0 };
    let m = SparseMatrix { rows: vec![vec![(0, fe(2)), (1, fe(1))]] };
    let r = m.apply(&[minus_one_fe, fe(3)]);
    assert_eq!(to_fr(r[0]), Fr::from(1u64));
    assert_eq!(r[0], fe(1));
}

#[test]
fn graph_sampling_is_left_regular() {
    let g = sample_d_regular(6, 4, 3);
    assert_eq!(g.left_size, 6);
    assert_eq!(g.right_size, 4);
    assert_eq!(g.adj.len(), 6);
    for row in &g.adj {
        assert_eq!(row.len(), 3);
        assert!(row.iter().all(|&j| j < 4));
    }
    let empty = sample_d_regular(0, 0, 5);
    assert!(empty.adj.is_empty());
}

#[test]
fn matrix_rows_follow_graph_edges() {
    let g = Graph { left_size: 3, right_size: 2, adj: vec![vec![1, 0], vec![1], vec![1, 1]] };
    let m = from_graph_random(&g);
    let cols: Vec<Vec<usize>> = m.rows.iter().map(|r| r.iter().map(|e| e.0).collect()).collect();
    assert_eq!(cols, vec![vec![0], vec![0, 1, 2, 2]]);
    let nz = from_graph_nonzero(&g);
    let cols_nz: Vec<Vec<usize>> = nz.rows.iter().map(|r| r.iter().map(|e| e.0).collect()).collect();
    assert_eq!(cols_nz, cols);
    for row in &nz.rows {
        for (_, w) in row {
            assert_ne!(*w, fe(0));
        }
    }
}

#[test]
fn graph_size_field_is_not_read() {
    // `left_size` disagrees with the adjacency lists; only the lists count.
    let g = Graph { left_size: 7, right_size: 2, adj: vec![vec![1], vec![0, 1]] };
    let m = from_graph_random(&g);
    let cols: Vec<Vec<usize>> = m.rows.iter().map(|r| r.iter().map(|e| e.0).collect()).collect();
    assert_eq!(cols, vec![vec![1], vec![0, 1]]);
}

#[test]
fn sparse_products_are_linear() {
    let m = SparseMatrix { rows: vec![vec![(0, fe(2)), (1, fe(3))], vec![(1, fe(5))]] };
    let x = [fe(4), fe(9)];
    let y = [fe(1), fe(6)];
    let sum: Vec<Fe> = x.iter().zip(y.iter()).map(|(a, b)| Fe::from_u64(a.limbs[0] + b.limbs[0])).collect();
    let mx = m.apply(&x);
    let my = m.apply(&y);
    let msum = m.apply(&sum);
    for i in 0..2 {
        assert_eq!(to_fr(msum[i]), to_fr(mx[i]) + to_fr(my[i]));
    }
    assert_eq!(m.apply(&[fe(0), fe(0)]), vec![fe(0), fe(0)]);
}
