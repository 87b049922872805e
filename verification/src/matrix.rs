//! Sparse matrices over the field, stored as rows of `(column, value)`
//! entries, and their construction from sampled bipartite graphs.

use crate::field::{fe_add, fe_mul, modulus, rand_field, rand_nonzero, vals, Fe};
use crate::graph::Graph;
use vstd::prelude::*;

verus! {

/// Sparse matrix stored as rows of `(column, value)` entries.
pub struct SparseMatrix {
    pub rows: Vec<Vec<(usize, Fe)>>,
}

/// The rows of a sparse matrix, as sequences of entries.
pub open spec fn rows_view(rows: Seq<Vec<(usize, Fe)>>) -> Seq<Seq<(usize, Fe)>> {
    rows.map_values(|r: Vec<(usize, Fe)>| r@)
}

impl View for SparseMatrix {
    type V = Seq<Seq<(usize, Fe)>>;

    open spec fn view(&self) -> Seq<Seq<(usize, Fe)>> {
        rows_view(self.rows@)
    }
}

/// One row of a sparse matrix times the vector `x`, accumulated entry by
/// entry in the field.
pub open spec fn row_dot(row: Seq<(usize, Fe)>, x: Seq<int>) -> int
    decreases row.len(),
{
    if row.len() == 0 {
        0
    } else {
        let (col, val) = row.last();
        (row_dot(row.drop_last(), x) + val.value() * x[col as int]) % (modulus() as int)
    }
}

/// The product of a sparse matrix with the vector `x`.
pub open spec fn mat_vec(rows: Seq<Seq<(usize, Fe)>>, x: Seq<int>) -> Seq<int> {
    Seq::new(rows.len(), |i: int| row_dot(rows[i], x))
}

/// Every column index of the matrix is below `bound`.
pub open spec fn cols_below(rows: Seq<Seq<(usize, Fe)>>, bound: nat) -> bool {
    forall|i: int, k: int| 0 <= i < rows.len() && 0 <= k < rows[i].len() ==> #[trigger] rows[i][k].0 < bound
}

/// Every stored weight is held in reduced form.
pub open spec fn weights_canonical(rows: Seq<Seq<(usize, Fe)>>) -> bool {
    forall|i: int, k: int| 0 <= i < rows.len() && 0 <= k < rows[i].len() ==> #[trigger] rows[i][k].1.is_canonical()
}

/// Every stored weight is a nonzero field element.
pub open spec fn weights_nonzero(rows: Seq<Seq<(usize, Fe)>>) -> bool {
    forall|i: int, k: int| 0 <= i < rows.len() && 0 <= k < rows[i].len() ==> #[trigger] rows[i][k].1.value() != 0
}

/// The edges of a graph, as `(left, right)` pairs, in the order of the left
/// vertices and, within one, of its adjacency list.
pub open spec fn edge_list(adj: Seq<Seq<usize>>) -> Seq<(usize, usize)>
    decreases adj.len(),
{
    if adj.len() == 0 {
        Seq::empty()
    } else {
        let i = (adj.len() - 1) as usize;
        edge_list(adj.drop_last()) + adj.last().map_values(|j: usize| (i, j))
    }
}

/// The left ends of the edges that reach right vertex `j`, in edge order.
pub open spec fn sources_of(edges: Seq<(usize, usize)>, j: nat) -> Seq<usize>
    decreases edges.len(),
{
    if edges.len() == 0 {
        Seq::empty()
    } else {
        let prev = sources_of(edges.drop_last(), j);
        if edges.last().1 == j {
            prev.push(edges.last().0)
        } else {
            prev
        }
    }
}

/// The matrix has one row per right vertex of the graph `adj`, and row `j`
/// has one entry per edge into `j`, in edge order, whose column is the edge's
/// left vertex.
pub open spec fn matrix_of_graph(rows: Seq<Seq<(usize, Fe)>>, adj: Seq<Seq<usize>>, m: nat) -> bool {
    &&& rows.len() == m
    &&& forall|j: int|
        0 <= j < m ==> (#[trigger] rows[j]).map_values(|e: (usize, Fe)| e.0) == sources_of(
            edge_list(adj),
            j as nat,
        )
}

/// Reducing a product before adding it to a reduced value changes nothing.
pub(crate) proof fn lemma_add_mul_mod(a: int, b: int, c: int)
    requires
        0 <= a < modulus(),
    ensures
        (a + (b * c) % (modulus() as int)) % (modulus() as int) == (a + b * c) % (modulus() as int),
{
    let p = modulus() as int;
    vstd::arithmetic::div_mod::lemma_add_mod_noop(a, b * c, p);
    vstd::arithmetic::div_mod::lemma_mod_twice(b * c, p);
    vstd::arithmetic::div_mod::lemma_small_mod(a as nat, p as nat);
    vstd::arithmetic::div_mod::lemma_add_mod_noop(a, (b * c) % p, p);
}

/// A row product is a reduced field value.
pub(crate) proof fn lemma_row_dot_range(row: Seq<(usize, Fe)>, x: Seq<int>)
    ensures
        0 <= row_dot(row, x) < modulus(),
    decreases row.len(),
{
    if row.len() > 0 {
        let (col, val) = row.last();
        vstd::arithmetic::div_mod::lemma_mod_bound(
            row_dot(row.drop_last(), x) + val.value() * x[col as int],
            modulus() as int,
        );
    }
}

/// Coordinatewise sum of two vectors in the field.
pub open spec fn vec_add(x: Seq<int>, y: Seq<int>) -> Seq<int> {
    Seq::new(x.len(), |i: int| (x[i] + y[i]) % (modulus() as int))
}

/// A vector scaled by `c` in the field.
pub open spec fn vec_scale(c: int, x: Seq<int>) -> Seq<int> {
    Seq::new(x.len(), |i: int| (c * x[i]) % (modulus() as int))
}

/// The zero vector of length `n`.
pub open spec fn zeros(n: nat) -> Seq<int> {
    Seq::new(n, |i: int| 0)
}

proof fn lemma_row_dot_add(row: Seq<(usize, Fe)>, x: Seq<int>, y: Seq<int>)
    requires
        x.len() == y.len(),
        forall|k: int| 0 <= k < row.len() ==> (#[trigger] row[k]).0 < x.len(),
    ensures
        row_dot(row, vec_add(x, y)) == (row_dot(row, x) + row_dot(row, y)) % (modulus() as int),
    decreases row.len(),
{
    let p = modulus() as int;
    if row.len() > 0 {
        let prev = row.drop_last();
        lemma_row_dot_add(prev, x, y);
        let (col, w) = row.last();
        let wv = w.value() as int;
        let xc = x[col as int];
        let yc = y[col as int];
        let ax = row_dot(prev, x);
        let ay = row_dot(prev, y);
        let r = (ax + ay) % p;
        let q = wv * (xc + yc);
        assert(vec_add(x, y)[col as int] == (xc + yc) % p);
        vstd::arithmetic::div_mod::lemma_mul_mod_noop_right(wv, xc + yc, p);
        vstd::arithmetic::div_mod::lemma_add_mod_noop_right(r, wv * ((xc + yc) % p), p);
        vstd::arithmetic::div_mod::lemma_add_mod_noop_right(r, q, p);
        vstd::arithmetic::div_mod::lemma_add_mod_noop_right(q, ax + ay, p);
        vstd::arithmetic::mul::lemma_mul_is_distributive_add(wv, xc, yc);
        vstd::arithmetic::div_mod::lemma_add_mod_noop(ax + wv * xc, ay + wv * yc, p);
    }
}

proof fn lemma_row_dot_scale(row: Seq<(usize, Fe)>, c: int, x: Seq<int>)
    requires
        forall|k: int| 0 <= k < row.len() ==> (#[trigger] row[k]).0 < x.len(),
    ensures
        row_dot(row, vec_scale(c, x)) == (c * row_dot(row, x)) % (modulus() as int),
    decreases row.len(),
{
    let p = modulus() as int;
    if row.len() > 0 {
        let prev = row.drop_last();
        lemma_row_dot_scale(prev, c, x);
        let (col, w) = row.last();
        let wv = w.value() as int;
        let xc = x[col as int];
        let ax = row_dot(prev, x);
        let r = (c * ax) % p;
        assert(vec_scale(c, x)[col as int] == (c * xc) % p);
        vstd::arithmetic::div_mod::lemma_mul_mod_noop_right(wv, c * xc, p);
        vstd::arithmetic::div_mod::lemma_add_mod_noop_right(r, wv * ((c * xc) % p), p);
        vstd::arithmetic::div_mod::lemma_add_mod_noop_right(r, wv * (c * xc), p);
        vstd::arithmetic::div_mod::lemma_add_mod_noop_right(wv * (c * xc), c * ax, p);
        vstd::arithmetic::div_mod::lemma_mul_mod_noop_right(c, ax + wv * xc, p);
        assert(c * (ax + wv * xc) == c * ax + wv * (c * xc)) by (nonlinear_arith);
    } else {
        assert(c * 0 == 0);
    }
}

proof fn lemma_row_dot_zero(row: Seq<(usize, Fe)>, n: nat)
    requires
        forall|k: int| 0 <= k < row.len() ==> (#[trigger] row[k]).0 < n,
    ensures
        row_dot(row, zeros(n)) == 0,
    decreases row.len(),
{
    if row.len() > 0 {
        lemma_row_dot_zero(row.drop_last(), n);
        let (col, w) = row.last();
        assert(zeros(n)[col as int] == 0);
        assert(w.value() * 0 == 0);
    }
}

/// Sparse products are linear over the field: the product of a sum is the sum
/// of the products, the product of a scaled vector is the scaled product, and
/// the product of the zero vector is zero.
pub proof fn lemma_mat_vec_linear(rows: Seq<Seq<(usize, Fe)>>, x: Seq<int>, y: Seq<int>, c: int)
    requires
        cols_below(rows, x.len()),
        y.len() == x.len(),
    ensures
        mat_vec(rows, vec_add(x, y)) == vec_add(mat_vec(rows, x), mat_vec(rows, y)),
        mat_vec(rows, vec_scale(c, x)) == vec_scale(c, mat_vec(rows, x)),
        mat_vec(rows, zeros(x.len())) == zeros(rows.len()),
{
    assert forall|i: int| 0 <= i < rows.len() implies #[trigger] mat_vec(rows, vec_add(x, y))[i]
        == vec_add(mat_vec(rows, x), mat_vec(rows, y))[i] by {
        lemma_row_dot_add(rows[i], x, y);
    }
    assert forall|i: int| 0 <= i < rows.len() implies #[trigger] mat_vec(rows, vec_scale(c, x))[i]
        == vec_scale(c, mat_vec(rows, x))[i] by {
        lemma_row_dot_scale(rows[i], c, x);
    }
    assert forall|i: int| 0 <= i < rows.len() implies #[trigger] mat_vec(rows, zeros(x.len()))[i] == 0 by {
        lemma_row_dot_zero(rows[i], x.len());
    }
    assert(mat_vec(rows, vec_add(x, y)) =~= vec_add(mat_vec(rows, x), mat_vec(rows, y)));
    assert(mat_vec(rows, vec_scale(c, x)) =~= vec_scale(c, mat_vec(rows, x)));
    assert(mat_vec(rows, zeros(x.len())) =~= zeros(rows.len()));
}

/// One sparse row times a dense vector, accumulated entry by entry.
pub(crate) fn dot_row(row: &[(usize, Fe)], x: &[Fe]) -> (r: Fe)
    requires
        forall|k: int| 0 <= k < row@.len() ==> (#[trigger] row@[k]).0 < x@.len(),
    ensures
        r.value() == row_dot(row@, vals(x@)),
        r.is_canonical(),
{
    let ghost xs = vals(x@);
    let mut acc = Fe::zero();
    let mut k: usize = 0;
    while k < row.len()
        invariant
            k <= row@.len(),
            forall|t: int| 0 <= t < row@.len() ==> (#[trigger] row@[t]).0 < x@.len(),
            xs == vals(x@),
            acc.value() == row_dot(row@.take(k as int), xs),
            acc.is_canonical(),
        decreases row@.len() - k,
    {
        let (col, val) = row[k];
        let prod = fe_mul(val, x[col]);
        let ghost prev = acc.value();
        acc = fe_add(acc, prod);
        proof {
            assert(row@.take(k + 1).drop_last() =~= row@.take(k as int));
            lemma_row_dot_range(row@.take(k as int), xs);
            lemma_add_mul_mod(prev as int, val.value() as int, x@[col as int].value() as int);
        }
        k = k + 1;
    }
    assert(row@.take(row@.len() as int) =~= row@);
    acc
}

impl SparseMatrix {
    /// Multiply the sparse matrix by a dense vector.
    ///
    /// Every column index must address `x`.
    pub fn apply(&self, x: &[Fe]) -> (r: Vec<Fe>)
        requires
            cols_below(self@, x@.len()),
        ensures
            vals(r@) == mat_vec(self@, vals(x@)),
            forall|i: int| 0 <= i < r@.len() ==> (#[trigger] r@[i]).is_canonical(),
    {
        let ghost xs = vals(x@);
        let mut result: Vec<Fe> = Vec::new();
        let mut i: usize = 0;
        while i < self.rows.len()
            invariant
                i <= self.rows@.len(),
                cols_below(self@, x@.len()),
                xs == vals(x@),
                result@.len() == i,
                forall|a: int| 0 <= a < i ==> (#[trigger] result@[a]).value() == row_dot(self@[a], xs),
                forall|a: int| 0 <= a < i ==> (#[trigger] result@[a]).is_canonical(),
            decreases self.rows@.len() - i,
        {
            let row = &self.rows[i];
            assert(row@ == self@[i as int]);
            let acc = dot_row(row.as_slice(), x);
            result.push(acc);
            i = i + 1;
        }
        assert(vals(result@) =~= mat_vec(self@, xs));
        result
    }
}

/// The edges of the first `i + 1` left vertices extend those of the first
/// `i` by the edges of vertex `i`.
proof fn lemma_edge_list_step(adj: Seq<Seq<usize>>, i: int)
    requires
        0 <= i < adj.len(),
    ensures
        edge_list(adj.take(i + 1)) == edge_list(adj.take(i)) + adj[i].map_values(
            |j: usize| (i as usize, j),
        ),
{
    assert(adj.take(i + 1).drop_last() =~= adj.take(i));
}

/// Fill the rows of a matrix from the edges of `g`, drawing each weight with
/// `nonzero` deciding between `rand_nonzero` and `rand_field`.
fn rows_from_graph(g: &Graph, nonzero: bool) -> (rows: Vec<Vec<(usize, Fe)>>)
    requires
        g.neighbors_in_range(),
    ensures
        matrix_of_graph(rows_view(rows@), g.adj_seq(), g.right_size as nat),
        cols_below(rows_view(rows@), g.adj@.len() as nat),
        weights_canonical(rows_view(rows@)),
        nonzero ==> weights_nonzero(rows_view(rows@)),
{
    let ghost adj = g.adj_seq();
    let m = g.right_size;
    let mut rows: Vec<Vec<(usize, Fe)>> = Vec::new();
    let mut j: usize = 0;
    while j < m
        invariant
            j <= m,
            rows@.len() == j,
            forall|a: int| 0 <= a < j ==> (#[trigger] rows@[a])@.len() == 0,
        decreases m - j,
    {
        rows.push(Vec::new());
        j = j + 1;
    }
    assert(edge_list(adj.take(0)) =~= Seq::<(usize, usize)>::empty()) by {
        assert(adj.take(0) =~= Seq::<Seq<usize>>::empty());
    }
    let n = g.adj.len();
    let mut i: usize = 0;
    while i < n
        invariant
            g.neighbors_in_range(),
            adj == g.adj_seq(),
            n == g.adj@.len(),
            m == g.right_size,
            i <= n,
            rows@.len() == m,
            forall|b: int|
                0 <= b < m ==> (#[trigger] rows@[b])@.map_values(|e: (usize, Fe)| e.0) == sources_of(
                    edge_list(adj.take(i as int)),
                    b as nat,
                ),
            forall|b: int, k: int|
                0 <= b < m && 0 <= k < rows@[b]@.len() ==> #[trigger] rows@[b]@[k].0 < i,
            forall|b: int, k: int|
                0 <= b < m && 0 <= k < rows@[b]@.len() ==> (#[trigger] rows@[b]@[k]).1.is_canonical(),
            nonzero ==> forall|b: int, k: int|
                0 <= b < m && 0 <= k < rows@[b]@.len() ==> (#[trigger] rows@[b]@[k]).1.value() != 0,
        decreases n - i,
    {
        let neighbors = &g.adj[i];
        assert(neighbors@ == adj[i as int]);
        let d = neighbors.len();
        let mut t: usize = 0;
        while t < d
            invariant
                g.neighbors_in_range(),
                adj == g.adj_seq(),
                n == g.adj@.len(),
                m == g.right_size,
                i < n,
                neighbors@ == adj[i as int],
                d == neighbors@.len(),
                t <= d,
                rows@.len() == m,
                forall|b: int|
                    0 <= b < m ==> (#[trigger] rows@[b])@.map_values(|e: (usize, Fe)| e.0)
                        == sources_of(
                        edge_list(adj.take(i as int)) + neighbors@.take(t as int).map_values(
                            |jj: usize| (i, jj),
                        ),
                        b as nat,
                    ),
                forall|b: int, k: int|
                    0 <= b < m && 0 <= k < rows@[b]@.len() ==> #[trigger] rows@[b]@[k].0 < i + 1,
                forall|b: int, k: int|
                    0 <= b < m && 0 <= k < rows@[b]@.len() ==> (#[trigger] rows@[b]@[k]).1.is_canonical(),
                nonzero ==> forall|b: int, k: int|
                    0 <= b < m && 0 <= k < rows@[b]@.len() ==> (#[trigger] rows@[b]@[k]).1.value()
                        != 0,
            decreases d - t,
        {
            let jj = neighbors[t];
            assert(jj < m);
            let w = if nonzero {
                rand_nonzero()
            } else {
                rand_field()
            };
            let ghost before = rows@;
            let ghost edges = edge_list(adj.take(i as int)) + neighbors@.take(t as int).map_values(
                |x: usize| (i, x),
            );
            let ghost edges2 = edge_list(adj.take(i as int)) + neighbors@.take(t + 1).map_values(
                |x: usize| (i, x),
            );
            rows[jj].push((i, w));
            proof {
                assert(edges2 =~= edges.push((i, jj)));
                assert(edges2.drop_last() =~= edges);
                assert forall|b: int| 0 <= b < m implies (#[trigger] rows@[b])@.map_values(
                    |e: (usize, Fe)| e.0,
                ) == sources_of(edges2, b as nat) by {
                    if b == jj {
                        assert(rows@[b]@ == before[b]@.push((i, w)));
                        assert(rows@[b]@.map_values(|e: (usize, Fe)| e.0) =~= before[b]@.map_values(
                            |e: (usize, Fe)| e.0,
                        ).push(i));
                    } else {
                        assert(rows@[b] == before[b]);
                    }
                }
                assert forall|b: int, k: int|
                    0 <= b < m && 0 <= k < rows@[b]@.len() implies #[trigger] rows@[b]@[k].0 < i + 1 && rows@[b]@[k].1.is_canonical()
                        && (nonzero ==> rows@[b]@[k].1.value() != 0) by {
                    if b == jj && k == before[b]@.len() {
                    } else {
                        assert(rows@[b]@[k] == before[b]@[k]);
                    }
                }
            }
            t = t + 1;
        }
        proof {
            lemma_edge_list_step(adj, i as int);
            assert(neighbors@.take(d as int) =~= neighbors@);
        }
        i = i + 1;
    }
    proof {
        assert(adj.take(n as int) =~= adj);
        let rv = rows_view(rows@);
        assert forall|b: int| 0 <= b < m implies (#[trigger] rv[b]).map_values(|e: (usize, Fe)| e.0)
            == sources_of(edge_list(adj), b as nat) by {
            assert(rv[b] == rows@[b]@);
        }
        assert forall|b: int, k: int| 0 <= b < rv.len() && 0 <= k < rv[b].len() implies #[trigger] rv[b][k].0 < g.adj@.len() by {
            assert(rv[b] == rows@[b]@);
        }
        assert forall|b: int, k: int| 0 <= b < rv.len() && 0 <= k < rv[b].len() implies (#[trigger] rv[b][k]).1.is_canonical() by {
            assert(rv[b] == rows@[b]@);
        }
        if nonzero {
            assert forall|b: int, k: int| 0 <= b < rv.len() && 0 <= k < rv[b].len() implies (#[trigger] rv[b][k]).1.value() != 0 by {
                assert(rv[b] == rows@[b]@);
            }
        }
    }
    rows
}

/// Build a sparse matrix whose edge weights are fully random field elements.
///
/// Row `j` has one entry per edge of `g` into right vertex `j`, in edge order,
/// whose column is the edge's left vertex. Only the adjacency lists and the
/// number of right vertices are read.
pub fn from_graph_random(g: &Graph) -> (r: SparseMatrix)
    requires
        g.neighbors_in_range(),
    ensures
        matrix_of_graph(r@, g.adj_seq(), g.right_size as nat),
        cols_below(r@, g.adj@.len() as nat),
        weights_canonical(r@),
{
    SparseMatrix { rows: rows_from_graph(g, false) }
}

/// Build a sparse matrix whose edge weights are random nonzero field elements.
///
/// Row `j` has one entry per edge of `g` into right vertex `j`, in edge order,
/// whose column is the edge's left vertex. Only the adjacency lists and the
/// number of right vertices are read.
pub fn from_graph_nonzero(g: &Graph) -> (r: SparseMatrix)
    requires
        g.neighbors_in_range(),
    ensures
        matrix_of_graph(r@, g.adj_seq(), g.right_size as nat),
        cols_below(r@, g.adj@.len() as nat),
        weights_canonical(r@),
        weights_nonzero(r@),
{
    SparseMatrix { rows: rows_from_graph(g, true) }
}

} // verus!
