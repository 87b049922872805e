//! Construction of encoding layers from sampled expander-like graphs.
//!
//! Three coefficient-sampling modes are compared while the graph sampling
//! stays fixed.

use crate::encoder::Layer;
use crate::graph::{left_regular, sample_d_regular};
use crate::matrix::{
    cols_below, from_graph_nonzero, from_graph_random, matrix_of_graph, weights_canonical,
    weights_nonzero,
};
use crate::field::Fe;
use vstd::prelude::*;

verus! {

/// How matrix coefficients are sampled for each layer.
#[derive(Clone, Copy, Debug)]
pub enum SamplingMode {
    Random,
    NonZero,
    Hybrid,
}

/// The matrix is built from some left `d`-regular graph with `n` left and `m`
/// right vertices: one row per right vertex, one entry per edge.
pub open spec fn sampled_from_graph(rows: Seq<Seq<(usize, Fe)>>, n: nat, m: nat, d: nat) -> bool {
    exists|adj: Seq<Seq<usize>>| left_regular(adj, n, m, d) && matrix_of_graph(rows, adj, m)
}

/// The weights of a layer's matrices are as `mode` draws them: nonzero in `A`
/// for `NonZero` and `Hybrid`, nonzero in `B` for `NonZero`, and always in
/// reduced form.
pub open spec fn weights_follow_mode(layer: Layer, mode: SamplingMode) -> bool {
    &&& weights_canonical(layer.A@)
    &&& weights_canonical(layer.B@)
    &&& match mode {
        SamplingMode::Random => true,
        SamplingMode::NonZero => weights_nonzero(layer.A@) && weights_nonzero(layer.B@),
        SamplingMode::Hybrid => weights_nonzero(layer.A@),
    }
}

/// Build a single recursive layer: `A` from a sampled graph with `n` left and
/// `m` right vertices (so `A` maps length-`n` inputs to length `m`), `B` from
/// one with `m` left and `n` right vertices.
pub fn build_layer(n: usize, m: usize, d: usize, mode: SamplingMode) -> (l: Layer)
    requires
        n == 0 || d == 0 || m > 0,
        m == 0 || d == 0 || n > 0,
    ensures
        l.A@.len() == m,
        l.B@.len() == n,
        cols_below(l.A@, n as nat),
        cols_below(l.B@, m as nat),
        sampled_from_graph(l.A@, n as nat, m as nat, d as nat),
        sampled_from_graph(l.B@, m as nat, n as nat, d as nat),
        weights_follow_mode(l, mode),
{
    let g1 = sample_d_regular(n, m, d);
    let g2 = sample_d_regular(m, n, d);
    let layer = match mode {
        SamplingMode::Random => {
            let a = from_graph_random(&g1);
            let b = from_graph_random(&g2);
            Layer { A: a, B: b }
        },
        SamplingMode::NonZero => {
            let a = from_graph_nonzero(&g1);
            let b = from_graph_nonzero(&g2);
            Layer { A: a, B: b }
        },
        SamplingMode::Hybrid => {
            let a = from_graph_nonzero(&g1);
            let b = from_graph_random(&g2);
            Layer { A: a, B: b }
        },
    };
    assert(matrix_of_graph(layer.A@, g1.adj_seq(), m as nat));
    assert(matrix_of_graph(layer.B@, g2.adj_seq(), n as nat));
    layer
}

/// The name under which a mode is reported in the experiment tables: the
/// construction each mode follows.
pub fn mode_label(mode: SamplingMode) -> (s: &'static str)
    ensures
        s@ == match mode {
            SamplingMode::Random => "brakedown"@,
            SamplingMode::NonZero => "spielman"@,
            SamplingMode::Hybrid => "hybrid"@,
        },
{
    match mode {
        SamplingMode::Random => "brakedown",
        SamplingMode::NonZero => "spielman",
        SamplingMode::Hybrid => "hybrid",
    }
}

} // verus!
