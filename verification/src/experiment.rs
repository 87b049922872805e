//! Layer stacks for experiments, random inputs and corruptions, and the
//! parity-consistency verifiers of recorded traces.

use crate::encoder::{
    encodable, encode_spec, encoded_len, lemma_encode_len, lemma_trace_len, project_spec,
    trace_spec, vals2, copy_vector, EncodingTrace, Layer,
};
use crate::expander::{build_layer, sampled_from_graph, weights_follow_mode, SamplingMode};
use crate::field::{fe_add, fe_eq, fe_is_zero, fe_mul, modulus, rand_field, rand_nonzero, vals, Fe};
use crate::clock::{clock_now, nanos_since};
use crate::encoder::encode_with_trace;
use crate::rng::{random_index, shuffle_indices};
use crate::matrix::{cols_below, dot_row, lemma_add_mul_mod, lemma_row_dot_range, mat_vec, row_dot};
use vstd::prelude::*;

verus! {

/// Full configuration for one experiment batch.
pub struct ExperimentConfig {
    pub n: usize,
    pub alpha_num: usize,
    pub alpha_den: usize,
    pub d: usize,
    pub layers: usize,
    pub trials: usize,
    pub weight: usize,
    pub mode: SamplingMode,
}

/// `a` doubled `k` times.
pub open spec fn doubled(a: nat, k: nat) -> nat
    decreases k,
{
    if k == 0 {
        a
    } else {
        2 * doubled(a, (k - 1) as nat)
    }
}

/// `n` halved `k` times.
pub open spec fn halved(n: nat, k: nat) -> nat
    decreases k,
{
    if k == 0 {
        n
    } else {
        halved(n / 2, (k - 1) as nat)
    }
}

/// `n` can be halved `k` times without remainder.
pub open spec fn halvable(n: nat, k: nat) -> bool
    decreases k,
{
    k == 0 || (n % 2 == 0 && halvable(n / 2, (k - 1) as nat))
}

/// Layer `k` of the stack is square of size `n` halved `k + 1` times: both
/// matrices have that many rows and read only that many coordinates.
pub open spec fn square_layers(layers: Seq<Layer>, n: nat) -> bool {
    forall|k: int|
        0 <= k < layers.len() ==> {
            let s = halved(n, (k + 1) as nat);
            &&& (#[trigger] layers[k]).A@.len() == s
            &&& layers[k].B@.len() == s
            &&& cols_below(layers[k].A@, s)
            &&& cols_below(layers[k].B@, s)
        }
}

/// Halving once more halves the last result.
proof fn lemma_halved_step(n: nat, k: nat)
    ensures
        halved(n, k + 1) == halved(n, k) / 2,
    decreases k,
{
    reveal_with_fuel(halved, 2);
    if k > 0 {
        lemma_halved_step(n / 2, (k - 1) as nat);
    }
}

/// After `i` halvings, `k - i` more are possible.
proof fn lemma_halvable_step(n: nat, k: nat, i: nat)
    requires
        halvable(n, k),
        i <= k,
    ensures
        halvable(halved(n, i), (k - i) as nat),
    decreases i,
{
    if i > 0 {
        lemma_halvable_step(n / 2, (k - 1) as nat, (i - 1) as nat);
    }
}

/// A stack of square layers that halve the length each time fits every
/// input whose length can be halved that often.
pub proof fn lemma_square_layers_encodable(n: nat, layers: Seq<Layer>)
    requires
        halvable(n, layers.len()),
        square_layers(layers, n),
    ensures
        encodable(n, layers),
    decreases layers.len(),
{
    if layers.len() > 0 {
        let rest = layers.drop_first();
        assert(square_layers(rest, n / 2)) by {
            assert forall|k: int| 0 <= k < rest.len() implies {
                let s = halved(n / 2, (k + 1) as nat);
                &&& (#[trigger] rest[k]).A@.len() == s
                &&& rest[k].B@.len() == s
                &&& cols_below(rest[k].A@, s)
                &&& cols_below(rest[k].B@, s)
            } by {
                assert(rest[k] == layers[k + 1]);
                assert(halved(n, (k + 2) as nat) == halved(n / 2, (k + 1) as nat));
            }
        }
        lemma_square_layers_encodable(n / 2, rest);
        let l0 = layers[0];
        assert(halved(n, 1) == n / 2) by {
            reveal_with_fuel(halved, 2);
        }
        assert(encoded_len(n / 2, rest) >= n / 2);
        assert(cols_below(l0.A@, encoded_len(n / 2, rest))) by {
            assert forall|i: int, k: int|
                0 <= i < l0.A@.len() && 0 <= k < l0.A@[i].len() implies #[trigger] l0.A@[i][k].0
                < encoded_len(n / 2, rest) by {
                assert(l0.A@[i][k].0 < n / 2);
            }
        }
    }
}

/// Build the recursive layer stack for an experiment.
///
/// Each layer halves the logical input length before the next recursive
/// step, so `n` must stay divisible by two throughout the requested depth.
pub fn build_layers(cfg: &ExperimentConfig) -> (layers: Vec<Layer>)
    requires
        halvable(cfg.n as nat, cfg.layers as nat),
    ensures
        layers@.len() == cfg.layers,
        square_layers(layers@, cfg.n as nat),
        encodable(cfg.n as nat, layers@),
        forall|k: int|
            0 <= k < layers@.len() ==> {
                let s = halved(cfg.n as nat, (k + 1) as nat);
                &&& sampled_from_graph((#[trigger] layers@[k]).A@, s, s, cfg.d as nat)
                &&& sampled_from_graph(layers@[k].B@, s, s, cfg.d as nat)
                &&& weights_follow_mode(layers@[k], cfg.mode)
            },
{
    let mut layers: Vec<Layer> = Vec::new();
    let mut current_n = cfg.n;
    let mut i: usize = 0;
    while i < cfg.layers
        invariant
            i <= cfg.layers,
            halvable(cfg.n as nat, cfg.layers as nat),
            current_n == halved(cfg.n as nat, i as nat),
            layers@.len() == i,
            square_layers(layers@, cfg.n as nat),
            forall|k: int|
                0 <= k < layers@.len() ==> {
                    let s = halved(cfg.n as nat, (k + 1) as nat);
                    &&& sampled_from_graph((#[trigger] layers@[k]).A@, s, s, cfg.d as nat)
                    &&& sampled_from_graph(layers@[k].B@, s, s, cfg.d as nat)
                    &&& weights_follow_mode(layers@[k], cfg.mode)
                },
        decreases cfg.layers - i,
    {
        proof {
            lemma_halvable_step(cfg.n as nat, cfg.layers as nat, i as nat);
            lemma_halved_step(cfg.n as nat, i as nat);
        }
        let projected_n = current_n / 2;
        let layer = build_layer(projected_n, projected_n, cfg.d, cfg.mode);
        let ghost before = layers@;
        layers.push(layer);
        assert forall|k: int| 0 <= k < layers@.len() implies {
            let s = halved(cfg.n as nat, (k + 1) as nat);
            &&& (#[trigger] layers@[k]).A@.len() == s
            &&& layers@[k].B@.len() == s
            &&& cols_below(layers@[k].A@, s)
            &&& cols_below(layers@[k].B@, s)
            &&& sampled_from_graph(layers@[k].A@, s, s, cfg.d as nat)
            &&& sampled_from_graph(layers@[k].B@, s, s, cfg.d as nat)
            &&& weights_follow_mode(layers@[k], cfg.mode)
        } by {
            if k < i {
                assert(layers@[k] == before[k]);
            }
        }
        current_n = projected_n;
        i = i + 1;
    }
    proof {
        lemma_square_layers_encodable(cfg.n as nat, layers@);
    }
    layers
}

/// The row lists of `rows`, as sequences.
pub open spec fn index_lists(rows: Seq<Vec<usize>>) -> Seq<Seq<usize>> {
    rows.map_values(|v: Vec<usize>| v@)
}

/// Length of the systematic prefix of trace entry `idx`: the innermost entry's
/// length doubled once per layer between them.
pub open spec fn prefix_len(t: Seq<Seq<int>>, idx: int) -> nat {
    doubled(t.last().len(), (t.len() - 1 - idx) as nat)
}

/// Parity coordinate `r` of trace entry `idx` equals row `r` of `B` applied
/// to `A` applied to the next inner entry.
pub open spec fn parity_row_holds(t: Seq<Seq<int>>, layers: Seq<Layer>, idx: int, r: int) -> bool {
    t[idx][prefix_len(t, idx) + r] == row_dot(
        layers[idx].B@[r],
        mat_vec(layers[idx].A@, t[idx + 1]),
    )
}

/// Entry `idx` of the trace holds its inferred systematic prefix.
pub open spec fn layer_fits(t: Seq<Seq<int>>, layers: Seq<Layer>, idx: int) -> bool {
    prefix_len(t, idx) <= t[idx].len()
}

/// The trace has one entry per layer plus the innermost one, the inferred
/// prefix lengths fit in a `usize`, and every entry holds its prefix.
pub open spec fn trace_fits(t: Seq<Seq<int>>, layers: Seq<Layer>) -> bool {
    &&& t.len() == layers.len() + 1
    &&& doubled(t.last().len(), layers.len()) <= usize::MAX
    &&& forall|idx: int| 0 <= idx < layers.len() ==> #[trigger] layer_fits(t, layers, idx)
}

/// Row `r` of layer `idx` can be recomputed: it is a row of `B`, each of its
/// entries names a row of `A`, and each such row of `A` reads only
/// coordinates of the next inner entry.
pub open spec fn row_fits(t: Seq<Seq<int>>, layers: Seq<Layer>, idx: int, r: int) -> bool {
    let a = layers[idx].A@;
    let brow = layers[idx].B@[r];
    &&& 0 <= r < layers[idx].B@.len()
    &&& forall|k: int| 0 <= k < brow.len() ==> (#[trigger] brow[k]).0 < a.len()
    &&& forall|k: int, m: int|
        0 <= k < brow.len() && 0 <= m < a[brow[k].0 as int].len() ==> (#[trigger] a[brow[k].0 as int][m]).0
            < t[idx + 1].len()
}

/// Every row asked for can be recomputed and is a parity coordinate of its
/// entry.
pub open spec fn rows_in_range(t: Seq<Seq<int>>, layers: Seq<Layer>, rows: Seq<Seq<usize>>) -> bool {
    &&& rows.len() == layers.len()
    &&& forall|idx: int, k: int|
        0 <= idx < layers.len() && 0 <= k < rows[idx].len() ==> {
            &&& row_fits(t, layers, idx, #[trigger] rows[idx][k] as int)
            &&& prefix_len(t, idx) + rows[idx][k] < t[idx].len()
        }
}

/// The trace has one entry per layer plus the innermost one, and the
/// inferred prefix lengths fit in a `usize`.
pub open spec fn trace_shape(t: Seq<Seq<int>>, layers: Seq<Layer>) -> bool {
    &&& t.len() == layers.len() + 1
    &&& doubled(t.last().len(), layers.len()) <= usize::MAX
}

/// Every listed row before row `k` of layer `idx`, in checking order, holds
/// its parity relation.
pub open spec fn earlier_rows_hold(
    t: Seq<Seq<int>>,
    layers: Seq<Layer>,
    rows: Seq<Seq<usize>>,
    idx: int,
    k: int,
) -> bool {
    forall|i2: int, k2: int|
        0 <= i2 < rows.len() && 0 <= k2 < rows[i2].len() && (i2 < idx || (i2 == idx && k2 < k))
            ==> parity_row_holds(t, layers, i2, #[trigger] rows[i2][k2] as int)
}

/// Checking the listed rows in order reaches only what it can check: a layer
/// is reached when every earlier listed row held, and then its entry holds
/// its prefix; a row is reached when every row before it held, and then it
/// can be recomputed and is a parity coordinate of its entry.
pub open spec fn reached_rows_fit(t: Seq<Seq<int>>, layers: Seq<Layer>, rows: Seq<Seq<usize>>) -> bool {
    &&& rows.len() == layers.len()
    &&& forall|idx: int|
        0 <= idx < layers.len() && earlier_rows_hold(t, layers, rows, idx, 0) ==> #[trigger] layer_fits(
            t,
            layers,
            idx,
        )
    &&& forall|idx: int, k: int|
        0 <= idx < layers.len() && 0 <= k < rows[idx].len() && earlier_rows_hold(t, layers, rows, idx, k)
            ==> {
            &&& row_fits(t, layers, idx, #[trigger] rows[idx][k] as int)
            &&& prefix_len(t, idx) + rows[idx][k] < t[idx].len()
        }
}

/// Every row of every layer's `B`, in order.
pub open spec fn all_rows(layers: Seq<Layer>) -> Seq<Seq<usize>> {
    Seq::new(layers.len(), |i: int| Seq::new(layers[i].B@.len(), |r: int| r as usize))
}

/// Every row asked for holds its parity relation.
pub open spec fn rows_consistent(t: Seq<Seq<int>>, layers: Seq<Layer>, rows: Seq<Seq<usize>>) -> bool {
    forall|idx: int, k: int|
        0 <= idx < rows.len() && 0 <= k < rows[idx].len() ==> parity_row_holds(
            t,
            layers,
            idx,
            #[trigger] rows[idx][k] as int,
        )
}

/// Every entry has room for all of `B`'s rows as parity coordinates, and
/// every row of `B` can be recomputed.
pub open spec fn parity_fits(t: Seq<Seq<int>>, layers: Seq<Layer>) -> bool {
    &&& forall|idx: int|
        0 <= idx < layers.len() ==> prefix_len(t, idx) + (#[trigger] layers[idx]).B@.len()
            <= t[idx].len()
    &&& forall|idx: int, r: int|
        0 <= idx < layers.len() && 0 <= r < layers[idx].B@.len() ==> #[trigger] row_fits(t, layers, idx, r)
}

/// Every parity coordinate of every layer holds its relation.
pub open spec fn trace_consistent(t: Seq<Seq<int>>, layers: Seq<Layer>) -> bool {
    forall|idx: int, r: int|
        0 <= idx < layers.len() && 0 <= r < layers[idx].B@.len() ==> #[trigger] parity_row_holds(
            t,
            layers,
            idx,
            r,
        )
}

/// Doubling more often gives more.
proof fn lemma_doubled_monotone(a: nat, k1: nat, k2: nat)
    requires
        k1 <= k2,
    ensures
        doubled(a, k1) <= doubled(a, k2),
    decreases k2,
{
    if k1 < k2 {
        lemma_doubled_monotone(a, k1, (k2 - 1) as nat);
    }
}

/// Reconstruct the systematic input length at each recorded trace layer.
fn trace_input_lengths(trace: &EncodingTrace, layers: &[Layer]) -> (r: Vec<usize>)
    requires
        trace.layers@.len() == layers@.len() + 1,
        doubled(trace.trace_vals().last().len(), layers@.len() as nat) <= usize::MAX,
    ensures
        r@.len() == layers@.len(),
        forall|idx: int| 0 <= idx < layers@.len() ==> #[trigger] r@[idx] == prefix_len(trace.trace_vals(), idx),
{
    let ghost t = trace.trace_vals();
    let n_layers = layers.len();
    let mut input_lengths: Vec<usize> = Vec::new();
    let mut z: usize = 0;
    while z < n_layers
        invariant
            z <= n_layers,
            input_lengths@.len() == z,
        decreases n_layers - z,
    {
        input_lengths.push(0);
        z = z + 1;
    }
    let last = &trace.layers[n_layers];
    assert(t.last().len() == last@.len());
    let mut current_input_len: usize = last.len();
    let mut j: usize = n_layers;
    while j > 0
        invariant
            j <= n_layers,
            n_layers == layers@.len(),
            t == trace.trace_vals(),
            t.len() == n_layers + 1,
            doubled(t.last().len(), n_layers as nat) <= usize::MAX,
            input_lengths@.len() == n_layers,
            current_input_len == doubled(t.last().len(), (n_layers - j) as nat),
            forall|idx: int| j <= idx < n_layers ==> #[trigger] input_lengths@[idx] == prefix_len(t, idx),
        decreases j,
    {
        proof {
            lemma_doubled_monotone(t.last().len(), (n_layers - j + 1) as nat, n_layers as nat);
        }
        current_input_len = current_input_len * 2;
        j = j - 1;
        input_lengths.set(j, current_input_len);
    }
    input_lengths
}

/// Recompute one parity row for one layer of a trace: `B[row] * (A * current)`,
/// where `current` is the next inner trace entry.
pub fn recompute_parity_row(trace: &EncodingTrace, layers: &[Layer], layer_idx: usize, row: usize) -> (r: Fe)
    requires
        layer_idx < layers@.len(),
        trace.layers@.len() == layers@.len() + 1,
        row_fits(trace.trace_vals(), layers@, layer_idx as int, row as int),
    ensures
        r.value() == row_dot(
            layers@[layer_idx as int].B@[row as int],
            mat_vec(layers@[layer_idx as int].A@, trace.trace_vals()[layer_idx + 1]),
        ),
{
    assert(trace.layers@.len() == trace.layers.len());
    let current = &trace.layers[layer_idx + 1];
    let layer = &layers[layer_idx];
    let ghost cur = vals(current@);
    let ghost mv = mat_vec(layer.A@, cur);
    assert(trace.trace_vals()[layer_idx + 1] == cur);
    let brow = &layer.B.rows[row];
    assert(brow@ == layer.B@[row as int]);
    let mut acc = Fe::zero();
    let mut k: usize = 0;
    while k < brow.len()
        invariant
            k <= brow@.len(),
            brow@ == layer.B@[row as int],
            row < layer.B@.len(),
            *layer == layers@[layer_idx as int],
            trace.trace_vals()[layer_idx + 1] == cur,
            cur.len() == current@.len(),
            row_fits(trace.trace_vals(), layers@, layer_idx as int, row as int),
            cur == vals(current@),
            mv == mat_vec(layer.A@, cur),
            acc.value() == row_dot(brow@.take(k as int), mv),
        decreases brow@.len() - k,
    {
        let (col, val) = brow[k];
        assert(brow@[k as int].0 == col);
        assert(col < layer.A@.len());
        let arow = &layer.A.rows[col];
        assert(arow@ == layer.A@[col as int]);
        assert forall|m: int| 0 <= m < arow@.len() implies (#[trigger] arow@[m]).0 < current@.len() by {
            assert(layer.A@[brow@[k as int].0 as int][m] == arow@[m]);
        }
        let inner_acc = dot_row(arow.as_slice(), current.as_slice());
        let ghost prev = acc.value();
        acc = fe_add(acc, fe_mul(val, inner_acc));
        proof {
            assert(brow@.take(k + 1).drop_last() =~= brow@.take(k as int));
            lemma_row_dot_range(brow@.take(k as int), mv);
            lemma_add_mul_mod(prev as int, val.value() as int, mv[col as int]);
        }
        k = k + 1;
    }
    assert(brow@.take(brow@.len() as int) =~= brow@);
    acc
}

/// Verify a trace against a caller-provided list of rows to check per layer:
/// the result is whether every listed row holds its parity relation.
pub fn verify_trace_rows(trace: &EncodingTrace, layers: &[Layer], rows_to_check: &[Vec<usize>]) -> (ok: bool)
    requires
        trace_shape(trace.trace_vals(), layers@),
        reached_rows_fit(trace.trace_vals(), layers@, index_lists(rows_to_check@)),
    ensures
        ok == rows_consistent(trace.trace_vals(), layers@, index_lists(rows_to_check@)),
{
    let ghost t = trace.trace_vals();
    let ghost rows_seq = index_lists(rows_to_check@);
    let input_lengths = trace_input_lengths(trace, layers);
    let mut layer_idx: usize = 0;
    while layer_idx < rows_to_check.len()
        invariant
            t == trace.trace_vals(),
            rows_seq == index_lists(rows_to_check@),
            trace_shape(t, layers@),
            reached_rows_fit(t, layers@, rows_seq),
            layer_idx <= rows_to_check@.len(),
            input_lengths@.len() == layers@.len(),
            forall|idx: int| 0 <= idx < layers@.len() ==> #[trigger] input_lengths@[idx] == prefix_len(t, idx),
            earlier_rows_hold(t, layers@, rows_seq, layer_idx as int, 0),
        decreases rows_to_check@.len() - layer_idx,
    {
        let rows = &rows_to_check[layer_idx];
        assert(rows@ == rows_seq[layer_idx as int]);
        let next = &trace.layers[layer_idx];
        assert(vals(next@) == t[layer_idx as int]);
        let x_len = input_lengths[layer_idx];
        assert(layer_fits(t, layers@, layer_idx as int));
        let mut k: usize = 0;
        while k < rows.len()
            invariant
                t == trace.trace_vals(),
                rows_seq == index_lists(rows_to_check@),
                trace_shape(t, layers@),
                reached_rows_fit(t, layers@, rows_seq),
                layer_idx < rows_to_check@.len(),
                rows@ == rows_seq[layer_idx as int],
                vals(next@) == t[layer_idx as int],
                x_len == prefix_len(t, layer_idx as int),
                layer_fits(t, layers@, layer_idx as int),
                k <= rows@.len(),
                earlier_rows_hold(t, layers@, rows_seq, layer_idx as int, k as int),
            decreases rows@.len() - k,
        {
            let row = rows[k];
            assert(row == rows_seq[layer_idx as int][k as int]);
            assert(row_fits(t, layers@, layer_idx as int, rows_seq[layer_idx as int][k as int] as int));
            assert(vals(trace.layers@[layer_idx + 1]@) == t[layer_idx + 1]);
            assert(prefix_len(t, layer_idx as int) + rows_seq[layer_idx as int][k as int] < t[layer_idx as int].len());
            assert(next@.len() == next.len());
            let expected = recompute_parity_row(trace, layers, layer_idx, row);
            if !fe_eq(expected, next[x_len + row]) {
                assert(!parity_row_holds(t, layers@, layer_idx as int, rows_seq[layer_idx as int][k as int] as int));
                return false;
            }
            k = k + 1;
        }
        assert(earlier_rows_hold(t, layers@, rows_seq, layer_idx + 1, 0)) by {
            assert forall|i2: int, k2: int|
                0 <= i2 < rows_seq.len() && 0 <= k2 < rows_seq[i2].len() && (i2 < layer_idx + 1 || (i2 == layer_idx + 1 && k2 < 0))
                    implies parity_row_holds(t, layers@, i2, #[trigger] rows_seq[i2][k2] as int) by {
                if i2 == layer_idx {
                    assert(k2 < k);
                }
            }
        }
        layer_idx = layer_idx + 1;
    }
    true
}

/// Exhaustively verify every parity row in every layer of a trace.
pub fn verify_trace_fully(trace: &EncodingTrace, layers: &[Layer]) -> (ok: bool)
    requires
        trace_shape(trace.trace_vals(), layers@),
        reached_rows_fit(trace.trace_vals(), layers@, all_rows(layers@)),
    ensures
        ok == trace_consistent(trace.trace_vals(), layers@),
{
    let ghost t = trace.trace_vals();
    let mut rows_to_check: Vec<Vec<usize>> = Vec::new();
    let mut i: usize = 0;
    while i < layers.len()
        invariant
            i <= layers@.len(),
            rows_to_check@.len() == i,
            forall|a: int, k: int| 0 <= a < i && 0 <= k < rows_to_check@[a]@.len() ==> #[trigger] rows_to_check@[a]@[k] == k,
            forall|a: int| 0 <= a < i ==> (#[trigger] rows_to_check@[a])@.len() == layers@[a].B@.len(),
        decreases layers@.len() - i,
    {
        let n_rows = layers[i].B.rows.len();
        let mut all: Vec<usize> = Vec::new();
        let mut r: usize = 0;
        while r < n_rows
            invariant
                r <= n_rows,
                all@.len() == r,
                forall|k: int| 0 <= k < r ==> #[trigger] all@[k] == k,
            decreases n_rows - r,
        {
            all.push(r);
            r = r + 1;
        }
        let ghost before = rows_to_check@;
        rows_to_check.push(all);
        assert forall|a: int, k: int| 0 <= a < i + 1 && 0 <= k < rows_to_check@[a]@.len() implies #[trigger] rows_to_check@[a]@[k] == k by {
            if a < i {
                assert(rows_to_check@[a] == before[a]);
            }
        }
        assert forall|a: int| 0 <= a < i + 1 implies (#[trigger] rows_to_check@[a])@.len() == layers@[a].B@.len() by {
            if a < i {
                assert(rows_to_check@[a] == before[a]);
            }
        }
        i = i + 1;
    }
    let ghost rows_seq = index_lists(rows_to_check@);
    assert(rows_seq =~= all_rows(layers@)) by {
        assert forall|idx: int| 0 <= idx < layers@.len() implies #[trigger] rows_seq[idx] == all_rows(layers@)[idx] by {
            assert(rows_seq[idx] == rows_to_check@[idx]@);
            assert(rows_seq[idx] =~= all_rows(layers@)[idx]);
        }
    }
    let ok = verify_trace_rows(trace, layers, rows_to_check.as_slice());
    proof {
        if ok {
            assert forall|idx: int, r: int| 0 <= idx < layers@.len() && 0 <= r < layers@[idx].B@.len() implies #[trigger] parity_row_holds(t, layers@, idx, r) by {
                assert(rows_seq[idx] == rows_to_check@[idx]@);
                assert(rows_seq[idx][r] == r);
            }
        } else {
            let (idx, k) = choose|idx: int, k: int| 0 <= idx < rows_seq.len() && 0 <= k < rows_seq[idx].len() && !parity_row_holds(t, layers@, idx, #[trigger] rows_seq[idx][k] as int);
            assert(rows_seq[idx] == rows_to_check@[idx]@);
            assert(rows_seq[idx][k] == k);
        }
    }
    ok
}

/// The first trace entry is the codeword.
proof fn lemma_trace_head(x: Seq<int>, layers: Seq<Layer>, layer_id: nat)
    ensures
        trace_spec(x, layers, layer_id)[0] == encode_spec(x, layers, layer_id),
{
}

/// The innermost entry, doubled once per layer, is as long as the input.
proof fn lemma_trace_innermost(x: Seq<int>, layers: Seq<Layer>, layer_id: nat)
    requires
        encodable(x.len(), layers),
    ensures
        doubled(trace_spec(x, layers, layer_id).last().len(), layers.len()) == x.len(),
    decreases layers.len(),
{
    if layers.len() > 0 {
        let xp = project_spec(x, layer_id);
        let rest = layers.drop_first();
        lemma_trace_innermost(xp, rest, layer_id + 1);
        lemma_trace_len(xp, rest, layer_id + 1);
        let t2 = trace_spec(xp, rest, layer_id + 1);
        assert(trace_spec(x, layers, layer_id).last() == t2.last());
    }
}

/// The trace that `encode_with_trace` records (with the first layer on hash
/// coefficients of `layer_id`) passes full verification: it has the shape
/// that `verify_trace_fully` asks for, and every parity coordinate of every
/// layer equals `B * (A * next inner entry)`.
pub proof fn lemma_encoded_trace_verifies(x: Seq<int>, layers: Seq<Layer>, layer_id: nat)
    requires
        encodable(x.len(), layers),
        x.len() <= usize::MAX,
    ensures
        trace_fits(trace_spec(x, layers, layer_id), layers),
        parity_fits(trace_spec(x, layers, layer_id), layers),
        trace_shape(trace_spec(x, layers, layer_id), layers),
        reached_rows_fit(trace_spec(x, layers, layer_id), layers, all_rows(layers)),
        trace_consistent(trace_spec(x, layers, layer_id), layers),
    decreases layers.len(),
{
    let t = trace_spec(x, layers, layer_id);
    lemma_trace_len(x, layers, layer_id);
    lemma_trace_innermost(x, layers, layer_id);
    if layers.len() > 0 {
        let xp = project_spec(x, layer_id);
        let rest = layers.drop_first();
        let t2 = trace_spec(xp, rest, layer_id + 1);
        let inner = encode_spec(xp, rest, layer_id + 1);
        lemma_encoded_trace_verifies(xp, rest, layer_id + 1);
        lemma_trace_len(xp, rest, layer_id + 1);
        lemma_trace_head(xp, rest, layer_id + 1);
        lemma_encode_len(xp, rest, layer_id + 1);
        assert(t == seq![encode_spec(x, layers, layer_id)] + t2);
        assert(t.last() == t2.last());
        let l0 = layers[0];
        let y = mat_vec(l0.A@, inner);
        assert(t[0] == x + mat_vec(l0.B@, y));
        assert(t[1] == inner);
        assert(prefix_len(t, 0) == x.len());
        assert forall|k: int| 0 <= k < rest.len() implies {
            &&& prefix_len(t, k + 1) == prefix_len(t2, k)
            &&& t[k + 1] == t2[k]
            &&& t[k + 2] == t2[k + 1]
            &&& layers[k + 1] == rest[k]
        } by {}
        assert forall|idx: int| 0 <= idx < layers.len() implies #[trigger] layer_fits(t, layers, idx) by {
            if idx > 0 {
                assert(layer_fits(t2, rest, idx - 1));
            }
        }
        assert forall|idx: int| 0 <= idx < layers.len() implies prefix_len(t, idx) + (#[trigger] layers[idx]).B@.len() <= t[idx].len() by {
            if idx > 0 {
                assert(prefix_len(t2, idx - 1) + rest[idx - 1].B@.len() <= t2[idx - 1].len());
            }
        }
        assert forall|idx: int, r: int|
            0 <= idx < layers.len() && 0 <= r < layers[idx].B@.len() implies #[trigger] row_fits(t, layers, idx, r) by {
            if idx > 0 {
                assert(row_fits(t2, rest, idx - 1, r));
            } else {
                let brow = l0.B@[r];
                assert forall|k: int| 0 <= k < brow.len() implies (#[trigger] brow[k]).0 < l0.A@.len() by {}
                assert forall|k: int, m: int|
                    0 <= k < brow.len() && 0 <= m < l0.A@[brow[k].0 as int].len() implies (#[trigger] l0.A@[brow[k].0 as int][m]).0
                        < t[1].len() by {
                    assert(brow[k].0 < l0.A@.len());
                }
            }
        }
        assert forall|idx: int, r: int|
            0 <= idx < layers.len() && 0 <= r < layers[idx].B@.len() implies #[trigger] parity_row_holds(t, layers, idx, r) by {
            if idx > 0 {
                assert(parity_row_holds(t2, rest, idx - 1, r));
            } else {
                assert(t[0][x.len() + r] == mat_vec(l0.B@, y)[r]);
            }
        }
    }
}

/// Each entry of a recorded trace starts with the input at its depth: the
/// outermost with `x`, and every inner one with the projection of the prefix
/// of the entry before it. Each prefix is twice as long as the next.
pub proof fn lemma_trace_prefixes_project(x: Seq<int>, layers: Seq<Layer>, layer_id: nat)
    requires
        encodable(x.len(), layers),
    ensures
        ({
            let t = trace_spec(x, layers, layer_id);
            &&& prefix_len(t, 0) == x.len()
            &&& t[0].take(x.len() as int) == x
            &&& forall|idx: int|
                0 <= idx < layers.len() ==> #[trigger] t[idx + 1].take(prefix_len(t, idx + 1) as int)
                    == project_spec(t[idx].take(prefix_len(t, idx) as int), layer_id + idx as nat)
            &&& forall|idx: int|
                0 <= idx < layers.len() ==> #[trigger] prefix_len(t, idx) == 2 * prefix_len(t, idx + 1)
        }),
    decreases layers.len(),
{
    let t = trace_spec(x, layers, layer_id);
    lemma_trace_len(x, layers, layer_id);
    lemma_trace_innermost(x, layers, layer_id);
    crate::encoder::lemma_encoding_is_systematic(x, layers, layer_id);
    if layers.len() > 0 {
        let xp = project_spec(x, layer_id);
        let rest = layers.drop_first();
        let t2 = trace_spec(xp, rest, layer_id + 1);
        lemma_trace_prefixes_project(xp, rest, layer_id + 1);
        lemma_trace_len(xp, rest, layer_id + 1);
        assert(t == seq![encode_spec(x, layers, layer_id)] + t2);
        assert(t.last() == t2.last());
        assert forall|idx: int|
            0 <= idx < layers.len() implies #[trigger] t[idx + 1].take(prefix_len(t, idx + 1) as int)
                == project_spec(t[idx].take(prefix_len(t, idx) as int), layer_id + idx as nat) by {
            assert(prefix_len(t, idx + 1) == prefix_len(t2, idx));
            assert(t[idx + 1] == t2[idx]);
            if idx > 0 {
                assert(prefix_len(t, idx) == prefix_len(t2, idx - 1));
                assert(t[idx] == t2[idx - 1]);
                assert(t2[(idx - 1) + 1] == t2[idx]);
                assert(layer_id + 1 + (idx - 1) as nat == layer_id + idx as nat);
            }
        }
    }
    assert forall|idx: int| 0 <= idx < layers.len() implies #[trigger] prefix_len(t, idx) == 2 * prefix_len(t, idx + 1) by {
        assert((t.len() - 1 - idx) as nat == ((t.len() - 1 - (idx + 1)) as nat) + 1);
    }
}

/// Changing one parity coordinate of a consistent trace, and nothing of the
/// entries it is computed from, makes full verification fail.
pub proof fn lemma_parity_corruption_detected(
    t: Seq<Seq<int>>,
    corrupted: Seq<Seq<int>>,
    layers: Seq<Layer>,
    idx: int,
    r: int,
)
    requires
        t.len() == layers.len() + 1,
        trace_consistent(t, layers),
        0 <= idx < layers.len(),
        0 <= r < layers[idx].B@.len(),
        corrupted.len() == t.len(),
        forall|i: int| 0 <= i < t.len() && i != idx ==> #[trigger] corrupted[i] == t[i],
        corrupted[idx].len() == t[idx].len(),
        corrupted[idx][prefix_len(t, idx) + r] != t[idx][prefix_len(t, idx) + r],
    ensures
        !trace_consistent(corrupted, layers),
{
    assert(corrupted.last() == t.last());
    assert(corrupted[idx + 1] == t[idx + 1]);
    assert(parity_row_holds(t, layers, idx, r));
    assert(!parity_row_holds(corrupted, layers, idx, r));
}

/// Sample a dense random input vector.
pub fn random_vector(n: usize) -> (v: Vec<Fe>)
    ensures
        v@.len() == n,
        forall|i: int| 0 <= i < n ==> (#[trigger] v@[i]).is_canonical(),
{
    let mut v: Vec<Fe> = Vec::new();
    let mut i: usize = 0;
    while i < n
        invariant
            i <= n,
            v@.len() == i,
            forall|k: int| 0 <= k < i ==> (#[trigger] v@[k]).is_canonical(),
        decreases n - i,
    {
        v.push(rand_field());
        i = i + 1;
    }
    v
}

/// The indices `0..n`, in a random order.
fn shuffled_indices(n: usize) -> (indices: Vec<usize>)
    ensures
        indices@.len() == n,
        indices@.no_duplicates(),
        forall|k: int| 0 <= k < n ==> #[trigger] indices@[k] < n,
{
    broadcast use vstd::seq_lib::group_to_multiset_ensures;

    let mut indices: Vec<usize> = Vec::new();
    let mut i: usize = 0;
    while i < n
        invariant
            i <= n,
            indices@.len() == i,
            forall|k: int| 0 <= k < i ==> #[trigger] indices@[k] == k,
        decreases n - i,
    {
        indices.push(i);
        i = i + 1;
    }
    let ghost before = indices@;
    assert(before.no_duplicates());
    proof {
        before.lemma_multiset_has_no_duplicates();
    }
    shuffle_indices(&mut indices);
    assert(indices@.len() == before.len()) by {
        assert(indices@.to_multiset().len() == before.to_multiset().len());
    }
    proof {
        indices@.lemma_multiset_has_no_duplicates_conv();
    }
    assert forall|k: int| 0 <= k < n implies #[trigger] indices@[k] < n by {
        let x = indices@[k];
        assert(indices@.contains(x));
        assert(indices@.to_multiset().count(x) > 0);
        assert(before.contains(x));
    }
    indices
}

/// The first `t` items of a sequence without repeats form a set of `t`
/// items.
proof fn lemma_prefix_set_len(s: Seq<usize>, t: int)
    requires
        s.no_duplicates(),
        0 <= t <= s.len(),
    ensures
        s.take(t).to_set().finite(),
        s.take(t).to_set().len() == t,
{
    broadcast use vstd::seq_lib::seq_to_set_is_finite;

    assert(s.take(t).no_duplicates());
    s.take(t).unique_seq_to_set();
}

/// A set of exactly `min(num, n)` indices below `n`.
pub open spec fn chosen_positions(s: Set<usize>, n: nat, num: nat) -> bool {
    &&& s.finite()
    &&& s.len() == if num < n { num } else { n }
    &&& forall|i: usize| s.contains(i) ==> i < n
}

/// `min(a, b)`.
pub open spec fn min_nat(a: nat, b: nat) -> nat {
    if a < b {
        a
    } else {
        b
    }
}

/// `order` lists each of `0..n` once.
pub open spec fn is_order_of(order: Seq<usize>, n: nat) -> bool {
    &&& order.len() == n
    &&& order.no_duplicates()
    &&& forall|k: int| 0 <= k < n ==> #[trigger] order[k] < n
}

/// `v` with `fresh[j]` written at position `order[j]`, for `j` from `0` to
/// `k - 1`, in that order.
pub open spec fn overwrite<A>(v: Seq<A>, order: Seq<usize>, fresh: Seq<A>, k: nat) -> Seq<A>
    decreases k,
{
    if k == 0 {
        v
    } else {
        overwrite(v, order, fresh, (k - 1) as nat).update(order[k - 1] as int, fresh[k - 1])
    }
}

/// With distinct positions, the first `k` listed positions hold their fresh
/// values and every other position keeps its value.
pub proof fn lemma_overwrite<A>(v: Seq<A>, order: Seq<usize>, fresh: Seq<A>, k: nat)
    requires
        k <= order.len(),
        k <= fresh.len(),
        order.no_duplicates(),
        forall|j: int| 0 <= j < k ==> #[trigger] order[j] < v.len(),
    ensures
        overwrite(v, order, fresh, k).len() == v.len(),
        forall|j: int| 0 <= j < k ==> overwrite(v, order, fresh, k)[#[trigger] order[j] as int] == fresh[j],
        forall|i: int|
            0 <= i < v.len() && !order.take(k as int).contains(i as usize) ==> #[trigger] overwrite(
                v,
                order,
                fresh,
                k,
            )[i] == v[i],
    decreases k,
{
    if k > 0 {
        let k1 = (k - 1) as nat;
        lemma_overwrite(v, order, fresh, k1);
        let prev = overwrite(v, order, fresh, k1);
        assert forall|j: int| 0 <= j < k implies overwrite(v, order, fresh, k)[#[trigger] order[j] as int] == fresh[j] by {
            if j < k1 {
                assert(order[j] != order[k1 as int]);
            }
        }
        assert forall|i: int|
            0 <= i < v.len() && !order.take(k as int).contains(i as usize) implies #[trigger] overwrite(
                v,
                order,
                fresh,
                k,
            )[i] == v[i] by {
            assert(order.take(k as int)[k1 as int] == order[k1 as int]);
            assert(i != order[k1 as int]);
            if order.take(k1 as int).contains(i as usize) {
                let j = choose|j: int| 0 <= j < k1 && order.take(k1 as int)[j] == i as usize;
                assert(order.take(k as int)[j] == i as usize);
            }
        }
    }
}

/// Overwriting positions inside a sequence keeps its length.
proof fn lemma_overwrite_len<A>(v: Seq<A>, order: Seq<usize>, fresh: Seq<A>, k: nat)
    requires
        forall|j: int| 0 <= j < k ==> #[trigger] order[j] < v.len(),
    ensures
        overwrite(v, order, fresh, k).len() == v.len(),
    decreases k,
{
    if k > 0 {
        lemma_overwrite_len(v, order, fresh, (k - 1) as nat);
    }
}

/// Values of an overwritten sequence are the overwritten values.
pub proof fn lemma_overwrite_vals(v: Seq<Fe>, order: Seq<usize>, fresh: Seq<Fe>, k: nat)
    requires
        k <= fresh.len(),
        forall|j: int| 0 <= j < k ==> #[trigger] order[j] < v.len(),
    ensures
        vals(overwrite(v, order, fresh, k)) == overwrite(vals(v), order, vals(fresh), k),
    decreases k,
{
    if k > 0 {
        let k1 = (k - 1) as nat;
        lemma_overwrite_vals(v, order, fresh, k1);
        lemma_overwrite_len(v, order, fresh, k1);
        lemma_overwrite_len(vals(v), order, vals(fresh), k1);
        assert(order[k1 as int] < v.len());
        assert(vals(overwrite(v, order, fresh, k)) =~= overwrite(vals(v), order, vals(fresh), k));
    }
}

/// Write `fresh[j]` at position `order[j]`, for the first `min(num, v.len())`
/// entries of `order`; every other position keeps its value.
pub fn corrupt_with(v: &mut [Fe], order: &[usize], fresh: &[Fe], num: usize)
    requires
        is_order_of(order@, old(v)@.len()),
        fresh@.len() >= min_nat(num as nat, old(v)@.len()),
    ensures
        final(v)@ == overwrite(old(v)@, order@, fresh@, min_nat(num as nat, old(v)@.len())),
        forall|j: int|
            0 <= j < min_nat(num as nat, old(v)@.len()) ==> final(v)@[#[trigger] order@[j] as int] == fresh@[j],
        forall|i: int|
            0 <= i < old(v)@.len() && !order@.take(min_nat(num as nat, old(v)@.len()) as int).contains(i as usize)
                ==> #[trigger] final(v)@[i] == old(v)@[i],
{
    let ghost orig = v@;
    let n = v.len();
    let mut t: usize = 0;
    while t < num && t < n
        invariant
            n == orig.len(),
            v@.len() == n,
            t <= n,
            t <= num,
            is_order_of(order@, n as nat),
            fresh@.len() >= min_nat(num as nat, n as nat),
            v@ == overwrite(orig, order@, fresh@, t as nat),
        decreases n - t,
    {
        let i = order[t];
        v[i] = fresh[t];
        t = t + 1;
    }
    proof {
        assert(t as nat == min_nat(num as nat, n as nat));
        lemma_overwrite(orig, order@, fresh@, t as nat);
    }
}

/// `count` random field elements.
fn draw_fields(count: usize, nonzero: bool) -> (r: Vec<Fe>)
    ensures
        r@.len() == count,
        forall|k: int| 0 <= k < count ==> (#[trigger] r@[k]).is_canonical(),
        nonzero ==> forall|k: int| 0 <= k < count ==> (#[trigger] r@[k]).value() != 0,
{
    let mut r: Vec<Fe> = Vec::new();
    let mut i: usize = 0;
    while i < count
        invariant
            i <= count,
            r@.len() == i,
            forall|k: int| 0 <= k < i ==> (#[trigger] r@[k]).is_canonical(),
            nonzero ==> forall|k: int| 0 <= k < i ==> (#[trigger] r@[k]).value() != 0,
        decreases count - i,
    {
        let x = if nonzero {
            rand_nonzero()
        } else {
            rand_field()
        };
        r.push(x);
        i = i + 1;
    }
    r
}

/// The zero vector of length `n`, as field elements.
pub open spec fn fe_zeros(n: nat) -> Seq<Fe> {
    Seq::new(n, |i: int| Fe { limbs: [0u64, 0u64, 0u64, 0u64] })
}

/// A sparse vector of length `n`: zero, then `fresh[j]` written at position
/// `order[j]` for the first `min(weight, n)` entries of `order`.
pub fn sparse_vector_with(n: usize, order: &[usize], fresh: &[Fe], weight: usize) -> (v: Vec<Fe>)
    requires
        is_order_of(order@, n as nat),
        fresh@.len() >= min_nat(weight as nat, n as nat),
    ensures
        v@ == overwrite(fe_zeros(n as nat), order@, fresh@, min_nat(weight as nat, n as nat)),
{
    let mut v: Vec<Fe> = Vec::new();
    let mut z: usize = 0;
    while z < n
        invariant
            z <= n,
            v@ == fe_zeros(z as nat),
        decreases n - z,
    {
        v.push(Fe::zero());
        z = z + 1;
        assert(v@ =~= fe_zeros(z as nat));
    }
    corrupt_with(v.as_mut_slice(), order, fresh, weight);
    v
}

/// The shuffle and the values a sparse vector was drawn from: the value at
/// each of the first `min(weight, n)` shuffled positions is a random nonzero
/// element, and the rest are zero.
pub open spec fn sparse_draw(v: Seq<Fe>, n: nat, weight: nat, order: Seq<usize>, fresh: Seq<Fe>) -> bool {
    &&& is_order_of(order, n)
    &&& fresh.len() == min_nat(weight, n)
    &&& forall|k: int| 0 <= k < fresh.len() ==> (#[trigger] fresh[k]).is_canonical() && fresh[k].value() != 0
    &&& v == overwrite(fe_zeros(n), order, fresh, min_nat(weight, n))
}

/// Sample a sparse vector with exactly `min(weight, n)` nonzero positions,
/// chosen at random, each holding a random nonzero field element; every other
/// position is zero.
pub fn random_sparse_vector(n: usize, weight: usize) -> (v: Vec<Fe>)
    ensures
        v@.len() == n,
        forall|i: int| 0 <= i < n ==> (#[trigger] v@[i]).is_canonical(),
        exists|order: Seq<usize>, fresh: Seq<Fe>| sparse_draw(v@, n as nat, weight as nat, order, fresh),
        exists|s: Set<usize>|
            {
                &&& chosen_positions(s, n as nat, weight as nat)
                &&& forall|i: usize| s.contains(i) ==> (#[trigger] v@[i as int]).value() != 0
                &&& forall|i: int| 0 <= i < n && !s.contains(i as usize) ==> (#[trigger] v@[i]).value() == 0
            },
{
    let order = shuffled_indices(n);
    let k = if weight < n {
        weight
    } else {
        n
    };
    let fresh = draw_fields(k, true);
    let v = sparse_vector_with(n, order.as_slice(), fresh.as_slice(), weight);
    proof {
        let kk = min_nat(weight as nat, n as nat);
        lemma_overwrite(fe_zeros(n as nat), order@, fresh@, kk);
        assert(sparse_draw(v@, n as nat, weight as nat, order@, fresh@));
        let s = order@.take(kk as int).to_set();
        lemma_prefix_set_len(order@, kk as int);
        assert forall|i: usize| s.contains(i) implies i < n && (#[trigger] v@[i as int]).value() != 0 by {
            let j = choose|j: int| 0 <= j < kk && order@.take(kk as int)[j] == i;
            assert(order@[j] == i);
        }
        assert forall|i: int| 0 <= i < n implies (#[trigger] v@[i]).is_canonical() by {
            if order@.take(kk as int).contains(i as usize) {
                let j = choose|j: int| 0 <= j < kk && order@.take(kk as int)[j] == i as usize;
                assert(order@[j] == i as usize);
            } else {
                assert(v@[i] == fe_zeros(n as nat)[i]);
            }
        }
        assert(chosen_positions(s, n as nat, weight as nat));
    }
    v
}

/// The shuffle and the values a corruption was drawn from: the first
/// `min(num, |orig|)` shuffled positions get fresh random elements.
pub open spec fn corruption_draw(orig: Seq<Fe>, cur: Seq<Fe>, num: nat, order: Seq<usize>, fresh: Seq<Fe>) -> bool {
    &&& is_order_of(order, orig.len())
    &&& fresh.len() == min_nat(num, orig.len())
    &&& forall|k: int| 0 <= k < fresh.len() ==> (#[trigger] fresh[k]).is_canonical()
    &&& cur == overwrite(orig, order, fresh, min_nat(num, orig.len()))
}

/// Overwrite `min(num_errors, v.len())` positions, chosen at random, with
/// fresh random field elements.
///
/// The new value is not forced to differ from the old one, so a chosen
/// position can keep its value by chance.
pub fn corrupt(v: &mut [Fe], num_errors: usize)
    ensures
        exists|order: Seq<usize>, fresh: Seq<Fe>| corruption_draw(old(v)@, final(v)@, num_errors as nat, order, fresh),
{
    let n = v.len();
    let order = shuffled_indices(n);
    let k = if num_errors < n {
        num_errors
    } else {
        n
    };
    let fresh = draw_fields(k, false);
    let ghost orig = v@;
    corrupt_with(v, order.as_slice(), fresh.as_slice(), num_errors);
    assert(corruption_draw(orig, v@, num_errors as nat, order@, fresh@));
}

/// `p` occurs in `positions` at index `k` and nowhere else.
pub open spec fn listed_once(positions: Seq<usize>, k: int) -> bool {
    forall|k2: int| 0 <= k2 < positions.len() && k2 != k ==> positions[k2] != positions[k]
}

/// After the first `t` listed positions are rewritten: unlisted ones keep
/// their element, rewritten ones hold reduced elements, and those listed once
/// hold a different value than at first.
pub open spec fn positions_rewritten(orig: Seq<Fe>, cur: Seq<Fe>, positions: Seq<usize>, t: int) -> bool {
    &&& cur.len() == orig.len()
    &&& forall|i: int|
        0 <= i < orig.len() && !positions.take(t).contains(i as usize) ==> #[trigger] cur[i] == orig[i]
    &&& forall|k: int| 0 <= k < t ==> (#[trigger] cur[positions[k] as int]).is_canonical()
    &&& forall|k: int|
        0 <= k < t && listed_once(positions, k) ==> (#[trigger] cur[positions[k] as int]).value()
            != orig[positions[k] as int].value()
}

/// Rewriting the next listed position keeps `positions_rewritten`.
proof fn lemma_rewrite_step(orig: Seq<Fe>, before: Seq<Fe>, positions: Seq<usize>, t: int, replacement: Fe)
    requires
        0 <= t < positions.len(),
        forall|k: int| 0 <= k < positions.len() ==> #[trigger] positions[k] < orig.len(),
        positions_rewritten(orig, before, positions, t),
        replacement.is_canonical(),
        replacement.value() != before[positions[t] as int].value(),
    ensures
        positions_rewritten(orig, before.update(positions[t] as int, replacement), positions, t + 1),
{
    let i = positions[t];
    let after = before.update(i as int, replacement);
    assert(positions.take(t + 1) =~= positions.take(t).push(i));
    assert forall|k: int| 0 <= k < t + 1 implies (#[trigger] after[positions[k] as int]).is_canonical() by {
        if positions[k] != i {
            assert(after[positions[k] as int] == before[positions[k] as int]);
        }
    }
    assert forall|k: int|
        0 <= k < t + 1 && listed_once(positions, k) implies (#[trigger] after[positions[k] as int]).value()
            != orig[positions[k] as int].value() by {
        if k < t {
            assert(positions[k] != positions[t]);
            assert(after[positions[k] as int] == before[positions[k] as int]);
        } else {
            if positions.take(t).contains(i) {
                let j = choose|j: int| 0 <= j < t && positions.take(t)[j] == i;
                assert(positions[j] == positions[k]);
            }
            assert(before[i as int] == orig[i as int]);
        }
    }
    assert forall|x: int| 0 <= x < orig.len() && !positions.take(t + 1).contains(x as usize) implies #[trigger] after[x] == orig[x] by {
        assert(positions.take(t + 1)[t] == i);
        assert(x != i);
        assert(!positions.take(t).contains(x as usize)) by {
            if positions.take(t).contains(x as usize) {
                let j = choose|j: int| 0 <= j < t && positions.take(t)[j] == x as usize;
                assert(positions.take(t + 1)[j] == x as usize);
            }
        }
    }
}

/// Deterministically corrupt specific positions in a vector.
///
/// Each listed position gets a fresh random element; should it equal the
/// current value, one is added, so a position listed once is sure to change.
pub fn corrupt_positions(v: &mut [Fe], positions: &[usize])
    requires
        forall|k: int| 0 <= k < positions@.len() ==> #[trigger] positions@[k] < old(v)@.len(),
    ensures
        final(v)@.len() == old(v)@.len(),
        forall|i: int| 0 <= i < old(v)@.len() && !positions@.contains(i as usize) ==> #[trigger] final(v)@[i] == old(v)@[i],
        forall|k: int| 0 <= k < positions@.len() ==> (#[trigger] final(v)@[positions@[k] as int]).is_canonical(),
        forall|k: int|
            0 <= k < positions@.len() && listed_once(positions@, k) ==> (#[trigger] final(v)@[positions@[k] as int]).value()
                != old(v)@[positions@[k] as int].value(),
{
    let ghost orig = v@;
    let mut t: usize = 0;
    assert(positions@.take(0) =~= Seq::<usize>::empty());
    while t < positions.len()
        invariant
            t <= positions@.len(),
            forall|k: int| 0 <= k < positions@.len() ==> #[trigger] positions@[k] < orig.len(),
            positions_rewritten(orig, v@, positions@, t as int),
        decreases positions@.len() - t,
    {
        let i = positions[t];
        let original = v[i];
        let mut replacement = rand_field();
        if fe_eq(replacement, original) {
            replacement = fe_add(replacement, Fe::one());
        }
        proof {
            lemma_rewrite_step(orig, v@, positions@, t as int, replacement);
        }
        v[i] = replacement;
        t = t + 1;
    }
    assert(positions@.take(positions@.len() as int) =~= positions@);
}

/// Check whether every coordinate is zero.
pub fn is_zero_vector(v: &[Fe]) -> (r: bool)
    ensures
        r == forall|i: int| 0 <= i < v@.len() ==> (#[trigger] v@[i]).value() == 0,
{
    let mut i: usize = 0;
    while i < v.len()
        invariant
            i <= v@.len(),
            forall|k: int| 0 <= k < i ==> (#[trigger] v@[k]).value() == 0,
        decreases v@.len() - i,
    {
        if !fe_is_zero(v[i]) {
            return false;
        }
        i = i + 1;
    }
    true
}

/// The two traces have the same number of entries, and agree on every entry
/// but `idx`.
pub open spec fn same_but(a: Seq<Vec<Fe>>, b: Seq<Vec<Fe>>, idx: int) -> bool {
    &&& a.len() == b.len()
    &&& forall|i: int| 0 <= i < a.len() && i != idx ==> (#[trigger] a[i])@ == b[i]@
}

/// Copy a trace and corrupt the listed positions of entry `layer_idx`, as
/// `corrupt_positions` does; every other entry is kept.
pub fn corrupted_trace_at_positions(trace: &EncodingTrace, layer_idx: usize, positions: &[usize]) -> (r: EncodingTrace)
    requires
        layer_idx < trace.layers@.len(),
        forall|k: int| 0 <= k < positions@.len() ==> #[trigger] positions@[k] < trace.layers@[layer_idx as int]@.len(),
    ensures
        same_but(r.layers@, trace.layers@, layer_idx as int),
        ({
            let old_v = trace.layers@[layer_idx as int]@;
            let new_v = r.layers@[layer_idx as int]@;
            &&& new_v.len() == old_v.len()
            &&& forall|i: int| 0 <= i < old_v.len() && !positions@.contains(i as usize) ==> #[trigger] new_v[i] == old_v[i]
            &&& forall|k: int| 0 <= k < positions@.len() ==> (#[trigger] new_v[positions@[k] as int]).is_canonical()
            &&& forall|k: int|
                0 <= k < positions@.len() && listed_once(positions@, k) ==> (#[trigger] new_v[positions@[k] as int]).value()
                    != old_v[positions@[k] as int].value()
        }),
{
    let mut layers: Vec<Vec<Fe>> = Vec::new();
    let mut i: usize = 0;
    while i < trace.layers.len()
        invariant
            i <= trace.layers@.len(),
            layer_idx < trace.layers@.len(),
            forall|k: int| 0 <= k < positions@.len() ==> #[trigger] positions@[k] < trace.layers@[layer_idx as int]@.len(),
            layers@.len() == i,
            forall|k: int| 0 <= k < i && k != layer_idx ==> (#[trigger] layers@[k])@ == trace.layers@[k]@,
            layer_idx < i ==> ({
                let old_v = trace.layers@[layer_idx as int]@;
                let new_v = layers@[layer_idx as int]@;
                &&& new_v.len() == old_v.len()
                &&& forall|x: int| 0 <= x < old_v.len() && !positions@.contains(x as usize) ==> #[trigger] new_v[x] == old_v[x]
                &&& forall|k: int| 0 <= k < positions@.len() ==> (#[trigger] new_v[positions@[k] as int]).is_canonical()
                &&& forall|k: int|
                    0 <= k < positions@.len() && listed_once(positions@, k) ==> (#[trigger] new_v[positions@[k] as int]).value()
                        != old_v[positions@[k] as int].value()
            }),
        decreases trace.layers@.len() - i,
    {
        let mut v = copy_vector(trace.layers[i].as_slice());
        if i == layer_idx {
            corrupt_positions(v.as_mut_slice(), positions);
        }
        let ghost before = layers@;
        layers.push(v);
        assert forall|k: int| 0 <= k < i + 1 && k != layer_idx implies (#[trigger] layers@[k])@ == trace.layers@[k]@ by {
            if k < i {
                assert(layers@[k] == before[k]);
            }
        }
        if layer_idx < i {
            assert(layers@[layer_idx as int] == before[layer_idx as int]);
        }
        i = i + 1;
    }
    EncodingTrace { layers }
}

/// Copy a trace and corrupt entry `layer_idx` as `corrupt_with` does: write
/// `fresh[j]` at position `order[j]` for the first `min(num_errors, len)`
/// entries of `order`; every other entry is kept.
pub fn corrupt_trace_layer_with(
    trace: &EncodingTrace,
    layer_idx: usize,
    order: &[usize],
    fresh: &[Fe],
    num_errors: usize,
) -> (r: EncodingTrace)
    requires
        layer_idx < trace.layers@.len(),
        is_order_of(order@, trace.layers@[layer_idx as int]@.len()),
        fresh@.len() >= min_nat(num_errors as nat, trace.layers@[layer_idx as int]@.len()),
    ensures
        same_but(r.layers@, trace.layers@, layer_idx as int),
        r.layers@[layer_idx as int]@ == overwrite(
            trace.layers@[layer_idx as int]@,
            order@,
            fresh@,
            min_nat(num_errors as nat, trace.layers@[layer_idx as int]@.len()),
        ),
{
    let ghost target = trace.layers@[layer_idx as int]@;
    let ghost k = min_nat(num_errors as nat, target.len());
    let mut layers: Vec<Vec<Fe>> = Vec::new();
    let mut i: usize = 0;
    while i < trace.layers.len()
        invariant
            i <= trace.layers@.len(),
            layer_idx < trace.layers@.len(),
            target == trace.layers@[layer_idx as int]@,
            k == min_nat(num_errors as nat, target.len()),
            is_order_of(order@, target.len()),
            fresh@.len() >= k,
            layers@.len() == i,
            forall|a: int| 0 <= a < i && a != layer_idx ==> (#[trigger] layers@[a])@ == trace.layers@[a]@,
            layer_idx < i ==> layers@[layer_idx as int]@ == overwrite(target, order@, fresh@, k),
        decreases trace.layers@.len() - i,
    {
        let mut v = copy_vector(trace.layers[i].as_slice());
        if i == layer_idx {
            corrupt_with(v.as_mut_slice(), order, fresh, num_errors);
        }
        let ghost before = layers@;
        layers.push(v);
        assert forall|a: int| 0 <= a < i + 1 && a != layer_idx implies (#[trigger] layers@[a])@ == trace.layers@[a]@ by {
            if a < i {
                assert(layers@[a] == before[a]);
            }
        }
        if layer_idx < i {
            assert(layers@[layer_idx as int] == before[layer_idx as int]);
        }
        i = i + 1;
    }
    EncodingTrace { layers }
}

/// Copy a trace and randomly corrupt `min(num_errors, len)` positions of
/// entry `layer_idx`, as `corrupt` does; every other entry is kept.
pub fn corrupt_trace_layer(trace: &EncodingTrace, layer_idx: usize, num_errors: usize) -> (r: EncodingTrace)
    requires
        layer_idx < trace.layers@.len(),
    ensures
        same_but(r.layers@, trace.layers@, layer_idx as int),
        exists|order: Seq<usize>, fresh: Seq<Fe>|
            corruption_draw(
                trace.layers@[layer_idx as int]@,
                r.layers@[layer_idx as int]@,
                num_errors as nat,
                order,
                fresh,
            ),
{
    let n = trace.layers[layer_idx].len();
    let order = shuffled_indices(n);
    let k = if num_errors < n {
        num_errors
    } else {
        n
    };
    let fresh = draw_fields(k, false);
    let r = corrupt_trace_layer_with(trace, layer_idx, order.as_slice(), fresh.as_slice(), num_errors);
    assert(corruption_draw(trace.layers@[layer_idx as int]@, r.layers@[layer_idx as int]@, num_errors as nat, order@, fresh@));
    r
}

/// Every layer has a list of rows, each naming a row of that layer's `B`.
pub open spec fn rows_below(layers: Seq<Layer>, rows: Seq<Seq<usize>>) -> bool {
    &&& rows.len() == layers.len()
    &&& forall|idx: int, k: int|
        0 <= idx < layers.len() && 0 <= k < rows[idx].len() ==> #[trigger] rows[idx][k] < layers[idx].B@.len()
}

/// For each layer, `num_checks` rows of its `B`, drawn at random.
fn draw_rows(layers: &[Layer], num_checks: usize) -> (rows: Vec<Vec<usize>>)
    requires
        num_checks > 0 ==> forall|idx: int| 0 <= idx < layers@.len() ==> (#[trigger] layers@[idx]).B@.len() > 0,
    ensures
        rows_below(layers@, index_lists(rows@)),
        forall|idx: int| 0 <= idx < rows@.len() ==> (#[trigger] index_lists(rows@)[idx]).len() == num_checks,
{
    let mut rows: Vec<Vec<usize>> = Vec::new();
    let mut i: usize = 0;
    while i < layers.len()
        invariant
            i <= layers@.len(),
            num_checks > 0 ==> forall|idx: int| 0 <= idx < layers@.len() ==> (#[trigger] layers@[idx]).B@.len() > 0,
            rows@.len() == i,
            forall|a: int| 0 <= a < i ==> (#[trigger] rows@[a])@.len() == num_checks,
            forall|a: int, k: int| 0 <= a < i && 0 <= k < rows@[a]@.len() ==> #[trigger] rows@[a]@[k] < layers@[a].B@.len(),
        decreases layers@.len() - i,
    {
        let n_rows = layers[i].B.rows.len();
        let mut picks: Vec<usize> = Vec::new();
        let mut c: usize = 0;
        while c < num_checks
            invariant
                c <= num_checks,
                num_checks > 0 ==> n_rows > 0,
                picks@.len() == c,
                forall|k: int| 0 <= k < c ==> #[trigger] picks@[k] < n_rows,
            decreases num_checks - c,
        {
            picks.push(random_index(n_rows));
            c = c + 1;
        }
        let ghost before = rows@;
        rows.push(picks);
        assert forall|a: int| 0 <= a < i + 1 implies (#[trigger] rows@[a])@.len() == num_checks by {
            if a < i {
                assert(rows@[a] == before[a]);
            }
        }
        assert forall|a: int, k: int| 0 <= a < i + 1 && 0 <= k < rows@[a]@.len() implies #[trigger] rows@[a]@[k] < layers@[a].B@.len() by {
            if a < i {
                assert(rows@[a] == before[a]);
            }
        }
        i = i + 1;
    }
    let ghost lists = index_lists(rows@);
    assert forall|idx: int, k: int| 0 <= idx < layers@.len() && 0 <= k < lists[idx].len() implies #[trigger] lists[idx][k] < layers@[idx].B@.len() by {
        assert(lists[idx] == rows@[idx]@);
    }
    assert forall|idx: int| 0 <= idx < rows@.len() implies (#[trigger] index_lists(rows@)[idx]).len() == num_checks by {
        assert(lists[idx] == rows@[idx]@);
    }
    rows
}

/// Rows of `B` can be checked on a trace whose entries fit the layers.
proof fn lemma_checkable_rows(t: Seq<Seq<int>>, layers: Seq<Layer>, rows: Seq<Seq<usize>>)
    requires
        trace_fits(t, layers),
        parity_fits(t, layers),
        rows_below(layers, rows),
    ensures
        trace_shape(t, layers),
        rows_in_range(t, layers, rows),
        reached_rows_fit(t, layers, rows),
{
    assert forall|idx: int, k: int| 0 <= idx < layers.len() && 0 <= k < rows[idx].len() implies {
        &&& row_fits(t, layers, idx, #[trigger] rows[idx][k] as int)
        &&& prefix_len(t, idx) + rows[idx][k] < t[idx].len()
    } by {
        assert(rows[idx][k] < layers[idx].B@.len());
        assert(prefix_len(t, idx) + layers[idx].B@.len() <= t[idx].len());
    }
}

/// Run a randomized local parity-consistency test over a recorded trace.
///
/// For each layer `num_checks` rows of `B` are drawn at random, and the
/// result is whether every drawn row holds its parity relation, as
/// `verify_trace_rows` decides for those rows. A consistent trace always
/// passes.
pub fn local_test(trace: &EncodingTrace, layers: &[Layer], num_checks: usize) -> (ok: bool)
    requires
        trace_fits(trace.trace_vals(), layers@),
        num_checks > 0 ==> parity_fits(trace.trace_vals(), layers@),
        num_checks > 0 ==> forall|idx: int| 0 <= idx < layers@.len() ==> (#[trigger] layers@[idx]).B@.len() > 0,
    ensures
        exists|rows: Seq<Seq<usize>>|
            {
                &&& rows_below(layers@, rows)
                &&& forall|idx: int| 0 <= idx < rows.len() ==> (#[trigger] rows[idx]).len() == num_checks
                &&& ok == rows_consistent(trace.trace_vals(), layers@, rows)
            },
        trace_consistent(trace.trace_vals(), layers@) ==> ok,
{
    let ghost t = trace.trace_vals();
    let rows_to_check = draw_rows(layers, num_checks);
    let ghost rows = index_lists(rows_to_check@);
    proof {
        if num_checks > 0 {
            lemma_checkable_rows(t, layers@, rows);
        } else {
            assert forall|idx: int, k: int| 0 <= idx < layers@.len() && 0 <= k < rows[idx].len() implies {
                &&& row_fits(t, layers@, idx, #[trigger] rows[idx][k] as int)
                &&& prefix_len(t, idx) + rows[idx][k] < t[idx].len()
            } by {
                assert(rows[idx].len() == 0);
            }
        }
    }
    let ok = verify_trace_rows(trace, layers, rows_to_check.as_slice());
    proof {
        if trace_consistent(t, layers@) {
            assert forall|idx: int, k: int| 0 <= idx < rows.len() && 0 <= k < rows[idx].len() implies parity_row_holds(
                t,
                layers@,
                idx,
                #[trigger] rows[idx][k] as int,
            ) by {
                assert(rows[idx][k] < layers@[idx].B@.len());
            }
        }
    }
    ok
}

/// Fitting a trace to the layers depends only on the lengths of its entries.
proof fn lemma_fits_same_shape(t: Seq<Seq<int>>, c: Seq<Seq<int>>, layers: Seq<Layer>)
    requires
        c.len() == t.len(),
        forall|i: int| 0 <= i < t.len() ==> (#[trigger] c[i]).len() == t[i].len(),
        trace_fits(t, layers),
        parity_fits(t, layers),
    ensures
        trace_fits(c, layers),
        parity_fits(c, layers),
{
    assert(c.last().len() == t.last().len());
    assert forall|idx: int| 0 <= idx < layers.len() implies #[trigger] layer_fits(c, layers, idx) by {
        assert(layer_fits(t, layers, idx));
        assert(c[idx + 1].len() == t[idx + 1].len());
        assert(c[idx].len() == t[idx].len());
    }
    assert forall|idx: int| 0 <= idx < layers.len() implies prefix_len(c, idx) + (#[trigger] layers[idx]).B@.len() <= c[idx].len() by {
        assert(c[idx].len() == t[idx].len());
    }
    assert forall|idx: int, r: int|
        0 <= idx < layers.len() && 0 <= r < layers[idx].B@.len() implies #[trigger] row_fits(c, layers, idx, r) by {
        assert(row_fits(t, layers, idx, r));
        assert(c[idx + 1].len() == t[idx + 1].len());
    }
}

/// Trace `t` with `fresh[j]` written at position `order[j]` of its innermost
/// entry, for the first `min(num, len)` entries of `order`; every other entry
/// and position is kept.
pub open spec fn corrupt_innermost(t: Seq<Seq<int>>, order: Seq<usize>, fresh: Seq<int>, num: nat) -> Seq<Seq<int>> {
    t.update(t.len() - 1, overwrite(t.last(), order, fresh, min_nat(num, t.last().len())))
}

/// Corrupt the innermost entry of a trace with the given shuffle and fresh
/// values, as `corrupt_trace_layer_with` does, and report whether the listed
/// rows of that corrupted trace fail their parity check.
pub fn detect_with(
    trace: &EncodingTrace,
    layers: &[Layer],
    order: &[usize],
    fresh: &[Fe],
    num_errors: usize,
    rows: &[Vec<usize>],
) -> (detected: bool)
    requires
        trace_fits(trace.trace_vals(), layers@),
        parity_fits(trace.trace_vals(), layers@),
        is_order_of(order@, trace.trace_vals().last().len()),
        fresh@.len() >= min_nat(num_errors as nat, trace.trace_vals().last().len()),
        rows_below(layers@, index_lists(rows@)),
    ensures
        detected == !rows_consistent(
            corrupt_innermost(trace.trace_vals(), order@, vals(fresh@), num_errors as nat),
            layers@,
            index_lists(rows@),
        ),
{
    let ghost t = trace.trace_vals();
    let last = trace.layers.len() - 1;
    assert(trace.layers@[last as int]@.len() == t.last().len());
    let corrupted = corrupt_trace_layer_with(trace, last, order, fresh, num_errors);
    proof {
        let k = min_nat(num_errors as nat, t.last().len());
        let c = corrupted.trace_vals();
        let ci = corrupt_innermost(t, order@, vals(fresh@), num_errors as nat);
        lemma_overwrite(trace.layers@[last as int]@, order@, fresh@, k);
        lemma_overwrite_vals(trace.layers@[last as int]@, order@, fresh@, k);
        assert forall|i: int| 0 <= i < t.len() implies #[trigger] c[i] == ci[i] by {
            if i != last {
                assert(corrupted.layers@[i]@ == trace.layers@[i]@);
            }
        }
        assert(c =~= ci);
        assert forall|i: int| 0 <= i < t.len() implies (#[trigger] c[i]).len() == t[i].len() by {
            if i != last {
                assert(corrupted.layers@[i]@ == trace.layers@[i]@);
            }
        }
        lemma_fits_same_shape(t, c, layers@);
        lemma_checkable_rows(c, layers@, index_lists(rows@));
    }
    let passed = verify_trace_rows(&corrupted, layers, rows);
    !passed
}

/// What one trial on trace `t` draws: a shuffle of the innermost entry's
/// positions, `min(num, len)` fresh field values, and `checks` rows of `B`
/// per layer.
pub open spec fn trial_draw(
    t: Seq<Seq<int>>,
    layers: Seq<Layer>,
    num: nat,
    checks: nat,
    order: Seq<usize>,
    fresh: Seq<int>,
    rows: Seq<Seq<usize>>,
) -> bool {
    &&& is_order_of(order, t.last().len())
    &&& fresh.len() == min_nat(num, t.last().len())
    &&& forall|k: int| 0 <= k < fresh.len() ==> 0 <= #[trigger] fresh[k] < modulus()
    &&& rows_below(layers, rows)
    &&& forall|idx: int| 0 <= idx < rows.len() ==> (#[trigger] rows[idx]).len() == checks
}

/// One trial of the experiment: corrupt `num_errors` coordinates (at most
/// the entry's length) of the innermost trace entry with fresh random values
/// and report whether a local test of five random rows per layer notices, on
/// that corrupted trace. With no coordinate corrupted, a consistent trace is
/// never reported.
pub fn detect_innermost_corruption(trace: &EncodingTrace, layers: &[Layer], num_errors: usize) -> (detected: bool)
    requires
        trace_fits(trace.trace_vals(), layers@),
        parity_fits(trace.trace_vals(), layers@),
        forall|idx: int| 0 <= idx < layers@.len() ==> (#[trigger] layers@[idx]).B@.len() > 0,
    ensures
        exists|order: Seq<usize>, fresh: Seq<int>, rows: Seq<Seq<usize>>|
            {
                &&& trial_draw(trace.trace_vals(), layers@, num_errors as nat, 5, order, fresh, rows)
                &&& detected == !rows_consistent(
                    corrupt_innermost(trace.trace_vals(), order, fresh, num_errors as nat),
                    layers@,
                    rows,
                )
            },
        num_errors == 0 && trace_consistent(trace.trace_vals(), layers@) ==> !detected,
{
    let ghost t = trace.trace_vals();
    let last = trace.layers.len() - 1;
    let n = trace.layers[last].len();
    assert(n == t.last().len());
    let order = shuffled_indices(n);
    let k = if num_errors < n {
        num_errors
    } else {
        n
    };
    let fresh = draw_fields(k, false);
    let rows = draw_rows(layers, 5);
    let detected = detect_with(trace, layers, order.as_slice(), fresh.as_slice(), num_errors, rows.as_slice());
    proof {
        let fv = vals(fresh@);
        let rv = index_lists(rows@);
        assert forall|j: int| 0 <= j < fv.len() implies 0 <= #[trigger] fv[j] < modulus() by {
            assert(fv[j] == fresh@[j].value());
        }
        assert(trial_draw(t, layers@, num_errors as nat, 5, order@, fv, rv));
        if num_errors == 0 && trace_consistent(t, layers@) {
            assert(corrupt_innermost(t, order@, fv, 0) =~= t);
            assert forall|idx: int, j: int| 0 <= idx < rv.len() && 0 <= j < rv[idx].len() implies parity_row_holds(
                t,
                layers@,
                idx,
                #[trigger] rv[idx][j] as int,
            ) by {
                assert(rv[idx][j] < layers@[idx].B@.len());
            }
        }
    }
    detected
}

/// What one experiment batch counts: the trials whose corruption went
/// unnoticed, and the total time spent encoding.
pub struct TrialCounts {
    pub failures: usize,
    pub total_nanos: u128,
}

/// The values of a sparse input: length `n`, nonzero on exactly
/// `min(weight, n)` positions, zero elsewhere.
pub open spec fn sparse_input(x: Seq<int>, n: nat, weight: nat) -> bool {
    &&& x.len() == n
    &&& exists|s: Set<usize>|
        {
            &&& chosen_positions(s, n, weight)
            &&& forall|i: usize| s.contains(i) ==> #[trigger] x[i as int] != 0
            &&& forall|i: int| 0 <= i < n && !s.contains(i as usize) ==> #[trigger] x[i] == 0
        }
}

/// A stack of layers as `build_layers` makes it for these parameters.
pub open spec fn layer_stack(ls: Seq<Layer>, n: nat, d: nat, num_layers: nat, mode: SamplingMode) -> bool {
    &&& ls.len() == num_layers
    &&& square_layers(ls, n)
    &&& encodable(n, ls)
    &&& forall|k: int|
        0 <= k < ls.len() ==> {
            let s = halved(n, (k + 1) as nat);
            &&& sampled_from_graph((#[trigger] ls[k]).A@, s, s, d)
            &&& sampled_from_graph(ls[k].B@, s, s, d)
            &&& weights_follow_mode(ls[k], mode)
        }
}

/// Whether one trial's check passed: the listed rows all hold on the trace of
/// input `x`, its innermost entry corrupted with `order` and `fresh`.
pub open spec fn trial_passed(
    ls: Seq<Layer>,
    weight: nat,
    x: Seq<int>,
    order: Seq<usize>,
    fresh: Seq<int>,
    rows: Seq<Seq<usize>>,
) -> bool {
    rows_consistent(corrupt_innermost(trace_spec(x, ls, 0), order, fresh, weight), ls, rows)
}

/// How many trials' checks passed, trial `t` drawing input `xs[t]`, shuffle
/// `orders[t]`, fresh values `freshes[t]` and rows `rowss[t]`.
pub open spec fn passed_count(
    ls: Seq<Layer>,
    weight: nat,
    xs: Seq<Seq<int>>,
    orders: Seq<Seq<usize>>,
    freshes: Seq<Seq<int>>,
    rowss: Seq<Seq<Seq<usize>>>,
) -> nat
    decreases xs.len(),
{
    if xs.len() == 0 {
        0
    } else {
        let last = xs.len() - 1;
        passed_count(ls, weight, xs.drop_last(), orders.drop_last(), freshes.drop_last(), rowss.drop_last())
            + if trial_passed(ls, weight, xs[last], orders[last], freshes[last], rowss[last]) {
            1nat
        } else {
            0nat
        }
    }
}

/// A batch as `run_experiment_trials` runs it for `cfg`, given what it drew:
/// the layers `ls`, and for each trial `t` the sparse input `xs[t]` and the
/// draws of its check; `failures` counts the trials whose check passed.
pub open spec fn batch_run(
    cfg: ExperimentConfig,
    ls: Seq<Layer>,
    xs: Seq<Seq<int>>,
    orders: Seq<Seq<usize>>,
    freshes: Seq<Seq<int>>,
    rowss: Seq<Seq<Seq<usize>>>,
    failures: nat,
) -> bool {
    &&& layer_stack(ls, cfg.n as nat, cfg.d as nat, cfg.layers as nat, cfg.mode)
    &&& xs.len() == cfg.trials
    &&& orders.len() == cfg.trials
    &&& freshes.len() == cfg.trials
    &&& rowss.len() == cfg.trials
    &&& forall|t: int| 0 <= t < cfg.trials ==> sparse_input(#[trigger] xs[t], cfg.n as nat, cfg.weight as nat)
    &&& forall|t: int|
        0 <= t < cfg.trials ==> trial_draw(
            trace_spec(#[trigger] xs[t], ls, 0),
            ls,
            cfg.weight as nat,
            5,
            orders[t],
            freshes[t],
            rowss[t],
        )
    &&& failures == passed_count(ls, cfg.weight as nat, xs, orders, freshes, rowss)
}

/// `alpha_num` and `alpha_den` are bookkeeping only: two configurations that
/// differ in nothing else run the same batch for the same draws.
pub proof fn lemma_alpha_is_bookkeeping(
    c1: ExperimentConfig,
    c2: ExperimentConfig,
    ls: Seq<Layer>,
    xs: Seq<Seq<int>>,
    orders: Seq<Seq<usize>>,
    freshes: Seq<Seq<int>>,
    rowss: Seq<Seq<Seq<usize>>>,
    failures: nat,
)
    requires
        c1.n == c2.n,
        c1.d == c2.d,
        c1.layers == c2.layers,
        c1.trials == c2.trials,
        c1.weight == c2.weight,
        c1.mode == c2.mode,
    ensures
        batch_run(c1, ls, xs, orders, freshes, rowss, failures) == batch_run(c2, ls, xs, orders, freshes, rowss, failures),
{
}

/// Run one batch of trials: build the layers once, then for each trial encode
/// a random sparse input (timing the encoding), corrupt `weight` coordinates
/// of the innermost trace entry, and count a failure when a local test of
/// five random rows per layer passes that corrupted trace.
///
/// Whatever is drawn, the count is the number of trials whose check of the
/// corrupted trace passed. With no layers no row is checked, and with
/// `weight` zero nothing is corrupted, so then every trial counts as a
/// failure.
pub fn run_experiment_trials(cfg: &ExperimentConfig) -> (r: TrialCounts)
    requires
        halvable(cfg.n as nat, cfg.layers as nat),
        cfg.trials > 0 ==> forall|k: int| 0 <= k < cfg.layers ==> #[trigger] halved(cfg.n as nat, (k + 1) as nat) > 0,
    ensures
        exists|
            ls: Seq<Layer>,
            xs: Seq<Seq<int>>,
            orders: Seq<Seq<usize>>,
            freshes: Seq<Seq<int>>,
            rowss: Seq<Seq<Seq<usize>>>,
        | batch_run(*cfg, ls, xs, orders, freshes, rowss, r.failures as nat),
        r.failures <= cfg.trials,
        cfg.layers == 0 ==> r.failures == cfg.trials,
        cfg.weight == 0 ==> r.failures == cfg.trials,
{
    let layers = build_layers(cfg);
    let ghost ls = layers@;
    let ghost w = cfg.weight as nat;
    let ghost mut xs: Seq<Seq<int>> = Seq::empty();
    let ghost mut orders: Seq<Seq<usize>> = Seq::empty();
    let ghost mut freshes: Seq<Seq<int>> = Seq::empty();
    let ghost mut rowss: Seq<Seq<Seq<usize>>> = Seq::empty();
    let mut failures: usize = 0;
    let mut total_nanos: u128 = 0;
    let mut trial: usize = 0;
    while trial < cfg.trials
        invariant
            trial <= cfg.trials,
            failures <= trial,
            cfg.weight == 0 ==> failures == trial,
            cfg.layers == 0 ==> failures == trial,
            ls == layers@,
            w == cfg.weight,
            layer_stack(ls, cfg.n as nat, cfg.d as nat, cfg.layers as nat, cfg.mode),
            cfg.trials > 0 ==> forall|k: int| 0 <= k < cfg.layers ==> #[trigger] halved(cfg.n as nat, (k + 1) as nat) > 0,
            xs.len() == trial,
            orders.len() == trial,
            freshes.len() == trial,
            rowss.len() == trial,
            forall|t: int| 0 <= t < trial ==> sparse_input(#[trigger] xs[t], cfg.n as nat, w),
            forall|t: int|
                0 <= t < trial ==> trial_draw(
                    trace_spec(#[trigger] xs[t], ls, 0),
                    ls,
                    w,
                    5,
                    orders[t],
                    freshes[t],
                    rowss[t],
                ),
            failures == passed_count(ls, w, xs, orders, freshes, rowss),
        decreases cfg.trials - trial,
    {
        let x = random_sparse_vector(cfg.n, cfg.weight);
        let ghost xv = vals(x@);
        proof {
            let s = choose|s: Set<usize>|
                {
                    &&& chosen_positions(s, cfg.n as nat, cfg.weight as nat)
                    &&& forall|i: usize| s.contains(i) ==> (#[trigger] x@[i as int]).value() != 0
                    &&& forall|i: int| 0 <= i < cfg.n && !s.contains(i as usize) ==> (#[trigger] x@[i]).value() == 0
                };
            assert forall|i: usize| s.contains(i) implies #[trigger] xv[i as int] != 0 by {
                assert(x@[i as int].value() != 0);
            }
            assert forall|i: int| 0 <= i < cfg.n && !s.contains(i as usize) implies #[trigger] xv[i] == 0 by {
                assert(x@[i].value() == 0);
            }
            assert(sparse_input(xv, cfg.n as nat, w));
        }
        let start = clock_now();
        let trace = encode_with_trace(x, &layers);
        let elapsed = nanos_since(&start);
        total_nanos = total_nanos.saturating_add(elapsed);
        proof {
            lemma_encoded_trace_verifies(xv, layers@, 0);
            assert forall|idx: int| 0 <= idx < layers@.len() implies (#[trigger] layers@[idx]).B@.len() > 0 by {
                assert(halved(cfg.n as nat, (idx + 1) as nat) > 0);
            }
        }
        let detected = detect_innermost_corruption(&trace, layers.as_slice(), cfg.weight);
        let ghost (order, fresh, rows) = choose|order: Seq<usize>, fresh: Seq<int>, rows: Seq<Seq<usize>>|
            {
                &&& trial_draw(trace.trace_vals(), layers@, w, 5, order, fresh, rows)
                &&& detected == !rows_consistent(corrupt_innermost(trace.trace_vals(), order, fresh, w), layers@, rows)
            };
        proof {
            let xs2 = xs.push(xv);
            let orders2 = orders.push(order);
            let freshes2 = freshes.push(fresh);
            let rowss2 = rowss.push(rows);
            assert(xs2.drop_last() =~= xs);
            assert(orders2.drop_last() =~= orders);
            assert(freshes2.drop_last() =~= freshes);
            assert(rowss2.drop_last() =~= rowss);
            assert(xs2[trial as int] == xv);
            assert(passed_count(ls, w, xs2, orders2, freshes2, rowss2) == passed_count(ls, w, xs, orders, freshes, rowss)
                + if trial_passed(ls, w, xv, order, fresh, rows) {
                1nat
            } else {
                0nat
            });
            if cfg.layers == 0 {
                assert(rows.len() == 0);
                assert(rows_consistent(corrupt_innermost(trace.trace_vals(), order, fresh, w), ls, rows));
            }
            assert forall|t: int| 0 <= t < trial + 1 implies sparse_input(#[trigger] xs2[t], cfg.n as nat, w) by {
                if t < trial {
                    assert(xs2[t] == xs[t]);
                }
            }
            assert forall|t: int|
                0 <= t < trial + 1 implies trial_draw(
                    trace_spec(#[trigger] xs2[t], ls, 0),
                    ls,
                    w,
                    5,
                    orders2[t],
                    freshes2[t],
                    rowss2[t],
                ) by {
                if t < trial {
                    assert(xs2[t] == xs[t]);
                    assert(orders2[t] == orders[t]);
                    assert(freshes2[t] == freshes[t]);
                    assert(rowss2[t] == rowss[t]);
                }
            }
            xs = xs2;
            orders = orders2;
            freshes = freshes2;
            rowss = rowss2;
        }
        if !detected {
            failures = failures + 1;
        }
        trial = trial + 1;
    }
    let r = TrialCounts { failures, total_nanos };
    assert(batch_run(*cfg, ls, xs, orders, freshes, rowss, r.failures as nat));
    r
}

} // verus!
