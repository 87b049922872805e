//! The recursive encoder.
//!
//! A layer consists of two sparse linear maps `A` and `B`. Given an input:
//! 1. the vector is projected to half its length with hash-derived
//!    coefficients;
//! 2. the projected vector is encoded recursively;
//! 3. the inner codeword is mapped through `A`, then `B`, to give the parity;
//! 4. the output is `[x || parity]`, so the code is systematic.

use crate::field::{fe_add, fe_mul, hash_coef, hash_pair, modulus, vals, Fe};
use crate::matrix::{cols_below, lemma_mat_vec_linear, mat_vec, vec_add, vec_scale, SparseMatrix};
use vstd::prelude::*;

verus! {

/// One recursive encoding layer.
#[allow(non_snake_case)]
pub struct Layer {
    pub A: SparseMatrix,
    pub B: SparseMatrix,
}

/// The codeword produced at each recursive depth, outermost first; the last
/// entry is the innermost, unencoded vector.
pub struct EncodingTrace {
    pub layers: Vec<Vec<Fe>>,
}

/// The values of a sequence of vectors of field elements.
pub open spec fn vals2(t: Seq<Vec<Fe>>) -> Seq<Seq<int>> {
    t.map_values(|v: Vec<Fe>| vals(v@))
}

impl EncodingTrace {
    /// The values of the recorded vectors.
    pub open spec fn trace_vals(&self) -> Seq<Seq<int>> {
        vals2(self.layers@)
    }
}

/// Pair adjacent coordinates and combine each pair `(x[2k], x[2k + 1])` into
/// `x[2k] * a + x[2k + 1] * b`, where `(a, b)` are the hash coefficients of
/// `(layer_id, k)`.
pub open spec fn project_spec(x: Seq<int>, layer_id: nat) -> Seq<int> {
    Seq::new(
        x.len() / 2,
        |k: int|
            (x[2 * k] * hash_coef(layer_id, k as nat, 0) + x[2 * k + 1] * hash_coef(
                layer_id,
                k as nat,
                1,
            )) % (modulus() as int),
    )
}

/// The codeword of `x` under `layers`, the first layer using hash
/// coefficients of `layer_id`, the next of `layer_id + 1`, and so on.
pub open spec fn encode_spec(x: Seq<int>, layers: Seq<Layer>, layer_id: nat) -> Seq<int>
    decreases layers.len(),
{
    if layers.len() == 0 {
        x
    } else {
        let inner = encode_spec(project_spec(x, layer_id), layers.drop_first(), layer_id + 1);
        x + mat_vec(layers[0].B@, mat_vec(layers[0].A@, inner))
    }
}

/// The codewords at every depth of the encoding of `x`, outermost first,
/// ending with the innermost unencoded vector.
pub open spec fn trace_spec(x: Seq<int>, layers: Seq<Layer>, layer_id: nat) -> Seq<Seq<int>>
    decreases layers.len(),
{
    if layers.len() == 0 {
        seq![x]
    } else {
        seq![encode_spec(x, layers, layer_id)] + trace_spec(
            project_spec(x, layer_id),
            layers.drop_first(),
            layer_id + 1,
        )
    }
}

/// Length of the codeword of a vector of length `n`.
pub open spec fn encoded_len(n: nat, layers: Seq<Layer>) -> nat {
    if layers.len() == 0 {
        n
    } else {
        n + layers[0].B@.len()
    }
}

/// A vector of length `n` can be encoded with `layers`: its length stays even
/// at every depth, `A` reads only coordinates of the inner codeword, and `B`
/// only coordinates of `A`'s output.
pub open spec fn encodable(n: nat, layers: Seq<Layer>) -> bool
    decreases layers.len(),
{
    layers.len() == 0 || {
        &&& n % 2 == 0
        &&& cols_below(layers[0].A@, encoded_len(n / 2, layers.drop_first()))
        &&& cols_below(layers[0].B@, layers[0].A@.len())
        &&& encodable(n / 2, layers.drop_first())
    }
}

/// The codeword of `x` has `encoded_len(|x|, layers)` coordinates.
pub(crate) proof fn lemma_encode_len(x: Seq<int>, layers: Seq<Layer>, layer_id: nat)
    ensures
        encode_spec(x, layers, layer_id).len() == encoded_len(x.len(), layers),
    decreases layers.len(),
{
    if layers.len() > 0 {
        lemma_encode_len(project_spec(x, layer_id), layers.drop_first(), layer_id + 1);
    }
}

/// A trace has one entry per layer plus the innermost one.
pub(crate) proof fn lemma_trace_len(x: Seq<int>, layers: Seq<Layer>, layer_id: nat)
    ensures
        trace_spec(x, layers, layer_id).len() == layers.len() + 1,
    decreases layers.len(),
{
    if layers.len() > 0 {
        lemma_trace_len(project_spec(x, layer_id), layers.drop_first(), layer_id + 1);
    }
}

/// The code is systematic: the codeword of `x` is `x` followed by
/// `encoded_len(|x|, layers) - |x|` parity coordinates, and the outermost
/// trace entry is that codeword.
pub proof fn lemma_encoding_is_systematic(x: Seq<int>, layers: Seq<Layer>, layer_id: nat)
    ensures
        encode_spec(x, layers, layer_id).len() == encoded_len(x.len(), layers),
        encode_spec(x, layers, layer_id).take(x.len() as int) == x,
        trace_spec(x, layers, layer_id)[0] == encode_spec(x, layers, layer_id),
{
    lemma_encode_len(x, layers, layer_id);
    assert(encode_spec(x, layers, layer_id).take(x.len() as int) =~= x);
}

/// Every element of `v` from position `from` on holds reduced limbs.
pub open spec fn canonical_from(v: Seq<Fe>, from: int) -> bool {
    forall|i: int| from <= i < v.len() ==> (#[trigger] v[i]).is_canonical()
}

/// Reducing the two inputs of `u * a + v * b` first changes nothing.
proof fn lemma_pair_mod(u: int, v: int, a: int, b: int)
    ensures
        ((u % (modulus() as int)) * a + (v % (modulus() as int)) * b) % (modulus() as int)
            == (u * a + v * b) % (modulus() as int),
{
    let p = modulus() as int;
    vstd::arithmetic::div_mod::lemma_add_mod_noop((u % p) * a, (v % p) * b, p);
    vstd::arithmetic::div_mod::lemma_mul_mod_noop_left(u, a, p);
    vstd::arithmetic::div_mod::lemma_mul_mod_noop_left(v, b, p);
    vstd::arithmetic::div_mod::lemma_add_mod_noop(u * a, v * b, p);
}

/// Projection is linear over the field.
pub proof fn lemma_project_linear(x: Seq<int>, y: Seq<int>, c: int, layer_id: nat)
    requires
        x.len() == y.len(),
    ensures
        project_spec(vec_add(x, y), layer_id) == vec_add(project_spec(x, layer_id), project_spec(y, layer_id)),
        project_spec(vec_scale(c, x), layer_id) == vec_scale(c, project_spec(x, layer_id)),
{
    let p = modulus() as int;
    assert forall|k: int| 0 <= k < x.len() / 2 implies #[trigger] project_spec(vec_add(x, y), layer_id)[k]
        == vec_add(project_spec(x, layer_id), project_spec(y, layer_id))[k] by {
        let a = hash_coef(layer_id, k as nat, 0) as int;
        let b = hash_coef(layer_id, k as nat, 1) as int;
        let (x0, x1, y0, y1) = (x[2 * k], x[2 * k + 1], y[2 * k], y[2 * k + 1]);
        lemma_pair_mod(x0 + y0, x1 + y1, a, b);
        assert((x0 + y0) * a + (x1 + y1) * b == (x0 * a + x1 * b) + (y0 * a + y1 * b)) by (nonlinear_arith);
        vstd::arithmetic::div_mod::lemma_add_mod_noop(x0 * a + x1 * b, y0 * a + y1 * b, p);
    }
    assert forall|k: int| 0 <= k < x.len() / 2 implies #[trigger] project_spec(vec_scale(c, x), layer_id)[k]
        == vec_scale(c, project_spec(x, layer_id))[k] by {
        let a = hash_coef(layer_id, k as nat, 0) as int;
        let b = hash_coef(layer_id, k as nat, 1) as int;
        let (x0, x1) = (x[2 * k], x[2 * k + 1]);
        lemma_pair_mod(c * x0, c * x1, a, b);
        vstd::arithmetic::div_mod::lemma_mul_mod_noop_right(c, x0 * a + x1 * b, p);
        assert((c * x0) * a + (c * x1) * b == c * (x0 * a + x1 * b)) by (nonlinear_arith);
    }
    assert(project_spec(vec_add(x, y), layer_id) =~= vec_add(project_spec(x, layer_id), project_spec(y, layer_id)));
    assert(project_spec(vec_scale(c, x), layer_id) =~= vec_scale(c, project_spec(x, layer_id)));
}

/// The vector of length `n` with one at coordinate `i` and zero elsewhere.
pub open spec fn unit_vec(n: nat, i: int) -> Seq<int> {
    Seq::new(n, |j: int| if j == i { 1int } else { 0int })
}

/// Projection sends the unit vector at coordinate `i` to the vector that
/// holds, at pair `i / 2`, the first hash coefficient of `(layer_id, i / 2)`
/// when `i` is even and the second when `i` is odd, and zero at every other
/// pair. With `lemma_project_linear` this fixes the projection of every
/// vector: coordinate `2k` is weighted by coefficient `0` of pair `k` and
/// coordinate `2k + 1` by coefficient `1`, for every pair `k`.
pub proof fn lemma_project_unit(n: nat, i: int, layer_id: nat)
    requires
        0 <= i < n,
    ensures
        project_spec(unit_vec(n, i), layer_id).len() == n / 2,
        forall|k: int|
            0 <= k < n / 2 && k != i / 2 ==> #[trigger] project_spec(unit_vec(n, i), layer_id)[k] == 0,
        i / 2 < n / 2 && i % 2 == 0 ==> project_spec(unit_vec(n, i), layer_id)[i / 2] == hash_coef(
            layer_id,
            (i / 2) as nat,
            0,
        ),
        i / 2 < n / 2 && i % 2 == 1 ==> project_spec(unit_vec(n, i), layer_id)[i / 2] == hash_coef(
            layer_id,
            (i / 2) as nat,
            1,
        ),
{
    let u = unit_vec(n, i);
    let p = modulus() as int;
    assert forall|k: int| 0 <= k < n / 2 && k != i / 2 implies #[trigger] project_spec(u, layer_id)[k] == 0 by {
        assert(2 * k != i && 2 * k + 1 != i);
        assert(u[2 * k] == 0 && u[2 * k + 1] == 0);
        let a = hash_coef(layer_id, k as nat, 0) as int;
        let b = hash_coef(layer_id, k as nat, 1) as int;
        assert(0 * a + 0 * b == 0);
    }
    if i / 2 < n / 2 {
        let k = i / 2;
        let a = hash_coef(layer_id, k as nat, 0) as int;
        let b = hash_coef(layer_id, k as nat, 1) as int;
        assert(a < p && b < p);
        if i % 2 == 0 {
            assert(2 * k == i);
            assert(u[2 * k] == 1 && u[2 * k + 1] == 0);
            assert(1 * a + 0 * b == a);
        } else {
            assert(2 * k + 1 == i);
            assert(u[2 * k] == 0 && u[2 * k + 1] == 1);
            assert(0 * a + 1 * b == b);
        }
    }
}

/// The code is linear over the field: the codeword of a sum is the sum of the
/// codewords, and the codeword of a scaled vector is the scaled codeword.
pub proof fn lemma_encode_linear(x: Seq<int>, y: Seq<int>, c: int, layers: Seq<Layer>, layer_id: nat)
    requires
        x.len() == y.len(),
        encodable(x.len(), layers),
    ensures
        encode_spec(vec_add(x, y), layers, layer_id) == vec_add(
            encode_spec(x, layers, layer_id),
            encode_spec(y, layers, layer_id),
        ),
        encode_spec(vec_scale(c, x), layers, layer_id) == vec_scale(c, encode_spec(x, layers, layer_id)),
    decreases layers.len(),
{
    lemma_encode_len(x, layers, layer_id);
    lemma_encode_len(y, layers, layer_id);
    if layers.len() == 0 {
        assert(vec_add(x, y) =~= vec_add(x, y));
    } else {
        let rest = layers.drop_first();
        let l0 = layers[0];
        let xp = project_spec(x, layer_id);
        let yp = project_spec(y, layer_id);
        lemma_project_linear(x, y, c, layer_id);
        lemma_encode_linear(xp, yp, c, rest, layer_id + 1);
        let ix = encode_spec(xp, rest, layer_id + 1);
        let iy = encode_spec(yp, rest, layer_id + 1);
        lemma_encode_len(xp, rest, layer_id + 1);
        lemma_encode_len(yp, rest, layer_id + 1);
        lemma_mat_vec_linear(l0.A@, ix, iy, c);
        let ax = mat_vec(l0.A@, ix);
        let ay = mat_vec(l0.A@, iy);
        lemma_mat_vec_linear(l0.B@, ax, ay, c);
        let px = mat_vec(l0.B@, ax);
        let py = mat_vec(l0.B@, ay);
        let xy = vec_add(x, y);
        assert(encode_spec(xy, layers, layer_id) == xy + vec_add(px, py));
        assert(xy + vec_add(px, py) =~= vec_add(x + px, y + py));
        let xc = vec_scale(c, x);
        assert(encode_spec(xc, layers, layer_id) == xc + vec_scale(c, px));
        assert(xc + vec_scale(c, px) =~= vec_scale(c, x + px));
    }
}

/// Convenience wrapper for sparse-matrix application.
pub fn apply_matrix(x: &[Fe], m: &SparseMatrix) -> (r: Vec<Fe>)
    requires
        cols_below(m@, x@.len()),
    ensures
        vals(r@) == mat_vec(m@, vals(x@)),
{
    m.apply(x)
}

/// Project adjacent coordinate pairs into one coordinate per pair.
pub fn project(x: &[Fe], layer_id: usize) -> (r: Vec<Fe>)
    requires
        x@.len() % 2 == 0,
    ensures
        vals(r@) == project_spec(vals(x@), layer_id as nat),
        canonical_from(r@, 0),
{
    let ghost xs = vals(x@);
    let mut res: Vec<Fe> = Vec::new();
    let mut pos: usize = 0;
    let mut i: usize = 0;
    while i < x.len()
        invariant
            x@.len() % 2 == 0,
            xs == vals(x@),
            i == 2 * pos,
            i <= x@.len(),
            res@.len() == pos,
            forall|k: int| 0 <= k < pos ==> (#[trigger] res@[k]).value() == project_spec(xs, layer_id as nat)[k],
            canonical_from(res@, 0),
        decreases x@.len() - i,
    {
        let (a, b) = hash_pair(layer_id, pos);
        let v = fe_add(fe_mul(x[i], a), fe_mul(x[i + 1], b));
        proof {
            let p = modulus() as int;
            let u = x@[i as int].value() * a.value();
            let w = x@[i + 1].value() * b.value();
            vstd::arithmetic::div_mod::lemma_add_mod_noop(u as int, w as int, p);
            assert(2 * pos == i);
        }
        res.push(v);
        pos = pos + 1;
        i = i + 2;
    }
    assert(vals(res@) =~= project_spec(xs, layer_id as nat));
    res
}

/// `x` followed by `parity`.
fn concat(x: Vec<Fe>, parity: Vec<Fe>) -> (r: Vec<Fe>)
    ensures
        r@ == x@ + parity@,
{
    let mut out = x;
    let mut tail = parity;
    out.append(&mut tail);
    out
}

/// Values of a concatenation are the concatenated values.
proof fn lemma_vals_concat(a: Seq<Fe>, b: Seq<Fe>)
    ensures
        vals(a + b) == vals(a) + vals(b),
{
    assert(vals(a + b) =~= vals(a) + vals(b));
}

/// The encoding of `x` under the layers from `start` on.
fn encode_from(x: Vec<Fe>, layers: &[Layer], start: usize, layer_id: usize) -> (r: Vec<Fe>)
    requires
        start <= layers@.len(),
        encodable(x@.len(), layers@.subrange(start as int, layers@.len() as int)),
        layer_id + (layers@.len() - start) <= usize::MAX,
    ensures
        vals(r@) == encode_spec(
            vals(x@),
            layers@.subrange(start as int, layers@.len() as int),
            layer_id as nat,
        ),
        r@.take(x@.len() as int) == x@,
        canonical_from(r@, x@.len() as int),
    decreases layers@.len() - start,
{
    let ghost rest = layers@.subrange(start as int, layers@.len() as int);
    if start == layers.len() {
        assert(x@.take(x@.len() as int) =~= x@);
        return x;
    }
    let first = &layers[start];
    assert(rest.drop_first() =~= layers@.subrange(start + 1, layers@.len() as int));
    assert(rest[0] == *first);
    assert(encodable(x@.len() / 2, rest.drop_first()));
    assert(cols_below(first.A@, encoded_len(x@.len() / 2, rest.drop_first())));
    assert(cols_below(first.B@, first.A@.len()));
    let x_proj = project(x.as_slice(), layer_id);
    assert(x_proj@.len() == vals(x_proj@).len());
    let inner = encode_from(x_proj, layers, start + 1, layer_id + 1);
    assert(inner@.len() == vals(inner@).len());
    proof {
        lemma_encode_len(vals(x_proj@), rest.drop_first(), (layer_id + 1) as nat);
    }
    let y = first.A.apply(inner.as_slice());
    assert(y@.len() == vals(y@).len());
    let parity = first.B.apply(y.as_slice());
    let ghost xv = x@;
    let out = concat(x, parity);
    proof {
        lemma_vals_concat(xv, parity@);
        assert(out@.take(xv.len() as int) =~= xv);
        assert forall|i: int| xv.len() <= i < out@.len() implies (#[trigger] out@[i]).is_canonical() by {
            assert(out@[i] == parity@[i - xv.len()]);
        }
    }
    out
}

/// Recursively encode a vector using the provided layers, the first layer
/// using the hash coefficients of `layer_id`.
pub fn encode(x: Vec<Fe>, layers: &[Layer], layer_id: usize) -> (r: Vec<Fe>)
    requires
        encodable(x@.len(), layers@),
        layer_id + layers@.len() <= usize::MAX,
    ensures
        vals(r@) == encode_spec(vals(x@), layers@, layer_id as nat),
        r@.take(x@.len() as int) == x@,
        canonical_from(r@, x@.len() as int),
{
    assert(layers@.subrange(0, layers@.len() as int) =~= layers@);
    encode_from(x, layers, 0, layer_id)
}

/// An element-by-element copy of `x`.
pub(crate) fn copy_vector(x: &[Fe]) -> (r: Vec<Fe>)
    ensures
        r@ == x@,
{
    let mut out: Vec<Fe> = Vec::new();
    let mut i: usize = 0;
    while i < x.len()
        invariant
            i <= x@.len(),
            out@ == x@.take(i as int),
        decreases x@.len() - i,
    {
        out.push(x[i]);
        i = i + 1;
        assert(out@ =~= x@.take(i as int));
    }
    assert(x@.take(x@.len() as int) =~= x@);
    out
}

/// Reversing a sequence moves its head to the end.
proof fn lemma_trace_reverse_step(head: Seq<int>, tail: Seq<Seq<int>>)
    requires
        tail.len() > 0,
    ensures
        (seq![head] + tail).reverse() == tail.reverse() + seq![head],
{
    assert((seq![head] + tail).reverse() =~= tail.reverse() + seq![head]);
}

/// Encode `x` under the layers from `start` on, appending the codeword at
/// every depth to `trace`, innermost first.
fn trace_from(
    x: Vec<Fe>,
    layers: &[Layer],
    start: usize,
    trace: &mut Vec<Vec<Fe>>,
    layer_id: usize,
) -> (r: Vec<Fe>)
    requires
        start <= layers@.len(),
        encodable(x@.len(), layers@.subrange(start as int, layers@.len() as int)),
        layer_id + (layers@.len() - start) <= usize::MAX,
    ensures
        vals(r@) == encode_spec(
            vals(x@),
            layers@.subrange(start as int, layers@.len() as int),
            layer_id as nat,
        ),
        vals2(final(trace)@) == vals2(old(trace)@) + trace_spec(
            vals(x@),
            layers@.subrange(start as int, layers@.len() as int),
            layer_id as nat,
        ).reverse(),
        final(trace)@.len() > old(trace)@.len(),
        forall|j: int| 0 <= j < old(trace)@.len() ==> #[trigger] final(trace)@[j] == old(trace)@[j],
        forall|j: int|
            old(trace)@.len() <= j < final(trace)@.len() - 1 ==> canonical_from(#[trigger] final(trace)@[j]@, 0),
        final(trace)@.last()@ == r@,
        r@.take(x@.len() as int) == x@,
        canonical_from(r@, x@.len() as int),
    decreases layers@.len() - start,
{
    let ghost rest = layers@.subrange(start as int, layers@.len() as int);
    let ghost before = trace@;
    if start == layers.len() {
        let copy = copy_vector(x.as_slice());
        trace.push(copy);
        assert(vals2(trace@) =~= vals2(before) + seq![vals(x@)].reverse());
        assert(x@.take(x@.len() as int) =~= x@);
        return x;
    }
    let first = &layers[start];
    assert(rest.drop_first() =~= layers@.subrange(start + 1, layers@.len() as int));
    assert(rest[0] == *first);
    assert(encodable(x@.len() / 2, rest.drop_first()));
    assert(cols_below(first.A@, encoded_len(x@.len() / 2, rest.drop_first())));
    assert(cols_below(first.B@, first.A@.len()));
    let x_proj = project(x.as_slice(), layer_id);
    assert(x_proj@.len() == vals(x_proj@).len());
    let inner = trace_from(x_proj, layers, start + 1, trace, layer_id + 1);
    assert(inner@.len() == vals(inner@).len());
    let ghost mid = trace@;
    proof {
        lemma_encode_len(vals(x_proj@), rest.drop_first(), (layer_id + 1) as nat);
    }
    let y = first.A.apply(inner.as_slice());
    assert(y@.len() == vals(y@).len());
    let parity = first.B.apply(y.as_slice());
    let ghost xv = x@;
    let out = concat(x, parity);
    proof {
        lemma_vals_concat(xv, parity@);
        assert(out@.take(xv.len() as int) =~= xv);
        assert forall|i: int| xv.len() <= i < out@.len() implies (#[trigger] out@[i]).is_canonical() by {
            assert(out@[i] == parity@[i - xv.len()]);
        }
        assert(canonical_from(mid.last()@, 0)) by {
            assert forall|i: int| 0 <= i < mid.last()@.len() implies (#[trigger] mid.last()@[i]).is_canonical() by {
                if i < x_proj@.len() {
                    assert(mid.last()@.take(x_proj@.len() as int)[i] == x_proj@[i]);
                }
            }
        }
    }
    let copy = copy_vector(out.as_slice());
    trace.push(copy);
    proof {
        assert forall|j: int|
            before.len() <= j < trace@.len() - 1 implies canonical_from(#[trigger] trace@[j]@, 0) by {
            assert(trace@[j] == mid[j]);
        }
        assert forall|j: int| 0 <= j < before.len() implies #[trigger] trace@[j] == before[j] by {
            assert(trace@[j] == mid[j]);
        }
        let tail = trace_spec(vals(x_proj@), rest.drop_first(), (layer_id + 1) as nat);
        lemma_trace_len(vals(x_proj@), rest.drop_first(), (layer_id + 1) as nat);
        lemma_trace_reverse_step(vals(out@), tail);
        assert(vals2(trace@) =~= vals2(mid) + seq![vals(out@)]);
        assert(vals2(trace@) =~= vals2(before) + (tail.reverse() + seq![vals(out@)]));
    }
    out
}

/// Encode a vector while storing the codeword at every recursive depth,
/// outermost first.
pub fn encode_with_trace(x: Vec<Fe>, layers: &[Layer]) -> (t: EncodingTrace)
    requires
        encodable(x@.len(), layers@),
    ensures
        t.trace_vals() == trace_spec(vals(x@), layers@, 0),
        t.layers@[0]@.take(x@.len() as int) == x@,
        canonical_from(t.layers@[0]@, x@.len() as int),
        forall|k: int| 1 <= k < t.layers@.len() ==> canonical_from(#[trigger] t.layers@[k]@, 0),
{
    let ghost xs = vals(x@);
    let ghost xv = x@;
    let mut trace: Vec<Vec<Fe>> = Vec::new();
    assert(layers@.len() == layers.len());
    assert(layers@.subrange(0, layers@.len() as int) =~= layers@);
    let _top = trace_from(x, layers, 0, &mut trace, 0);
    let ghost rev = trace_spec(xs, layers@, 0).reverse();
    let ghost before = trace@;
    assert(vals2(trace@) =~= rev);
    proof {
        lemma_trace_len(xs, layers@, 0);
    }
    let mut out: Vec<Vec<Fe>> = Vec::new();
    let n = trace.len();
    while trace.len() > 0
        invariant
            n == before.len(),
            n == rev.len(),
            rev.len() > 0,
            trace@.len() + out@.len() == n,
            trace@ == before.take(trace@.len() as int),
            forall|k: int| 0 <= k < out@.len() ==> #[trigger] out@[k] == before[n - 1 - k],
        decreases trace@.len(),
    {
        let ghost prev = trace@;
        let v = trace.pop().unwrap();
        assert(v == before[prev.len() - 1]);
        out.push(v);
        assert(trace@ =~= before.take(trace@.len() as int));
    }
    proof {
        let tv = trace_spec(xs, layers@, 0);
        assert(vals2(out@) =~= tv) by {
            assert forall|k: int| 0 <= k < tv.len() implies vals2(out@)[k] == tv[k] by {
                assert(out@[k] == before[n - 1 - k]);
                assert(vals2(before)[n - 1 - k] == rev[n - 1 - k]);
                assert(rev[n - 1 - k] == tv[tv.len() - 1 - (n - 1 - k)]);
            }
        }
        assert(out@[0] == before.last());
        assert forall|k: int| 1 <= k < out@.len() implies canonical_from(#[trigger] out@[k]@, 0) by {
            assert(out@[k] == before[n - 1 - k]);
        }
    }
    EncodingTrace { layers: out }
}

} // verus!
