//! The sampling check of the interactive demo.

use crate::encoder::{apply_matrix, copy_vector, Layer};
use crate::field::{fe_eq, vals, Fe};
use crate::matrix::{cols_below, mat_vec};
use crate::rng::random_index;
use vstd::prelude::*;

verus! {

/// `x` mapped through each layer's `A`, then its `B`, in order.
pub open spec fn propagate(x: Seq<int>, layers: Seq<Layer>) -> Seq<int>
    decreases layers.len(),
{
    if layers.len() == 0 {
        x
    } else {
        propagate(mat_vec(layers[0].B@, mat_vec(layers[0].A@, x)), layers.drop_first())
    }
}

/// A vector of length `n` can be mapped through `layers` in order: each `A`
/// reads only coordinates of its input and each `B` only outputs of its `A`.
pub open spec fn chain_fits(n: nat, layers: Seq<Layer>) -> bool
    decreases layers.len(),
{
    layers.len() == 0 || {
        &&& cols_below(layers[0].A@, n)
        &&& cols_below(layers[0].B@, layers[0].A@.len())
        &&& chain_fits(layers[0].B@.len(), layers.drop_first())
    }
}

/// Length of a vector of length `n` after being mapped through `layers`.
pub open spec fn chain_len(n: nat, layers: Seq<Layer>) -> nat
    decreases layers.len(),
{
    if layers.len() == 0 {
        n
    } else {
        chain_len(layers[0].B@.len(), layers.drop_first())
    }
}

/// `x` mapped through each layer's `A`, then its `B`, in order.
fn propagate_layers(x: &[Fe], layers: &[Layer]) -> (out: Vec<Fe>)
    requires
        chain_fits(x@.len(), layers@),
    ensures
        vals(out@) == propagate(vals(x@), layers@),
        out@.len() == chain_len(x@.len(), layers@),
{
    let ghost target = propagate(vals(x@), layers@);
    let mut current = copy_vector(x);
    let mut j: usize = 0;
    assert(layers@.skip(0) =~= layers@);
    while j < layers.len()
        invariant
            j <= layers@.len(),
            target == propagate(vals(x@), layers@),
            propagate(vals(current@), layers@.skip(j as int)) == target,
            chain_fits(current@.len(), layers@.skip(j as int)),
            chain_len(current@.len(), layers@.skip(j as int)) == chain_len(x@.len(), layers@),
        decreases layers@.len() - j,
    {
        let layer = &layers[j];
        let ghost rest = layers@.skip(j as int);
        assert(rest[0] == *layer);
        assert(rest.drop_first() =~= layers@.skip(j + 1));
        let inner = apply_matrix(current.as_slice(), &layer.A);
        assert(inner@.len() == vals(inner@).len());
        current = apply_matrix(inner.as_slice(), &layer.B);
        assert(current@.len() == vals(current@).len());
        j = j + 1;
    }
    assert(layers@.skip(layers@.len() as int) =~= Seq::<Layer>::empty());
    current
}

/// Length of a vector of length `n` after being mapped through `layers`.
fn output_len(n: usize, layers: &[Layer]) -> (r: usize)
    ensures
        r == chain_len(n as nat, layers@),
{
    let mut r = n;
    let mut j: usize = 0;
    assert(layers@.skip(0) =~= layers@);
    while j < layers.len()
        invariant
            j <= layers@.len(),
            chain_len(r as nat, layers@.skip(j as int)) == chain_len(n as nat, layers@),
        decreases layers@.len() - j,
    {
        let ghost rest = layers@.skip(j as int);
        assert(rest[0] == layers@[j as int]);
        assert(rest.drop_first() =~= layers@.skip(j + 1));
        r = layers[j].B.rows.len();
        j = j + 1;
    }
    assert(layers@.skip(layers@.len() as int) =~= Seq::<Layer>::empty());
    r
}

/// Map `x` through the layers as `propagate` does and compare the result with
/// `y` at each listed coordinate: the result is whether they agree at all of
/// them.
pub fn compare_at(x: &[Fe], y: &[Fe], layers: &[Layer], picks: &[usize]) -> (ok: bool)
    requires
        chain_fits(x@.len(), layers@),
        forall|k: int| 0 <= k < picks@.len() ==> #[trigger] picks@[k] < chain_len(x@.len(), layers@),
        forall|k: int| 0 <= k < picks@.len() ==> #[trigger] picks@[k] < y@.len(),
    ensures
        ok == forall|k: int|
            0 <= k < picks@.len() ==> propagate(vals(x@), layers@)[#[trigger] picks@[k] as int]
                == vals(y@)[picks@[k] as int],
{
    let ghost target = propagate(vals(x@), layers@);
    let current = propagate_layers(x, layers);
    let mut c: usize = 0;
    while c < picks.len()
        invariant
            c <= picks@.len(),
            target == propagate(vals(x@), layers@),
            target == vals(current@),
            current@.len() == chain_len(x@.len(), layers@),
            forall|k: int| 0 <= k < picks@.len() ==> #[trigger] picks@[k] < current@.len(),
            forall|k: int| 0 <= k < picks@.len() ==> #[trigger] picks@[k] < y@.len(),
            forall|k: int| 0 <= k < c ==> target[#[trigger] picks@[k] as int] == vals(y@)[picks@[k] as int],
        decreases picks@.len() - c,
    {
        let i = picks[c];
        if !fe_eq(current[i], y[i]) {
            assert(vals(current@)[i as int] == current@[i as int].value());
            assert(vals(y@)[i as int] == y@[i as int].value());
            assert(target[picks@[c as int] as int] != vals(y@)[picks@[c as int] as int]);
            return false;
        }
        assert(vals(current@)[i as int] == current@[i as int].value());
        assert(vals(y@)[i as int] == y@[i as int].value());
        c = c + 1;
    }
    true
}

/// Demo-only verifier that samples a few output coordinates.
///
/// It maps `x` through each layer's `A` then `B` in sequence, which is
/// simpler than the recursive encoder, then compares `num_checks` randomly
/// drawn coordinates of the result with `y`, as `compare_at` does. The result
/// is whether all drawn coordinates agree; if `y` starts with the mapped
/// vector, it is `true`.
pub fn demo_verify_sampling(x: &[Fe], y: &[Fe], layers: &[Layer], num_checks: usize) -> (ok: bool)
    requires
        chain_fits(x@.len(), layers@),
        num_checks > 0 ==> chain_len(x@.len(), layers@) > 0,
        num_checks > 0 ==> chain_len(x@.len(), layers@) <= y@.len(),
    ensures
        exists|picks: Seq<usize>|
            {
                &&& picks.len() == num_checks
                &&& forall|k: int| 0 <= k < num_checks ==> #[trigger] picks[k] < chain_len(x@.len(), layers@)
                &&& ok == forall|k: int|
                    0 <= k < num_checks ==> propagate(vals(x@), layers@)[#[trigger] picks[k] as int]
                        == vals(y@)[picks[k] as int]
            },
        (forall|i: int|
            0 <= i < chain_len(x@.len(), layers@) ==> #[trigger] propagate(vals(x@), layers@)[i]
                == vals(y@)[i]) ==> ok,
{
    let len = output_len(x.len(), layers);
    let mut picks: Vec<usize> = Vec::new();
    let mut c: usize = 0;
    while c < num_checks
        invariant
            c <= num_checks,
            len == chain_len(x@.len(), layers@),
            num_checks > 0 ==> len > 0,
            picks@.len() == c,
            forall|k: int| 0 <= k < c ==> #[trigger] picks@[k] < len,
        decreases num_checks - c,
    {
        picks.push(random_index(len));
        c = c + 1;
    }
    assert forall|k: int| 0 <= k < picks@.len() implies #[trigger] picks@[k] < y@.len() by {
        assert(picks@[k] < len);
    }
    let ok = compare_at(x, y, layers, picks.as_slice());
    assert(picks@.len() == num_checks);
    ok
}

} // verus!
