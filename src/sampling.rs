//! Drawing RANSAC samples: pairwise distinct point indices, uniformly, from a
//! seeded random source.
use vstd::prelude::*;
use rand::rngs::StdRng;
use rand::{Rng, SeedableRng};
use crate::segmentation::{
    PlaneSample, LineSample, valid_plane_sample, valid_line_sample, valid_plane_samples,
    valid_line_samples,
};

verus! {

#[verifier::external_type_specification]
#[verifier::external_body]
pub struct ExStdRng(StdRng);

/// Relies on rand's `SeedableRng::seed_from_u64` for `StdRng`: a generator
/// whose stream is fixed by the seed. Nothing is stated of its values.
#[verifier::external_body]
fn seeded_rng(seed: u64) -> StdRng {
    StdRng::seed_from_u64(seed)
}

/// Relies on rand's `Rng::gen_range` over `0..bound`: a value of the
/// half-open range (it panics on an empty range, which `requires` excludes).
#[verifier::external_body]
fn draw_below(rng: &mut StdRng, bound: usize) -> (r: usize)
    requires
        bound > 0,
    ensures
        r < bound,
{
    rng.gen_range(0..bound)
}

/// Draws three pairwise distinct indices below `n`, each uniformly among the
/// indices not drawn before it.
fn draw_plane_sample(rng: &mut StdRng, n: usize) -> (r: PlaneSample)
    requires
        n >= 3,
    ensures
        valid_plane_sample(r, n as nat),
{
    let i = draw_below(rng, n);
    let mut j = draw_below(rng, n - 1);
    if j >= i {
        j += 1;
    }
    let (lo, hi) = if i < j {
        (i, j)
    } else {
        (j, i)
    };
    let mut k = draw_below(rng, n - 2);
    if k >= lo {
        k += 1;
    }
    if k >= hi {
        k += 1;
    }
    (i, j, k)
}

/// Draws two distinct indices below `n`, the second uniformly among the
/// indices other than the first.
fn draw_line_sample(rng: &mut StdRng, n: usize) -> (r: LineSample)
    requires
        n >= 2,
    ensures
        valid_line_sample(r, n as nat),
{
    let i = draw_below(rng, n);
    let mut j = draw_below(rng, n - 1);
    if j >= i {
        j += 1;
    }
    (i, j)
}

/// Draws `count` plane samples for a cloud of `n` points from the stream
/// that `seed` fixes.
pub fn draw_plane_samples(seed: u64, n: usize, count: usize) -> (r: Vec<PlaneSample>)
    requires
        n >= 3,
    ensures
        r@.len() == count,
        valid_plane_samples(r@, n as nat),
{
    let mut rng = seeded_rng(seed);
    let mut out: Vec<PlaneSample> = Vec::new();
    let mut k: usize = 0;
    while k < count
        invariant
            n >= 3,
            k <= count,
            out@.len() == k,
            valid_plane_samples(out@, n as nat),
        decreases count - k,
    {
        let s = draw_plane_sample(&mut rng, n);
        out.push(s);
        k += 1;
    }
    out
}

/// Draws `count` line samples for a cloud of `n` points from the stream
/// that `seed` fixes.
pub fn draw_line_samples(seed: u64, n: usize, count: usize) -> (r: Vec<LineSample>)
    requires
        n >= 2,
    ensures
        r@.len() == count,
        valid_line_samples(r@, n as nat),
{
    let mut rng = seeded_rng(seed);
    let mut out: Vec<LineSample> = Vec::new();
    let mut k: usize = 0;
    while k < count
        invariant
            n >= 2,
            k <= count,
            out@.len() == k,
            valid_line_samples(out@, n as nat),
        decreases count - k,
    {
        let s = draw_line_sample(&mut rng, n);
        out.push(s);
        k += 1;
    }
    out
}

} // verus!
