//! RANSAC segmentation: planes through three sampled points and lines through
//! two, each scored by the number of points that lie closer than a threshold.
use vstd::prelude::*;
use crate::geometry::{
    V3, pos, vdiff, vdot, vcross, norm2, v_bounded, lemma_lt_mul_iff_div_lt, lemma_mul_bounded,
    lemma_norm2_nonneg,
};
use crate::point_cloud::{Position, PointCloud, in_bounds, all_in_bounds};
use crate::sampling::{draw_plane_samples, draw_line_samples};
use rayon::iter::{IndexedParallelIterator, IntoParallelRefIterator, ParallelIterator};

verus! {

/// A plane `a x + b y + c z + d = 0`; `ranking` counts the points that lie on
/// it within the threshold it was scored with.
#[derive(Clone, Copy, Debug, PartialEq, Eq, Structural)]
pub struct Plane {
    pub a: i64,
    pub b: i64,
    pub c: i64,
    pub d: i64,
    pub ranking: usize,
}

/// The line through `first` and `second`; `ranking` counts the points that
/// lie on it within the threshold it was scored with.
#[derive(Clone, Copy, Debug, PartialEq, Eq, Structural)]
pub struct Line {
    pub first: Position,
    pub second: Position,
    pub ranking: usize,
}

/// Three point indices drawn for a plane hypothesis.
pub type PlaneSample = (usize, usize, usize);

/// Two point indices drawn for a line hypothesis.
pub type LineSample = (usize, usize);

/// The normal `(a, b, c)` of a plane.
pub open spec fn plane_normal(pl: Plane) -> V3 {
    (pl.a as int, pl.b as int, pl.c as int)
}

/// `a x + b y + c z + d` at `p`.
pub open spec fn plane_residual(pl: Plane, p: Position) -> int {
    vdot(plane_normal(pl), pos(p)) + pl.d
}

/// Whether the distance `|a x + b y + c z + d| / |(a, b, c)|` of `p` to the
/// plane is below `t`. The comparison is taken on squares, and a plane with a
/// zero normal, whose distance is undefined, holds no point.
pub open spec fn plane_inlier(pl: Plane, p: Position, t: int) -> bool {
    norm2(plane_normal(pl)) > 0 && plane_residual(pl, p) * plane_residual(pl, p) < t * t * norm2(
        plane_normal(pl),
    )
}

/// The direction `second - first` of a line.
pub open spec fn line_direction(l: Line) -> V3 {
    vdiff(pos(l.second), pos(l.first))
}

/// Whether the distance `|(second - first) x (first - p)| / |second - first|`
/// of `p` to the line is below `t`. The comparison is taken on squares, and a
/// line whose two points coincide holds no point.
pub open spec fn line_inlier(l: Line, p: Position, t: int) -> bool {
    let dir = line_direction(l);
    let c = vcross(dir, vdiff(pos(l.first), pos(p)));
    norm2(dir) > 0 && norm2(c) < t * t * norm2(dir)
}

/// The indices below `k` of the points that lie on the plane, ascending.
pub open spec fn plane_inliers(pl: Plane, pts: Seq<Position>, t: int, k: nat) -> Seq<usize>
    decreases k,
{
    if k == 0 {
        Seq::empty()
    } else {
        let prev = plane_inliers(pl, pts, t, (k - 1) as nat);
        if plane_inlier(pl, pts[k - 1], t) {
            prev.push((k - 1) as usize)
        } else {
            prev
        }
    }
}

/// The indices below `k` of the points that lie on the line, ascending.
pub open spec fn line_inliers(l: Line, pts: Seq<Position>, t: int, k: nat) -> Seq<usize>
    decreases k,
{
    if k == 0 {
        Seq::empty()
    } else {
        let prev = line_inliers(l, pts, t, (k - 1) as nat);
        if line_inlier(l, pts[k - 1], t) {
            prev.push((k - 1) as usize)
        } else {
            prev
        }
    }
}

/// How many of the first `k` points lie on the plane.
pub open spec fn count_plane_inliers(pl: Plane, pts: Seq<Position>, t: int, k: nat) -> nat
    decreases k,
{
    if k == 0 {
        0
    } else {
        count_plane_inliers(pl, pts, t, (k - 1) as nat) + if plane_inlier(pl, pts[k - 1], t) {
            1nat
        } else {
            0nat
        }
    }
}

/// How many of the first `k` points lie on the line.
pub open spec fn count_line_inliers(l: Line, pts: Seq<Position>, t: int, k: nat) -> nat
    decreases k,
{
    if k == 0 {
        0
    } else {
        count_line_inliers(l, pts, t, (k - 1) as nat) + if line_inlier(l, pts[k - 1], t) {
            1nat
        } else {
            0nat
        }
    }
}

/// The plane through `pa`, `pb` and `pc`: its normal is
/// `(pb - pa) x (pc - pa)` and `d = -normal . pa`; its ranking is zero.
pub open spec fn plane_through(pa: Position, pb: Position, pc: Position) -> Plane {
    let n = vcross(vdiff(pos(pb), pos(pa)), vdiff(pos(pc), pos(pa)));
    Plane {
        a: n.0 as i64,
        b: n.1 as i64,
        c: n.2 as i64,
        d: (-vdot(n, pos(pa))) as i64,
        ranking: 0,
    }
}

/// Whether the three indices are below `n` and pairwise distinct.
pub open spec fn valid_plane_sample(s: PlaneSample, n: nat) -> bool {
    s.0 < n && s.1 < n && s.2 < n && s.0 != s.1 && s.0 != s.2 && s.1 != s.2
}

/// Whether the two indices are below `n` and distinct.
pub open spec fn valid_line_sample(s: LineSample, n: nat) -> bool {
    s.0 < n && s.1 < n && s.0 != s.1
}

/// The unscored plane of a sample.
pub open spec fn sample_plane(pts: Seq<Position>, s: PlaneSample) -> Plane {
    plane_through(pts[s.0 as int], pts[s.1 as int], pts[s.2 as int])
}

/// The unscored line of a sample.
pub open spec fn sample_line(pts: Seq<Position>, s: LineSample) -> Line {
    Line { first: pts[s.0 as int], second: pts[s.1 as int], ranking: 0 }
}

/// The scored hypothesis of one sample: the plane with its ranking set to the
/// number of its inliers, and those inliers.
pub open spec fn plane_hypothesis_of(pts: Seq<Position>, t: int, s: PlaneSample) -> (
    Plane,
    Seq<usize>,
) {
    let pl = sample_plane(pts, s);
    let inl = plane_inliers(pl, pts, t, pts.len());
    (Plane { ranking: inl.len() as usize, ..pl }, inl)
}

/// The scored hypothesis of one sample: the line with its ranking set to the
/// number of its inliers, and those inliers.
pub open spec fn line_hypothesis_of(pts: Seq<Position>, t: int, s: LineSample) -> (
    Line,
    Seq<usize>,
) {
    let l = sample_line(pts, s);
    let inl = line_inliers(l, pts, t, pts.len());
    (Line { ranking: inl.len() as usize, ..l }, inl)
}

/// Coefficient bounds met by every plane through three positions within
/// bounds; they keep the exact distance test within 128 bits.
pub open spec fn plane_bounded(pl: Plane) -> bool {
    &&& v_bounded(plane_normal(pl), 0x200_0000_0000)
    &&& -0x3000_0000_0000_0000 <= pl.d <= 0x3000_0000_0000_0000
}

/// The plane through three positions, unscored.
fn plane_through_points(pa: Position, pb: Position, pc: Position) -> (r: Plane)
    requires
        in_bounds(pa),
        in_bounds(pb),
        in_bounds(pc),
    ensures
        r == plane_through(pa, pb, pc),
        plane_bounded(r),
{
    let ux = pb.x as i64 - pa.x as i64;
    let uy = pb.y as i64 - pa.y as i64;
    let uz = pb.z as i64 - pa.z as i64;
    let vx = pc.x as i64 - pa.x as i64;
    let vy = pc.y as i64 - pa.y as i64;
    let vz = pc.z as i64 - pa.z as i64;
    let ghost m: int = 0x10_0000;
    proof {
        lemma_mul_bounded(uy as int, vz as int, m, m);
        lemma_mul_bounded(uz as int, vy as int, m, m);
        lemma_mul_bounded(uz as int, vx as int, m, m);
        lemma_mul_bounded(ux as int, vz as int, m, m);
        lemma_mul_bounded(ux as int, vy as int, m, m);
        lemma_mul_bounded(uy as int, vx as int, m, m);
    }
    let nx = uy * vz - uz * vy;
    let ny = uz * vx - ux * vz;
    let nz = ux * vy - uy * vx;
    let ghost b: int = 0x200_0000_0000;
    let ghost c: int = 0x8_0000;
    proof {
        lemma_mul_bounded(nx as int, pa.x as int, b, c);
        lemma_mul_bounded(ny as int, pa.y as int, b, c);
        lemma_mul_bounded(nz as int, pa.z as int, b, c);
    }
    let d = -(nx * pa.x as i64 + ny * pa.y as i64 + nz * pa.z as i64);
    Plane { a: nx, b: ny, c: nz, d, ranking: 0 }
}

/// Whether `p` lies closer than `t` to the plane, decided exactly.
fn plane_distance_below(plane: &Plane, p: Position, t: u32) -> (r: bool)
    requires
        plane_bounded(*plane),
        in_bounds(p),
    ensures
        r == plane_inlier(*plane, p, t as int),
{
    let ghost na: int = 0x200_0000_0000;
    let ghost c: int = 0x8_0000;
    proof {
        lemma_mul_bounded(plane.a as int, p.x as int, na, c);
        lemma_mul_bounded(plane.b as int, p.y as int, na, c);
        lemma_mul_bounded(plane.c as int, p.z as int, na, c);
        lemma_mul_bounded(plane.a as int, plane.a as int, na, na);
        lemma_mul_bounded(plane.b as int, plane.b as int, na, na);
        lemma_mul_bounded(plane.c as int, plane.c as int, na, na);
        lemma_norm2_nonneg(plane_normal(*plane));
    }
    let res: i128 = plane.a as i128 * p.x as i128 + plane.b as i128 * p.y as i128 + plane.c as i128
        * p.z as i128 + plane.d as i128;
    let n2: i128 = plane.a as i128 * plane.a as i128 + plane.b as i128 * plane.b as i128
        + plane.c as i128 * plane.c as i128;
    if n2 == 0 {
        false
    } else {
        let ghost rb: int = 0x6000_0000_0000_0000;
        proof {
            lemma_mul_bounded(res as int, res as int, rb, rb);
        }
        let r2: i128 = res * res;
        proof {
            lemma_mul_bounded(t as int, t as int, 0xFFFF_FFFF, 0xFFFF_FFFF);
        }
        let tt: i128 = t as i128 * t as i128;
        proof {
            lemma_lt_mul_iff_div_lt(r2 as int, n2 as int, tt as int);
        }
        r2 / n2 < tt
    }
}

/// Whether `p` lies closer than `t` to the line, decided exactly.
fn line_distance_below(line: &Line, p: Position, t: u32) -> (r: bool)
    requires
        in_bounds(line.first),
        in_bounds(line.second),
        in_bounds(p),
    ensures
        r == line_inlier(*line, p, t as int),
{
    let dx = line.second.x as i64 - line.first.x as i64;
    let dy = line.second.y as i64 - line.first.y as i64;
    let dz = line.second.z as i64 - line.first.z as i64;
    let wx = line.first.x as i64 - p.x as i64;
    let wy = line.first.y as i64 - p.y as i64;
    let wz = line.first.z as i64 - p.z as i64;
    let ghost m: int = 0x10_0000;
    proof {
        lemma_mul_bounded(dy as int, wz as int, m, m);
        lemma_mul_bounded(dz as int, wy as int, m, m);
        lemma_mul_bounded(dz as int, wx as int, m, m);
        lemma_mul_bounded(dx as int, wz as int, m, m);
        lemma_mul_bounded(dx as int, wy as int, m, m);
        lemma_mul_bounded(dy as int, wx as int, m, m);
    }
    let cx = dy * wz - dz * wy;
    let cy = dz * wx - dx * wz;
    let cz = dx * wy - dy * wx;
    let ghost b: int = 0x200_0000_0000;
    proof {
        lemma_mul_bounded(cx as int, cx as int, b, b);
        lemma_mul_bounded(cy as int, cy as int, b, b);
        lemma_mul_bounded(cz as int, cz as int, b, b);
        lemma_mul_bounded(dx as int, dx as int, m, m);
        lemma_mul_bounded(dy as int, dy as int, m, m);
        lemma_mul_bounded(dz as int, dz as int, m, m);
        lemma_norm2_nonneg(line_direction(*line));
    }
    let c2: i128 = cx as i128 * cx as i128 + cy as i128 * cy as i128 + cz as i128 * cz as i128;
    let d2: i128 = dx as i128 * dx as i128 + dy as i128 * dy as i128 + dz as i128 * dz as i128;
    if d2 == 0 {
        false
    } else {
        proof {
            lemma_mul_bounded(t as int, t as int, 0xFFFF_FFFF, 0xFFFF_FFFF);
        }
        let tt: i128 = t as i128 * t as i128;
        proof {
            lemma_lt_mul_iff_div_lt(c2 as int, d2 as int, tt as int);
        }
        c2 / d2 < tt
    }
}

/// The position of the first greatest ranking: a later ranking replaces the
/// best so far only when it is strictly greater.
pub open spec fn first_best(ranks: Seq<usize>) -> int
    decreases ranks.len(),
{
    if ranks.len() <= 1 {
        0
    } else {
        let b = first_best(ranks.drop_last());
        if ranks.last() > ranks[b] {
            ranks.len() - 1
        } else {
            b
        }
    }
}

/// `first_best` picks a position of the sequence whose ranking no other
/// ranking exceeds and that no earlier ranking equals.
pub proof fn lemma_first_best(ranks: Seq<usize>)
    requires
        ranks.len() > 0,
    ensures
        0 <= first_best(ranks) < ranks.len(),
        forall|j: int| 0 <= j < ranks.len() ==> #[trigger] ranks[j] <= ranks[first_best(ranks)],
        forall|j: int| 0 <= j < first_best(ranks) ==> #[trigger] ranks[j] < ranks[first_best(ranks)],
    decreases ranks.len(),
{
    if ranks.len() > 1 {
        let init = ranks.drop_last();
        lemma_first_best(init);
        assert forall|j: int| 0 <= j < ranks.len() - 1 implies ranks[j] == init[j] by {}
    }
}

/// The rankings of the hypotheses of each plane sample, in order.
pub open spec fn plane_rankings(pts: Seq<Position>, t: int, samples: Seq<PlaneSample>) -> Seq<
    usize,
> {
    samples.map_values(|s: PlaneSample| plane_hypothesis_of(pts, t, s).0.ranking)
}

/// The rankings of the hypotheses of each line sample, in order.
pub open spec fn line_rankings(pts: Seq<Position>, t: int, samples: Seq<LineSample>) -> Seq<
    usize,
> {
    samples.map_values(|s: LineSample| line_hypothesis_of(pts, t, s).0.ranking)
}

/// The outcome of a plane fit over the given samples: the first hypothesis
/// with the greatest ranking, with its inliers.
pub open spec fn plane_fit(pts: Seq<Position>, t: int, samples: Seq<PlaneSample>) -> (
    Plane,
    Seq<usize>,
) {
    plane_hypothesis_of(pts, t, samples[first_best(plane_rankings(pts, t, samples))])
}

/// The outcome of a line fit over the given samples: the first hypothesis
/// with the greatest ranking, with its inliers.
pub open spec fn line_fit(pts: Seq<Position>, t: int, samples: Seq<LineSample>) -> (
    Line,
    Seq<usize>,
) {
    line_hypothesis_of(pts, t, samples[first_best(line_rankings(pts, t, samples))])
}

/// Whether every sample is valid for a cloud of `n` points.
pub open spec fn valid_plane_samples(samples: Seq<PlaneSample>, n: nat) -> bool {
    forall|i: int| 0 <= i < samples.len() ==> #[trigger] valid_plane_sample(samples[i], n)
}

/// Whether every sample is valid for a cloud of `n` points.
pub open spec fn valid_line_samples(samples: Seq<LineSample>, n: nat) -> bool {
    forall|i: int| 0 <= i < samples.len() ==> #[trigger] valid_line_sample(samples[i], n)
}

/// The inlier list of a plane holds ascending indices below `k`, and its
/// length is the inlier count.
pub proof fn lemma_plane_inliers(pl: Plane, pts: Seq<Position>, t: int, k: nat)
    requires
        k <= pts.len(),
        pts.len() <= usize::MAX,
    ensures
        plane_inliers(pl, pts, t, k).len() == count_plane_inliers(pl, pts, t, k),
        plane_inliers(pl, pts, t, k).len() <= k,
        forall|j: int|
            0 <= j < plane_inliers(pl, pts, t, k).len() ==> {
                let i = #[trigger] plane_inliers(pl, pts, t, k)[j];
                i < k && plane_inlier(pl, pts[i as int], t)
            },
        forall|i: usize|
            i < k && plane_inlier(pl, pts[i as int], t) ==> #[trigger] plane_inliers(pl, pts, t, k).contains(i),
        forall|a: int, b: int|
            0 <= a < b < plane_inliers(pl, pts, t, k).len() ==> #[trigger] plane_inliers(pl, pts, t, k)[a]
                < #[trigger] plane_inliers(pl, pts, t, k)[b],
    decreases k,
{
    if k > 0 {
        let k1 = (k - 1) as nat;
        lemma_plane_inliers(pl, pts, t, k1);
        let prev = plane_inliers(pl, pts, t, k1);
        let cur = plane_inliers(pl, pts, t, k);
        assert forall|j: int| 0 <= j < cur.len() implies cur[j] < k && plane_inlier(
            pl,
            pts[cur[j] as int],
            t,
        ) by {
            if j < prev.len() {
                assert(cur[j] == prev[j]);
            }
        }
        assert forall|i: usize| i < k && plane_inlier(pl, pts[i as int], t) implies #[trigger] cur.contains(i) by {
            if i < k1 {
                assert(prev.contains(i));
                let m = choose|m: int| 0 <= m < prev.len() && prev[m] == i;
                assert(cur[m] == i);
            } else {
                assert(cur[cur.len() - 1] == i);
            }
        }
    }
}

/// The inlier list of a line holds ascending indices below `k`, and its
/// length is the inlier count.
pub proof fn lemma_line_inliers(l: Line, pts: Seq<Position>, t: int, k: nat)
    requires
        k <= pts.len(),
        pts.len() <= usize::MAX,
    ensures
        line_inliers(l, pts, t, k).len() == count_line_inliers(l, pts, t, k),
        line_inliers(l, pts, t, k).len() <= k,
        forall|j: int|
            0 <= j < line_inliers(l, pts, t, k).len() ==> {
                let i = #[trigger] line_inliers(l, pts, t, k)[j];
                i < k && line_inlier(l, pts[i as int], t)
            },
        forall|i: usize|
            i < k && line_inlier(l, pts[i as int], t) ==> #[trigger] line_inliers(l, pts, t, k).contains(i),
        forall|a: int, b: int|
            0 <= a < b < line_inliers(l, pts, t, k).len() ==> #[trigger] line_inliers(l, pts, t, k)[a]
                < #[trigger] line_inliers(l, pts, t, k)[b],
    decreases k,
{
    if k > 0 {
        let k1 = (k - 1) as nat;
        lemma_line_inliers(l, pts, t, k1);
        let prev = line_inliers(l, pts, t, k1);
        let cur = line_inliers(l, pts, t, k);
        assert forall|j: int| 0 <= j < cur.len() implies cur[j] < k && line_inlier(
            l,
            pts[cur[j] as int],
            t,
        ) by {
            if j < prev.len() {
                assert(cur[j] == prev[j]);
            }
        }
        assert forall|i: usize| i < k && line_inlier(l, pts[i as int], t) implies #[trigger] cur.contains(i) by {
            if i < k1 {
                assert(prev.contains(i));
                let m = choose|m: int| 0 <= m < prev.len() && prev[m] == i;
                assert(cur[m] == i);
            } else {
                assert(cur[cur.len() - 1] == i);
            }
        }
    }
}

/// Scores the plane of one sample against every point of the cloud: one
/// independent RANSAC iteration.
pub fn plane_hypothesis(cloud: &PointCloud, distance_threshold: u32, s: PlaneSample) -> (r: (
    Plane,
    Vec<usize>,
))
    requires
        valid_plane_sample(s, cloud@.len()),
    ensures
        (r.0, r.1@) == plane_hypothesis_of(cloud@, distance_threshold as int, s),
{
    proof {
        use_type_invariant(cloud);
    }
    let pts = cloud.positions();
    let ghost t = distance_threshold as int;
    let base = plane_through_points(pts[s.0], pts[s.1], pts[s.2]);
    let mut inliers: Vec<usize> = Vec::new();
    let mut i: usize = 0;
    while i < pts.len()
        invariant
            pts@ == cloud@,
            t == distance_threshold as int,
            all_in_bounds(pts@),
            plane_bounded(base),
            base == sample_plane(cloud@, s),
            i <= pts@.len(),
            inliers@ == plane_inliers(base, pts@, t, i as nat),
        decreases pts@.len() - i,
    {
        if plane_distance_below(&base, pts[i], distance_threshold) {
            inliers.push(i);
        }
        assert(inliers@ == plane_inliers(base, pts@, t, (i + 1) as nat));
        i += 1;
    }
    proof {
        lemma_plane_inliers(base, pts@, t, pts@.len());
    }
    let ranked = Plane { ranking: inliers.len(), ..base };
    (ranked, inliers)
}

/// Scores the line of one sample against every point of the cloud: one
/// independent RANSAC iteration.
pub fn line_hypothesis(cloud: &PointCloud, distance_threshold: u32, s: LineSample) -> (r: (
    Line,
    Vec<usize>,
))
    requires
        valid_line_sample(s, cloud@.len()),
    ensures
        (r.0, r.1@) == line_hypothesis_of(cloud@, distance_threshold as int, s),
{
    proof {
        use_type_invariant(cloud);
    }
    let pts = cloud.positions();
    let ghost t = distance_threshold as int;
    let base = Line { first: pts[s.0], second: pts[s.1], ranking: 0 };
    let mut inliers: Vec<usize> = Vec::new();
    let mut i: usize = 0;
    while i < pts.len()
        invariant
            pts@ == cloud@,
            t == distance_threshold as int,
            all_in_bounds(pts@),
            in_bounds(base.first),
            in_bounds(base.second),
            base == sample_line(cloud@, s),
            i <= pts@.len(),
            inliers@ == line_inliers(base, pts@, t, i as nat),
        decreases pts@.len() - i,
    {
        if line_distance_below(&base, pts[i], distance_threshold) {
            inliers.push(i);
        }
        assert(inliers@ == line_inliers(base, pts@, t, (i + 1) as nat));
        i += 1;
    }
    proof {
        lemma_line_inliers(base, pts@, t, pts@.len());
    }
    let ranked = Line { ranking: inliers.len(), ..base };
    (ranked, inliers)
}

/// Why a fit was refused before any hypothesis was scored.
#[derive(Clone, Copy, Debug, PartialEq, Eq, Structural)]
pub enum SegmentationError {
    /// The distance threshold is zero.
    ThresholdNotPositive,
    /// No iteration was asked for.
    NoIterations,
    /// The cloud has fewer points than one sample needs.
    TooFewPoints,
    /// The sample at this position repeats an index or names no point.
    InvalidSample(usize),
}

/// RANSAC plane fit over given samples, one after another: each sample is
/// scored in turn, and a hypothesis replaces the best so far only when its
/// ranking is strictly greater.
pub fn ransac_plane_serial(cloud: &PointCloud, distance_threshold: u32, samples: &Vec<PlaneSample>) -> (r: (
    Plane,
    Vec<usize>,
))
    requires
        samples@.len() > 0,
        valid_plane_samples(samples@, cloud@.len()),
    ensures
        (r.0, r.1@) == plane_fit(cloud@, distance_threshold as int, samples@),
{
    proof {
        use_type_invariant(cloud);
    }
    let ghost t = distance_threshold as int;
    let ghost ranks = plane_rankings(cloud@, t, samples@);
    let (mut best, mut best_inliers) = plane_hypothesis(cloud, distance_threshold, samples[0]);
    let ghost mut bi: int = 0;
    let mut k: usize = 1;
    while k < samples.len()
        invariant
            t == distance_threshold as int,
            ranks == plane_rankings(cloud@, t, samples@),
            cloud.wf(),
            valid_plane_samples(samples@, cloud@.len()),
            1 <= k <= samples@.len(),
            0 <= bi < k,
            bi == first_best(ranks.take(k as int)),
            (best, best_inliers@) == plane_hypothesis_of(cloud@, t, samples@[bi]),
        decreases samples@.len() - k,
    {
        let (h, inl) = plane_hypothesis(cloud, distance_threshold, samples[k]);
        assert(ranks.take(k + 1).drop_last() == ranks.take(k as int));
        if h.ranking > best.ranking {
            best = h;
            best_inliers = inl;
            proof {
                bi = k as int;
            }
        }
        k += 1;
    }
    assert(ranks.take(k as int) == ranks);
    (best, best_inliers)
}

/// RANSAC line fit over given samples, one after another: each sample is
/// scored in turn, and a hypothesis replaces the best so far only when its
/// ranking is strictly greater.
pub fn ransac_line_serial(cloud: &PointCloud, distance_threshold: u32, samples: &Vec<LineSample>) -> (r: (
    Line,
    Vec<usize>,
))
    requires
        samples@.len() > 0,
        valid_line_samples(samples@, cloud@.len()),
    ensures
        (r.0, r.1@) == line_fit(cloud@, distance_threshold as int, samples@),
{
    proof {
        use_type_invariant(cloud);
    }
    let ghost t = distance_threshold as int;
    let ghost ranks = line_rankings(cloud@, t, samples@);
    let (mut best, mut best_inliers) = line_hypothesis(cloud, distance_threshold, samples[0]);
    let ghost mut bi: int = 0;
    let mut k: usize = 1;
    while k < samples.len()
        invariant
            t == distance_threshold as int,
            ranks == line_rankings(cloud@, t, samples@),
            cloud.wf(),
            valid_line_samples(samples@, cloud@.len()),
            1 <= k <= samples@.len(),
            0 <= bi < k,
            bi == first_best(ranks.take(k as int)),
            (best, best_inliers@) == line_hypothesis_of(cloud@, t, samples@[bi]),
        decreases samples@.len() - k,
    {
        let (h, inl) = line_hypothesis(cloud, distance_threshold, samples[k]);
        assert(ranks.take(k + 1).drop_last() == ranks.take(k as int));
        if h.ranking > best.ranking {
            best = h;
            best_inliers = inl;
            proof {
                bi = k as int;
            }
        }
        k += 1;
    }
    assert(ranks.take(k as int) == ranks);
    (best, best_inliers)
}

/// The position of the first greatest ranking.
pub fn first_best_index(ranks: &Vec<usize>) -> (r: usize)
    requires
        ranks@.len() > 0,
    ensures
        r == first_best(ranks@),
        r < ranks@.len(),
{
    let mut best: usize = 0;
    let mut k: usize = 1;
    while k < ranks.len()
        invariant
            1 <= k <= ranks@.len(),
            best < k,
            best == first_best(ranks@.take(k as int)),
        decreases ranks@.len() - k,
    {
        assert(ranks@.take(k + 1).drop_last() == ranks@.take(k as int));
        if ranks[k] > ranks[best] {
            best = k;
        }
        k += 1;
    }
    assert(ranks@.take(k as int) == ranks@);
    best
}

/// Relies on rayon: an indexed parallel map over the samples, gathered by
/// `collect_into_vec`, which keeps the order of the input. Each task is the
/// verified `plane_hypothesis`, so each entry is its result.
#[verifier::external_body]
fn score_planes_in_parallel(
    cloud: &PointCloud,
    distance_threshold: u32,
    samples: &Vec<PlaneSample>,
) -> (r: Vec<(Plane, Vec<usize>)>)
    requires
        cloud.wf(),
        valid_plane_samples(samples@, cloud@.len()),
    ensures
        r@.len() == samples@.len(),
        forall|i: int|
            0 <= i < r@.len() ==> (#[trigger] r@[i].0, r@[i].1@) == plane_hypothesis_of(
                cloud@,
                distance_threshold as int,
                samples@[i],
            ),
{
    let mut out = Vec::new();
    samples.par_iter().map(|s| plane_hypothesis(cloud, distance_threshold, *s)).collect_into_vec(
        &mut out,
    );
    out
}

/// Relies on rayon: an indexed parallel map over the samples, gathered by
/// `collect_into_vec`, which keeps the order of the input. Each task is the
/// verified `line_hypothesis`, so each entry is its result.
#[verifier::external_body]
fn score_lines_in_parallel(
    cloud: &PointCloud,
    distance_threshold: u32,
    samples: &Vec<LineSample>,
) -> (r: Vec<(Line, Vec<usize>)>)
    requires
        cloud.wf(),
        valid_line_samples(samples@, cloud@.len()),
    ensures
        r@.len() == samples@.len(),
        forall|i: int|
            0 <= i < r@.len() ==> (#[trigger] r@[i].0, r@[i].1@) == line_hypothesis_of(
                cloud@,
                distance_threshold as int,
                samples@[i],
            ),
{
    let mut out = Vec::new();
    samples.par_iter().map(|s| line_hypothesis(cloud, distance_threshold, *s)).collect_into_vec(
        &mut out,
    );
    out
}

/// RANSAC plane fit over given samples, scored as independent parallel tasks
/// and reduced by the first greatest ranking; the outcome is that of
/// `ransac_plane_serial`.
pub fn ransac_plane_par(cloud: &PointCloud, distance_threshold: u32, samples: &Vec<PlaneSample>) -> (r: (
    Plane,
    Vec<usize>,
))
    requires
        samples@.len() > 0,
        valid_plane_samples(samples@, cloud@.len()),
    ensures
        (r.0, r.1@) == plane_fit(cloud@, distance_threshold as int, samples@),
{
    proof {
        use_type_invariant(cloud);
    }
    let ghost t = distance_threshold as int;
    let mut scored = score_planes_in_parallel(cloud, distance_threshold, samples);
    let mut ranks: Vec<usize> = Vec::new();
    let mut i: usize = 0;
    while i < scored.len()
        invariant
            t == distance_threshold as int,
            scored@.len() == samples@.len(),
            forall|j: int|
                0 <= j < scored@.len() ==> (#[trigger] scored@[j].0, scored@[j].1@)
                    == plane_hypothesis_of(cloud@, t, samples@[j]),
            i <= scored@.len(),
            ranks@ == plane_rankings(cloud@, t, samples@).take(i as int),
        decreases scored@.len() - i,
    {
        assert(scored@[i as int].0 == plane_hypothesis_of(cloud@, t, samples@[i as int]).0);
        ranks.push(scored[i].0.ranking);
        assert(ranks@ == plane_rankings(cloud@, t, samples@).take(i + 1));
        i += 1;
    }
    assert(ranks@ == plane_rankings(cloud@, t, samples@));
    let b = first_best_index(&ranks);
    assert((scored@[b as int].0, scored@[b as int].1@) == plane_hypothesis_of(cloud@, t, samples@[b as int]));
    scored.swap_remove(b)
}

/// RANSAC line fit over given samples, scored as independent parallel tasks
/// and reduced by the first greatest ranking; the outcome is that of
/// `ransac_line_serial`.
pub fn ransac_line_par(cloud: &PointCloud, distance_threshold: u32, samples: &Vec<LineSample>) -> (r: (
    Line,
    Vec<usize>,
))
    requires
        samples@.len() > 0,
        valid_line_samples(samples@, cloud@.len()),
    ensures
        (r.0, r.1@) == line_fit(cloud@, distance_threshold as int, samples@),
{
    proof {
        use_type_invariant(cloud);
    }
    let ghost t = distance_threshold as int;
    let mut scored = score_lines_in_parallel(cloud, distance_threshold, samples);
    let mut ranks: Vec<usize> = Vec::new();
    let mut i: usize = 0;
    while i < scored.len()
        invariant
            t == distance_threshold as int,
            scored@.len() == samples@.len(),
            forall|j: int|
                0 <= j < scored@.len() ==> (#[trigger] scored@[j].0, scored@[j].1@)
                    == line_hypothesis_of(cloud@, t, samples@[j]),
            i <= scored@.len(),
            ranks@ == line_rankings(cloud@, t, samples@).take(i as int),
        decreases scored@.len() - i,
    {
        assert(scored@[i as int].0 == line_hypothesis_of(cloud@, t, samples@[i as int]).0);
        ranks.push(scored[i].0.ranking);
        assert(ranks@ == line_rankings(cloud@, t, samples@).take(i + 1));
        i += 1;
    }
    assert(ranks@ == line_rankings(cloud@, t, samples@));
    let b = first_best_index(&ranks);
    assert((scored@[b as int].0, scored@[b as int].1@) == line_hypothesis_of(cloud@, t, samples@[b as int]));
    scored.swap_remove(b)
}

/// The error of a fit's inputs, checked in this order: a zero threshold, no
/// iteration, fewer points than one sample needs.
pub open spec fn input_error(distance_threshold: u32, iterations: nat, n: nat, min_points: nat) -> Option<
    SegmentationError,
> {
    if distance_threshold == 0 {
        Some(SegmentationError::ThresholdNotPositive)
    } else if iterations == 0 {
        Some(SegmentationError::NoIterations)
    } else if n < min_points {
        Some(SegmentationError::TooFewPoints)
    } else {
        None
    }
}

fn check_inputs(distance_threshold: u32, iterations: usize, n: usize, min_points: usize) -> (r: Option<
    SegmentationError,
>)
    ensures
        r == input_error(distance_threshold, iterations as nat, n as nat, min_points as nat),
{
    if distance_threshold == 0 {
        Some(SegmentationError::ThresholdNotPositive)
    } else if iterations == 0 {
        Some(SegmentationError::NoIterations)
    } else if n < min_points {
        Some(SegmentationError::TooFewPoints)
    } else {
        None
    }
}

/// The position of the first plane sample that is not valid for `n` points.
fn first_invalid_plane_sample(samples: &Vec<PlaneSample>, n: usize) -> (r: Option<usize>)
    ensures
        r is None <==> valid_plane_samples(samples@, n as nat),
        r matches Some(i) ==> i < samples@.len() && !valid_plane_sample(samples@[i as int], n as nat)
            && valid_plane_samples(samples@.take(i as int), n as nat),
{
    let mut k: usize = 0;
    while k < samples.len()
        invariant
            k <= samples@.len(),
            valid_plane_samples(samples@.take(k as int), n as nat),
        decreases samples@.len() - k,
    {
        let (a, b, c) = samples[k];
        if !(a < n && b < n && c < n && a != b && a != c && b != c) {
            assert(!valid_plane_sample(samples@[k as int], n as nat));
            return Some(k);
        }
        assert(samples@.take(k + 1) == samples@.take(k as int).push(samples@[k as int]));
        k += 1;
    }
    assert(samples@.take(k as int) == samples@);
    None
}

/// The position of the first line sample that is not valid for `n` points.
fn first_invalid_line_sample(samples: &Vec<LineSample>, n: usize) -> (r: Option<usize>)
    ensures
        r is None <==> valid_line_samples(samples@, n as nat),
        r matches Some(i) ==> i < samples@.len() && !valid_line_sample(samples@[i as int], n as nat)
            && valid_line_samples(samples@.take(i as int), n as nat),
{
    let mut k: usize = 0;
    while k < samples.len()
        invariant
            k <= samples@.len(),
            valid_line_samples(samples@.take(k as int), n as nat),
        decreases samples@.len() - k,
    {
        let (a, b) = samples[k];
        if !(a < n && b < n && a != b) {
            assert(!valid_line_sample(samples@[k as int], n as nat));
            return Some(k);
        }
        assert(samples@.take(k + 1) == samples@.take(k as int).push(samples@[k as int]));
        k += 1;
    }
    assert(samples@.take(k as int) == samples@);
    None
}

/// RANSAC plane segmentation over samples drawn beforehand. Returns the
/// first plane with the most inliers, and the indices of those inliers; the
/// parallel and the serial path give the same outcome.
pub fn ransac_plane_from_samples(
    cloud: &PointCloud,
    distance_threshold: u32,
    samples: &Vec<PlaneSample>,
    parallel: bool,
) -> (r: Result<(Plane, Vec<usize>), SegmentationError>)
    ensures
        match input_error(distance_threshold, samples@.len(), cloud@.len(), 3) {
            Some(e) => r == Err::<(Plane, Vec<usize>), SegmentationError>(e),
            None => match r {
                Ok(res) => valid_plane_samples(samples@, cloud@.len()) && (res.0, res.1@)
                    == plane_fit(cloud@, distance_threshold as int, samples@),
                Err(e) => exists|i: int|
                    0 <= i < samples@.len() && e == SegmentationError::InvalidSample(i as usize)
                        && !valid_plane_sample(#[trigger] samples@[i], cloud@.len())
                        && valid_plane_samples(samples@.take(i), cloud@.len()),
            },
        },
        r is Ok ==> r->Ok_0.0.ranking <= cloud@.len(),
{
    proof {
        use_type_invariant(cloud);
    }
    if let Some(e) = check_inputs(distance_threshold, samples.len(), cloud.len(), 3) {
        return Err(e);
    }
    if let Some(i) = first_invalid_plane_sample(samples, cloud.len()) {
        return Err(SegmentationError::InvalidSample(i));
    }
    let res = if parallel {
        ransac_plane_par(cloud, distance_threshold, samples)
    } else {
        ransac_plane_serial(cloud, distance_threshold, samples)
    };
    proof {
        lemma_plane_fit_ranking(cloud@, distance_threshold as int, samples@);
    }
    Ok(res)
}

/// RANSAC line segmentation over samples drawn beforehand. Returns the first
/// line with the most inliers, and the indices of those inliers; the
/// parallel and the serial path give the same outcome.
pub fn ransac_line_from_samples(
    cloud: &PointCloud,
    distance_threshold: u32,
    samples: &Vec<LineSample>,
    parallel: bool,
) -> (r: Result<(Line, Vec<usize>), SegmentationError>)
    ensures
        match input_error(distance_threshold, samples@.len(), cloud@.len(), 2) {
            Some(e) => r == Err::<(Line, Vec<usize>), SegmentationError>(e),
            None => match r {
                Ok(res) => valid_line_samples(samples@, cloud@.len()) && (res.0, res.1@)
                    == line_fit(cloud@, distance_threshold as int, samples@),
                Err(e) => exists|i: int|
                    0 <= i < samples@.len() && e == SegmentationError::InvalidSample(i as usize)
                        && !valid_line_sample(#[trigger] samples@[i], cloud@.len())
                        && valid_line_samples(samples@.take(i), cloud@.len()),
            },
        },
        r is Ok ==> r->Ok_0.0.ranking <= cloud@.len(),
{
    proof {
        use_type_invariant(cloud);
    }
    if let Some(e) = check_inputs(distance_threshold, samples.len(), cloud.len(), 2) {
        return Err(e);
    }
    if let Some(i) = first_invalid_line_sample(samples, cloud.len()) {
        return Err(SegmentationError::InvalidSample(i));
    }
    let res = if parallel {
        ransac_line_par(cloud, distance_threshold, samples)
    } else {
        ransac_line_serial(cloud, distance_threshold, samples)
    };
    proof {
        lemma_line_fit_ranking(cloud@, distance_threshold as int, samples@);
    }
    Ok(res)
}

/// The ranking of a fitted plane is the length of its inlier list, and so
/// at most the number of points.
pub proof fn lemma_plane_fit_ranking(pts: Seq<Position>, t: int, samples: Seq<PlaneSample>)
    requires
        pts.len() <= usize::MAX,
        samples.len() > 0,
        valid_plane_samples(samples, pts.len()),
    ensures
        plane_fit(pts, t, samples).0.ranking == plane_fit(pts, t, samples).1.len(),
        plane_fit(pts, t, samples).0.ranking <= pts.len(),
{
    let b = first_best(plane_rankings(pts, t, samples));
    lemma_first_best(plane_rankings(pts, t, samples));
    lemma_plane_inliers(sample_plane(pts, samples[b]), pts, t, pts.len());
}

/// The ranking of a fitted line is the length of its inlier list, and so at
/// most the number of points.
pub proof fn lemma_line_fit_ranking(pts: Seq<Position>, t: int, samples: Seq<LineSample>)
    requires
        pts.len() <= usize::MAX,
        samples.len() > 0,
        valid_line_samples(samples, pts.len()),
    ensures
        line_fit(pts, t, samples).0.ranking == line_fit(pts, t, samples).1.len(),
        line_fit(pts, t, samples).0.ranking <= pts.len(),
{
    let b = first_best(line_rankings(pts, t, samples));
    lemma_first_best(line_rankings(pts, t, samples));
    lemma_line_inliers(sample_line(pts, samples[b]), pts, t, pts.len());
}

/// RANSAC plane segmentation: `num_of_iterations` planes through three
/// distinct points drawn from the stream that `seed` fixes. Returns the first
/// plane with the most inliers, and the indices of those inliers.
pub fn ransac_plane(
    cloud: &PointCloud,
    distance_threshold: u32,
    num_of_iterations: usize,
    parallel: bool,
    seed: u64,
) -> (r: Result<(Plane, Vec<usize>), SegmentationError>)
    ensures
        match input_error(distance_threshold, num_of_iterations as nat, cloud@.len(), 3) {
            Some(e) => r == Err::<(Plane, Vec<usize>), SegmentationError>(e),
            None => match r {
                Ok(res) => exists|samples: Seq<PlaneSample>|
                    samples.len() == num_of_iterations && valid_plane_samples(samples, cloud@.len())
                        && #[trigger] plane_fit(cloud@, distance_threshold as int, samples) == (
                        res.0,
                        res.1@,
                    ),
                Err(_) => false,
            },
        },
        r is Ok ==> r->Ok_0.0.ranking <= cloud@.len(),
{
    proof {
        use_type_invariant(cloud);
    }
    if let Some(e) = check_inputs(distance_threshold, num_of_iterations, cloud.len(), 3) {
        return Err(e);
    }
    let samples = draw_plane_samples(seed, cloud.len(), num_of_iterations);
    ransac_plane_from_samples(cloud, distance_threshold, &samples, parallel)
}

/// RANSAC line segmentation: `num_of_iterations` lines through two distinct
/// points drawn from the stream that `seed` fixes. Returns the first line
/// with the most inliers, and the indices of those inliers.
pub fn ransac_line(
    cloud: &PointCloud,
    distance_threshold: u32,
    num_of_iterations: usize,
    parallel: bool,
    seed: u64,
) -> (r: Result<(Line, Vec<usize>), SegmentationError>)
    ensures
        match input_error(distance_threshold, num_of_iterations as nat, cloud@.len(), 2) {
            Some(e) => r == Err::<(Line, Vec<usize>), SegmentationError>(e),
            None => match r {
                Ok(res) => exists|samples: Seq<LineSample>|
                    samples.len() == num_of_iterations && valid_line_samples(samples, cloud@.len())
                        && #[trigger] line_fit(cloud@, distance_threshold as int, samples) == (
                        res.0,
                        res.1@,
                    ),
                Err(_) => false,
            },
        },
        r is Ok ==> r->Ok_0.0.ranking <= cloud@.len(),
{
    proof {
        use_type_invariant(cloud);
    }
    if let Some(e) = check_inputs(distance_threshold, num_of_iterations, cloud.len(), 2) {
        return Err(e);
    }
    let samples = draw_line_samples(seed, cloud.len(), num_of_iterations);
    ransac_line_from_samples(cloud, distance_threshold, &samples, parallel)
}

/// Inliers depend on a plane's coefficients alone, not on its ranking.
proof fn lemma_plane_inliers_ignore_ranking(pa: Plane, pb: Plane, pts: Seq<Position>, t: int, k: nat)
    requires
        pa.a == pb.a && pa.b == pb.b && pa.c == pb.c && pa.d == pb.d,
    ensures
        plane_inliers(pa, pts, t, k) == plane_inliers(pb, pts, t, k),
        count_plane_inliers(pa, pts, t, k) == count_plane_inliers(pb, pts, t, k),
    decreases k,
{
    if k > 0 {
        lemma_plane_inliers_ignore_ranking(pa, pb, pts, t, (k - 1) as nat);
    }
}

/// Inliers depend on a line's two points alone, not on its ranking.
proof fn lemma_line_inliers_ignore_ranking(la: Line, lb: Line, pts: Seq<Position>, t: int, k: nat)
    requires
        la.first == lb.first && la.second == lb.second,
    ensures
        line_inliers(la, pts, t, k) == line_inliers(lb, pts, t, k),
        count_line_inliers(la, pts, t, k) == count_line_inliers(lb, pts, t, k),
    decreases k,
{
    if k > 0 {
        lemma_line_inliers_ignore_ranking(la, lb, pts, t, (k - 1) as nat);
    }
}

/// The inliers of a fitted plane are exactly the points whose distance to
/// the returned plane is below the threshold: ascending, each once, and as
/// many as a fresh count over the cloud finds for that plane.
pub proof fn lemma_plane_fit_inliers(pts: Seq<Position>, t: int, samples: Seq<PlaneSample>)
    requires
        pts.len() <= usize::MAX,
        samples.len() > 0,
        valid_plane_samples(samples, pts.len()),
    ensures
        plane_fit(pts, t, samples).1.len() == count_plane_inliers(plane_fit(pts, t, samples).0, pts, t, pts.len()),
        forall|i: usize|
            #[trigger] plane_fit(pts, t, samples).1.contains(i) <==> (i < pts.len() && plane_inlier(
                plane_fit(pts, t, samples).0,
                pts[i as int],
                t,
            )),
        forall|a: int, b: int|
            0 <= a < b < plane_fit(pts, t, samples).1.len() ==> plane_fit(pts, t, samples).1[a]
                < plane_fit(pts, t, samples).1[b],
{
    let b = first_best(plane_rankings(pts, t, samples));
    lemma_first_best(plane_rankings(pts, t, samples));
    let base = sample_plane(pts, samples[b]);
    let fitted = plane_fit(pts, t, samples).0;
    lemma_plane_inliers(base, pts, t, pts.len());
    lemma_plane_inliers_ignore_ranking(base, fitted, pts, t, pts.len());
    let inl = plane_fit(pts, t, samples).1;
    assert forall|i: usize| #[trigger] inl.contains(i) implies i < pts.len() && plane_inlier(fitted, pts[i as int], t) by {
        let m = choose|m: int| 0 <= m < inl.len() && inl[m] == i;
    }
}

/// The inliers of a fitted line are exactly the points whose distance to
/// the returned line is below the threshold: ascending, each once, and as
/// many as a fresh count over the cloud finds for that line.
pub proof fn lemma_line_fit_inliers(pts: Seq<Position>, t: int, samples: Seq<LineSample>)
    requires
        pts.len() <= usize::MAX,
        samples.len() > 0,
        valid_line_samples(samples, pts.len()),
    ensures
        line_fit(pts, t, samples).1.len() == count_line_inliers(line_fit(pts, t, samples).0, pts, t, pts.len()),
        forall|i: usize|
            #[trigger] line_fit(pts, t, samples).1.contains(i) <==> (i < pts.len() && line_inlier(
                line_fit(pts, t, samples).0,
                pts[i as int],
                t,
            )),
        forall|a: int, b: int|
            0 <= a < b < line_fit(pts, t, samples).1.len() ==> line_fit(pts, t, samples).1[a]
                < line_fit(pts, t, samples).1[b],
{
    let b = first_best(line_rankings(pts, t, samples));
    lemma_first_best(line_rankings(pts, t, samples));
    let base = sample_line(pts, samples[b]);
    let fitted = line_fit(pts, t, samples).0;
    lemma_line_inliers(base, pts, t, pts.len());
    lemma_line_inliers_ignore_ranking(base, fitted, pts, t, pts.len());
    let inl = line_fit(pts, t, samples).1;
    assert forall|i: usize| #[trigger] inl.contains(i) implies i < pts.len() && line_inlier(fitted, pts[i as int], t) by {
        let m = choose|m: int| 0 <= m < inl.len() && inl[m] == i;
    }
}

/// A plane sample of three collinear points has a zero normal: it holds no
/// inlier and ranks zero, so it never wins over a plane that holds a point.
pub proof fn lemma_collinear_sample_ranks_zero(pts: Seq<Position>, t: int, s: PlaneSample)
    requires
        pts.len() <= usize::MAX,
        valid_plane_sample(s, pts.len()),
        vcross(
            vdiff(pos(pts[s.1 as int]), pos(pts[s.0 as int])),
            vdiff(pos(pts[s.2 as int]), pos(pts[s.0 as int])),
        ) == (0int, 0int, 0int),
    ensures
        plane_hypothesis_of(pts, t, s).0.ranking == 0,
        plane_hypothesis_of(pts, t, s).1.len() == 0,
{
    let pl = sample_plane(pts, s);
    let n = vcross(
        vdiff(pos(pts[s.1 as int]), pos(pts[s.0 as int])),
        vdiff(pos(pts[s.2 as int]), pos(pts[s.0 as int])),
    );
    assert(n.0 == 0 && n.1 == 0 && n.2 == 0);
    assert(pl.a == 0 && pl.b == 0 && pl.c == 0);
    assert(norm2(plane_normal(pl)) == 0);
    lemma_plane_inliers(pl, pts, t, pts.len());
    let inl = plane_inliers(pl, pts, t, pts.len());
    if inl.len() > 0 {
        assert(plane_inlier(pl, pts[inl[0] as int], t));
    }
}

/// A line sample whose two points coincide has a zero direction: it holds
/// no inlier and ranks zero, so it never wins over a line that holds a point.
pub proof fn lemma_coincident_sample_ranks_zero(pts: Seq<Position>, t: int, s: LineSample)
    requires
        pts.len() <= usize::MAX,
        valid_line_sample(s, pts.len()),
        pts[s.0 as int] == pts[s.1 as int],
    ensures
        line_hypothesis_of(pts, t, s).0.ranking == 0,
        line_hypothesis_of(pts, t, s).1.len() == 0,
{
    let l = sample_line(pts, s);
    assert(norm2(line_direction(l)) == 0);
    lemma_line_inliers(l, pts, t, pts.len());
    let inl = line_inliers(l, pts, t, pts.len());
    if inl.len() > 0 {
        assert(line_inlier(l, pts[inl[0] as int], t));
    }
}

/// A fit is a function of the cloud, the threshold and the drawn samples:
/// two plane fits over the same ones, serial or parallel, give the same
/// plane and the same inliers.
pub proof fn lemma_plane_fit_reproducible(
    pts: Seq<Position>,
    t: int,
    samples: Seq<PlaneSample>,
    first: (Plane, Seq<usize>),
    second: (Plane, Seq<usize>),
)
    requires
        first == plane_fit(pts, t, samples),
        second == plane_fit(pts, t, samples),
    ensures
        first == second,
{
}

/// A fit is a function of the cloud, the threshold and the drawn samples:
/// two line fits over the same ones, serial or parallel, give the same line
/// and the same inliers.
pub proof fn lemma_line_fit_reproducible(
    pts: Seq<Position>,
    t: int,
    samples: Seq<LineSample>,
    first: (Line, Seq<usize>),
    second: (Line, Seq<usize>),
)
    requires
        first == line_fit(pts, t, samples),
        second == line_fit(pts, t, samples),
    ensures
        first == second,
{
}

} // verus!
