//! Exact vector arithmetic over the integers, and the facts about it that the
//! distance tests rely on.
use vstd::prelude::*;
use vstd::arithmetic::div_mod::{lemma_fundamental_div_mod, lemma_mod_pos_bound};
use crate::point_cloud::{Position, in_bounds};

verus! {

/// A vector with integer components.
pub type V3 = (int, int, int);

/// The vector of a position.
pub open spec fn pos(p: Position) -> V3 {
    (p.x as int, p.y as int, p.z as int)
}

pub open spec fn vdiff(a: V3, b: V3) -> V3 {
    (a.0 - b.0, a.1 - b.1, a.2 - b.2)
}

pub open spec fn vdot(a: V3, b: V3) -> int {
    a.0 * b.0 + a.1 * b.1 + a.2 * b.2
}

pub open spec fn vcross(a: V3, b: V3) -> V3 {
    (a.1 * b.2 - a.2 * b.1, a.2 * b.0 - a.0 * b.2, a.0 * b.1 - a.1 * b.0)
}

/// The squared length of a vector.
pub open spec fn norm2(a: V3) -> int {
    vdot(a, a)
}

/// Squared Euclidean distance between two positions.
pub open spec fn dist2(p: Position, q: Position) -> int {
    norm2(vdiff(pos(p), pos(q)))
}

/// Whether every component of `a` has magnitude at most `m`.
pub open spec fn v_bounded(a: V3, m: int) -> bool {
    &&& -m <= a.0 <= m
    &&& -m <= a.1 <= m
    &&& -m <= a.2 <= m
}

/// For a non-negative `a` and a positive `m`, `a < k * m` holds exactly when
/// the integer quotient `a / m` is below `k`.
pub proof fn lemma_lt_mul_iff_div_lt(a: int, m: int, k: int)
    requires
        a >= 0,
        m > 0,
    ensures
        (a < k * m) == (a / m < k),
{
    lemma_fundamental_div_mod(a, m);
    lemma_mod_pos_bound(a, m);
    let q = a / m;
    let r = a % m;
    if q < k {
        assert(q + 1 <= k);
        assert(m * (q + 1) <= m * k) by (nonlinear_arith)
            requires
                q + 1 <= k,
                m > 0,
        ;
        assert(a < k * m) by (nonlinear_arith)
            requires
                a == m * q + r,
                r < m,
                m * (q + 1) <= m * k,
        ;
    } else {
        assert(m * q >= m * k) by (nonlinear_arith)
            requires
                q >= k,
                m > 0,
        ;
        assert(a >= k * m) by (nonlinear_arith)
            requires
                a == m * q + r,
                r >= 0,
                m * q >= m * k,
        ;
    }
}

/// A product is bounded by the product of its factors' bounds.
pub proof fn lemma_mul_bounded(a: int, b: int, ma: int, mb: int)
    requires
        -ma <= a <= ma,
        -mb <= b <= mb,
    ensures
        -(ma * mb) <= a * b <= ma * mb,
        0 <= a * a <= ma * ma,
{
    assert(-(ma * mb) <= a * b <= ma * mb) by (nonlinear_arith)
        requires
            -ma <= a <= ma,
            -mb <= b <= mb,
    ;
    assert(0 <= a * a <= ma * ma) by (nonlinear_arith)
        requires
            -ma <= a <= ma,
    ;
}

/// The difference of two positions within bounds has components of magnitude
/// at most `2^20`.
pub proof fn lemma_diff_bounded(p: Position, q: Position)
    requires
        in_bounds(p),
        in_bounds(q),
    ensures
        v_bounded(vdiff(pos(p), pos(q)), 0x10_0000),
{
}

/// A squared norm is never negative, and is zero exactly for the zero vector.
pub proof fn lemma_norm2_nonneg(a: V3)
    ensures
        norm2(a) >= 0,
        norm2(a) == 0 <==> (a.0 == 0 && a.1 == 0 && a.2 == 0),
{
    assert(a.0 * a.0 >= 0 && a.1 * a.1 >= 0 && a.2 * a.2 >= 0) by (nonlinear_arith);
    if a.0 != 0 {
        assert(a.0 * a.0 > 0) by (nonlinear_arith)
            requires
                a.0 != 0,
        ;
    }
    if a.1 != 0 {
        assert(a.1 * a.1 > 0) by (nonlinear_arith)
            requires
                a.1 != 0,
        ;
    }
    if a.2 != 0 {
        assert(a.2 * a.2 > 0) by (nonlinear_arith)
            requires
                a.2 != 0,
        ;
    }
}

/// Squared distance does not depend on the order of the two positions.
pub proof fn lemma_dist2_symmetric(p: Position, q: Position)
    ensures
        dist2(p, q) == dist2(q, p),
        dist2(p, q) == norm2(vdiff(pos(p), pos(q))),
{
    assert(dist2(p, q) == dist2(q, p)) by (nonlinear_arith);
}

} // verus!
