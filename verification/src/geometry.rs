//! Geometry simplification: reduction of an ordered point sequence to a
//! sparser one within a tolerance, by the recursive farthest-point method.
//!
//! Coordinates are integers (pixel positions), so the tolerance test
//! "perpendicular distance exceeds eps" is decided exactly: for a chord with
//! squared length `L > 0` and a point with cross value `c`, the distance
//! exceeds `eps` if and only if `c*c > eps*eps*L`. A chord whose endpoints
//! coincide has `L == 0`; the distance then falls back to the straight
//! Euclidean distance to the shared endpoint, so the degenerate case is
//! well defined rather than a division by zero.

use vstd::prelude::*;

verus! {

/// Largest coordinate magnitude (and tolerance) accepted by the executable
/// routines, chosen so that every squared quantity fits in `i128`.
pub const COORD_LIMIT: i64 = 0x4000_0000;

/// A 2D point with integer coordinates.
#[derive(Clone, Copy, PartialEq, Eq, Structural, Debug)]
pub struct Point {
    pub x: i64,
    pub y: i64,
}

pub open spec fn in_range(p: Point) -> bool {
    &&& -COORD_LIMIT <= p.x <= COORD_LIMIT
    &&& -COORD_LIMIT <= p.y <= COORD_LIMIT
}

/// Squared length of the chord from `a` to `b`.
pub open spec fn chord_len2(a: Point, b: Point) -> int {
    (b.x - a.x) * (b.x - a.x) + (b.y - a.y) * (b.y - a.y)
}

/// Numerator of the point-to-line distance formula (up to sign):
/// `(y2-y1)*x - (x2-x1)*y + x2*y1 - y2*x1`.
pub open spec fn cross_val(p: Point, a: Point, b: Point) -> int {
    (b.y - a.y) * p.x - (b.x - a.x) * p.y + b.x * a.y - b.y * a.x
}

/// Squared Euclidean distance between `p` and `a`.
pub open spec fn dist2(p: Point, a: Point) -> int {
    (p.x - a.x) * (p.x - a.x) + (p.y - a.y) * (p.y - a.y)
}

/// Order-preserving stand-in for the perpendicular distance of `p` to the
/// chord `a..b`: comparisons of `measure` values (for one fixed chord) agree
/// with comparisons of the real distances.
pub open spec fn measure(p: Point, a: Point, b: Point) -> int {
    if chord_len2(a, b) == 0 {
        dist2(p, a)
    } else {
        cross_val(p, a, b) * cross_val(p, a, b)
    }
}

/// The value that `measure` must exceed for the distance to exceed `eps`.
pub open spec fn threshold(a: Point, b: Point, eps: int) -> int {
    if chord_len2(a, b) == 0 {
        eps * eps
    } else {
        eps * eps * chord_len2(a, b)
    }
}

/// Scan of the interior points `s[i..len-1]` for the first point of maximal
/// `measure` against the chord `s[0]..s[len-1]`, carrying the best index and
/// measure found so far. The scan starts with `(0, 0)`, so a sequence whose
/// interior points all sit on the chord reports index 0 and measure 0.
pub open spec fn argmax_from(s: Seq<Point>, i: int, idx: int, m: int) -> (int, int)
    decreases s.len() - i,
{
    if i < 1 || i >= s.len() - 1 {
        (idx, m)
    } else {
        let mi = measure(s[i], s[0], s[s.len() - 1]);
        if mi > m {
            argmax_from(s, i + 1, i, mi)
        } else {
            argmax_from(s, i + 1, idx, m)
        }
    }
}

/// The simplified form of `s` under tolerance `eps`: if the farthest interior
/// point lies beyond the tolerance, split there and merge the two halves
/// (dropping the shared joint point once); otherwise collapse the whole range
/// to its two endpoints. A sequence shorter than 2 simplifies to nothing.
pub open spec fn rdp_spec(s: Seq<Point>, eps: int) -> Seq<Point>
    decreases s.len(),
{
    if s.len() < 2 {
        Seq::empty()
    } else {
        let am = argmax_from(s, 1, 0, 0);
        if am.1 > threshold(s[0], s[s.len() - 1], eps) && 1 <= am.0 && am.0 < s.len() - 1 {
            rdp_spec(s.subrange(0, am.0 + 1), eps).drop_last()
                + rdp_spec(s.subrange(am.0, s.len() as int), eps)
        } else {
            seq![s[0], s[s.len() - 1]]
        }
    }
}

proof fn lemma_sq_nonneg(x: int)
    by (nonlinear_arith)
    ensures
        x * x >= 0,
{
}

proof fn lemma_mul_nonneg(x: int, y: int)
    by (nonlinear_arith)
    requires
        x >= 0,
        y >= 0,
    ensures
        x * y >= 0,
{
}

proof fn lemma_mul_bounds(x: int, y: int, bx: int, by: int)
    by (nonlinear_arith)
    requires
        -bx <= x <= bx,
        -by <= y <= by,
        0 <= bx,
        0 <= by,
    ensures
        -(bx * by) <= x * y <= bx * by,
{
}

proof fn lemma_measure_nonneg(p: Point, a: Point, b: Point)
    ensures
        measure(p, a, b) >= 0,
{
    lemma_sq_nonneg(p.x - a.x);
    lemma_sq_nonneg(p.y - a.y);
    lemma_sq_nonneg(cross_val(p, a, b));
}

proof fn lemma_chord_len2_nonneg(a: Point, b: Point)
    ensures
        chord_len2(a, b) >= 0,
{
    lemma_sq_nonneg(b.x - a.x);
    lemma_sq_nonneg(b.y - a.y);
}

proof fn lemma_threshold_nonneg(a: Point, b: Point, eps: int)
    ensures
        threshold(a, b, eps) >= 0,
{
    lemma_sq_nonneg(eps);
    lemma_chord_len2_nonneg(a, b);
    lemma_mul_nonneg(eps * eps, chord_len2(a, b));
}

/// What the interior scan reports: the maximum measure over the interior,
/// attained first at the reported index (index 0 with measure 0 standing for
/// "no interior point left the chord").
proof fn lemma_argmax_from(s: Seq<Point>, i: int, idx: int, m: int)
    requires
        s.len() >= 2,
        1 <= i <= s.len() - 1,
        0 <= m,
        (idx == 0 && m == 0) || (1 <= idx && idx < i && measure(s[idx], s[0], s[s.len() - 1])
            == m),
        forall|k: int| 1 <= k < i ==> #[trigger] measure(s[k], s[0], s[s.len() - 1]) <= m,
        forall|k: int| 1 <= k < idx ==> #[trigger] measure(s[k], s[0], s[s.len() - 1]) < m,
    ensures
        ({
            let am = argmax_from(s, i, idx, m);
            &&& am.1 >= m
            &&& (am.0 == 0 && am.1 == 0) || (1 <= am.0 && am.0 < s.len() - 1 && measure(
                s[am.0],
                s[0],
                s[s.len() - 1],
            ) == am.1)
            &&& forall|k: int| 1 <= k < s.len() - 1 ==> #[trigger] measure(
                s[k],
                s[0],
                s[s.len() - 1],
            ) <= am.1
            &&& forall|k: int| 1 <= k < am.0 ==> #[trigger] measure(s[k], s[0], s[s.len() - 1])
                < am.1
        }),
    decreases s.len() - i,
{
    if i >= s.len() - 1 {
    } else {
        let mi = measure(s[i], s[0], s[s.len() - 1]);
        lemma_measure_nonneg(s[i], s[0], s[s.len() - 1]);
        if mi > m {
            lemma_argmax_from(s, i + 1, i, mi);
        } else {
            lemma_argmax_from(s, i + 1, idx, m);
        }
    }
}

/// The simplified sequence keeps the endpoints of its input, never grows, and
/// always holds at least the two endpoints.
pub proof fn lemma_rdp_spec_shape(s: Seq<Point>, eps: int)
    requires
        s.len() >= 2,
    ensures
        ({
            let r = rdp_spec(s, eps);
            &&& 2 <= r.len() <= s.len()
            &&& r[0] == s[0]
            &&& r[r.len() - 1] == s[s.len() - 1]
        }),
    decreases s.len(),
{
    let r = rdp_spec(s, eps);
    let am = argmax_from(s, 1, 0, 0);
    lemma_argmax_from(s, 1, 0, 0);
    if am.1 > threshold(s[0], s[s.len() - 1], eps) && 1 <= am.0 && am.0 < s.len() - 1 {
        let sl = s.subrange(0, am.0 + 1);
        let sr = s.subrange(am.0, s.len() as int);
        lemma_rdp_spec_shape(sl, eps);
        lemma_rdp_spec_shape(sr, eps);
        let rl = rdp_spec(sl, eps);
        let rr = rdp_spec(sr, eps);
        assert(r == rl.drop_last() + rr);
        assert(r[0] == rl[0]);
        assert(r[r.len() - 1] == rr[rr.len() - 1]);
    }
}

proof fn lemma_sq_lower(x: int, b: int)
    by (nonlinear_arith)
    requires
        0 <= b <= x,
    ensures
        b * b <= x * x,
{
}

proof fn lemma_mul_lower(x: int, y: int)
    by (nonlinear_arith)
    requires
        0 <= x,
        1 <= y,
    ensures
        x <= x * y,
{
}

proof fn lemma_cross_endpoints(ax: int, ay: int, bx: int, by: int)
    by (nonlinear_arith)
    ensures
        (by - ay) * ax - (bx - ax) * ay + bx * ay - by * ax == 0,
        (by - ay) * bx - (bx - ax) * by + bx * ay - by * ax == 0,
{
}

/// The chord's own endpoints sit on the chord: their measure is zero.
proof fn lemma_measure_of_endpoints(a: Point, b: Point)
    ensures
        measure(a, a, b) == 0,
        measure(b, a, b) == 0,
{
    lemma_cross_endpoints(a.x as int, a.y as int, b.x as int, b.y as int);
    assert(cross_val(a, a, b) == 0);
    assert(cross_val(b, a, b) == 0);
    assert(dist2(a, a) == 0) by {
        lemma_sq_nonneg(0);
    }
    assert(dist2(b, a) == chord_len2(a, b));
    assert(cross_val(a, a, b) * cross_val(a, a, b) == 0) by {
        lemma_sq_nonneg(0);
    }
}

/// For points within `COORD_LIMIT`, every measure is at most `9 * 2^122`.
proof fn lemma_measure_bound(p: Point, a: Point, b: Point)
    requires
        in_range(p),
        in_range(a),
        in_range(b),
    ensures
        measure(p, a, b) <= 0x2400_0000_0000_0000_0000_0000_0000_0000,
{
    if chord_len2(a, b) == 0 {
        lemma_mul_bounds(p.x - a.x, p.x - a.x, 0x8000_0000, 0x8000_0000);
        lemma_mul_bounds(p.y - a.y, p.y - a.y, 0x8000_0000, 0x8000_0000);
    } else {
        lemma_mul_bounds(b.y - a.y, p.x as int, 0x8000_0000, 0x4000_0000);
        lemma_mul_bounds(b.x - a.x, p.y as int, 0x8000_0000, 0x4000_0000);
        lemma_mul_bounds(b.x as int, a.y as int, 0x4000_0000, 0x4000_0000);
        lemma_mul_bounds(b.y as int, a.x as int, 0x4000_0000, 0x4000_0000);
        let c = cross_val(p, a, b);
        assert(-0x6000_0000_0000_0000 <= c <= 0x6000_0000_0000_0000);
        lemma_mul_bounds(c, c, 0x6000_0000_0000_0000, 0x6000_0000_0000_0000);
    }
}

/// For a tolerance of at least `2^63`, the threshold tops every measure that
/// in-range points can produce.
proof fn lemma_threshold_lower(a: Point, b: Point, eps: int)
    requires
        eps >= 0x8000_0000_0000_0000,
    ensures
        threshold(a, b, eps) >= 0x4000_0000_0000_0000_0000_0000_0000_0000,
{
    lemma_sq_lower(eps, 0x8000_0000_0000_0000);
    if chord_len2(a, b) != 0 {
        lemma_chord_len2_nonneg(a, b);
        lemma_mul_lower(eps * eps, chord_len2(a, b));
    }
}

/// With a large enough tolerance the simplifier collapses any in-range
/// sequence to exactly its two endpoints.
pub proof fn lemma_rdp_spec_collapses(s: Seq<Point>, eps: int)
    requires
        s.len() >= 2,
        forall|k: int| 0 <= k < s.len() ==> in_range(#[trigger] s[k]),
        eps >= 0x8000_0000_0000_0000,
    ensures
        rdp_spec(s, eps) == seq![s[0], s[s.len() - 1]],
{
    lemma_argmax_from(s, 1, 0, 0);
    let am = argmax_from(s, 1, 0, 0);
    lemma_threshold_lower(s[0], s[s.len() - 1], eps);
    if am.0 == 0 && am.1 == 0 {
    } else {
        lemma_measure_bound(s[am.0], s[0], s[s.len() - 1]);
    }
    assert(!(am.1 > threshold(s[0], s[s.len() - 1], eps)));
}

/// Every point of the simplified sequence is a point of the input: the
/// simplifier selects, it never invents coordinates.
pub proof fn lemma_rdp_spec_membership(s: Seq<Point>, eps: int)
    requires
        s.len() >= 2,
    ensures
        forall|k: int|
            0 <= k < rdp_spec(s, eps).len() ==> s.contains(#[trigger] rdp_spec(s, eps)[k]),
    decreases s.len(),
{
    let r = rdp_spec(s, eps);
    let am = argmax_from(s, 1, 0, 0);
    lemma_argmax_from(s, 1, 0, 0);
    if am.1 > threshold(s[0], s[s.len() - 1], eps) && 1 <= am.0 && am.0 < s.len() - 1 {
        let sl = s.subrange(0, am.0 + 1);
        let sr = s.subrange(am.0, s.len() as int);
        let rl = rdp_spec(sl, eps);
        let rr = rdp_spec(sr, eps);
        lemma_rdp_spec_membership(sl, eps);
        lemma_rdp_spec_membership(sr, eps);
        lemma_rdp_spec_shape(sl, eps);
        lemma_rdp_spec_shape(sr, eps);
        assert(r == rl.drop_last() + rr);
        assert forall|k: int| 0 <= k < r.len() implies s.contains(#[trigger] r[k]) by {
            if k < rl.len() - 1 {
                assert(r[k] == rl[k]);
                assert(sl.contains(rl[k]));
                let j = choose|j: int| 0 <= j < sl.len() && sl[j] == rl[k];
                assert(s[j] == r[k]);
            } else {
                assert(r[k] == rr[k - (rl.len() - 1)]);
                assert(sr.contains(rr[k - (rl.len() - 1)]));
                let j = choose|j: int| 0 <= j < sr.len() && sr[j] == rr[k - (rl.len() - 1)];
                assert(s[am.0 + j] == r[k]);
            }
        }
    } else {
        assert(r == seq![s[0], s[s.len() - 1]]);
        assert(s.contains(r[0])) by {
            assert(s[0] == r[0]);
        }
        assert(s.contains(r[1])) by {
            assert(s[s.len() - 1] == r[1]);
        }
    }
}

/// If the input's last point appears nowhere else in the input, it appears
/// only at the very end of the simplified sequence.
proof fn lemma_rdp_spec_last_unique(s: Seq<Point>, eps: int)
    requires
        s.len() >= 2,
        forall|i: int| 0 <= i < s.len() - 1 ==> #[trigger] s[i] != s[s.len() - 1],
    ensures
        forall|k: int|
            0 <= k < rdp_spec(s, eps).len() - 1 ==> #[trigger] rdp_spec(s, eps)[k] != s[s.len()
                - 1],
    decreases s.len(),
{
    let r = rdp_spec(s, eps);
    let am = argmax_from(s, 1, 0, 0);
    lemma_argmax_from(s, 1, 0, 0);
    if am.1 > threshold(s[0], s[s.len() - 1], eps) && 1 <= am.0 && am.0 < s.len() - 1 {
        let j = am.0;
        let sl = s.subrange(0, j + 1);
        let sr = s.subrange(j, s.len() as int);
        let rl = rdp_spec(sl, eps);
        let rr = rdp_spec(sr, eps);
        lemma_rdp_spec_shape(sl, eps);
        lemma_rdp_spec_shape(sr, eps);
        lemma_rdp_spec_membership(sl, eps);
        assert(r == rl.drop_last() + rr);
        assert forall|i: int| 0 <= i < sr.len() - 1 implies #[trigger] sr[i] != sr[sr.len()
            - 1] by {
            assert(sr[i] == s[j + i]);
            assert(sr[sr.len() - 1] == s[s.len() - 1]);
        }
        lemma_rdp_spec_last_unique(sr, eps);
        assert forall|k: int| 0 <= k < r.len() - 1 implies #[trigger] r[k] != s[s.len() - 1] by {
            if k < rl.len() - 1 {
                assert(r[k] == rl[k]);
                assert(sl.contains(rl[k]));
                let i0 = choose|i: int| 0 <= i < sl.len() && sl[i] == rl[k];
                assert(s[i0] == rl[k]);
                assert(i0 < s.len() - 1);
            } else {
                let k2 = k - (rl.len() - 1);
                assert(r[k] == rr[k2]);
                assert(k2 < rr.len() - 1);
                assert(rr[k2] != sr[sr.len() - 1]);
            }
        }
    } else {
        assert(r == seq![s[0], s[s.len() - 1]]);
        assert(r[0] == s[0]);
    }
}

/// Once the best index and measure are final, the rest of the scan keeps them.
proof fn lemma_argmax_stays(s: Seq<Point>, i: int, q: int, m: int)
    requires
        s.len() >= 2,
        1 <= i,
        0 <= q < i,
        forall|k: int| 1 <= k < s.len() - 1 ==> #[trigger] measure(s[k], s[0], s[s.len() - 1])
            <= m,
    ensures
        argmax_from(s, i, q, m) == (q, m),
    decreases s.len() - i,
{
    if i >= s.len() - 1 {
    } else {
        lemma_argmax_stays(s, i + 1, q, m);
    }
}

/// A scan that has not yet reached the first strict maximum ends at it.
proof fn lemma_argmax_pinned(s: Seq<Point>, i: int, idx: int, m: int, q: int, bigm: int)
    requires
        s.len() >= 2,
        1 <= i <= q,
        q < s.len() - 1,
        0 <= m < bigm,
        measure(s[q], s[0], s[s.len() - 1]) == bigm,
        forall|k: int| 1 <= k < s.len() - 1 ==> #[trigger] measure(s[k], s[0], s[s.len() - 1])
            <= bigm,
        forall|k: int| 1 <= k < q ==> #[trigger] measure(s[k], s[0], s[s.len() - 1]) < bigm,
    ensures
        argmax_from(s, i, idx, m) == (q, bigm),
    decreases q - i,
{
    let mi = measure(s[i], s[0], s[s.len() - 1]);
    if i == q {
        lemma_argmax_stays(s, i + 1, q, bigm);
    } else {
        assert(mi < bigm);
        if mi > m {
            lemma_argmax_pinned(s, i + 1, i, mi, q, bigm);
        } else {
            lemma_argmax_pinned(s, i + 1, idx, m, q, bigm);
        }
    }
}

/// Simplifying is idempotent: running the simplifier on its own output, with
/// the same tolerance, returns that output unchanged.
pub proof fn lemma_rdp_spec_idempotent(s: Seq<Point>, eps: int)
    requires
        s.len() >= 2,
    ensures
        rdp_spec(rdp_spec(s, eps), eps) == rdp_spec(s, eps),
    decreases s.len(),
{
    let r = rdp_spec(s, eps);
    let a = s[0];
    let b = s[s.len() - 1];
    let thr = threshold(a, b, eps);
    let am = argmax_from(s, 1, 0, 0);
    lemma_argmax_from(s, 1, 0, 0);
    lemma_rdp_spec_shape(s, eps);
    lemma_threshold_nonneg(a, b, eps);
    if am.1 > thr && 1 <= am.0 && am.0 < s.len() - 1 {
        let j = am.0;
        let bigm = am.1;
        let sl = s.subrange(0, j + 1);
        let sr = s.subrange(j, s.len() as int);
        let rl = rdp_spec(sl, eps);
        let rr = rdp_spec(sr, eps);
        lemma_rdp_spec_shape(sl, eps);
        lemma_rdp_spec_shape(sr, eps);
        lemma_rdp_spec_membership(sl, eps);
        lemma_rdp_spec_membership(sr, eps);
        assert(r == rl.drop_last() + rr);
        let q = rl.len() - 1;
        assert(1 <= q);
        assert(q < r.len() - 1);
        assert(r[q] == rr[0]);
        assert(rr[0] == sr[0] && sr[0] == s[j]);
        assert(r[0] == a && r[r.len() - 1] == b);
        assert(measure(s[j], a, b) == bigm);
        lemma_measure_of_endpoints(a, b);
        // the split point's coordinate occurs in the left half only at its end
        assert forall|i: int| 0 <= i < sl.len() - 1 implies #[trigger] sl[i] != sl[sl.len()
            - 1] by {
            if sl[i] == s[j] {
                assert(measure(s[i], a, b) == bigm);
                if i == 0 {
                    assert(measure(s[0], a, b) == 0);
                } else {
                    assert(measure(s[i], a, b) < bigm);
                }
            }
        }
        lemma_rdp_spec_last_unique(sl, eps);
        // before the split position every measure stays strictly below
        assert forall|k: int| 1 <= k < q implies #[trigger] measure(r[k], r[0], r[r.len() - 1])
            < bigm by {
            assert(r[k] == rl[k]);
            assert(sl.contains(rl[k]));
            let i0 = choose|i: int| 0 <= i < sl.len() && sl[i] == rl[k];
            assert(s[i0] == rl[k]);
            assert(rl[k] != sl[sl.len() - 1]);
            assert(i0 != j);
            if i0 == 0 {
                assert(measure(r[k], a, b) == 0);
            } else {
                assert(measure(s[i0], a, b) < bigm);
            }
        }
        // and no interior point of the output beats the split point
        assert forall|k: int| 1 <= k < r.len() - 1 implies #[trigger] measure(
            r[k],
            r[0],
            r[r.len() - 1],
        ) <= bigm by {
            if k < q {
                assert(measure(r[k], r[0], r[r.len() - 1]) < bigm);
            } else if k == q {
                assert(r[k] == s[j]);
            } else {
                let k2 = k - q;
                assert(r[k] == rr[k2]);
                assert(sr.contains(rr[k2]));
                let i0 = choose|i: int| 0 <= i < sr.len() && sr[i] == rr[k2];
                assert(s[j + i0] == rr[k2]);
                if j + i0 == s.len() - 1 {
                    assert(measure(r[k], a, b) == 0);
                } else {
                    assert(1 <= j + i0 < s.len() - 1);
                    assert(measure(s[j + i0], a, b) <= bigm);
                }
            }
        }
        assert(0 < bigm);
        assert(measure(r[q], r[0], r[r.len() - 1]) == bigm);
        lemma_argmax_pinned(r, 1, 0, 0, q, bigm);
        assert(argmax_from(r, 1, 0, 0) == (q, bigm));
        assert(threshold(r[0], r[r.len() - 1], eps) == thr);
        assert(rdp_spec(r, eps) == rdp_spec(r.subrange(0, q + 1), eps).drop_last() + rdp_spec(
            r.subrange(q, r.len() as int),
            eps,
        ));
        assert(r.subrange(0, q + 1) =~= rl);
        assert(r.subrange(q, r.len() as int) =~= rr);
        lemma_rdp_spec_idempotent(sl, eps);
        lemma_rdp_spec_idempotent(sr, eps);
        assert(rdp_spec(r, eps) == rl.drop_last() + rr);
    } else {
        assert(r == seq![a, b]);
        assert(r.len() == 2);
        assert(argmax_from(r, 1, 0, 0) == (0int, 0int));
        assert(!(0int > threshold(r[0], r[1], eps)));
        assert(rdp_spec(r, eps) == seq![r[0], r[r.len() - 1]]);
        assert(rdp_spec(r, eps) =~= r);
    }
}

/// Computes `measure(p, a, b)` exactly in `i128` arithmetic.
fn measure_exec(p: Point, a: Point, b: Point) -> (m: i128)
    requires
        in_range(p),
        in_range(a),
        in_range(b),
    ensures
        m == measure(p, a, b),
{
    let px = p.x as i128;
    let py = p.y as i128;
    let ax = a.x as i128;
    let ay = a.y as i128;
    let bx = b.x as i128;
    let by = b.y as i128;
    let dx = bx - ax;
    let dy = by - ay;
    proof {
        lemma_mul_bounds(dx as int, dx as int, 0x8000_0000, 0x8000_0000);
        lemma_mul_bounds(dy as int, dy as int, 0x8000_0000, 0x8000_0000);
    }
    let len2 = dx * dx + dy * dy;
    if len2 == 0 {
        let ex = px - ax;
        let ey = py - ay;
        proof {
            lemma_mul_bounds(ex as int, ex as int, 0x8000_0000, 0x8000_0000);
            lemma_mul_bounds(ey as int, ey as int, 0x8000_0000, 0x8000_0000);
        }
        ex * ex + ey * ey
    } else {
        proof {
            lemma_mul_bounds(dy as int, px as int, 0x8000_0000, 0x4000_0000);
            lemma_mul_bounds(dx as int, py as int, 0x8000_0000, 0x4000_0000);
            lemma_mul_bounds(bx as int, ay as int, 0x4000_0000, 0x4000_0000);
            lemma_mul_bounds(by as int, ax as int, 0x4000_0000, 0x4000_0000);
        }
        let c = dy * px - dx * py + bx * ay - by * ax;
        proof {
            lemma_mul_bounds(c as int, c as int, 0x6000_0000_0000_0000, 0x6000_0000_0000_0000);
        }
        c * c
    }
}

/// Computes `threshold(a, b, eps)` exactly in `i128` arithmetic.
fn threshold_exec(a: Point, b: Point, eps: i64) -> (t: i128)
    requires
        in_range(a),
        in_range(b),
        0 <= eps <= COORD_LIMIT,
    ensures
        t == threshold(a, b, eps as int),
{
    let ax = a.x as i128;
    let ay = a.y as i128;
    let bx = b.x as i128;
    let by = b.y as i128;
    let dx = bx - ax;
    let dy = by - ay;
    proof {
        lemma_mul_bounds(dx as int, dx as int, 0x8000_0000, 0x8000_0000);
        lemma_mul_bounds(dy as int, dy as int, 0x8000_0000, 0x8000_0000);
    }
    let len2 = dx * dx + dy * dy;
    let e = eps as i128;
    proof {
        lemma_mul_bounds(e as int, e as int, 0x4000_0000, 0x4000_0000);
    }
    let e2 = e * e;
    if len2 == 0 {
        e2
    } else {
        proof {
            lemma_mul_bounds(e2 as int, len2 as int, 0x1000_0000_0000_0000, 0x1_0000_0000_0000_0000);
        }
        e2 * len2
    }
}

/// Recursive core of the simplifier: appends the simplification of
/// `points[lo..hi]` to `simplified`.
fn rdp_recursive(points: &Vec<Point>, lo: usize, hi: usize, simplified: &mut Vec<Point>, eps: i64)
    requires
        lo <= hi,
        hi <= points@.len(),
        forall|k: int| 0 <= k < points@.len() ==> in_range(#[trigger] points@[k]),
        0 <= eps <= COORD_LIMIT,
    ensures
        final(simplified)@ == old(simplified)@ + rdp_spec(
            points@.subrange(lo as int, hi as int),
            eps as int,
        ),
    decreases hi - lo,
{
    let ghost sub = points@.subrange(lo as int, hi as int);
    if hi - lo < 2 {
        proof {
            assert(simplified@ =~= old(simplified)@ + rdp_spec(sub, eps as int));
        }
        return ;
    }
    let n = hi - lo;
    let a = points[lo];
    let b = points[hi - 1];
    let mut idx: usize = 0;
    let mut maxm: i128 = 0;
    let mut i: usize = lo + 1;
    while i < hi - 1
        invariant
            lo + 2 <= hi <= points@.len(),
            lo + 1 <= i <= hi - 1,
            n == hi - lo,
            forall|k: int| 0 <= k < points@.len() ==> in_range(#[trigger] points@[k]),
            a == points@[lo as int],
            b == points@[hi - 1],
            sub == points@.subrange(lo as int, hi as int),
            idx < i - lo,
            0 <= maxm,
            argmax_from(sub, 1, 0, 0) == argmax_from(sub, i - lo, idx as int, maxm as int),
        decreases hi - 1 - i,
    {
        let m_i = measure_exec(points[i], a, b);
        proof {
            assert(sub[i - lo] == points@[i as int]);
            assert(sub[0] == points@[lo as int]);
            assert(sub[sub.len() - 1] == points@[hi - 1]);
            assert(m_i == measure(sub[i - lo], sub[0], sub[sub.len() - 1]));
            if m_i as int > maxm as int {
                assert(argmax_from(sub, i - lo, idx as int, maxm as int) == argmax_from(
                    sub,
                    i - lo + 1,
                    i - lo,
                    m_i as int,
                ));
            } else {
                assert(argmax_from(sub, i - lo, idx as int, maxm as int) == argmax_from(
                    sub,
                    i - lo + 1,
                    idx as int,
                    maxm as int,
                ));
            }
            lemma_measure_nonneg(sub[i - lo], sub[0], sub[sub.len() - 1]);
        }
        if m_i > maxm {
            idx = i - lo;
            maxm = m_i;
        }
        i = i + 1;
    }
    let thr = threshold_exec(a, b, eps);
    proof {
        assert(argmax_from(sub, 1, 0, 0) == argmax_from(sub, n - 1, idx as int, maxm as int));
        assert(argmax_from(sub, n - 1, idx as int, maxm as int) == (idx as int, maxm as int));
        lemma_argmax_from(sub, 1, 0, 0);
        lemma_threshold_nonneg(a, b, eps as int);
        assert(sub[0] == a && sub[sub.len() - 1] == b);
    }
    if maxm > thr {
        proof {
            assert(maxm as int > 0);
            assert(1 <= idx as int && (idx as int) < sub.len() - 1);
        }
        rdp_recursive(points, lo, lo + idx + 1, simplified, eps);
        let ghost sl = points@.subrange(lo as int, lo + idx + 1);
        let ghost rl = rdp_spec(sl, eps as int);
        proof {
            lemma_rdp_spec_shape(sl, eps as int);
        }
        let _joint = simplified.pop();
        let ghost after_pop = simplified@;
        rdp_recursive(points, lo + idx, hi, simplified, eps);
        proof {
            let sr = points@.subrange(lo + idx, hi as int);
            let rr = rdp_spec(sr, eps as int);
            assert(sl =~= sub.subrange(0, idx + 1));
            assert(sr =~= sub.subrange(idx as int, sub.len() as int));
            assert(rdp_spec(sub, eps as int) == rl.drop_last() + rr);
            assert(after_pop =~= old(simplified)@ + rl.drop_last());
            assert(simplified@ =~= old(simplified)@ + rdp_spec(sub, eps as int));
        }
    } else {
        simplified.push(a);
        simplified.push(b);
        proof {
            assert(rdp_spec(sub, eps as int) == seq![sub[0], sub[sub.len() - 1]]);
            assert(simplified@ =~= old(simplified)@ + rdp_spec(sub, eps as int));
        }
    }
}

/// Simplifies an ordered point sequence under tolerance `eps`.
///
/// After the recursion the trailing point of the input is appended whenever
/// the accumulated result does not already end with it, so the output always
/// terminates in the input's last point and never carries a duplicate
/// terminator.
pub fn rdp(points: &Vec<Point>, eps: i64) -> (r: Vec<Point>)
    requires
        points@.len() >= 2,
        forall|k: int| 0 <= k < points@.len() ==> in_range(#[trigger] points@[k]),
        0 <= eps <= COORD_LIMIT,
    ensures
        r@ == rdp_spec(points@, eps as int),
{
    let mut simplified: Vec<Point> = Vec::new();
    rdp_recursive(points, 0, points.len(), &mut simplified, eps);
    proof {
        assert(points@.subrange(0, points@.len() as int) =~= points@);
        assert(simplified@ =~= rdp_spec(points@, eps as int));
        lemma_rdp_spec_shape(points@, eps as int);
    }
    let last = points[points.len() - 1];
    if simplified.len() == 0 || simplified[simplified.len() - 1] != last {
        simplified.push(last);
    }
    simplified
}

} // verus!
