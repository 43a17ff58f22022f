//! Exact fixed-point plane geometry: integer square roots, Euclidean
//! distances, orientation tests and proper-crossing tests for segments.
//!
//! Coordinates are `i64` ticks (see [`crate::SCALE`]); every function here
//! is specified exactly over the mathematical integers.

use vstd::prelude::*;

verus! {

/// `r` is the integer square root of `n`.
pub open spec fn is_sqrt(n: int, r: int) -> bool {
    0 <= r && r * r <= n && n < (r + 1) * (r + 1)
}

/// The integer square root (rounded toward zero) of a non-negative integer.
pub open spec fn sqrt_of(n: int) -> int {
    choose|r: int| #[trigger] is_sqrt(n, r)
}

proof fn lemma_sqrt_exists(n: int)
    requires
        n >= 0,
    ensures
        exists|r: int| #[trigger] is_sqrt(n, r),
    decreases n,
{
    if n == 0 {
        assert(is_sqrt(0, 0));
    } else {
        lemma_sqrt_exists(n - 1);
        let r = choose|r: int| #[trigger] is_sqrt(n - 1, r);
        if n < (r + 1) * (r + 1) {
            assert(is_sqrt(n, r));
        } else {
            assert(n == (r + 1) * (r + 1)) by (nonlinear_arith)
                requires
                    r * r <= n - 1,
                    n - 1 < (r + 1) * (r + 1),
                    n >= (r + 1) * (r + 1),
            ;
            assert(is_sqrt(n, r + 1)) by (nonlinear_arith)
                requires
                    r >= 0,
                    n == (r + 1) * (r + 1),
            ;
        }
    }
}

proof fn lemma_sqrt_unique(n: int, r1: int, r2: int)
    requires
        is_sqrt(n, r1),
        is_sqrt(n, r2),
    ensures
        r1 == r2,
{
    assert(r1 == r2) by (nonlinear_arith)
        requires
            0 <= r1 && r1 * r1 <= n && n < (r1 + 1) * (r1 + 1),
            0 <= r2 && r2 * r2 <= n && n < (r2 + 1) * (r2 + 1),
    ;
}

/// `sqrt_of(n)` really is the integer square root of `n`.
pub proof fn lemma_sqrt_of(n: int)
    requires
        n >= 0,
    ensures
        is_sqrt(n, sqrt_of(n)),
{
    lemma_sqrt_exists(n);
}

/// Integer square root by binary search, exact per `is_sqrt`.
pub fn isqrt(n: u128) -> (r: u64)
    ensures
        is_sqrt(n as int, r as int),
        r == sqrt_of(n as int),
{
    let mut lo: u128 = 0;
    let mut hi: u128 = if n < 0xffff_ffff_ffff_ffff {
        n
    } else {
        0xffff_ffff_ffff_ffff
    };
    proof {
        assert((hi + 1) * (hi + 1) > n) by (nonlinear_arith)
            requires
                hi >= 0,
                hi + 1 > n || hi == 0xffff_ffff_ffff_ffff,
                n <= u128::MAX,
        ;
    }
    while lo < hi
        invariant
            0 <= lo <= hi <= 0xffff_ffff_ffff_ffff,
            lo * lo <= n,
            (hi + 1) * (hi + 1) > n,
        decreases hi - lo,
    {
        let mid: u128 = lo + (hi - lo + 1) / 2;
        proof {
            assert(mid * mid <= u128::MAX) by (nonlinear_arith)
                requires
                    0 <= mid <= 0xffff_ffff_ffff_ffffu128,
            ;
        }
        if mid * mid <= n {
            lo = mid;
        } else {
            hi = mid - 1;
        }
    }
    proof {
        lemma_sqrt_exists(n as int);
        let w = choose|r: int| #[trigger] is_sqrt(n as int, r);
        lemma_sqrt_unique(n as int, w, lo as int);
    }
    lo as u64
}

/// Squared Euclidean distance between two points.
pub open spec fn dist_sq(x1: int, y1: int, x2: int, y2: int) -> int {
    (x1 - x2) * (x1 - x2) + (y1 - y2) * (y1 - y2)
}

/// Euclidean distance between two points, rounded toward zero.
pub open spec fn dist_spec(x1: int, y1: int, x2: int, y2: int) -> int {
    sqrt_of(dist_sq(x1, y1, x2, y2))
}

/// A squared distance is non-negative and, for points inside the box of
/// half-width `b`, at most `8 * b * b`.
pub proof fn lemma_dist_sq_bounds(x1: int, y1: int, x2: int, y2: int, b: int)
    requires
        b >= 0,
        -b <= x1 <= b,
        -b <= y1 <= b,
        -b <= x2 <= b,
        -b <= y2 <= b,
    ensures
        0 <= dist_sq(x1, y1, x2, y2) <= 8 * b * b,
{
    assert(0 <= (x1 - x2) * (x1 - x2) + (y1 - y2) * (y1 - y2) <= 8 * b * b) by (nonlinear_arith)
        requires
            b >= 0,
            -2 * b <= x1 - x2 <= 2 * b,
            -2 * b <= y1 - y2 <= 2 * b,
    ;
}

/// Magnitudes up to this bound keep every squared term inside `i128`.
pub const NORM_BOUND: i64 = 0x8000_0000;

/// A distance rounded toward zero never exceeds this value when both
/// components are within `NORM_BOUND`.
pub const NORM_MAX: i64 = 0x1_0000_0000;

/// Length of the vector `(x, y)`, rounded toward zero.
pub fn norm(x: i64, y: i64) -> (r: i64)
    requires
        -NORM_BOUND <= x <= NORM_BOUND,
        -NORM_BOUND <= y <= NORM_BOUND,
    ensures
        r == dist_spec(x as int, y as int, 0, 0),
        0 <= r <= NORM_MAX,
{
    proof {
        assert(0 <= (x as i128) * (x as i128) <= 0x4000_0000_0000_0000i128
            && 0 <= (y as i128) * (y as i128) <= 0x4000_0000_0000_0000i128) by (nonlinear_arith)
            requires
                -0x8000_0000 <= x <= 0x8000_0000,
                -0x8000_0000 <= y <= 0x8000_0000,
        ;
    }
    let xx: i128 = (x as i128) * (x as i128);
    let yy: i128 = (y as i128) * (y as i128);
    let s: u128 = (xx + yy) as u128;
    let r = isqrt(s);
    proof {
        assert(r <= 0x1_0000_0000u64) by (nonlinear_arith)
            requires
                s <= 0x8000_0000_0000_0000u128,
                0 <= r,
                (r as int) * (r as int) <= s as int,
        ;
        assert(s as int == dist_sq(x as int, y as int, 0, 0));
    }
    r as i64
}

/// Bound on the coordinates accepted by the distance functions.
pub const DIST_BOUND: i64 = 0x4000_0000;

/// Euclidean distance between two points, rounded toward zero.
pub fn distance_between_points(x1: i64, y1: i64, x2: i64, y2: i64) -> (r: i64)
    requires
        -DIST_BOUND <= x1 <= DIST_BOUND,
        -DIST_BOUND <= y1 <= DIST_BOUND,
        -DIST_BOUND <= x2 <= DIST_BOUND,
        -DIST_BOUND <= y2 <= DIST_BOUND,
    ensures
        r == dist_spec(x1 as int, y1 as int, x2 as int, y2 as int),
        0 <= r <= NORM_MAX,
{
    norm(x1 - x2, y1 - y2)
}

/// Twice the signed area of the triangle `a`, `b`, `c`; positive when the
/// triangle turns counter-clockwise, negative when clockwise, zero when
/// the points are collinear.
pub open spec fn orient2d(
    ax: int,
    ay: int,
    bx: int,
    by: int,
    cx: int,
    cy: int,
) -> int {
    (bx - ax) * (cy - ay) - (by - ay) * (cx - ax)
}

/// Coordinates up to this bound keep orientation tests inside `i128`.
pub const ORIENT_BOUND: i64 = 0x1_0000_0000;

/// Exact orientation test.
pub fn orientation(ax: i64, ay: i64, bx: i64, by: i64, cx: i64, cy: i64) -> (r: i128)
    requires
        -ORIENT_BOUND <= ax <= ORIENT_BOUND,
        -ORIENT_BOUND <= ay <= ORIENT_BOUND,
        -ORIENT_BOUND <= bx <= ORIENT_BOUND,
        -ORIENT_BOUND <= by <= ORIENT_BOUND,
        -ORIENT_BOUND <= cx <= ORIENT_BOUND,
        -ORIENT_BOUND <= cy <= ORIENT_BOUND,
    ensures
        r == orient2d(ax as int, ay as int, bx as int, by as int, cx as int, cy as int),
{
    let dbx: i128 = (bx as i128) - (ax as i128);
    let dby: i128 = (by as i128) - (ay as i128);
    let dcx: i128 = (cx as i128) - (ax as i128);
    let dcy: i128 = (cy as i128) - (ay as i128);
    proof {
        assert(-0x10_0000_0000_0000_0000i128 <= dbx * dcy <= 0x10_0000_0000_0000_0000i128
            && -0x10_0000_0000_0000_0000i128 <= dby * dcx <= 0x10_0000_0000_0000_0000i128)
            by (nonlinear_arith)
            requires
                -0x2_0000_0000 <= dbx <= 0x2_0000_0000,
                -0x2_0000_0000 <= dby <= 0x2_0000_0000,
                -0x2_0000_0000 <= dcx <= 0x2_0000_0000,
                -0x2_0000_0000 <= dcy <= 0x2_0000_0000,
        ;
    }
    dbx * dcy - dby * dcx
}

/// A line segment between two points, in ticks.
#[derive(Clone, Copy, PartialEq, Eq, Structural, Debug)]
pub struct Segment {
    pub x1: i64,
    pub y1: i64,
    pub x2: i64,
    pub y2: i64,
}

/// Every coordinate of the segment is within `b` of the origin.
pub open spec fn segment_in_bounds(s: Segment, b: int) -> bool {
    -b <= s.x1 <= b && -b <= s.y1 <= b && -b <= s.x2 <= b && -b <= s.y2 <= b
}

/// The two segments cross at a single interior point of both: the
/// endpoints of each lie strictly on opposite sides of the other's line.
/// Segments that merely touch at an endpoint, overlap collinearly, or
/// share a line do not count as crossing.
pub open spec fn properly_cross(s: Segment, t: Segment) -> bool {
    let o1 = orient2d(s.x1 as int, s.y1 as int, s.x2 as int, s.y2 as int, t.x1 as int, t.y1 as int);
    let o2 = orient2d(s.x1 as int, s.y1 as int, s.x2 as int, s.y2 as int, t.x2 as int, t.y2 as int);
    let o3 = orient2d(t.x1 as int, t.y1 as int, t.x2 as int, t.y2 as int, s.x1 as int, s.y1 as int);
    let o4 = orient2d(t.x1 as int, t.y1 as int, t.x2 as int, t.y2 as int, s.x2 as int, s.y2 as int);
    ((o1 > 0 && o2 < 0) || (o1 < 0 && o2 > 0)) && ((o3 > 0 && o4 < 0) || (o3 < 0 && o4 > 0))
}

/// Exact proper-crossing test for two segments.
pub fn intersection(s: Segment, t: Segment) -> (r: bool)
    requires
        segment_in_bounds(s, ORIENT_BOUND as int),
        segment_in_bounds(t, ORIENT_BOUND as int),
    ensures
        r == properly_cross(s, t),
{
    let o1 = orientation(s.x1, s.y1, s.x2, s.y2, t.x1, t.y1);
    let o2 = orientation(s.x1, s.y1, s.x2, s.y2, t.x2, t.y2);
    let o3 = orientation(t.x1, t.y1, t.x2, t.y2, s.x1, s.y1);
    let o4 = orientation(t.x1, t.y1, t.x2, t.y2, s.x2, s.y2);
    ((o1 > 0 && o2 < 0) || (o1 < 0 && o2 > 0)) && ((o3 > 0 && o4 < 0) || (o3 < 0 && o4 > 0))
}

/// Some pair of distinct segments in the list properly crosses.
pub open spec fn some_pair_crosses(lines: Seq<Segment>) -> bool {
    exists|i: int, j: int|
        0 <= i < lines.len() && 0 <= j < lines.len() && i != j && properly_cross(
            lines[i],
            lines[j],
        )
}

/// Whether any two segments of the list properly cross each other.
pub fn lines_intersection(lines: &Vec<Segment>) -> (r: bool)
    requires
        forall|i: int|
            0 <= i < lines@.len() ==> segment_in_bounds(#[trigger] lines@[i], ORIENT_BOUND as int),
    ensures
        r == some_pair_crosses(lines@),
{
    let n = lines.len();
    let mut i: usize = 0;
    while i < n
        invariant
            n == lines@.len(),
            0 <= i <= n,
            forall|k: int|
                0 <= k < lines@.len() ==> segment_in_bounds(
                    #[trigger] lines@[k],
                    ORIENT_BOUND as int,
                ),
            forall|a: int, b: int|
                0 <= a < i && a < b < lines@.len() ==> !properly_cross(lines@[a], lines@[b]),
        decreases n - i,
    {
        let mut j: usize = i + 1;
        while j < n
            invariant
                n == lines@.len(),
                0 <= i < n,
                i < j <= n,
                forall|k: int|
                    0 <= k < lines@.len() ==> segment_in_bounds(
                        #[trigger] lines@[k],
                        ORIENT_BOUND as int,
                    ),
                forall|b: int| i < b < j ==> !properly_cross(lines@[i as int], lines@[b]),
            decreases n - j,
        {
            if intersection(lines[i], lines[j]) {
                return true;
            }
            j = j + 1;
        }
        i = i + 1;
    }
    proof {
        assert forall|a: int, b: int|
            0 <= a < lines@.len() && 0 <= b < lines@.len() && a != b implies !properly_cross(
            lines@[a],
            lines@[b],
        ) by {
            if a < b {
            } else {
                assert(!properly_cross(lines@[b], lines@[a]));
                lemma_cross_symmetric(lines@[b], lines@[a]);
            }
        }
    }
    false
}

/// Proper crossing does not depend on the order of the two segments.
pub proof fn lemma_cross_symmetric(s: Segment, t: Segment)
    ensures
        properly_cross(s, t) == properly_cross(t, s),
{
}


/// Truncating division: `a / b` rounded toward zero, for positive `b`.
pub open spec fn div_tz(a: int, b: int) -> int {
    if a >= 0 {
        a / b
    } else {
        -((-a) / b)
    }
}

/// Exec truncating division of bounded values by a positive divisor.
pub fn divide_tz(a: i128, b: i128) -> (r: i128)
    requires
        0 < b,
        -0x8000_0000_0000_0000_0000_0000i128 <= a <= 0x8000_0000_0000_0000_0000_0000i128,
    ensures
        r == div_tz(a as int, b as int),
        a >= 0 ==> 0 <= r <= a,
        a <= 0 ==> a <= r <= 0,
{
    if a >= 0 {
        let q: u128 = (a as u128) / (b as u128);
        proof {
            vstd::arithmetic::div_mod::lemma_fundamental_div_mod(a as int, b as int);
            assert((a as int) / (b as int) <= a) by (nonlinear_arith)
                requires
                    a >= 0,
                    b > 0,
                    a as int == (b as int) * ((a as int) / (b as int)) + (a as int) % (b as int),
                    0 <= (a as int) % (b as int) < b,
            ;
            assert((a as int) / (b as int) >= 0) by (nonlinear_arith)
                requires
                    a >= 0,
                    b > 0,
                    a as int == (b as int) * ((a as int) / (b as int)) + (a as int) % (b as int),
                    0 <= (a as int) % (b as int) < b,
            ;
        }
        q as i128
    } else {
        let m: i128 = -a;
        let q: u128 = (m as u128) / (b as u128);
        proof {
            vstd::arithmetic::div_mod::lemma_fundamental_div_mod(m as int, b as int);
            assert(0 <= (m as int) / (b as int) <= m) by (nonlinear_arith)
                requires
                    m >= 0,
                    b > 0,
                    m as int == (b as int) * ((m as int) / (b as int)) + (m as int) % (b as int),
                    0 <= (m as int) % (b as int) < b,
            ;
        }
        -(q as i128)
    }
}

/// The unit vector along `(x, y)`, in `SCALE` ticks: each component is
/// `component * SCALE / |(x, y)|`, rounded toward zero. The zero vector
/// maps to the zero vector.
pub open spec fn normed_x_spec(x: int, y: int) -> int {
    let n = dist_spec(x, y, 0, 0);
    if n == 0 {
        0
    } else {
        div_tz(x * crate::SCALE, n)
    }
}

/// See [`normed_x_spec`].
pub open spec fn normed_y_spec(x: int, y: int) -> int {
    let n = dist_spec(x, y, 0, 0);
    if n == 0 {
        0
    } else {
        div_tz(y * crate::SCALE, n)
    }
}

/// The length of an integer vector, rounded toward zero, is at least the
/// magnitude of each component.
proof fn lemma_norm_dominates(x: int, y: int)
    requires
        -NORM_BOUND <= x <= NORM_BOUND,
        -NORM_BOUND <= y <= NORM_BOUND,
    ensures
        dist_spec(x, y, 0, 0) >= if x >= 0 {
            x
        } else {
            -x
        },
        dist_spec(x, y, 0, 0) >= if y >= 0 {
            y
        } else {
            -y
        },
{
    let s = dist_sq(x, y, 0, 0);
    lemma_dist_sq_bounds(x, y, 0, 0, NORM_BOUND as int);
    lemma_sqrt_of(s);
    let r = sqrt_of(s);
    let ax = if x >= 0 { x } else { -x };
    let ay = if y >= 0 { y } else { -y };
    assert(r >= ax && r >= ay) by (nonlinear_arith)
        requires
            0 <= r,
            s < (r + 1) * (r + 1),
            s == x * x + y * y,
            ax == x || ax == -x,
            ay == y || ay == -y,
            0 <= ax,
            0 <= ay,
    ;
}

/// Computes the scaled unit vector along `(x, y)`: exactly
/// [`normed_x_spec`] / [`normed_y_spec`], with each component within
/// `SCALE` in magnitude.
pub fn normed_vector(x: i64, y: i64) -> (r: (i64, i64))
    requires
        -NORM_BOUND <= x <= NORM_BOUND,
        -NORM_BOUND <= y <= NORM_BOUND,
    ensures
        r.0 == normed_x_spec(x as int, y as int),
        r.1 == normed_y_spec(x as int, y as int),
        -crate::SCALE <= r.0 <= crate::SCALE,
        -crate::SCALE <= r.1 <= crate::SCALE,
{
    let n = norm(x, y);
    if n == 0 {
        (0, 0)
    } else {
        let rx = divide_tz((x as i128) * (crate::SCALE as i128), n as i128);
        let ry = divide_tz((y as i128) * (crate::SCALE as i128), n as i128);
        proof {
            lemma_norm_dominates(x as int, y as int);
            lemma_scaled_quotient_bound(x as int, n as int);
            lemma_scaled_quotient_bound(y as int, n as int);
        }
        (rx as i64, ry as i64)
    }
}

/// When `|x| <= n`, the scaled quotient `x * SCALE / n` is within
/// `SCALE`.
proof fn lemma_scaled_quotient_bound(x: int, n: int)
    requires
        n > 0,
        -n <= x <= n,
    ensures
        -crate::SCALE <= div_tz(x * crate::SCALE, n) <= crate::SCALE,
{
    let s = crate::SCALE as int;
    if x >= 0 {
        vstd::arithmetic::div_mod::lemma_fundamental_div_mod(x * s, n);
        assert(0 <= (x * s) / n <= s) by (nonlinear_arith)
            requires
                0 <= x <= n,
                n > 0,
                s > 0,
                x * s == n * ((x * s) / n) + (x * s) % n,
                0 <= (x * s) % n < n,
        ;
    } else {
        vstd::arithmetic::div_mod::lemma_fundamental_div_mod(-(x * s), n);
        assert(-(x * s) == (-x) * s) by (nonlinear_arith);
        assert(0 <= (-(x * s)) / n <= s) by (nonlinear_arith)
            requires
                0 <= -x <= n,
                n > 0,
                s > 0,
                -(x * s) == (-x) * s,
                -(x * s) == n * ((-(x * s)) / n) + (-(x * s)) % n,
                0 <= (-(x * s)) % n < n,
        ;
    }
}

/// The scaled unit vector that bisects the angle at `(middle_x, middle_y)`
/// between the directions toward the two given neighbours: the average of
/// the two unit offsets, falling back to a quarter turn when they cancel,
/// with its sign chosen toward the side the edge normal points to
/// (whichever of the two candidates lies closer to the normal of the
/// chord between the neighbours).
pub open spec fn direction_vector_spec(
    middle_x: int,
    middle_y: int,
    clkwise_x: int,
    clkwise_y: int,
    ctrclkwise_x: int,
    ctrclkwise_y: int,
) -> (int, int) {
    let ux = normed_x_spec(clkwise_x - middle_x, clkwise_y - middle_y);
    let uy = normed_y_spec(clkwise_x - middle_x, clkwise_y - middle_y);
    let vx = normed_x_spec(ctrclkwise_x - middle_x, ctrclkwise_y - middle_y);
    let vy = normed_y_spec(ctrclkwise_x - middle_x, ctrclkwise_y - middle_y);
    let dx0 = crate::effects::half_tz(ux + vx);
    let dy0 = crate::effects::half_tz(uy + vy);
    let dx = if dx0 == 0 && dy0 == 0 {
        -uy
    } else {
        dx0
    };
    let dy = if dx0 == 0 && dy0 == 0 {
        ux
    } else {
        dy0
    };
    let zx = normed_x_spec(ctrclkwise_y - clkwise_y, clkwise_x - ctrclkwise_x);
    let zy = normed_y_spec(ctrclkwise_y - clkwise_y, clkwise_x - ctrclkwise_x);
    if dist_sq(zx, zy, dx, dy) > dist_sq(zx, zy, -dx, -dy) {
        (normed_x_spec(-dx, -dy), normed_y_spec(-dx, -dy))
    } else {
        (normed_x_spec(dx, dy), normed_y_spec(dx, dy))
    }
}

/// Computes [`direction_vector_spec`]: the scaled unit bisector at the
/// middle point, an estimate of the locally outward normal.
pub fn direction_vector(
    middle_x: i64,
    middle_y: i64,
    clkwise_x: i64,
    clkwise_y: i64,
    ctrclkwise_x: i64,
    ctrclkwise_y: i64,
) -> (r: (i64, i64))
    requires
        -DIST_BOUND <= middle_x <= DIST_BOUND,
        -DIST_BOUND <= middle_y <= DIST_BOUND,
        -DIST_BOUND <= clkwise_x <= DIST_BOUND,
        -DIST_BOUND <= clkwise_y <= DIST_BOUND,
        -DIST_BOUND <= ctrclkwise_x <= DIST_BOUND,
        -DIST_BOUND <= ctrclkwise_y <= DIST_BOUND,
    ensures
        (r.0 as int, r.1 as int) == direction_vector_spec(
            middle_x as int,
            middle_y as int,
            clkwise_x as int,
            clkwise_y as int,
            ctrclkwise_x as int,
            ctrclkwise_y as int,
        ),
        -crate::SCALE <= r.0 <= crate::SCALE,
        -crate::SCALE <= r.1 <= crate::SCALE,
{
    let (ux, uy) = normed_vector(clkwise_x - middle_x, clkwise_y - middle_y);
    let (vx, vy) = normed_vector(ctrclkwise_x - middle_x, ctrclkwise_y - middle_y);
    let dx0 = crate::effects::half_of_sum(ux, vx);
    let dy0 = crate::effects::half_of_sum(uy, vy);
    let (dx, dy) = if dx0 == 0 && dy0 == 0 {
        (-uy, ux)
    } else {
        (dx0, dy0)
    };
    let (zx, zy) = normed_vector(ctrclkwise_y - clkwise_y, clkwise_x - ctrclkwise_x);
    let toward = point_dist_sq(zx, zy, dx, dy);
    let away = point_dist_sq(zx, zy, -dx, -dy);
    if toward > away {
        normed_vector(-dx, -dy)
    } else {
        normed_vector(dx, dy)
    }
}

/// Exact squared distance between two bounded points.
fn point_dist_sq(x1: i64, y1: i64, x2: i64, y2: i64) -> (d: i128)
    requires
        -NORM_BOUND <= x1 <= NORM_BOUND,
        -NORM_BOUND <= y1 <= NORM_BOUND,
        -NORM_BOUND <= x2 <= NORM_BOUND,
        -NORM_BOUND <= y2 <= NORM_BOUND,
    ensures
        d == dist_sq(x1 as int, y1 as int, x2 as int, y2 as int),
{
    let dx: i128 = (x1 as i128) - (x2 as i128);
    let dy: i128 = (y1 as i128) - (y2 as i128);
    proof {
        assert(0 <= dx * dx <= 0x10_0000_0000_0000_0000i128 && 0 <= dy * dy
            <= 0x10_0000_0000_0000_0000i128) by (nonlinear_arith)
            requires
                -0x2_0000_0000i128 <= dx <= 0x2_0000_0000i128,
                -0x2_0000_0000i128 <= dy <= 0x2_0000_0000i128,
        ;
    }
    dx * dx + dy * dy
}

} // verus!
