//! The interpolators: the value of a segment between two bracketing points.
use vstd::prelude::*;

use vstd::arithmetic::div_mod::{
    lemma_div_is_ordered, lemma_div_multiples_vanish, lemma_fundamental_div_mod,
    lemma_fundamental_div_mod_converse,
};

use crate::point::{Point, Scalar};

verus! {

/// The value of the segment from `start` to `end` at `x` when no blending is
/// needed: both values are equal, or `x` lands exactly on the start or on the
/// end.
pub open spec fn exact_at<P: Point>(x: int, start: P, end: P) -> Option<i32> {
    if start.val() == end.val() || start.pos() == x {
        Some(start.val())
    } else if end.pos() == x {
        Some(end.val())
    } else {
        None
    }
}

/// The distance of `x` from the start of the segment: the numerator of the
/// blend factor.
pub open spec fn progress_of<P: Point>(x: int, start: P) -> int {
    x - start.pos()
}

/// The length of the segment: the denominator of the blend factor.
pub open spec fn span_of<P: Point>(start: P, end: P) -> int {
    end.pos() - start.pos()
}

/// The difference between the values at the end and at the start.
pub open spec fn rise_of<P: Point>(start: P, end: P) -> int {
    end.val() - start.val()
}

/// Linear blend from the start value to the end value at `x`, rounded toward
/// negative infinity: `start + (end - start) * (x - start_x) / (end_x - start_x)`.
pub open spec fn linear_at<P: Point>(x: int, start: P, end: P) -> int {
    match exact_at(x, start, end) {
        Some(v) => v as int,
        None => start.val() + (rise_of(start, end) * progress_of(x, start)) / span_of(start, end),
    }
}

/// The start and end bracket `x`.
pub open spec fn brackets<P: Point>(x: int, start: P, end: P) -> bool {
    start.pos() <= x <= end.pos()
}

/// `v` saturated to the range of `i32`.
pub open spec fn saturate_value(v: int) -> int {
    if v < i32::MIN {
        i32::MIN as int
    } else if v > i32::MAX {
        i32::MAX as int
    } else {
        v
    }
}

/// Blend from the start value to the end value at `x` with the blend factor
/// `num / den` that an easing curve made of the linear one, rounded toward
/// negative infinity and saturated to the range of `i32` (an easing curve may
/// overshoot).
pub open spec fn eased_at<P: Point>(x: int, start: P, end: P, num: int, den: int) -> int {
    match exact_at(x, start, end) {
        Some(v) => v as int,
        None => saturate_value(start.val() + (rise_of(start, end) * num) / den),
    }
}

/// The curve value that stands for 1: a curve is given in thousandths.
pub const CURVE_ONE: i16 = 1000;

/// `q` times the linear interpolation from `a` to `b` at the factor `p / q`.
pub open spec fn lerp_scaled(a: int, b: int, p: int, q: int) -> int {
    a * (q - p) + b * p
}

/// The bezier-like blend of a rise `rise` at the factor `p / q` with the
/// curve `curve` (in thousandths), rounded toward negative infinity.
///
/// The control offset is `y2 = rise / 2 + curve * rise / 2`; the blend is
/// `lerp(lerp(0, y2, t), lerp(y2, rise, t), t)`. Every quantity is kept scaled
/// by `2 * CURVE_ONE` and by `q` for each interpolation, so that the result is
/// exact before the final division.
pub open spec fn bezier_part(rise: int, p: int, q: int, curve: int) -> int {
    let control = rise * (CURVE_ONE + curve);
    let ya = lerp_scaled(0, control, p, q);
    let yb = lerp_scaled(control, 2 * CURVE_ONE * rise, p, q);
    lerp_scaled(ya, yb, p, q) / (2 * CURVE_ONE * q * q)
}

/// Bezier-like blend from the start value to the end value at `x`, bent by
/// `curve` (in thousandths), saturated to the range of `i32` (a curve beyond
/// [-1, 1] may overshoot).
pub open spec fn bezier_at<P: Point>(x: int, start: P, end: P, curve: int) -> int {
    match exact_at(x, start, end) {
        Some(v) => v as int,
        None => saturate_value(
            start.val() + bezier_part(
                rise_of(start, end),
                progress_of(x, start),
                span_of(start, end),
                curve,
            ),
        ),
    }
}

/// A fraction `p / q` of `d`, with `0 <= p <= q` and rounded down, lies
/// between 0 and `d`.
pub proof fn lemma_part_between(d: int, p: int, q: int)
    requires
        0 <= p <= q,
        0 < q,
    ensures
        d >= 0 ==> 0 <= (d * p) / q <= d,
        d < 0 ==> d <= (d * p) / q <= 0,
{
    lemma_div_multiples_vanish(d, q);
    assert(d * q == q * d) by (nonlinear_arith);
    if d >= 0 {
        assert(0 <= d * p <= d * q) by (nonlinear_arith)
            requires
                d >= 0,
                0 <= p <= q,
        ;
        lemma_div_is_ordered(0, d * p, q);
        lemma_div_is_ordered(d * p, d * q, q);
    } else {
        assert(d * q <= d * p <= 0) by (nonlinear_arith)
            requires
                d < 0,
                0 <= p <= q,
        ;
        lemma_div_is_ordered(d * p, 0, q);
        lemma_div_is_ordered(d * q, d * p, q);
    }
}

/// Check if the given x lands exactly on either the start or end point and
/// return the Y value if it does.
pub fn maybe_exact_point<P: Point>(x: i32, start: &P, end: &P) -> (r: Option<i32>)
    ensures
        r == exact_at(x as int, *start, *end),
{
    if start.y() == end.y() || start.x() == x {
        Some(start.y())
    } else if end.x() == x {
        Some(end.y())
    } else {
        None
    }
}

/// Interpolate linearly between the start and end points.
pub fn linear<P: Point>(x: i32, start: &P, end: &P) -> (r: i32)
    requires
        brackets(x as int, *start, *end),
    ensures
        r == linear_at(x as int, *start, *end),
{
    match maybe_exact_point(x, start, end) {
        Some(v) => v,
        None => {
            let sy = start.y().to_wide();
            let rise = end.y().to_wide() - sy;
            let progress = x.to_wide() - start.x().to_wide();
            let span = end.x().to_wide() - start.x().to_wide();
            proof {
                assert(-0x1_0000_0000_0000_0000 < rise * progress < 0x1_0000_0000_0000_0000)
                    by (nonlinear_arith)
                    requires
                        -0x1_0000_0000 < rise < 0x1_0000_0000,
                        0 <= progress < 0x1_0000_0000,
                ;
                lemma_part_between(rise as int, progress as int, span as int);
            }
            let part = floor_div(rise * progress, span);
            (sy + part) as i32
        },
    }
}

/// Scaling both sides of a fraction by a positive factor leaves its floor
/// unchanged.
pub proof fn lemma_div_cancel(a: int, d: int, k: int)
    requires
        0 < d,
        0 < k,
    ensures
        (k * a) / (k * d) == a / d,
{
    lemma_fundamental_div_mod(a, d);
    let q = a / d;
    let r = a % d;
    assert(k * a == q * (k * d) + k * r && 0 <= k * r < k * d) by (nonlinear_arith)
        requires
            a == d * q + r,
            0 <= r < d,
            0 < k,
    ;
    lemma_fundamental_div_mod_converse(k * a, k * d, q, k * r);
}

/// Dividing by a positive integer keeps a value within its bound.
proof fn lemma_div_within(n: int, d: int, m: int)
    requires
        1 <= d,
        -m <= n <= m,
    ensures
        -m <= n / d <= m,
{
    lemma_fundamental_div_mod(n, d);
    assert(-m <= n / d <= m) by (nonlinear_arith)
        requires
            n == d * (n / d) + n % d,
            0 <= n % d < d,
            1 <= d,
            -m <= n <= m,
    ;
}

/// The bound of a scaled interpolation between two bounded values.
proof fn lemma_lerp_scaled_bound(a: int, b: int, p: int, q: int, m: int)
    requires
        -m <= a <= m,
        -m <= b <= m,
        0 <= p <= q,
    ensures
        -(m * (q - p)) <= a * (q - p) <= m * (q - p),
        -(m * p) <= b * p <= m * p,
        -(m * q) <= lerp_scaled(a, b, p, q) <= m * q,
{
    assert(-(m * (q - p)) <= a * (q - p) <= m * (q - p)) by (nonlinear_arith)
        requires
            -m <= a <= m,
            0 <= q - p,
    ;
    assert(-(m * p) <= b * p <= m * p) by (nonlinear_arith)
        requires
            -m <= b <= m,
            0 <= p,
    ;
    assert(m * (q - p) + m * p == m * q) by (nonlinear_arith);
}

/// `q` times the linear interpolation from `a` to `b` at the factor `p / q`.
fn scaled_lerp(a: i128, b: i128, p: i128, q: i128) -> (r: i128)
    requires
        -0x1_0000_0000_0000_0000_0000 <= a <= 0x1_0000_0000_0000_0000_0000,
        -0x1_0000_0000_0000_0000_0000 <= b <= 0x1_0000_0000_0000_0000_0000,
        0 <= p <= q <= 0x1_0000_0000,
    ensures
        r == lerp_scaled(a as int, b as int, p as int, q as int),
{
    proof {
        let m: int = 0x1_0000_0000_0000_0000_0000;
        lemma_lerp_scaled_bound(a as int, b as int, p as int, q as int, m);
        assert(m * (q - p) <= m * 0x1_0000_0000 && m * p <= m * 0x1_0000_0000)
            by (nonlinear_arith)
            requires
                0 <= p <= q <= 0x1_0000_0000,
                m > 0,
        ;
    }
    a * (q - p) + b * p
}

/// `v` saturated to the range of `i32`.
fn saturate(v: i128) -> (r: i32)
    ensures
        r == saturate_value(v as int),
{
    if v < i32::MIN as i128 {
        i32::MIN
    } else if v > i32::MAX as i128 {
        i32::MAX
    } else {
        v as i32
    }
}

/// `n / d` rounded toward negative infinity.
fn floor_div(n: i128, d: i128) -> (r: i128)
    requires
        d > 0,
        n > i128::MIN,
    ensures
        r == n / d,
{
    if n >= 0 {
        n / d
    } else {
        let m: i128 = -n;
        let q: i128 = m / d;
        let r: i128 = m % d;
        proof {
            lemma_fundamental_div_mod(m as int, d as int);
        }
        if r == 0 {
            proof {
                assert(n == (-q) * d) by (nonlinear_arith)
                    requires m == d * q + r, r == 0, n == -m;
                lemma_fundamental_div_mod_converse(n as int, d as int, -q as int, 0);
            }
            -q
        } else {
            proof {
                assert(n == (-q - 1) * d + (d - r)) by (nonlinear_arith)
                    requires m == d * q + r, n == -m;
                lemma_fundamental_div_mod_converse(n as int, d as int, -q - 1, d - r);
            }
            -q - 1
        }
    }
}

/// The blend factor of `x` on the segment from `start` to `end`, as the
/// fraction `(x - start_x) / (end_x - start_x)`: what an easing curve is
/// applied to.
pub fn blend_factor<P: Point>(x: i32, start: &P, end: &P) -> (r: (i64, i64))
    ensures
        r.0 == progress_of(x as int, *start),
        r.1 == span_of(*start, *end),
{
    (x as i64 - start.x() as i64, end.x() as i64 - start.x() as i64)
}

/// Interpolate between the start and end points with the blend factor
/// `eased_num / eased_den` that an easing function made of the linear factor
/// (see `blend_factor`).
pub fn ease<P: Point>(x: i32, start: &P, end: &P, eased_num: i64, eased_den: i64) -> (r: i32)
    requires
        brackets(x as int, *start, *end),
        eased_den > 0,
    ensures
        r == eased_at(x as int, *start, *end, eased_num as int, eased_den as int),
{
    match maybe_exact_point(x, start, end) {
        Some(v) => v,
        None => {
            let sy = start.y().to_wide();
            let rise = end.y().to_wide() - sy;
            let num = eased_num as i128;
            proof {
                assert(-0x1_0000_0000_0000_0000_0000_0000 < rise * num
                    < 0x1_0000_0000_0000_0000_0000_0000) by (nonlinear_arith)
                    requires
                        -0x1_0000_0000 < rise < 0x1_0000_0000,
                        -0x8000_0000_0000_0000 <= num < 0x8000_0000_0000_0000,
                ;
            }
            let part = floor_div(rise * num, eased_den as i128);
            proof {
                lemma_div_within(rise * num, eased_den as int, 0x1_0000_0000_0000_0000_0000_0000);
            }
            saturate(sy + part)
        },
    }
}

/// Interpolate between the given start and end points along a bezier-like
/// curve bent by `curve` (in thousandths; 0 is the straight line).
pub fn bezier<P: Point>(x: i32, start: &P, end: &P, curve: i16) -> (r: i32)
    requires
        brackets(x as int, *start, *end),
    ensures
        r == bezier_at(x as int, *start, *end, curve as int),
{
    match maybe_exact_point(x, start, end) {
        Some(v) => v,
        None => {
            let sy = start.y().to_wide();
            let rise = end.y().to_wide() - sy;
            let p = x.to_wide() - start.x().to_wide();
            let q = end.x().to_wide() - start.x().to_wide();
            let one: i128 = CURVE_ONE as i128;
            let weight = one + curve.to_wide();
            proof {
                assert(-0x1_0000_0000_0000 <= rise * weight <= 0x1_0000_0000_0000)
                    by (nonlinear_arith)
                    requires
                        -0x1_0000_0000 < rise < 0x1_0000_0000,
                        -0x1_0000 <= weight <= 0x1_0000,
                ;
            }
            let control = rise * weight;
            proof {
                assert(one == 1000);
                assert(-0x1_0000_0000_0000 <= 2 * one * rise <= 0x1_0000_0000_0000)
                    by (nonlinear_arith)
                    requires
                        -0x1_0000_0000 < rise < 0x1_0000_0000,
                        one == 1000,
                ;
            }
            let full = 2 * one * rise;
            let ya = scaled_lerp(0, control, p, q);
            let yb = scaled_lerp(control, full, p, q);
            proof {
                let m: int = 0x1_0000_0000_0000;
                lemma_lerp_scaled_bound(0, control as int, p as int, q as int, m);
                lemma_lerp_scaled_bound(control as int, full as int, p as int, q as int, m);
                assert(m * q <= 0x1_0000_0000_0000_0000_0000) by (nonlinear_arith)
                    requires
                        0 <= q <= 0x1_0000_0000,
                        m == 0x1_0000_0000_0000,
                ;
            }
            let y = scaled_lerp(ya, yb, p, q);
            proof {
                assert(0 < 2 * one * q * q <= 0x1_0000_0000_0000_0000_0000) by (nonlinear_arith)
                    requires
                        0 < q <= 0x1_0000_0000,
                        one == 1000,
                ;
                let m: int = 0x1_0000_0000_0000_0000_0000;
                lemma_lerp_scaled_bound(ya as int, yb as int, p as int, q as int, m);
                assert(m * q <= 0x1_0000_0000_0000_0000_0000_0000_0000) by (nonlinear_arith)
                    requires
                        0 <= q <= 0x1_0000_0000,
                        m == 0x1_0000_0000_0000_0000_0000,
                ;
            }
            let part = floor_div(y, 2 * one * q * q);
            proof {
                lemma_div_within(
                    y as int,
                    (2 * one * q * q) as int,
                    0x1_0000_0000_0000_0000_0000_0000_0000,
                );
            }
            saturate(sy + part)
        },
    }
}

/// A linear blend stays between the start and the end value.
pub proof fn lemma_linear_between<P: Point>(x: int, start: P, end: P)
    requires
        brackets(x, start, end),
    ensures
        start.val() <= end.val() ==> start.val() <= linear_at(x, start, end) <= end.val(),
        end.val() <= start.val() ==> end.val() <= linear_at(x, start, end) <= start.val(),
{
    if exact_at(x, start, end) is None {
        lemma_part_between(rise_of(start, end), progress_of(x, start), span_of(start, end));
    }
}

/// A bezier-like blend with curve 0 is exactly the linear blend.
pub proof fn lemma_zero_curve_is_linear<P: Point>(x: int, start: P, end: P)
    requires
        brackets(x, start, end),
    ensures
        bezier_at(x, start, end, 0) == linear_at(x, start, end),
{
    if exact_at(x, start, end) is None {
        let rise = rise_of(start, end);
        let p = progress_of(x, start);
        let q = span_of(start, end);
        let control = rise * (CURVE_ONE + 0);
        let ya = lerp_scaled(0, control, p, q);
        let yb = lerp_scaled(control, 2 * CURVE_ONE * rise, p, q);
        assert(lerp_scaled(ya, yb, p, q) == (2000 * q) * (rise * p)) by (nonlinear_arith)
            requires
                control == rise * 1000,
                ya == 0 * (q - p) + control * p,
                yb == control * (q - p) + 2 * 1000 * rise * p,
        ;
        assert(2 * CURVE_ONE * q * q == (2000 * q) * q) by (nonlinear_arith);
        lemma_div_cancel(rise * p, q, 2000 * q);
        lemma_linear_between(x, start, end);
    }
}

} // verus!
