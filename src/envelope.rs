//! The envelope: points kept in order of position, the searches among them,
//! and the value at any position.
use vstd::prelude::*;

use vstd::arithmetic::div_mod::{lemma_div_is_ordered, lemma_div_multiples_vanish};

use crate::bezier_point::BezierPoint;
use crate::interpolate::{
    lemma_linear_between, lemma_zero_curve_is_linear, linear_at, progress_of, rise_of, span_of,
};
use crate::point::{Interpolate, Point};

verus! {

/// The points are in non-decreasing order of position.
pub open spec fn sorted<P: Point>(s: Seq<P>) -> bool {
    forall|i: int, j: int| 0 <= i <= j < s.len() ==> s[i].pos() <= s[j].pos()
}

/// The position `pos` comes before `x` (or lands on it, where `inclusive`).
pub open spec fn comes_before(pos: int, x: int, inclusive: bool) -> bool {
    if inclusive {
        pos <= x
    } else {
        pos < x
    }
}

/// The position `pos` comes after `x` (or lands on it, where `inclusive`).
pub open spec fn comes_after(pos: int, x: int, inclusive: bool) -> bool {
    if inclusive {
        pos >= x
    } else {
        pos > x
    }
}

/// Scanning forward from index `i`, the index of the first point that does
/// not come before `x`, or the length.
pub open spec fn run_before<P: Point>(s: Seq<P>, x: int, inclusive: bool, i: int) -> int
    decreases s.len() - i,
{
    if 0 <= i < s.len() && comes_before(s[i].pos() as int, x, inclusive) {
        run_before(s, x, inclusive, i + 1)
    } else {
        i
    }
}

/// Scanning backward from index `i` (exclusive), the index just after the
/// last point that does not come after `x`, or 0.
pub open spec fn run_after<P: Point>(s: Seq<P>, x: int, inclusive: bool, i: int) -> int
    decreases i,
{
    if 0 < i <= s.len() && comes_after(s[i - 1].pos() as int, x, inclusive) {
        run_after(s, x, inclusive, i - 1)
    } else {
        i
    }
}

/// The index of the point that comes directly before `x` (or on it, where
/// `inclusive`): the last of the points that, from the first on, come before.
pub open spec fn idx_before<P: Point>(s: Seq<P>, x: int, inclusive: bool) -> Option<int> {
    let k = run_before(s, x, inclusive, 0);
    if k == 0 {
        None
    } else {
        Some(k - 1)
    }
}

/// The index of the point that comes directly after `x` (or on it, where
/// `inclusive`): the first of the points that, from the last back, come after.
pub open spec fn idx_after<P: Point>(s: Seq<P>, x: int, inclusive: bool) -> Option<int> {
    let k = run_after(s, x, inclusive, s.len() as int);
    if k == s.len() {
        None
    } else {
        Some(k)
    }
}

/// Scanning forward from index `i`, the index of the first point on `x`, or
/// the length.
pub open spec fn scan_at<P: Point>(s: Seq<P>, x: int, i: int) -> int
    decreases s.len() - i,
{
    if 0 <= i < s.len() && s[i].pos() != x {
        scan_at(s, x, i + 1)
    } else {
        i
    }
}

/// The index of the first point that lies on `x`.
pub open spec fn idx_at<P: Point>(s: Seq<P>, x: int) -> Option<int> {
    let k = scan_at(s, x, 0);
    if k == s.len() {
        None
    } else {
        Some(k)
    }
}

/// The index of the closest point to `x`: of the point on or before it and
/// the point after it, the nearer one; the one after where both are as near.
pub open spec fn idx_closest<P: Point>(s: Seq<P>, x: int) -> Option<int> {
    match (idx_before(s, x, true), idx_after(s, x, false)) {
        (Some(b), Some(a)) => if x - s[b].pos() < s[a].pos() - x {
            Some(b)
        } else {
            Some(a)
        },
        (Some(b), None) => Some(b),
        (None, Some(a)) => Some(a),
        (None, None) => None,
    }
}

/// An index of a collection, seen as an integer.
pub open spec fn as_idx(r: Option<usize>) -> Option<int> {
    match r {
        Some(i) => Some(i as int),
        None => None,
    }
}

/// The point at an index, if there is one.
pub open spec fn point_of<P>(s: Seq<P>, i: Option<int>) -> Option<P> {
    match i {
        Some(i) => Some(s[i]),
        None => None,
    }
}

/// The point at an index, with the index, if there is one.
pub open spec fn indexed_point_of<P>(s: Seq<P>, i: Option<int>) -> Option<(int, P)> {
    match i {
        Some(i) => Some((i, s[i])),
        None => None,
    }
}

/// A found point, seen as a value.
pub open spec fn found<P>(r: Option<&P>) -> Option<P> {
    match r {
        Some(p) => Some(*p),
        None => None,
    }
}

/// A found point and its index, seen as values.
pub open spec fn found_with_idx<P>(r: Option<(usize, &P)>) -> Option<(int, P)> {
    match r {
        Some((i, p)) => Some((i as int, *p)),
        None => None,
    }
}

/// `s` with `p` inserted after every point at or before its position: where
/// `s` is sorted, the stable place of `p`.
pub open spec fn insert_sorted<P: Point>(s: Seq<P>, p: P) -> Seq<P> {
    s.insert(run_before(s, p.pos() as int, true, 0), p)
}

/// `s` sorted by position with a stable insertion sort.
pub open spec fn sort_by_position<P: Point>(s: Seq<P>) -> Seq<P>
    decreases s.len(),
{
    if s.len() == 0 {
        s
    } else {
        insert_sorted(sort_by_position(s.drop_last()), s.last())
    }
}

/// `x` lies within the positions of the points, first to last.
pub open spec fn in_range<P: Point>(s: Seq<P>, x: int) -> bool {
    s.len() > 0 && s[0].pos() <= x <= s.last().pos()
}

/// Scanning forward from index `i`, the index of the first point at or after
/// `x`, or the last index: the end of the bracket of `x`.
pub open spec fn bracket_end<P: Point>(s: Seq<P>, x: int, i: int) -> int
    decreases s.len() - i,
{
    if i + 1 >= s.len() || s[i].pos() >= x {
        i
    } else {
        bracket_end(s, x, i + 1)
    }
}

/// The indices of the pair of points that bracket `x`; the one point twice
/// where there is only one.
pub open spec fn bracket_of<P: Point>(s: Seq<P>, x: int) -> Option<(int, int)> {
    if !in_range(s, x) {
        None
    } else if s.len() == 1 {
        Some((0, 0))
    } else {
        let e = bracket_end(s, x, 1);
        Some((e - 1, e))
    }
}

/// The value of the envelope at `x`.
pub open spec fn value_at<P: Interpolate>(s: Seq<P>, x: int) -> Option<int> {
    match bracket_of(s, x) {
        None => None,
        Some((i, j)) => if i == j {
            Some(s[i].val() as int)
        } else {
            Some(P::interpolate_at(x, s[i], s[j]))
        },
    }
}

/// A value of the envelope, seen as an integer.
pub open spec fn as_value(r: Option<i32>) -> Option<int> {
    match r {
        Some(v) => Some(v as int),
        None => None,
    }
}

/// An ordered collection of points and the curve through them.
pub struct Envelope<P: Point> {
    points: Vec<P>,
}

impl<P: Point> View for Envelope<P> {
    type V = Seq<P>;

    closed spec fn view(&self) -> Seq<P> {
        self.points@
    }
}

/// `pos` comes before `x` (or lands on it, where `inclusive`).
fn is_before(pos: i32, x: i32, inclusive: bool) -> (r: bool)
    ensures
        r == comes_before(pos as int, x as int, inclusive),
{
    if inclusive {
        pos <= x
    } else {
        pos < x
    }
}

/// `pos` comes after `x` (or lands on it, where `inclusive`).
fn is_after(pos: i32, x: i32, inclusive: bool) -> (r: bool)
    ensures
        r == comes_after(pos as int, x as int, inclusive),
{
    if inclusive {
        pos >= x
    } else {
        pos > x
    }
}

impl<P: Point> Envelope<P> {
    #[verifier::type_invariant]
    spec fn inv(&self) -> bool {
        sorted(self.points@)
    }

    /// An envelope without points.
    pub fn new() -> (r: Self)
        ensures
            r@ == Seq::<P>::empty(),
    {
        Envelope { points: Vec::new() }
    }

    /// The points of the envelope, in order of position.
    pub fn points(&self) -> (r: &Vec<P>)
        ensures
            r@ == self@,
            sorted(self@),
    {
        proof {
            use_type_invariant(self);
        }
        &self.points
    }

    /// The index of the first point that does not come before `x`.
    fn run_before_exec(&self, x: i32, inclusive: bool) -> (r: usize)
        ensures
            r == run_before(self@, x as int, inclusive, 0),
            r <= self@.len(),
    {
        let n = self.points.len();
        let mut i: usize = 0;
        while i < n
            invariant
                n == self@.len(),
                0 <= i <= n,
                run_before(self@, x as int, inclusive, 0) == run_before(
                    self@,
                    x as int,
                    inclusive,
                    i as int,
                ),
            ensures
                run_before(self@, x as int, inclusive, 0) == i,
                i <= n,
            decreases n - i,
        {
            if !is_before(self.points[i].x(), x, inclusive) {
                break;
            }
            i += 1;
        }
        i
    }

    /// The index just after the last point that does not come after `x`.
    fn run_after_exec(&self, x: i32, inclusive: bool) -> (r: usize)
        ensures
            r == run_after(self@, x as int, inclusive, self@.len() as int),
    {
        let n = self.points.len();
        let mut i: usize = n;
        while i > 0
            invariant
                n == self@.len(),
                0 <= i <= n,
                run_after(self@, x as int, inclusive, n as int) == run_after(
                    self@,
                    x as int,
                    inclusive,
                    i as int,
                ),
            ensures
                run_after(self@, x as int, inclusive, n as int) == i,
            decreases i,
        {
            if !is_after(self.points[i - 1].x(), x, inclusive) {
                break;
            }
            i -= 1;
        }
        i
    }

    /// The index of the last point that comes before `x`.
    fn idx_before_exec(&self, x: i32, inclusive: bool) -> (r: Option<usize>)
        ensures
            as_idx(r) == idx_before(self@, x as int, inclusive),
            r matches Some(i) ==> i < self@.len(),
    {
        let k = self.run_before_exec(x, inclusive);
        if k == 0 {
            None
        } else {
            Some(k - 1)
        }
    }

    /// The index of the first point that comes after `x`.
    fn idx_after_exec(&self, x: i32, inclusive: bool) -> (r: Option<usize>)
        ensures
            as_idx(r) == idx_after(self@, x as int, inclusive),
            r matches Some(i) ==> i < self@.len(),
    {
        let k = self.run_after_exec(x, inclusive);
        proof {
            lemma_run_after_bounds(self@, x as int, inclusive, self@.len() as int);
        }
        if k == self.points.len() {
            None
        } else {
            Some(k)
        }
    }

    /// The point at index `i`, if there is one.
    fn point_at_idx(&self, i: Option<usize>) -> (r: Option<&P>)
        requires
            i matches Some(i) ==> i < self@.len(),
        ensures
            found(r) == point_of(self@, as_idx(i)),
    {
        match i {
            Some(i) => Some(&self.points[i]),
            None => None,
        }
    }

    /// The point at index `i` along with the index, if there is one.
    fn point_at_idx_with_idx(&self, i: Option<usize>) -> (r: Option<(usize, &P)>)
        requires
            i matches Some(i) ==> i < self@.len(),
        ensures
            found_with_idx(r) == indexed_point_of(self@, as_idx(i)),
    {
        match i {
            Some(i) => Some((i, &self.points[i])),
            None => None,
        }
    }

    /// The index of the `Point` that comes directly before the given `x`.
    pub fn point_idx_before(&self, x: i32) -> (r: Option<usize>)
        ensures
            as_idx(r) == idx_before(self@, x as int, false),
    {
        self.idx_before_exec(x, false)
    }

    /// The index of the `Point` that either lands on or comes directly before
    /// the given `x`.
    pub fn point_idx_on_or_before(&self, x: i32) -> (r: Option<usize>)
        ensures
            as_idx(r) == idx_before(self@, x as int, true),
    {
        self.idx_before_exec(x, true)
    }

    /// The index of the `Point` that comes directly after the given `x`.
    pub fn point_idx_after(&self, x: i32) -> (r: Option<usize>)
        ensures
            as_idx(r) == idx_after(self@, x as int, false),
    {
        self.idx_after_exec(x, false)
    }

    /// The index of the `Point` that either lands on or comes directly after
    /// the given `x`.
    pub fn point_idx_on_or_after(&self, x: i32) -> (r: Option<usize>)
        ensures
            as_idx(r) == idx_after(self@, x as int, true),
    {
        self.idx_after_exec(x, true)
    }

    /// A reference to the point that comes directly before the given `x`.
    pub fn point_before(&self, x: i32) -> (r: Option<&P>)
        ensures
            found(r) == point_of(self@, idx_before(self@, x as int, false)),
    {
        self.point_at_idx(self.idx_before_exec(x, false))
    }

    /// A reference to the point that is equal to or comes directly before the
    /// given `x`.
    pub fn point_on_or_before(&self, x: i32) -> (r: Option<&P>)
        ensures
            found(r) == point_of(self@, idx_before(self@, x as int, true)),
    {
        self.point_at_idx(self.idx_before_exec(x, true))
    }

    /// A reference to the point that comes directly before the given `x`
    /// along with its index.
    pub fn point_before_with_idx(&self, x: i32) -> (r: Option<(usize, &P)>)
        ensures
            found_with_idx(r) == indexed_point_of(self@, idx_before(self@, x as int, false)),
    {
        self.point_at_idx_with_idx(self.idx_before_exec(x, false))
    }

    /// A reference to the point that is equal to or comes directly before the
    /// given `x` along with its index.
    pub fn point_on_or_before_with_idx(&self, x: i32) -> (r: Option<(usize, &P)>)
        ensures
            found_with_idx(r) == indexed_point_of(self@, idx_before(self@, x as int, true)),
    {
        self.point_at_idx_with_idx(self.idx_before_exec(x, true))
    }

    /// A reference to the point that comes directly after the given `x`.
    pub fn point_after(&self, x: i32) -> (r: Option<&P>)
        ensures
            found(r) == point_of(self@, idx_after(self@, x as int, false)),
    {
        self.point_at_idx(self.idx_after_exec(x, false))
    }

    /// A reference to the point that is equal to or comes directly after the
    /// given `x`.
    pub fn point_on_or_after(&self, x: i32) -> (r: Option<&P>)
        ensures
            found(r) == point_of(self@, idx_after(self@, x as int, true)),
    {
        self.point_at_idx(self.idx_after_exec(x, true))
    }

    /// A reference to the point that comes directly after the given `x` along
    /// with its index.
    pub fn point_after_with_idx(&self, x: i32) -> (r: Option<(usize, &P)>)
        ensures
            found_with_idx(r) == indexed_point_of(self@, idx_after(self@, x as int, false)),
    {
        self.point_at_idx_with_idx(self.idx_after_exec(x, false))
    }

    /// A reference to the point that is equal to or comes directly after the
    /// given `x` along with its index.
    pub fn point_on_or_after_with_idx(&self, x: i32) -> (r: Option<(usize, &P)>)
        ensures
            found_with_idx(r) == indexed_point_of(self@, idx_after(self@, x as int, true)),
    {
        self.point_at_idx_with_idx(self.idx_after_exec(x, true))
    }

    /// The index of the first point lying directly on the given `x`.
    fn idx_at_exec(&self, x: i32) -> (r: Option<usize>)
        ensures
            as_idx(r) == idx_at(self@, x as int),
            r matches Some(i) ==> i < self@.len(),
    {
        let n = self.points.len();
        let mut i: usize = 0;
        while i < n
            invariant
                n == self@.len(),
                0 <= i <= n,
                scan_at(self@, x as int, 0) == scan_at(self@, x as int, i as int),
            ensures
                scan_at(self@, x as int, 0) == i,
                i <= n,
            decreases n - i,
        {
            if self.points[i].x() == x {
                break;
            }
            i += 1;
        }
        if i == n {
            None
        } else {
            Some(i)
        }
    }

    /// A reference to the first point lying directly on the given `x` if
    /// there is one.
    pub fn point_at(&self, x: i32) -> (r: Option<&P>)
        ensures
            found(r) == point_of(self@, idx_at(self@, x as int)),
    {
        self.point_at_idx(self.idx_at_exec(x))
    }

    /// A reference to the first point (along with its index) lying directly
    /// on the given `x` if there is one.
    pub fn point_at_with_idx(&self, x: i32) -> (r: Option<(usize, &P)>)
        ensures
            found_with_idx(r) == indexed_point_of(self@, idx_at(self@, x as int)),
    {
        self.point_at_idx_with_idx(self.idx_at_exec(x))
    }

    /// The points that lie on either side of the given `x`: the one on or
    /// before it and the one after it.
    pub fn surrounding_points(&self, x: i32) -> (r: (Option<&P>, Option<&P>))
        ensures
            found(r.0) == point_of(self@, idx_before(self@, x as int, true)),
            found(r.1) == point_of(self@, idx_after(self@, x as int, false)),
    {
        (self.point_on_or_before(x), self.point_after(x))
    }

    /// A reference to the point that is closest to the given `x` if there is
    /// one; of two points as near, the one after `x`.
    pub fn closest_point(&self, x: i32) -> (r: Option<&P>)
        ensures
            found(r) == point_of(self@, idx_closest(self@, x as int)),
    {
        let before = self.idx_before_exec(x, true);
        let after = self.idx_after_exec(x, false);
        let i = match (before, after) {
            (Some(b), Some(a)) => {
                if (x as i64) - (self.points[b].x() as i64) < (self.points[a].x() as i64) - (
                x as i64) {
                    Some(b)
                } else {
                    Some(a)
                }
            },
            (Some(b), None) => Some(b),
            (None, Some(a)) => Some(a),
            (None, None) => None,
        };
        self.point_at_idx(i)
    }

    /// Add a point: it goes after every point at or before its position, so
    /// the points stay sorted and points at one position keep the order in
    /// which they were added.
    pub fn add_point(&mut self, point: P)
        ensures
            final(self)@ == insert_sorted(old(self)@, point),
            sorted(final(self)@),
    {
        proof {
            use_type_invariant(&*self);
            lemma_insert_sorted(self@, point);
        }
        let k = self.run_before_exec(point.x(), true);
        let mut points: Vec<P> = Vec::new();
        std::mem::swap(&mut self.points, &mut points);
        points.insert(k, point);
        std::mem::swap(&mut self.points, &mut points);
    }

    /// An envelope of the given points, sorted by position; points at one
    /// position keep their order.
    pub fn from_points(points: Vec<P>) -> (r: Self)
        ensures
            r@ == sort_by_position(points@),
            sorted(r@),
    {
        let ghost all = points@;
        let mut rest = points;
        let mut env = Envelope::new();
        let ghost mut done: int = 0;
        while rest.len() > 0
            invariant
                0 <= done <= all.len(),
                rest@ == all.skip(done),
                env@ == sort_by_position(all.take(done)),
            decreases rest.len(),
        {
            let point = rest.remove(0);
            proof {
                assert(all.take(done + 1).drop_last() =~= all.take(done));
                assert(rest@ =~= all.skip(done + 1));
            }
            env.add_point(point);
            proof {
                done = done + 1;
            }
        }
        proof {
            assert(all.take(done) =~= all);
            use_type_invariant(&env);
        }
        env
    }

    /// Scanning forward from `from`, the index of the first point at or after
    /// `x`, or the last index.
    fn bracket_end_exec(&self, x: i32, from: usize) -> (r: usize)
        requires
            1 <= from < self@.len(),
        ensures
            r == bracket_end(self@, x as int, from as int),
    {
        let n = self.points.len();
        let mut i: usize = from;
        while i + 1 < n
            invariant
                n == self@.len(),
                1 <= i < n,
                bracket_end(self@, x as int, from as int) == bracket_end(self@, x as int, i as int),
            ensures
                bracket_end(self@, x as int, from as int) == i,
            decreases n - i,
        {
            if self.points[i].x() >= x {
                break;
            }
            i += 1;
        }
        i
    }

    /// The indices of the pair of points that bracket the given `x`: the
    /// first point at or after `x` (searched from the second point on) and
    /// the one before it; the sole point twice where there is one. `None`
    /// where `x` lies outside the points.
    pub fn bracket(&self, x: i32) -> (r: Option<(usize, usize)>)
        ensures
            match r {
                Some((i, j)) => bracket_of(self@, x as int) == Some((i as int, j as int)),
                None => bracket_of(self@, x as int) is None,
            },
    {
        let n = self.points.len();
        if n == 0 {
            return None;
        }
        if x < self.points[0].x() || x > self.points[n - 1].x() {
            return None;
        }
        if n == 1 {
            return Some((0, 0));
        }
        proof {
            lemma_bracket_end(self@, x as int, 1);
        }
        let e = self.bracket_end_exec(x, 1);
        Some((e - 1, e))
    }
}

impl<P: Interpolate> Envelope<P> {
    /// Return `y` for the given `x`: the point's value where only one point
    /// lies there, the value of the bracketing segment otherwise, and `None`
    /// where `x` lies outside the points.
    pub fn y(&self, x: i32) -> (r: Option<i32>)
        ensures
            as_value(r) == value_at(self@, x as int),
    {
        match self.bracket(x) {
            None => None,
            Some((i, j)) => {
                if i == j {
                    Some(self.points[i].y())
                } else {
                    proof {
                        lemma_bracket_end(self@, x as int, 1);
                    }
                    Some(P::interpolate(x, &self.points[i], &self.points[j]))
                }
            },
        }
    }

    /// Sample the envelope every `step` from `start` on, reusing the last
    /// bracket rather than searching from the first point each time. `None`
    /// where `start` lies outside the points.
    pub fn steps<'a>(&'a self, start: i32, step: u32) -> (r: Option<Steps<'a, P>>)
        ensures
            r is Some <==> in_range(self@, start as int),
            r matches Some(steps) ==> {
                &&& steps.points() == self@
                &&& steps.position() == start
                &&& steps.step_size() == step
                &&& !steps.exhausted()
            },
    {
        let n = self.points.len();
        if n == 0 {
            return None;
        }
        if start < self.points[0].x() || start > self.points[n - 1].x() {
            return None;
        }
        let right = if n == 1 {
            1
        } else {
            proof {
                lemma_bracket_end(self@, start as int, 1);
            }
            self.bracket_end_exec(start, 1)
        };
        Some(Steps { env: self, step, next_x: start as i64, right, exhausted: false })
    }
}

/// Samples of an envelope, one `step` apart: each is the envelope's value at
/// its position, until the first position past the last point.
pub struct Steps<'a, P: Interpolate> {
    env: &'a Envelope<P>,
    step: u32,
    next_x: i64,
    right: usize,
    exhausted: bool,
}

impl<'a, P: Interpolate> Steps<'a, P> {
    #[verifier::type_invariant]
    spec fn inv(&self) -> bool {
        let s = self.env@;
        &&& s.len() >= 1
        &&& s[0].pos() <= self.next_x
        &&& 1 <= self.right
        &&& (s.len() >= 2 ==> self.right < s.len())
        &&& forall|j: int| 1 <= j < self.right ==> #[trigger] s[j].pos() < self.next_x
    }

    /// The points of the envelope that is sampled.
    pub closed spec fn points(&self) -> Seq<P> {
        self.env@
    }

    /// The position of the next sample.
    pub closed spec fn position(&self) -> int {
        self.next_x as int
    }

    /// The distance between two samples.
    pub closed spec fn step_size(&self) -> int {
        self.step as int
    }

    /// A position past the last point has been reached: no sample follows.
    pub closed spec fn exhausted(&self) -> bool {
        self.exhausted
    }

    /// Change the step: useful when the step size must change between steps.
    pub fn set_step(&mut self, step: u32)
        ensures
            final(self).points() == old(self).points(),
            final(self).position() == old(self).position(),
            final(self).exhausted() == old(self).exhausted(),
            final(self).step_size() == step,
    {
        proof {
            use_type_invariant(&*self);
        }
        self.step = step;
    }

    /// The next sample: the envelope's value at the current position, after
    /// which the position moves on by the step. `None` from the first
    /// position past the last point on.
    pub fn next(&mut self) -> (r: Option<i32>)
        ensures
            final(self).points() == old(self).points(),
            final(self).step_size() == old(self).step_size(),
            r is Some <==> !old(self).exhausted() && old(self).position()
                <= old(self).points().last().pos(),
            r is Some ==> as_value(r) == value_at(old(self).points(), old(self).position()),
            final(self).exhausted() == r is None,
            final(self).position() == if r is Some {
                old(self).position() + old(self).step_size()
            } else {
                old(self).position()
            },
    {
        proof {
            use_type_invariant(&*self);
        }
        if self.exhausted {
            return None;
        }
        let env: &'a Envelope<P> = self.env;
        let n = env.points.len();
        if self.next_x > env.points[n - 1].x() as i64 {
            self.exhausted = true;
            return None;
        }
        let x = self.next_x as i32;
        let value = if n == 1 {
            env.points[0].y()
        } else {
            proof {
                lemma_bracket_end(env@, x as int, self.right as int);
            }
            let right = env.bracket_end_exec(x, self.right);
            self.right = right;
            P::interpolate(x, &env.points[right - 1], &env.points[right])
        };
        self.next_x = x as i64 + self.step as i64;
        Some(value)
    }

    /// The next sample along with its position.
    pub fn next_xy(&mut self) -> (r: Option<(i32, i32)>)
        ensures
            final(self).points() == old(self).points(),
            final(self).step_size() == old(self).step_size(),
            r is Some <==> !old(self).exhausted() && old(self).position()
                <= old(self).points().last().pos(),
            r matches Some((x, y)) ==> {
                &&& x == old(self).position()
                &&& value_at(old(self).points(), x as int) == Some(y as int)
            },
            final(self).exhausted() == r is None,
            final(self).position() == if r is Some {
                old(self).position() + old(self).step_size()
            } else {
                old(self).position()
            },
    {
        proof {
            use_type_invariant(&*self);
        }
        let x = self.next_x;
        match self.next() {
            Some(y) => Some((x as i32, y)),
            None => None,
        }
    }
}

/// A forward scan stops at the first point that does not come before `x`.
proof fn lemma_run_before<P: Point>(s: Seq<P>, x: int, inclusive: bool, i: int)
    requires
        0 <= i <= s.len(),
    ensures
        i <= run_before(s, x, inclusive, i) <= s.len(),
        forall|j: int|
            i <= j < run_before(s, x, inclusive, i) ==> comes_before(
                #[trigger] s[j].pos() as int,
                x,
                inclusive,
            ),
        run_before(s, x, inclusive, i) < s.len() ==> !comes_before(
            s[run_before(s, x, inclusive, i)].pos() as int,
            x,
            inclusive,
        ),
    decreases s.len() - i,
{
    if i < s.len() && comes_before(s[i].pos() as int, x, inclusive) {
        lemma_run_before(s, x, inclusive, i + 1);
    }
}

/// Inserting a point at its stable place keeps the points sorted.
pub proof fn lemma_insert_sorted<P: Point>(s: Seq<P>, p: P)
    requires
        sorted(s),
    ensures
        sorted(insert_sorted(s, p)),
{
    let k = run_before(s, p.pos() as int, true, 0);
    lemma_run_before(s, p.pos() as int, true, 0);
    let t = insert_sorted(s, p);
    assert forall|a: int, b: int| 0 <= a <= b < t.len() implies t[a].pos() <= t[b].pos() by {
        if k < s.len() {
            assert(s[k].pos() > p.pos());
        }
        if a < k {
            assert(s[a].pos() <= p.pos());
        }
    }
}

/// The end of a bracket, scanned for from `from`: it is the first point at or
/// after `x`, every point between the second and it comes before `x`, and
/// the scan may start at any point after which it would not have stopped.
proof fn lemma_bracket_end<P: Point>(s: Seq<P>, x: int, from: int)
    requires
        1 <= from < s.len(),
        s.last().pos() >= x,
        forall|j: int| 1 <= j < from ==> #[trigger] s[j].pos() < x,
    ensures
        from <= bracket_end(s, x, from) < s.len(),
        s[bracket_end(s, x, from)].pos() >= x,
        forall|j: int| 1 <= j < bracket_end(s, x, from) ==> #[trigger] s[j].pos() < x,
        bracket_end(s, x, 1) == bracket_end(s, x, from),
    decreases s.len() - from,
{
    if from + 1 < s.len() && s[from].pos() < x {
        lemma_bracket_end(s, x, from + 1);
    }
    lemma_bracket_end_from_start(s, x, from);
}

/// Starting the scan for the end of a bracket past points that come before
/// `x` does not change where it ends.
proof fn lemma_bracket_end_from_start<P: Point>(s: Seq<P>, x: int, from: int)
    requires
        1 <= from < s.len(),
        forall|j: int| 1 <= j < from ==> #[trigger] s[j].pos() < x,
    ensures
        bracket_end(s, x, 1) == bracket_end(s, x, from),
    decreases from,
{
    if from > 1 {
        lemma_bracket_end_from_start(s, x, from - 1);
    }
}

/// A backward scan ends within the points it started from.
proof fn lemma_run_after_bounds<P: Point>(s: Seq<P>, x: int, inclusive: bool, i: int)
    requires
        0 <= i <= s.len(),
    ensures
        0 <= run_after(s, x, inclusive, i) <= i,
    decreases i,
{
    if 0 < i && comes_after(s[i - 1].pos() as int, x, inclusive) {
        lemma_run_after_bounds(s, x, inclusive, i - 1);
    }
}

/// The envelope takes the value of a point at its position, where no earlier
/// point lies there too.
pub proof fn lemma_value_at_point<P: Interpolate>(s: Seq<P>, k: int)
    requires
        sorted(s),
        0 <= k < s.len(),
        k == 0 || s[k - 1].pos() < s[k].pos(),
    ensures
        value_at(s, s[k].pos() as int) == Some(s[k].val() as int),
{
    let x = s[k].pos() as int;
    assert(s[0].pos() <= x <= s.last().pos());
    if s.len() > 1 {
        let e = if k == 0 {
            1
        } else {
            k
        };
        assert forall|j: int| 1 <= j < e implies #[trigger] s[j].pos() < x by {
            assert(s[j].pos() <= s[k - 1].pos());
        }
        lemma_bracket_end_from_start(s, x, e);
        assert(bracket_end(s, x, e) == e);
        P::lemma_interpolate_exact(x, s[e - 1], s[e]);
    }
}

/// The envelope has no value before its first point or after its last.
pub proof fn lemma_outside_range<P: Interpolate>(s: Seq<P>, x: int)
    requires
        s.len() > 0,
        x < s[0].pos() || x > s.last().pos(),
    ensures
        value_at(s, x) is None,
{
}

/// An envelope of a single point has that point's value at its position and
/// no value anywhere else.
pub proof fn lemma_single_point<P: Interpolate>(s: Seq<P>, x: int)
    requires
        s.len() == 1,
    ensures
        value_at(s, x) == if x == s[0].pos() {
            Some(s[0].val() as int)
        } else {
            None
        },
{
}

/// Between two points without a shape (a curve of 0), the envelope's value
/// moves monotonically from the start value to the end value as the
/// position moves from the start to the end.
pub proof fn lemma_linear_monotonic(start: BezierPoint, end: BezierPoint, x1: int, x2: int)
    requires
        start.curve == 0,
        start.y != end.y,
        start.x <= x1 <= x2 <= end.x,
    ensures
        ({
            let s = seq![start, end];
            &&& value_at(s, x1) matches Some(v1)
            &&& value_at(s, x2) matches Some(v2)
            &&& start.y < end.y ==> start.y <= v1 <= v2 <= end.y
            &&& start.y > end.y ==> start.y >= v1 >= v2 >= end.y
        }),
{
    let s = seq![start, end];
    assert(s[0] == start && s[1] == end && s.last() == end);
    assert(bracket_end(s, x1, 1) == 1);
    assert(bracket_end(s, x2, 1) == 1);
    lemma_zero_curve_is_linear(x1, start, end);
    lemma_zero_curve_is_linear(x2, start, end);
    lemma_linear_between(x1, start, end);
    lemma_linear_between(x2, start, end);
    if start.x < end.x {
        let rise = rise_of(start, end);
        let q = span_of(start, end);
        let p1 = progress_of(x1, start);
        let p2 = progress_of(x2, start);
        lemma_linear_formula(x1, start, end);
        lemma_linear_formula(x2, start, end);
        if rise >= 0 {
            assert(rise * p1 <= rise * p2) by (nonlinear_arith)
                requires
                    rise >= 0,
                    p1 <= p2,
            ;
            lemma_div_is_ordered(rise * p1, rise * p2, q);
        } else {
            assert(rise * p2 <= rise * p1) by (nonlinear_arith)
                requires
                    rise < 0,
                    p1 <= p2,
            ;
            lemma_div_is_ordered(rise * p2, rise * p1, q);
        }
    }
}

/// On a segment of positive length, the linear blend is the formula itself,
/// at the points as well as between them.
proof fn lemma_linear_formula<P: Point>(x: int, start: P, end: P)
    requires
        start.pos() <= x <= end.pos(),
        start.pos() < end.pos(),
    ensures
        linear_at(x, start, end) == start.val() + (rise_of(start, end) * progress_of(x, start))
            / span_of(start, end),
{
    let rise = rise_of(start, end);
    let q = span_of(start, end);
    if rise == 0 {
        assert(rise * progress_of(x, start) == 0);
        lemma_div_multiples_vanish(0, q);
    } else if x == start.pos() {
        let p = progress_of(x, start);
        assert(rise * p == 0) by (nonlinear_arith)
            requires
                p == 0,
        ;
        lemma_div_multiples_vanish(0, q);
    } else if x == end.pos() {
        assert(rise * q == q * rise) by (nonlinear_arith);
        lemma_div_multiples_vanish(rise, q);
    }
}

/// A point added at or after the last position is appended: points added
/// in order of position stay in the order in which they were added.
pub proof fn lemma_add_in_order<P: Point>(s: Seq<P>, p: P)
    requires
        sorted(s),
        s.len() == 0 || s.last().pos() <= p.pos(),
    ensures
        insert_sorted(s, p) == s.push(p),
{
    lemma_run_before(s, p.pos() as int, true, 0);
    let k = run_before(s, p.pos() as int, true, 0);
    if k < s.len() {
        assert(s[k].pos() <= s.last().pos());
    }
    assert(insert_sorted(s, p) =~= s.push(p));
}

/// Sorting points that are already sorted leaves them as they are.
pub proof fn lemma_sort_sorted<P: Point>(s: Seq<P>)
    requires
        sorted(s),
    ensures
        sort_by_position(s) == s,
    decreases s.len(),
{
    if s.len() > 0 {
        let init = s.drop_last();
        assert(sorted(init));
        lemma_sort_sorted(init);
        lemma_add_in_order(init, s.last());
        assert(init.push(s.last()) =~= s);
    }
}

/// Points sorted by position, in whatever order they came, are sorted.
pub proof fn lemma_sort_is_sorted<P: Point>(s: Seq<P>)
    ensures
        sorted(sort_by_position(s)),
    decreases s.len(),
{
    if s.len() > 0 {
        lemma_sort_is_sorted(s.drop_last());
        lemma_insert_sorted(sort_by_position(s.drop_last()), s.last());
    }
}

} // verus!
