use vstd::prelude::*;

use crate::interpolate::{self, bezier_at, brackets, exact_at};
use crate::point::{Interpolate, Point};

verus! {

/// A point whose outgoing segment bends along a quadratic bezier-like curve.
///
/// `curve` is given in thousandths (see `interpolate::CURVE_ONE`): 0 is the
/// straight line, and values in [-1000, 1000] keep the segment between its
/// two end values.
#[derive(Debug, Clone, Copy, PartialEq, Eq, Structural)]
pub struct BezierPoint {
    pub x: i32,
    pub y: i32,
    pub curve: i16,
}

impl BezierPoint {
    /// Constructor for a BezierPoint.
    pub fn new(x: i32, y: i32, curve: i16) -> (r: BezierPoint)
        ensures
            r.x == x,
            r.y == y,
            r.curve == curve,
    {
        BezierPoint { x, y, curve }
    }
}

impl Point for BezierPoint {
    open spec fn pos(&self) -> i32 {
        self.x
    }

    open spec fn val(&self) -> i32 {
        self.y
    }

    fn x(&self) -> (r: i32) {
        self.x
    }

    fn y(&self) -> (r: i32) {
        self.y
    }
}

impl Interpolate for BezierPoint {
    open spec fn interpolate_at(x: int, start: Self, end: Self) -> int {
        bezier_at(x, start, end, start.curve as int)
    }

    proof fn lemma_interpolate_exact(x: int, start: Self, end: Self) {
    }

    fn interpolate(x: i32, start: &Self, end: &Self) -> (r: i32) {
        interpolate::bezier(x, start, end, start.curve)
    }
}

} // verus!
