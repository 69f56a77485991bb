use vstd::prelude::*;

use interpolation::EaseFunction;

use crate::interpolate::{self, brackets, exact_at, linear_at, progress_of, span_of};
use crate::point::Point;

verus! {

/// The easing curves of the `interpolation` crate, carried by eased points.
#[verifier::external_type_specification]
#[verifier::external_body]
pub struct ExEaseFunction(EaseFunction);

/// A point whose outgoing segment may follow an easing curve.
#[derive(Debug, Clone, Copy)]
pub struct EasePoint {
    pub x: i32,
    pub y: i32,
    pub maybe_ease_fn: Option<EaseFunction>,
}

/// The first step of interpolating between two eased points.
pub enum EaseStep {
    /// The value is known without easing: the position lands on a point,
    /// both values are equal, or the segment is linear.
    Value(i32),
    /// The segment follows `ease_fn`: apply it to the blend factor
    /// `num / den` and hand the eased factor to `interpolate::ease`.
    Ease { ease_fn: EaseFunction, num: i64, den: i64 },
}

impl EasePoint {
    /// Constructor for an EasePoint.
    pub fn new(x: i32, y: i32, maybe_ease_fn: Option<EaseFunction>) -> (r: EasePoint)
        ensures
            r.x == x,
            r.y == y,
            r.maybe_ease_fn == maybe_ease_fn,
    {
        EasePoint { x, y, maybe_ease_fn }
    }

    /// Interpolate between two points at `x`: the value itself where no
    /// easing is needed, else the easing curve and the blend factor that it
    /// is applied to.
    pub fn interpolate(x: i32, start: &EasePoint, end: &EasePoint) -> (r: EaseStep)
        requires
            brackets(x as int, *start, *end),
        ensures
            match r {
                EaseStep::Value(v) => {
                    ||| exact_at(x as int, *start, *end) == Some(v)
                    ||| start.maybe_ease_fn is None && v == linear_at(x as int, *start, *end)
                },
                EaseStep::Ease { ease_fn, num, den } => {
                    &&& exact_at(x as int, *start, *end) is None
                    &&& start.maybe_ease_fn == Some(ease_fn)
                    &&& num == progress_of(x as int, *start)
                    &&& den == span_of(*start, *end)
                    &&& den > 0
                },
            },
            exact_at(x as int, *start, *end) matches Some(v) ==> r == EaseStep::Value(v),
            start.maybe_ease_fn is None ==> r == EaseStep::Value(
                linear_at(x as int, *start, *end) as i32,
            ),
    {
        match start.maybe_ease_fn {
            None => EaseStep::Value(interpolate::linear(x, start, end)),
            Some(ease_fn) => match interpolate::maybe_exact_point(x, start, end) {
                Some(v) => EaseStep::Value(v),
                None => {
                    let (num, den) = interpolate::blend_factor(x, start, end);
                    EaseStep::Ease { ease_fn, num, den }
                },
            },
        }
    }
}

impl Point for EasePoint {
    open spec fn pos(&self) -> i32 {
        self.x
    }

    open spec fn val(&self) -> i32 {
        self.y
    }

    fn x(&self) -> (r: i32) {
        self.x
    }

    fn y(&self) -> (r: i32) {
        self.y
    }
}

} // verus!
