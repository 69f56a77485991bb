use vstd::prelude::*;

use crate::interpolate::{brackets, exact_at};

verus! {

/// Integer types that convert without loss into the arithmetic domain
/// (`i128`) in which the interpolators blend.
pub trait Scalar: Copy {
    /// The mathematical value of the scalar.
    spec fn as_wide(&self) -> int;

    /// The scalar, widened into the arithmetic domain.
    fn to_wide(&self) -> (r: i128)
        ensures
            r as int == self.as_wide(),
    ;
}

impl Scalar for i32 {
    open spec fn as_wide(&self) -> int {
        *self as int
    }

    fn to_wide(&self) -> (r: i128) {
        *self as i128
    }
}

impl Scalar for i16 {
    open spec fn as_wide(&self) -> int {
        *self as int
    }

    fn to_wide(&self) -> (r: i128) {
        *self as i128
    }
}

/// A control point of an envelope: a position (X) and a value (Y).
pub trait Point {
    /// The position of the point.
    spec fn pos(&self) -> i32;

    /// The value of the point.
    spec fn val(&self) -> i32;

    /// X (often associated with time).
    fn x(&self) -> (r: i32)
        ensures
            r == self.pos(),
    ;

    /// Y (often associated with some value).
    fn y(&self) -> (r: i32)
        ensures
            r == self.val(),
    ;
}

/// A point that fixes how the segment leading out of it is blended.
pub trait Interpolate: Point + Sized {
    /// The value at `x` of the segment from `start` to `end`.
    spec fn interpolate_at(x: int, start: Self, end: Self) -> int;

    /// Where no blending is needed, the segment takes the value that needs
    /// none.
    proof fn lemma_interpolate_exact(x: int, start: Self, end: Self)
        requires
            brackets(x, start, end),
        ensures
            exact_at(x, start, end) matches Some(v) ==> Self::interpolate_at(x, start, end) == v,
    ;

    /// Interpolate between two points and return y for the given x.
    fn interpolate(x: i32, start: &Self, end: &Self) -> (r: i32)
        requires
            brackets(x as int, *start, *end),
        ensures
            r == Self::interpolate_at(x as int, *start, *end),
    ;
}

} // verus!
