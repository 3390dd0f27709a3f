//! Generic utilities.

use vstd::prelude::*;

verus! {

/// A value of `A`, a value of `B`, or one of each.
pub enum EitherOrBoth<A, B> {
    /// Both values
    Both(A, B),
    /// Just a value of type A
    Left(A),
    /// Just a value of type B
    Right(B),
}

impl<A, B> EitherOrBoth<A, B> {
    /// The left value, if present.
    pub fn left(&self) -> (r: Option<&A>)
        ensures
            r == match *self {
                EitherOrBoth::Both(a, _) => Some(&a),
                EitherOrBoth::Left(a) => Some(&a),
                EitherOrBoth::Right(_) => None,
            },
    {
        match self {
            Self::Both(a, _) => Some(a),
            Self::Left(a) => Some(a),
            Self::Right(_) => None,
        }
    }

    /// The right value, if present.
    pub fn right(&self) -> (r: Option<&B>)
        ensures
            r == match *self {
                EitherOrBoth::Both(_, b) => Some(&b),
                EitherOrBoth::Left(_) => None,
                EitherOrBoth::Right(b) => Some(&b),
            },
    {
        match self {
            Self::Both(_, b) => Some(b),
            Self::Left(_) => None,
            Self::Right(b) => Some(b),
        }
    }
}

impl<T> EitherOrBoth<T, T> {
    /// The right value if present, and the left one otherwise.
    pub fn right_or_left(&self) -> (r: &T)
        ensures
            *r == match *self {
                EitherOrBoth::Left(a) => a,
                EitherOrBoth::Right(b) => b,
                EitherOrBoth::Both(_, b) => b,
            },
    {
        match self {
            Self::Left(a) => a,
            Self::Right(b) => b,
            Self::Both(_a, b) => b,
        }
    }
}

/// `Some(v)` when `b` holds, and `None` otherwise.
pub fn then_some<T>(b: bool, v: T) -> (r: Option<T>)
    ensures
        r == if b { Some(v) } else { None },
{
    if b {
        Some(v)
    } else {
        None
    }
}

} // verus!
