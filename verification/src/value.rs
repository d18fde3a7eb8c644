//! What the graph asks of the values that it holds.

use vstd::prelude::*;

verus! {

/// A numeric payload that the engine stores, seeds and accumulates.
///
/// The engine never looks inside a value and assumes nothing of what an
/// implementation returns: whatever comes back from a method is taken as
/// it is, and the contracts of this crate speak of it as "an answer" of
/// that method (see [`shape_answer`], [`ones_answer`], [`plus_answer`]).
pub trait Value: Sized {
    /// Whether the two values have the same extents.
    fn same_shape(&self, other: &Self) -> bool;

    /// A value of ones with the extents of `self`, or `None` where the
    /// value has no such companion.
    fn ones_like(&self) -> Option<Self>;

    /// The elementwise sum, or `None` where the two values do not fit
    /// together.
    fn plus(&self, rhs: &Self) -> Option<Self>;
}

/// `same` is an answer of `a.same_shape(&b)`.
pub open spec fn shape_answer<V: Value>(a: V, b: V, same: bool) -> bool {
    call_ensures(V::same_shape, (&a, &b), same)
}

/// `one` is an answer of `a.ones_like()`.
pub open spec fn ones_answer<V: Value>(a: V, one: Option<V>) -> bool {
    call_ensures(V::ones_like, (&a,), one)
}

/// `sum` is an answer of `a.plus(&b)`.
pub open spec fn plus_answer<V: Value>(a: V, b: V, sum: Option<V>) -> bool {
    call_ensures(V::plus, (&a, &b), sum)
}

/// The elementwise arithmetic that the operations of this crate are built
/// from. As with [`Value`], nothing is assumed of an implementation.
pub trait Numeric: Value {
    /// The elementwise product, or `None` where the two values do not fit
    /// together.
    fn times(&self, rhs: &Self) -> Option<Self>;

    /// Every element multiplied by the integer `factor`.
    fn scaled(&self, factor: i32) -> Self;

    /// Every element raised to the integer power `exponent`.
    fn powi(&self, exponent: i32) -> Self;

    /// The exponential function applied to every element.
    fn exp(&self) -> Self;

    /// A copy of the value.
    fn duplicate(&self) -> Self;
}

/// `product` is an answer of `a.times(&b)`.
pub open spec fn times_answer<V: Numeric>(a: V, b: V, product: Option<V>) -> bool {
    call_ensures(V::times, (&a, &b), product)
}

/// `r` is an answer of `a.scaled(factor)`.
pub open spec fn scaled_answer<V: Numeric>(a: V, factor: i32, r: V) -> bool {
    call_ensures(V::scaled, (&a, factor), r)
}

/// `r` is an answer of `a.powi(exponent)`.
pub open spec fn powi_answer<V: Numeric>(a: V, exponent: i32, r: V) -> bool {
    call_ensures(V::powi, (&a, exponent), r)
}

/// `r` is an answer of `a.exp()`.
pub open spec fn exp_answer<V: Numeric>(a: V, r: V) -> bool {
    call_ensures(V::exp, (&a,), r)
}

/// `r` is an answer of `a.duplicate()`.
pub open spec fn duplicate_answer<V: Numeric>(a: V, r: V) -> bool {
    call_ensures(V::duplicate, (&a,), r)
}

} // verus!
