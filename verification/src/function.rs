//! What the graph asks of an operation.

use vstd::prelude::*;
use crate::value::Value;

verus! {

/// The values behind a sequence of borrowed values.
pub open spec fn values<V>(xs: Seq<&V>) -> Seq<V> {
    Seq::new(xs.len(), |k: int| *xs[k])
}

/// What an operation is before it meets a kind of value.
pub trait Operation: Sized {
    /// The number of inputs that the operation takes.
    fn arity(&self) -> usize;
}

/// A differentiable operation: a forward computation and the rule that
/// turns the gradient of its output into one gradient for each input.
///
/// The engine assumes nothing of an implementation. It hands `forward` as
/// many values as `arity` asked for; it counts what `backward` hands back
/// and compares each gradient's shape with that of the input it is for.
pub trait Function<V: Value>: Operation {
    /// The output for the inputs `xs`, or `None` where the operation is not
    /// defined on them.
    fn forward(&self, xs: &Vec<&V>) -> Option<V>;

    /// One gradient for each of the inputs `xs`, in their order, given the
    /// gradient `gy` of the output; `None` where the operation is not
    /// defined on these values.
    fn backward(&self, xs: &Vec<&V>, gy: &V) -> Option<Vec<V>>;
}

/// `n` is an answer of `f.arity()`.
pub open spec fn arity_answer<F: Operation>(f: F, n: usize) -> bool {
    call_ensures(F::arity, (&f,), n)
}

/// `y` is an answer of `f.forward(..)` on the values `xs`.
pub open spec fn forward_answer<V: Value, F: Function<V>>(f: F, xs: Seq<V>, y: Option<V>) -> bool {
    exists|v: Vec<&V>| values(v@) == xs && #[trigger] call_ensures(F::forward, (&f, &v), y)
}

/// `gxs` is an answer of `f.backward(..)` on the values `xs` and the
/// gradient `gy`.
pub open spec fn backward_answer<V: Value, F: Function<V>>(
    f: F,
    xs: Seq<V>,
    gy: V,
    gxs: Option<Vec<V>>,
) -> bool {
    exists|v: Vec<&V>| values(v@) == xs && #[trigger] call_ensures(F::backward, (&f, &v, &gy), gxs)
}

} // verus!
