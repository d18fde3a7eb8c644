//! Reverse-mode automatic differentiation on a graph that is recorded as
//! the computation runs.
//!
//! A [`Graph`] owns the nodes; a [`Variable`] names one of them. Leaves are
//! made with [`Variable::new`], computed nodes with [`square`], [`exp`],
//! [`add`] or, for an operation of one's own, [`Graph::apply`].
//! [`Variable::backward`] then sends gradients from a result back to
//! everything that it was computed from.
//!
//! The crate does no arithmetic of its own. Values come in through the
//! traits [`Value`] and [`Numeric`], operations through [`Function`], and
//! nothing is assumed of what their methods return: the contracts say what
//! the graph does with the answers, whatever they are. The module [`pass`]
//! defines the outcomes that a backward pass can have, [`laws`] proves what
//! follows from that definition for every graph, and [`small_graphs`] what
//! it comes to for one operation on a leaf and for a leaf that is used
//! twice.

use vstd::prelude::*;

pub mod backward;
pub mod error;
pub mod function;
pub mod graph;
pub mod laws;
pub mod ops;
pub mod pass;
pub mod small_graphs;
pub mod tape;
pub mod value;

pub use crate::error::Error;
pub use crate::function::{Function, Operation};
pub use crate::graph::{Graph, Variable};
pub use crate::ops::Op;
pub use crate::value::{Numeric, Value};

use crate::graph::positions;
use crate::ops::computed;
use crate::tape::{input_data, lemma_generation_of_one, lemma_generation_of_two};
use crate::value::{exp_answer, plus_answer, powi_answer};

verus! {

/// Records the square of the node `x` as a new node of `graph`, and
/// returns it.
pub fn square<V: Numeric>(graph: &mut Graph<V, Op>, x: &Variable) -> (y: Variable)
    requires
        old(graph).wf(),
        x@ < old(graph)@.len(),
    ensures
        final(graph).wf(),
        y@ == old(graph)@.len(),
        final(graph)@.len() == old(graph)@.len() + 1,
        powi_answer(old(graph)@[x@].data, 2, final(graph)@[y@].data),
        final(graph)@ == old(graph)@.push(
            computed(old(graph)@, Op::Square, seq![x@], final(graph)@[y@].data),
        ),
        final(graph)@[y@].generation == old(graph)@[x@].generation + 1,
{
    let ghost t = graph@;
    let inputs = [*x];
    proof {
        assert(positions(inputs@) =~= seq![x@]);
        assert(input_data(t, seq![x@]) =~= seq![t[x@].data]);
        lemma_generation_of_one(t, x@);
    }
    match graph.apply(Op::Square, &inputs) {
        Ok(y) => y,
        Err(_) => unreached(),
    }
}

/// Records the exponential of the node `x` as a new node of `graph`, and
/// returns it.
pub fn exp<V: Numeric>(graph: &mut Graph<V, Op>, x: &Variable) -> (y: Variable)
    requires
        old(graph).wf(),
        x@ < old(graph)@.len(),
    ensures
        final(graph).wf(),
        y@ == old(graph)@.len(),
        final(graph)@.len() == old(graph)@.len() + 1,
        exp_answer(old(graph)@[x@].data, final(graph)@[y@].data),
        final(graph)@ == old(graph)@.push(
            computed(old(graph)@, Op::Exp, seq![x@], final(graph)@[y@].data),
        ),
        final(graph)@[y@].generation == old(graph)@[x@].generation + 1,
{
    let ghost t = graph@;
    let inputs = [*x];
    proof {
        assert(positions(inputs@) =~= seq![x@]);
        assert(input_data(t, seq![x@]) =~= seq![t[x@].data]);
        lemma_generation_of_one(t, x@);
    }
    match graph.apply(Op::Exp, &inputs) {
        Ok(y) => y,
        Err(_) => unreached(),
    }
}

/// Records the sum of the nodes `x0` and `x1` as a new node of `graph`,
/// and returns it. Where the two values cannot be added, the graph is left
/// unchanged and the result is `ShapeMismatch`.
pub fn add<V: Numeric>(graph: &mut Graph<V, Op>, x0: &Variable, x1: &Variable) -> (r: Result<
    Variable,
    Error,
>)
    requires
        old(graph).wf(),
        x0@ < old(graph)@.len(),
        x1@ < old(graph)@.len(),
    ensures
        final(graph).wf(),
        match r {
            Ok(y) => {
                &&& y@ == old(graph)@.len()
                &&& final(graph)@.len() == old(graph)@.len() + 1
                &&& plus_answer(
                    old(graph)@[x0@].data,
                    old(graph)@[x1@].data,
                    Some(final(graph)@[y@].data),
                )
                &&& final(graph)@ == old(graph)@.push(
                    computed(old(graph)@, Op::Add, seq![x0@, x1@], final(graph)@[y@].data),
                )
                &&& final(graph)@[y@].generation == (if old(graph)@[x0@].generation > old(
                    graph,
                )@[x1@].generation {
                    old(graph)@[x0@].generation
                } else {
                    old(graph)@[x1@].generation
                }) + 1
            },
            Err(e) => {
                &&& e == Error::ShapeMismatch
                &&& final(graph)@ == old(graph)@
                &&& plus_answer(old(graph)@[x0@].data, old(graph)@[x1@].data, None)
            },
        },
{
    let ghost t = graph@;
    let inputs = [*x0, *x1];
    proof {
        assert(positions(inputs@) =~= seq![x0@, x1@]);
        assert(input_data(t, seq![x0@, x1@]) =~= seq![t[x0@].data, t[x1@].data]);
        lemma_generation_of_two(t, x0@, x1@);
    }
    graph.apply(Op::Add, &inputs)
}

} // verus!
