//! The operations that come with the crate: square, exponential and sum.

use vstd::prelude::*;
use crate::function::{backward_answer, values, Function, Operation};
use crate::tape::{derived_generation, NodeView, RecordView, Tape};
use crate::value::{
    duplicate_answer, exp_answer, plus_answer, powi_answer, scaled_answer, times_answer, Numeric,
};

verus! {

/// The operations that this crate brings along.
#[derive(Clone, Copy, Debug, PartialEq, Eq, Structural)]
pub enum Op {
    /// `x` squared, elementwise.
    Square,
    /// The exponential of `x`, elementwise.
    Exp,
    /// `x0 + x1`, elementwise.
    Add,
}

/// The node that a graph gains when `op` is applied to the nodes at
/// `inputs` and gives `data`.
pub open spec fn computed<V>(
    t: Tape<V, Op>,
    op: Op,
    inputs: Seq<int>,
    data: V,
) -> NodeView<V, Op> {
    NodeView {
        data,
        grad: None,
        creator: Some(RecordView { function: op, inputs }),
        generation: derived_generation(t, inputs),
    }
}

/// The number of inputs that `op` takes.
pub open spec fn op_arity(op: Op) -> usize {
    match op {
        Op::Square => 1,
        Op::Exp => 1,
        Op::Add => 2,
    }
}

/// Whether `y` is what `op` can give for the inputs `xs`: the square of the
/// one input, its exponential, or the sum of the two inputs; nothing for
/// another number of inputs, or where the two do not add.
pub open spec fn forward_of<V: Numeric>(op: Op, xs: Seq<V>, y: Option<V>) -> bool {
    match op {
        Op::Square => if xs.len() == 1 {
            y matches Some(v) && powi_answer(xs[0], 2, v)
        } else {
            y is None
        },
        Op::Exp => if xs.len() == 1 {
            y matches Some(v) && exp_answer(xs[0], v)
        } else {
            y is None
        },
        Op::Add => if xs.len() == 2 {
            plus_answer(xs[0], xs[1], y)
        } else {
            y is None
        },
    }
}

/// Whether `gxs` is the one gradient that the chain rule gives for an
/// operation of one input: the derivative `d` of the operation at the
/// input, times the gradient `gy` of the output.
pub open spec fn chained<V: Numeric>(d: V, gy: V, gxs: Option<Seq<V>>) -> bool {
    match gxs {
        Some(s) => s.len() == 1 && times_answer(d, gy, Some(s[0])),
        None => times_answer(d, gy, None),
    }
}

/// Whether `gxs` is what `op` can hand back for the inputs `xs` and the
/// gradient `gy` of its output: `2 x gy` for the square, `exp(x) gy` for
/// the exponential, and `gy` for each of the two inputs of the sum.
pub open spec fn backward_of<V: Numeric>(op: Op, xs: Seq<V>, gy: V, gxs: Option<Seq<V>>) -> bool {
    match op {
        Op::Square => if xs.len() == 1 {
            exists|d: V| #[trigger] scaled_answer(xs[0], 2, d) && chained(d, gy, gxs)
        } else {
            gxs is None
        },
        Op::Exp => if xs.len() == 1 {
            exists|d: V| #[trigger] exp_answer(xs[0], d) && chained(d, gy, gxs)
        } else {
            gxs is None
        },
        Op::Add => if xs.len() == 2 {
            gxs matches Some(s) && s.len() == 2 && duplicate_answer(gy, s[0]) && duplicate_answer(
                gy,
                s[1],
            )
        } else {
            gxs is None
        },
    }
}

/// The view of the gradients that an operation handed back.
pub open spec fn handed<V>(gxs: Option<Vec<V>>) -> Option<Seq<V>> {
    match gxs {
        Some(v) => Some(v@),
        None => None,
    }
}

fn one_gradient<V: Numeric>(d: V, gy: &V) -> (gxs: Option<Vec<V>>)
    ensures
        chained(d, *gy, handed(gxs)),
{
    match d.times(gy) {
        Some(gx) => {
            let mut gxs: Vec<V> = Vec::new();
            gxs.push(gx);
            Some(gxs)
        },
        None => None,
    }
}

impl Operation for Op {
    fn arity(&self) -> (n: usize)
        ensures
            n == op_arity(*self),
    {
        match self {
            Op::Square => 1,
            Op::Exp => 1,
            Op::Add => 2,
        }
    }
}

impl<V: Numeric> Function<V> for Op {
    fn forward(&self, xs: &Vec<&V>) -> (y: Option<V>)
        ensures
            forward_of(*self, values(xs@), y),
    {
        match self {
            Op::Square => if xs.len() == 1 {
                Some(xs[0].powi(2))
            } else {
                None
            },
            Op::Exp => if xs.len() == 1 {
                Some(xs[0].exp())
            } else {
                None
            },
            Op::Add => if xs.len() == 2 {
                xs[0].plus(xs[1])
            } else {
                None
            },
        }
    }

    fn backward(&self, xs: &Vec<&V>, gy: &V) -> (gxs: Option<Vec<V>>)
        ensures
            backward_of(*self, values(xs@), *gy, handed(gxs)),
    {
        match self {
            Op::Square => if xs.len() == 1 {
                let d = xs[0].scaled(2);
                assert(scaled_answer(values(xs@)[0], 2, d));
                one_gradient(d, gy)
            } else {
                None
            },
            Op::Exp => if xs.len() == 1 {
                let d = xs[0].exp();
                assert(exp_answer(values(xs@)[0], d));
                one_gradient(d, gy)
            } else {
                None
            },
            Op::Add => if xs.len() == 2 {
                let mut gxs: Vec<V> = Vec::new();
                gxs.push(gy.duplicate());
                gxs.push(gy.duplicate());
                Some(gxs)
            } else {
                None
            },
        }
    }
}


/// What an operation of this crate answers on the way back is what
/// [`backward_of`] describes.
pub proof fn lemma_op_backward<V: Numeric>(op: Op, xs: Seq<V>, gy: V, gxs: Option<Vec<V>>)
    requires
        backward_answer(op, xs, gy, gxs),
    ensures
        backward_of(op, xs, gy, handed(gxs)),
{
    let v = choose|v: Vec<&V>| values(v@) == xs && #[trigger] call_ensures(
        <Op as Function<V>>::backward,
        (&op, &v, &gy),
        gxs,
    );
    assert(backward_of(op, values(v@), gy, handed(gxs)));
}

} // verus!
