//! What the backward pass comes to on small graphs: one operation applied
//! to a leaf, and a leaf that is used twice.

use vstd::prelude::*;
use crate::error::Error;
use crate::function::{backward_answer, Function};
use crate::ops::{lemma_op_backward, Op};
use crate::pass::{
    awaits, delivers, drains, grads_of, lemma_idle_to_end, lemma_leaf_reaches_itself_only,
    lemma_next_visit, lemma_visit_of_one, lemma_visit_of_two, pending_at, possible, reaches,
    seeds, visits, Grads, Outcome,
};
use crate::tape::{input_data, lemma_inputs_are_older, well_formed, Tape};
use crate::value::{
    duplicate_answer, exp_answer, ones_answer, plus_answer, scaled_answer, shape_answer,
    times_answer, Numeric, Value,
};

verus! {

/// One operation applied to a leaf. After a backward pass from the
/// result, where neither node had a gradient, the result holds a gradient
/// of ones, the leaf holds the one gradient that the operation hands back
/// for those ones, and no other node has changed.
pub proof fn law_single_application<V: Value, F: Function<V>>(
    t: Tape<V, F>,
    x: int,
    y: int,
    after: Grads<V>,
)
    requires
        well_formed(t),
        0 <= y < t.len(),
        t[y].creator is Some,
        t[y].creator.unwrap().inputs == seq![x],
        t[x].creator is None,
        t[x].grad is None,
        t[y].grad is None,
        possible(t, y, Ok::<Grads<V>, Error>(after)),
    ensures
        after[y] is Some,
        ones_answer(t[y].data, after[y]),
        shape_answer(after[y].unwrap(), t[y].data, true),
        after[x] is Some,
        exists|gxs: Vec<V>| #[trigger]
            backward_answer(
                t[y].creator.unwrap().function,
                input_data(t, t[y].creator.unwrap().inputs),
                after[y].unwrap(),
                Some(gxs),
            ) && gxs@.len() == 1 && gxs@[0] == after[x].unwrap(),
        shape_answer(after[x].unwrap(), t[x].data, true),
        after == grads_of(t).update(y, after[y]).update(x, after[x]),
{
    let out = Ok::<Grads<V>, Error>(after);
    let start = choose|start: Outcome<V>| #[trigger]
        seeds(t, y, start) && match start {
            Err(e) => out == Err::<Grads<V>, Error>(e),
            Ok(grads) => drains(t, y, grads, t[y].generation, t.len(), out),
        };
    let seeded = start.unwrap();
    lemma_inputs_are_older(t, y, 0);
    assert(reaches(t, y, y));
    assert forall|u: int| #[trigger] awaits(t, y, u) implies u == y by {
        if u != y {
            let k = choose|k: int|
                0 <= k < t[y].creator.unwrap().inputs.len() && 0
                    <= #[trigger] t[y].creator.unwrap().inputs[k] < y && reaches(
                    t,
                    t[y].creator.unwrap().inputs[k],
                    u,
                );
            lemma_leaf_reaches_itself_only(t, x, u);
        }
    }
    lemma_next_visit(t, y, seeded, t[y].generation, t.len(), y, out);
    let mid = choose|mid: Outcome<V>| #[trigger]
        visits(t, seeded, y, mid) && match mid {
            Err(e) => out == Err::<Grads<V>, Error>(e),
            Ok(next) => drains(t, y, next, t[y].generation, y as nat, out),
        };
    let next = mid.unwrap();
    lemma_idle_to_end(t, y, next, t[y].generation, y as nat, out);
    let gx = lemma_visit_of_one(t, seeded, y, x, next);
    assert(seeded[x] is None);
}

/// The square of a leaf. After a backward pass from the square, where
/// neither node had a gradient, the leaf holds twice its data times the
/// ones that the pass began with.
pub proof fn law_square_gradient<V: Numeric>(t: Tape<V, Op>, x: int, y: int, after: Grads<V>)
    requires
        well_formed(t),
        0 <= y < t.len(),
        t[y].creator is Some,
        t[y].creator.unwrap().function == Op::Square,
        t[y].creator.unwrap().inputs == seq![x],
        t[x].creator is None,
        t[x].grad is None,
        t[y].grad is None,
        possible(t, y, Ok::<Grads<V>, Error>(after)),
    ensures
        after[y] is Some,
        ones_answer(t[y].data, after[y]),
        shape_answer(after[y].unwrap(), t[y].data, true),
        after[x] is Some,
        exists|twice: V| #[trigger]
            scaled_answer(t[x].data, 2, twice) && times_answer(
                twice,
                after[y].unwrap(),
                after[x],
            ),
        after == grads_of(t).update(y, after[y]).update(x, after[x]),
{
    law_single_application(t, x, y, after);
    let xs = input_data(t, t[y].creator.unwrap().inputs);
    let gxs = choose|gxs: Vec<V>| #[trigger]
        backward_answer(Op::Square, xs, after[y].unwrap(), Some(gxs)) && gxs@.len() == 1
            && gxs@[0] == after[x].unwrap();
    lemma_op_backward(Op::Square, xs, after[y].unwrap(), Some(gxs));
}

/// The exponential of a leaf. After a backward pass from the exponential,
/// where neither node had a gradient, the leaf holds the exponential of
/// its data times the ones that the pass began with.
pub proof fn law_exp_gradient<V: Numeric>(t: Tape<V, Op>, x: int, y: int, after: Grads<V>)
    requires
        well_formed(t),
        0 <= y < t.len(),
        t[y].creator is Some,
        t[y].creator.unwrap().function == Op::Exp,
        t[y].creator.unwrap().inputs == seq![x],
        t[x].creator is None,
        t[x].grad is None,
        t[y].grad is None,
        possible(t, y, Ok::<Grads<V>, Error>(after)),
    ensures
        after[y] is Some,
        ones_answer(t[y].data, after[y]),
        shape_answer(after[y].unwrap(), t[y].data, true),
        after[x] is Some,
        exists|slope: V| #[trigger]
            exp_answer(t[x].data, slope) && times_answer(slope, after[y].unwrap(), after[x]),
        after == grads_of(t).update(y, after[y]).update(x, after[x]),
{
    law_single_application(t, x, y, after);
    let xs = input_data(t, t[y].creator.unwrap().inputs);
    let gxs = choose|gxs: Vec<V>| #[trigger]
        backward_answer(Op::Exp, xs, after[y].unwrap(), Some(gxs)) && gxs@.len() == 1 && gxs@[0]
            == after[x].unwrap();
    lemma_op_backward(Op::Exp, xs, after[y].unwrap(), Some(gxs));
}

/// Of two nodes, the one that was made later.
pub open spec fn later(a: int, b: int) -> int {
    if a < b {
        b
    } else {
        a
    }
}

/// Of two nodes, the one that was made earlier.
pub open spec fn earlier(a: int, b: int) -> int {
    if a < b {
        a
    } else {
        b
    }
}

/// Whether `gx` is a gradient that the square hands back at the input `x`
/// for the gradient `gy` of its output: twice `x`, times `gy`.
pub open spec fn square_gradient<V: Numeric>(x: V, gy: V, gx: V) -> bool {
    exists|twice: V| #[trigger] scaled_answer(x, 2, twice) && times_answer(twice, gy, Some(gx))
}

/// What a visit to a square comes to: one gradient, twice the input times
/// the gradient of the square, is delivered to the input.
proof fn lemma_visit_of_square<V: Numeric>(
    t: Tape<V, Op>,
    grads: Grads<V>,
    o: int,
    x: int,
    next: Grads<V>,
) -> (gx: V)
    requires
        t[o].creator is Some,
        t[o].creator.unwrap().function == Op::Square,
        t[o].creator.unwrap().inputs == seq![x],
        visits(t, grads, o, Ok::<Grads<V>, Error>(next)),
    ensures
        grads[o] is Some,
        square_gradient(t[x].data, grads[o].unwrap(), gx),
        delivers(t, grads, x, gx, Ok::<Grads<V>, Error>(next)),
{
    let gx = lemma_visit_of_one(t, grads, o, x, next);
    let xs = input_data(t, t[o].creator.unwrap().inputs);
    let gxs = choose|gxs: Vec<V>| #[trigger]
        backward_answer(Op::Square, xs, grads[o].unwrap(), Some(gxs)) && gxs@.len() == 1
            && gxs@[0] == gx;
    lemma_op_backward(Op::Square, xs, grads[o].unwrap(), Some(gxs));
    gx
}

/// Two squares of one leaf await the pass, and nothing else does. The
/// later of the two is visited first and fills the slot of the leaf; the
/// earlier is visited next, and what it hands back is added to the slot.
proof fn lemma_two_squares<V: Numeric>(
    t: Tape<V, Op>,
    root: int,
    grads: Grads<V>,
    x: int,
    early: int,
    late: int,
    generation: nat,
    below: nat,
    after: Grads<V>,
)
    requires
        well_formed(t),
        grads.len() == t.len(),
        below <= t.len(),
        0 <= early < late < t.len(),
        t[early].creator is Some,
        t[early].creator.unwrap().function == Op::Square,
        t[early].creator.unwrap().inputs == seq![x],
        t[late].creator is Some,
        t[late].creator.unwrap().function == Op::Square,
        t[late].creator.unwrap().inputs == seq![x],
        grads[x] is None,
        awaits(t, root, early),
        awaits(t, root, late),
        pending_at(t, early, generation, below),
        pending_at(t, late, generation, below),
        forall|u: int|
            (#[trigger] awaits(t, root, u)) && pending_at(t, u, generation, below) ==> u == early
                || u == late,
        drains(t, root, grads, generation, below, Ok::<Grads<V>, Error>(after)),
    ensures
        grads[late] is Some,
        grads[early] is Some,
        after[x] is Some,
        exists|first: V, second: V|
            #![trigger square_gradient(t[x].data, grads[late].unwrap(), first), square_gradient(t[x].data, grads[early].unwrap(), second)]
            square_gradient(t[x].data, grads[late].unwrap(), first) && square_gradient(
                t[x].data,
                grads[early].unwrap(),
                second,
            ) && plus_answer(first, second, after[x]),
        after == grads.update(x, after[x]),
{
    let out = Ok::<Grads<V>, Error>(after);
    lemma_inputs_are_older(t, early, 0);
    lemma_inputs_are_older(t, late, 0);
    assert(crate::tape::node_ok(t, early));
    assert(crate::tape::node_ok(t, late));
    crate::tape::lemma_generation_of_one(t, x);
    assert(t[early].generation == t[late].generation);
    lemma_next_visit(t, root, grads, generation, below, late, out);
    let mid = choose|mid: Outcome<V>| #[trigger]
        visits(t, grads, late, mid) && match mid {
            Err(e) => out == Err::<Grads<V>, Error>(e),
            Ok(next) => drains(t, root, next, t[late].generation, late as nat, out),
        };
    let filled = mid.unwrap();
    let first = lemma_visit_of_square(t, grads, late, x, filled);
    assert(filled == grads.update(x, Some(first)));
    lemma_next_visit(t, root, filled, t[late].generation, late as nat, early, out);
    let mid = choose|mid: Outcome<V>| #[trigger]
        visits(t, filled, early, mid) && match mid {
            Err(e) => out == Err::<Grads<V>, Error>(e),
            Ok(next) => drains(t, root, next, t[early].generation, early as nat, out),
        };
    let summed = mid.unwrap();
    let second = lemma_visit_of_square(t, filled, early, x, summed);
    lemma_idle_to_end(t, root, summed, t[early].generation, early as nat, out);
    assert(summed =~= grads.update(x, summed[x]));
    assert(square_gradient(t[x].data, grads[late].unwrap(), first));
    assert(square_gradient(t[x].data, grads[early].unwrap(), second));
}

/// A node that is used twice gathers both gradients. Let `z` be the sum of
/// two squares `a` and `b` of one leaf `x`, with no gradient anywhere.
/// After a backward pass from `z`, the two squares hold copies of the ones
/// that `z` was given, and `x` holds the sum of the two gradients that the
/// squares hand back: that of the square made later, plus that of the
/// square made earlier.
pub proof fn law_diamond_accumulates<V: Numeric>(
    t: Tape<V, Op>,
    x: int,
    a: int,
    b: int,
    z: int,
    after: Grads<V>,
)
    requires
        well_formed(t),
        0 <= z < t.len(),
        t[z].creator is Some,
        t[z].creator.unwrap().function == Op::Add,
        t[z].creator.unwrap().inputs == seq![a, b],
        a != b,
        t[a].creator is Some,
        t[a].creator.unwrap().function == Op::Square,
        t[a].creator.unwrap().inputs == seq![x],
        t[b].creator is Some,
        t[b].creator.unwrap().function == Op::Square,
        t[b].creator.unwrap().inputs == seq![x],
        t[x].creator is None,
        t[x].grad is None,
        t[a].grad is None,
        t[b].grad is None,
        t[z].grad is None,
        possible(t, z, Ok::<Grads<V>, Error>(after)),
    ensures
        after[z] is Some,
        ones_answer(t[z].data, after[z]),
        shape_answer(after[z].unwrap(), t[z].data, true),
        after[a] is Some,
        after[b] is Some,
        duplicate_answer(after[z].unwrap(), after[a].unwrap()),
        duplicate_answer(after[z].unwrap(), after[b].unwrap()),
        after[x] is Some,
        exists|first: V, second: V|
            #![trigger square_gradient(t[x].data, after[later(a, b)].unwrap(), first), square_gradient(t[x].data, after[earlier(a, b)].unwrap(), second)]
            square_gradient(t[x].data, after[later(a, b)].unwrap(), first) && square_gradient(
                t[x].data,
                after[earlier(a, b)].unwrap(),
                second,
            ) && plus_answer(first, second, after[x]),
        after == grads_of(t).update(z, after[z]).update(a, after[a]).update(b, after[b]).update(
            x,
            after[x],
        ),
{
    let out = Ok::<Grads<V>, Error>(after);
    let start = choose|start: Outcome<V>| #[trigger]
        seeds(t, z, start) && match start {
            Err(e) => out == Err::<Grads<V>, Error>(e),
            Ok(grads) => drains(t, z, grads, t[z].generation, t.len(), out),
        };
    let seeded = start.unwrap();
    lemma_inputs_are_older(t, z, 0);
    lemma_inputs_are_older(t, z, 1);
    lemma_inputs_are_older(t, a, 0);
    assert(crate::tape::node_ok(t, a));
    assert(crate::tape::node_ok(t, b));
    assert(crate::tape::node_ok(t, x));
    crate::tape::lemma_generation_of_one(t, x);
    assert(reaches(t, z, z));
    assert(reaches(t, a, a));
    assert(reaches(t, b, b));
    assert(t[z].creator.unwrap().inputs[0] == a);
    assert(t[z].creator.unwrap().inputs[1] == b);
    assert(reaches(t, z, a));
    assert(reaches(t, z, b));
    assert forall|u: int| #[trigger] awaits(t, z, u) implies u == z || u == a || u == b by {
        if u != z {
            let k = choose|k: int|
                0 <= k < t[z].creator.unwrap().inputs.len() && 0
                    <= #[trigger] t[z].creator.unwrap().inputs[k] < z && reaches(
                    t,
                    t[z].creator.unwrap().inputs[k],
                    u,
                );
            let i = t[z].creator.unwrap().inputs[k];
            if u != i {
                let j = choose|j: int|
                    0 <= j < t[i].creator.unwrap().inputs.len() && 0
                        <= #[trigger] t[i].creator.unwrap().inputs[j] < i && reaches(
                        t,
                        t[i].creator.unwrap().inputs[j],
                        u,
                    );
                lemma_leaf_reaches_itself_only(t, x, u);
            }
        }
    }
    lemma_next_visit(t, z, seeded, t[z].generation, t.len(), z, out);
    let mid = choose|mid: Outcome<V>| #[trigger]
        visits(t, seeded, z, mid) && match mid {
            Err(e) => out == Err::<Grads<V>, Error>(e),
            Ok(next) => drains(t, z, next, t[z].generation, z as nat, out),
        };
    let shared = mid.unwrap();
    let (ga, gb, between) = lemma_visit_of_two(t, seeded, z, a, b, shared);
    let xs = input_data(t, t[z].creator.unwrap().inputs);
    let gxs = choose|gxs: Vec<V>| #[trigger]
        backward_answer(Op::Add, xs, seeded[z].unwrap(), Some(gxs)) && gxs@.len() == 2 && gxs@[0]
            == ga && gxs@[1] == gb;
    lemma_op_backward(Op::Add, xs, seeded[z].unwrap(), Some(gxs));
    assert(between == seeded.update(a, Some(ga)));
    assert(shared == between.update(b, Some(gb)));
    let early = earlier(a, b);
    let late = later(a, b);
    lemma_two_squares(t, z, shared, x, early, late, t[z].generation, z as nat, after);
    assert(after =~= grads_of(t).update(z, after[z]).update(a, after[a]).update(b, after[b]).update(
        x,
        after[x],
    ));
}

} // verus!
