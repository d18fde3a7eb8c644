//! What a backward pass is: the outcomes that it can have, given what the
//! values and the operations answer.

use vstd::prelude::*;
use crate::error::Error;
use crate::function::{backward_answer, Function};
use crate::tape::{input_data, lemma_inputs_are_older, well_formed, Tape};
use crate::value::{ones_answer, plus_answer, shape_answer, Value};

verus! {

/// The gradient slots of a graph, node by node.
pub type Grads<V> = Seq<Option<V>>;

/// How a backward pass can end: with the gradient slots that it leaves, or
/// with the reason for which it was given up.
pub type Outcome<V> = Result<Seq<Option<V>>, Error>;

/// Whether the node at `b` is the node at `a` or one of the nodes that `a`
/// was computed from, directly or through others.
pub open spec fn reaches<V, F>(t: Tape<V, F>, a: int, b: int) -> bool
    decreases a,
{
    a == b || (0 <= a < t.len() && t[a].creator is Some && exists|k: int|
        0 <= k < t[a].creator.unwrap().inputs.len() && 0
            <= #[trigger] t[a].creator.unwrap().inputs[k] < a && reaches(
            t,
            t[a].creator.unwrap().inputs[k],
            b,
        ))
}

/// Whether a backward pass from `root` has to visit the node at `o`: the
/// node was computed, and `root` depends on it.
pub open spec fn awaits<V, F>(t: Tape<V, F>, root: int, o: int) -> bool {
    0 <= o < t.len() && t[o].creator is Some && reaches(t, root, o)
}

/// Whether the node at `u` is still to come when a pass has come down to
/// the nodes of generation `generation` at positions below `below`. A pass
/// takes the generations from the highest down, and within one generation
/// the positions from the highest down.
pub open spec fn pending_at<V, F>(t: Tape<V, F>, u: int, generation: nat, below: nat) -> bool {
    t[u].generation < generation || (t[u].generation == generation && u < below)
}

/// What can become of the slots `grads` when the gradient `gx` arrives at
/// the node at `i`. A gradient whose shape is not that of the node's data
/// is refused; the first to arrive fills the slot; a later one is added to
/// what the slot holds.
pub open spec fn delivers<V: Value, F>(
    t: Tape<V, F>,
    grads: Grads<V>,
    i: int,
    gx: V,
    after: Outcome<V>,
) -> bool {
    ||| shape_answer(gx, t[i].data, false) && after == Err::<Grads<V>, Error>(
        Error::ShapeMismatch,
    )
    ||| shape_answer(gx, t[i].data, true) && match grads[i] {
        None => after == Ok::<Grads<V>, Error>(grads.update(i, Some(gx))),
        Some(g) => match after {
            Ok(next) => next[i] is Some && plus_answer(g, gx, next[i]) && next == grads.update(
                i,
                next[i],
            ),
            Err(e) => e == Error::ShapeMismatch && plus_answer(g, gx, None),
        },
    }
}

/// What can become of the slots `grads` when the gradients `gxs[k..]`
/// arrive, in order, at the nodes `inputs[k..]`.
pub open spec fn spreads<V: Value, F>(
    t: Tape<V, F>,
    grads: Grads<V>,
    inputs: Seq<int>,
    gxs: Seq<V>,
    k: int,
    after: Outcome<V>,
) -> bool
    decreases gxs.len() - k,
{
    if k < 0 || k >= gxs.len() {
        after == Ok::<Grads<V>, Error>(grads)
    } else {
        exists|mid: Outcome<V>| #[trigger]
            delivers(t, grads, inputs[k], gxs[k], mid) && match mid {
                Err(e) => after == Err::<Grads<V>, Error>(e),
                Ok(next) => spreads(t, next, inputs, gxs, k + 1, after),
            }
    }
}

/// What can become of the slots `grads` when the pass visits the node at
/// `o`: the operation that made the node turns the node's gradient into
/// gradients for its inputs, which must be as many as the inputs, and these
/// arrive at the inputs in order.
pub open spec fn visits<V: Value, F: Function<V>>(
    t: Tape<V, F>,
    grads: Grads<V>,
    o: int,
    after: Outcome<V>,
) -> bool {
    let record = t[o].creator.unwrap();
    grads[o] is Some && exists|gxs: Option<Vec<V>>| #[trigger]
        backward_answer(record.function, input_data(t, record.inputs), grads[o].unwrap(), gxs)
            && match gxs {
            None => after == Err::<Grads<V>, Error>(Error::ShapeMismatch),
            Some(v) => if v@.len() != record.inputs.len() {
                after == Err::<Grads<V>, Error>(Error::ArityMismatch)
            } else {
                spreads(t, grads, record.inputs, v@, 0, after)
            },
        }
}

/// What can come of the slots `grads` when the pass from `root` goes on
/// from the nodes of generation `generation` at positions below `below`:
/// it visits the nodes that await it, the higher generation first and
/// within a generation the higher position first, and gives up at the
/// first visit that fails.
pub open spec fn drains<V: Value, F: Function<V>>(
    t: Tape<V, F>,
    root: int,
    grads: Grads<V>,
    generation: nat,
    below: nat,
    out: Outcome<V>,
) -> bool
    decreases generation, below,
{
    if below == 0 {
        if generation == 0 {
            out == Ok::<Grads<V>, Error>(grads)
        } else {
            drains(t, root, grads, (generation - 1) as nat, t.len(), out)
        }
    } else {
        let o = (below - 1) as nat;
        if t[o as int].generation == generation && awaits(t, root, o as int) {
            exists|mid: Outcome<V>| #[trigger]
                visits(t, grads, o as int, mid) && match mid {
                    Err(e) => out == Err::<Grads<V>, Error>(e),
                    Ok(next) => drains(t, root, next, generation, o, out),
                }
        } else {
            drains(t, root, grads, generation, o, out)
        }
    }
}

/// The gradient slots of a tape.
pub open spec fn grads_of<V, F>(t: Tape<V, F>) -> Grads<V> {
    Seq::new(t.len(), |i: int| t[i].grad)
}

/// The tape `t` with the gradient slots replaced by `grads`.
pub open spec fn with_grads<V, F>(t: Tape<V, F>, grads: Grads<V>) -> Tape<V, F> {
    Seq::new(
        t.len(),
        |i: int|
            crate::tape::NodeView {
                data: t[i].data,
                grad: grads[i],
                creator: t[i].creator,
                generation: t[i].generation,
            },
    )
}

/// Whether `start` is how a backward pass from `root` can set out: with
/// the slots of the graph where the root holds a gradient, and otherwise
/// with the root's slot filled by a value of ones of the shape of its data;
/// with `MissingSeed` where the data gives no such value.
pub open spec fn seeds<V: Value, F>(t: Tape<V, F>, root: int, start: Outcome<V>) -> bool {
    match t[root].grad {
        Some(_) => start == Ok::<Grads<V>, Error>(grads_of(t)),
        None => match start {
            Ok(grads) => {
                &&& grads[root] is Some
                &&& ones_answer(t[root].data, grads[root])
                &&& shape_answer(grads[root].unwrap(), t[root].data, true)
                &&& grads == grads_of(t).update(root, grads[root])
            },
            Err(e) => {
                &&& e == Error::MissingSeed
                &&& (ones_answer(t[root].data, None) || exists|one: V| #[trigger]
                    ones_answer(t[root].data, Some(one)) && shape_answer(
                        one,
                        t[root].data,
                        false,
                    ))
            },
        },
    }
}

/// Whether `out` is a way in which the backward pass from `root` can end.
///
/// The pass sets out as [`seeds`] says. Then every computed node that
/// `root` depends on is visited once, after all the nodes that were
/// computed from it, as [`drains`] says.
pub open spec fn possible<V: Value, F: Function<V>>(
    t: Tape<V, F>,
    root: int,
    out: Outcome<V>,
) -> bool {
    exists|start: Outcome<V>| #[trigger]
        seeds(t, root, start) && match start {
            Err(e) => out == Err::<Grads<V>, Error>(e),
            Ok(grads) => drains(t, root, grads, t[root].generation, t.len(), out),
        }
}

/// A node that another depends on is older and of a lower generation.
pub proof fn lemma_reaches_older<V, F>(t: Tape<V, F>, a: int, b: int)
    requires
        well_formed(t),
        0 <= a < t.len(),
        reaches(t, a, b),
    ensures
        0 <= b <= a,
        t[b].generation <= t[a].generation,
        a != b ==> t[b].generation < t[a].generation,
    decreases a,
{
    if a != b {
        let inputs = t[a].creator.unwrap().inputs;
        let k = choose|k: int|
            0 <= k < inputs.len() && 0 <= #[trigger] inputs[k] < a && reaches(t, inputs[k], b);
        lemma_inputs_are_older(t, a, k);
        lemma_reaches_older(t, inputs[k], b);
    }
}

/// What depends on a node depends on each of its inputs.
pub proof fn lemma_reaches_input<V, F>(t: Tape<V, F>, a: int, o: int, k: int)
    requires
        well_formed(t),
        0 <= a < t.len(),
        reaches(t, a, o),
        t[o].creator is Some,
        0 <= k < t[o].creator.unwrap().inputs.len(),
    ensures
        reaches(t, a, t[o].creator.unwrap().inputs[k]),
    decreases a,
{
    lemma_reaches_older(t, a, o);
    lemma_inputs_are_older(t, o, k);
    let target = t[o].creator.unwrap().inputs[k];
    if a == o {
        assert(reaches(t, target, target));
    } else {
        let inputs = t[a].creator.unwrap().inputs;
        let j = choose|j: int|
            0 <= j < inputs.len() && 0 <= #[trigger] inputs[j] < a && reaches(t, inputs[j], o);
        lemma_reaches_input(t, inputs[j], o, k);
    }
}

/// Where no node awaits the pass between two of its stations, the pass can
/// end at the earlier station in the ways in which it can end at the later one.
pub proof fn lemma_idle<V: Value, F: Function<V>>(
    t: Tape<V, F>,
    root: int,
    grads: Grads<V>,
    generation: nat,
    below: nat,
    later_generation: nat,
    later_below: nat,
    out: Outcome<V>,
)
    requires
        below <= t.len(),
        later_below <= t.len(),
        later_generation < generation || (later_generation == generation && later_below
            <= below),
        forall|u: int|
            #[trigger] awaits(t, root, u) && pending_at(t, u, generation, below) ==> pending_at(
                t,
                u,
                later_generation,
                later_below,
            ),
    ensures
        drains(t, root, grads, generation, below, out) == drains(
            t,
            root,
            grads,
            later_generation,
            later_below,
            out,
        ),
    decreases generation, below,
{
    if generation == later_generation && below == later_below {
    } else if below == 0 {
        lemma_idle(
            t,
            root,
            grads,
            (generation - 1) as nat,
            t.len(),
            later_generation,
            later_below,
            out,
        );
    } else {
        let o = (below - 1) as nat;
        if t[o as int].generation == generation && awaits(t, root, o as int) {
            assert(pending_at(t, o as int, generation, below));
            assert(false);
        }
        lemma_idle(t, root, grads, generation, o, later_generation, later_below, out);
    }
}

/// Where no node awaits the pass any more, the pass ends, and leaves the
/// slots as they are.
pub proof fn lemma_idle_to_end<V: Value, F: Function<V>>(
    t: Tape<V, F>,
    root: int,
    grads: Grads<V>,
    generation: nat,
    below: nat,
    out: Outcome<V>,
)
    requires
        below <= t.len(),
        forall|u: int| #[trigger] awaits(t, root, u) ==> !pending_at(t, u, generation, below),
    ensures
        drains(t, root, grads, generation, below, out) == (out == Ok::<Grads<V>, Error>(grads)),
{
    lemma_idle(t, root, grads, generation, below, 0, 0, out);
}


/// A leaf depends on nothing but itself.
pub proof fn lemma_leaf_reaches_itself_only<V, F>(t: Tape<V, F>, x: int, u: int)
    requires
        t[x].creator is None,
        reaches(t, x, u),
    ensures
        u == x,
{
}

/// What an input of a node depends on, the node depends on.
pub proof fn lemma_reaches_after<V, F>(t: Tape<V, F>, a: int, k: int, u: int)
    requires
        0 <= a < t.len(),
        t[a].creator is Some,
        0 <= k < t[a].creator.unwrap().inputs.len(),
        0 <= t[a].creator.unwrap().inputs[k] < a,
        reaches(t, t[a].creator.unwrap().inputs[k], u),
    ensures
        reaches(t, a, u),
{
}

/// A node that depends on another, other than itself, reaches it through a
/// computed node of which the other is an input.
pub proof fn lemma_reaches_through<V, F>(t: Tape<V, F>, a: int, j: int) -> (r: (int, int))
    requires
        well_formed(t),
        0 <= a < t.len(),
        reaches(t, a, j),
        a != j,
    ensures
        awaits(t, a, r.0),
        0 <= r.1 < t[r.0].creator.unwrap().inputs.len(),
        t[r.0].creator.unwrap().inputs[r.1] == j,
    decreases a,
{
    let inputs = t[a].creator.unwrap().inputs;
    let k = choose|k: int|
        0 <= k < inputs.len() && 0 <= #[trigger] inputs[k] < a && reaches(t, inputs[k], j);
    assert(reaches(t, a, a));
    if inputs[k] == j {
        (a, k)
    } else {
        let r = lemma_reaches_through(t, inputs[k], j);
        lemma_reaches_after(t, a, k, r.0);
        r
    }
}

/// Gradients that are delivered change the slots of the nodes that they
/// are for, and no others.
pub proof fn lemma_spreads_elsewhere<V: Value, F>(
    t: Tape<V, F>,
    grads: Grads<V>,
    inputs: Seq<int>,
    gxs: Seq<V>,
    k: int,
    after: Grads<V>,
    j: int,
)
    requires
        0 <= k,
        gxs.len() == inputs.len(),
        spreads(t, grads, inputs, gxs, k, Ok::<Grads<V>, Error>(after)),
        0 <= j < grads.len(),
        forall|i: int| k <= i < inputs.len() ==> 0 <= #[trigger] inputs[i] < grads.len(),
        forall|i: int| k <= i < inputs.len() ==> #[trigger] inputs[i] != j,
    ensures
        after[j] == grads[j],
        after.len() == grads.len(),
    decreases gxs.len() - k,
{
    if k < gxs.len() {
        let mid = choose|mid: Outcome<V>| #[trigger]
            delivers(t, grads, inputs[k], gxs[k], mid) && match mid {
                Err(e) => Ok::<Grads<V>, Error>(after) == Err::<Grads<V>, Error>(e),
                Ok(next) => spreads(t, next, inputs, gxs, k + 1, Ok::<Grads<V>, Error>(after)),
            };
        let next = mid.unwrap();
        assert(inputs[k] != j);
        lemma_spreads_elsewhere(t, next, inputs, gxs, k + 1, after, j);
    }
}

/// Where one node is the latest of those that await the pass, the pass
/// goes on with a visit to that node.
pub proof fn lemma_next_visit<V: Value, F: Function<V>>(
    t: Tape<V, F>,
    root: int,
    grads: Grads<V>,
    generation: nat,
    below: nat,
    o: int,
    out: Outcome<V>,
)
    requires
        below <= t.len(),
        awaits(t, root, o),
        pending_at(t, o, generation, below),
        forall|u: int|
            (#[trigger] awaits(t, root, u)) && pending_at(t, u, generation, below) ==> pending_at(
                t,
                u,
                t[o].generation,
                (o + 1) as nat,
            ),
    ensures
        drains(t, root, grads, generation, below, out) == (exists|mid: Outcome<V>| #[trigger]
            visits(t, grads, o, mid) && match mid {
                Err(e) => out == Err::<Grads<V>, Error>(e),
                Ok(next) => drains(t, root, next, t[o].generation, o as nat, out),
            }),
{
    lemma_idle(t, root, grads, generation, below, t[o].generation, (o + 1) as nat, out);
}

/// What a visit to a node with one input comes to: the operation hands
/// back one gradient, which is delivered to the input.
pub proof fn lemma_visit_of_one<V: Value, F: Function<V>>(
    t: Tape<V, F>,
    grads: Grads<V>,
    o: int,
    x: int,
    next: Grads<V>,
) -> (gx: V)
    requires
        t[o].creator is Some,
        t[o].creator.unwrap().inputs == seq![x],
        visits(t, grads, o, Ok::<Grads<V>, Error>(next)),
    ensures
        grads[o] is Some,
        exists|gxs: Vec<V>| #[trigger]
            backward_answer(
                t[o].creator.unwrap().function,
                input_data(t, t[o].creator.unwrap().inputs),
                grads[o].unwrap(),
                Some(gxs),
            ) && gxs@.len() == 1 && gxs@[0] == gx,
        delivers(t, grads, x, gx, Ok::<Grads<V>, Error>(next)),
{
    reveal_with_fuel(spreads, 3);
    let record = t[o].creator.unwrap();
    let mid = Ok::<Grads<V>, Error>(next);
    let answer = choose|gxs: Option<Vec<V>>| #[trigger]
        backward_answer(record.function, input_data(t, record.inputs), grads[o].unwrap(), gxs)
            && match gxs {
            None => mid == Err::<Grads<V>, Error>(Error::ShapeMismatch),
            Some(v) => if v@.len() != record.inputs.len() {
                mid == Err::<Grads<V>, Error>(Error::ArityMismatch)
            } else {
                spreads(t, grads, record.inputs, v@, 0, mid)
            },
        };
    let gxs = answer.unwrap();
    let first = choose|first: Outcome<V>| #[trigger]
        delivers(t, grads, record.inputs[0], gxs@[0], first) && match first {
            Err(e) => mid == Err::<Grads<V>, Error>(e),
            Ok(then) => spreads(t, then, record.inputs, gxs@, 1, mid),
        };
    gxs@[0]
}

/// What a visit to a node with two inputs comes to: the operation hands
/// back two gradients, which are delivered to the inputs one after the
/// other.
pub proof fn lemma_visit_of_two<V: Value, F: Function<V>>(
    t: Tape<V, F>,
    grads: Grads<V>,
    o: int,
    x0: int,
    x1: int,
    next: Grads<V>,
) -> (r: (V, V, Grads<V>))
    requires
        t[o].creator is Some,
        t[o].creator.unwrap().inputs == seq![x0, x1],
        visits(t, grads, o, Ok::<Grads<V>, Error>(next)),
    ensures
        grads[o] is Some,
        exists|gxs: Vec<V>| #[trigger]
            backward_answer(
                t[o].creator.unwrap().function,
                input_data(t, t[o].creator.unwrap().inputs),
                grads[o].unwrap(),
                Some(gxs),
            ) && gxs@.len() == 2 && gxs@[0] == r.0 && gxs@[1] == r.1,
        delivers(t, grads, x0, r.0, Ok::<Grads<V>, Error>(r.2)),
        delivers(t, r.2, x1, r.1, Ok::<Grads<V>, Error>(next)),
{
    reveal_with_fuel(spreads, 3);
    let record = t[o].creator.unwrap();
    let mid = Ok::<Grads<V>, Error>(next);
    let answer = choose|gxs: Option<Vec<V>>| #[trigger]
        backward_answer(record.function, input_data(t, record.inputs), grads[o].unwrap(), gxs)
            && match gxs {
            None => mid == Err::<Grads<V>, Error>(Error::ShapeMismatch),
            Some(v) => if v@.len() != record.inputs.len() {
                mid == Err::<Grads<V>, Error>(Error::ArityMismatch)
            } else {
                spreads(t, grads, record.inputs, v@, 0, mid)
            },
        };
    let gxs = answer.unwrap();
    let first = choose|first: Outcome<V>| #[trigger]
        delivers(t, grads, record.inputs[0], gxs@[0], first) && match first {
            Err(e) => mid == Err::<Grads<V>, Error>(e),
            Ok(then) => spreads(t, then, record.inputs, gxs@, 1, mid),
        };
    let between = first.unwrap();
    let second = choose|second: Outcome<V>| #[trigger]
        delivers(t, between, record.inputs[1], gxs@[1], second) && match second {
            Err(e) => mid == Err::<Grads<V>, Error>(e),
            Ok(then) => spreads(t, then, record.inputs, gxs@, 2, mid),
        };
    (gxs@[0], gxs@[1], between)
}

} // verus!
