//! What follows from the definition of a backward pass, for every graph.

use vstd::prelude::*;
use crate::error::Error;
use crate::function::{backward_answer, Function};
use crate::ops::{handed, lemma_op_backward, Op};
use crate::pass::{
    awaits, delivers, drains, grads_of, lemma_idle_to_end, lemma_leaf_reaches_itself_only,
    lemma_reaches_input, lemma_reaches_older, lemma_reaches_through, lemma_spreads_elsewhere,
    pending_at, possible, reaches, seeds, spreads, visits, Grads, Outcome,
};
use crate::tape::{input_data, lemma_inputs_are_older, well_formed, Tape};
use crate::value::{ones_answer, plus_answer, shape_answer, Numeric, Value};

verus! {

/// A backward pass from a leaf ends where it sets out: the leaf keeps the
/// gradient that it has, or is given one of ones where it has none, and no
/// other node is touched. It fails only where a leaf without a gradient
/// cannot be given such ones.
pub proof fn law_leaf_is_terminal<V: Value, F: Function<V>>(
    t: Tape<V, F>,
    root: int,
    out: Outcome<V>,
)
    requires
        0 <= root < t.len(),
        t[root].creator is None,
    ensures
        possible(t, root, out) <==> seeds(t, root, out),
{
    assert forall|u: int| #[trigger] awaits(t, root, u) implies !pending_at(
        t,
        u,
        t[root].generation,
        t.len(),
    ) by {
        lemma_leaf_reaches_itself_only(t, root, u);
    }
    if possible(t, root, out) {
        let start = choose|start: Outcome<V>| #[trigger]
            seeds(t, root, start) && match start {
                Err(e) => out == Err::<Grads<V>, Error>(e),
                Ok(grads) => drains(t, root, grads, t[root].generation, t.len(), out),
            };
        match start {
            Err(_) => {},
            Ok(grads) => {
                lemma_idle_to_end(t, root, grads, t[root].generation, t.len(), out);
            },
        }
    }
    if seeds(t, root, out) {
        match out {
            Err(_) => {},
            Ok(grads) => {
                lemma_idle_to_end(t, root, grads, t[root].generation, t.len(), out);
            },
        }
    }
}

/// Nothing arrives at a node once the pass has come down to its
/// generation: a pass that goes on from the nodes of generation
/// `generation` leaves alone every node of that generation or a higher
/// one. So the gradient that a node hands to its operation when it is
/// visited is the gradient that the pass leaves at the node, whatever the
/// order in which the graph was built.
pub proof fn law_gradient_is_complete_when_used<V: Value, F: Function<V>>(
    t: Tape<V, F>,
    root: int,
    grads: Grads<V>,
    generation: nat,
    below: nat,
    after: Grads<V>,
    j: int,
)
    requires
        well_formed(t),
        below <= t.len(),
        grads.len() == t.len(),
        drains(t, root, grads, generation, below, Ok::<Grads<V>, Error>(after)),
        0 <= j < t.len(),
        t[j].generation >= generation,
    ensures
        after[j] == grads[j],
        after.len() == grads.len(),
    decreases generation, below,
{
    if below == 0 {
        if generation > 0 {
            law_gradient_is_complete_when_used(
                t,
                root,
                grads,
                (generation - 1) as nat,
                t.len(),
                after,
                j,
            );
        }
    } else {
        let o = (below - 1) as nat;
        if t[o as int].generation == generation && awaits(t, root, o as int) {
            let mid = choose|mid: Outcome<V>| #[trigger]
                visits(t, grads, o as int, mid) && match mid {
                    Err(e) => Ok::<Grads<V>, Error>(after) == Err::<Grads<V>, Error>(e),
                    Ok(next) => drains(
                        t,
                        root,
                        next,
                        generation,
                        o,
                        Ok::<Grads<V>, Error>(after),
                    ),
                };
            let next = mid.unwrap();
            let record = t[o as int].creator.unwrap();
            let gxs = choose|gxs: Option<Vec<V>>| #[trigger]
                crate::function::backward_answer(
                    record.function,
                    crate::tape::input_data(t, record.inputs),
                    grads[o as int].unwrap(),
                    gxs,
                ) && match gxs {
                    None => mid == Err::<Grads<V>, Error>(Error::ShapeMismatch),
                    Some(v) => if v@.len() != record.inputs.len() {
                        mid == Err::<Grads<V>, Error>(Error::ArityMismatch)
                    } else {
                        spreads(t, grads, record.inputs, v@, 0, mid)
                    },
                };
            assert forall|i: int| 0 <= i < record.inputs.len() implies 0
                <= #[trigger] record.inputs[i] < grads.len() && record.inputs[i] != j by {
                lemma_inputs_are_older(t, o as int, i);
            }
            lemma_spreads_elsewhere(t, grads, record.inputs, gxs.unwrap()@, 0, next, j);
            law_gradient_is_complete_when_used(t, root, next, generation, o, after, j);
        } else {
            law_gradient_is_complete_when_used(t, root, grads, generation, o, after, j);
        }
    }
}

/// The nodes that were computed from a node are visited before it. When
/// the pass visits a node, each of its inputs is still to come, and awaits
/// the pass if it was itself computed.
pub proof fn law_consumers_come_first<V, F>(t: Tape<V, F>, root: int, o: int, k: int)
    requires
        well_formed(t),
        0 <= root < t.len(),
        awaits(t, root, o),
        0 <= k < t[o].creator.unwrap().inputs.len(),
    ensures
        pending_at(t, t[o].creator.unwrap().inputs[k], t[o].generation, o as nat),
        t[t[o].creator.unwrap().inputs[k]].creator is Some ==> awaits(
            t,
            root,
            t[o].creator.unwrap().inputs[k],
        ),
{
    lemma_inputs_are_older(t, o, k);
    lemma_reaches_input(t, root, o, k);
}

/// Whether the operation of the node at `o` can hand back another number
/// of gradients than the node has inputs.
pub open spec fn miscounts<V: Value, F: Function<V>>(t: Tape<V, F>, o: int) -> bool {
    exists|gy: V, gxs: Vec<V>| #[trigger]
        backward_answer(
            t[o].creator.unwrap().function,
            input_data(t, t[o].creator.unwrap().inputs),
            gy,
            Some(gxs),
        ) && gxs@.len() != t[o].creator.unwrap().inputs.len()
}

/// Gradients that cannot be delivered fail for their shape.
proof fn lemma_spreads_fails_for_shape<V: Value, F>(
    t: Tape<V, F>,
    grads: Grads<V>,
    inputs: Seq<int>,
    gxs: Seq<V>,
    k: int,
    e: Error,
)
    requires
        spreads(t, grads, inputs, gxs, k, Err::<Grads<V>, Error>(e)),
    ensures
        e == Error::ShapeMismatch,
    decreases gxs.len() - k,
{
    if 0 <= k < gxs.len() {
        let mid = choose|mid: Outcome<V>| #[trigger]
            delivers(t, grads, inputs[k], gxs[k], mid) && match mid {
                Err(e2) => Err::<Grads<V>, Error>(e) == Err::<Grads<V>, Error>(e2),
                Ok(next) => spreads(t, next, inputs, gxs, k + 1, Err::<Grads<V>, Error>(e)),
            };
        match mid {
            Err(_) => {},
            Ok(next) => {
                lemma_spreads_fails_for_shape(t, next, inputs, gxs, k + 1, e);
            },
        }
    }
}

/// Once the root is seeded, the pass does not fail for want of a seed, and
/// it fails for a wrong number of gradients only where the operation of a
/// node that it visits hands back such a number.
proof fn lemma_drains_failures<V: Value, F: Function<V>>(
    t: Tape<V, F>,
    root: int,
    grads: Grads<V>,
    generation: nat,
    below: nat,
    e: Error,
)
    requires
        below <= t.len(),
        drains(t, root, grads, generation, below, Err::<Grads<V>, Error>(e)),
    ensures
        e != Error::MissingSeed,
        e == Error::ArityMismatch ==> exists|o: int| awaits(t, root, o) && #[trigger] miscounts(t, o),
    decreases generation, below,
{
    let out = Err::<Grads<V>, Error>(e);
    if below == 0 {
        if generation > 0 {
            lemma_drains_failures(t, root, grads, (generation - 1) as nat, t.len(), e);
        }
    } else {
        let o = (below - 1) as nat;
        if t[o as int].generation == generation && awaits(t, root, o as int) {
            let mid = choose|mid: Outcome<V>| #[trigger]
                visits(t, grads, o as int, mid) && match mid {
                    Err(e2) => out == Err::<Grads<V>, Error>(e2),
                    Ok(next) => drains(t, root, next, generation, o, out),
                };
            match mid {
                Ok(next) => {
                    lemma_drains_failures(t, root, next, generation, o, e);
                },
                Err(_) => {
                    let record = t[o as int].creator.unwrap();
                    let gxs = choose|gxs: Option<Vec<V>>| #[trigger]
                        backward_answer(
                            record.function,
                            input_data(t, record.inputs),
                            grads[o as int].unwrap(),
                            gxs,
                        ) && match gxs {
                            None => mid == Err::<Grads<V>, Error>(Error::ShapeMismatch),
                            Some(v) => if v@.len() != record.inputs.len() {
                                mid == Err::<Grads<V>, Error>(Error::ArityMismatch)
                            } else {
                                spreads(t, grads, record.inputs, v@, 0, mid)
                            },
                        };
                    match gxs {
                        None => {},
                        Some(v) => {
                            if v@.len() != record.inputs.len() {
                                assert(miscounts(t, o as int));
                            } else {
                                lemma_spreads_fails_for_shape(t, grads, record.inputs, v@, 0, e);
                            }
                        },
                    }
                },
            }
        } else {
            lemma_drains_failures(t, root, grads, generation, o, e);
        }
    }
}

/// Why a backward pass fails. It fails with `MissingSeed` exactly where
/// it cannot set out: the root has no gradient, and its data gives no
/// value of ones of its own shape. It fails with `ArityMismatch` only
/// where the operation of a node that the root depends on hands back
/// another number of gradients than the node has inputs.
pub proof fn law_failures_have_causes<V: Value, F: Function<V>>(t: Tape<V, F>, root: int)
    requires
        0 <= root < t.len(),
    ensures
        possible(t, root, Err::<Grads<V>, Error>(Error::MissingSeed)) <==> seeds(
            t,
            root,
            Err::<Grads<V>, Error>(Error::MissingSeed),
        ),
        possible(t, root, Err::<Grads<V>, Error>(Error::ArityMismatch)) ==> exists|o: int|
            awaits(t, root, o) && #[trigger] miscounts(t, o),
{
    let missing = Err::<Grads<V>, Error>(Error::MissingSeed);
    if possible(t, root, missing) {
        let out = missing;
        let start = choose|start: Outcome<V>| #[trigger]
            seeds(t, root, start) && match start {
                Err(e) => out == Err::<Grads<V>, Error>(e),
                Ok(grads) => drains(t, root, grads, t[root].generation, t.len(), out),
            };
        match start {
            Err(_) => {},
            Ok(grads) => {
                lemma_drains_failures(
                    t,
                    root,
                    grads,
                    t[root].generation,
                    t.len(),
                    Error::MissingSeed,
                );
            },
        }
    }
    let miscount = Err::<Grads<V>, Error>(Error::ArityMismatch);
    if possible(t, root, miscount) {
        let out = miscount;
        let start = choose|start: Outcome<V>| #[trigger]
            seeds(t, root, start) && match start {
                Err(e) => out == Err::<Grads<V>, Error>(e),
                Ok(grads) => drains(t, root, grads, t[root].generation, t.len(), out),
            };
        match start {
            Err(_) => {},
            Ok(grads) => {
                lemma_drains_failures(
                    t,
                    root,
                    grads,
                    t[root].generation,
                    t.len(),
                    Error::ArityMismatch,
                );
            },
        }
    }
}

/// A pass leaves alone the nodes that the root does not depend on.
proof fn lemma_drains_elsewhere<V: Value, F: Function<V>>(
    t: Tape<V, F>,
    root: int,
    grads: Grads<V>,
    generation: nat,
    below: nat,
    after: Grads<V>,
    j: int,
)
    requires
        well_formed(t),
        0 <= root < t.len(),
        below <= t.len(),
        grads.len() == t.len(),
        drains(t, root, grads, generation, below, Ok::<Grads<V>, Error>(after)),
        0 <= j < t.len(),
        !reaches(t, root, j),
    ensures
        after[j] == grads[j],
        after.len() == grads.len(),
    decreases generation, below,
{
    let out = Ok::<Grads<V>, Error>(after);
    if below == 0 {
        if generation > 0 {
            lemma_drains_elsewhere(t, root, grads, (generation - 1) as nat, t.len(), after, j);
        }
    } else {
        let o = (below - 1) as nat;
        if t[o as int].generation == generation && awaits(t, root, o as int) {
            let mid = choose|mid: Outcome<V>| #[trigger]
                visits(t, grads, o as int, mid) && match mid {
                    Err(e) => out == Err::<Grads<V>, Error>(e),
                    Ok(next) => drains(t, root, next, generation, o, out),
                };
            let next = mid.unwrap();
            let record = t[o as int].creator.unwrap();
            let gxs = choose|gxs: Option<Vec<V>>| #[trigger]
                backward_answer(
                    record.function,
                    input_data(t, record.inputs),
                    grads[o as int].unwrap(),
                    gxs,
                ) && match gxs {
                    None => mid == Err::<Grads<V>, Error>(Error::ShapeMismatch),
                    Some(v) => if v@.len() != record.inputs.len() {
                        mid == Err::<Grads<V>, Error>(Error::ArityMismatch)
                    } else {
                        spreads(t, grads, record.inputs, v@, 0, mid)
                    },
                };
            assert forall|i: int| 0 <= i < record.inputs.len() implies 0
                <= #[trigger] record.inputs[i] < grads.len() && record.inputs[i] != j by {
                lemma_inputs_are_older(t, o as int, i);
                lemma_reaches_input(t, root, o as int, i);
            }
            lemma_spreads_elsewhere(t, grads, record.inputs, gxs.unwrap()@, 0, next, j);
            lemma_drains_elsewhere(t, root, next, generation, o, after, j);
        } else {
            lemma_drains_elsewhere(t, root, grads, generation, o, after, j);
        }
    }
}

/// A node that the root of a backward pass does not depend on keeps the
/// gradient that it had, or none.
pub proof fn law_unreached_nodes_are_left_alone<V: Value, F: Function<V>>(
    t: Tape<V, F>,
    root: int,
    after: Grads<V>,
    j: int,
)
    requires
        well_formed(t),
        0 <= root < t.len(),
        possible(t, root, Ok::<Grads<V>, Error>(after)),
        0 <= j < t.len(),
        !reaches(t, root, j),
    ensures
        after[j] == t[j].grad,
        after.len() == t.len(),
{
    let out = Ok::<Grads<V>, Error>(after);
    assert(reaches(t, root, root));
    let start = choose|start: Outcome<V>| #[trigger]
        seeds(t, root, start) && match start {
            Err(e) => out == Err::<Grads<V>, Error>(e),
            Ok(grads) => drains(t, root, grads, t[root].generation, t.len(), out),
        };
    lemma_drains_elsewhere(t, root, start.unwrap(), t[root].generation, t.len(), after, j);
}

/// Gradients that are delivered fill the slots of the nodes that they are
/// for, and empty no slot.
proof fn lemma_spreads_fills<V: Value, F>(
    t: Tape<V, F>,
    grads: Grads<V>,
    inputs: Seq<int>,
    gxs: Seq<V>,
    k: int,
    after: Grads<V>,
    j: int,
)
    requires
        0 <= k,
        gxs.len() == inputs.len(),
        spreads(t, grads, inputs, gxs, k, Ok::<Grads<V>, Error>(after)),
        0 <= j < grads.len(),
        forall|i: int| k <= i < inputs.len() ==> 0 <= #[trigger] inputs[i] < grads.len(),
        grads[j] is Some || exists|i: int| k <= i < inputs.len() && #[trigger] inputs[i] == j,
    ensures
        after[j] is Some,
    decreases gxs.len() - k,
{
    if k < gxs.len() {
        let mid = choose|mid: Outcome<V>| #[trigger]
            delivers(t, grads, inputs[k], gxs[k], mid) && match mid {
                Err(e) => Ok::<Grads<V>, Error>(after) == Err::<Grads<V>, Error>(e),
                Ok(next) => spreads(t, next, inputs, gxs, k + 1, Ok::<Grads<V>, Error>(after)),
            };
        let next = mid.unwrap();
        assert(0 <= inputs[k] < grads.len());
        if !(next[j] is Some) {
            let i = choose|i: int| k <= i < inputs.len() && #[trigger] inputs[i] == j;
            assert(i != k);
            assert(k + 1 <= i < inputs.len() && inputs[i] == j);
        }
        lemma_spreads_fills(t, next, inputs, gxs, k + 1, after, j);
    }
}

/// A pass empties no slot, and fills the slots of the inputs of every node
/// that it still has to visit.
proof fn lemma_drains_fills<V: Value, F: Function<V>>(
    t: Tape<V, F>,
    root: int,
    grads: Grads<V>,
    generation: nat,
    below: nat,
    after: Grads<V>,
    j: int,
)
    requires
        well_formed(t),
        below <= t.len(),
        grads.len() == t.len(),
        drains(t, root, grads, generation, below, Ok::<Grads<V>, Error>(after)),
        0 <= j < t.len(),
        grads[j] is Some || exists|o: int, k: int|
            awaits(t, root, o) && pending_at(t, o, generation, below) && 0 <= k
                < t[o].creator.unwrap().inputs.len() && #[trigger] t[o].creator.unwrap().inputs[k]
                == j,
    ensures
        after[j] is Some,
    decreases generation, below,
{
    let out = Ok::<Grads<V>, Error>(after);
    if below == 0 {
        if generation > 0 {
            lemma_drains_fills(t, root, grads, (generation - 1) as nat, t.len(), after, j);
        }
    } else {
        let at = (below - 1) as nat;
        if t[at as int].generation == generation && awaits(t, root, at as int) {
            let mid = choose|mid: Outcome<V>| #[trigger]
                visits(t, grads, at as int, mid) && match mid {
                    Err(e) => out == Err::<Grads<V>, Error>(e),
                    Ok(next) => drains(t, root, next, generation, at, out),
                };
            let next = mid.unwrap();
            let record = t[at as int].creator.unwrap();
            let gxs = choose|gxs: Option<Vec<V>>| #[trigger]
                backward_answer(
                    record.function,
                    input_data(t, record.inputs),
                    grads[at as int].unwrap(),
                    gxs,
                ) && match gxs {
                    None => mid == Err::<Grads<V>, Error>(Error::ShapeMismatch),
                    Some(v) => if v@.len() != record.inputs.len() {
                        mid == Err::<Grads<V>, Error>(Error::ArityMismatch)
                    } else {
                        spreads(t, grads, record.inputs, v@, 0, mid)
                    },
                };
            assert forall|i: int| 0 <= i < record.inputs.len() implies 0
                <= #[trigger] record.inputs[i] < grads.len() && record.inputs[i] != at by {
                lemma_inputs_are_older(t, at as int, i);
            }
            lemma_spreads_elsewhere(t, grads, record.inputs, gxs.unwrap()@, 0, next, at as int);
            if grads[j] is Some || exists|i: int|
                0 <= i < record.inputs.len() && #[trigger] record.inputs[i] == j {
                lemma_spreads_fills(t, grads, record.inputs, gxs.unwrap()@, 0, next, j);
            } else {
                let (o, k) = choose|o: int, k: int|
                    awaits(t, root, o) && pending_at(t, o, generation, below) && 0 <= k
                        < t[o].creator.unwrap().inputs.len()
                        && #[trigger] t[o].creator.unwrap().inputs[k] == j;
                assert(o != at);
                assert(awaits(t, root, o) && pending_at(t, o, generation, at) && 0 <= k
                    < t[o].creator.unwrap().inputs.len() && t[o].creator.unwrap().inputs[k] == j);
            }
            lemma_drains_fills(t, root, next, generation, at, after, j);
        } else {
            if !(grads[j] is Some) {
                let (o, k) = choose|o: int, k: int|
                    awaits(t, root, o) && pending_at(t, o, generation, below) && 0 <= k
                        < t[o].creator.unwrap().inputs.len()
                        && #[trigger] t[o].creator.unwrap().inputs[k] == j;
                assert(awaits(t, root, o) && pending_at(t, o, generation, at) && 0 <= k
                    < t[o].creator.unwrap().inputs.len() && t[o].creator.unwrap().inputs[k] == j);
            }
            lemma_drains_fills(t, root, grads, generation, at, after, j);
        }
    }
}

/// After a backward pass, every node that the root depends on holds a
/// gradient: the root itself, and each node that it was computed from.
pub proof fn law_reached_nodes_hold_a_gradient<V: Value, F: Function<V>>(
    t: Tape<V, F>,
    root: int,
    after: Grads<V>,
    j: int,
)
    requires
        well_formed(t),
        0 <= root < t.len(),
        possible(t, root, Ok::<Grads<V>, Error>(after)),
        reaches(t, root, j),
    ensures
        after[j] is Some,
{
    let out = Ok::<Grads<V>, Error>(after);
    lemma_reaches_older(t, root, j);
    let start = choose|start: Outcome<V>| #[trigger]
        seeds(t, root, start) && match start {
            Err(e) => out == Err::<Grads<V>, Error>(e),
            Ok(grads) => drains(t, root, grads, t[root].generation, t.len(), out),
        };
    let grads = start.unwrap();
    assert(grads[root] is Some);
    if j != root {
        let (o, k) = lemma_reaches_through(t, root, j);
        lemma_reaches_older(t, root, o);
        assert(awaits(t, root, o) && pending_at(t, o, t[root].generation, t.len()) && 0 <= k
            < t[o].creator.unwrap().inputs.len() && t[o].creator.unwrap().inputs[k] == j);
    }
    lemma_drains_fills(t, root, grads, t[root].generation, t.len(), after, j);
}

/// Whether the methods of the value type `V` give one answer at most for
/// the same arguments.
pub open spec fn single_valued<V: Value>() -> bool {
    &&& forall|a: V, b: V, r1: bool, r2: bool|
        #![trigger shape_answer(a, b, r1), shape_answer(a, b, r2)]
        shape_answer(a, b, r1) && shape_answer(a, b, r2) ==> r1 == r2
    &&& forall|a: V, r1: Option<V>, r2: Option<V>|
        #![trigger ones_answer(a, r1), ones_answer(a, r2)]
        ones_answer(a, r1) && ones_answer(a, r2) ==> r1 == r2
    &&& forall|a: V, b: V, r1: Option<V>, r2: Option<V>|
        #![trigger plus_answer(a, b, r1), plus_answer(a, b, r2)]
        plus_answer(a, b, r1) && plus_answer(a, b, r2) ==> r1 == r2
}

/// Whether the operations of type `F` hand back the same gradients for the
/// same inputs and the same gradient of the output.
pub open spec fn single_valued_backward<V: Value, F: Function<V>>() -> bool {
    forall|f: F, xs: Seq<V>, gy: V, r1: Option<Vec<V>>, r2: Option<Vec<V>>|
        #![trigger backward_answer(f, xs, gy, r1), backward_answer(f, xs, gy, r2)]
        backward_answer(f, xs, gy, r1) && backward_answer(f, xs, gy, r2) ==> handed(r1) == handed(
            r2,
        )
}

proof fn lemma_spreads_is_single_valued<V: Value, F>(
    t: Tape<V, F>,
    grads: Grads<V>,
    inputs: Seq<int>,
    gxs: Seq<V>,
    k: int,
    one: Outcome<V>,
    other: Outcome<V>,
)
    requires
        single_valued::<V>(),
        spreads(t, grads, inputs, gxs, k, one),
        spreads(t, grads, inputs, gxs, k, other),
    ensures
        one == other,
    decreases gxs.len() - k,
{
    if 0 <= k < gxs.len() {
        let mid1 = choose|mid: Outcome<V>| #[trigger]
            delivers(t, grads, inputs[k], gxs[k], mid) && match mid {
                Err(e) => one == Err::<Grads<V>, Error>(e),
                Ok(next) => spreads(t, next, inputs, gxs, k + 1, one),
            };
        let mid2 = choose|mid: Outcome<V>| #[trigger]
            delivers(t, grads, inputs[k], gxs[k], mid) && match mid {
                Err(e) => other == Err::<Grads<V>, Error>(e),
                Ok(next) => spreads(t, next, inputs, gxs, k + 1, other),
            };
        assert(mid1 == mid2);
        match mid1 {
            Err(_) => {},
            Ok(next) => {
                lemma_spreads_is_single_valued(t, next, inputs, gxs, k + 1, one, other);
            },
        }
    }
}

proof fn lemma_visits_is_single_valued<V: Value, F: Function<V>>(
    t: Tape<V, F>,
    grads: Grads<V>,
    o: int,
    one: Outcome<V>,
    other: Outcome<V>,
)
    requires
        single_valued::<V>(),
        single_valued_backward::<V, F>(),
        visits(t, grads, o, one),
        visits(t, grads, o, other),
    ensures
        one == other,
{
    let record = t[o].creator.unwrap();
    let xs = input_data(t, record.inputs);
    let gy = grads[o].unwrap();
    let gxs1 = choose|gxs: Option<Vec<V>>| #[trigger]
        backward_answer(record.function, xs, gy, gxs) && match gxs {
            None => one == Err::<Grads<V>, Error>(Error::ShapeMismatch),
            Some(v) => if v@.len() != record.inputs.len() {
                one == Err::<Grads<V>, Error>(Error::ArityMismatch)
            } else {
                spreads(t, grads, record.inputs, v@, 0, one)
            },
        };
    let gxs2 = choose|gxs: Option<Vec<V>>| #[trigger]
        backward_answer(record.function, xs, gy, gxs) && match gxs {
            None => other == Err::<Grads<V>, Error>(Error::ShapeMismatch),
            Some(v) => if v@.len() != record.inputs.len() {
                other == Err::<Grads<V>, Error>(Error::ArityMismatch)
            } else {
                spreads(t, grads, record.inputs, v@, 0, other)
            },
        };
    assert(handed(gxs1) == handed(gxs2));
    match gxs1 {
        None => {},
        Some(v) => {
            if v@.len() == record.inputs.len() {
                lemma_spreads_is_single_valued(t, grads, record.inputs, v@, 0, one, other);
            }
        },
    }
}

proof fn lemma_drains_is_single_valued<V: Value, F: Function<V>>(
    t: Tape<V, F>,
    root: int,
    grads: Grads<V>,
    generation: nat,
    below: nat,
    one: Outcome<V>,
    other: Outcome<V>,
)
    requires
        single_valued::<V>(),
        single_valued_backward::<V, F>(),
        drains(t, root, grads, generation, below, one),
        drains(t, root, grads, generation, below, other),
    ensures
        one == other,
    decreases generation, below,
{
    if below == 0 {
        if generation > 0 {
            lemma_drains_is_single_valued(
                t,
                root,
                grads,
                (generation - 1) as nat,
                t.len(),
                one,
                other,
            );
        }
    } else {
        let o = (below - 1) as nat;
        if t[o as int].generation == generation && awaits(t, root, o as int) {
            let mid1 = choose|mid: Outcome<V>| #[trigger]
                visits(t, grads, o as int, mid) && match mid {
                    Err(e) => one == Err::<Grads<V>, Error>(e),
                    Ok(next) => drains(t, root, next, generation, o, one),
                };
            let mid2 = choose|mid: Outcome<V>| #[trigger]
                visits(t, grads, o as int, mid) && match mid {
                    Err(e) => other == Err::<Grads<V>, Error>(e),
                    Ok(next) => drains(t, root, next, generation, o, other),
                };
            lemma_visits_is_single_valued(t, grads, o as int, mid1, mid2);
            match mid1 {
                Err(_) => {},
                Ok(next) => {
                    lemma_drains_is_single_valued(t, root, next, generation, o, one, other);
                },
            }
        } else {
            lemma_drains_is_single_valued(t, root, grads, generation, o, one, other);
        }
    }
}

proof fn lemma_seeds_is_single_valued<V: Value, F>(
    t: Tape<V, F>,
    root: int,
    one: Outcome<V>,
    other: Outcome<V>,
)
    requires
        single_valued::<V>(),
        seeds(t, root, one),
        seeds(t, root, other),
    ensures
        one == other,
{
    if t[root].grad is None {
        match (one, other) {
            (Ok(a), Ok(b)) => {
                assert(a[root] == b[root]);
            },
            (Ok(a), Err(_)) => {
                if !ones_answer(t[root].data, None) {
                    let seed = choose|seed: V| #[trigger]
                        ones_answer(t[root].data, Some(seed)) && shape_answer(
                            seed,
                            t[root].data,
                            false,
                        );
                    assert(Some(seed) == a[root]);
                }
            },
            (Err(_), Ok(b)) => {
                if !ones_answer(t[root].data, None) {
                    let seed = choose|seed: V| #[trigger]
                        ones_answer(t[root].data, Some(seed)) && shape_answer(
                            seed,
                            t[root].data,
                            false,
                        );
                    assert(Some(seed) == b[root]);
                }
            },
            (Err(_), Err(_)) => {},
        }
    }
}

/// The pass adds no choice of its own. Where the values and the operations
/// give one answer at most for the same arguments, a backward pass has one
/// outcome at most: the gradients that it leaves, or the reason for which
/// it fails, are determined by the graph and the root.
pub proof fn law_pass_is_single_valued<V: Value, F: Function<V>>(
    t: Tape<V, F>,
    root: int,
    one: Outcome<V>,
    other: Outcome<V>,
)
    requires
        single_valued::<V>(),
        single_valued_backward::<V, F>(),
        possible(t, root, one),
        possible(t, root, other),
    ensures
        one == other,
{
    let start1 = choose|start: Outcome<V>| #[trigger]
        seeds(t, root, start) && match start {
            Err(e) => one == Err::<Grads<V>, Error>(e),
            Ok(grads) => drains(t, root, grads, t[root].generation, t.len(), one),
        };
    let start2 = choose|start: Outcome<V>| #[trigger]
        seeds(t, root, start) && match start {
            Err(e) => other == Err::<Grads<V>, Error>(e),
            Ok(grads) => drains(t, root, grads, t[root].generation, t.len(), other),
        };
    lemma_seeds_is_single_valued(t, root, start1, start2);
    match start1 {
        Err(_) => {},
        Ok(grads) => {
            lemma_drains_is_single_valued(
                t,
                root,
                grads,
                t[root].generation,
                t.len(),
                one,
                other,
            );
        },
    }
}

/// The operations of this crate hand back one gradient for each input or
/// none at all, so a backward pass over a graph of them does not fail with
/// `ArityMismatch`.
pub proof fn law_ops_never_miscount<V: Numeric>(t: Tape<V, Op>, root: int)
    requires
        0 <= root < t.len(),
    ensures
        !possible(t, root, Err::<Grads<V>, Error>(Error::ArityMismatch)),
{
    if possible(t, root, Err::<Grads<V>, Error>(Error::ArityMismatch)) {
        law_failures_have_causes(t, root);
        let o = choose|o: int| awaits(t, root, o) && #[trigger] miscounts(t, o);
        let record = t[o].creator.unwrap();
        let xs = input_data(t, record.inputs);
        let (gy, gxs) = choose|gy: V, gxs: Vec<V>| #[trigger]
            backward_answer(record.function, xs, gy, Some(gxs)) && gxs@.len()
                != record.inputs.len();
        lemma_op_backward(record.function, xs, gy, Some(gxs));
        assert(false);
    }
}

} // verus!
