//! The backward pass: the traversal that sends gradients from a root to
//! everything that it was computed from.

use vstd::prelude::*;
use crate::error::Error;
use crate::function::{backward_answer, values, Function};
use crate::graph::{Graph, Variable};
use crate::laws::{law_reached_nodes_hold_a_gradient, law_unreached_nodes_are_left_alone};
use crate::pass::{
    awaits, delivers, drains, grads_of, lemma_idle, lemma_idle_to_end, lemma_reaches_input,
    lemma_reaches_older, pending_at, possible, reaches, seeds, spreads, visits, with_grads,
    Grads,
    Outcome,
};
use crate::tape::{input_data, lemma_inputs_are_older, well_formed, Tape};
use crate::value::{ones_answer, Value};

verus! {

/// The slots that a pass works on: what it has written so far, and under
/// it the slots of the graph.
pub(crate) open spec fn merged<V, F>(t: Tape<V, F>, fresh: Seq<Option<V>>) -> Grads<V> {
    Seq::new(
        t.len(),
        |i: int|
            if fresh[i] is Some {
                fresh[i]
            } else {
                t[i].grad
            },
    )
}

/// Whether the pass visits the node at `a` before the node at `b`.
pub(crate) open spec fn precedes<V, F>(t: Tape<V, F>, a: int, b: int) -> bool {
    t[a].generation > t[b].generation || (t[a].generation == t[b].generation && a > b)
}

/// Whether some node of the frontier depends on the node at `u`.
pub(crate) open spec fn covered<V, F>(t: Tape<V, F>, frontier: Seq<usize>, u: int) -> bool {
    exists|j: int| 0 <= j < frontier.len() && #[trigger] reaches(t, frontier[j] as int, u)
}

/// Whether the node at `x` is one of the first `upto` inputs of the node at
/// `o`, and was itself computed.
pub(crate) open spec fn computed_input<V, F>(t: Tape<V, F>, o: int, upto: int, x: int) -> bool {
    t[x].creator is Some && exists|k: int|
        0 <= k < upto && #[trigger] t[o].creator.unwrap().inputs[k] == x
}

proof fn lemma_computed_input_step<V, F>(t: Tape<V, F>, o: int, upto: int, x: int)
    requires
        0 <= upto,
    ensures
        computed_input(t, o, upto + 1, x) <==> (computed_input(t, o, upto, x) || (t[x].creator
            is Some && t[o].creator.unwrap().inputs[upto] == x)),
{
    let inputs = t[o].creator.unwrap().inputs;
    if computed_input(t, o, upto + 1, x) {
        let k = choose|k: int| 0 <= k < upto + 1 && #[trigger] inputs[k] == x;
        if k < upto {
            assert(computed_input(t, o, upto, x));
        }
    }
    if computed_input(t, o, upto, x) {
        let k = choose|k: int| 0 <= k < upto && #[trigger] inputs[k] == x;
        assert(0 <= k < upto + 1 && inputs[k] == x);
    }
    if t[x].creator is Some && inputs[upto] == x {
        assert(0 <= upto < upto + 1 && inputs[upto] == x);
    }
}

fn current<'a, V: Value, F: Function<V>>(
    graph: &'a Graph<V, F>,
    fresh: &'a Vec<Option<V>>,
    i: usize,
) -> (slot: Option<&'a V>)
    requires
        i < graph@.len(),
        fresh@.len() == graph@.len(),
    ensures
        match slot {
            Some(g) => merged(graph@, fresh@)[i as int] == Some(*g),
            None => merged(graph@, fresh@)[i as int] is None,
        },
{
    match &fresh[i] {
        Some(g) => Some(g),
        None => graph.grad_at(i),
    }
}

fn deliver<V: Value, F: Function<V>>(
    graph: &Graph<V, F>,
    fresh: &mut Vec<Option<V>>,
    i: usize,
    gx: V,
) -> (r: Result<(), Error>)
    requires
        i < graph@.len(),
        old(fresh)@.len() == graph@.len(),
    ensures
        final(fresh)@.len() == graph@.len(),
        match r {
            Ok(()) => {
                &&& delivers(
                    graph@,
                    merged(graph@, old(fresh)@),
                    i as int,
                    gx,
                    Ok::<Grads<V>, Error>(merged(graph@, final(fresh)@)),
                )
                &&& final(fresh)@[i as int] is Some
                &&& final(fresh)@ == old(fresh)@.update(i as int, final(fresh)@[i as int])
            },
            Err(e) => delivers(
                graph@,
                merged(graph@, old(fresh)@),
                i as int,
                gx,
                Err::<Grads<V>, Error>(e),
            ),
        },
{
    let ghost before = merged(graph@, fresh@);
    if !gx.same_shape(graph.data_at(i)) {
        return Err(Error::ShapeMismatch);
    }
    let sum = match current(graph, fresh, i) {
        None => gx,
        Some(g) => match g.plus(&gx) {
            Some(sum) => sum,
            None => {
                return Err(Error::ShapeMismatch);
            },
        },
    };
    fresh[i] = Some(sum);
    proof {
        assert(merged(graph@, fresh@) =~= before.update(i as int, Some(sum)));
    }
    Ok(())
}

fn listed(frontier: &Vec<usize>, x: usize) -> (found: bool)
    ensures
        found == frontier@.contains(x),
{
    let mut j: usize = 0;
    while j < frontier.len()
        invariant
            j <= frontier.len(),
            forall|k: int| 0 <= k < j ==> frontier@[k] != x,
        decreases frontier.len() - j,
    {
        if frontier[j] == x {
            return true;
        }
        j += 1;
    }
    false
}

fn take_latest<V: Value, F: Function<V>>(graph: &Graph<V, F>, frontier: &mut Vec<usize>) -> (o:
    usize)
    requires
        old(frontier)@.len() > 0,
        old(frontier)@.no_duplicates(),
        forall|j: int| 0 <= j < old(frontier)@.len() ==> old(frontier)@[j] < graph@.len(),
    ensures
        old(frontier)@.contains(o),
        final(frontier)@.no_duplicates(),
        final(frontier)@.len() + 1 == old(frontier)@.len(),
        forall|x: usize|
            final(frontier)@.contains(x) <==> (old(frontier)@.contains(x) && x != o),
        forall|j: int|
            0 <= j < old(frontier)@.len() ==> !precedes(
                graph@,
                #[trigger] old(frontier)@[j] as int,
                o as int,
            ),
{
    let mut best: usize = 0;
    let mut best_generation: usize = graph.generation_at(frontier[0]);
    let mut j: usize = 1;
    while j < frontier.len()
        invariant
            1 <= j <= frontier@.len(),
            best < j,
            frontier@ == old(frontier)@,
            forall|k: int| 0 <= k < frontier@.len() ==> frontier@[k] < graph@.len(),
            best_generation == graph@[frontier@[best as int] as int].generation,
            forall|k: int|
                0 <= k < j ==> !precedes(
                    graph@,
                    #[trigger] frontier@[k] as int,
                    frontier@[best as int] as int,
                ),
        decreases frontier@.len() - j,
    {
        let generation = graph.generation_at(frontier[j]);
        if generation > best_generation || (generation == best_generation && frontier[j]
            > frontier[best]) {
            best = j;
            best_generation = generation;
        }
        j += 1;
    }
    let ghost before = frontier@;
    let o = frontier.swap_remove(best);
    proof {
        let after = frontier@;
        assert(before[best as int] == o);
        assert forall|a: int, b: int| 0 <= a < after.len() && 0 <= b < after.len() && a
            != b implies after[a] != after[b] by {
            let a0 = if a == best {
                before.len() - 1
            } else {
                a
            };
            let b0 = if b == best {
                before.len() - 1
            } else {
                b
            };
            assert(after[a] == before[a0]);
            assert(after[b] == before[b0]);
        }
        assert forall|x: usize| after.contains(x) <==> (before.contains(x) && x != o) by {
            if after.contains(x) {
                let a = choose|a: int| 0 <= a < after.len() && after[a] == x;
                let a0 = if a == best {
                    before.len() - 1
                } else {
                    a
                };
                assert(before[a0] == x);
                assert(a0 != best);
            }
            if before.contains(x) && x != o {
                let a0 = choose|a0: int| 0 <= a0 < before.len() && before[a0] == x;
                let a = if a0 == before.len() - 1 {
                    best as int
                } else {
                    a0
                };
                assert(after[a] == x);
            }
        }
    }
    o
}

fn spread<V: Value, F: Function<V>>(
    graph: &Graph<V, F>,
    fresh: &mut Vec<Option<V>>,
    frontier: &mut Vec<usize>,
    o: usize,
    inputs: &Vec<usize>,
    gxs: Vec<V>,
) -> (r: Result<(), Error>)
    requires
        well_formed(graph@),
        o < graph@.len(),
        graph@[o as int].creator is Some,
        graph@[o as int].creator.unwrap().inputs == Seq::new(
            inputs@.len(),
            |k: int| inputs@[k] as int,
        ),
        gxs@.len() == inputs@.len(),
        old(fresh)@.len() == graph@.len(),
        old(frontier)@.no_duplicates(),
    ensures
        final(fresh)@.len() == graph@.len(),
        match r {
            Ok(()) => {
                &&& spreads(
                    graph@,
                    merged(graph@, old(fresh)@),
                    graph@[o as int].creator.unwrap().inputs,
                    gxs@,
                    0,
                    Ok::<Grads<V>, Error>(merged(graph@, final(fresh)@)),
                )
                &&& forall|i: int|
                    0 <= i < graph@.len() && (#[trigger] merged(graph@, old(fresh)@)[i]) is Some
                        ==> merged(graph@, final(fresh)@)[i] is Some
                &&& forall|k: int|
                    0 <= k < inputs@.len() ==> merged(
                        graph@,
                        final(fresh)@,
                    )[#[trigger] inputs@[k] as int] is Some
                &&& final(frontier)@.no_duplicates()
                &&& forall|x: usize|
                    #[trigger] final(frontier)@.contains(x) <==> (old(frontier)@.contains(x)
                        || computed_input(graph@, o as int, inputs@.len() as int, x as int))
            },
            Err(e) => spreads(
                graph@,
                merged(graph@, old(fresh)@),
                graph@[o as int].creator.unwrap().inputs,
                gxs@,
                0,
                Err::<Grads<V>, Error>(e),
            ),
        },
{
    let ghost t = graph@;
    let ghost places = graph@[o as int].creator.unwrap().inputs;
    let ghost start = merged(graph@, fresh@);
    let ghost all = gxs@;
    let ghost queue = frontier@;
    let m = inputs.len();
    let mut rest = gxs;
    let mut k: usize = 0;
    while k < m
        invariant
            k <= m,
            m == inputs@.len(),
            t == graph@,
            well_formed(t),
            o < t.len(),
            t[o as int].creator is Some,
            places == t[o as int].creator.unwrap().inputs,
            places == Seq::new(inputs@.len(), |j: int| inputs@[j] as int),
            all == gxs@,
            all.len() == m,
            start == merged(t, old(fresh)@),
            queue == old(frontier)@,
            rest@ == all.subrange(k as int, m as int),
            fresh@.len() == t.len(),
            frontier@.no_duplicates(),
            forall|after: Outcome<V>| #[trigger]
                spreads(t, merged(t, fresh@), places, all, k as int, after) ==> spreads(
                    t,
                    start,
                    places,
                    all,
                    0,
                    after,
                ),
            forall|i: int|
                0 <= i < t.len() && (#[trigger] start[i]) is Some ==> merged(t, fresh@)[i] is Some,
            forall|j: int| 0 <= j < k ==> merged(t, fresh@)[#[trigger] inputs@[j] as int] is Some,
            forall|x: usize|
                #[trigger] frontier@.contains(x) <==> (queue.contains(x) || computed_input(
                    t,
                    o as int,
                    k as int,
                    x as int,
                )),
        decreases m - k,
    {
        let i = inputs[k];
        proof {
            assert(places[k as int] == i);
            lemma_inputs_are_older(t, o as int, k as int);
        }
        let gx = rest.remove(0);
        assert(gx == all[k as int]);
        assert(rest@ =~= all.subrange(k + 1, m as int));
        let ghost cur = merged(t, fresh@);
        let ghost held = fresh@;
        match deliver(graph, fresh, i, gx) {
            Err(e) => {
                proof {
                    assert(delivers(
                        t,
                        cur,
                        places[k as int],
                        all[k as int],
                        Err::<Grads<V>, Error>(e),
                    ));
                    assert(spreads(t, cur, places, all, k as int, Err::<Grads<V>, Error>(e)));
                    assert(spreads(t, start, places, all, 0, Err::<Grads<V>, Error>(e)));
                }
                return Err(e);
            },
            Ok(()) => {},
        }
        proof {
            let next = merged(t, fresh@);
            assert forall|after: Outcome<V>| #[trigger]
                spreads(t, next, places, all, k + 1, after) implies spreads(
                t,
                start,
                places,
                all,
                0,
                after,
            ) by {
                assert(delivers(
                    t,
                    cur,
                    places[k as int],
                    all[k as int],
                    Ok::<Grads<V>, Error>(next),
                ));
                assert(spreads(t, cur, places, all, k as int, after));
            }
            assert forall|i2: int|
                0 <= i2 < t.len() && (#[trigger] start[i2]) is Some implies next[i2] is Some by {
                assert(cur[i2] is Some);
            }
            assert forall|j: int| 0 <= j < k + 1 implies next[#[trigger] inputs@[j] as int]
                is Some by {
                assert(places[j] == inputs@[j]);
                lemma_inputs_are_older(t, o as int, j);
                if j < k {
                    assert(cur[inputs@[j] as int] is Some);
                }
            }
        }
        let ghost listed_before = frontier@;
        if graph.record_at(i).is_some() && !listed(frontier, i) {
            frontier.push(i);
            proof {
                assert forall|a: int, b: int|
                    0 <= a < frontier@.len() && 0 <= b < frontier@.len() && a
                        != b implies frontier@[a] != frontier@[b] by {
                    if a < listed_before.len() {
                        assert(listed_before[a] == frontier@[a]);
                    }
                    if b < listed_before.len() {
                        assert(listed_before[b] == frontier@[b]);
                    }
                }
            }
        }
        proof {
            assert forall|x: usize| #[trigger]
                frontier@.contains(x) <==> (queue.contains(x) || computed_input(
                    t,
                    o as int,
                    k + 1,
                    x as int,
                )) by {
                lemma_computed_input_step(t, o as int, k as int, x as int);
                assert(listed_before.contains(x) <==> (queue.contains(x) || computed_input(
                    t,
                    o as int,
                    k as int,
                    x as int,
                )));
                if frontier@.contains(x) {
                    let a = choose|a: int| 0 <= a < frontier@.len() && frontier@[a] == x;
                    if a < listed_before.len() {
                        assert(listed_before[a] == x);
                    } else {
                        assert(x == i);
                    }
                }
                if listed_before.contains(x) {
                    let a = choose|a: int| 0 <= a < listed_before.len() && listed_before[a] == x;
                    assert(frontier@[a] == x);
                }
                if t[x as int].creator is Some && places[k as int] == x {
                    if !listed_before.contains(x) {
                        assert(frontier@[frontier@.len() - 1] == x);
                    }
                }
            }
        }
        k += 1;
    }
    proof {
        assert(spreads(
            t,
            merged(t, fresh@),
            places,
            all,
            m as int,
            Ok::<Grads<V>, Error>(merged(t, fresh@)),
        ));
    }
    Ok(())
}

/// What holds of the frontier when the pass has come down to the nodes of
/// generation `generation` at positions below `below`: it holds only nodes
/// that are still to come, and every node that is still to come is one of
/// them or is needed by one of them.
pub(crate) open spec fn frontier_ok<V, F>(
    t: Tape<V, F>,
    root: int,
    frontier: Seq<usize>,
    generation: nat,
    below: nat,
) -> bool {
    &&& forall|j: int|
        0 <= j < frontier.len() ==> awaits(t, root, #[trigger] frontier[j] as int) && pending_at(
            t,
            frontier[j] as int,
            generation,
            below,
        )
    &&& forall|u: int|
        (#[trigger] awaits(t, root, u)) && pending_at(t, u, generation, below) ==> covered(
            t,
            frontier,
            u,
        )
}

proof fn lemma_frontier_leads<V, F>(
    t: Tape<V, F>,
    root: int,
    frontier: Seq<usize>,
    generation: nat,
    below: nat,
    at: usize,
)
    requires
        well_formed(t),
        frontier_ok(t, root, frontier, generation, below),
        frontier.contains(at),
        at < t.len(),
        forall|j: int|
            0 <= j < frontier.len() ==> !precedes(t, #[trigger] frontier[j] as int, at as int),
    ensures
        awaits(t, root, at as int),
        pending_at(t, at as int, generation, below),
        forall|u: int|
            (#[trigger] awaits(t, root, u)) && pending_at(t, u, generation, below) ==> pending_at(
                t,
                u,
                t[at as int].generation,
                (at + 1) as nat,
            ),
{
    let o = at as int;
    let place = choose|j: int| 0 <= j < frontier.len() && frontier[j] == at;
    assert(awaits(t, root, frontier[place] as int));
    assert forall|u: int|
        (#[trigger] awaits(t, root, u)) && pending_at(t, u, generation, below) implies pending_at(
        t,
        u,
        t[o].generation,
        (o + 1) as nat,
    ) by {
        assert(covered(t, frontier, u));
        let j = choose|j: int| 0 <= j < frontier.len() && #[trigger] reaches(t, frontier[j] as int, u);
        let f = frontier[j] as int;
        assert(awaits(t, root, f));
        lemma_reaches_older(t, f, u);
        assert(!precedes(t, f, o));
    }
}

proof fn lemma_frontier_after<V, F>(
    t: Tape<V, F>,
    root: int,
    before: Seq<usize>,
    after: Seq<usize>,
    generation: nat,
    below: nat,
    at: usize,
)
    requires
        well_formed(t),
        0 <= root < t.len(),
        frontier_ok(t, root, before, generation, below),
        before.contains(at),
        at < t.len(),
        forall|j: int|
            0 <= j < before.len() ==> !precedes(t, #[trigger] before[j] as int, at as int),
        forall|x: usize|
            #[trigger] after.contains(x) <==> ((before.contains(x) && x != at) || computed_input(
                t,
                at as int,
                t[at as int].creator.unwrap().inputs.len() as int,
                x as int,
            )),
    ensures
        frontier_ok(t, root, after, t[at as int].generation, at as nat),
{
    let o = at as int;
    lemma_frontier_leads(t, root, before, generation, below, at);
    let inputs = t[o].creator.unwrap().inputs;
    assert forall|j: int| 0 <= j < after.len() implies awaits(t, root, #[trigger] after[j] as int)
        && pending_at(t, after[j] as int, t[o].generation, o as nat) by {
        let x = after[j];
        assert(after.contains(x));
        if before.contains(x) && x != at {
            let a = choose|a: int| 0 <= a < before.len() && before[a] == x;
            assert(awaits(t, root, before[a] as int));
            assert(!precedes(t, before[a] as int, o));
        } else {
            let k = choose|k: int| 0 <= k < inputs.len() && #[trigger] inputs[k] == x as int;
            lemma_inputs_are_older(t, o, k);
            lemma_reaches_input(t, root, o, k);
        }
    }
    assert forall|u: int|
        (#[trigger] awaits(t, root, u)) && pending_at(
            t,
            u,
            t[o].generation,
            o as nat,
        ) implies covered(t, after, u) by {
        assert(pending_at(t, u, generation, below));
        assert(covered(t, before, u));
        let j = choose|j: int| 0 <= j < before.len() && #[trigger] reaches(t, before[j] as int, u);
        let f = before[j];
        assert(before.contains(f));
        if f != at {
            assert(after.contains(f));
            let a = choose|a: int| 0 <= a < after.len() && after[a] == f;
            assert(reaches(t, after[a] as int, u));
        } else {
            let k = choose|k: int|
                0 <= k < inputs.len() && 0 <= #[trigger] inputs[k] < o && reaches(t, inputs[k], u);
            let i = inputs[k];
            assert(t[i].creator is Some);
            assert(computed_input(t, o, inputs.len() as int, i));
            assert(after.contains(i as usize));
            let a = choose|a: int| 0 <= a < after.len() && after[a] == i as usize;
            assert(reaches(t, after[a] as int, u));
        }
    }
}

fn settle<V: Value, F: Function<V>>(graph: &Graph<V, F>, root: usize) -> (r: Result<
    Vec<Option<V>>,
    Error,
>)
    requires
        well_formed(graph@),
        root < graph@.len(),
    ensures
        match r {
            Ok(fresh) => fresh@.len() == graph@.len() && possible(
                graph@,
                root as int,
                Ok::<Grads<V>, Error>(merged(graph@, fresh@)),
            ),
            Err(e) => possible(graph@, root as int, Err::<Grads<V>, Error>(e)),
        },
{
    let ghost t = graph@;
    let n = graph.len();
    let mut fresh: Vec<Option<V>> = Vec::new();
    let mut i: usize = 0;
    while i < n
        invariant
            i <= n,
            fresh@.len() == i,
            forall|j: int| 0 <= j < i ==> fresh@[j] is None,
        decreases n - i,
    {
        fresh.push(None);
        i += 1;
    }
    assert(merged(t, fresh@) =~= grads_of(t));
    if graph.grad_at(root).is_none() {
        let one = match graph.data_at(root).ones_like() {
            None => {
                proof {
                    assert(seeds(t, root as int, Err::<Grads<V>, Error>(Error::MissingSeed)));
                }
                return Err(Error::MissingSeed);
            },
            Some(one) => one,
        };
        if !one.same_shape(graph.data_at(root)) {
            proof {
                assert(ones_answer(t[root as int].data, Some(one)));
                assert(seeds(t, root as int, Err::<Grads<V>, Error>(Error::MissingSeed)));
            }
            return Err(Error::MissingSeed);
        }
        fresh[root] = Some(one);
        assert(merged(t, fresh@) =~= grads_of(t).update(root as int, Some(one)));
    }
    let ghost start = merged(t, fresh@);
    let ghost top = t[root as int].generation;
    proof {
        assert(seeds(t, root as int, Ok::<Grads<V>, Error>(start)));
        assert forall|out: Outcome<V>| #[trigger]
            drains(t, root as int, start, top, n as nat, out) implies possible(
            t,
            root as int,
            out,
        ) by {}
    }
    let mut frontier: Vec<usize> = Vec::new();
    if graph.record_at(root).is_some() {
        frontier.push(root);
    }
    let ghost mut generation: nat = top;
    let ghost mut below: nat = n as nat;
    proof {
        assert(reaches(t, root as int, root as int));
        assert forall|u: int|
            (#[trigger] awaits(t, root as int, u)) && pending_at(
                t,
                u,
                generation,
                below,
            ) implies covered(t, frontier@, u) by {
            if t[root as int].creator is Some {
                assert(reaches(t, frontier@[0] as int, u));
            }
        }
    }
    while frontier.len() > 0
        invariant
            t == graph@,
            well_formed(t),
            n == t.len(),
            root < n,
            fresh@.len() == n,
            below <= n,
            frontier@.no_duplicates(),
            frontier_ok(t, root as int, frontier@, generation, below),
            forall|j: int|
                0 <= j < frontier@.len() ==> merged(t, fresh@)[#[trigger] frontier@[j] as int] is Some,
            forall|out: Outcome<V>| #[trigger]
                drains(t, root as int, merged(t, fresh@), generation, below, out) ==> possible(
                    t,
                    root as int,
                    out,
                ),
        decreases generation, below,
    {
        let ghost cur = merged(t, fresh@);
        let ghost queue = frontier@;
        let o = take_latest(graph, &mut frontier);
        proof {
            lemma_frontier_leads(t, root as int, queue, generation, below, o);
            assert forall|out: Outcome<V>| #[trigger]
                drains(
                    t,
                    root as int,
                    cur,
                    t[o as int].generation,
                    (o + 1) as nat,
                    out,
                ) implies possible(t, root as int, out) by {
                lemma_idle(
                    t,
                    root as int,
                    cur,
                    generation,
                    below,
                    t[o as int].generation,
                    (o + 1) as nat,
                    out,
                );
            }
            let at = choose|j: int| 0 <= j < queue.len() && queue[j] == o;
            assert(cur[queue[at] as int] is Some);
        }
        let record = graph.record_at(o).unwrap();
        let ghost places = t[o as int].creator.unwrap().inputs;
        let m = record.inputs.len();
        let mut xs: Vec<&V> = Vec::new();
        let mut k: usize = 0;
        while k < m
            invariant
                k <= m,
                m == record.inputs@.len(),
                t == graph@,
                well_formed(t),
                o < t.len(),
                t[o as int].creator == Some(record.model()),
                places == t[o as int].creator.unwrap().inputs,
                xs@.len() == k,
                forall|j: int| 0 <= j < k ==> *(#[trigger] xs@[j]) == t[places[j]].data,
            decreases m - k,
        {
            proof {
                lemma_inputs_are_older(t, o as int, k as int);
            }
            xs.push(graph.data_at(record.inputs[k]));
            k += 1;
        }
        assert(values(xs@) =~= input_data(t, places));
        let gy = current(graph, &fresh, o).unwrap();
        let answer = record.function.backward(&xs, gy);
        assert(backward_answer(
            t[o as int].creator.unwrap().function,
            input_data(t, places),
            cur[o as int].unwrap(),
            answer,
        ));
        let gxs = match answer {
            None => {
                proof {
                    assert(visits(t, cur, o as int, Err::<Grads<V>, Error>(Error::ShapeMismatch)));
                    assert(drains(
                        t,
                        root as int,
                        cur,
                        t[o as int].generation,
                        (o + 1) as nat,
                        Err::<Grads<V>, Error>(Error::ShapeMismatch),
                    ));
                }
                return Err(Error::ShapeMismatch);
            },
            Some(gxs) => gxs,
        };
        if gxs.len() != m {
            proof {
                assert(visits(t, cur, o as int, Err::<Grads<V>, Error>(Error::ArityMismatch)));
                assert(drains(
                    t,
                    root as int,
                    cur,
                    t[o as int].generation,
                    (o + 1) as nat,
                    Err::<Grads<V>, Error>(Error::ArityMismatch),
                ));
            }
            return Err(Error::ArityMismatch);
        }
        let ghost left = frontier@;
        match spread(graph, &mut fresh, &mut frontier, o, &record.inputs, gxs) {
            Err(e) => {
                proof {
                    assert(visits(t, cur, o as int, Err::<Grads<V>, Error>(e)));
                    assert(drains(
                        t,
                        root as int,
                        cur,
                        t[o as int].generation,
                        (o + 1) as nat,
                        Err::<Grads<V>, Error>(e),
                    ));
                }
                return Err(e);
            },
            Ok(()) => {},
        }
        proof {
            let next = merged(t, fresh@);
            assert(visits(t, cur, o as int, Ok::<Grads<V>, Error>(next)));
            assert forall|out: Outcome<V>| #[trigger]
                drains(
                    t,
                    root as int,
                    next,
                    t[o as int].generation,
                    o as nat,
                    out,
                ) implies possible(t, root as int, out) by {
                assert(drains(
                    t,
                    root as int,
                    cur,
                    t[o as int].generation,
                    (o + 1) as nat,
                    out,
                ));
            }
            assert forall|x: usize|
                #[trigger] frontier@.contains(x) <==> ((queue.contains(x) && x != o)
                    || computed_input(t, o as int, places.len() as int, x as int)) by {
                assert(left.contains(x) <==> (queue.contains(x) && x != o));
            }
            lemma_frontier_after(t, root as int, queue, frontier@, generation, below, o);
            assert forall|j: int| 0 <= j < frontier@.len() implies next[#[trigger] frontier@[j] as int] is Some by {
                let x = frontier@[j];
                assert(frontier@.contains(x));
                if queue.contains(x) && x != o {
                    let a = choose|a: int| 0 <= a < queue.len() && queue[a] == x;
                    assert(cur[queue[a] as int] is Some);
                } else {
                    let k = choose|k: int| 0 <= k < places.len() && #[trigger] places[k] == x as int;
                    assert(next[record.inputs@[k] as int] is Some);
                }
            }
            generation = t[o as int].generation;
            below = o as nat;
        }
    }
    proof {
        assert forall|u: int| #[trigger] awaits(t, root as int, u) implies !pending_at(
            t,
            u,
            generation,
            below,
        ) by {
            if pending_at(t, u, generation, below) {
                assert(covered(t, frontier@, u));
            }
        }
        lemma_idle_to_end(
            t,
            root as int,
            merged(t, fresh@),
            generation,
            below,
            Ok::<Grads<V>, Error>(merged(t, fresh@)),
        );
    }
    Ok(fresh)
}

impl Variable {
    /// Sends gradients back from this node to every node that it was
    /// computed from.
    ///
    /// A root without a gradient is first given one of ones, of the shape
    /// of its data. Then each
    /// computed node that the root depends on is visited once, the higher
    /// generation first, so that a node's gradient is complete when the
    /// node is visited: the operation that made the node turns that
    /// gradient into gradients for its inputs, and each of these fills the
    /// empty slot of its input or is added to what the slot holds.
    ///
    /// Afterwards every node that the root depends on holds a gradient, and
    /// every other node is as it was.
    ///
    /// The pass fails, and leaves the graph as it was, where the root
    /// cannot be given such ones (`MissingSeed`), where an operation hands back
    /// another number of gradients than it has inputs (`ArityMismatch`),
    /// and where an operation declines, a gradient has not the shape of
    /// the data it is for, or two gradients cannot be added
    /// (`ShapeMismatch`).
    pub fn backward<V: Value, F: Function<V>>(&self, graph: &mut Graph<V, F>) -> (r: Result<
        (),
        Error,
    >)
        requires
            old(graph).wf(),
            self@ < old(graph)@.len(),
        ensures
            final(graph).wf(),
            match r {
                Ok(()) => {
                    &&& possible(
                        old(graph)@,
                        self@,
                        Ok::<Grads<V>, Error>(grads_of(final(graph)@)),
                    )
                    &&& final(graph)@ == with_grads(old(graph)@, grads_of(final(graph)@))
                    &&& forall|j: int|
                        #[trigger] reaches(old(graph)@, self@, j) ==> final(graph)@[j].grad
                            is Some
                    &&& forall|j: int|
                        0 <= j < old(graph)@.len() && !#[trigger] reaches(old(graph)@, self@, j)
                            ==> final(graph)@[j].grad == old(graph)@[j].grad
                },
                Err(e) => {
                    &&& possible(old(graph)@, self@, Err::<Grads<V>, Error>(e))
                    &&& final(graph)@ == old(graph)@
                },
            },
    {
        let ghost t = graph@;
        let mut fresh = match settle(graph, self.index()) {
            Ok(fresh) => fresh,
            Err(e) => {
                return Err(e);
            },
        };
        let ghost written = fresh@;
        let mut i: usize = fresh.len();
        while i > 0
            invariant
                i <= t.len(),
                fresh@ == written.take(i as int),
                written.len() == t.len(),
                graph.wf(),
                graph@.len() == t.len(),
                forall|j: int|
                    0 <= j < t.len() ==> {
                        &&& (#[trigger] graph@[j]).data == t[j].data
                        &&& graph@[j].creator == t[j].creator
                        &&& graph@[j].generation == t[j].generation
                        &&& graph@[j].grad == if j < i {
                            t[j].grad
                        } else {
                            merged(t, written)[j]
                        }
                    },
            decreases i,
        {
            i -= 1;
            let slot = fresh.pop().unwrap();
            assert(slot == written[i as int]);
            assert(fresh@ =~= written.take(i as int));
            if slot.is_some() {
                graph.put_grad(i, slot);
            }
        }
        proof {
            assert(grads_of(graph@) =~= merged(t, written));
            assert(graph@ =~= with_grads(t, grads_of(graph@)));
            assert forall|j: int| #[trigger] reaches(t, self@, j) implies graph@[j].grad
                is Some by {
                lemma_reaches_older(t, self@, j);
                law_reached_nodes_hold_a_gradient(t, self@, grads_of(graph@), j);
            }
            assert forall|j: int| 0 <= j < t.len() && !#[trigger] reaches(
                t,
                self@,
                j,
            ) implies graph@[j].grad == t[j].grad by {
                law_unreached_nodes_are_left_alone(t, self@, grads_of(graph@), j);
            }
        }
        Ok(())
    }
}

} // verus!
