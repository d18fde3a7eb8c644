//! The mathematical view of a graph, and its invariant.

use vstd::prelude::*;

verus! {

/// One application of an operation, as the contracts see it: the operation
/// and the positions of the nodes that it was applied to, in order.
pub struct RecordView<F> {
    pub function: F,
    pub inputs: Seq<int>,
}

/// One node, as the contracts see it.
pub struct NodeView<V, F> {
    /// The value computed on the way forward.
    pub data: V,
    /// The gradient gathered so far, if any.
    pub grad: Option<V>,
    /// The application that produced the node; `None` for a leaf.
    pub creator: Option<RecordView<F>>,
    /// The topological rank of the node.
    pub generation: nat,
}

/// A graph, as the contracts see it: its nodes in the order of creation.
pub type Tape<V, F> = Seq<NodeView<V, F>>;

/// The data of the nodes at the positions `inputs`, in order.
pub open spec fn input_data<V, F>(t: Tape<V, F>, inputs: Seq<int>) -> Seq<V> {
    Seq::new(inputs.len(), |k: int| t[inputs[k]].data)
}

/// The highest generation among the nodes at the positions `inputs`, and 0
/// where there are none.
pub open spec fn top_generation<V, F>(t: Tape<V, F>, inputs: Seq<int>) -> nat
    decreases inputs.len(),
{
    if inputs.len() == 0 {
        0
    } else {
        let rest = top_generation(t, inputs.drop_last());
        let last = t[inputs.last()].generation;
        if last > rest {
            last
        } else {
            rest
        }
    }
}

/// The generation of a node computed from the nodes at `inputs`: one more
/// than the highest generation among them, and 0 where there are none.
pub open spec fn derived_generation<V, F>(t: Tape<V, F>, inputs: Seq<int>) -> nat {
    if inputs.len() == 0 {
        0
    } else {
        top_generation(t, inputs) + 1
    }
}

/// What holds of the node at position `i` of a well-formed tape.
pub open spec fn node_ok<V, F>(t: Tape<V, F>, i: int) -> bool {
    let node = t[i];
    &&& node.generation <= i
    &&& match node.creator {
        None => node.generation == 0,
        Some(record) => {
            &&& forall|k: int|
                0 <= k < record.inputs.len() ==> 0 <= #[trigger] record.inputs[k] < i
            &&& node.generation == derived_generation(t, record.inputs)
        },
    }
}

/// The invariant of a graph. Every node was computed from nodes created
/// before it and has a generation above theirs, so that the graph has no
/// cycle; a leaf has generation 0.
pub open spec fn well_formed<V, F>(t: Tape<V, F>) -> bool {
    forall|i: int| 0 <= i < t.len() ==> #[trigger] node_ok(t, i)
}

/// Whether two tapes agree, up to and including position `i`, on everything
/// but the gradients.
pub open spec fn same_structure_upto<V, F>(a: Tape<V, F>, b: Tape<V, F>, i: int) -> bool {
    forall|j: int|
        0 <= j <= i ==> {
            &&& (#[trigger] a[j]).data == b[j].data
            &&& a[j].creator == b[j].creator
            &&& a[j].generation == b[j].generation
        }
}

/// The highest generation among some inputs depends on their generations
/// alone.
pub proof fn lemma_top_generation_agrees<V, F>(a: Tape<V, F>, b: Tape<V, F>, inputs: Seq<int>)
    requires
        forall|k: int|
            0 <= k < inputs.len() ==> a[#[trigger] inputs[k]].generation
                == b[inputs[k]].generation,
    ensures
        top_generation(a, inputs) == top_generation(b, inputs),
    decreases inputs.len(),
{
    if inputs.len() > 0 {
        let shorter = inputs.drop_last();
        assert forall|k: int| 0 <= k < shorter.len() implies a[#[trigger] shorter[k]].generation
            == b[shorter[k]].generation by {
            assert(shorter[k] == inputs[k]);
        }
        lemma_top_generation_agrees(a, b, shorter);
        assert(inputs.last() == inputs[inputs.len() - 1]);
    }
}

/// No input has a generation above the highest.
pub proof fn lemma_top_generation_bounds<V, F>(t: Tape<V, F>, inputs: Seq<int>, k: int)
    requires
        0 <= k < inputs.len(),
    ensures
        t[inputs[k]].generation <= top_generation(t, inputs),
    decreases inputs.len(),
{
    if k < inputs.len() - 1 {
        let shorter = inputs.drop_last();
        assert(shorter[k] == inputs[k]);
        lemma_top_generation_bounds(t, shorter, k);
    }
}

/// A node that is in order in one tape is in order in every tape that
/// agrees with it up to that node on all but the gradients.
pub proof fn lemma_node_ok_transfers<V, F>(a: Tape<V, F>, b: Tape<V, F>, i: int)
    requires
        0 <= i < a.len(),
        i < b.len(),
        node_ok(a, i),
        same_structure_upto(a, b, i),
    ensures
        node_ok(b, i),
{
    assert(a[i].data == b[i].data);
    match a[i].creator {
        None => {},
        Some(record) => {
            assert forall|k: int| 0 <= k < record.inputs.len() implies a[#[trigger] record.inputs[k]].generation
                == b[record.inputs[k]].generation by {
                assert(a[record.inputs[k]].data == b[record.inputs[k]].data);
            }
            lemma_top_generation_agrees(a, b, record.inputs);
        },
    }
}

/// Every input of a node of a well-formed tape has a generation below the
/// node's own.
pub proof fn lemma_inputs_are_older<V, F>(t: Tape<V, F>, i: int, k: int)
    requires
        well_formed(t),
        0 <= i < t.len(),
        t[i].creator is Some,
        0 <= k < t[i].creator.unwrap().inputs.len(),
    ensures
        0 <= t[i].creator.unwrap().inputs[k] < i,
        t[t[i].creator.unwrap().inputs[k]].generation < t[i].generation,
{
    assert(node_ok(t, i));
    lemma_top_generation_bounds(t, t[i].creator.unwrap().inputs, k);
}


/// A node computed from one node is one generation above it.
pub proof fn lemma_generation_of_one<V, F>(t: Tape<V, F>, x: int)
    ensures
        derived_generation(t, seq![x]) == t[x].generation + 1,
{
    let inputs = seq![x];
    assert(inputs.drop_last().len() == 0);
    assert(top_generation(t, inputs.drop_last()) == 0);
    assert(inputs.last() == x);
}

/// A node computed from two nodes is one generation above the higher of
/// them.
pub proof fn lemma_generation_of_two<V, F>(t: Tape<V, F>, x0: int, x1: int)
    ensures
        derived_generation(t, seq![x0, x1]) == (if t[x0].generation > t[x1].generation {
            t[x0].generation
        } else {
            t[x1].generation
        }) + 1,
{
    let inputs = seq![x0, x1];
    assert(inputs.drop_last() =~= seq![x0]);
    assert(inputs.last() == x1);
    lemma_generation_of_one(t, x0);
}

} // verus!
