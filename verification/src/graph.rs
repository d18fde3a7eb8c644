//! The graph, its nodes and the handles that name them.

use vstd::prelude::*;
use crate::error::Error;
use crate::function::{arity_answer, forward_answer, values, Function};
use crate::tape::{
    derived_generation, input_data, lemma_node_ok_transfers, lemma_top_generation_agrees,
    node_ok, top_generation, well_formed, NodeView, RecordView, Tape,
};
use crate::value::Value;

verus! {

/// A handle to one node of a [`Graph`]: its position in the order of
/// creation.
#[derive(Clone, Copy, Debug, PartialEq, Eq, Structural)]
pub struct Variable {
    pub(crate) index: usize,
}

impl View for Variable {
    type V = int;

    closed spec fn view(&self) -> int {
        self.index as int
    }
}

/// The positions behind a sequence of handles.
pub open spec fn positions(inputs: Seq<Variable>) -> Seq<int> {
    Seq::new(inputs.len(), |k: int| inputs[k]@)
}

pub(crate) struct Calculation<F> {
    pub(crate) function: F,
    pub(crate) inputs: Vec<usize>,
}

pub(crate) struct Node<V, F> {
    pub(crate) data: V,
    pub(crate) grad: Option<V>,
    pub(crate) creator: Option<Calculation<F>>,
    pub(crate) generation: usize,
}

impl<F> Calculation<F> {
    pub(crate) open spec fn model(&self) -> RecordView<F> {
        RecordView {
            function: self.function,
            inputs: Seq::new(self.inputs@.len(), |k: int| self.inputs@[k] as int),
        }
    }
}

impl<V, F> Node<V, F> {
    pub(crate) open spec fn model(&self) -> NodeView<V, F> {
        NodeView {
            data: self.data,
            grad: self.grad,
            creator: match self.creator {
                Some(c) => Some(c.model()),
                None => None,
            },
            generation: self.generation as nat,
        }
    }
}

/// A computation recorded as it runs: every value with the operation and
/// the inputs that produced it, so that gradients can be sent back from a
/// result to everything that it was computed from.
///
/// The graph owns its nodes; a [`Variable`] names one of them.
pub struct Graph<V: Value, F: Function<V>> {
    pub(crate) nodes: Vec<Node<V, F>>,
}

impl<V: Value, F: Function<V>> View for Graph<V, F> {
    type V = Tape<V, F>;

    closed spec fn view(&self) -> Tape<V, F> {
        Seq::new(self.nodes@.len(), |i: int| self.nodes@[i].model())
    }
}

/// The tape `t` with the gradient of the node at `i` replaced by `grad`.
pub open spec fn with_grad<V, F>(t: Tape<V, F>, i: int, grad: Option<V>) -> Tape<V, F> {
    t.update(
        i,
        NodeView { data: t[i].data, grad, creator: t[i].creator, generation: t[i].generation },
    )
}

impl<V: Value, F: Function<V>> Graph<V, F> {
    /// The invariant of the graph, which every function of this crate
    /// establishes or keeps.
    pub open spec fn wf(&self) -> bool {
        well_formed(self@)
    }

    /// An empty graph.
    pub fn new() -> (graph: Self)
        ensures
            graph.wf(),
            graph@.len() == 0,
    {
        Graph { nodes: Vec::new() }
    }

    /// The number of nodes.
    pub fn len(&self) -> (n: usize)
        ensures
            n == self@.len(),
    {
        self.nodes.len()
    }

    /// Whether `x` names a node of this graph.
    pub fn holds(&self, x: &Variable) -> (r: bool)
        ensures
            r == (x@ < self@.len()),
    {
        x.index < self.nodes.len()
    }

    /// Applies `function` to the nodes `inputs` and records the result as a
    /// new node, which it returns. The inputs are left as they are.
    ///
    /// The application is refused, and the graph left unchanged, with
    /// `ArityMismatch` where the operation asks for another number of
    /// inputs, and with `ShapeMismatch` where it gives no output for the
    /// data of the inputs.
    pub fn apply(&mut self, function: F, inputs: &[Variable]) -> (r: Result<Variable, Error>)
        requires
            old(self).wf(),
            forall|k: int| 0 <= k < inputs@.len() ==> (#[trigger] inputs@[k])@ < old(self)@.len(),
        ensures
            final(self).wf(),
            match r {
                Ok(y) => {
                    &&& arity_answer(function, inputs@.len() as usize)
                    &&& y@ == old(self)@.len()
                    &&& final(self)@.len() == old(self)@.len() + 1
                    &&& forward_answer(
                        function,
                        input_data(old(self)@, positions(inputs@)),
                        Some(final(self)@[y@].data),
                    )
                    &&& final(self)@ == old(self)@.push(
                        NodeView {
                            data: final(self)@[y@].data,
                            grad: None,
                            creator: Some(
                                RecordView { function, inputs: positions(inputs@) },
                            ),
                            generation: derived_generation(old(self)@, positions(inputs@)),
                        },
                    )
                },
                Err(Error::ArityMismatch) => {
                    &&& final(self)@ == old(self)@
                    &&& exists|n: usize| arity_answer(function, n) && n != inputs@.len()
                },
                Err(Error::ShapeMismatch) => {
                    &&& final(self)@ == old(self)@
                    &&& arity_answer(function, inputs@.len() as usize)
                    &&& forward_answer(
                        function,
                        input_data(old(self)@, positions(inputs@)),
                        None,
                    )
                },
                Err(Error::MissingSeed) => false,
            },
    {
        let m = inputs.len();
        let asked = function.arity();
        if m != asked {
            assert(arity_answer(function, asked));
            return Err(Error::ArityMismatch);
        }
        let ghost tape = self@;
        let ghost places = positions(inputs@);
        let n = self.nodes.len();
        let mut xs: Vec<&V> = Vec::new();
        let mut ids: Vec<usize> = Vec::new();
        let mut top: usize = 0;
        let mut k: usize = 0;
        while k < m
            invariant
                k <= m,
                m == inputs@.len(),
                n == self.nodes@.len(),
                tape == self@,
                places == positions(inputs@),
                well_formed(tape),
                forall|j: int| 0 <= j < m ==> (#[trigger] inputs@[j])@ < n,
                xs@.len() == k,
                ids@.len() == k,
                forall|j: int| 0 <= j < k ==> *(#[trigger] xs@[j]) == tape[places[j]].data,
                forall|j: int| 0 <= j < k ==> #[trigger] ids@[j] == places[j],
                top == top_generation(tape, places.take(k as int)),
                top < n || n == 0,
            decreases m - k,
        {
            let i = inputs[k].index;
            assert(inputs@[k as int]@ == i);
            assert(places[k as int] == i);
            assert(node_ok(tape, i as int));
            xs.push(&self.nodes[i].data);
            ids.push(i);
            proof {
                assert(places.take(k + 1).drop_last() =~= places.take(k as int));
                assert(places.take(k + 1).last() == i);
            }
            if self.nodes[i].generation > top {
                top = self.nodes[i].generation;
            }
            k += 1;
        }
        proof {
            assert(places.take(m as int) =~= places);
            assert(values(xs@) =~= input_data(tape, places));
        }
        let data = match function.forward(&xs) {
            Some(data) => data,
            None => {
                return Err(Error::ShapeMismatch);
            },
        };
        let generation = if m == 0 {
            0
        } else {
            top + 1
        };
        let node = Node {
            data,
            grad: None,
            creator: Some(Calculation { function, inputs: ids }),
            generation,
        };
        proof {
            assert(node.model().creator.unwrap().inputs =~= places);
        }
        self.nodes.push(node);
        proof {
            let after = self@;
            assert(after =~= tape.push(node.model()));
            assert forall|i: int| 0 <= i < after.len() implies #[trigger] node_ok(after, i) by {
                if i < n {
                    assert(node_ok(tape, i));
                    lemma_node_ok_transfers(tape, after, i);
                } else {
                    let record = after[i].creator.unwrap();
                    assert(record.inputs == places);
                    assert forall|j: int| 0 <= j < places.len() implies tape[#[trigger] places[j]].generation
                        == after[places[j]].generation by {
                        assert(inputs@[j]@ < n);
                    }
                    lemma_top_generation_agrees(tape, after, places);
                    assert forall|j: int| 0 <= j < record.inputs.len() implies 0
                        <= #[trigger] record.inputs[j] < i by {
                        assert(inputs@[j]@ < n);
                    }
                }
            }
        }
        Ok(Variable { index: n })
    }
}

impl Variable {
    /// Records `data` as a new leaf of `graph`: a node without a creator
    /// and without a gradient, of generation 0.
    pub fn new<V: Value, F: Function<V>>(graph: &mut Graph<V, F>, data: V) -> (x: Variable)
        requires
            old(graph).wf(),
        ensures
            final(graph).wf(),
            x@ == old(graph)@.len(),
            final(graph)@ == old(graph)@.push(
                NodeView { data, grad: None, creator: None, generation: 0 },
            ),
    {
        let ghost tape = graph@;
        let n = graph.nodes.len();
        let node = Node { data, grad: None, creator: None, generation: 0 };
        graph.nodes.push(node);
        proof {
            let after = graph@;
            assert(after =~= tape.push(node.model()));
            assert forall|i: int| 0 <= i < after.len() implies #[trigger] node_ok(after, i) by {
                if i < n {
                    assert(node_ok(tape, i));
                    lemma_node_ok_transfers(tape, after, i);
                }
            }
        }
        Variable { index: n }
    }

    /// The position of the node in the order of creation.
    pub fn index(&self) -> (i: usize)
        ensures
            i == self@,
    {
        self.index
    }

    /// The value of the node.
    pub fn data<'a, V: Value, F: Function<V>>(&self, graph: &'a Graph<V, F>) -> (data: &'a V)
        requires
            self@ < graph@.len(),
        ensures
            *data == graph@[self@].data,
    {
        graph.data_at(self.index)
    }

    /// The gradient gathered so far at the node, if any.
    pub fn grad<'a, V: Value, F: Function<V>>(&self, graph: &'a Graph<V, F>) -> (grad: Option<
        &'a V,
    >)
        requires
            self@ < graph@.len(),
        ensures
            match grad {
                Some(g) => graph@[self@].grad == Some(*g),
                None => graph@[self@].grad is None,
            },
    {
        graph.grad_at(self.index)
    }

    /// The generation of the node: 0 for a leaf, and otherwise one more
    /// than the highest generation among its inputs.
    pub fn generation<V: Value, F: Function<V>>(&self, graph: &Graph<V, F>) -> (generation: usize)
        requires
            self@ < graph@.len(),
        ensures
            generation == graph@[self@].generation,
    {
        graph.generation_at(self.index)
    }

    /// Whether the node was supplied rather than computed.
    pub fn is_leaf<V: Value, F: Function<V>>(&self, graph: &Graph<V, F>) -> (leaf: bool)
        requires
            self@ < graph@.len(),
        ensures
            leaf == (graph@[self@].creator is None),
    {
        graph.nodes[self.index].creator.is_none()
    }

    /// Sets the gradient of the node to `grad`, whatever it was.
    pub fn seed_grad<V: Value, F: Function<V>>(&self, graph: &mut Graph<V, F>, grad: V)
        requires
            old(graph).wf(),
            self@ < old(graph)@.len(),
        ensures
            final(graph).wf(),
            final(graph)@ == with_grad(old(graph)@, self@, Some(grad)),
    {
        graph.put_grad(self.index, Some(grad));
    }

    /// Removes the gradient of the node, so that a later backward pass
    /// starts afresh there.
    pub fn clear_grad<V: Value, F: Function<V>>(&self, graph: &mut Graph<V, F>)
        requires
            old(graph).wf(),
            self@ < old(graph)@.len(),
        ensures
            final(graph).wf(),
            final(graph)@ == with_grad(old(graph)@, self@, None),
    {
        graph.put_grad(self.index, None);
    }
}

impl<V: Value, F: Function<V>> Graph<V, F> {
    pub(crate) fn data_at(&self, i: usize) -> (data: &V)
        requires
            i < self@.len(),
        ensures
            *data == self@[i as int].data,
    {
        &self.nodes[i].data
    }

    pub(crate) fn grad_at(&self, i: usize) -> (grad: Option<&V>)
        requires
            i < self@.len(),
        ensures
            match grad {
                Some(g) => self@[i as int].grad == Some(*g),
                None => self@[i as int].grad is None,
            },
    {
        self.nodes[i].grad.as_ref()
    }

    pub(crate) fn generation_at(&self, i: usize) -> (generation: usize)
        requires
            i < self@.len(),
        ensures
            generation == self@[i as int].generation,
    {
        self.nodes[i].generation
    }

    pub(crate) fn record_at(&self, i: usize) -> (record: Option<&Calculation<F>>)
        requires
            i < self@.len(),
        ensures
            match record {
                Some(c) => self@[i as int].creator == Some(c.model()),
                None => self@[i as int].creator is None,
            },
    {
        self.nodes[i].creator.as_ref()
    }

    pub(crate) fn put_grad(&mut self, i: usize, grad: Option<V>)
        requires
            old(self).wf(),
            i < old(self)@.len(),
        ensures
            final(self).wf(),
            final(self)@ == with_grad(old(self)@, i as int, grad),
    {
        let ghost tape = self@;
        self.nodes[i].grad = grad;
        proof {
            let after = self@;
            assert(after =~= with_grad(tape, i as int, grad));
            assert forall|j: int| 0 <= j < after.len() implies #[trigger] node_ok(after, j) by {
                assert(node_ok(tape, j));
                lemma_node_ok_transfers(tape, after, j);
            }
        }
    }
}

} // verus!
