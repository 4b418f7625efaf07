//! The graph: nodes addressed by stable integer ids, and the outlets and
//! inlets that connect them.

use std::sync::Arc;
use vstd::prelude::*;
use crate::errors::TractError;
use crate::facts::TensorFact;
use crate::share::share;
use crate::ops::Op;
use crate::order::{acyclic, dependencies_first, eval_order, needed_only, outlet_nodes, plan};
use crate::tensor::Tensor;

verus! {

/// One produced tensor: output `slot` of node `node`.
#[derive(Clone, Copy, Debug, PartialEq, Eq, Structural, Hash)]
pub struct OutletId {
    pub node: usize,
    pub slot: usize,
}

/// One consumption point: input `slot` of node `node`.
#[derive(Clone, Copy, Debug, PartialEq, Eq, Structural, Hash)]
pub struct InletId {
    pub node: usize,
    pub slot: usize,
}

impl OutletId {
    pub fn new(node: usize, slot: usize) -> (r: OutletId)
        ensures
            r.node == node,
            r.slot == slot,
    {
        OutletId { node, slot }
    }
}

impl InletId {
    pub fn new(node: usize, slot: usize) -> (r: InletId)
        ensures
            r.node == node,
            r.slot == slot,
    {
        InletId { node, slot }
    }
}

/// A node of the graph: an operator, the outlets it reads, in the order of
/// its input slots, and what is known of each tensor it produces.
#[derive(Debug)]
pub struct Node<O> {
    pub id: usize,
    pub name: String,
    pub op: O,
    pub inputs: Vec<OutletId>,
    pub outputs: Vec<TensorFact>,
}

impl<O> Node<O> {
    /// The ids of the nodes this node reads, slot by slot.
    pub open spec fn deps(&self) -> Seq<usize> {
        Seq::new(self.inputs@.len(), |k: int| self.inputs@[k].node)
    }
}

/// For each node, the ids of the nodes it reads.
pub open spec fn deps_of<O>(nodes: Seq<Node<O>>) -> Seq<Seq<usize>> {
    Seq::new(nodes.len(), |v: int| nodes[v].deps())
}

/// `o` is an output slot of a node of `nodes`.
pub open spec fn outlet_exists<O>(nodes: Seq<Node<O>>, o: OutletId) -> bool {
    o.node < nodes.len() && o.slot < nodes[o.node as int].outputs@.len()
}

/// The nodes are numbered by their place, and every input of every node
/// reads an outlet that exists.
pub open spec fn nodes_linked<O>(nodes: Seq<Node<O>>) -> bool {
    &&& forall|v: int| 0 <= v < nodes.len() ==> (#[trigger] nodes[v]).id == v
    &&& forall|v: int, k: int|
        0 <= v < nodes.len() && 0 <= k < nodes[v].inputs@.len() ==> outlet_exists(
            nodes,
            #[trigger] nodes[v].inputs@[k],
        )
}

/// A graph of operators.
#[derive(Debug)]
pub struct Model {
    nodes: Vec<Node<Op>>,
    inputs: Vec<OutletId>,
    outputs: Vec<OutletId>,
}

impl Default for Model {
    /// A graph without nodes.
    fn default() -> (r: Model)
        ensures
            r.wf(),
            r.node_seq().len() == 0,
            r.input_seq().len() == 0,
            r.output_seq().len() == 0,
    {
        Model::new()
    }
}

impl Model {
    /// The nodes, by id.
    pub closed spec fn node_seq(&self) -> Seq<Node<Op>> {
        self.nodes@
    }

    /// The designated input outlets.
    pub closed spec fn input_seq(&self) -> Seq<OutletId> {
        self.inputs@
    }

    /// The designated output outlets.
    pub closed spec fn output_seq(&self) -> Seq<OutletId> {
        self.outputs@
    }

    /// The graph is well formed: its nodes are linked, and its designated
    /// inputs and outputs are outlets that exist.
    pub open spec fn wf(&self) -> bool {
        &&& nodes_linked(self.node_seq())
        &&& forall|i: int|
            0 <= i < self.input_seq().len() ==> outlet_exists(self.node_seq(), #[trigger] self.input_seq()[i])
        &&& forall|i: int|
            0 <= i < self.output_seq().len() ==> outlet_exists(self.node_seq(), #[trigger] self.output_seq()[i])
    }

    /// A graph without nodes.
    pub fn new() -> (r: Model)
        ensures
            r.wf(),
            r.node_seq().len() == 0,
            r.input_seq().len() == 0,
            r.output_seq().len() == 0,
    {
        Model { nodes: Vec::new(), inputs: Vec::new(), outputs: Vec::new() }
    }

    /// The nodes, by id.
    pub fn nodes(&self) -> (r: &Vec<Node<Op>>)
        ensures
            r@ == self.node_seq(),
    {
        &self.nodes
    }

    /// The designated input outlets.
    pub fn input_outlets(&self) -> (r: Result<&Vec<OutletId>, TractError>)
        ensures
            r is Ok,
            r->Ok_0@ == self.input_seq(),
    {
        Ok(&self.inputs)
    }

    /// The designated output outlets.
    pub fn output_outlets(&self) -> (r: Result<&Vec<OutletId>, TractError>)
        ensures
            r is Ok,
            r->Ok_0@ == self.output_seq(),
    {
        Ok(&self.outputs)
    }

    /// Appends a node with the operator `op` and one output per fact of
    /// `output_facts`, and returns its id. The node has no input yet; each
    /// of its outlets is a designated output of the graph until an edge
    /// taps it.
    pub fn add_node(&mut self, name: String, op: Op, output_facts: Vec<TensorFact>) -> (r: Result<
        usize,
        TractError,
    >)
        requires
            old(self).wf(),
        ensures
            final(self).wf(),
            r == Ok::<usize, TractError>(old(self).node_seq().len() as usize),
            final(self).node_seq().len() == old(self).node_seq().len() + 1,
            final(self).node_seq().drop_last() == old(self).node_seq(),
            final(self).node_seq().last().id == old(self).node_seq().len(),
            final(self).node_seq().last().name == name,
            final(self).node_seq().last().op == op,
            final(self).node_seq().last().inputs@.len() == 0,
            final(self).node_seq().last().outputs == output_facts,
            final(self).input_seq() == old(self).input_seq(),
            final(self).output_seq() == old(self).output_seq() + Seq::new(
                output_facts@.len(),
                |s: int| OutletId { node: old(self).node_seq().len() as usize, slot: s as usize },
            ),
    {
        let id = self.nodes.len();
        let count = output_facts.len();
        let node = Node { id, name, op, inputs: Vec::new(), outputs: output_facts };
        let ghost before = self.nodes@;
        self.nodes.push(node);
        proof {
            assert(self.nodes@.drop_last() =~= before);
            assert forall|v: int, k: int|
                0 <= v < self.nodes@.len() && 0 <= k < self.nodes@[v].inputs@.len() implies outlet_exists(
                self.nodes@,
                #[trigger] self.nodes@[v].inputs@[k],
            ) by {
                assert(outlet_exists(before, before[v].inputs@[k]));
            }
            assert forall|i: int| 0 <= i < self.inputs@.len() implies outlet_exists(
                self.nodes@,
                #[trigger] self.inputs@[i],
            ) by {
                assert(outlet_exists(before, old(self).input_seq()[i]));
            }
            assert forall|i: int| 0 <= i < self.outputs@.len() implies outlet_exists(
                self.nodes@,
                #[trigger] self.outputs@[i],
            ) by {
                assert(outlet_exists(before, old(self).output_seq()[i]));
            }
            assert(nodes_linked(self.nodes@));
        }
        let mut slot: usize = 0;
        while slot < count
            invariant
                slot <= count,
                nodes_linked(self.nodes@),
                forall|i: int| 0 <= i < self.inputs@.len() ==> outlet_exists(self.nodes@, #[trigger] self.inputs@[i]),
                count == output_facts@.len(),
                self.nodes@ == before.push(node),
                node.outputs == output_facts,
                id == before.len(),
                self.inputs@ == old(self).inputs@,
                self.outputs@ == old(self).outputs@ + Seq::new(
                    slot as nat,
                    |s: int| OutletId { node: id, slot: s as usize },
                ),
                forall|i: int| 0 <= i < self.outputs@.len() ==> outlet_exists(self.nodes@, #[trigger] self.outputs@[i]),
            decreases count - slot,
        {
            let ghost olds = self.outputs@;
            self.outputs.push(OutletId { node: id, slot });
            slot += 1;
            proof {
                assert(self.outputs@ =~= old(self).outputs@ + Seq::new(
                    slot as nat,
                    |s: int| OutletId { node: id, slot: s as usize },
                ));
                assert forall|i: int| 0 <= i < self.outputs@.len() implies outlet_exists(
                    self.nodes@,
                    #[trigger] self.outputs@[i],
                ) by {
                    if i < olds.len() {
                        assert(outlet_exists(self.nodes@, olds[i]));
                    }
                }
            }
        }
        Ok(id)
    }

    /// Connects `outlet` to `inlet`. The inlet is either the next free
    /// input slot of its node, or one that is connected already and is then
    /// rewired. The tapped outlet is no longer a designated output. An
    /// outlet that does not exist, a node that does not exist or a slot
    /// beyond the next free one is refused, and the graph stays as it was.
    /// Edges that close a cycle are the caller's error and not detected
    /// here: see `is_acyclic`.
    pub fn add_edge(&mut self, outlet: OutletId, inlet: InletId) -> (r: Result<(), TractError>)
        requires
            old(self).wf(),
        ensures
            final(self).wf(),
            final(self).input_seq() == old(self).input_seq(),
            edge_fits(old(self).node_seq(), outlet, inlet) ==> r is Ok && connected(
                old(self).node_seq(),
                final(self).node_seq(),
                outlet,
                inlet,
            ) && final(self).output_seq() == without(old(self).output_seq(), outlet),
            !edge_fits(old(self).node_seq(), outlet, inlet) ==> r == Err::<(), TractError>(
                TractError::MalformedGraph,
            ) && final(self).node_seq() == old(self).node_seq() && final(self).output_seq() == old(self).output_seq(),
    {
        if outlet.node >= self.nodes.len() || inlet.node >= self.nodes.len() {
            return Err(TractError::MalformedGraph);
        }
        if outlet.slot >= self.nodes[outlet.node].outputs.len() || inlet.slot > self.nodes[inlet.node].inputs.len() {
            return Err(TractError::MalformedGraph);
        }
        let ghost before = self.nodes@;
        if inlet.slot == self.nodes[inlet.node].inputs.len() {
            self.nodes[inlet.node].inputs.push(outlet);
        } else {
            self.nodes[inlet.node].inputs[inlet.slot] = outlet;
        }
        proof {
            lemma_connected_linked(before, self.nodes@, outlet, inlet);
        }
        let kept = remove_outlet(&self.outputs, outlet);
        proof {
            lemma_without_subset(self.outputs@, outlet);
            assert forall|i: int| 0 <= i < self.inputs@.len() implies outlet_exists(
                self.nodes@,
                #[trigger] self.inputs@[i],
            ) by {
                assert(outlet_exists(before, old(self).input_seq()[i]));
            }
            assert forall|i: int| 0 <= i < kept@.len() implies outlet_exists(self.nodes@, #[trigger] kept@[i]) by {
                assert(self.outputs@.contains(kept@[i]));
                let j = choose|j: int| 0 <= j < self.outputs@.len() && self.outputs@[j] == kept@[i];
                assert(outlet_exists(before, old(self).output_seq()[j]));
            }
        }
        self.outputs = kept;
        Ok(())
    }

    /// Appends a source node and designates its outlet as an input of the
    /// graph.
    pub fn add_source(&mut self, name: &str, fact: TensorFact) -> (r: Result<usize, TractError>)
        requires
            old(self).wf(),
        ensures
            final(self).wf(),
            r == Ok::<usize, TractError>(old(self).node_seq().len() as usize),
            final(self).node_seq().len() == old(self).node_seq().len() + 1,
            final(self).node_seq().drop_last() == old(self).node_seq(),
            final(self).node_seq().last().id == old(self).node_seq().len(),
            final(self).node_seq().last().name@ == name@,
            final(self).node_seq().last().op == Op::Source,
            final(self).node_seq().last().inputs@.len() == 0,
            final(self).node_seq().last().outputs@ == seq![fact],
            final(self).input_seq() == old(self).input_seq().push(
                OutletId { node: old(self).node_seq().len() as usize, slot: 0 },
            ),
            final(self).output_seq() == old(self).output_seq().push(
                OutletId { node: old(self).node_seq().len() as usize, slot: 0 },
            ),
    {
        let mut facts: Vec<TensorFact> = Vec::new();
        facts.push(fact);
        let ghost outs = old(self).output_seq();
        let ghost ins = old(self).input_seq();
        let id = self.nodes.len();
        let r = self.add_node(name.to_owned(), Op::Source, facts);
        self.inputs.push(OutletId { node: id, slot: 0 });
        proof {
            assert(facts@ =~= seq![fact]);
            assert(self.output_seq() =~= outs.push(OutletId { node: id, slot: 0 }));
            assert forall|i: int| 0 <= i < self.inputs@.len() implies outlet_exists(
                self.nodes@,
                #[trigger] self.inputs@[i],
            ) by {
                if i < ins.len() {
                    assert(self.inputs@[i] == ins[i]);
                }
            }
        }
        r
    }

    /// Appends a source node of which nothing is known.
    pub fn add_source_default(&mut self, name: &str) -> (r: Result<usize, TractError>)
        requires
            old(self).wf(),
        ensures
            final(self).wf(),
            r == Ok::<usize, TractError>(old(self).node_seq().len() as usize),
            final(self).node_seq().len() == old(self).node_seq().len() + 1,
            final(self).node_seq().drop_last() == old(self).node_seq(),
            final(self).node_seq().last().op == Op::Source,
            final(self).node_seq().last().inputs@.len() == 0,
            final(self).node_seq().last().outputs@.len() == 1,
            final(self).input_seq() == old(self).input_seq().push(
                OutletId { node: old(self).node_seq().len() as usize, slot: 0 },
            ),
            final(self).output_seq() == old(self).output_seq().push(
                OutletId { node: old(self).node_seq().len() as usize, slot: 0 },
            ),
    {
        self.add_source(name, TensorFact::any())
    }

    /// Appends a node that holds the constant `v`. Of its outlet all is
    /// known, where the sizes of `v` fit a dimension; else nothing is.
    pub fn add_const(&mut self, name: &str, v: Arc<Tensor>) -> (r: Result<usize, TractError>)
        requires
            old(self).wf(),
        ensures
            final(self).wf(),
            r == Ok::<usize, TractError>(old(self).node_seq().len() as usize),
            final(self).node_seq().len() == old(self).node_seq().len() + 1,
            final(self).node_seq().drop_last() == old(self).node_seq(),
            final(self).node_seq().last().op == Op::Const(v),
            final(self).node_seq().last().inputs@.len() == 0,
            final(self).node_seq().last().outputs@.len() == 1,
            final(self).input_seq() == old(self).input_seq(),
            final(self).output_seq() == old(self).output_seq().push(
                OutletId { node: old(self).node_seq().len() as usize, slot: 0 },
            ),
    {
        let fact = match TensorFact::from_tensor(share(&v)) {
            Some(f) => f,
            None => TensorFact::any(),
        };
        let mut facts: Vec<TensorFact> = Vec::new();
        facts.push(fact);
        let ghost outs = old(self).output_seq();
        let ghost id = old(self).node_seq().len() as usize;
        let r = self.add_node(name.to_owned(), Op::Const(v), facts);
        proof {
            assert(self.output_seq() =~= outs.push(OutletId { node: id, slot: 0 }));
        }
        r
    }

    /// Appends a node and connects the outlet `tap` to its first input.
    /// Where `tap` does not exist, nothing is added.
    pub fn chain_after(&mut self, tap: OutletId, name: &str, op: Op, facts: Vec<TensorFact>) -> (r: Result<
        usize,
        TractError,
    >)
        requires
            old(self).wf(),
        ensures
            final(self).wf(),
            final(self).input_seq() == old(self).input_seq(),
            !outlet_exists(old(self).node_seq(), tap) ==> r == Err::<usize, TractError>(
                TractError::MalformedGraph,
            ) && final(self).node_seq() == old(self).node_seq() && final(self).output_seq() == old(self).output_seq(),
            outlet_exists(old(self).node_seq(), tap) ==> r == Ok::<usize, TractError>(
                old(self).node_seq().len() as usize,
            ) && final(self).node_seq().len() == old(self).node_seq().len() + 1 && final(self).node_seq().drop_last() == old(self).node_seq() && final(self).node_seq().last().op == op && final(self).node_seq().last().name@ == name@ && final(self).node_seq().last().outputs == facts && final(self).node_seq().last().inputs@ == seq![tap] && final(self).output_seq() == without(
                old(self).output_seq() + Seq::new(
                    facts@.len(),
                    |s: int| OutletId { node: old(self).node_seq().len() as usize, slot: s as usize },
                ),
                tap,
            ) && (old(self).output_seq().len() == 1 && old(self).output_seq()[0] == tap ==> final(self).output_seq() == Seq::new(
                facts@.len(),
                |s: int| OutletId { node: old(self).node_seq().len() as usize, slot: s as usize },
            )),
    {
        if tap.node >= self.nodes.len() {
            return Err(TractError::MalformedGraph);
        }
        if tap.slot >= self.nodes[tap.node].outputs.len() {
            return Err(TractError::MalformedGraph);
        }
        let ghost before = self.nodes@;
        let id = self.nodes.len();
        let _ = self.add_node(name.to_owned(), op, facts);
        let ghost mid = self.nodes@;
        assert(mid.drop_last() == before);
        assert(mid[tap.node as int] == mid.drop_last()[tap.node as int]);
        let r = self.add_edge(tap, InletId { node: id, slot: 0 });
        proof {
            assert(self.nodes@.drop_last() =~= before) by {
                assert forall|v: int| 0 <= v < before.len() implies self.nodes@.drop_last()[v] == before[v] by {
                    assert(self.nodes@[v] == mid[v]);
                    assert(mid[v] == mid.drop_last()[v]);
                }
            }
            assert(self.nodes@.last().inputs@ =~= seq![tap]);
            let new = Seq::new(facts@.len(), |s: int| OutletId { node: id, slot: s as usize });
            if old(self).output_seq().len() == 1 && old(self).output_seq()[0] == tap {
                assert(old(self).output_seq() =~= seq![tap]);
                lemma_without_first(tap, new);
            }
        }
        Ok(id)
    }

    /// Appends a node and connects the first outlet of the node added last
    /// to its first input. In a graph without nodes, or where that node has
    /// no outlet, nothing is added.
    pub fn chain(&mut self, name: &str, op: Op, facts: Vec<TensorFact>) -> (r: Result<usize, TractError>)
        requires
            old(self).wf(),
        ensures
            final(self).wf(),
            final(self).input_seq() == old(self).input_seq(),
            old(self).node_seq().len() == 0 || !outlet_exists(
                old(self).node_seq(),
                OutletId { node: (old(self).node_seq().len() - 1) as usize, slot: 0 },
            ) ==> r == Err::<usize, TractError>(TractError::MalformedGraph) && final(self).node_seq() == old(self).node_seq() && final(self).output_seq() == old(self).output_seq(),
            old(self).node_seq().len() > 0 && outlet_exists(
                old(self).node_seq(),
                OutletId { node: (old(self).node_seq().len() - 1) as usize, slot: 0 },
            ) ==> r == Ok::<usize, TractError>(old(self).node_seq().len() as usize) && final(self).node_seq().len() == old(self).node_seq().len() + 1 && final(self).node_seq().drop_last() == old(self).node_seq() && final(self).node_seq().last().op == op && final(self).node_seq().last().name@ == name@ && final(self).node_seq().last().outputs == facts && final(self).node_seq().last().inputs@
                == seq![OutletId { node: (old(self).node_seq().len() - 1) as usize, slot: 0 }] && final(self).output_seq() == without(
                old(self).output_seq() + Seq::new(
                    facts@.len(),
                    |s: int| OutletId { node: old(self).node_seq().len() as usize, slot: s as usize },
                ),
                OutletId { node: (old(self).node_seq().len() - 1) as usize, slot: 0 },
            ) && (old(self).output_seq().len() == 1 && old(self).output_seq()[0] == (OutletId {
                node: (old(self).node_seq().len() - 1) as usize,
                slot: 0,
            }) ==> final(self).output_seq() == Seq::new(
                facts@.len(),
                |s: int| OutletId { node: old(self).node_seq().len() as usize, slot: s as usize },
            )),
    {
        if self.nodes.len() == 0 {
            return Err(TractError::MalformedGraph);
        }
        let previous = self.nodes.len() - 1;
        self.chain_after(OutletId { node: previous, slot: 0 }, name, op, facts)
    }

    /// As `chain`, for a node with one output of which nothing is known.
    pub fn chain_default(&mut self, name: &str, op: Op) -> (r: Result<usize, TractError>)
        requires
            old(self).wf(),
        ensures
            final(self).wf(),
            final(self).input_seq() == old(self).input_seq(),
            old(self).node_seq().len() == 0 || !outlet_exists(
                old(self).node_seq(),
                OutletId { node: (old(self).node_seq().len() - 1) as usize, slot: 0 },
            ) ==> r == Err::<usize, TractError>(TractError::MalformedGraph) && final(self).node_seq() == old(self).node_seq() && final(self).output_seq() == old(self).output_seq(),
            old(self).node_seq().len() > 0 && outlet_exists(
                old(self).node_seq(),
                OutletId { node: (old(self).node_seq().len() - 1) as usize, slot: 0 },
            ) ==> r == Ok::<usize, TractError>(old(self).node_seq().len() as usize) && final(self).node_seq().len() == old(self).node_seq().len() + 1 && final(self).node_seq().drop_last() == old(self).node_seq() && final(self).node_seq().last().op == op && final(self).node_seq().last().name@ == name@ && final(self).node_seq().last().outputs@.len() == 1 && final(self).node_seq().last().inputs@
                == seq![OutletId { node: (old(self).node_seq().len() - 1) as usize, slot: 0 }] && final(self).output_seq() == without(
                old(self).output_seq().push(OutletId { node: old(self).node_seq().len() as usize, slot: 0 }),
                OutletId { node: (old(self).node_seq().len() - 1) as usize, slot: 0 },
            ) && (old(self).output_seq().len() == 1 && old(self).output_seq()[0] == (OutletId {
                node: (old(self).node_seq().len() - 1) as usize,
                slot: 0,
            }) ==> final(self).output_seq() == seq![OutletId { node: old(self).node_seq().len() as usize, slot: 0 }]),
    {
        let mut facts: Vec<TensorFact> = Vec::new();
        facts.push(TensorFact::any());
        let ghost outs = old(self).output_seq();
        let ghost id = old(self).node_seq().len() as usize;
        proof {
            assert(outs + Seq::new(facts@.len(), |s: int| OutletId { node: id, slot: s as usize }) =~= outs.push(
                OutletId { node: id, slot: 0 },
            ));
            assert(Seq::new(facts@.len(), |s: int| OutletId { node: id, slot: s as usize }) =~= seq![
                OutletId { node: id, slot: 0 },
            ]);
        }
        self.chain(name, op, facts)
    }

    /// Find an evaluation order for the graph, using its designated inputs
    /// and outputs as boundaries. See `order::eval_order`.
    pub fn eval_order(&self) -> (r: Result<Vec<usize>, TractError>)
        requires
            self.wf(),
            acyclic(deps_of(self.node_seq())),
        ensures
            r is Ok,
            r->Ok_0@ == plan(
                deps_of(self.node_seq()),
                outlet_nodes(self.input_seq()),
                outlet_nodes(self.output_seq()),
            ),
            r->Ok_0@.no_duplicates(),
            dependencies_first(deps_of(self.node_seq()), outlet_nodes(self.input_seq()), r->Ok_0@),
            needed_only(
                deps_of(self.node_seq()),
                outlet_nodes(self.input_seq()),
                outlet_nodes(self.output_seq()),
                r->Ok_0@,
            ),
    {
        eval_order(self)
    }

    /// Appends a node that reads `inputs`, and returns its id. The
    /// designated inputs and outputs of the graph stay as they are. Inputs
    /// that do not all exist are refused, and the graph stays as it was.
    pub fn append(&mut self, name: String, op: Op, inputs: Vec<OutletId>, outputs: Vec<TensorFact>) -> (r: Result<
        usize,
        TractError,
    >)
        requires
            old(self).wf(),
        ensures
            final(self).wf(),
            final(self).input_seq() == old(self).input_seq(),
            final(self).output_seq() == old(self).output_seq(),
            all_exist(old(self).node_seq(), inputs@) ==> r == Ok::<usize, TractError>(
                old(self).node_seq().len() as usize,
            ) && final(self).node_seq().len() == old(self).node_seq().len() + 1 && final(self).node_seq().drop_last()
                == old(self).node_seq() && final(self).node_seq().last().id == old(self).node_seq().len() && final(self).node_seq().last().name == name && final(self).node_seq().last().op == op && final(self).node_seq().last().inputs == inputs && final(self).node_seq().last().outputs == outputs,
            !all_exist(old(self).node_seq(), inputs@) ==> r == Err::<usize, TractError>(TractError::MalformedGraph)
                && final(self).node_seq() == old(self).node_seq(),
    {
        if !self.outlets_exist(&inputs) {
            return Err(TractError::MalformedGraph);
        }
        let id = self.nodes.len();
        let node = Node { id, name, op, inputs, outputs };
        let ghost before = self.nodes@;
        self.nodes.push(node);
        proof {
            assert(self.nodes@.drop_last() =~= before);
            assert forall|v: int, k: int|
                0 <= v < self.nodes@.len() && 0 <= k < self.nodes@[v].inputs@.len() implies outlet_exists(
                self.nodes@,
                #[trigger] self.nodes@[v].inputs@[k],
            ) by {
                if v < before.len() {
                    assert(outlet_exists(before, before[v].inputs@[k]));
                } else {
                    assert(outlet_exists(before, inputs@[k]));
                }
            }
            assert forall|i: int| 0 <= i < self.inputs@.len() implies outlet_exists(
                self.nodes@,
                #[trigger] self.inputs@[i],
            ) by {
                assert(outlet_exists(before, old(self).input_seq()[i]));
            }
            assert forall|i: int| 0 <= i < self.outputs@.len() implies outlet_exists(
                self.nodes@,
                #[trigger] self.outputs@[i],
            ) by {
                assert(outlet_exists(before, old(self).output_seq()[i]));
            }
        }
        Ok(id)
    }

    /// Puts the outlets `shunts` in the place of the outlets of the node
    /// `replaced`: every input of another node that reads slot `s` of
    /// `replaced` reads `shunts[s]` from now on, and so does every
    /// designated output of the graph. The node `replaced` stays in the
    /// graph, with its id and its inputs; no node is renumbered.
    pub fn shunt(&mut self, replaced: usize, shunts: &Vec<OutletId>)
        requires
            old(self).wf(),
            forall|s: int| 0 <= s < shunts@.len() ==> outlet_exists(old(self).node_seq(), #[trigger] shunts@[s]),
        ensures
            final(self).wf(),
            final(self).input_seq() == old(self).input_seq(),
            shunted(old(self).node_seq(), final(self).node_seq(), replaced, shunts@),
            final(self).output_seq() == Seq::new(
                old(self).output_seq().len(),
                |i: int| rewired(old(self).output_seq()[i], replaced, shunts@),
            ),
    {
        let ghost before = self.nodes@;
        let n = self.nodes.len();
        let mut v: usize = 0;
        while v < n
            invariant
                v <= n,
                n == before.len(),
                self.nodes@.len() == n,
                before == old(self).nodes@,
                nodes_linked(before),
                self.inputs == old(self).inputs,
                self.outputs == old(self).outputs,
                forall|s: int| 0 <= s < shunts@.len() ==> outlet_exists(before, #[trigger] shunts@[s]),
                forall|a: int| 0 <= a < n ==> same_but_inputs(before[a], #[trigger] self.nodes@[a]),
                forall|a: int| v <= a < n ==> self.nodes@[a].inputs@ == before[a].inputs@,
                forall|a: int|
                    0 <= a < v ==> (#[trigger] self.nodes@[a]).inputs@ == if a == replaced {
                        before[a].inputs@
                    } else {
                        Seq::new(before[a].inputs@.len(), |k: int| rewired(before[a].inputs@[k], replaced, shunts@))
                    },
            decreases n - v,
        {
            if v != replaced {
                let mut k: usize = 0;
                while k < self.nodes[v].inputs.len()
                    invariant
                        v < n,
                        v != replaced,
                        n == before.len(),
                        self.nodes@.len() == n,
                        before == old(self).nodes@,
                        self.inputs == old(self).inputs,
                        self.outputs == old(self).outputs,
                        k <= self.nodes@[v as int].inputs@.len(),
                        self.nodes@[v as int].inputs@.len() == before[v as int].inputs@.len(),
                        forall|a: int| 0 <= a < n ==> same_but_inputs(before[a], #[trigger] self.nodes@[a]),
                        forall|a: int| v < a < n ==> self.nodes@[a].inputs@ == before[a].inputs@,
                        forall|a: int|
                            0 <= a < v ==> (#[trigger] self.nodes@[a]).inputs@ == if a == replaced {
                                before[a].inputs@
                            } else {
                                Seq::new(
                                    before[a].inputs@.len(),
                                    |k: int| rewired(before[a].inputs@[k], replaced, shunts@),
                                )
                            },
                        forall|j: int|
                            0 <= j < k ==> self.nodes@[v as int].inputs@[j] == rewired(
                                before[v as int].inputs@[j],
                                replaced,
                                shunts@,
                            ),
                        forall|j: int|
                            k <= j < before[v as int].inputs@.len() ==> self.nodes@[v as int].inputs@[j]
                                == before[v as int].inputs@[j],
                    decreases before[v as int].inputs@.len() - k,
                {
                    let o = self.nodes[v].inputs[k];
                    if o.node == replaced && o.slot < shunts.len() {
                        let ghost mid = self.nodes@;
                        self.nodes[v].inputs[k] = shunts[o.slot];
                        proof {
                            assert forall|a: int| 0 <= a < n implies same_but_inputs(
                                before[a],
                                #[trigger] self.nodes@[a],
                            ) by {
                                assert(same_but_inputs(before[a], mid[a]));
                            }
                        }
                    }
                    k += 1;
                }
                proof {
                    assert(self.nodes@[v as int].inputs@ =~= Seq::new(
                        before[v as int].inputs@.len(),
                        |k: int| rewired(before[v as int].inputs@[k], replaced, shunts@),
                    ));
                }
            }
            v += 1;
        }
        let mut outs: Vec<OutletId> = Vec::new();
        let mut i: usize = 0;
        while i < self.outputs.len()
            invariant
                i <= self.outputs.len(),
                self.outputs == old(self).outputs,
                outs@ == Seq::new(i as nat, |j: int| rewired(self.outputs@[j], replaced, shunts@)),
            decreases self.outputs.len() - i,
        {
            let o = self.outputs[i];
            if o.node == replaced && o.slot < shunts.len() {
                outs.push(shunts[o.slot]);
            } else {
                outs.push(o);
            }
            i += 1;
            proof {
                assert(outs@ =~= Seq::new(i as nat, |j: int| rewired(self.outputs@[j], replaced, shunts@)));
            }
        }
        proof {
            lemma_shunted_linked(before, self.nodes@, replaced, shunts@);
            assert forall|i: int| 0 <= i < self.inputs@.len() implies outlet_exists(
                self.nodes@,
                #[trigger] self.inputs@[i],
            ) by {
                assert(outlet_exists(before, old(self).input_seq()[i]));
            }
            assert forall|i: int| 0 <= i < outs@.len() implies outlet_exists(self.nodes@, #[trigger] outs@[i]) by {
                assert(outlet_exists(before, old(self).output_seq()[i]));
            }
        }
        self.outputs = outs;
    }

    /// Whether the node is read by a node or is a designated output of
    /// the graph. A node that a rewrite has replaced is neither.
    pub fn is_live(&self, node: usize) -> (r: bool)
        ensures
            r == live(self.node_seq(), self.output_seq(), node),
    {
        let mut i: usize = 0;
        while i < self.outputs.len()
            invariant
                i <= self.outputs.len(),
                forall|j: int| 0 <= j < i ==> (#[trigger] self.outputs@[j]).node != node,
            decreases self.outputs.len() - i,
        {
            if self.outputs[i].node == node {
                return true;
            }
            i += 1;
        }
        let mut v: usize = 0;
        while v < self.nodes.len()
            invariant
                v <= self.nodes.len(),
                forall|j: int| 0 <= j < self.outputs@.len() ==> (#[trigger] self.outputs@[j]).node != node,
                forall|a: int, k: int|
                    0 <= a < v && 0 <= k < self.nodes@[a].inputs@.len() ==> (#[trigger] self.nodes@[a].inputs@[k]).node
                        != node,
            decreases self.nodes.len() - v,
        {
            let mut k: usize = 0;
            while k < self.nodes[v].inputs.len()
                invariant
                    v < self.nodes.len(),
                    k <= self.nodes@[v as int].inputs@.len(),
                    forall|a: int, j: int|
                        0 <= a < v && 0 <= j < self.nodes@[a].inputs@.len() ==> (#[trigger] self.nodes@[a].inputs@[j]).node
                            != node,
                    forall|j: int| 0 <= j < k ==> (#[trigger] self.nodes@[v as int].inputs@[j]).node != node,
                decreases self.nodes@[v as int].inputs@.len() - k,
            {
                if self.nodes[v].inputs[k].node == node {
                    return true;
                }
                k += 1;
            }
            v += 1;
        }
        false
    }

    /// What is known of the outlet `o`.
    pub fn outlet_fact(&self, o: OutletId) -> (r: Result<&TensorFact, TractError>)
        ensures
            outlet_exists(self.node_seq(), o) ==> r is Ok && *r->Ok_0 == self.node_seq()[o.node as int].outputs@[o.slot as int],
            !outlet_exists(self.node_seq(), o) ==> r is Err && r->Err_0 == TractError::MalformedGraph,
    {
        if o.node >= self.nodes.len() {
            return Err(TractError::MalformedGraph);
        }
        if o.slot >= self.nodes[o.node].outputs.len() {
            return Err(TractError::MalformedGraph);
        }
        Ok(&self.nodes[o.node].outputs[o.slot])
    }

    /// Notes `fact` of the outlet `o`, in the place of what was known of
    /// it. Nothing else changes. An outlet that does not exist is refused.
    pub fn set_outlet_fact(&mut self, o: OutletId, fact: TensorFact) -> (r: Result<(), TractError>)
        requires
            old(self).wf(),
        ensures
            final(self).wf(),
            final(self).input_seq() == old(self).input_seq(),
            final(self).output_seq() == old(self).output_seq(),
            same_graph(old(self).node_seq(), final(self).node_seq()),
            outlet_exists(old(self).node_seq(), o) ==> r is Ok && fact_table(final(self).node_seq()) == with_fact(
                fact_table(old(self).node_seq()),
                o,
                fact@,
            ),
            !outlet_exists(old(self).node_seq(), o) ==> r is Err && r->Err_0 == TractError::MalformedGraph
                && final(self).node_seq() == old(self).node_seq(),
    {
        if o.node >= self.nodes.len() {
            return Err(TractError::MalformedGraph);
        }
        if o.slot >= self.nodes[o.node].outputs.len() {
            return Err(TractError::MalformedGraph);
        }
        let ghost before = self.nodes@;
        self.nodes[o.node].outputs[o.slot] = fact;
        proof {
            let after = self.nodes@;
            assert forall|v: int| 0 <= v < after.len() implies (#[trigger] after[v]).id == before[v].id && after[v].name
                == before[v].name && after[v].op == before[v].op && after[v].inputs == before[v].inputs && after[v].outputs@.len()
                == before[v].outputs@.len() by {}
            assert forall|x: OutletId| outlet_exists(before, x) implies outlet_exists(after, x) by {}
            assert(nodes_linked(after)) by {
                assert forall|v: int, k: int| 0 <= v < after.len() && 0 <= k < after[v].inputs@.len() implies outlet_exists(
                    after,
                    #[trigger] after[v].inputs@[k],
                ) by {
                    assert(outlet_exists(before, before[v].inputs@[k]));
                }
            }
            assert forall|i: int| 0 <= i < self.inputs@.len() implies outlet_exists(after, #[trigger] self.inputs@[i]) by {
                assert(outlet_exists(before, old(self).input_seq()[i]));
            }
            assert forall|i: int| 0 <= i < self.outputs@.len() implies outlet_exists(
                after,
                #[trigger] self.outputs@[i],
            ) by {
                assert(outlet_exists(before, old(self).output_seq()[i]));
            }
            let want = with_fact(fact_table(before), o, fact@);
            assert(fact_table(after) =~= want) by {
                assert forall|v: int| 0 <= v < after.len() implies fact_table(after)[v] =~= want[v] by {}
            }
        }
        Ok(())
    }

    /// The node with the id `id`.
    pub fn node(&self, id: usize) -> (r: Result<&Node<Op>, TractError>)
        ensures
            id < self.node_seq().len() ==> r == Ok::<&Node<Op>, TractError>(&self.node_seq()[id as int]),
            id >= self.node_seq().len() ==> r == Err::<&Node<Op>, TractError>(TractError::MalformedGraph),
    {
        if id < self.nodes.len() {
            Ok(&self.nodes[id])
        } else {
            Err(TractError::MalformedGraph)
        }
    }

    /// The id of the first node named `name`.
    pub fn node_id_by_name(&self, name: &String) -> (r: Result<usize, TractError>)
        ensures
            match r {
                Ok(id) => id < self.node_seq().len() && self.node_seq()[id as int].name@ == name@ && forall|v: int|
                    0 <= v < id ==> self.node_seq()[v].name@ != name@,
                Err(e) => e == TractError::MalformedGraph && forall|v: int|
                    0 <= v < self.node_seq().len() ==> self.node_seq()[v].name@ != name@,
            },
    {
        let mut i: usize = 0;
        while i < self.nodes.len()
            invariant
                i <= self.nodes.len(),
                forall|v: int| 0 <= v < i ==> self.nodes@[v].name@ != name@,
            decreases self.nodes.len() - i,
        {
            if self.nodes[i].name == *name {
                return Ok(i);
            }
            i += 1;
        }
        Err(TractError::MalformedGraph)
    }

    /// The inlets that read `outlet`, by node and then by slot.
    pub fn consumers(&self, outlet: OutletId) -> (r: Vec<InletId>)
        ensures
            forall|i: int|
                0 <= i < r@.len() ==> reads(self.node_seq(), #[trigger] r@[i], outlet),
            forall|inlet: InletId| reads(self.node_seq(), inlet, outlet) ==> r@.contains(inlet),
            forall|i: int, j: int| 0 <= i < j < r@.len() ==> inlet_before(r@[i], r@[j]),
    {
        let mut out: Vec<InletId> = Vec::new();
        let mut v: usize = 0;
        while v < self.nodes.len()
            invariant
                v <= self.nodes.len(),
                forall|i: int| 0 <= i < out@.len() ==> reads(self.nodes@, #[trigger] out@[i], outlet) && out@[i].node < v,
                forall|inlet: InletId| reads(self.nodes@, inlet, outlet) && inlet.node < v ==> out@.contains(inlet),
                forall|i: int, j: int| 0 <= i < j < out@.len() ==> inlet_before(out@[i], out@[j]),
            decreases self.nodes.len() - v,
        {
            let mut k: usize = 0;
            while k < self.nodes[v as usize].inputs.len()
                invariant
                    v < self.nodes.len(),
                    k <= self.nodes@[v as int].inputs@.len(),
                    forall|i: int|
                        0 <= i < out@.len() ==> reads(self.nodes@, #[trigger] out@[i], outlet) && (out@[i].node < v
                            || (out@[i].node == v && out@[i].slot < k)),
                    forall|inlet: InletId|
                        reads(self.nodes@, inlet, outlet) && (inlet.node < v || (inlet.node == v && inlet.slot < k))
                            ==> out@.contains(inlet),
                    forall|i: int, j: int| 0 <= i < j < out@.len() ==> inlet_before(out@[i], out@[j]),
                decreases self.nodes@[v as int].inputs@.len() - k,
            {
                if self.nodes[v].inputs[k] == outlet {
                    let ghost prev = out@;
                    out.push(InletId { node: v, slot: k });
                    proof {
                        assert forall|inlet: InletId|
                            reads(self.nodes@, inlet, outlet) && (inlet.node < v || (inlet.node == v && inlet.slot < k
                                + 1)) implies out@.contains(inlet) by {
                            if inlet.node == v && inlet.slot == k {
                                assert(out@[prev.len() as int] == inlet);
                            } else {
                                assert(prev.contains(inlet));
                                let j = choose|j: int| 0 <= j < prev.len() && prev[j] == inlet;
                                assert(out@[j] == inlet);
                            }
                        }
                    }
                } else {
                    proof {
                        assert forall|inlet: InletId|
                            reads(self.nodes@, inlet, outlet) && (inlet.node < v || (inlet.node == v && inlet.slot < k
                                + 1)) implies out@.contains(inlet) by {}
                    }
                }
                k += 1;
            }
            v += 1;
        }
        out
    }

    /// Designates the input outlets of the graph. Outlets that do not all
    /// exist are refused, and the graph stays as it was.
    pub fn set_input_outlets(&mut self, outlets: Vec<OutletId>) -> (r: Result<(), TractError>)
        requires
            old(self).wf(),
        ensures
            final(self).wf(),
            final(self).node_seq() == old(self).node_seq(),
            final(self).output_seq() == old(self).output_seq(),
            all_exist(old(self).node_seq(), outlets@) ==> r is Ok && final(self).input_seq() == outlets@,
            !all_exist(old(self).node_seq(), outlets@) ==> r == Err::<(), TractError>(TractError::MalformedGraph)
                && final(self).input_seq() == old(self).input_seq(),
    {
        if !self.outlets_exist(&outlets) {
            return Err(TractError::MalformedGraph);
        }
        self.inputs = outlets;
        proof {
            assert forall|i: int| 0 <= i < self.output_seq().len() implies outlet_exists(
                self.node_seq(),
                #[trigger] self.output_seq()[i],
            ) by {
                assert(outlet_exists(old(self).node_seq(), old(self).output_seq()[i]));
            }
        }
        Ok(())
    }

    /// Designates the output outlets of the graph. Outlets that do not all
    /// exist are refused, and the graph stays as it was.
    pub fn set_output_outlets(&mut self, outlets: Vec<OutletId>) -> (r: Result<(), TractError>)
        requires
            old(self).wf(),
        ensures
            final(self).wf(),
            final(self).node_seq() == old(self).node_seq(),
            final(self).input_seq() == old(self).input_seq(),
            all_exist(old(self).node_seq(), outlets@) ==> r is Ok && final(self).output_seq() == outlets@,
            !all_exist(old(self).node_seq(), outlets@) ==> r == Err::<(), TractError>(TractError::MalformedGraph)
                && final(self).output_seq() == old(self).output_seq(),
    {
        if !self.outlets_exist(&outlets) {
            return Err(TractError::MalformedGraph);
        }
        self.outputs = outlets;
        proof {
            assert forall|i: int| 0 <= i < self.input_seq().len() implies outlet_exists(
                self.node_seq(),
                #[trigger] self.input_seq()[i],
            ) by {
                assert(outlet_exists(old(self).node_seq(), old(self).input_seq()[i]));
            }
        }
        Ok(())
    }

    fn outlets_exist(&self, outlets: &Vec<OutletId>) -> (r: bool)
        ensures
            r == all_exist(self.node_seq(), outlets@),
    {
        let mut i: usize = 0;
        while i < outlets.len()
            invariant
                i <= outlets.len(),
                forall|k: int| 0 <= k < i ==> outlet_exists(self.nodes@, #[trigger] outlets@[k]),
            decreases outlets.len() - i,
        {
            let o = outlets[i];
            if o.node >= self.nodes.len() {
                return false;
            }
            if o.slot >= self.nodes[o.node].outputs.len() {
                return false;
            }
            i += 1;
        }
        true
    }
}

/// The outlet that is read in the place of `o` once the outlets `shunts`
/// stand for those of the node `replaced`.
pub open spec fn rewired(o: OutletId, replaced: usize, shunts: Seq<OutletId>) -> OutletId {
    if o.node == replaced && o.slot < shunts.len() {
        shunts[o.slot as int]
    } else {
        o
    }
}

/// Two nodes that differ in their inputs at most.
pub open spec fn same_but_inputs<O>(a: Node<O>, b: Node<O>) -> bool {
    &&& a.id == b.id
    &&& a.name == b.name
    &&& a.op == b.op
    &&& a.outputs == b.outputs
}

/// `after` is `before` with the outlets `shunts` in the place of those of
/// the node `replaced`: see `Model::shunt`.
pub open spec fn shunted<O>(before: Seq<Node<O>>, after: Seq<Node<O>>, replaced: usize, shunts: Seq<OutletId>) -> bool {
    &&& after.len() == before.len()
    &&& forall|a: int| 0 <= a < before.len() ==> same_but_inputs(before[a], #[trigger] after[a])
    &&& forall|a: int|
        0 <= a < before.len() ==> (#[trigger] after[a]).inputs@ == if a == replaced {
            before[a].inputs@
        } else {
            Seq::new(before[a].inputs@.len(), |k: int| rewired(before[a].inputs@[k], replaced, shunts))
        }
}

proof fn lemma_shunted_linked<O>(before: Seq<Node<O>>, after: Seq<Node<O>>, replaced: usize, shunts: Seq<OutletId>)
    requires
        nodes_linked(before),
        shunted(before, after, replaced, shunts),
        forall|s: int| 0 <= s < shunts.len() ==> outlet_exists(before, #[trigger] shunts[s]),
    ensures
        nodes_linked(after),
        forall|o: OutletId| outlet_exists(before, o) ==> outlet_exists(after, rewired(o, replaced, shunts)),
        forall|o: OutletId| outlet_exists(before, o) ==> outlet_exists(after, o),
{
    assert forall|o: OutletId| outlet_exists(before, o) implies outlet_exists(after, o) by {
        assert(same_but_inputs(before[o.node as int], after[o.node as int]));
    }
    assert forall|o: OutletId| outlet_exists(before, o) implies outlet_exists(
        after,
        rewired(o, replaced, shunts),
    ) by {
        let r = rewired(o, replaced, shunts);
        if r != o {
            assert(outlet_exists(before, shunts[o.slot as int]));
        }
    }
    assert forall|v: int| 0 <= v < after.len() implies (#[trigger] after[v]).id == v by {
        assert(same_but_inputs(before[v], after[v]));
        assert(before[v].id == v);
    }
    assert forall|v: int, k: int| 0 <= v < after.len() && 0 <= k < after[v].inputs@.len() implies outlet_exists(
        after,
        #[trigger] after[v].inputs@[k],
    ) by {
        assert(outlet_exists(before, before[v].inputs@[k]));
    }
}

/// What is known of every outlet: for each node, for each of its output
/// slots.
pub open spec fn fact_table<O>(nodes: Seq<Node<O>>) -> Seq<Seq<crate::facts::FactValue>> {
    Seq::new(nodes.len(), |v: int| Seq::new(nodes[v].outputs@.len(), |s: int| nodes[v].outputs@[s]@))
}

/// The table with `fact` known of the outlet `o`.
pub open spec fn with_fact(
    table: Seq<Seq<crate::facts::FactValue>>,
    o: OutletId,
    fact: crate::facts::FactValue,
) -> Seq<Seq<crate::facts::FactValue>> {
    table.update(o.node as int, table[o.node as int].update(o.slot as int, fact))
}

/// Two graphs with the same nodes, operators and edges; they may differ in
/// what is known of the outlets.
pub open spec fn same_graph<O>(a: Seq<Node<O>>, b: Seq<Node<O>>) -> bool {
    &&& a.len() == b.len()
    &&& forall|v: int|
        0 <= v < a.len() ==> (#[trigger] b[v]).id == a[v].id && b[v].name == a[v].name && b[v].op == a[v].op && b[v].inputs
            == a[v].inputs && b[v].outputs@.len() == a[v].outputs@.len()
}

/// Some node reads an outlet of the node `v`.
pub open spec fn read_by<O>(nodes: Seq<Node<O>>, v: usize) -> bool {
    exists|a: int, k: int|
        0 <= a < nodes.len() && 0 <= k < nodes[a].inputs@.len() && (#[trigger] nodes[a].inputs@[k]).node == v
}

/// The node `v` is read by a node, or one of `outs` is an outlet of it.
pub open spec fn live<O>(nodes: Seq<Node<O>>, outs: Seq<OutletId>, v: usize) -> bool {
    read_by(nodes, v) || exists|i: int| 0 <= i < outs.len() && (#[trigger] outs[i]).node == v
}

/// Every outlet of `outlets` exists in `nodes`.
pub open spec fn all_exist<O>(nodes: Seq<Node<O>>, outlets: Seq<OutletId>) -> bool {
    forall|k: int| 0 <= k < outlets.len() ==> outlet_exists(nodes, #[trigger] outlets[k])
}

/// The inlet `inlet` is an input slot of a node of `nodes` and reads
/// `outlet`.
pub open spec fn reads<O>(nodes: Seq<Node<O>>, inlet: InletId, outlet: OutletId) -> bool {
    &&& inlet.node < nodes.len()
    &&& inlet.slot < nodes[inlet.node as int].inputs@.len()
    &&& nodes[inlet.node as int].inputs@[inlet.slot as int] == outlet
}

/// The inlet `a` comes before the inlet `b`: it is an inlet of an earlier
/// node, or an earlier inlet of the same node.
pub open spec fn inlet_before(a: InletId, b: InletId) -> bool {
    a.node < b.node || (a.node == b.node && a.slot < b.slot)
}

/// The edge from `outlet` to `inlet` can be added to `nodes`.
pub open spec fn edge_fits<O>(nodes: Seq<Node<O>>, outlet: OutletId, inlet: InletId) -> bool {
    &&& outlet_exists(nodes, outlet)
    &&& inlet.node < nodes.len()
    &&& inlet.slot <= nodes[inlet.node as int].inputs@.len()
}

/// `after` is `before` with the edge from `outlet` to `inlet` added: the
/// input slot of the inlet reads the outlet, and nothing else has changed.
pub open spec fn connected<O>(before: Seq<Node<O>>, after: Seq<Node<O>>, outlet: OutletId, inlet: InletId) -> bool {
    let old_node = before[inlet.node as int];
    let new_node = after[inlet.node as int];
    &&& after.len() == before.len()
    &&& forall|v: int| 0 <= v < before.len() && v != inlet.node ==> after[v] == before[v]
    &&& new_node.id == old_node.id
    &&& new_node.name == old_node.name
    &&& new_node.op == old_node.op
    &&& new_node.outputs == old_node.outputs
    &&& new_node.inputs@ == if inlet.slot == old_node.inputs@.len() {
        old_node.inputs@.push(outlet)
    } else {
        old_node.inputs@.update(inlet.slot as int, outlet)
    }
}

/// `s` without the outlets equal to `x`.
pub open spec fn without(s: Seq<OutletId>, x: OutletId) -> Seq<OutletId>
    decreases s.len(),
{
    if s.len() == 0 {
        s
    } else if s.last() == x {
        without(s.drop_last(), x)
    } else {
        without(s.drop_last(), x).push(s.last())
    }
}

/// A list that begins with `x` and holds it nowhere else is, without
/// `x`, the rest of it.
pub proof fn lemma_without_first(x: OutletId, more: Seq<OutletId>)
    requires
        !more.contains(x),
    ensures
        without(seq![x] + more, x) == more,
    decreases more.len(),
{
    let all = seq![x] + more;
    if more.len() == 0 {
        assert(all.drop_last() =~= Seq::<OutletId>::empty());
        assert(without(all.drop_last(), x) =~= Seq::<OutletId>::empty());
        assert(without(all, x) =~= more);
    } else {
        assert(all.last() == more.last());
        assert(more.contains(more[more.len() - 1]));
        assert(all.drop_last() =~= seq![x] + more.drop_last());
        assert forall|j: int| 0 <= j < more.drop_last().len() implies more.drop_last()[j] != x by {
            assert(more.contains(more[j]));
        }
        lemma_without_first(x, more.drop_last());
        assert(more.drop_last().push(more.last()) =~= more);
    }
}

pub proof fn lemma_without_subset(s: Seq<OutletId>, x: OutletId)
    ensures
        forall|i: int| 0 <= i < without(s, x).len() ==> s.contains(#[trigger] without(s, x)[i]) && without(s, x)[i] != x,
        !s.contains(x) ==> without(s, x) == s,
    decreases s.len(),
{
    if s.len() > 0 {
        lemma_without_subset(s.drop_last(), x);
        let w = without(s, x);
        assert forall|i: int| 0 <= i < w.len() implies s.contains(#[trigger] w[i]) && w[i] != x by {
            if i < without(s.drop_last(), x).len() {
                let e = without(s.drop_last(), x)[i];
                assert(s.drop_last().contains(e));
                let j = choose|j: int| 0 <= j < s.drop_last().len() && s.drop_last()[j] == e;
                assert(s[j] == e);
            } else {
                assert(s[s.len() - 1] == w[i]);
            }
        }
        if !s.contains(x) {
            assert forall|j: int| 0 <= j < s.drop_last().len() implies s.drop_last()[j] != x by {
                assert(s[j] != x);
            }
            assert(s[s.len() - 1] != x);
            assert(without(s.drop_last(), x).push(s.last()) =~= s);
        }
    }
}

proof fn lemma_connected_linked<O>(before: Seq<Node<O>>, after: Seq<Node<O>>, outlet: OutletId, inlet: InletId)
    requires
        nodes_linked(before),
        edge_fits(before, outlet, inlet),
        connected(before, after, outlet, inlet),
    ensures
        nodes_linked(after),
        forall|o: OutletId| outlet_exists(before, o) ==> outlet_exists(after, o),
{
    assert forall|o: OutletId| outlet_exists(before, o) implies outlet_exists(after, o) by {
        if o.node != inlet.node {
            assert(after[o.node as int] == before[o.node as int]);
        }
    }
    assert forall|v: int| 0 <= v < after.len() implies (#[trigger] after[v]).id == v by {
        if v != inlet.node {
            assert(after[v] == before[v]);
        }
        assert(before[v].id == v);
    }
    assert forall|v: int, k: int| 0 <= v < after.len() && 0 <= k < after[v].inputs@.len() implies outlet_exists(
        after,
        #[trigger] after[v].inputs@[k],
    ) by {
        if v != inlet.node {
            assert(after[v] == before[v]);
            assert(outlet_exists(before, before[v].inputs@[k]));
        } else if k == inlet.slot {
            assert(after[v].inputs@[k] == outlet);
        } else {
            assert(after[v].inputs@[k] == before[v].inputs@[k]);
            assert(outlet_exists(before, before[v].inputs@[k]));
        }
    }
}

/// A copy of `v` without the outlets equal to `x`.
fn remove_outlet(v: &Vec<OutletId>, x: OutletId) -> (r: Vec<OutletId>)
    ensures
        r@ == without(v@, x),
{
    let mut out: Vec<OutletId> = Vec::new();
    let mut i: usize = 0;
    while i < v.len()
        invariant
            i <= v.len(),
            out@ == without(v@.take(i as int), x),
        decreases v.len() - i,
    {
        proof {
            assert(v@.take(i + 1).drop_last() =~= v@.take(i as int));
        }
        if v[i] != x {
            out.push(v[i]);
        }
        i += 1;
    }
    proof {
        assert(v@.take(v@.len() as int) =~= v@);
    }
    out
}

} // verus!
