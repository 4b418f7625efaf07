//! Local rewrites of the graph. A patch is built aside, as a few new nodes
//! and a table that says which new outlet stands for each outlet of the
//! node it replaces. It is validated as a whole and merged only then; the
//! replaced node stays in the graph, detached, and no node is renumbered.

use vstd::prelude::*;
use crate::errors::TractError;
use crate::facts::{FactValue, TensorFact};
use crate::model::{all_exist, deps_of, nodes_linked, outlet_exists, rewired, same_but_inputs, shunted, Model, Node, OutletId};
use crate::ops::Op;
use crate::order::{acyclic, graph_is_acyclic, graph_of};

verus! {

/// A node of a patch. Its inputs are addressed as they will be in the
/// graph: a node id below the patch's `base` is a node of the graph, and
/// `base + k` is node `k` of the patch.
#[derive(Debug)]
pub struct PatchNode {
    pub name: String,
    pub op: Op,
    pub inputs: Vec<OutletId>,
    pub outputs: Vec<TensorFact>,
}

/// A replacement for one node of a graph.
#[derive(Debug)]
pub struct ModelPatch {
    /// The number of nodes of the graph that the patch was built for.
    pub base: usize,
    /// The node that the patch replaces.
    pub replaced: usize,
    /// The new nodes.
    pub nodes: Vec<PatchNode>,
    /// For each output slot of the replaced node, the outlet that stands
    /// for it from now on.
    pub shunts: Vec<OutletId>,
}

/// The outlet `o` can be read by node `k` of the patch (or, for `k` the
/// number of its nodes, by its table): it is an outlet of the graph and
/// not one of the replaced node, or an outlet of an earlier node of the
/// patch.
pub open spec fn patch_outlet_exists(nodes: Seq<Node<Op>>, patch: ModelPatch, o: OutletId, k: int) -> bool {
    if o.node < patch.base {
        outlet_exists(nodes, o) && o.node != patch.replaced
    } else {
        o.node - patch.base < k && o.slot < patch.nodes@[o.node - patch.base].outputs@.len()
    }
}

/// What is known of the outlet `o`, of the graph or of the patch.
pub open spec fn patch_fact(nodes: Seq<Node<Op>>, patch: ModelPatch, o: OutletId) -> FactValue {
    if o.node < patch.base {
        nodes[o.node as int].outputs@[o.slot as int]@
    } else {
        patch.nodes@[o.node - patch.base].outputs@[o.slot as int]@
    }
}

/// The patch fits the graph: it was built for this number of nodes; its
/// nodes read outlets that exist; its table has one outlet that exists for
/// each output slot of the replaced node, of which nothing is known that
/// contradicts what is known of the slot.
pub open spec fn well_built(nodes: Seq<Node<Op>>, patch: ModelPatch) -> bool {
    &&& patch.base == nodes.len()
    &&& patch.replaced < patch.base
    &&& patch.base + patch.nodes@.len() <= usize::MAX
    &&& forall|k: int, j: int|
        0 <= k < patch.nodes@.len() && 0 <= j < patch.nodes@[k].inputs@.len() ==> patch_outlet_exists(
            nodes,
            patch,
            #[trigger] patch.nodes@[k].inputs@[j],
            k,
        )
    &&& patch.shunts@.len() == nodes[patch.replaced as int].outputs@.len()
    &&& forall|s: int|
        0 <= s < patch.shunts@.len() ==> patch_outlet_exists(
            nodes,
            patch,
            #[trigger] patch.shunts@[s],
            patch.nodes@.len() as int,
        ) && patch_fact(nodes, patch, patch.shunts@[s]).agrees(nodes[patch.replaced as int].outputs@[s]@)
}

/// The nodes that each node reads once the patch is merged.
pub open spec fn merged(nodes: Seq<Node<Op>>, patch: ModelPatch) -> Seq<Seq<usize>> {
    Seq::new(
        nodes.len() + patch.nodes@.len(),
        |v: int|
            if v < nodes.len() {
                if v == patch.replaced {
                    nodes[v].deps()
                } else {
                    Seq::new(
                        nodes[v].inputs@.len(),
                        |k: int| rewired(nodes[v].inputs@[k], patch.replaced, patch.shunts@).node,
                    )
                }
            } else {
                Seq::new(
                    patch.nodes@[v - nodes.len()].inputs@.len(),
                    |k: int| patch.nodes@[v - nodes.len()].inputs@[k].node,
                )
            },
    )
}

/// The patch can be merged: it fits the graph, and the graph has no cycle
/// once it is merged.
pub open spec fn valid(nodes: Seq<Node<Op>>, patch: ModelPatch) -> bool {
    well_built(nodes, patch) && acyclic(merged(nodes, patch))
}

/// `after` is `before` with the patch merged: the nodes of the graph keep
/// their ids, names and operators, and read the new outlets in the place
/// of those of the replaced node; the nodes of the patch follow them, with
/// ids that were not in use.
pub open spec fn applied(before: Seq<Node<Op>>, after: Seq<Node<Op>>, patch: ModelPatch) -> bool {
    &&& after.len() == before.len() + patch.nodes@.len()
    &&& shunted(before, after.take(before.len() as int), patch.replaced, patch.shunts@)
    &&& forall|k: int|
        0 <= k < patch.nodes@.len() ==> {
            let n = #[trigger] after[before.len() + k];
            &&& n.id == before.len() + k
            &&& n.name == patch.nodes@[k].name
            &&& n.op == patch.nodes@[k].op
            &&& n.inputs@ == patch.nodes@[k].inputs@
            &&& n.outputs == patch.nodes@[k].outputs
        }
}

/// No node but `replaced` itself reads an outlet of `replaced`.
pub open spec fn detached(nodes: Seq<Node<Op>>, replaced: usize) -> bool {
    forall|v: int, k: int|
        0 <= v < nodes.len() && v != replaced && 0 <= k < nodes[v].inputs@.len() ==> (#[trigger] nodes[v].inputs@[k]).node
            != replaced
}

/// Whether two facts agree.
fn agree(a: &TensorFact, b: &TensorFact) -> (r: bool)
    ensures
        r == a@.agrees(b@),
{
    a.unify(b).is_ok()
}

impl ModelPatch {
    /// Whether the outlet `o` can be read by node `k` of the patch.
    fn reaches(&self, model: &Model, o: OutletId, k: usize) -> (r: bool)
        requires
            self.base == model.node_seq().len(),
            k <= self.nodes@.len(),
        ensures
            r == patch_outlet_exists(model.node_seq(), *self, o, k as int),
    {
        let nodes = model.nodes();
        if o.node < self.base {
            o.node != self.replaced && o.slot < nodes[o.node].outputs.len()
        } else {
            let at = o.node - self.base;
            at < k && o.slot < self.nodes[at].outputs.len()
        }
    }

    /// Whether the patch fits the graph.
    #[verifier::loop_isolation(false)]
    fn fits(&self, model: &Model) -> (r: bool)
        ensures
            r == well_built(model.node_seq(), *self),
    {
        let nodes = model.nodes();
        if self.base != nodes.len() || self.replaced >= self.base {
            return false;
        }
        if self.nodes.len() > usize::MAX - self.base {
            return false;
        }
        let mut k: usize = 0;
        while k < self.nodes.len()
            invariant
                k <= self.nodes.len(),
                forall|a: int, j: int|
                    0 <= a < k && 0 <= j < self.nodes@[a].inputs@.len() ==> patch_outlet_exists(
                        nodes@,
                        *self,
                        #[trigger] self.nodes@[a].inputs@[j],
                        a,
                    ),
            decreases self.nodes.len() - k,
        {
            let mut j: usize = 0;
            while j < self.nodes[k].inputs.len()
                invariant
                    k < self.nodes.len(),
                    j <= self.nodes@[k as int].inputs@.len(),
                    forall|b: int|
                        0 <= b < j ==> patch_outlet_exists(
                            nodes@,
                            *self,
                            #[trigger] self.nodes@[k as int].inputs@[b],
                            k as int,
                        ),
                decreases self.nodes@[k as int].inputs@.len() - j,
            {
                if !self.reaches(model, self.nodes[k].inputs[j], k) {
                    return false;
                }
                j += 1;
            }
            k += 1;
        }
        if self.shunts.len() != nodes[self.replaced].outputs.len() {
            return false;
        }
        let mut s: usize = 0;
        while s < self.shunts.len()
            invariant
                s <= self.shunts.len(),
                forall|a: int|
                    0 <= a < s ==> patch_outlet_exists(
                        nodes@,
                        *self,
                        #[trigger] self.shunts@[a],
                        self.nodes@.len() as int,
                    ) && patch_fact(nodes@, *self, self.shunts@[a]).agrees(
                        nodes@[self.replaced as int].outputs@[a]@,
                    ),
            decreases self.shunts.len() - s,
        {
            let o = self.shunts[s];
            if !self.reaches(model, o, self.nodes.len()) {
                return false;
            }
            let new_fact = if o.node < self.base {
                &nodes[o.node].outputs[o.slot]
            } else {
                &self.nodes[o.node - self.base].outputs[o.slot]
            };
            if !agree(new_fact, &nodes[self.replaced].outputs[s]) {
                return false;
            }
            s += 1;
        }
        true
    }

    /// The nodes that each node reads once the patch is merged.
    #[verifier::loop_isolation(false)]
    fn merged_deps(&self, model: &Model) -> (r: Vec<Vec<usize>>)
        requires
            self.base == model.node_seq().len(),
        ensures
            graph_of(r@) == merged(model.node_seq(), *self),
    {
        let nodes = model.nodes();
        let mut out: Vec<Vec<usize>> = Vec::new();
        let ghost want = merged(nodes@, *self);
        let mut v: usize = 0;
        while v < nodes.len()
            invariant
                v <= nodes.len(),
                out@.len() == v,
                forall|a: int| 0 <= a < v ==> (#[trigger] out@[a])@ == want[a],
            decreases nodes.len() - v,
        {
            let mut row: Vec<usize> = Vec::new();
            let mut k: usize = 0;
            while k < nodes[v].inputs.len()
                invariant
                    v < nodes.len(),
                    k <= nodes@[v as int].inputs@.len(),
                    row@.len() == k,
                    forall|j: int| 0 <= j < k ==> row@[j] == want[v as int][j],
                decreases nodes@[v as int].inputs@.len() - k,
            {
                let o = nodes[v].inputs[k];
                if v != self.replaced && o.node == self.replaced && o.slot < self.shunts.len() {
                    row.push(self.shunts[o.slot].node);
                } else {
                    row.push(o.node);
                }
                k += 1;
            }
            proof {
                assert(row@ =~= want[v as int]);
            }
            out.push(row);
            v += 1;
        }
        let mut p: usize = 0;
        while p < self.nodes.len()
            invariant
                p <= self.nodes.len(),
                out@.len() == nodes@.len() + p,
                forall|a: int| 0 <= a < nodes@.len() + p ==> (#[trigger] out@[a])@ == want[a],
            decreases self.nodes.len() - p,
        {
            let mut row: Vec<usize> = Vec::new();
            let mut k: usize = 0;
            while k < self.nodes[p].inputs.len()
                invariant
                    p < self.nodes.len(),
                    k <= self.nodes@[p as int].inputs@.len(),
                    row@.len() == k,
                    forall|j: int| 0 <= j < k ==> row@[j] == self.nodes@[p as int].inputs@[j].node,
                decreases self.nodes@[p as int].inputs@.len() - k,
            {
                row.push(self.nodes[p].inputs[k].node);
                k += 1;
            }
            proof {
                assert(row@ =~= want[nodes@.len() + p]);
            }
            out.push(row);
            p += 1;
        }
        proof {
            assert(graph_of(out@) =~= want);
        }
        out
    }

    /// Whether the patch can be merged into `model`.
    pub fn validate(&self, model: &Model) -> (r: bool)
        ensures
            r == valid(model.node_seq(), *self),
    {
        if !self.fits(model) {
            return false;
        }
        let deps = self.merged_deps(model);
        graph_is_acyclic(&deps)
    }

    /// The patch that puts the operator `op` in the place of the node
    /// `node`, on its first input and with what is known of its one
    /// output. There is none for a node that does not exist, has no input
    /// or has not exactly one output.
    pub fn single_unary_op(model: &Model, node: usize, op: Op) -> (r: Result<ModelPatch, TractError>)
        requires
            model.wf(),
        ensures
            unary(model.node_seq(), node) ==> r is Ok && r->Ok_0.base == model.node_seq().len() && r->Ok_0.replaced
                == node && r->Ok_0.nodes@.len() == 1 && r->Ok_0.nodes@[0].op == op && r->Ok_0.nodes@[0].name@
                == model.node_seq()[node as int].name@ && r->Ok_0.nodes@[0].inputs@
                == seq![model.node_seq()[node as int].inputs@[0]] && r->Ok_0.nodes@[0].outputs@.len() == 1
                && r->Ok_0.nodes@[0].outputs@[0]@ == model.node_seq()[node as int].outputs@[0]@ && r->Ok_0.shunts@
                == seq![OutletId { node: model.node_seq().len() as usize, slot: 0 }],
            !unary(model.node_seq(), node) ==> r is Err && r->Err_0 == TractError::RewriteRejected,
    {
        let nodes = model.nodes();
        if node >= nodes.len() {
            return Err(TractError::RewriteRejected);
        }
        let old = &nodes[node];
        if old.inputs.len() == 0 || old.outputs.len() != 1 {
            return Err(TractError::RewriteRejected);
        }
        let mut inputs: Vec<OutletId> = Vec::new();
        inputs.push(old.inputs[0]);
        let mut outputs: Vec<TensorFact> = Vec::new();
        outputs.push(old.outputs[0].duplicate());
        let mut staged: Vec<PatchNode> = Vec::new();
        staged.push(PatchNode { name: old.name.clone(), op, inputs, outputs });
        let mut shunts: Vec<OutletId> = Vec::new();
        shunts.push(OutletId { node: nodes.len(), slot: 0 });
        proof {
            assert(inputs@ =~= seq![old.inputs@[0]]);
            assert(shunts@ =~= seq![OutletId { node: nodes@.len() as usize, slot: 0 }]);
        }
        Ok(ModelPatch { base: nodes.len(), replaced: node, nodes: staged, shunts })
    }

    /// Merges the patch into `model`, if it is valid for it. A patch that
    /// is not is rejected, and the graph stays as it was.
    pub fn apply(self, model: &mut Model) -> (r: Result<(), TractError>)
        requires
            old(model).wf(),
        ensures
            final(model).wf(),
            final(model).input_seq() == old(model).input_seq(),
            valid(old(model).node_seq(), self) ==> r is Ok && applied(
                old(model).node_seq(),
                final(model).node_seq(),
                self,
            ) && final(model).output_seq() == Seq::new(
                old(model).output_seq().len(),
                |i: int| rewired(old(model).output_seq()[i], self.replaced, self.shunts@),
            ) && acyclic(deps_of(final(model).node_seq())) && detached(final(model).node_seq(), self.replaced),
            !valid(old(model).node_seq(), self) ==> r == Err::<(), TractError>(TractError::RewriteRejected) && final(model).node_seq() == old(model).node_seq() && final(model).output_seq() == old(model).output_seq(),
    {
        if !self.validate(model) {
            return Err(TractError::RewriteRejected);
        }
        let ghost before = model.node_seq();
        let ghost patch = self;
        let ModelPatch { base, replaced, nodes, shunts } = self;
        let mut staged = nodes;
        let count = staged.len();
        let mut k: usize = 0;
        while k < count
            invariant
                k <= count,
                count == patch.nodes@.len(),
                base == before.len(),
                replaced == patch.replaced,
                shunts == patch.shunts,
                well_built(before, patch),
                nodes_linked(before),
                model.wf(),
                model.input_seq() == old(model).input_seq(),
                model.output_seq() == old(model).output_seq(),
                staged@ == patch.nodes@.skip(k as int),
                model.node_seq().len() == before.len() + k,
                model.node_seq().take(before.len() as int) == before,
                forall|a: int|
                    0 <= a < k ==> {
                        let n = #[trigger] model.node_seq()[before.len() + a];
                        &&& n.id == before.len() + a
                        &&& n.name == patch.nodes@[a].name
                        &&& n.op == patch.nodes@[a].op
                        &&& n.inputs == patch.nodes@[a].inputs
                        &&& n.outputs == patch.nodes@[a].outputs
                    },
            decreases count - k,
        {
            let ghost mid = model.node_seq();
            let node = staged.remove(0);
            proof {
                assert(node == patch.nodes@[k as int]);
                assert(staged@ =~= patch.nodes@.skip(k + 1));
                assert forall|j: int| 0 <= j < node.inputs@.len() implies outlet_exists(
                    mid,
                    #[trigger] node.inputs@[j],
                ) by {
                    let o = node.inputs@[j];
                    assert(patch_outlet_exists(before, patch, patch.nodes@[k as int].inputs@[j], k as int));
                    if o.node < base {
                        assert(mid.take(before.len() as int)[o.node as int] == before[o.node as int]);
                    } else {
                        let a = o.node - base;
                        assert(mid[before.len() + a].outputs == patch.nodes@[a].outputs);
                    }
                }
            }
            let PatchNode { name, op, inputs, outputs } = node;
            let _ = model.append(name, op, inputs, outputs);
            proof {
                let now = model.node_seq();
                assert(now.drop_last() == mid);
                assert(now.take(before.len() as int) =~= before) by {
                    assert forall|v: int| 0 <= v < before.len() implies now.take(before.len() as int)[v]
                        == before[v] by {
                        assert(now[v] == now.drop_last()[v]);
                        assert(mid[v] == mid.take(before.len() as int)[v]);
                    }
                }
                assert forall|a: int| 0 <= a < k + 1 implies {
                    let n = #[trigger] now[before.len() + a];
                    &&& n.id == before.len() + a
                    &&& n.name == patch.nodes@[a].name
                    &&& n.op == patch.nodes@[a].op
                    &&& n.inputs == patch.nodes@[a].inputs
                    &&& n.outputs == patch.nodes@[a].outputs
                } by {
                    if a < k {
                        assert(now[before.len() + a] == now.drop_last()[before.len() + a]);
                        assert(mid[before.len() + a].id == before.len() + a);
                    }
                }
            }
            k += 1;
        }
        let ghost grown = model.node_seq();
        proof {
            assert forall|s: int| 0 <= s < shunts@.len() implies outlet_exists(grown, #[trigger] shunts@[s]) by {
                let o = shunts@[s];
                assert(patch_outlet_exists(before, patch, patch.shunts@[s], patch.nodes@.len() as int));
                if o.node < base {
                    assert(grown.take(before.len() as int)[o.node as int] == before[o.node as int]);
                } else {
                    let a = o.node - base;
                    assert(grown[before.len() + a].outputs == patch.nodes@[a].outputs);
                }
            }
        }
        model.shunt(replaced, &shunts);
        proof {
            let after = model.node_seq();
            // the nodes of the graph
            assert(shunted(before, after.take(before.len() as int), replaced, shunts@)) by {
                assert forall|a: int| 0 <= a < before.len() implies same_but_inputs(
                    before[a],
                    #[trigger] after.take(before.len() as int)[a],
                ) by {
                    assert(same_but_inputs(grown[a], after[a]));
                    assert(grown.take(before.len() as int)[a] == before[a]);
                }
                assert forall|a: int| 0 <= a < before.len() implies (#[trigger] after.take(
                    before.len() as int,
                )[a]).inputs@ == if a == replaced {
                    before[a].inputs@
                } else {
                    Seq::new(before[a].inputs@.len(), |k: int| rewired(before[a].inputs@[k], replaced, shunts@))
                } by {
                    assert(grown.take(before.len() as int)[a] == before[a]);
                    assert(after[a].inputs@ == if a == replaced {
                        grown[a].inputs@
                    } else {
                        Seq::new(grown[a].inputs@.len(), |k: int| rewired(grown[a].inputs@[k], replaced, shunts@))
                    });
                }
            }
            // the nodes of the patch
            assert forall|a: int| 0 <= a < patch.nodes@.len() implies {
                let n = #[trigger] after[before.len() + a];
                &&& n.id == before.len() + a
                &&& n.name == patch.nodes@[a].name
                &&& n.op == patch.nodes@[a].op
                &&& n.inputs@ == patch.nodes@[a].inputs@
                &&& n.outputs == patch.nodes@[a].outputs
            } by {
                let g = grown[before.len() + a];
                let n = after[before.len() + a];
                assert(same_but_inputs(g, n));
                assert(g.id == before.len() + a);
                assert(n.inputs@ =~= patch.nodes@[a].inputs@) by {
                    assert forall|j: int| 0 <= j < g.inputs@.len() implies rewired(g.inputs@[j], replaced, shunts@)
                        == g.inputs@[j] by {
                        assert(patch_outlet_exists(before, patch, patch.nodes@[a].inputs@[j], a));
                    }
                }
            }
            assert(applied(before, after, patch));
            // no cycle
            assert(deps_of(after) =~= merged(before, patch)) by {
                assert forall|v: int| 0 <= v < after.len() implies deps_of(after)[v] =~= merged(before, patch)[v] by {
                    if v < before.len() {
                        assert(after.take(before.len() as int)[v] == after[v]);
                    } else {
                        assert(after[before.len() + (v - before.len())].inputs@ == patch.nodes@[v
                            - before.len()].inputs@);
                    }
                }
            }
            // the replaced node is detached
            assert forall|v: int, j: int|
                0 <= v < after.len() && v != replaced && 0 <= j < after[v].inputs@.len() implies (#[trigger] after[v].inputs@[j]).node
                != replaced by {
                if v < before.len() {
                    assert(after.take(before.len() as int)[v] == after[v]);
                    let o = before[v].inputs@[j];
                    assert(outlet_exists(before, o));
                    if o.node == replaced {
                        assert(patch_outlet_exists(
                            before,
                            patch,
                            patch.shunts@[o.slot as int],
                            patch.nodes@.len() as int,
                        ));
                    }
                } else {
                    let a = v - before.len();
                    assert(after[before.len() + a].inputs@ == patch.nodes@[a].inputs@);
                    assert(patch_outlet_exists(before, patch, patch.nodes@[a].inputs@[j], a));
                }
            }
        }
        Ok(())
    }
}

/// The node exists, reads at least one outlet and has exactly one output.
pub open spec fn unary(nodes: Seq<Node<Op>>, node: usize) -> bool {
    node < nodes.len() && nodes[node as int].inputs@.len() > 0 && nodes[node as int].outputs@.len() == 1
}

} // verus!
