//! The declutter pass: operators whose inputs are known well enough are
//! replaced by simpler ones, node by node, until a whole pass over the
//! graph finds nothing more to replace.

use vstd::prelude::*;
use crate::dim::TDim;
use crate::errors::TractError;
use crate::facts::ValueFact;
use crate::model::{deps_of, live, outlet_exists, same_but_inputs, Model, Node, OutletId};
use crate::ops::Op;
use crate::order::acyclic;
use crate::patch::{applied, valid, ModelPatch};
use crate::tensor::TensorValue;
use crate::tf::strided_slice::Specialized;

verus! {

/// What is known of the tensor that input `k` of `node` reads.
pub open spec fn input_fact(nodes: Seq<Node<Op>>, node: usize, k: int) -> crate::facts::FactValue {
    let o = nodes[node as int].inputs@[k];
    nodes[o.node as int].outputs@[o.slot as int]@
}

/// What the declutter pass knows of a strided slice: the axes of its
/// input, and its three constants. It knows them where the node has four
/// inputs and one output, every axis of the first input is known, and the
/// other three inputs are constants.
pub open spec fn slice_facts(nodes: Seq<Node<Op>>, node: usize) -> Option<
    (Seq<TDim>, TensorValue, TensorValue, TensorValue),
> {
    if node < nodes.len() && nodes[node as int].inputs@.len() == 4 && nodes[node as int].outputs@.len() == 1 {
        match (
            input_fact(nodes, node, 0).shape.concrete(),
            input_fact(nodes, node, 1).value,
            input_fact(nodes, node, 2).value,
            input_fact(nodes, node, 3).value,
        ) {
            (Some(d), Some(b), Some(e), Some(s)) => Some((d, b, e, s)),
            _ => None,
        }
    } else {
        None
    }
}

/// What the declutter pass finds for a node: a strided slice of which
/// enough is known may have a plain slice that does the same; any other
/// node stays as it is.
pub open spec fn proposal(nodes: Seq<Node<Op>>, node: usize) -> Specialized {
    if node < nodes.len() {
        match (nodes[node as int].op, slice_facts(nodes, node)) {
            (Op::StridedSlice(base), Some((d, b, e, s))) => base.specialized(d, b, e, s),
            _ => Specialized::Unchanged,
        }
    } else {
        Specialized::Unchanged
    }
}

/// `patch` puts the plain slice with the cuts `prune` in the place of
/// `node`, on its first input.
pub open spec fn is_slice_patch(nodes: Seq<Node<Op>>, node: usize, prune: Seq<(usize, usize)>, patch: ModelPatch) -> bool {
    &&& node < nodes.len()
    &&& nodes[node as int].inputs@.len() > 0
    &&& patch.base == nodes.len()
    &&& patch.replaced == node
    &&& patch.nodes@.len() == 1
    &&& patch.nodes@[0].op matches Op::Slice(s) && s.prune@ == prune
    &&& patch.nodes@[0].name@ == nodes[node as int].name@
    &&& patch.nodes@[0].inputs@ == seq![nodes[node as int].inputs@[0]]
    &&& patch.nodes@[0].outputs@.len() == 1
    &&& patch.nodes@[0].outputs@[0]@ == nodes[node as int].outputs@[0]@
    &&& patch.shunts@ == seq![OutletId { node: nodes.len() as usize, slot: 0 }]
}

/// Looks for a simpler operator to put in the place of `node`, from what
/// is known of its inputs: see `proposal`. `Ok(None)` says that the node
/// stays as it is.
pub fn propose(model: &Model, node: usize) -> (r: Result<Option<ModelPatch>, TractError>)
    requires
        model.wf(),
    ensures
        match proposal(model.node_seq(), node) {
            Specialized::Failed => r is Err && r->Err_0 == TractError::EvalError,
            Specialized::Unchanged => r is Ok && r->Ok_0 is None,
            Specialized::Pruned(p) => r is Ok && r->Ok_0 is Some && is_slice_patch(
                model.node_seq(),
                node,
                p,
                r->Ok_0->Some_0,
            ),
        },
{
    let nodes = model.nodes();
    if node >= nodes.len() {
        return Ok(None);
    }
    let n = &nodes[node];
    match &n.op {
        Op::StridedSlice(base) => {
            if n.inputs.len() != 4 || n.outputs.len() != 1 {
                return Ok(None);
            }
            proof {
                assert(crate::model::nodes_linked(nodes@));
                assert(outlet_exists(nodes@, nodes@[node as int].inputs@[0]));
                assert(outlet_exists(nodes@, nodes@[node as int].inputs@[1]));
                assert(outlet_exists(nodes@, nodes@[node as int].inputs@[2]));
                assert(outlet_exists(nodes@, nodes@[node as int].inputs@[3]));
            }
            let input = &nodes[n.inputs[0].node].outputs[n.inputs[0].slot];
            let begin = &nodes[n.inputs[1].node].outputs[n.inputs[1].slot];
            let end = &nodes[n.inputs[2].node].outputs[n.inputs[2].slot];
            let strides = &nodes[n.inputs[3].node].outputs[n.inputs[3].slot];
            let dims = match input.shape.concrete() {
                Some(d) => d,
                None => {
                    return Ok(None);
                },
            };
            match (&begin.value, &end.value, &strides.value) {
                (ValueFact::Only(b), ValueFact::Only(e), ValueFact::Only(s)) => {
                    match base.specialize(&dims, b, e, s) {
                        Ok(Some(slice)) => {
                            match ModelPatch::single_unary_op(model, node, Op::Slice(slice)) {
                                Ok(patch) => Ok(Some(patch)),
                                Err(_) => Ok(None),
                            }
                        },
                        Ok(None) => Ok(None),
                        Err(e) => Err(e),
                    }
                },
                _ => Ok(None),
            }
        },
        _ => Ok(None),
    }
}

/// How many of the marks are not set.
pub open spec fn unmarked(marks: Seq<bool>) -> nat
    decreases marks.len(),
{
    if marks.len() == 0 {
        0
    } else {
        unmarked(marks.drop_last()) + if marks.last() {
            0nat
        } else {
            1nat
        }
    }
}

proof fn lemma_unmarked_update(marks: Seq<bool>, i: int)
    requires
        0 <= i < marks.len(),
        !marks[i],
    ensures
        unmarked(marks.update(i, true)) < unmarked(marks),
    decreases marks.len(),
{
    if i == marks.len() - 1 {
        assert(marks.update(i, true).drop_last() =~= marks.drop_last());
    } else {
        assert(marks.update(i, true).drop_last() =~= marks.drop_last().update(i, true));
        lemma_unmarked_update(marks.drop_last(), i);
    }
}

/// The graph `after` holds the nodes of `before` under their ids, with
/// their names, operators and outputs; it may hold more nodes.
pub open spec fn grown(before: Seq<Node<Op>>, after: Seq<Node<Op>>) -> bool {
    &&& after.len() >= before.len()
    &&& forall|v: int| 0 <= v < before.len() ==> same_but_inputs(before[v], #[trigger] after[v])
}

/// No patch that the pass would propose for `node` can be merged.
pub open spec fn settled(nodes: Seq<Node<Op>>, node: usize) -> bool {
    forall|patch: ModelPatch, p: Seq<(usize, usize)>|
        proposal(nodes, node) == Specialized::Pruned(p) && #[trigger] is_slice_patch(nodes, node, p, patch) ==> !valid(
            nodes,
            patch,
        )
}

/// Two patches that put the same plain slice in the place of the same node
/// are valid together or not at all.
proof fn lemma_slice_patch_validity(
    nodes: Seq<Node<Op>>,
    node: usize,
    prune: Seq<(usize, usize)>,
    a: ModelPatch,
    b: ModelPatch,
)
    requires
        is_slice_patch(nodes, node, prune, a),
        is_slice_patch(nodes, node, prune, b),
    ensures
        valid(nodes, a) == valid(nodes, b),
{
    assert(crate::patch::merged(nodes, a) =~= crate::patch::merged(nodes, b)) by {
        assert forall|v: int| 0 <= v < nodes.len() + 1 implies crate::patch::merged(nodes, a)[v]
            =~= crate::patch::merged(nodes, b)[v] by {}
    }
    assert(a.nodes@[0].inputs@[0] == b.nodes@[0].inputs@[0]);
    assert(a.shunts@[0] == b.shunts@[0]);
}

/// The outlet that stands for `o` once the nodes `replaced` are replaced,
/// the first by the node `base`, the second by the node `base + 1` and so
/// on: an outlet of a replaced node is the outlet of the node that stands
/// for it; any other outlet is itself.
pub open spec fn stand_in(replaced: Seq<usize>, base: nat, o: OutletId) -> OutletId {
    if replaced.contains(o.node) {
        OutletId { node: (base + replaced.index_of(o.node)) as usize, slot: o.slot }
    } else {
        o
    }
}

/// The node that stands for the `i`th replaced node is the plain slice that
/// was proposed for it when the pass began; it reads what stands for the
/// first input of the replaced node, and of its output is known what was
/// known of the output of the replaced node.
pub open spec fn new_node_fits(start: Seq<Node<Op>>, nodes: Seq<Node<Op>>, replaced: Seq<usize>, i: int) -> bool {
    let w = replaced[i];
    let n = nodes[start.len() + i];
    &&& w < start.len()
    &&& start[w as int].inputs@.len() > 0
    &&& start[w as int].outputs@.len() == 1
    &&& n.inputs@ == seq![stand_in(replaced, start.len(), start[w as int].inputs@[0])]
    &&& n.outputs@.len() == 1
    &&& n.outputs@[0]@ == start[w as int].outputs@[0]@
    &&& n.op matches Op::Slice(s) && proposal(start, w) == Specialized::Pruned(s.prune@)
}

/// The graph `nodes`, with the designated outputs `outs`, is the graph
/// `start` with the nodes `replaced` replaced: every node of `start` that
/// was not replaced reads what stands for what it read, the designated
/// outputs are what stands for those of `start`, and the new nodes fit.
pub open spec fn rewired_as(
    start: Seq<Node<Op>>,
    start_outs: Seq<OutletId>,
    nodes: Seq<Node<Op>>,
    outs: Seq<OutletId>,
    replaced: Seq<usize>,
) -> bool {
    &&& nodes.len() == start.len() + replaced.len()
    &&& nodes.len() <= usize::MAX
    &&& replaced.no_duplicates()
    &&& forall|v: int|
        0 <= v < start.len() ==> (#[trigger] nodes[v]).inputs@.len() == start[v].inputs@.len() && nodes[v].outputs
            == start[v].outputs && nodes[v].op == start[v].op
    &&& forall|v: int, k: int|
        0 <= v < start.len() && !replaced.contains(v as usize) && 0 <= k < start[v].inputs@.len()
            ==> (#[trigger] nodes[v].inputs@[k]) == stand_in(replaced, start.len(), start[v].inputs@[k])
    &&& forall|i: int| 0 <= i < replaced.len() ==> #[trigger] new_node_fits(start, nodes, replaced, i)
    &&& outs == Seq::new(start_outs.len(), |j: int| stand_in(replaced, start.len(), start_outs[j]))
}

/// What stands for an outlet once one more node is replaced.
proof fn lemma_stand_in_push(replaced: Seq<usize>, base: nat, w: usize, o: OutletId)
    requires
        replaced.no_duplicates(),
        !replaced.contains(w),
    ensures
        replaced.push(w).no_duplicates(),
        replaced.push(w).contains(w),
        stand_in(replaced.push(w), base, o) == if o.node == w {
            OutletId { node: (base + replaced.len()) as usize, slot: o.slot }
        } else {
            stand_in(replaced, base, o)
        },
        forall|x: usize| replaced.push(w).contains(x) <==> (x == w || replaced.contains(x)),
{
    let more = replaced.push(w);
    assert forall|i: int, j: int| 0 <= i < more.len() && 0 <= j < more.len() && i != j implies more[i] != more[j] by {
        if i < replaced.len() {
            assert(replaced.contains(replaced[i]));
        }
        if j < replaced.len() {
            assert(replaced.contains(replaced[j]));
        }
    }
    assert(more[replaced.len() as int] == w);
    assert forall|x: usize| more.contains(x) <==> (x == w || replaced.contains(x)) by {
        if replaced.contains(x) {
            let i = choose|i: int| 0 <= i < replaced.len() && replaced[i] == x;
            assert(more[i] == x);
        }
        if more.contains(x) {
            let i = choose|i: int| 0 <= i < more.len() && more[i] == x;
            if i < replaced.len() {
                assert(replaced[i] == x);
            }
        }
    }
    if o.node == w {
        let i = more.index_of(w);
        assert(more[i] == more[replaced.len() as int]);
    } else if replaced.contains(o.node) {
        let i = replaced.index_of(o.node);
        let j = more.index_of(o.node);
        assert(more[i] == o.node);
        assert(more[j] == more[i]);
    }
}

/// What the pass finds for a node that was not replaced is what it found
/// for it when the pass began: the nodes that stand for replaced nodes
/// carry what was known of those.
proof fn lemma_proposal_kept(
    start: Seq<Node<Op>>,
    start_outs: Seq<OutletId>,
    nodes: Seq<Node<Op>>,
    outs: Seq<OutletId>,
    replaced: Seq<usize>,
    v: usize,
)
    requires
        crate::model::nodes_linked(start),
        rewired_as(start, start_outs, nodes, outs, replaced),
        v < start.len(),
        !replaced.contains(v),
    ensures
        proposal(nodes, v) == proposal(start, v),
{
    let n0 = start.len();
    assert(nodes[v as int].op == start[v as int].op);
    assert forall|k: int| 0 <= k < start[v as int].inputs@.len() implies input_fact(nodes, v, k) == input_fact(
        start,
        v,
        k,
    ) by {
        let o = start[v as int].inputs@[k];
        assert(outlet_exists(start, start[v as int].inputs@[k]));
        assert(nodes[v as int].inputs@[k] == stand_in(replaced, n0, o));
        if replaced.contains(o.node) {
            let i = replaced.index_of(o.node);
            assert(0 <= i < replaced.len() && replaced[i] == o.node);
            assert(new_node_fits(start, nodes, replaced, i));
            assert(o.slot == 0);
            let new = stand_in(replaced, n0, o);
            assert(new.node == n0 + i);
            assert(nodes[new.node as int].outputs@[0]@ == start[o.node as int].outputs@[0]@);
        } else {
            assert(nodes[o.node as int].outputs == start[o.node as int].outputs);
        }
    }
    if start[v as int].inputs@.len() == 4 {
        assert(input_fact(nodes, v, 0) == input_fact(start, v, 0));
        assert(input_fact(nodes, v, 1) == input_fact(start, v, 1));
        assert(input_fact(nodes, v, 2) == input_fact(start, v, 2));
        assert(input_fact(nodes, v, 3) == input_fact(start, v, 3));
    }
}

/// Merging the patch that was proposed for `w` keeps the graph the graph
/// it began as, with one more node replaced.
proof fn lemma_rewired_step(
    start: Seq<Node<Op>>,
    start_outs: Seq<OutletId>,
    before: Seq<Node<Op>>,
    outs: Seq<OutletId>,
    after: Seq<Node<Op>>,
    outs_after: Seq<OutletId>,
    patch: ModelPatch,
    w: usize,
    prune: Seq<(usize, usize)>,
    replaced: Seq<usize>,
)
    requires
        crate::model::nodes_linked(start),
        forall|j: int| 0 <= j < start_outs.len() ==> outlet_exists(start, #[trigger] start_outs[j]),
        rewired_as(start, start_outs, before, outs, replaced),
        w < start.len(),
        !replaced.contains(w),
        proposal(before, w) == Specialized::Pruned(prune),
        is_slice_patch(before, w, prune, patch),
        valid(before, patch),
        applied(before, after, patch),
        outs_after == Seq::new(outs.len(), |i: int| crate::model::rewired(outs[i], patch.replaced, patch.shunts@)),
    ensures
        rewired_as(start, start_outs, after, outs_after, replaced.push(w)),
{
    let n0 = start.len();
    let base = before.len();
    let more = replaced.push(w);
    lemma_proposal_kept(start, start_outs, before, outs, replaced, w);
    assert(start[w as int].outputs@.len() == 1);
    assert(patch.shunts@ =~= seq![OutletId { node: base as usize, slot: 0 }]);
    assert forall|o: OutletId| true implies stand_in(more, n0, o) == if o.node == w {
        OutletId { node: (n0 + replaced.len()) as usize, slot: o.slot }
    } else {
        stand_in(replaced, n0, o)
    } by {
        lemma_stand_in_push(replaced, n0, w, o);
    }
    lemma_stand_in_push(replaced, n0, w, OutletId { node: 0, slot: 0 });
    // what reads slot 0 of `w` reads the new node; every slot of `w` is slot 0
    assert forall|v: int| 0 <= v < n0 implies (#[trigger] after[v]).inputs@.len() == start[v].inputs@.len()
        && after[v].outputs == start[v].outputs && after[v].op == start[v].op by {
        assert(after.take(base as int)[v] == after[v]);
        assert(same_but_inputs(before[v], after.take(base as int)[v]));
        assert(before[v].op == start[v].op);
    }
    assert forall|v: int, k: int|
        0 <= v < n0 && !more.contains(v as usize) && 0 <= k < start[v].inputs@.len() implies (#[trigger] after[v].inputs@[k])
        == stand_in(more, n0, start[v].inputs@[k]) by {
        let o = start[v].inputs@[k];
        assert(outlet_exists(start, start[v].inputs@[k]));
        assert(after.take(base as int)[v] == after[v]);
        assert(before[v].inputs@[k] == stand_in(replaced, n0, o));
        assert(before[v].inputs@.len() == start[v].inputs@.len());
        if o.node == w {
            assert(o.slot == 0);
        }
    }
    assert forall|i: int| 0 <= i < more.len() implies #[trigger] new_node_fits(start, after, more, i) by {
        if i < replaced.len() {
            assert(new_node_fits(start, before, replaced, i));
            assert(more[i] == replaced[i]);
            let x = replaced[i];
            let o = start[x as int].inputs@[0];
            assert(outlet_exists(start, start[x as int].inputs@[0]));
            assert(after.take(base as int)[n0 + i] == after[n0 + i]);
            assert(same_but_inputs(before[n0 + i], after.take(base as int)[n0 + i]));
            assert(before[n0 + i].inputs@[0] == stand_in(replaced, n0, o));
            if o.node == w {
                assert(o.slot == 0);
            }
            assert(after[n0 + i].inputs@ =~= seq![stand_in(more, n0, o)]);
        } else {
            assert(more[i] == w);
            let o = start[w as int].inputs@[0];
            assert(outlet_exists(start, start[w as int].inputs@[0]));
            assert(after[(base + 0) as int].inputs@ == patch.nodes@[0].inputs@);
            assert(before[w as int].inputs@[0] == stand_in(replaced, n0, o));
            assert(o.node != w) by {
                if o.node == w {
                    assert(crate::patch::patch_outlet_exists(before, patch, patch.nodes@[0].inputs@[0], 0));
                }
            }
            assert(after[n0 + i].inputs@ =~= seq![stand_in(more, n0, o)]);
            assert(after[(base + 0) as int].outputs == patch.nodes@[0].outputs);
            assert(before[w as int].outputs == start[w as int].outputs);
        }
    }
    assert(outs_after =~= Seq::new(start_outs.len(), |j: int| stand_in(more, n0, start_outs[j]))) by {
        assert forall|j: int| 0 <= j < start_outs.len() implies outs_after[j] == stand_in(more, n0, start_outs[j]) by {
            assert(outlet_exists(start, start_outs[j]));
            assert(outs[j] == stand_in(replaced, n0, start_outs[j]));
            if start_outs[j].node == w {
                assert(start_outs[j].slot == 0);
            }
        }
    }
}

/// The node `v` is out of use: no other node reads it, and it is no
/// designated output.
pub open spec fn retired(nodes: Seq<Node<Op>>, outs: Seq<OutletId>, v: usize) -> bool {
    &&& crate::patch::detached(nodes, v)
    &&& forall|i: int| 0 <= i < outs.len() ==> (#[trigger] outs[i]).node != v
}

/// The node `new` is a plain slice that was put in the place of the strided
/// slice `v`, under its name.
pub open spec fn stands_for(nodes: Seq<Node<Op>>, new: int, v: usize) -> bool {
    &&& 0 <= new < nodes.len()
    &&& v < nodes.len()
    &&& nodes[new].op is Slice
    &&& nodes[v as int].op is StridedSlice
    &&& nodes[new].name@ == nodes[v as int].name@
    &&& nodes[new].id == new
}

/// Merging a valid patch that puts a plain slice in the place of `v` takes
/// `v` out of use, and keeps out of use what was.
proof fn lemma_patch_retires(
    before: Seq<Node<Op>>,
    outs: Seq<OutletId>,
    after: Seq<Node<Op>>,
    outs_after: Seq<OutletId>,
    patch: ModelPatch,
    v: usize,
    prune: Seq<(usize, usize)>,
)
    requires
        crate::model::nodes_linked(before),
        forall|i: int| 0 <= i < outs.len() ==> outlet_exists(before, #[trigger] outs[i]),
        is_slice_patch(before, v, prune, patch),
        valid(before, patch),
        applied(before, after, patch),
        crate::patch::detached(after, v),
        outs_after == Seq::new(outs.len(), |i: int| crate::model::rewired(outs[i], patch.replaced, patch.shunts@)),
    ensures
        retired(after, outs_after, v),
        forall|u: usize| u < before.len() && u != v && retired(before, outs, u) ==> retired(after, outs_after, u),
{
    let base = before.len() as int;
    assert(patch.shunts@.len() == before[v as int].outputs@.len());
    assert(patch.shunts@[0] == OutletId { node: base as usize, slot: 0 });
    assert forall|i: int| 0 <= i < outs_after.len() implies (#[trigger] outs_after[i]).node != v by {
        assert(outlet_exists(before, outs[i]));
    }
    assert forall|u: usize| u < before.len() && u != v && retired(before, outs, u) implies retired(
        after,
        outs_after,
        u,
    ) by {
        assert forall|a: int, k: int|
            0 <= a < after.len() && a != u && 0 <= k < after[a].inputs@.len() implies (#[trigger] after[a].inputs@[k]).node
            != u by {
            if a < base {
                assert(after.take(base)[a] == after[a]);
                if a != v {
                    assert(before[a].inputs@[k].node != u);
                } else {
                    assert(before[a].inputs@[k].node != u);
                }
            } else {
                assert(after[base + 0].inputs@ == patch.nodes@[0].inputs@);
                assert(before[v as int].inputs@[0].node != u);
            }
        }
        assert forall|i: int| 0 <= i < outs_after.len() implies (#[trigger] outs_after[i]).node != u by {
            assert(outs[i].node != u);
        }
    }
}

/// Some node that is in use holds a strided slice whose bounds cannot be
/// read.
pub open spec fn obstructed(nodes: Seq<Node<Op>>, outs: Seq<OutletId>) -> bool {
    exists|v: usize| v < nodes.len() && live(nodes, outs, v) && #[trigger] proposal(nodes, v) is Failed
}

/// No patch that the pass would propose for a node in use can be merged.
pub open spec fn calm(nodes: Seq<Node<Op>>, outs: Seq<OutletId>) -> bool {
    forall|v: usize| v < nodes.len() && live(nodes, outs, v) ==> #[trigger] settled(nodes, v)
}

/// Every node of `start` that was not replaced is in use in `nodes` exactly
/// if it was in `start`.
pub open spec fn use_kept(
    start: Seq<Node<Op>>,
    start_outs: Seq<OutletId>,
    nodes: Seq<Node<Op>>,
    outs: Seq<OutletId>,
    replaced: Seq<usize>,
) -> bool {
    forall|u: usize|
        u < start.len() && !replaced.contains(u) ==> #[trigger] live(nodes, outs, u) == live(start, start_outs, u)
}

/// Merging a patch that puts a plain slice in the place of `w` leaves every
/// other node of the graph in use exactly if it was.
proof fn lemma_patch_keeps_use(
    before: Seq<Node<Op>>,
    outs: Seq<OutletId>,
    after: Seq<Node<Op>>,
    outs_after: Seq<OutletId>,
    patch: ModelPatch,
    w: usize,
    prune: Seq<(usize, usize)>,
    u: usize,
)
    requires
        is_slice_patch(before, w, prune, patch),
        applied(before, after, patch),
        outs_after == Seq::new(outs.len(), |i: int| crate::model::rewired(outs[i], patch.replaced, patch.shunts@)),
        u < before.len(),
        u != w,
    ensures
        live(after, outs_after, u) == live(before, outs, u),
{
    let base = before.len() as int;
    assert(patch.shunts@[0] == OutletId { node: base as usize, slot: 0 });
    assert(patch.shunts@.len() == 1);
    if live(before, outs, u) {
        if crate::model::read_by(before, u) {
            let (a, k) = choose|a: int, k: int|
                0 <= a < before.len() && 0 <= k < before[a].inputs@.len() && (#[trigger] before[a].inputs@[k]).node
                    == u;
            assert(after.take(base)[a] == after[a]);
            assert(after[a].inputs@[k].node == u);
            assert(crate::model::read_by(after, u));
        } else {
            let i = choose|i: int| 0 <= i < outs.len() && (#[trigger] outs[i]).node == u;
            assert(outs_after[i].node == u);
        }
    }
    if live(after, outs_after, u) {
        if crate::model::read_by(after, u) {
            let (a, k) = choose|a: int, k: int|
                0 <= a < after.len() && 0 <= k < after[a].inputs@.len() && (#[trigger] after[a].inputs@[k]).node
                    == u;
            if a < base {
                assert(after.take(base)[a] == after[a]);
                assert(before[a].inputs@[k].node == u);
            } else {
                assert(after[base + 0].inputs@ == patch.nodes@[0].inputs@);
                assert(before[w as int].inputs@[0].node == u);
            }
            assert(crate::model::read_by(before, u));
        } else {
            let i = choose|i: int| 0 <= i < outs_after.len() && (#[trigger] outs_after[i]).node == u;
            assert(outs[i].node == u);
        }
    }
}

/// Merging the patch that was proposed for `w` keeps in use what was, but
/// for `w`.
proof fn lemma_use_step(
    start: Seq<Node<Op>>,
    start_outs: Seq<OutletId>,
    before: Seq<Node<Op>>,
    outs: Seq<OutletId>,
    after: Seq<Node<Op>>,
    outs_after: Seq<OutletId>,
    patch: ModelPatch,
    w: usize,
    prune: Seq<(usize, usize)>,
    replaced: Seq<usize>,
)
    requires
        use_kept(start, start_outs, before, outs, replaced),
        before.len() >= start.len(),
        replaced.no_duplicates(),
        !replaced.contains(w),
        is_slice_patch(before, w, prune, patch),
        applied(before, after, patch),
        outs_after == Seq::new(outs.len(), |i: int| crate::model::rewired(outs[i], patch.replaced, patch.shunts@)),
    ensures
        use_kept(start, start_outs, after, outs_after, replaced.push(w)),
{
    lemma_stand_in_push(replaced, start.len(), w, OutletId { node: 0, slot: 0 });
    assert forall|u: usize| u < start.len() && !replaced.push(w).contains(u) implies #[trigger] live(
        after,
        outs_after,
        u,
    ) == live(start, start_outs, u) by {
        lemma_patch_keeps_use(before, outs, after, outs_after, patch, w, prune, u);
        assert(live(before, outs, u) == live(start, start_outs, u));
    }
}

/// The pass has taken the graph `before`, with the designated outputs
/// `outs`, to the graph `after` with `after_outs`, and has replaced the
/// nodes `replaced`, in this order. It replaced nothing exactly if no patch
/// that it would propose for a node in use could be merged, and the graph
/// is then as it was. Each replaced node was in use, and is out of use;
/// the node that stands for the `i`th of them is the `i`th new node; the
/// graph is wired as `rewired_as` says; and for no node that is left in
/// use can a patch be merged.
pub open spec fn pass_gave(
    before: Seq<Node<Op>>,
    outs: Seq<OutletId>,
    after: Seq<Node<Op>>,
    after_outs: Seq<OutletId>,
    replaced: Seq<usize>,
) -> bool {
    &&& replaced.len() == 0 <==> calm(before, outs)
    &&& replaced.len() == 0 ==> after == before && after_outs == outs
    &&& after.len() == before.len() + replaced.len()
    &&& replaced.no_duplicates()
    &&& forall|i: int| 0 <= i < replaced.len() ==> (#[trigger] replaced[i]) < before.len()
    &&& forall|i: int| 0 <= i < replaced.len() ==> live(before, outs, #[trigger] replaced[i])
    &&& forall|i: int| 0 <= i < replaced.len() ==> retired(after, after_outs, #[trigger] replaced[i])
    &&& forall|i: int| 0 <= i < replaced.len() ==> stands_for(after, before.len() + i, #[trigger] replaced[i])
    &&& rewired_as(before, outs, after, after_outs, replaced)
    &&& use_kept(before, outs, after, after_outs, replaced)
    &&& forall|v: usize|
        v < before.len() && !replaced.contains(v) && live(after, after_outs, v) ==> #[trigger] settled(after, v)
}

/// Runs the declutter pass on `model`: every node of the graph that is
/// read by a node or is a designated output is looked at, and a patch that
/// is proposed for it is merged if it is valid and dropped if it is not;
/// this is repeated until a whole pass merges nothing. The result lists
/// the nodes that were replaced, in the order in which they were. No node
/// is removed or renumbered: a replaced node stays in the graph, out of
/// use, and the node that stands for it follows the nodes that the graph
/// had; what read the replaced node reads that node (`rewired_as`). The
/// pass fails exactly if the bounds of a strided slice that is in use
/// cannot be read (`obstructed`); the graph is then as the patches merged
/// so far have left it. It replaces nothing exactly if no patch that it
/// would propose for a node in use can be merged (`calm`).
pub fn declutter(model: &mut Model) -> (r: Result<Vec<usize>, TractError>)
    requires
        old(model).wf(),
    ensures
        final(model).wf(),
        final(model).input_seq() == old(model).input_seq(),
        final(model).output_seq().len() == old(model).output_seq().len(),
        grown(old(model).node_seq(), final(model).node_seq()),
        acyclic(deps_of(old(model).node_seq())) ==> acyclic(deps_of(final(model).node_seq())),
        r is Err <==> obstructed(old(model).node_seq(), old(model).output_seq()),
        r matches Err(e) ==> e == TractError::EvalError,
        r matches Ok(replaced) ==> pass_gave(
            old(model).node_seq(),
            old(model).output_seq(),
            final(model).node_seq(),
            final(model).output_seq(),
            replaced@,
        ),
{
    let ghost start = model.node_seq();
    let ghost start_outs = model.output_seq();
    let n0 = model.nodes().len();
    let mut marks: Vec<bool> = Vec::new();
    let mut i: usize = 0;
    while i < n0
        invariant
            i <= n0,
            marks@.len() == i,
            forall|k: int| 0 <= k < i ==> !marks@[k],
        decreases n0 - i,
    {
        marks.push(false);
        i += 1;
    }
    let mut replaced: Vec<usize> = Vec::new();
    proof {
        assert(crate::model::nodes_linked(start));
        assert forall|j: int| 0 <= j < start_outs.len() implies outlet_exists(start, #[trigger] start_outs[j]) by {}
        assert(model.output_seq() =~= Seq::new(
            start_outs.len(),
            |j: int| stand_in(replaced@, start.len(), start_outs[j]),
        ));
    }
    loop
        invariant
            n0 == start.len(),
            start == old(model).node_seq(),
            marks@.len() == n0,
            model.wf(),
            model.input_seq() == old(model).input_seq(),
            model.output_seq().len() == old(model).output_seq().len(),
            grown(start, model.node_seq()),
            acyclic(deps_of(start)) ==> acyclic(deps_of(model.node_seq())),
            model.node_seq().len() == start.len() + replaced@.len(),
            forall|i: int| 0 <= i < replaced@.len() ==> (#[trigger] replaced@[i]) < n0,
            replaced@.no_duplicates(),
            forall|v: usize| v < n0 ==> (marks@[v as int] <==> replaced@.contains(v)),
            replaced@.len() == 0 ==> model.node_seq() == start && model.output_seq() == old(model).output_seq(),
            forall|i: int|
                0 <= i < replaced@.len() ==> retired(model.node_seq(), model.output_seq(), #[trigger] replaced@[i]),
            forall|i: int|
                0 <= i < replaced@.len() ==> stands_for(model.node_seq(), n0 + i, #[trigger] replaced@[i]),
            rewired_as(start, start_outs, model.node_seq(), model.output_seq(), replaced@),
            start_outs == old(model).output_seq(),
            crate::model::nodes_linked(start),
            forall|j: int| 0 <= j < start_outs.len() ==> outlet_exists(start, #[trigger] start_outs[j]),
            use_kept(start, start_outs, model.node_seq(), model.output_seq(), replaced@),
            forall|i: int| 0 <= i < replaced@.len() ==> live(start, start_outs, #[trigger] replaced@[i]),
            calm(start, start_outs) ==> replaced@.len() == 0,
        decreases unmarked(marks@),
    {
        let mut changed = false;
        let ghost pass_start = model.node_seq();
        let ghost outs_start = model.output_seq();
        let ghost marks_start = marks@;
        let mut v: usize = 0;
        while v < n0
            invariant
                v <= n0,
                n0 == start.len(),
                start == old(model).node_seq(),
                marks@.len() == n0,
                model.wf(),
                model.input_seq() == old(model).input_seq(),
                model.output_seq().len() == old(model).output_seq().len(),
                grown(start, model.node_seq()),
                acyclic(deps_of(start)) ==> acyclic(deps_of(model.node_seq())),
                model.node_seq().len() == start.len() + replaced@.len(),
                forall|i: int| 0 <= i < replaced@.len() ==> (#[trigger] replaced@[i]) < n0,
                replaced@.no_duplicates(),
                forall|u: usize| u < n0 ==> (marks@[u as int] <==> replaced@.contains(u)),
                replaced@.len() == 0 ==> model.node_seq() == start && model.output_seq() == old(model).output_seq(),
                forall|i: int|
                    0 <= i < replaced@.len() ==> retired(model.node_seq(), model.output_seq(), #[trigger] replaced@[i]),
                forall|i: int|
                    0 <= i < replaced@.len() ==> stands_for(model.node_seq(), n0 + i, #[trigger] replaced@[i]),
                rewired_as(start, start_outs, model.node_seq(), model.output_seq(), replaced@),
                start_outs == old(model).output_seq(),
                crate::model::nodes_linked(start),
                forall|j: int| 0 <= j < start_outs.len() ==> outlet_exists(start, #[trigger] start_outs[j]),
                use_kept(start, start_outs, model.node_seq(), model.output_seq(), replaced@),
                forall|i: int| 0 <= i < replaced@.len() ==> live(start, start_outs, #[trigger] replaced@[i]),
                calm(start, start_outs) ==> replaced@.len() == 0,
                !changed ==> forall|u: usize|
                    u < v && !marks@[u as int] && live(pass_start, outs_start, u) ==> !(#[trigger] proposal(
                        pass_start,
                        u,
                    ) is Failed),
                changed ==> unmarked(marks@) < unmarked(marks_start),
                !changed ==> marks@ == marks_start && model.node_seq() == pass_start && model.output_seq()
                    == outs_start,
                !changed ==> forall|u: usize|
                    u < v && !marks@[u as int] && live(pass_start, outs_start, u) ==> #[trigger] settled(
                        pass_start,
                        u,
                    ),
            decreases n0 - v,
        {
            if !marks[v] && model.is_live(v) {
                let proposed = match propose(model, v) {
                    Ok(p) => p,
                    Err(e) => {
                        proof {
                            lemma_proposal_kept(
                                start,
                                start_outs,
                                model.node_seq(),
                                model.output_seq(),
                                replaced@,
                                v,
                            );
                            assert(live(start, start_outs, v));
                            assert(proposal(start, v) is Failed);
                        }
                        return Err(e);
                    },
                };
                match proposed {
                    Some(patch) => {
                        let ghost before = model.node_seq();
                        let ghost the_patch = patch;
                        let ghost outs = model.output_seq();
                        match patch.apply(model) {
                            Ok(()) => {
                                let ghost prev_marks = marks@;
                                let ghost prev_replaced = replaced@;
                                marks.set(v, true);
                                replaced.push(v);
                                changed = true;
                                proof {
                                    lemma_unmarked_update(prev_marks, v as int);
                                    let after = model.node_seq();
                                    assert(applied(before, after, the_patch));
                                    let prune = proposal(before, v)->Pruned_0;
                                    assert(valid(before, the_patch));
                                    lemma_patch_retires(before, outs, after, model.output_seq(), the_patch, v, prune);
                                    assert(!prev_replaced.contains(v));
                                    assert(live(start, start_outs, v));
                                    lemma_proposal_kept(start, start_outs, before, outs, prev_replaced, v);
                                    if prev_replaced.len() == 0 {
                                        assert(!settled(start, v));
                                    }
                                    lemma_use_step(
                                        start,
                                        start_outs,
                                        before,
                                        outs,
                                        after,
                                        model.output_seq(),
                                        the_patch,
                                        v,
                                        prune,
                                        prev_replaced,
                                    );
                                    assert forall|i: int| 0 <= i < replaced@.len() implies live(
                                        start,
                                        start_outs,
                                        #[trigger] replaced@[i],
                                    ) by {
                                        if i < prev_replaced.len() {
                                            assert(prev_replaced[i] == replaced@[i]);
                                        }
                                    }
                                    lemma_rewired_step(
                                        start,
                                        start_outs,
                                        before,
                                        outs,
                                        after,
                                        model.output_seq(),
                                        the_patch,
                                        v,
                                        prune,
                                        prev_replaced,
                                    );
                                    assert forall|i: int| 0 <= i < replaced@.len() implies stands_for(
                                        after,
                                        n0 + i,
                                        #[trigger] replaced@[i],
                                    ) by {
                                        if i < prev_replaced.len() {
                                            assert(prev_replaced[i] == replaced@[i]);
                                            assert(stands_for(before, n0 + i, prev_replaced[i]));
                                            assert(same_but_inputs(
                                                before[n0 + i],
                                                after.take(before.len() as int)[n0 + i],
                                            ));
                                            assert(same_but_inputs(
                                                before[replaced@[i] as int],
                                                after.take(before.len() as int)[replaced@[i] as int],
                                            ));
                                        } else {
                                            assert(after[(before.len() + 0) as int].op == the_patch.nodes@[0].op);
                                            assert(same_but_inputs(
                                                before[v as int],
                                                after.take(before.len() as int)[v as int],
                                            ));
                                            assert(proposal(before, v) is Pruned);
                                        }
                                    }
                                    assert forall|i: int| 0 <= i < replaced@.len() implies retired(
                                        after,
                                        model.output_seq(),
                                        #[trigger] replaced@[i],
                                    ) by {
                                        if i < prev_replaced.len() {
                                            assert(prev_replaced[i] == replaced@[i]);
                                            assert(prev_replaced.contains(prev_replaced[i]));
                                            assert(retired(before, outs, prev_replaced[i]));
                                        }
                                    }
                                    assert forall|a: int| 0 <= a < start.len() implies same_but_inputs(
                                        start[a],
                                        #[trigger] after[a],
                                    ) by {
                                        assert(same_but_inputs(start[a], before[a]));
                                        assert(same_but_inputs(before[a], after.take(before.len() as int)[a]));
                                    }
                                    assert forall|u: usize| u < n0 implies (marks@[u as int] <==> replaced@.contains(
                                        u,
                                    )) by {
                                        if u == v {
                                            assert(replaced@[prev_replaced.len() as int] == v);
                                        } else {
                                            if prev_replaced.contains(u) {
                                                let j = choose|j: int| 0 <= j < prev_replaced.len() && prev_replaced[j] == u;
                                                assert(replaced@[j] == u);
                                            }
                                            if replaced@.contains(u) {
                                                let j = choose|j: int| 0 <= j < replaced@.len() && replaced@[j] == u;
                                                assert(prev_replaced[j] == u);
                                            }
                                        }
                                    }
                                    assert(replaced@.no_duplicates()) by {
                                        assert forall|x: int, y: int|
                                            0 <= x < replaced@.len() && 0 <= y < replaced@.len() && x != y implies replaced@[x]
                                            != replaced@[y] by {
                                            if x < prev_replaced.len() {
                                                assert(prev_replaced.contains(prev_replaced[x]));
                                            }
                                            if y < prev_replaced.len() {
                                                assert(prev_replaced.contains(prev_replaced[y]));
                                            }
                                        }
                                    }
                                }
                            },
                            Err(_) => {
                                proof {
                                    assert(!valid(before, the_patch));
                                    if !changed {
                                        assert forall|other: ModelPatch, p: Seq<(usize, usize)>|
                                            proposal(pass_start, v) == Specialized::Pruned(p)
                                                && #[trigger] is_slice_patch(pass_start, v, p, other) implies !valid(
                                            pass_start,
                                            other,
                                        ) by {
                                            lemma_slice_patch_validity(pass_start, v, p, the_patch, other);
                                        }
                                    }
                                }
                            },
                        }
                    },
                    None => {},
                }
            }
            v += 1;
        }
        if !changed {
            proof {
                assert forall|u: usize|
                    u < start.len() && !replaced@.contains(u) && live(
                        model.node_seq(),
                        model.output_seq(),
                        u,
                    ) implies #[trigger] settled(model.node_seq(), u) by {
                    assert(!marks@[u as int]);
                }
                assert forall|u: usize| u < start.len() && live(start, start_outs, u) implies !(#[trigger] proposal(
                    start,
                    u,
                ) is Failed) by {
                    if replaced@.contains(u) {
                        let i = replaced@.index_of(u);
                        assert(new_node_fits(start, model.node_seq(), replaced@, i));
                    } else {
                        lemma_proposal_kept(start, start_outs, model.node_seq(), model.output_seq(), replaced@, u);
                        assert(!marks@[u as int]);
                        assert(live(model.node_seq(), model.output_seq(), u));
                    }
                }
                if replaced@.len() == 0 {
                    assert(calm(start, start_outs));
                }
            }
            return Ok(replaced);
        }
    }
}

/// `mid` is the graph `nodes` with `table` as what is known of its
/// outlets.
pub open spec fn informed(nodes: Seq<Node<Op>>, table: crate::analyser::Table, mid: Seq<Node<Op>>) -> bool {
    crate::model::same_graph(nodes, mid) && crate::model::fact_table(mid) == table
}

/// Two graphs with the same nodes, operators and edges, of whose outlets
/// the same is known.
pub open spec fn alike(a: Seq<Node<Op>>, b: Seq<Node<Op>>) -> bool {
    &&& crate::model::same_graph(a, b)
    &&& crate::model::fact_table(a) == crate::model::fact_table(b)
    &&& crate::model::nodes_linked(a)
}

proof fn lemma_alike_turned(a: Seq<Node<Op>>, b: Seq<Node<Op>>)
    requires
        alike(a, b),
    ensures
        alike(b, a),
{
    assert forall|v: int| 0 <= v < b.len() implies (#[trigger] a[v]).id == b[v].id && a[v].name == b[v].name && a[v].op
        == b[v].op && a[v].inputs == b[v].inputs && a[v].outputs@.len() == b[v].outputs@.len() by {
        assert(b[v].id == a[v].id);
    }
    assert forall|v: int| 0 <= v < b.len() implies (#[trigger] b[v]).id == v by {
        assert(a[v].id == v);
    }
    assert forall|v: int, k: int| 0 <= v < b.len() && 0 <= k < b[v].inputs@.len() implies outlet_exists(
        b,
        #[trigger] b[v].inputs@[k],
    ) by {
        let o = b[v].inputs@[k];
        assert(b[v].inputs == a[v].inputs);
        assert(outlet_exists(a, a[v].inputs@[k]));
        assert(b[o.node as int].outputs@.len() == a[o.node as int].outputs@.len());
    }
}

/// What is known of an outlet that exists is the same in two graphs that
/// are alike.
proof fn lemma_alike_fact(a: Seq<Node<Op>>, b: Seq<Node<Op>>, o: OutletId)
    requires
        alike(a, b),
        outlet_exists(a, o),
    ensures
        outlet_exists(b, o),
        a[o.node as int].outputs@[o.slot as int]@ == b[o.node as int].outputs@[o.slot as int]@,
{
    assert(b[o.node as int].outputs@.len() == a[o.node as int].outputs@.len());
    assert(crate::model::fact_table(a)[o.node as int][o.slot as int] == a[o.node as int].outputs@[o.slot as int]@);
    assert(crate::model::fact_table(b)[o.node as int][o.slot as int] == b[o.node as int].outputs@[o.slot as int]@);
}

/// The pass finds the same for a node in two graphs that are alike.
proof fn lemma_alike_proposal(a: Seq<Node<Op>>, b: Seq<Node<Op>>, v: usize)
    requires
        alike(a, b),
    ensures
        proposal(a, v) == proposal(b, v),
        slice_facts(a, v) == slice_facts(b, v),
{
    if v < a.len() {
        assert(b[v as int].op == a[v as int].op);
        assert(b[v as int].inputs == a[v as int].inputs);
        if a[v as int].inputs@.len() == 4 {
            assert(outlet_exists(a, a[v as int].inputs@[0]));
            assert(outlet_exists(a, a[v as int].inputs@[1]));
            assert(outlet_exists(a, a[v as int].inputs@[2]));
            assert(outlet_exists(a, a[v as int].inputs@[3]));
            lemma_alike_fact(a, b, a[v as int].inputs@[0]);
            lemma_alike_fact(a, b, a[v as int].inputs@[1]);
            lemma_alike_fact(a, b, a[v as int].inputs@[2]);
            lemma_alike_fact(a, b, a[v as int].inputs@[3]);
        }
    }
}

/// A node is in use in both of two graphs with the same edges, or in
/// neither.
proof fn lemma_alike_use(a: Seq<Node<Op>>, b: Seq<Node<Op>>, outs: Seq<OutletId>, v: usize)
    requires
        crate::model::same_graph(a, b),
    ensures
        live(a, outs, v) == live(b, outs, v),
{
    if crate::model::read_by(a, v) {
        let (x, k) = choose|x: int, k: int|
            0 <= x < a.len() && 0 <= k < a[x].inputs@.len() && (#[trigger] a[x].inputs@[k]).node == v;
        assert(b[x].inputs == a[x].inputs);
        assert(b[x].inputs@[k].node == v);
    }
    if crate::model::read_by(b, v) {
        let (x, k) = choose|x: int, k: int|
            0 <= x < b.len() && 0 <= k < b[x].inputs@.len() && (#[trigger] b[x].inputs@[k]).node == v;
        assert(b[x].inputs == a[x].inputs);
        assert(a[x].inputs@[k].node == v);
    }
}

/// A patch that fits one of two graphs that are alike fits the other.
proof fn lemma_alike_valid(a: Seq<Node<Op>>, b: Seq<Node<Op>>, patch: ModelPatch)
    requires
        alike(a, b),
        valid(a, patch),
    ensures
        valid(b, patch),
{
    assert forall|o: OutletId, k: int| crate::patch::patch_outlet_exists(a, patch, o, k) implies crate::patch::patch_outlet_exists(
        b,
        patch,
        o,
        k,
    ) by {
        if o.node < patch.base {
            lemma_alike_fact(a, b, o);
        }
    }
    assert(b[patch.replaced as int].outputs@.len() == a[patch.replaced as int].outputs@.len());
    assert forall|s: int| 0 <= s < patch.shunts@.len() implies crate::patch::patch_outlet_exists(
        b,
        patch,
        #[trigger] patch.shunts@[s],
        patch.nodes@.len() as int,
    ) && crate::patch::patch_fact(b, patch, patch.shunts@[s]).agrees(b[patch.replaced as int].outputs@[s]@) by {
        let o = patch.shunts@[s];
        assert(crate::patch::patch_outlet_exists(a, patch, o, patch.nodes@.len() as int));
        if o.node < patch.base {
            lemma_alike_fact(a, b, o);
        }
        assert(patch.shunts@.len() == patch.shunts.len());
        lemma_alike_fact(a, b, OutletId { node: patch.replaced, slot: s as usize });
    }
    assert(crate::patch::merged(a, patch) =~= crate::patch::merged(b, patch)) by {
        assert forall|v: int| 0 <= v < a.len() + patch.nodes@.len() implies crate::patch::merged(a, patch)[v]
            =~= crate::patch::merged(b, patch)[v] by {
            if v < a.len() {
                assert(b[v].inputs == a[v].inputs);
            }
        }
    }
}

/// A node for which no patch can be merged in one of two graphs that are
/// alike has none in the other.
proof fn lemma_alike_settled(a: Seq<Node<Op>>, b: Seq<Node<Op>>, v: usize)
    requires
        alike(a, b),
        settled(a, v),
    ensures
        settled(b, v),
{
    lemma_alike_proposal(a, b, v);
    lemma_alike_turned(a, b);
    assert forall|patch: ModelPatch, p: Seq<(usize, usize)>|
        proposal(b, v) == Specialized::Pruned(p) && #[trigger] is_slice_patch(b, v, p, patch) implies !valid(
        b,
        patch,
    ) by {
        assert(b[v as int].name == a[v as int].name);
        assert(b[v as int].inputs == a[v as int].inputs);
        assert(slice_facts(a, v) is Some);
        lemma_alike_fact(a, b, OutletId { node: v, slot: 0 });
        assert(is_slice_patch(a, v, p, patch));
        if valid(b, patch) {
            lemma_alike_valid(b, a, patch);
        }
    }
}

/// The pass fails on both of two graphs that are alike or on neither, and
/// replaces nothing in both or in neither.
pub proof fn lemma_alike_pass(a: Seq<Node<Op>>, b: Seq<Node<Op>>, outs: Seq<OutletId>)
    requires
        alike(a, b),
    ensures
        obstructed(a, outs) == obstructed(b, outs),
        calm(a, outs) == calm(b, outs),
{
    lemma_alike_turned(a, b);
    if obstructed(a, outs) {
        let v = choose|v: usize| v < a.len() && live(a, outs, v) && #[trigger] proposal(a, v) is Failed;
        lemma_alike_proposal(a, b, v);
        lemma_alike_use(a, b, outs, v);
    }
    if obstructed(b, outs) {
        let v = choose|v: usize| v < b.len() && live(b, outs, v) && #[trigger] proposal(b, v) is Failed;
        lemma_alike_proposal(a, b, v);
        lemma_alike_use(a, b, outs, v);
    }
    if calm(a, outs) {
        assert forall|v: usize| v < b.len() && live(b, outs, v) implies #[trigger] settled(b, v) by {
            lemma_alike_use(a, b, outs, v);
            assert(settled(a, v));
            lemma_alike_settled(a, b, v);
        }
    }
    if calm(b, outs) {
        assert forall|v: usize| v < a.len() && live(a, outs, v) implies #[trigger] settled(a, v) by {
            lemma_alike_use(a, b, outs, v);
            assert(settled(b, v));
            lemma_alike_settled(b, a, v);
        }
    }
}

/// What the first round gives where it is the last: the failure of the
/// pass on the graph `mid` that the inference left; whether the inference
/// settled, where the pass replaces nothing; and `false` where the pass
/// replaces something and one round was asked for. With more rounds to
/// come after a round that replaced something it is open.
pub open spec fn first_round(mid: Seq<Node<Op>>, outs: Seq<OutletId>, settled_facts: bool, rounds: usize) -> Option<
    Result<bool, TractError>,
> {
    if obstructed(mid, outs) {
        Some(Err(TractError::EvalError))
    } else if calm(mid, outs) {
        Some(Ok(settled_facts))
    } else if rounds == 1 {
        Some(Ok(false))
    } else {
        None
    }
}

/// The first round has neither failed nor been the last: the inference
/// went through, and on the graph it left the pass did not fail and
/// replaced something.
pub open spec fn goes_on(nodes: Seq<Node<Op>>, outs: Seq<OutletId>, passes: usize, budget: usize) -> bool {
    crate::analyser::analysed(nodes, crate::model::fact_table(nodes), passes as nat, budget as nat) matches Ok((t, _))
        && forall|mid: Seq<Node<Op>>| #[trigger] informed(nodes, t, mid) ==> !obstructed(mid, outs) && !calm(mid, outs)
}

/// What the first round owes, from the graph `nodes` with the designated
/// outputs `outs` to the result `r` and the graph `after`: a failure of
/// the inference is handed on, and of the outlets is known what was known
/// before; else see `first_round`, on the graph that the inference left.
/// Where the first round is the last because the pass replaced nothing,
/// the graph is the one that the inference left.
pub open spec fn first_round_kept(
    nodes: Seq<Node<Op>>,
    outs: Seq<OutletId>,
    rounds: usize,
    passes: usize,
    budget: usize,
    r: Result<bool, TractError>,
    after: Seq<Node<Op>>,
    after_outs: Seq<OutletId>,
) -> bool {
    match crate::analyser::analysed(nodes, crate::model::fact_table(nodes), passes as nat, budget as nat) {
        Err(e) => r == Err::<bool, TractError>(e) && informed(nodes, crate::model::fact_table(nodes), after)
            && after_outs == outs,
        Ok((t, s)) => forall|mid: Seq<Node<Op>>| #[trigger]
            informed(nodes, t, mid) ==> {
                &&& first_round(mid, outs, s, rounds) matches Some(x) ==> r == x
                &&& !obstructed(mid, outs) && calm(mid, outs) ==> informed(nodes, t, after) && after_outs == outs
            },
    }
}

/// `rounds` rounds from the graph `nodes`, with the designated outputs
/// `outs`, give the result `r` and leave the graph `after` with
/// `after_outs`. With no round to do the result is `false` and the graph
/// is as it was. Else a failure of the inference is the result, and of
/// the outlets is known what was known before; else, on
/// the graph `mid` that the inference left, a failure of the pass is the
/// result; else, where the pass replaces nothing, the result tells whether
/// the inference settled, and the graph is `mid`; else the result is what
/// the other rounds give from a graph that the pass gave.
pub open spec fn rounds_give(
    nodes: Seq<Node<Op>>,
    outs: Seq<OutletId>,
    rounds: nat,
    passes: usize,
    budget: usize,
    r: Result<bool, TractError>,
    after: Seq<Node<Op>>,
    after_outs: Seq<OutletId>,
) -> bool
    decreases rounds,
{
    if rounds == 0 {
        r == Ok::<bool, TractError>(false) && after == nodes && after_outs == outs
    } else {
        match crate::analyser::analysed(nodes, crate::model::fact_table(nodes), passes as nat, budget as nat) {
            Err(e) => r == Err::<bool, TractError>(e) && informed(nodes, crate::model::fact_table(nodes), after)
            && after_outs == outs,
            Ok((t, s)) => exists|mid: Seq<Node<Op>>| #[trigger]
                informed(nodes, t, mid) && if obstructed(mid, outs) {
                    r == Err::<bool, TractError>(TractError::EvalError) && grown(mid, after)
                } else if calm(mid, outs) {
                    r == Ok::<bool, TractError>(s) && after == mid && after_outs == outs
                } else {
                    exists|next: Seq<Node<Op>>, next_outs: Seq<OutletId>, replaced: Seq<usize>| #[trigger]
                        pass_gave(mid, outs, next, next_outs, replaced) && rounds_give(
                            next,
                            next_outs,
                            (rounds - 1) as nat,
                            passes,
                            budget,
                            r,
                            after,
                            after_outs,
                        )
                },
        }
    }
}

/// The rounds from the graph `cur` on give nothing that the rounds from
/// the graph `start` on do not give.
#[verifier::opaque]
spec fn leads(
    cur: Seq<Node<Op>>,
    cur_outs: Seq<OutletId>,
    left: nat,
    start: Seq<Node<Op>>,
    start_outs: Seq<OutletId>,
    rounds: nat,
    passes: usize,
    budget: usize,
) -> bool {
    forall|x: Result<bool, TractError>, a: Seq<Node<Op>>, o: Seq<OutletId>| #[trigger]
        rounds_give(cur, cur_outs, left, passes, budget, x, a, o) ==> rounds_give(
            start,
            start_outs,
            rounds,
            passes,
            budget,
            x,
            a,
            o,
        )
}

proof fn lemma_leads_from_start(start: Seq<Node<Op>>, start_outs: Seq<OutletId>, rounds: nat, passes: usize, budget: usize)
    ensures
        leads(start, start_outs, rounds, start, start_outs, rounds, passes, budget),
{
    reveal(leads);
}

proof fn lemma_leads_to(
    cur: Seq<Node<Op>>,
    cur_outs: Seq<OutletId>,
    left: nat,
    start: Seq<Node<Op>>,
    start_outs: Seq<OutletId>,
    rounds: nat,
    passes: usize,
    budget: usize,
    r: Result<bool, TractError>,
    after: Seq<Node<Op>>,
    after_outs: Seq<OutletId>,
)
    requires
        leads(cur, cur_outs, left, start, start_outs, rounds, passes, budget),
        rounds_give(cur, cur_outs, left, passes, budget, r, after, after_outs),
    ensures
        rounds_give(start, start_outs, rounds, passes, budget, r, after, after_outs),
{
    reveal(leads);
}

/// A round that ends the work gives what it ends on.
proof fn lemma_round_ends(
    nodes: Seq<Node<Op>>,
    outs: Seq<OutletId>,
    left: nat,
    passes: usize,
    budget: usize,
    mid: Seq<Node<Op>>,
    r: Result<bool, TractError>,
    after: Seq<Node<Op>>,
    after_outs: Seq<OutletId>,
)
    requires
        left > 0,
        crate::analyser::analysed(nodes, crate::model::fact_table(nodes), passes as nat, budget as nat) matches Ok(
            (t, s),
        ) && informed(nodes, t, mid) && if obstructed(mid, outs) {
            r == Err::<bool, TractError>(TractError::EvalError) && grown(mid, after)
        } else {
            calm(mid, outs) && r == Ok::<bool, TractError>(s) && after == mid && after_outs == outs
        },
    ensures
        rounds_give(nodes, outs, left, passes, budget, r, after, after_outs),
{
    let t = crate::analyser::analysed(nodes, crate::model::fact_table(nodes), passes as nat, budget as nat)->Ok_0.0;
    assert(informed(nodes, t, mid));
}

/// A round that replaces something hands the work on to the next.
proof fn lemma_round_goes_on(
    nodes: Seq<Node<Op>>,
    outs: Seq<OutletId>,
    left: nat,
    start: Seq<Node<Op>>,
    start_outs: Seq<OutletId>,
    rounds: nat,
    passes: usize,
    budget: usize,
    mid: Seq<Node<Op>>,
    next: Seq<Node<Op>>,
    next_outs: Seq<OutletId>,
    replaced: Seq<usize>,
)
    requires
        left > 0,
        leads(nodes, outs, left, start, start_outs, rounds, passes, budget),
        crate::analyser::analysed(nodes, crate::model::fact_table(nodes), passes as nat, budget as nat) matches Ok(
            (t, _),
        ) && informed(nodes, t, mid),
        !obstructed(mid, outs),
        !calm(mid, outs),
        pass_gave(mid, outs, next, next_outs, replaced),
    ensures
        leads(next, next_outs, (left - 1) as nat, start, start_outs, rounds, passes, budget),
{
    reveal(leads);
    let t = crate::analyser::analysed(nodes, crate::model::fact_table(nodes), passes as nat, budget as nat)->Ok_0.0;
    assert forall|x: Result<bool, TractError>, a: Seq<Node<Op>>, o: Seq<OutletId>| #[trigger]
        rounds_give(next, next_outs, (left - 1) as nat, passes, budget, x, a, o) implies rounds_give(
        start,
        start_outs,
        rounds,
        passes,
        budget,
        x,
        a,
        o,
    ) by {
        assert(informed(nodes, t, mid));
        assert(pass_gave(mid, outs, next, next_outs, replaced));
        assert(rounds_give(nodes, outs, left, passes, budget, x, a, o));
    }
}

/// Two graphs that are the same graph with the same known of its outlets
/// are alike.
proof fn lemma_informed_alike(nodes: Seq<Node<Op>>, table: crate::analyser::Table, a: Seq<Node<Op>>, b: Seq<Node<Op>>)
    requires
        informed(nodes, table, a),
        informed(nodes, table, b),
        crate::model::nodes_linked(a),
    ensures
        alike(a, b),
{
    assert forall|v: int| 0 <= v < a.len() implies (#[trigger] b[v]).id == a[v].id && b[v].name == a[v].name && b[v].op
        == a[v].op && b[v].inputs == a[v].inputs && b[v].outputs@.len() == a[v].outputs@.len() by {
        assert(a[v].id == nodes[v].id);
        assert(b[v].id == nodes[v].id);
    }
}

/// Inference and declutter in turn: what is known is inferred across the
/// graph, then operators are replaced on what is known, and so on until a
/// round replaces nothing or `rounds` rounds are done. It tells whether it
/// ended on a round in which the inference settled and nothing was
/// replaced: then one more pass of the inference finds nothing new, and no
/// patch that would be proposed can be merged. With no round to do it
/// leaves the graph as it is and gives `false`. A failure of the inference
/// or of the pass ends the work and is handed on. `rounds_give` follows
/// the rounds from graph to graph; `first_round_kept` says of the first
/// round on which graphs it ends the work, and with which result.
/// `passes` and `budget` bound the inference: see `analyse`.
pub fn analyse_and_declutter(model: &mut Model, rounds: usize, passes: usize, budget: usize) -> (r: Result<
    bool,
    TractError,
>)
    requires
        old(model).wf(),
    ensures
        final(model).wf(),
        final(model).input_seq() == old(model).input_seq(),
        final(model).output_seq().len() == old(model).output_seq().len(),
        final(model).node_seq().len() >= old(model).node_seq().len(),
        forall|v: int|
            0 <= v < old(model).node_seq().len() ==> (#[trigger] final(model).node_seq()[v]).id == old(model).node_seq()[v].id && final(model).node_seq()[v].name == old(model).node_seq()[v].name && final(model).node_seq()[v].op == old(model).node_seq()[v].op,
        acyclic(deps_of(old(model).node_seq())) ==> acyclic(deps_of(final(model).node_seq())),
        rounds == 0 ==> r == Ok::<bool, TractError>(false) && final(model).node_seq() == old(model).node_seq()
            && final(model).output_seq() == old(model).output_seq(),
        rounds > 0 ==> first_round_kept(
            old(model).node_seq(),
            old(model).output_seq(),
            rounds,
            passes,
            budget,
            r,
            final(model).node_seq(),
            final(model).output_seq(),
        ),
        rounds_give(
            old(model).node_seq(),
            old(model).output_seq(),
            rounds as nat,
            passes,
            budget,
            r,
            final(model).node_seq(),
            final(model).output_seq(),
        ),
        r == Ok::<bool, TractError>(true) ==> crate::analyser::pass_nodes(
            final(model).node_seq(),
            crate::model::fact_table(final(model).node_seq()),
            false,
            0,
            budget as nat,
        ) == Ok::<(crate::analyser::Table, bool), TractError>(
            (crate::model::fact_table(final(model).node_seq()), false),
        ) && forall|v: usize|
            v < final(model).node_seq().len() && live(final(model).node_seq(), final(model).output_seq(), v)
                ==> #[trigger] settled(final(model).node_seq(), v),
{
    let ghost start = model.node_seq();
    let ghost start_outs = model.output_seq();
    let mut left = rounds;
    proof {
        lemma_leads_from_start(start, start_outs, rounds as nat, passes, budget);
    }
    while left > 0
        invariant
            model.wf(),
            model.input_seq() == old(model).input_seq(),
            model.output_seq().len() == old(model).output_seq().len(),
            model.node_seq().len() >= start.len(),
            start == old(model).node_seq(),
            start_outs == old(model).output_seq(),
            forall|v: int|
                0 <= v < start.len() ==> (#[trigger] model.node_seq()[v]).id == start[v].id && model.node_seq()[v].name
                    == start[v].name && model.node_seq()[v].op == start[v].op,
            acyclic(deps_of(start)) ==> acyclic(deps_of(model.node_seq())),
            left <= rounds,
            left == rounds ==> model.node_seq() == start && model.output_seq() == start_outs,
            left < rounds ==> goes_on(start, start_outs, passes, budget),
            leads(
                model.node_seq(),
                model.output_seq(),
                left as nat,
                start,
                start_outs,
                rounds as nat,
                passes,
                budget,
            ),
        decreases left,
    {
        let ghost before = model.node_seq();
        let ghost before_outs = model.output_seq();
        let ghost first = left == rounds;
        let settled_facts = match crate::analyser::analyse(model, passes, budget) {
            Ok(s) => s,
            Err(e) => {
                proof {
                    lemma_same_graph_keeps(start, before, model.node_seq());
                    assert(rounds_give(
                        before,
                        before_outs,
                        left as nat,
                        passes,
                        budget,
                        Err::<bool, TractError>(e),
                        model.node_seq(),
                        model.output_seq(),
                    ));
                    lemma_leads_to(
                        before,
                        before_outs,
                        left as nat,
                        start,
                        start_outs,
                        rounds as nat,
                        passes,
                        budget,
                        Err::<bool, TractError>(e),
                        model.node_seq(),
                        model.output_seq(),
                    );
                }
                return Err(e);
            },
        };
        let ghost mid = model.node_seq();
        let ghost table = crate::model::fact_table(mid);
        proof {
            lemma_same_graph_keeps(start, before, mid);
            if first {
                assert(informed(start, table, mid));
                assert forall|other: Seq<Node<Op>>| #[trigger] informed(start, table, other) implies obstructed(
                    other,
                    start_outs,
                ) == obstructed(mid, start_outs) && calm(other, start_outs) == calm(mid, start_outs) by {
                    lemma_informed_alike(start, table, mid, other);
                    lemma_alike_pass(mid, other, start_outs);
                }
            }
        }
        let replaced = match declutter(model) {
            Ok(r) => r,
            Err(e) => {
                proof {
                    assert forall|v: int| 0 <= v < start.len() implies (#[trigger] model.node_seq()[v]).id
                        == start[v].id && model.node_seq()[v].name == start[v].name && model.node_seq()[v].op
                        == start[v].op by {
                        assert(same_but_inputs(mid[v], model.node_seq()[v]));
                        assert(mid[v].id == before[v].id);
                    }
                    lemma_round_ends(
                        before,
                        before_outs,
                        left as nat,
                        passes,
                        budget,
                        mid,
                        Err::<bool, TractError>(e),
                        model.node_seq(),
                        model.output_seq(),
                    );
                    lemma_leads_to(
                        before,
                        before_outs,
                        left as nat,
                        start,
                        start_outs,
                        rounds as nat,
                        passes,
                        budget,
                        Err::<bool, TractError>(e),
                        model.node_seq(),
                        model.output_seq(),
                    );
                }
                return Err(e);
            },
        };
        proof {
            assert forall|v: int| 0 <= v < start.len() implies (#[trigger] model.node_seq()[v]).id == start[v].id
                && model.node_seq()[v].name == start[v].name && model.node_seq()[v].op == start[v].op by {
                assert(same_but_inputs(mid[v], model.node_seq()[v]));
                assert(mid[v].id == before[v].id);
            }
        }
        if replaced.len() == 0 {
            if settled_facts {
                proof {
                    let table0 = crate::model::fact_table(before);
                    assert(crate::analyser::table_fits(before, table0));
                    crate::analyser::lemma_settled_is_fixed_point(before, table0, passes as nat, budget as nat);
                    crate::analyser::lemma_pass_same_graph(
                        before,
                        mid,
                        crate::model::fact_table(mid),
                        false,
                        0,
                        budget as nat,
                    );
                    assert forall|v: usize|
                        v < model.node_seq().len() && live(model.node_seq(), model.output_seq(), v) implies #[trigger] settled(
                        model.node_seq(),
                        v,
                    ) by {
                        assert(!replaced@.contains(v));
                    }
                    lemma_round_ends(
                        before,
                        before_outs,
                        left as nat,
                        passes,
                        budget,
                        mid,
                        Ok::<bool, TractError>(true),
                        model.node_seq(),
                        model.output_seq(),
                    );
                    lemma_leads_to(
                        before,
                        before_outs,
                        left as nat,
                        start,
                        start_outs,
                        rounds as nat,
                        passes,
                        budget,
                        Ok::<bool, TractError>(true),
                        model.node_seq(),
                        model.output_seq(),
                    );
                }
                return Ok(true);
            }
            proof {
                    lemma_round_ends(
                        before,
                        before_outs,
                        left as nat,
                        passes,
                        budget,
                        mid,
                        Ok::<bool, TractError>(false),
                        model.node_seq(),
                        model.output_seq(),
                    );
                    lemma_leads_to(
                        before,
                        before_outs,
                        left as nat,
                        start,
                        start_outs,
                        rounds as nat,
                        passes,
                        budget,
                        Ok::<bool, TractError>(false),
                        model.node_seq(),
                        model.output_seq(),
                    );
            }
            return Ok(false);
        }
        proof {
            lemma_round_goes_on(
                before,
                before_outs,
                left as nat,
                start,
                start_outs,
                rounds as nat,
                passes,
                budget,
                mid,
                model.node_seq(),
                model.output_seq(),
                replaced@,
            );
        }
        left -= 1;
    }
    proof {
        lemma_leads_to(
            model.node_seq(),
            model.output_seq(),
            0,
            start,
            start_outs,
            rounds as nat,
            passes,
            budget,
            Ok::<bool, TractError>(false),
            model.node_seq(),
            model.output_seq(),
        );
    }
    Ok(false)
}

/// A graph that has the nodes, operators and edges of another keeps the
/// ids, names and operators that the other has kept.
proof fn lemma_same_graph_keeps(start: Seq<Node<Op>>, before: Seq<Node<Op>>, after: Seq<Node<Op>>)
    requires
        before.len() >= start.len(),
        forall|v: int|
            0 <= v < start.len() ==> (#[trigger] before[v]).id == start[v].id && before[v].name == start[v].name
                && before[v].op == start[v].op,
        crate::model::same_graph(before, after),
    ensures
        forall|v: int|
            0 <= v < start.len() ==> (#[trigger] after[v]).id == start[v].id && after[v].name == start[v].name
                && after[v].op == start[v].op,
        deps_of(after) == deps_of(before),
{
    assert forall|v: int| 0 <= v < start.len() implies (#[trigger] after[v]).id == start[v].id && after[v].name
        == start[v].name && after[v].op == start[v].op by {
        assert(before[v].id == start[v].id);
    }
    assert(deps_of(after) =~= deps_of(before)) by {
        assert forall|v: int| 0 <= v < before.len() implies deps_of(after)[v] =~= deps_of(before)[v] by {
            assert(after[v].inputs == before[v].inputs);
        }
    }
}

} // verus!
