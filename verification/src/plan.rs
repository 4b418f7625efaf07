//! Running a model: one cell per node, which holds the node's tensors once
//! they are computed. A cell that is filled stays as it is for the rest of
//! the session.

use std::sync::Arc;
use vstd::prelude::*;
use crate::errors::TractError;
use crate::model::{Model, Node, OutletId};
use crate::ops::trivial::values_of;
use crate::ops::{is_outcome, Kernels, Op, Outcome};
use crate::share::share;
use crate::tensor::{Tensor, TensorValue};

verus! {

/// The cells of a session: for each node, its tensors if computed.
pub type Cells = Seq<Option<Seq<TensorValue>>>;

/// The state of one execution session.
#[derive(Debug)]
pub struct SimpleState {
    values: Vec<Option<Vec<Arc<Tensor>>>>,
}

/// Why a node cannot be computed now, if it cannot: it is no node of the
/// graph or of the session, or it reads a node that is not computed, or a
/// slot that its node has not filled.
pub open spec fn obstacle(nodes: Seq<Node<Op>>, cells: Cells, node: usize) -> Option<TractError> {
    if node >= nodes.len() || node >= cells.len() {
        Some(TractError::MalformedGraph)
    } else if exists|k: int| 0 <= k < nodes[node as int].inputs@.len() && !#[trigger] readable(nodes, cells, node, k) {
        Some(TractError::NotReady)
    } else {
        None
    }
}

/// Input `k` of `node` reads a tensor that is computed.
pub open spec fn readable(nodes: Seq<Node<Op>>, cells: Cells, node: usize, k: int) -> bool {
    let o = nodes[node as int].inputs@[k];
    o.node < cells.len() && cells[o.node as int] is Some && o.slot < cells[o.node as int].unwrap().len()
}

/// The tensors that `node` reads, slot by slot.
pub open spec fn inputs_of(nodes: Seq<Node<Op>>, cells: Cells, node: usize) -> Seq<TensorValue> {
    Seq::new(
        nodes[node as int].inputs@.len(),
        |k: int| cells[nodes[node as int].inputs@[k].node as int].unwrap()[nodes[node as int].inputs@[k].slot as int],
    )
}

/// The cells after `node` was to be computed and its operator gave
/// `outcome`: the node's cell is filled with the tensors; after a failure
/// the cells are as before.
pub open spec fn committed(cells: Cells, node: usize, outcome: Outcome) -> Cells {
    match outcome {
        Outcome::Tensors(t) => cells.update(node as int, Some(t)),
        Outcome::Failure(_) => cells,
    }
}

/// The cells after a node was to be computed, and the failure if there was
/// one, for a node whose operator the library evaluates itself: a node
/// that is computed stays as it is; a node that cannot be computed now
/// fails on its obstacle; else the operator gives its output, or fails.
pub open spec fn computed(nodes: Seq<Node<Op>>, cells: Cells, node: usize) -> (Cells, Option<TractError>) {
    if node < cells.len() && cells[node as int] is Some {
        (cells, None)
    } else {
        match obstacle(nodes, cells, node) {
            Some(e) => (cells, Some(e)),
            None => match nodes[node as int].op.output(inputs_of(nodes, cells, node)) {
                Outcome::Tensors(t) => (cells.update(node as int, Some(t)), None),
                Outcome::Failure(e) => (cells, Some(e)),
            },
        }
    }
}

/// The cells after the nodes of `plan` from place `from` on were computed
/// in order, up to the first failure, and that failure.
pub open spec fn ran(nodes: Seq<Node<Op>>, cells: Cells, plan: Seq<usize>, from: nat) -> (Cells, Option<TractError>)
    decreases plan.len() - from,
{
    if from >= plan.len() {
        (cells, None)
    } else {
        let (next, failure) = computed(nodes, cells, plan[from as int]);
        if failure is Some {
            (next, failure)
        } else {
            ran(nodes, next, plan, from + 1)
        }
    }
}

/// The failure of an outcome, if it is one.
pub open spec fn failure_in(outcome: Outcome) -> Option<TractError> {
    match outcome {
        Outcome::Tensors(_) => None,
        Outcome::Failure(e) => Some(e),
    }
}

/// Computing `node` on the cells `before` may leave the cells `after` and
/// the failure `failure`: a node that is computed stays as it is, and
/// nothing fails; a node that cannot be computed now fails on its
/// obstacle, and nothing changes; else the outcome of its operator is
/// committed, and its failure is the failure. An operator of the library
/// has the outcome `Op::output`; for a kernel of the host any outcome may
/// come.
pub open spec fn step_gives(
    nodes: Seq<Node<Op>>,
    before: Cells,
    node: usize,
    after: Cells,
    failure: Option<TractError>,
) -> bool {
    if node < before.len() && before[node as int] is Some {
        after == before && failure is None
    } else {
        match obstacle(nodes, before, node) {
            Some(e) => after == before && failure == Some(e),
            None => exists|outcome: Outcome|
                (nodes[node as int].op.native() ==> outcome == nodes[node as int].op.output(
                    inputs_of(nodes, before, node),
                )) && after == #[trigger] committed(before, node, outcome) && failure == failure_in(outcome),
        }
    }
}

/// Running the nodes of `plan` from place `from` on, on the cells
/// `cells`, may leave the cells `after` and the failure `failure`: the
/// nodes are computed in order, each as `step_gives` says, up to the first
/// failure, which is the failure of the run.
pub open spec fn run_gives(
    nodes: Seq<Node<Op>>,
    cells: Cells,
    plan: Seq<usize>,
    from: nat,
    after: Cells,
    failure: Option<TractError>,
) -> bool
    decreases plan.len() - from,
{
    if from >= plan.len() {
        after == cells && failure is None
    } else {
        exists|next: Cells, stop: Option<TractError>| #[trigger]
            step_gives(nodes, cells, plan[from as int], next, stop) && if stop is Some {
                after == next && failure == stop
            } else {
                run_gives(nodes, next, plan, from + 1, after, failure)
            }
    }
}

/// Every node of `plan` is computed.
pub open spec fn all_computed(cells: Cells, plan: Seq<usize>) -> bool {
    forall|k: int| 0 <= k < plan.len() ==> (#[trigger] plan[k]) < cells.len() && cells[plan[k] as int] is Some
}

/// The library evaluates the operator of every node of `plan` itself.
pub open spec fn all_native(nodes: Seq<Node<Op>>, plan: Seq<usize>) -> bool {
    forall|k: int| 0 <= k < plan.len() && plan[k] < nodes.len() ==> (#[trigger] nodes[plan[k] as int]).op.native()
}

/// The failure of a result, if it is one.
pub open spec fn failure_of(r: Result<(), TractError>) -> Option<TractError> {
    match r {
        Ok(_) => None,
        Err(e) => Some(e),
    }
}

/// Every cell that was filled in `before` is the same in `after`, and no
/// cell was added or removed.
pub open spec fn keeps(before: Cells, after: Cells) -> bool {
    &&& after.len() == before.len()
    &&& forall|i: int| 0 <= i < before.len() && (#[trigger] before[i]) is Some ==> after[i] == before[i]
}

impl SimpleState {
    /// The cells.
    pub closed spec fn cells(&self) -> Cells {
        Seq::new(
            self.values@.len(),
            |i: int|
                match self.values@[i] {
                    Some(v) => Some(values_of(v@)),
                    None => None,
                },
        )
    }

    /// A session for `model`, with nothing computed.
    pub fn new(model: &Model) -> (r: SimpleState)
        ensures
            r.cells().len() == model.node_seq().len(),
            forall|i: int| 0 <= i < r.cells().len() ==> r.cells()[i] is None,
    {
        let n = model.nodes().len();
        let mut values: Vec<Option<Vec<Arc<Tensor>>>> = Vec::new();
        let mut i: usize = 0;
        while i < n
            invariant
                i <= n,
                values@.len() == i,
                forall|k: int| 0 <= k < i ==> values@[k] is None,
            decreases n - i,
        {
            values.push(None);
            i += 1;
        }
        SimpleState { values }
    }

    /// Seeds the node `node` with one tensor: its cell is filled, whatever
    /// it held. The cells of the nodes that read it are left as they are:
    /// who seeds a node again after they were computed starts a new session
    /// to have them computed again. A node that the session has no cell for
    /// is refused.
    pub fn set_value(&mut self, node: usize, value: Arc<Tensor>) -> (r: Result<(), TractError>)
        ensures
            node < old(self).cells().len() ==> r is Ok && final(self).cells() == old(self).cells().update(
                node as int,
                Some(seq![value@]),
            ),
            node >= old(self).cells().len() ==> r == Err::<(), TractError>(TractError::MalformedGraph) && final(self).cells() == old(self).cells(),
    {
        let mut outputs: Vec<Arc<Tensor>> = Vec::new();
        outputs.push(value);
        proof {
            assert(values_of(outputs@) =~= seq![value@]);
        }
        self.set_outputs(node, outputs)
    }

    /// Seeds the node `node` with all its tensors.
    pub fn set_outputs(&mut self, node: usize, outputs: Vec<Arc<Tensor>>) -> (r: Result<(), TractError>)
        ensures
            node < old(self).cells().len() ==> r is Ok && final(self).cells() == old(self).cells().update(
                node as int,
                Some(values_of(outputs@)),
            ),
            node >= old(self).cells().len() ==> r == Err::<(), TractError>(TractError::MalformedGraph) && final(self).cells() == old(self).cells(),
    {
        if node >= self.values.len() {
            return Err(TractError::MalformedGraph);
        }
        self.values.set(node, Some(outputs));
        proof {
            assert(self.cells() =~= old(self).cells().update(node as int, Some(values_of(outputs@))));
        }
        Ok(())
    }

    /// Seeds several nodes, one after the other. It stops at the first
    /// node that the session has no cell for.
    pub fn set_values(&mut self, values: Vec<(usize, Arc<Tensor>)>) -> (r: Result<(), TractError>)
        ensures
            final(self).cells() == seeded(old(self).cells(), pairs_of(values@), 0).1,
            seeded(old(self).cells(), pairs_of(values@), 0).0 ==> r is Ok,
            !seeded(old(self).cells(), pairs_of(values@), 0).0 ==> r == Err::<(), TractError>(
                TractError::MalformedGraph,
            ),
    {
        let ghost pairs = pairs_of(values@);
        let mut k: usize = 0;
        while k < values.len()
            invariant
                k <= values.len(),
                pairs == pairs_of(values@),
                seeded(old(self).cells(), pairs, 0) == seeded(self.cells(), pairs, k as nat),
            decreases values.len() - k,
        {
            let node = values[k].0;
            let t = share(&values[k].1);
            assert(pairs[k as int] == (node, t@));
            match self.set_value(node, t) {
                Ok(()) => {},
                Err(e) => {
                    return Err(e);
                },
            }
            k += 1;
        }
        Ok(())
    }

    /// The tensors of a computed node. They are shared with the session,
    /// which keeps them.
    pub fn take(&self, node: usize) -> (r: Result<Vec<Arc<Tensor>>, TractError>)
        ensures
            node < self.cells().len() && self.cells()[node as int] is Some ==> r is Ok && values_of(r->Ok_0@)
                == self.cells()[node as int].unwrap(),
            !(node < self.cells().len() && self.cells()[node as int] is Some) ==> r == Err::<
                Vec<Arc<Tensor>>,
                TractError,
            >(TractError::NotComputed),
    {
        if node >= self.values.len() {
            return Err(TractError::NotComputed);
        }
        match &self.values[node] {
            Some(v) => {
                let out = share_all(v);
                Ok(out)
            },
            None => Err(TractError::NotComputed),
        }
    }

    /// Whether the node is computed.
    pub fn is_computed(&self, node: usize) -> (r: bool)
        ensures
            r == (node < self.cells().len() && self.cells()[node as int] is Some),
    {
        node < self.values.len() && self.values[node].is_some()
    }

    /// The tensors that the node reads, shared; or why it cannot be
    /// computed now.
    pub fn gather_inputs(&self, model: &Model, node: usize) -> (r: Result<Vec<Arc<Tensor>>, TractError>)
        ensures
            match obstacle(model.node_seq(), self.cells(), node) {
                Some(e) => r == Err::<Vec<Arc<Tensor>>, TractError>(e),
                None => r is Ok && values_of(r->Ok_0@) == inputs_of(model.node_seq(), self.cells(), node),
            },
    {
        let nodes = model.nodes();
        if node >= nodes.len() || node >= self.values.len() {
            return Err(TractError::MalformedGraph);
        }
        let ins = &nodes[node].inputs;
        let mut out: Vec<Arc<Tensor>> = Vec::new();
        let mut k: usize = 0;
        while k < ins.len()
            invariant
                k <= ins.len(),
                nodes@ == model.node_seq(),
                node < nodes@.len(),
                node < self.values@.len(),
                ins@ == nodes@[node as int].inputs@,
                forall|j: int| 0 <= j < k ==> readable(nodes@, self.cells(), node, j),
                out@.len() == k,
                forall|j: int| 0 <= j < k ==> (#[trigger] out@[j])@ == inputs_of(nodes@, self.cells(), node)[j],
            decreases ins.len() - k,
        {
            let o = ins[k];
            if o.node >= self.values.len() {
                proof {
                    assert(!readable(nodes@, self.cells(), node, k as int));
                }
                return Err(TractError::NotReady);
            }
            match &self.values[o.node] {
                Some(v) => {
                    if o.slot >= v.len() {
                        proof {
                            assert(!readable(nodes@, self.cells(), node, k as int));
                        }
                        return Err(TractError::NotReady);
                    }
                    out.push(share(&v[o.slot]));
                },
                None => {
                    proof {
                        assert(!readable(nodes@, self.cells(), node, k as int));
                    }
                    return Err(TractError::NotReady);
                },
            }
            k += 1;
        }
        proof {
            assert(values_of(out@) =~= inputs_of(nodes@, self.cells(), node));
        }
        Ok(out)
    }

    /// Records what the operator of `node` gave: the tensors fill the
    /// node's cell; a failure is handed on and changes nothing.
    pub fn commit(&mut self, node: usize, outcome: Result<Vec<Arc<Tensor>>, TractError>) -> (r: Result<
        (),
        TractError,
    >)
        requires
            node < old(self).cells().len(),
        ensures
            match outcome {
                Ok(t) => r is Ok && final(self).cells() == old(self).cells().update(
                    node as int,
                    Some(values_of(t@)),
                ),
                Err(e) => r == Err::<(), TractError>(e) && final(self).cells() == old(self).cells(),
            },
    {
        match outcome {
            Ok(t) => self.set_outputs(node, t),
            Err(e) => Err(e),
        }
    }

    /// Computes one node, unless it is computed already: then nothing is
    /// evaluated and nothing changes. Else every node that it reads must be
    /// computed already; its operator is evaluated on their tensors, which
    /// are shared and not copied, and the tensors it gives fill the node's
    /// cell. A failure of the operator is handed on and leaves the cells as
    /// they were.
    pub fn compute_one<K: Kernels>(&mut self, model: &Model, node: usize, host: &K) -> (r: Result<(), TractError>)
        ensures
            keeps(old(self).cells(), final(self).cells()),
            step_gives(model.node_seq(), old(self).cells(), node, final(self).cells(), failure_of(r)),
            node >= model.node_seq().len() || model.node_seq()[node as int].op.native() ==> (
                final(self).cells(),
                failure_of(r),
            ) == computed(model.node_seq(), old(self).cells(), node),
            forall|i: int| 0 <= i < old(self).cells().len() && i != node ==> final(self).cells()[i] == old(self).cells()[i],
            node < old(self).cells().len() && old(self).cells()[node as int] is Some ==> r is Ok && final(self).cells() == old(self).cells(),
            !(node < old(self).cells().len() && old(self).cells()[node as int] is Some) ==> match obstacle(
                model.node_seq(),
                old(self).cells(),
                node,
            ) {
                Some(e) => r == Err::<(), TractError>(e) && final(self).cells() == old(self).cells(),
                None => {
                    let op = model.node_seq()[node as int].op;
                    let inputs = inputs_of(model.node_seq(), old(self).cells(), node);
                    &&& r is Ok ==> final(self).cells()[node as int] is Some
                    &&& r is Err ==> final(self).cells() == old(self).cells()
                    &&& op.native() ==> final(self).cells() == committed(old(self).cells(), node, op.output(inputs))
                        && (r is Ok <==> op.output(inputs) is Tensors) && (op.output(inputs) matches Outcome::Failure(e)
                        ==> r == Err::<(), TractError>(e))
                },
            },
    {
        if self.is_computed(node) {
            return Ok(());
        }
        let inputs = match self.gather_inputs(model, node) {
            Ok(i) => i,
            Err(e) => {
                return Err(e);
            },
        };
        let nodes = model.nodes();
        let ghost given = values_of(inputs@);
        let outcome = nodes[node].op.eval(inputs, host);
        let ghost came = if outcome is Ok {
            Outcome::Tensors(values_of(outcome->Ok_0@))
        } else {
            Outcome::Failure(outcome->Err_0)
        };
        let r = self.commit(node, outcome);
        proof {
            assert(self.cells() == committed(old(self).cells(), node, came));
            assert(failure_of(r) == failure_in(came));
            if nodes@[node as int].op.native() {
                assert(came == nodes@[node as int].op.output(given));
            }
        }
        r
    }

    /// Runs a plan: computes its nodes in order, each unless it is computed
    /// already, and stops at the first failure. What was computed before a
    /// failure stays computed. `run_gives` follows the run node by node.
    /// A plan whose nodes are all computed succeeds and changes nothing. A
    /// run fails at the first node of the plan that is not computed in the
    /// end: on the obstacle of that node if it has one, else on the failure
    /// of its operator. For a plan of operators of the library alone the
    /// result is `ran`.
    pub fn run<K: Kernels>(&mut self, model: &Model, plan: &Vec<usize>, host: &K) -> (r: Result<(), TractError>)
        ensures
            keeps(old(self).cells(), final(self).cells()),
            run_gives(model.node_seq(), old(self).cells(), plan@, 0, final(self).cells(), failure_of(r)),
            all_native(model.node_seq(), plan@) ==> (final(self).cells(), failure_of(r)) == ran(
                model.node_seq(),
                old(self).cells(),
                plan@,
                0,
            ),
            all_computed(old(self).cells(), plan@) ==> r is Ok && final(self).cells() == old(self).cells(),
            forall|i: int|
                0 <= i < old(self).cells().len() && !plan@.contains(i as usize) ==> final(self).cells()[i] == old(self).cells()[i],
            r is Ok ==> all_computed(final(self).cells(), plan@),
            r matches Err(e) ==> exists|k: int|
                0 <= k < plan@.len() && all_computed(final(self).cells(), plan@.take(k)) && !(#[trigger] plan@[k]
                    < final(self).cells().len() && final(self).cells()[plan@[k] as int] is Some) && (obstacle(
                    model.node_seq(),
                    final(self).cells(),
                    plan@[k],
                ) matches Some(o) ==> e == o) && (obstacle(model.node_seq(), final(self).cells(), plan@[k]) is None
                    && model.node_seq()[plan@[k] as int].op.native() ==> model.node_seq()[plan@[k] as int].op.output(
                    inputs_of(model.node_seq(), final(self).cells(), plan@[k]),
                ) == Outcome::Failure(e)),
    {
        let mut k: usize = 0;
        proof {
            lemma_leads_from_start(model.node_seq(), self.cells(), plan@);
        }
        while k < plan.len()
            invariant
                k <= plan.len(),
                keeps(old(self).cells(), self.cells()),
                forall|i: int|
                    0 <= i < old(self).cells().len() && !plan@.contains(i as usize) ==> self.cells()[i] == old(self).cells()[i],
                forall|j: int|
                    0 <= j < k ==> (#[trigger] plan@[j]) < self.cells().len() && self.cells()[plan@[j] as int]
                        is Some,
                all_native(model.node_seq(), plan@) ==> ran(model.node_seq(), self.cells(), plan@, k as nat) == ran(
                    model.node_seq(),
                    old(self).cells(),
                    plan@,
                    0,
                ),
                all_computed(old(self).cells(), plan@) ==> self.cells() == old(self).cells(),
                leads(model.node_seq(), self.cells(), plan@, k as nat, old(self).cells()),
            decreases plan.len() - k,
        {
            let ghost before = self.cells();
            let node = plan[k];
            proof {
                if all_native(model.node_seq(), plan@) && node < model.node_seq().len() {
                    assert(model.node_seq()[plan@[k as int] as int].op.native());
                }
                if all_computed(old(self).cells(), plan@) {
                    assert(plan@[k as int] < before.len() && before[plan@[k as int] as int] is Some);
                }
            }
            match self.compute_one(model, node, host) {
                Ok(()) => {},
                Err(e) => {
                    proof {
                        lemma_leads_stop(model.node_seq(), before, plan@, k as nat, old(self).cells(), self.cells(), e);
                        assert(self.cells() == before);
                        assert(all_computed(self.cells(), plan@.take(k as int))) by {
                            assert forall|j: int| 0 <= j < plan@.take(k as int).len() implies (#[trigger] plan@.take(
                                k as int,
                            )[j]) < self.cells().len() && self.cells()[plan@.take(k as int)[j] as int] is Some by {
                                assert(plan@[j] < before.len());
                            }
                        }
                    }
                    return Err(e);
                },
            }
            proof {
                lemma_leads_on(model.node_seq(), before, plan@, k as nat, old(self).cells(), self.cells());
                assert(plan@.contains(node));
                assert forall|j: int| 0 <= j < k + 1 implies (#[trigger] plan@[j]) < self.cells().len()
                    && self.cells()[plan@[j] as int] is Some by {
                    if j < k {
                        assert(before[plan@[j] as int] is Some);
                    }
                }
            }
            k += 1;
        }
        proof {
            lemma_leads_end(model.node_seq(), self.cells(), plan@, old(self).cells());
        }
        Ok(())
    }
}

/// The run from place `from` on, on the cells `cells`, leaves nothing that
/// the whole run on the cells `start` does not leave.
#[verifier::opaque]
spec fn leads(nodes: Seq<Node<Op>>, cells: Cells, plan: Seq<usize>, from: nat, start: Cells) -> bool {
    forall|after: Cells, failure: Option<TractError>| #[trigger]
        run_gives(nodes, cells, plan, from, after, failure) ==> run_gives(nodes, start, plan, 0, after, failure)
}

proof fn lemma_leads_from_start(nodes: Seq<Node<Op>>, start: Cells, plan: Seq<usize>)
    ensures
        leads(nodes, start, plan, 0, start),
{
    reveal(leads);
}

/// A step that fails ends the run.
proof fn lemma_leads_stop(
    nodes: Seq<Node<Op>>,
    cells: Cells,
    plan: Seq<usize>,
    from: nat,
    start: Cells,
    next: Cells,
    e: TractError,
)
    requires
        from < plan.len(),
        leads(nodes, cells, plan, from, start),
        step_gives(nodes, cells, plan[from as int], next, Some(e)),
    ensures
        run_gives(nodes, start, plan, 0, next, Some(e)),
{
    reveal(leads);
    assert(run_gives(nodes, cells, plan, from, next, Some(e)));
}

/// A step that succeeds hands the run on.
proof fn lemma_leads_on(nodes: Seq<Node<Op>>, cells: Cells, plan: Seq<usize>, from: nat, start: Cells, next: Cells)
    requires
        from < plan.len(),
        leads(nodes, cells, plan, from, start),
        step_gives(nodes, cells, plan[from as int], next, None),
    ensures
        leads(nodes, next, plan, from + 1, start),
{
    reveal(leads);
    assert forall|after: Cells, failure: Option<TractError>| #[trigger]
        run_gives(nodes, next, plan, from + 1, after, failure) implies run_gives(
        nodes,
        start,
        plan,
        0,
        after,
        failure,
    ) by {
        assert(step_gives(nodes, cells, plan[from as int], next, None));
        assert(run_gives(nodes, cells, plan, from, after, failure));
    }
}

/// A run that has come to the end of the plan has succeeded.
proof fn lemma_leads_end(nodes: Seq<Node<Op>>, cells: Cells, plan: Seq<usize>, start: Cells)
    requires
        leads(nodes, cells, plan, plan.len(), start),
    ensures
        run_gives(nodes, start, plan, 0, cells, None),
{
    reveal(leads);
    assert(run_gives(nodes, cells, plan, plan.len(), cells, None));
}

/// The nodes to seed with the values of their tensors.
pub open spec fn pairs_of(values: Seq<(usize, Arc<Tensor>)>) -> Seq<(usize, TensorValue)> {
    Seq::new(values.len(), |i: int| (values[i].0, values[i].1@))
}

/// The outcome of seeding the pairs from `from` on, one after the other:
/// whether all of them had a cell, and the cells in the end.
pub open spec fn seeded(cells: Cells, pairs: Seq<(usize, TensorValue)>, from: nat) -> (bool, Cells)
    decreases pairs.len() - from,
{
    if from >= pairs.len() {
        (true, cells)
    } else if pairs[from as int].0 >= cells.len() {
        (false, cells)
    } else {
        seeded(cells.update(pairs[from as int].0 as int, Some(seq![pairs[from as int].1])), pairs, from + 1)
    }
}

/// One more handle on each tensor of a list.
fn share_all(v: &Vec<Arc<Tensor>>) -> (r: Vec<Arc<Tensor>>)
    ensures
        r@ == v@,
{
    let mut out: Vec<Arc<Tensor>> = Vec::new();
    let mut i: usize = 0;
    while i < v.len()
        invariant
            i <= v.len(),
            out@ == v@.take(i as int),
        decreases v.len() - i,
    {
        out.push(share(&v[i]));
        proof {
            assert(v@.take(i as int).push(v@[i as int]) =~= v@.take(i + 1));
        }
        i += 1;
    }
    proof {
        assert(v@.take(v@.len() as int) =~= v@);
    }
    out
}

/// Computing a node a second time changes nothing: once a node is
/// computed, its cell stays as it is.
pub proof fn lemma_computed_once(nodes: Seq<Node<Op>>, cells: Cells, node: usize)
    requires
        computed(nodes, cells, node).1 is None,
    ensures
        computed(nodes, computed(nodes, cells, node).0, node) == computed(nodes, cells, node),
        node < computed(nodes, cells, node).0.len(),
        computed(nodes, cells, node).0[node as int] is Some,
{
}

/// Running a plan a second time changes nothing.
pub proof fn lemma_ran_once(nodes: Seq<Node<Op>>, cells: Cells, plan: Seq<usize>)
    requires
        ran(nodes, cells, plan, 0).1 is None,
    ensures
        ran(nodes, ran(nodes, cells, plan, 0).0, plan, 0) == ran(nodes, cells, plan, 0),
{
    lemma_ran_filled(nodes, cells, plan, 0);
    let done = ran(nodes, cells, plan, 0).0;
    lemma_filled_stays(nodes, done, plan, 0);
}

/// After a run without failure every node of the plan is computed, and
/// what was computed before is as it was.
proof fn lemma_ran_filled(nodes: Seq<Node<Op>>, cells: Cells, plan: Seq<usize>, from: nat)
    requires
        ran(nodes, cells, plan, from).1 is None,
    ensures
        keeps(cells, ran(nodes, cells, plan, from).0),
        forall|k: int|
            from <= k < plan.len() ==> (#[trigger] plan[k]) < ran(nodes, cells, plan, from).0.len() && ran(
                nodes,
                cells,
                plan,
                from,
            ).0[plan[k] as int] is Some,
    decreases plan.len() - from,
{
    if from < plan.len() {
        let (next, failure) = computed(nodes, cells, plan[from as int]);
        lemma_ran_filled(nodes, next, plan, from + 1);
        let done = ran(nodes, next, plan, from + 1).0;
        assert(next[plan[from as int] as int] is Some);
        assert(done[plan[from as int] as int] == next[plan[from as int] as int]);
        assert(keeps(cells, next));
        assert forall|i: int| 0 <= i < cells.len() && (#[trigger] cells[i]) is Some implies done[i] == cells[i] by {
            assert(next[i] == cells[i]);
            assert(next[i] is Some);
        }
    }
}

/// A run over nodes that are all computed changes nothing.
proof fn lemma_filled_stays(nodes: Seq<Node<Op>>, cells: Cells, plan: Seq<usize>, from: nat)
    requires
        forall|k: int| from <= k < plan.len() ==> (#[trigger] plan[k]) < cells.len() && cells[plan[k] as int] is Some,
    ensures
        ran(nodes, cells, plan, from) == (cells, None::<TractError>),
    decreases plan.len() - from,
{
    if from < plan.len() {
        assert(plan[from as int] < cells.len());
        lemma_filled_stays(nodes, cells, plan, from + 1);
    }
}

} // verus!
