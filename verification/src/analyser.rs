//! Inference across the graph: the rules of every node are solved against
//! what is known of the outlets it reads and of its own, and what the
//! solving finds is noted of those outlets; this is repeated over all the
//! nodes until a whole pass changes nothing.

use vstd::prelude::*;
use crate::errors::TractError;
use crate::facts::{FactValue, TensorFact, TypeFact};
use crate::model::{fact_table, nodes_linked, outlet_exists, same_graph, with_fact, Model, Node, OutletId};
use crate::ops::Op;
use crate::solver::{copy_facts, solve, solved, Facts, FactsValue, Rule};

verus! {

/// What is known of every outlet: for each node, for each of its output
/// slots.
pub type Table = Seq<Seq<FactValue>>;

/// What is known of the tensors of a node: of the outlets that it reads,
/// and of its own.
pub open spec fn gathered(nodes: Seq<Node<Op>>, table: Table, node: int) -> FactsValue {
    FactsValue {
        inputs: Seq::new(
            nodes[node].inputs@.len(),
            |k: int| table[nodes[node].inputs@[k].node as int][nodes[node].inputs@[k].slot as int],
        ),
        outputs: table[node],
    }
}

/// The table once `found[k]` is noted of the outlet `outlets[k]`, for each
/// `k` below `upto`, one after the other: what was known of the outlet and
/// what was found are unified. With it comes whether any of that was news.
/// It is undefined where what was known and what was found do not agree.
pub open spec fn written(table: Table, outlets: Seq<OutletId>, found: Seq<FactValue>, upto: nat) -> Option<
    (Table, bool),
>
    decreases upto,
{
    if upto == 0 {
        Some((table, false))
    } else {
        match written(table, outlets, found, (upto - 1) as nat) {
            Some((t, news)) => {
                let o = outlets[upto - 1];
                let known = t[o.node as int][o.slot as int];
                if known.agrees(found[upto - 1]) {
                    Some(
                        (
                            with_fact(t, o, known.unified(found[upto - 1])),
                            news || known.unified(found[upto - 1]) != known,
                        ),
                    )
                } else {
                    None
                }
            },
            None => None,
        }
    }
}

/// The outlets of a node with `n` output slots.
pub open spec fn own_outlets(node: usize, n: nat) -> Seq<OutletId> {
    Seq::new(n, |s: int| OutletId { node, slot: s as usize })
}

/// The table after the inference on one node: the rules of its operator
/// are solved against what is known of its tensors, and what is found is
/// noted of the outlets that it reads, and then of its own.
pub open spec fn node_step(nodes: Seq<Node<Op>>, table: Table, node: usize, budget: nat) -> Result<
    (Table, bool),
    TractError,
> {
    let n = nodes[node as int];
    match n.op.rules_spec(n.inputs@.len() as usize, n.outputs@.len() as usize) {
        Err(e) => Err(e),
        Ok(rules) => match solved(rules, gathered(nodes, table, node as int), budget) {
            Err(e) => Err(e),
            Ok(s) => match written(table, n.inputs@, s.facts.inputs, n.inputs@.len()) {
                None => Err(TractError::InferenceContradiction),
                Some((t, news)) => match written(
                    t,
                    own_outlets(node, n.outputs@.len()),
                    s.facts.outputs,
                    n.outputs@.len(),
                ) {
                    None => Err(TractError::InferenceContradiction),
                    Some((t2, more)) => Ok((t2, news || more)),
                },
            },
        },
    }
}

/// The table after the inference on the nodes from `from` on, in the order
/// of their ids, and whether any of them changed it.
pub open spec fn pass_nodes(nodes: Seq<Node<Op>>, table: Table, changed: bool, from: nat, budget: nat) -> Result<
    (Table, bool),
    TractError,
>
    decreases nodes.len() - from,
{
    if from >= nodes.len() {
        Ok((table, changed))
    } else {
        match node_step(nodes, table, from as usize, budget) {
            Err(e) => Err(e),
            Ok((t, news)) => pass_nodes(nodes, t, changed || news, from + 1, budget),
        }
    }
}

/// The table after pass upon pass over the nodes, until a pass changes
/// nothing or `passes` passes are done, and whether it ended on a pass that
/// changed nothing.
pub open spec fn analysed(nodes: Seq<Node<Op>>, table: Table, passes: nat, budget: nat) -> Result<
    (Table, bool),
    TractError,
>
    decreases passes,
{
    if passes == 0 {
        Ok((table, false))
    } else {
        match pass_nodes(nodes, table, false, 0, budget) {
            Err(e) => Err(e),
            Ok((t, changed)) => if changed {
                analysed(nodes, t, (passes - 1) as nat, budget)
            } else {
                Ok((t, true))
            },
        }
    }
}

/// Whether two facts say the same.
fn same_fact(a: &TensorFact, b: &TensorFact) -> (r: bool)
    ensures
        r == (a@ == b@),
{
    if a.datum_type != b.datum_type || !a.shape.same(&b.shape) {
        return false;
    }
    match (&a.value, &b.value) {
        (crate::facts::ValueFact::Any, crate::facts::ValueFact::Any) => true,
        (crate::facts::ValueFact::Only(x), crate::facts::ValueFact::Only(y)) => x.same(y),
        _ => false,
    }
}

/// Notes `found[k]` of the outlet `outlets[k]`, for each `k`: see
/// `written`. It tells whether anything new was noted.
#[verifier::loop_isolation(false)]
fn write_back(model: &mut Model, outlets: &Vec<OutletId>, found: &Vec<TensorFact>) -> (r: Result<bool, TractError>)
    requires
        old(model).wf(),
        outlets@.len() == found@.len(),
        forall|k: int| 0 <= k < outlets@.len() ==> outlet_exists(old(model).node_seq(), #[trigger] outlets@[k]),
    ensures
        final(model).wf(),
        final(model).input_seq() == old(model).input_seq(),
        final(model).output_seq() == old(model).output_seq(),
        same_graph(old(model).node_seq(), final(model).node_seq()),
        match written(
            fact_table(old(model).node_seq()),
            outlets@,
            Seq::new(found@.len(), |k: int| found@[k]@),
            outlets@.len(),
        ) {
            Some((t, news)) => r is Ok && fact_table(final(model).node_seq()) == t && r->Ok_0 == news,
            None => r is Err && r->Err_0 == TractError::InferenceContradiction,
        },
{
    let ghost start = fact_table(model.node_seq());
    let ghost nodes0 = model.node_seq();
    let ghost values = Seq::new(found@.len(), |k: int| found@[k]@);
    let mut changed = false;
    let mut k: usize = 0;
    while k < outlets.len()
        invariant
            k <= outlets.len(),
            model.wf(),
            model.input_seq() == old(model).input_seq(),
            model.output_seq() == old(model).output_seq(),
            same_graph(nodes0, model.node_seq()),
            written(start, outlets@, values, k as nat) == Some((fact_table(model.node_seq()), changed)),
        decreases outlets.len() - k,
    {
        let o = outlets[k];
        let ghost before = model.node_seq();
        let ghost table = fact_table(before);
        assert(outlet_exists(nodes0, outlets@[k as int]));
        assert(outlet_exists(before, o));
        let (unified, news) = match model.outlet_fact(o) {
            Ok(known) => {
                assert(known@ == table[o.node as int][o.slot as int]);
                match known.unify(&found[k]) {
                    Ok(u) => {
                        let news = !same_fact(&u, known);
                        (u, news)
                    },
                    Err(e) => {
                        proof {
                            assert(values[k as int] == found@[k as int]@);
                            assert(written(start, outlets@, values, (k + 1) as nat) is None);
                            lemma_written_fails(start, outlets@, values, (k + 1) as nat, outlets@.len());
                        }
                        return Err(e);
                    },
                }
            },
            Err(e) => {
                return Err(TractError::InferenceContradiction);
            },
        };
        let ghost u = unified@;
        let _ = model.set_outlet_fact(o, unified);
        proof {
            assert(values[k as int] == found@[k as int]@);
            let after = model.node_seq();
            assert(fact_table(after) == with_fact(table, o, u));
            assert(same_graph(nodes0, after)) by {
                assert forall|v: int| 0 <= v < nodes0.len() implies (#[trigger] after[v]).id == nodes0[v].id && after[v].name
                    == nodes0[v].name && after[v].op == nodes0[v].op && after[v].inputs == nodes0[v].inputs
                    && after[v].outputs@.len() == nodes0[v].outputs@.len() by {
                    assert(before[v].id == nodes0[v].id);
                }
            }
        }
        if news {
            changed = true;
        }
        k += 1;
    }
    Ok(changed)
}

/// `a` has the shape of `b`, and each of its facts says all that the one of
/// `b` at its place says.
pub open spec fn table_refines(a: Table, b: Table) -> bool {
    &&& a.len() == b.len()
    &&& forall|v: int| 0 <= v < a.len() ==> (#[trigger] a[v]).len() == b[v].len()
    &&& forall|v: int, s: int| 0 <= v < a.len() && 0 <= s < a[v].len() ==> (#[trigger] a[v][s]).refines(b[v][s])
}

/// Noting one more fact never takes knowledge back.
proof fn lemma_written_step_refines(table: Table, outlets: Seq<OutletId>, found: Seq<FactValue>, k: nat)
    requires
        written(table, outlets, found, k) is Some,
        written(table, outlets, found, k + 1) is Some,
        table_refines(written(table, outlets, found, k).unwrap().0, table),
        0 <= outlets[k as int].node < table.len(),
        0 <= outlets[k as int].slot < table[outlets[k as int].node as int].len(),
    ensures
        table_refines(written(table, outlets, found, k + 1).unwrap().0, written(table, outlets, found, k).unwrap().0),
{
    let mid = written(table, outlets, found, k).unwrap().0;
    let end = written(table, outlets, found, k + 1).unwrap().0;
    let o = outlets[k as int];
    let known = mid[o.node as int][o.slot as int];
    crate::facts::lemma_unified_refines(known, found[k as int]);
    assert forall|v: int, s: int| 0 <= v < end.len() && 0 <= s < end[v].len() implies (#[trigger] end[v][s]).refines(
        mid[v][s],
    ) by {
        crate::solver::lemma_refines_itself(mid[v][s]);
    }
}

/// Noting facts never takes knowledge back, as long as the outlets exist.
pub proof fn lemma_written_refines(table: Table, outlets: Seq<OutletId>, found: Seq<FactValue>, upto: nat)
    requires
        written(table, outlets, found, upto) is Some,
        forall|k: int|
            0 <= k < upto ==> 0 <= (#[trigger] outlets[k]).node < table.len() && 0 <= outlets[k].slot < table[outlets[k].node as int].len(),
    ensures
        table_refines(written(table, outlets, found, upto).unwrap().0, table),
    decreases upto,
{
    if upto == 0 {
        assert forall|v: int, s: int| 0 <= v < table.len() && 0 <= s < table[v].len() implies (#[trigger] table[v][s]).refines(
            table[v][s],
        ) by {
            crate::solver::lemma_refines_itself(table[v][s]);
        }
    } else {
        lemma_written_refines(table, outlets, found, (upto - 1) as nat);
        let mid = written(table, outlets, found, (upto - 1) as nat).unwrap().0;
        let end = written(table, outlets, found, upto).unwrap().0;
        assert(0 <= outlets[upto - 1].node < table.len());
        lemma_written_step_refines(table, outlets, found, (upto - 1) as nat);
        assert forall|v: int, s: int| 0 <= v < end.len() && 0 <= s < end[v].len() implies (#[trigger] end[v][s]).refines(
            table[v][s],
        ) by {
            assert(end[v][s].refines(mid[v][s]));
            assert(mid[v][s].refines(table[v][s]));
            crate::solver::lemma_refines_chain(end[v][s], mid[v][s], table[v][s]);
        }
    }
}

/// Facts that cannot be noted up to some outlet cannot be noted at all.
proof fn lemma_written_fails(table: Table, outlets: Seq<OutletId>, found: Seq<FactValue>, k: nat, n: nat)
    requires
        k <= n,
        written(table, outlets, found, k) is None,
    ensures
        written(table, outlets, found, n) is None,
    decreases n - k,
{
    if k < n {
        lemma_written_fails(table, outlets, found, k, (n - 1) as nat);
    }
}

/// Copies of what is known of the outlets `outlets`.
fn facts_of(model: &Model, outlets: &Vec<OutletId>) -> (r: Vec<TensorFact>)
    requires
        forall|k: int| 0 <= k < outlets@.len() ==> outlet_exists(model.node_seq(), #[trigger] outlets@[k]),
    ensures
        r@.len() == outlets@.len(),
        forall|k: int|
            0 <= k < r@.len() ==> (#[trigger] r@[k])@ == fact_table(
                model.node_seq(),
            )[outlets@[k].node as int][outlets@[k].slot as int],
{
    let mut out: Vec<TensorFact> = Vec::new();
    let mut k: usize = 0;
    while k < outlets.len()
        invariant
            k <= outlets.len(),
            forall|j: int| 0 <= j < outlets@.len() ==> outlet_exists(model.node_seq(), #[trigger] outlets@[j]),
            out@.len() == k,
            forall|j: int|
                0 <= j < k ==> (#[trigger] out@[j])@ == fact_table(
                    model.node_seq(),
                )[outlets@[j].node as int][outlets@[j].slot as int],
        decreases outlets.len() - k,
    {
        assert(outlet_exists(model.node_seq(), outlets@[k as int]));
        match model.outlet_fact(outlets[k]) {
            Ok(f) => {
                out.push(f.duplicate());
            },
            Err(_) => {
                out.push(TensorFact::any());
            },
        }
        k += 1;
    }
    out
}

/// The outlets of a node with `n` output slots.
fn outlets_of(node: usize, n: usize) -> (r: Vec<OutletId>)
    ensures
        r@ == own_outlets(node, n as nat),
{
    let mut out: Vec<OutletId> = Vec::new();
    let mut s: usize = 0;
    while s < n
        invariant
            s <= n,
            out@ == own_outlets(node, s as nat),
        decreases n - s,
    {
        out.push(OutletId { node, slot: s });
        s += 1;
        proof {
            assert(out@ =~= own_outlets(node, s as nat));
        }
    }
    out
}

/// A copy of a list of outlets.
fn copy_outlets(a: &Vec<OutletId>) -> (r: Vec<OutletId>)
    ensures
        r@ == a@,
{
    let mut out: Vec<OutletId> = Vec::new();
    let mut i: usize = 0;
    while i < a.len()
        invariant
            i <= a.len(),
            out@ == a@.take(i as int),
        decreases a.len() - i,
    {
        out.push(a[i]);
        proof {
            assert(a@.take(i as int).push(a@[i as int]) =~= a@.take(i + 1));
        }
        i += 1;
    }
    proof {
        assert(a@.take(a@.len() as int) =~= a@);
    }
    out
}

/// What is known of every outlet in the rows `rows`, node by node.
pub open spec fn rows_of(rows: Seq<Vec<TensorFact>>) -> Table {
    Seq::new(rows.len(), |v: int| Seq::new(rows[v]@.len(), |s: int| rows[v]@[s]@))
}

/// Copies of what is known of every outlet of the graph, node by node.
fn all_facts(model: &Model) -> (r: Vec<Vec<TensorFact>>)
    ensures
        rows_of(r@) == fact_table(model.node_seq()),
{
    let nodes = model.nodes();
    let mut out: Vec<Vec<TensorFact>> = Vec::new();
    let mut v: usize = 0;
    while v < nodes.len()
        invariant
            v <= nodes.len(),
            nodes@ == model.node_seq(),
            out@.len() == v,
            forall|x: int| 0 <= x < v ==> (#[trigger] rows_of(out@)[x]) == fact_table(nodes@)[x],
        decreases nodes.len() - v,
    {
        let row = copy_facts(&nodes[v].outputs);
        let ghost before = out@;
        out.push(row);
        proof {
            assert(rows_of(out@)[v as int] =~= fact_table(nodes@)[v as int]);
            assert forall|x: int| 0 <= x < v + 1 implies (#[trigger] rows_of(out@)[x]) == fact_table(nodes@)[x] by {
                if x < v {
                    assert(out@[x] == before[x]);
                    assert(rows_of(out@)[x] =~= rows_of(before)[x]);
                }
            }
        }
        v += 1;
    }
    proof {
        assert(rows_of(out@) =~= fact_table(nodes@));
    }
    out
}

/// Notes of every outlet of the graph what the rows say, in the place of
/// what was known of it.
#[verifier::loop_isolation(false)]
fn restore(model: &mut Model, rows: &Vec<Vec<TensorFact>>)
    requires
        old(model).wf(),
        table_fits(old(model).node_seq(), rows_of(rows@)),
    ensures
        final(model).wf(),
        final(model).input_seq() == old(model).input_seq(),
        final(model).output_seq() == old(model).output_seq(),
        same_graph(old(model).node_seq(), final(model).node_seq()),
        fact_table(final(model).node_seq()) == rows_of(rows@),
{
    let ghost nodes0 = model.node_seq();
    let ghost want = rows_of(rows@);
    let mut v: usize = 0;
    while v < rows.len()
        invariant
            v <= rows.len(),
            model.wf(),
            model.input_seq() == old(model).input_seq(),
            model.output_seq() == old(model).output_seq(),
            same_graph(nodes0, model.node_seq()),
            forall|x: int| 0 <= x < v ==> (#[trigger] fact_table(model.node_seq())[x]) == want[x],
        decreases rows.len() - v,
    {
        let mut s: usize = 0;
        while s < rows[v].len()
            invariant
                v < rows.len(),
                s <= rows[v as int]@.len(),
                model.wf(),
                model.input_seq() == old(model).input_seq(),
                model.output_seq() == old(model).output_seq(),
                same_graph(nodes0, model.node_seq()),
                forall|x: int| 0 <= x < v ==> (#[trigger] fact_table(model.node_seq())[x]) == want[x],
                forall|y: int| 0 <= y < s ==> (#[trigger] fact_table(model.node_seq())[v as int][y]) == want[v as int][y],
            decreases rows[v as int]@.len() - s,
        {
            let ghost before = model.node_seq();
            let ghost table = fact_table(before);
            proof {
                assert(want[v as int].len() == nodes0[v as int].outputs@.len());
                assert(before[v as int].outputs@.len() == nodes0[v as int].outputs@.len());
                assert(outlet_exists(before, OutletId { node: v, slot: s }));
            }
            let _ = model.set_outlet_fact(OutletId { node: v, slot: s }, rows[v][s].duplicate());
            proof {
                let after = model.node_seq();
                assert(fact_table(after) == with_fact(table, OutletId { node: v, slot: s }, rows@[v as int]@[s as int]@));
                assert(same_graph(nodes0, after)) by {
                    assert forall|x: int| 0 <= x < nodes0.len() implies (#[trigger] after[x]).id == nodes0[x].id
                        && after[x].name == nodes0[x].name && after[x].op == nodes0[x].op && after[x].inputs
                        == nodes0[x].inputs && after[x].outputs@.len() == nodes0[x].outputs@.len() by {
                        assert(before[x].id == nodes0[x].id);
                    }
                }
                assert forall|x: int| 0 <= x < v implies (#[trigger] fact_table(after)[x]) == want[x] by {
                    assert(fact_table(before)[x] == want[x]);
                }
                assert forall|y: int| 0 <= y < s + 1 implies (#[trigger] fact_table(after)[v as int][y]) == want[v as int][y] by {
                    if y < s {
                        assert(fact_table(before)[v as int][y] == want[v as int][y]);
                    }
                }
            }
            s += 1;
        }
        proof {
            let now = model.node_seq();
            assert(now[v as int].outputs@.len() == nodes0[v as int].outputs@.len());
            assert(want[v as int].len() == nodes0[v as int].outputs@.len());
            assert(fact_table(now)[v as int] =~= want[v as int]);
        }
        v += 1;
    }
    proof {
        assert(fact_table(model.node_seq()) =~= want);
    }
}

/// Two graphs that are each the same graph as a third are the same graph.
proof fn lemma_same_graph_chain(a: Seq<Node<Op>>, b: Seq<Node<Op>>, c: Seq<Node<Op>>)
    requires
        same_graph(a, b),
        same_graph(b, c),
    ensures
        same_graph(a, c),
{
    assert forall|x: int| 0 <= x < a.len() implies (#[trigger] c[x]).id == a[x].id && c[x].name == a[x].name && c[x].op
        == a[x].op && c[x].inputs == a[x].inputs && c[x].outputs@.len() == a[x].outputs@.len() by {
        assert(b[x].id == a[x].id);
    }
}

/// The inference on one node: see `node_step`. It tells whether anything
/// new was found. After a failure nothing is known of any outlet but what
/// was known before: an inference that fails leaves nothing of what it
/// found.
pub fn infer_node(model: &mut Model, node: usize, budget: usize) -> (r: Result<bool, TractError>)
    requires
        old(model).wf(),
        node < old(model).node_seq().len(),
    ensures
        final(model).wf(),
        final(model).input_seq() == old(model).input_seq(),
        final(model).output_seq() == old(model).output_seq(),
        same_graph(old(model).node_seq(), final(model).node_seq()),
        match node_step(old(model).node_seq(), fact_table(old(model).node_seq()), node, budget as nat) {
            Ok((t, news)) => r == Ok::<bool, TractError>(news) && fact_table(final(model).node_seq()) == t,
            Err(e) => r == Err::<bool, TractError>(e) && fact_table(final(model).node_seq()) == fact_table(
                old(model).node_seq(),
            ),
        },
{
    let known = all_facts(model);
    match infer_step(model, node, budget) {
        Ok(news) => Ok(news),
        Err(e) => {
            proof {
                assert(table_fits(model.node_seq(), rows_of(known@)));
            }
            let ghost mid = model.node_seq();
            restore(model, &known);
            proof {
                lemma_same_graph_chain(old(model).node_seq(), mid, model.node_seq());
            }
            Err(e)
        },
    }
}

/// The inference on one node, in place: see `node_step`. After a failure,
/// the outlets hold what had been noted before it.
fn infer_step(model: &mut Model, node: usize, budget: usize) -> (r: Result<bool, TractError>)
    requires
        old(model).wf(),
        node < old(model).node_seq().len(),
    ensures
        final(model).wf(),
        final(model).input_seq() == old(model).input_seq(),
        final(model).output_seq() == old(model).output_seq(),
        same_graph(old(model).node_seq(), final(model).node_seq()),
        match node_step(old(model).node_seq(), fact_table(old(model).node_seq()), node, budget as nat) {
            Ok((t, news)) => r is Ok && fact_table(final(model).node_seq()) == t && r->Ok_0 == news,
            Err(e) => r is Err && r->Err_0 == e,
        },
{
    let ghost nodes0 = model.node_seq();
    let ghost table0 = fact_table(nodes0);
    let (rules, reads, own, mut facts) = {
        let nodes = model.nodes();
        let n = &nodes[node];
        proof {
            assert(nodes_linked(nodes@));
            assert forall|k: int| 0 <= k < n.inputs@.len() implies outlet_exists(nodes@, #[trigger] n.inputs@[k]) by {
                assert(outlet_exists(nodes@, nodes@[node as int].inputs@[k]));
            }
        }
        let rules = match n.op.rules(n.inputs.len(), n.outputs.len()) {
            Ok(r) => r,
            Err(e) => {
                return Err(e);
            },
        };
        let reads = copy_outlets(&n.inputs);
        let own = outlets_of(node, n.outputs.len());
        let ins = facts_of(model, &reads);
        let outs = facts_of(model, &own);
        (rules, reads, own, Facts::new(ins, outs))
    };
    proof {
        assert(facts@.inputs =~= gathered(nodes0, table0, node as int).inputs);
        assert(facts@.outputs =~= gathered(nodes0, table0, node as int).outputs);
        crate::solver::lemma_solved_refines(rules@, facts@, budget as nat);
    }
    match solve(rules, &mut facts, budget) {
        Ok(_) => {},
        Err(e) => {
            return Err(e);
        },
    }
    let ghost found = facts@;
    proof {
        assert(Seq::new(facts.inputs@.len(), |k: int| facts.inputs@[k]@) =~= found.inputs);
        assert(Seq::new(facts.outputs@.len(), |k: int| facts.outputs@[k]@) =~= found.outputs);
    }
    let news = match write_back(model, &reads, &facts.inputs) {
        Ok(n) => n,
        Err(e) => {
            return Err(e);
        },
    };
    let more = match write_back(model, &own, &facts.outputs) {
        Ok(n) => n,
        Err(e) => {
            return Err(e);
        },
    };
    proof {
        let after = model.node_seq();
        assert(same_graph(nodes0, after));
    }
    Ok(news || more)
}

/// Inference across the graph: pass upon pass over the nodes, in the order
/// of their ids, until a pass finds nothing new or `passes` passes are
/// done. It tells whether it ended on a pass that found nothing new. The
/// graph keeps its nodes, operators and edges; only what is known of the
/// outlets changes. `budget` bounds the passes of the solver on each
/// node. After a failure nothing is known of any outlet but what was known
/// before: an inference that fails leaves nothing of what it found.
pub fn analyse(model: &mut Model, passes: usize, budget: usize) -> (r: Result<bool, TractError>)
    requires
        old(model).wf(),
    ensures
        final(model).wf(),
        final(model).input_seq() == old(model).input_seq(),
        final(model).output_seq() == old(model).output_seq(),
        same_graph(old(model).node_seq(), final(model).node_seq()),
        match analysed(old(model).node_seq(), fact_table(old(model).node_seq()), passes as nat, budget as nat) {
            Ok((t, settled)) => r == Ok::<bool, TractError>(settled) && fact_table(final(model).node_seq()) == t,
            Err(e) => r == Err::<bool, TractError>(e) && fact_table(final(model).node_seq()) == fact_table(
                old(model).node_seq(),
            ),
        },
{
    let known = all_facts(model);
    match analyse_on(model, passes, budget) {
        Ok(settled) => Ok(settled),
        Err(e) => {
            proof {
                assert(table_fits(model.node_seq(), rows_of(known@)));
            }
            let ghost mid = model.node_seq();
            restore(model, &known);
            proof {
                lemma_same_graph_chain(old(model).node_seq(), mid, model.node_seq());
            }
            Err(e)
        },
    }
}

/// Inference across the graph, in place: see `analysed`. After a failure,
/// the outlets hold what had been noted before it.
#[verifier::loop_isolation(false)]
fn analyse_on(model: &mut Model, passes: usize, budget: usize) -> (r: Result<bool, TractError>)
    requires
        old(model).wf(),
    ensures
        final(model).wf(),
        final(model).input_seq() == old(model).input_seq(),
        final(model).output_seq() == old(model).output_seq(),
        same_graph(old(model).node_seq(), final(model).node_seq()),
        match analysed(old(model).node_seq(), fact_table(old(model).node_seq()), passes as nat, budget as nat) {
            Ok((t, settled)) => r is Ok && fact_table(final(model).node_seq()) == t && r->Ok_0 == settled,
            Err(e) => r is Err && r->Err_0 == e,
        },
{
    let ghost nodes0 = model.node_seq();
    let n = model.nodes().len();
    let mut left = passes;
    while left > 0
        invariant
            model.wf(),
            n == nodes0.len(),
            model.input_seq() == old(model).input_seq(),
            model.output_seq() == old(model).output_seq(),
            same_graph(nodes0, model.node_seq()),
            analysed(nodes0, fact_table(model.node_seq()), left as nat, budget as nat) == analysed(
                nodes0,
                fact_table(nodes0),
                passes as nat,
                budget as nat,
            ),
        decreases left,
    {
        let ghost start = fact_table(model.node_seq());
        let mut changed = false;
        let mut v: usize = 0;
        while v < n
            invariant
                v <= n,
                model.wf(),
                model.input_seq() == old(model).input_seq(),
                model.output_seq() == old(model).output_seq(),
                same_graph(nodes0, model.node_seq()),
                pass_nodes(nodes0, fact_table(model.node_seq()), changed, v as nat, budget as nat) == pass_nodes(
                    nodes0,
                    start,
                    false,
                    0,
                    budget as nat,
                ),
            decreases n - v,
        {
            let ghost before = model.node_seq();
            proof {
                lemma_step_same_graph(nodes0, before, fact_table(before), v, budget as nat);
            }
            match infer_step(model, v, budget) {
                Ok(news) => {
                    if news {
                        changed = true;
                    }
                },
                Err(e) => {
                    return Err(e);
                },
            }
            proof {
                let after = model.node_seq();
                assert(same_graph(nodes0, after)) by {
                    assert forall|x: int| 0 <= x < nodes0.len() implies (#[trigger] after[x]).id == nodes0[x].id
                        && after[x].name == nodes0[x].name && after[x].op == nodes0[x].op && after[x].inputs
                        == nodes0[x].inputs && after[x].outputs@.len() == nodes0[x].outputs@.len() by {
                        assert(before[x].id == nodes0[x].id);
                    }
                }
            }
            v += 1;
        }
        if !changed {
            return Ok(true);
        }
        left -= 1;
    }
    Ok(false)
}

/// The inference on a node depends on the nodes, operators and edges of the
/// graph and on the table only.
proof fn lemma_step_same_graph(a: Seq<Node<Op>>, b: Seq<Node<Op>>, table: Table, node: usize, budget: nat)
    requires
        same_graph(a, b),
        node < a.len(),
        table.len() == a.len(),
        table[node as int].len() == a[node as int].outputs@.len(),
    ensures
        node_step(a, table, node, budget) == node_step(b, table, node, budget),
{
    assert(b[node as int].op == a[node as int].op);
    assert(b[node as int].inputs == a[node as int].inputs);
    assert(gathered(a, table, node as int).inputs =~= gathered(b, table, node as int).inputs);
}

/// The table holds a fact for every outlet of the nodes, and none else.
pub open spec fn table_fits(nodes: Seq<Node<Op>>, table: Table) -> bool {
    &&& table.len() == nodes.len()
    &&& forall|v: int| 0 <= v < nodes.len() ==> (#[trigger] table[v]).len() == nodes[v].outputs@.len()
}

/// Noting facts of which none is news leaves the table as it was, and
/// noting facts keeps the shape of the table.
proof fn lemma_written_no_news(table: Table, outlets: Seq<OutletId>, found: Seq<FactValue>, upto: nat)
    requires
        written(table, outlets, found, upto) is Some,
        forall|k: int|
            0 <= k < upto ==> 0 <= (#[trigger] outlets[k]).node < table.len() && 0 <= outlets[k].slot < table[outlets[k].node as int].len(),
    ensures
        !written(table, outlets, found, upto).unwrap().1 ==> written(table, outlets, found, upto).unwrap().0 == table,
        written(table, outlets, found, upto).unwrap().0.len() == table.len(),
        forall|v: int|
            0 <= v < table.len() ==> (#[trigger] written(table, outlets, found, upto).unwrap().0[v]).len()
                == table[v].len(),
    decreases upto,
{
    if upto > 0 {
        lemma_written_no_news(table, outlets, found, (upto - 1) as nat);
        let (t, news) = written(table, outlets, found, (upto - 1) as nat).unwrap();
        let o = outlets[upto - 1];
        assert(0 <= o.node < table.len());
        let known = t[o.node as int][o.slot as int];
        let u = known.unified(found[upto - 1]);
        if !written(table, outlets, found, upto).unwrap().1 {
            assert(with_fact(t, o, u) =~= t) by {
                assert(t[o.node as int].update(o.slot as int, u) =~= t[o.node as int]);
            }
        }
    }
}

/// The inference on a node that finds nothing new leaves the table as it
/// was; in any case it keeps the shape of the table.
proof fn lemma_step_no_news(nodes: Seq<Node<Op>>, table: Table, node: usize, budget: nat)
    requires
        nodes_linked(nodes),
        table_fits(nodes, table),
        node < nodes.len(),
        node_step(nodes, table, node, budget) is Ok,
    ensures
        !node_step(nodes, table, node, budget)->Ok_0.1 ==> node_step(nodes, table, node, budget)->Ok_0.0 == table,
        table_fits(nodes, node_step(nodes, table, node, budget)->Ok_0.0),
{
    let n = nodes[node as int];
    let rules = n.op.rules_spec(n.inputs@.len() as usize, n.outputs@.len() as usize)->Ok_0;
    let s = solved(rules, gathered(nodes, table, node as int), budget)->Ok_0;
    assert forall|k: int| 0 <= k < n.inputs@.len() implies 0 <= (#[trigger] n.inputs@[k]).node < table.len() && 0
        <= n.inputs@[k].slot < table[n.inputs@[k].node as int].len() by {
        assert(outlet_exists(nodes, nodes[node as int].inputs@[k]));
    }
    lemma_written_no_news(table, n.inputs@, s.facts.inputs, n.inputs@.len());
    let (t, news) = written(table, n.inputs@, s.facts.inputs, n.inputs@.len()).unwrap();
    let own = own_outlets(node, n.outputs@.len());
    assert forall|k: int| 0 <= k < n.outputs@.len() implies 0 <= (#[trigger] own[k]).node < t.len() && 0 <= own[k].slot
        < t[own[k].node as int].len() by {
        assert(t[node as int].len() == table[node as int].len());
    }
    lemma_written_no_news(t, own, s.facts.outputs, n.outputs@.len());
    let t2 = written(t, own, s.facts.outputs, n.outputs@.len()).unwrap().0;
    assert forall|v: int| 0 <= v < nodes.len() implies (#[trigger] t2[v]).len() == nodes[v].outputs@.len() by {
        assert(t[v].len() == table[v].len());
    }
}

/// A pass that finds nothing new leaves the table as it was.
proof fn lemma_pass_no_news(nodes: Seq<Node<Op>>, table: Table, changed: bool, from: nat, budget: nat)
    requires
        nodes_linked(nodes),
        table_fits(nodes, table),
        pass_nodes(nodes, table, changed, from, budget) is Ok,
    ensures
        !pass_nodes(nodes, table, changed, from, budget)->Ok_0.1 ==> !changed && pass_nodes(
            nodes,
            table,
            changed,
            from,
            budget,
        )->Ok_0.0 == table,
        table_fits(nodes, pass_nodes(nodes, table, changed, from, budget)->Ok_0.0),
    decreases nodes.len() - from,
{
    if from < nodes.len() {
        lemma_step_no_news(nodes, table, from as usize, budget);
        let (t, news) = node_step(nodes, table, from as usize, budget)->Ok_0;
        lemma_pass_no_news(nodes, t, changed || news, from + 1, budget);
    }
}

/// Where the inference settles, it has reached a fixed point: one more
/// pass over the nodes finds nothing new and leaves every fact as it is.
pub proof fn lemma_settled_is_fixed_point(nodes: Seq<Node<Op>>, table: Table, passes: nat, budget: nat)
    requires
        nodes_linked(nodes),
        table_fits(nodes, table),
        analysed(nodes, table, passes, budget) is Ok,
        analysed(nodes, table, passes, budget)->Ok_0.1,
    ensures
        pass_nodes(nodes, analysed(nodes, table, passes, budget)->Ok_0.0, false, 0, budget) == Ok::<
            (Table, bool),
            TractError,
        >((analysed(nodes, table, passes, budget)->Ok_0.0, false)),
    decreases passes,
{
    if passes > 0 {
        lemma_pass_no_news(nodes, table, false, 0, budget);
        let (t, changed) = pass_nodes(nodes, table, false, 0, budget)->Ok_0;
        if changed {
            lemma_settled_is_fixed_point(nodes, t, (passes - 1) as nat, budget);
        }
    }
}

/// A pass of the inference depends on the nodes, operators and edges of
/// the graph and on the table only.
pub proof fn lemma_pass_same_graph(
    a: Seq<Node<Op>>,
    b: Seq<Node<Op>>,
    table: Table,
    changed: bool,
    from: nat,
    budget: nat,
)
    requires
        same_graph(a, b),
        nodes_linked(a),
        table_fits(a, table),
    ensures
        pass_nodes(a, table, changed, from, budget) == pass_nodes(b, table, changed, from, budget),
    decreases a.len() - from,
{
    if from < a.len() {
        lemma_step_same_graph(a, b, table, from as usize, budget);
        if let Ok((t, news)) = node_step(a, table, from as usize, budget) {
            lemma_step_no_news(a, table, from as usize, budget);
            lemma_pass_same_graph(a, b, t, changed || news, from + 1, budget);
        }
    }
}

/// If `a` says all that `b` says, and `b` all that `c` says, then `a` says
/// all that `c` says.
proof fn lemma_table_refines_chain(a: Table, b: Table, c: Table)
    requires
        table_refines(a, b),
        table_refines(b, c),
    ensures
        table_refines(a, c),
{
    assert forall|v: int| 0 <= v < a.len() implies (#[trigger] a[v]).len() == c[v].len() by {
        assert(b[v].len() == c[v].len());
    }
    assert forall|v: int, s: int| 0 <= v < a.len() && 0 <= s < a[v].len() implies (#[trigger] a[v][s]).refines(
        c[v][s],
    ) by {
        assert(b[v].len() == c[v].len());
        assert(a[v][s].refines(b[v][s]));
        assert(b[v][s].refines(c[v][s]));
        crate::solver::lemma_refines_chain(a[v][s], b[v][s], c[v][s]);
    }
}

/// The inference on a node never takes knowledge back.
proof fn lemma_step_refines(nodes: Seq<Node<Op>>, table: Table, node: usize, budget: nat)
    requires
        nodes_linked(nodes),
        table_fits(nodes, table),
        node < nodes.len(),
        node_step(nodes, table, node, budget) is Ok,
    ensures
        table_refines(node_step(nodes, table, node, budget)->Ok_0.0, table),
{
    let n = nodes[node as int];
    let rules = n.op.rules_spec(n.inputs@.len() as usize, n.outputs@.len() as usize)->Ok_0;
    let s = solved(rules, gathered(nodes, table, node as int), budget)->Ok_0;
    assert forall|k: int| 0 <= k < n.inputs@.len() implies 0 <= (#[trigger] n.inputs@[k]).node < table.len() && 0
        <= n.inputs@[k].slot < table[n.inputs@[k].node as int].len() by {
        assert(outlet_exists(nodes, nodes[node as int].inputs@[k]));
    }
    lemma_written_refines(table, n.inputs@, s.facts.inputs, n.inputs@.len());
    lemma_written_no_news(table, n.inputs@, s.facts.inputs, n.inputs@.len());
    let t = written(table, n.inputs@, s.facts.inputs, n.inputs@.len()).unwrap().0;
    let own = own_outlets(node, n.outputs@.len());
    assert forall|k: int| 0 <= k < n.outputs@.len() implies 0 <= (#[trigger] own[k]).node < t.len() && 0 <= own[k].slot
        < t[own[k].node as int].len() by {
        assert(t[node as int].len() == table[node as int].len());
    }
    lemma_written_refines(t, own, s.facts.outputs, n.outputs@.len());
    let t2 = written(t, own, s.facts.outputs, n.outputs@.len()).unwrap().0;
    lemma_table_refines_chain(t2, t, table);
}

proof fn lemma_pass_refines(nodes: Seq<Node<Op>>, table: Table, changed: bool, from: nat, budget: nat)
    requires
        nodes_linked(nodes),
        table_fits(nodes, table),
        pass_nodes(nodes, table, changed, from, budget) is Ok,
    ensures
        table_refines(pass_nodes(nodes, table, changed, from, budget)->Ok_0.0, table),
    decreases nodes.len() - from,
{
    if from < nodes.len() {
        lemma_step_refines(nodes, table, from as usize, budget);
        lemma_step_no_news(nodes, table, from as usize, budget);
        let (t, news) = node_step(nodes, table, from as usize, budget)->Ok_0;
        lemma_pass_refines(nodes, t, changed || news, from + 1, budget);
        lemma_table_refines_chain(pass_nodes(nodes, table, changed, from, budget)->Ok_0.0, t, table);
    } else {
        assert forall|v: int, s: int| 0 <= v < table.len() && 0 <= s < table[v].len() implies (#[trigger] table[v][s]).refines(
            table[v][s],
        ) by {
            crate::solver::lemma_refines_itself(table[v][s]);
        }
    }
}

/// What is known of every outlet after the inference says all that was
/// known of it before: across the graph, too, facts only move from less
/// known to more known.
pub proof fn lemma_analysed_refines(nodes: Seq<Node<Op>>, table: Table, passes: nat, budget: nat)
    requires
        nodes_linked(nodes),
        table_fits(nodes, table),
        analysed(nodes, table, passes, budget) is Ok,
    ensures
        table_refines(analysed(nodes, table, passes, budget)->Ok_0.0, table),
    decreases passes,
{
    if passes > 0 {
        lemma_pass_refines(nodes, table, false, 0, budget);
        lemma_pass_no_news(nodes, table, false, 0, budget);
        let (t, changed) = pass_nodes(nodes, table, false, 0, budget)->Ok_0;
        if changed {
            lemma_analysed_refines(nodes, t, (passes - 1) as nat, budget);
            lemma_table_refines_chain(analysed(nodes, table, passes, budget)->Ok_0.0, t, table);
        }
    } else {
        assert forall|v: int, s: int| 0 <= v < table.len() && 0 <= s < table[v].len() implies (#[trigger] table[v][s]).refines(
            table[v][s],
        ) by {
            crate::solver::lemma_refines_itself(table[v][s]);
        }
    }
}

/// Of every outlet the element type, the rank and the size of every axis
/// are known.
pub open spec fn complete(table: Table) -> bool {
    forall|v: int, s: int|
        0 <= v < table.len() && 0 <= s < table[v].len() ==> (#[trigger] table[v][s]).datum_type is Only
            && table[v][s].shape.concrete() is Some
}

/// Whether the inference is complete: see `complete`. A graph of which
/// something is still unknown is no error; whether it can be run as it is
/// is for the caller to say.
pub fn is_complete(model: &Model) -> (r: bool)
    ensures
        r == complete(fact_table(model.node_seq())),
{
    let nodes = model.nodes();
    let ghost table = fact_table(nodes@);
    let mut v: usize = 0;
    while v < nodes.len()
        invariant
            v <= nodes.len(),
            nodes@ == model.node_seq(),
            table == fact_table(nodes@),
            forall|a: int, s: int|
                0 <= a < v && 0 <= s < table[a].len() ==> (#[trigger] table[a][s]).datum_type is Only
                    && table[a][s].shape.concrete() is Some,
        decreases nodes.len() - v,
    {
        let mut s: usize = 0;
        while s < nodes[v].outputs.len()
            invariant
                v < nodes.len(),
                s <= nodes@[v as int].outputs@.len(),
                nodes@ == model.node_seq(),
                table == fact_table(nodes@),
                forall|a: int, k: int|
                    0 <= a < v && 0 <= k < table[a].len() ==> (#[trigger] table[a][k]).datum_type is Only
                        && table[a][k].shape.concrete() is Some,
                forall|k: int|
                    0 <= k < s ==> (#[trigger] table[v as int][k]).datum_type is Only
                        && table[v as int][k].shape.concrete() is Some,
            decreases nodes@[v as int].outputs@.len() - s,
        {
            let fact = &nodes[v].outputs[s];
            assert(fact@ == table[v as int][s as int]);
            let typed = match fact.datum_type {
                TypeFact::Only(_) => true,
                TypeFact::Any => false,
            };
            if !typed || fact.shape.concrete().is_none() {
                proof {
                    assert(!(table[v as int][s as int].datum_type is Only && table[v as int][s as int].shape.concrete()
                        is Some));
                }
                return false;
            }
            s += 1;
        }
        v += 1;
    }
    true
}

} // verus!
