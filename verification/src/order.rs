//! Evaluation order for nodes.
//!
//! The planner walks the graph backwards from the targets, depth first, and
//! lists each node once all the nodes it reads are listed. Designated inputs
//! are listed as they are met and never looked behind.

use vstd::prelude::*;
use crate::bits::{bitset_contains, bitset_insert, bitset_with_capacity, members, NodeSet};
use crate::errors::TractError;
use crate::model::{deps_of, Model, Node, OutletId};

verus! {

/// `rank` numbers the nodes below the node count, each node above every node
/// it reads.
pub open spec fn ranks(g: Seq<Seq<usize>>, rank: Seq<nat>) -> bool {
    &&& rank.len() == g.len()
    &&& forall|v: int| 0 <= v < g.len() ==> (#[trigger] rank[v]) < g.len()
    &&& forall|v: int, k: int|
        0 <= v < g.len() && 0 <= k < g[v].len() ==> (#[trigger] g[v][k]) < g.len() && rank[g[v][k] as int]
            < rank[v]
}

/// The dependency graph `g` (for each node, the nodes it reads) refers to
/// existing nodes only and has no cycle.
pub open spec fn acyclic(g: Seq<Seq<usize>>) -> bool {
    exists|rank: Seq<nat>| ranks(g, rank)
}

/// The order after node `v` has been served: unchanged where `v` is listed
/// already; else `v` is listed, after the nodes it reads have been served
/// unless it is a designated input. `fuel` bounds the depth of the walk.
pub open spec fn visit(g: Seq<Seq<usize>>, inputs: Seq<usize>, fuel: nat, order: Seq<usize>, v: usize) -> Seq<
    usize,
>
    decreases fuel, 0nat,
{
    if order.contains(v) {
        order
    } else if inputs.contains(v) || fuel == 0 || v >= g.len() {
        order.push(v)
    } else {
        visit_all(g, inputs, (fuel - 1) as nat, order, g[v as int], 0).push(v)
    }
}

/// The order after the nodes `ds[from..]` have been served, first to last.
pub open spec fn visit_all(
    g: Seq<Seq<usize>>,
    inputs: Seq<usize>,
    fuel: nat,
    order: Seq<usize>,
    ds: Seq<usize>,
    from: nat,
) -> Seq<usize>
    decreases fuel, 1 + ds.len() - from,
{
    if from >= ds.len() {
        order
    } else {
        visit_all(g, inputs, fuel, visit(g, inputs, fuel, order, ds[from as int]), ds, from + 1)
    }
}

/// The order after the nodes of `stack` have been served, last to first.
pub open spec fn serve(g: Seq<Seq<usize>>, inputs: Seq<usize>, fuel: nat, order: Seq<usize>, stack: Seq<usize>) -> Seq<
    usize,
>
    decreases stack.len(),
{
    if stack.len() == 0 {
        order
    } else {
        serve(g, inputs, fuel, visit(g, inputs, fuel, order, stack.last()), stack.drop_last())
    }
}

/// The evaluation order for `targets` in the graph `g`, given that the nodes
/// of `inputs` are available: the targets are served last to first, each by
/// a depth-first walk through the nodes it reads, in the order of its input
/// slots.
pub open spec fn plan(g: Seq<Seq<usize>>, inputs: Seq<usize>, targets: Seq<usize>) -> Seq<usize> {
    serve(g, inputs, g.len(), Seq::empty(), targets)
}

/// `d` stands in `order` before position `i`.
pub open spec fn before(order: Seq<usize>, d: usize, i: int) -> bool {
    exists|j: int| 0 <= j < i && j < order.len() && order[j] == d
}

/// Every node of `order` that is not a designated input stands after all the
/// nodes it reads.
pub open spec fn dependencies_first(g: Seq<Seq<usize>>, inputs: Seq<usize>, order: Seq<usize>) -> bool {
    forall|i: int, k: int|
        0 <= i < order.len() && !inputs.contains(order[i]) && order[i] < g.len() && 0 <= k < g[order[i] as int].len()
            ==> #[trigger] before(order, g[order[i] as int][k], i)
}

/// How many of the nodes below `n` are not in `done`.
pub open spec fn pending(done: Set<usize>, n: nat) -> nat
    decreases n,
{
    if n == 0 {
        0
    } else {
        pending(done, (n - 1) as nat) + if done.contains((n - 1) as usize) {
            0nat
        } else {
            1nat
        }
    }
}

/// Every element of `order` is in `x`.
pub open spec fn covers(x: Seq<usize>, order: Seq<usize>) -> bool {
    forall|e: usize| order.contains(e) ==> x.contains(e)
}

proof fn lemma_pending_above(done: Set<usize>, n: nat, v: usize)
    requires
        v >= n,
        n <= usize::MAX,
    ensures
        pending(done.insert(v), n) == pending(done, n),
    decreases n,
{
    if n > 0 {
        lemma_pending_above(done, (n - 1) as nat, v);
    }
}

proof fn lemma_pending_insert(done: Set<usize>, n: nat, v: usize)
    requires
        v < n,
        n <= usize::MAX,
        !done.contains(v),
    ensures
        pending(done.insert(v), n) < pending(done, n),
    decreases n,
{
    if v == n - 1 {
        lemma_pending_above(done, (n - 1) as nat, v);
    } else {
        lemma_pending_insert(done, (n - 1) as nat, v);
    }
}

proof fn lemma_push_contains(s: Seq<usize>, v: usize, x: usize)
    ensures
        s.push(v).contains(x) <==> (x == v || s.contains(x)),
{
    if s.push(v).contains(x) {
        let i = choose|i: int| 0 <= i < s.push(v).len() && s.push(v)[i] == x;
        if i < s.len() {
            assert(s[i] == x);
        }
    }
    if s.contains(x) {
        let i = choose|i: int| 0 <= i < s.len() && s[i] == x;
        assert(s.push(v)[i] == x);
    }
    if x == v {
        assert(s.push(v)[s.len() as int] == x);
    }
}

/// Serving a node only adds to the order, and lists the node.
proof fn lemma_visit_grows(g: Seq<Seq<usize>>, inputs: Seq<usize>, fuel: nat, order: Seq<usize>, v: usize)
    ensures
        covers(visit(g, inputs, fuel, order, v), order),
        visit(g, inputs, fuel, order, v).contains(v),
    decreases fuel, 0nat,
{
    let r = visit(g, inputs, fuel, order, v);
    if order.contains(v) {
    } else if inputs.contains(v) || fuel == 0 || v >= g.len() {
        assert forall|e: usize| order.contains(e) implies r.contains(e) by {
            lemma_push_contains(order, v, e);
        }
        lemma_push_contains(order, v, v);
    } else {
        let mid = visit_all(g, inputs, (fuel - 1) as nat, order, g[v as int], 0);
        lemma_visit_all_grows(g, inputs, (fuel - 1) as nat, order, g[v as int], 0);
        assert forall|e: usize| order.contains(e) implies r.contains(e) by {
            lemma_push_contains(mid, v, e);
        }
        lemma_push_contains(mid, v, v);
    }
}

/// Serving nodes only adds to the order, and lists each of them.
proof fn lemma_visit_all_grows(
    g: Seq<Seq<usize>>,
    inputs: Seq<usize>,
    fuel: nat,
    order: Seq<usize>,
    ds: Seq<usize>,
    from: nat,
)
    ensures
        covers(visit_all(g, inputs, fuel, order, ds, from), order),
        forall|k: int| from <= k < ds.len() ==> visit_all(g, inputs, fuel, order, ds, from).contains(#[trigger] ds[k]),
    decreases fuel, 1 + ds.len() - from,
{
    if from < ds.len() {
        let o1 = visit(g, inputs, fuel, order, ds[from as int]);
        lemma_visit_grows(g, inputs, fuel, order, ds[from as int]);
        lemma_visit_all_grows(g, inputs, fuel, o1, ds, from + 1);
    }
}

/// Serving nodes that are all listed changes nothing.
proof fn lemma_visit_all_listed(
    g: Seq<Seq<usize>>,
    inputs: Seq<usize>,
    fuel: nat,
    order: Seq<usize>,
    ds: Seq<usize>,
    from: nat,
)
    requires
        forall|k: int| from <= k < ds.len() ==> order.contains(#[trigger] ds[k]),
    ensures
        visit_all(g, inputs, fuel, order, ds, from) == order,
    decreases ds.len() - from,
{
    if from < ds.len() {
        assert(order.contains(ds[from as int]));
        assert(visit(g, inputs, fuel, order, ds[from as int]) == order);
        lemma_visit_all_listed(g, inputs, fuel, order, ds, from + 1);
    }
}

/// What serving `v` adds to the order is numbered below `bound` where `v` is.
proof fn lemma_visit_below(
    g: Seq<Seq<usize>>,
    inputs: Seq<usize>,
    rank: Seq<nat>,
    fuel: nat,
    order: Seq<usize>,
    v: usize,
    x: usize,
    bound: nat,
)
    requires
        ranks(g, rank),
        v < g.len(),
        rank[v as int] < bound,
        visit(g, inputs, fuel, order, v).contains(x),
        !order.contains(x),
    ensures
        x < g.len(),
        rank[x as int] < bound,
    decreases fuel, 0nat,
{
    if order.contains(v) {
    } else if inputs.contains(v) || fuel == 0 || v >= g.len() {
        lemma_push_contains(order, v, x);
    } else {
        let mid = visit_all(g, inputs, (fuel - 1) as nat, order, g[v as int], 0);
        lemma_push_contains(mid, v, x);
        if x != v {
            assert forall|k: int| 0 <= k < g[v as int].len() implies (#[trigger] g[v as int][k]) < g.len()
                && rank[g[v as int][k] as int] < rank[v as int] by {}
            lemma_visit_all_below(g, inputs, rank, (fuel - 1) as nat, order, g[v as int], 0, x, rank[v as int]);
        }
    }
}

/// What serving `ds[from..]` adds to the order is numbered below `bound`
/// where all of them are.
proof fn lemma_visit_all_below(
    g: Seq<Seq<usize>>,
    inputs: Seq<usize>,
    rank: Seq<nat>,
    fuel: nat,
    order: Seq<usize>,
    ds: Seq<usize>,
    from: nat,
    x: usize,
    bound: nat,
)
    requires
        ranks(g, rank),
        forall|k: int| from <= k < ds.len() ==> (#[trigger] ds[k]) < g.len() && rank[ds[k] as int] < bound,
        visit_all(g, inputs, fuel, order, ds, from).contains(x),
        !order.contains(x),
    ensures
        x < g.len(),
        rank[x as int] < bound,
    decreases fuel, 1 + ds.len() - from,
{
    if from < ds.len() {
        let d = ds[from as int];
        let o1 = visit(g, inputs, fuel, order, d);
        if o1.contains(x) {
            lemma_visit_below(g, inputs, rank, fuel, order, d, x, bound);
        } else {
            lemma_visit_all_below(g, inputs, rank, fuel, o1, ds, from + 1, x, bound);
        }
    }
}

/// With enough of it, the fuel does not matter.
proof fn lemma_visit_fuel(
    g: Seq<Seq<usize>>,
    inputs: Seq<usize>,
    rank: Seq<nat>,
    f1: nat,
    f2: nat,
    order: Seq<usize>,
    v: usize,
)
    requires
        ranks(g, rank),
        v < g.len(),
        rank[v as int] < f1,
        rank[v as int] < f2,
    ensures
        visit(g, inputs, f1, order, v) == visit(g, inputs, f2, order, v),
    decreases f1, 0nat,
{
    if order.contains(v) || inputs.contains(v) {
    } else {
        assert forall|k: int| 0 <= k < g[v as int].len() implies (#[trigger] g[v as int][k]) < g.len()
            && rank[g[v as int][k] as int] < rank[v as int] by {}
        lemma_visit_all_fuel(g, inputs, rank, (f1 - 1) as nat, (f2 - 1) as nat, order, g[v as int], 0);
    }
}

proof fn lemma_visit_all_fuel(
    g: Seq<Seq<usize>>,
    inputs: Seq<usize>,
    rank: Seq<nat>,
    f1: nat,
    f2: nat,
    order: Seq<usize>,
    ds: Seq<usize>,
    from: nat,
)
    requires
        ranks(g, rank),
        forall|k: int|
            from <= k < ds.len() ==> (#[trigger] ds[k]) < g.len() && rank[ds[k] as int] < f1 && rank[ds[k] as int]
                < f2,
    ensures
        visit_all(g, inputs, f1, order, ds, from) == visit_all(g, inputs, f2, order, ds, from),
    decreases f1, 1 + ds.len() - from,
{
    if from < ds.len() {
        let d = ds[from as int];
        lemma_visit_fuel(g, inputs, rank, f1, f2, order, d);
        lemma_visit_all_fuel(g, inputs, rank, f1, f2, visit(g, inputs, f1, order, d), ds, from + 1);
    }
}

/// Serving a node whose dependencies were served just before it gives what
/// serving the node alone gives.
proof fn lemma_visit_after_deps(g: Seq<Seq<usize>>, inputs: Seq<usize>, rank: Seq<nat>, order: Seq<usize>, v: usize)
    requires
        ranks(g, rank),
        v < g.len(),
        !order.contains(v),
        !inputs.contains(v),
    ensures
        visit(g, inputs, g.len(), visit_all(g, inputs, g.len(), order, g[v as int], 0), v) == visit(
            g,
            inputs,
            g.len(),
            order,
            v,
        ),
{
    let n = g.len();
    let ds = g[v as int];
    let x1 = visit_all(g, inputs, n, order, ds, 0);
    let low = (n - 1) as nat;
    assert forall|k: int| 0 <= k < ds.len() implies (#[trigger] ds[k]) < g.len() && rank[ds[k] as int] < rank[v as int] by {
        assert(ds[k] == g[v as int][k]);
    }
    assert(rank[v as int] < n);
    lemma_visit_all_fuel(g, inputs, rank, n, low, order, ds, 0);
    if x1.contains(v) {
        lemma_visit_all_below(g, inputs, rank, n, order, ds, 0, v, rank[v as int]);
    }
    lemma_visit_all_grows(g, inputs, n, order, ds, 0);
    lemma_visit_all_listed(g, inputs, low, x1, ds, 0);
}

/// The node at place `i` of `order` is read by a node that stands later in
/// `order` and is no designated input.
pub open spec fn read_later(g: Seq<Seq<usize>>, inputs: Seq<usize>, order: Seq<usize>, i: int) -> bool {
    exists|j: int|
        i < j < order.len() && !inputs.contains(#[trigger] order[j]) && order[j] < g.len() && g[order[j] as int].contains(
            order[i],
        )
}

/// Every node of `order` is needed: it is a target, or a node that is no
/// designated input and stands later in `order` reads it.
pub open spec fn needed_only(g: Seq<Seq<usize>>, inputs: Seq<usize>, targets: Seq<usize>, order: Seq<usize>) -> bool {
    forall|i: int| 0 <= i < order.len() ==> targets.contains(#[trigger] order[i]) || read_later(g, inputs, order, i)
}

/// `after` starts with `before`, and every node that it has more is one of
/// `asked`, or is read later in `after`.
pub open spec fn adds_needed(
    g: Seq<Seq<usize>>,
    inputs: Seq<usize>,
    before: Seq<usize>,
    after: Seq<usize>,
    asked: Seq<usize>,
) -> bool {
    &&& before.len() <= after.len()
    &&& after.take(before.len() as int) == before
    &&& forall|i: int|
        before.len() <= i < after.len() ==> asked.contains(#[trigger] after[i]) || read_later(g, inputs, after, i)
}

/// A node that is read later in an order is read later in every order that
/// starts with it.
proof fn lemma_read_later_stays(g: Seq<Seq<usize>>, inputs: Seq<usize>, short: Seq<usize>, long: Seq<usize>, i: int)
    requires
        short.len() <= long.len(),
        long.take(short.len() as int) == short,
        0 <= i < short.len(),
        read_later(g, inputs, short, i),
    ensures
        read_later(g, inputs, long, i),
{
    let j = choose|j: int|
        i < j < short.len() && !inputs.contains(#[trigger] short[j]) && short[j] < g.len() && g[short[j] as int].contains(
            short[i],
        );
    assert(long.take(short.len() as int)[j] == long[j]);
    assert(long.take(short.len() as int)[i] == long[i]);
    assert(!inputs.contains(long[j]));
}

/// Serving a node adds the node and what is read later, nothing else.
proof fn lemma_visit_needed(g: Seq<Seq<usize>>, inputs: Seq<usize>, fuel: nat, order: Seq<usize>, v: usize)
    ensures
        adds_needed(g, inputs, order, visit(g, inputs, fuel, order, v), seq![v]),
    decreases fuel, 0nat,
{
    let r = visit(g, inputs, fuel, order, v);
    if order.contains(v) {
        assert(order.take(order.len() as int) =~= order);
    } else if inputs.contains(v) || fuel == 0 || v >= g.len() {
        assert(r.take(order.len() as int) =~= order);
        assert(seq![v][0] == v);
    } else {
        let ds = g[v as int];
        let mid = visit_all(g, inputs, (fuel - 1) as nat, order, ds, 0);
        lemma_visit_all_needed(g, inputs, (fuel - 1) as nat, order, ds, 0);
        assert(r.take(order.len() as int) =~= order) by {
            assert forall|k: int| 0 <= k < order.len() implies r.take(order.len() as int)[k] == order[k] by {
                assert(mid.take(order.len() as int)[k] == mid[k]);
            }
        }
        assert(r.take(mid.len() as int) =~= mid);
        assert forall|i: int| order.len() <= i < r.len() implies seq![v].contains(#[trigger] r[i]) || read_later(
            g,
            inputs,
            r,
            i,
        ) by {
            if i == mid.len() {
                assert(seq![v][0] == v);
            } else {
                assert(r[i] == mid[i]);
                if read_later(g, inputs, mid, i) {
                    lemma_read_later_stays(g, inputs, mid, r, i);
                } else {
                    assert(ds.contains(mid[i]));
                    assert(r[mid.len() as int] == v);
                }
            }
        }
    }
}

/// Serving nodes adds the nodes and what is read later, nothing else.
proof fn lemma_visit_all_needed(
    g: Seq<Seq<usize>>,
    inputs: Seq<usize>,
    fuel: nat,
    order: Seq<usize>,
    ds: Seq<usize>,
    from: nat,
)
    ensures
        adds_needed(g, inputs, order, visit_all(g, inputs, fuel, order, ds, from), ds),
    decreases fuel, 1 + ds.len() - from,
{
    let r = visit_all(g, inputs, fuel, order, ds, from);
    if from >= ds.len() {
        assert(order.take(order.len() as int) =~= order);
    } else {
        let o1 = visit(g, inputs, fuel, order, ds[from as int]);
        lemma_visit_needed(g, inputs, fuel, order, ds[from as int]);
        lemma_visit_all_needed(g, inputs, fuel, o1, ds, from + 1);
        lemma_adds_chain(g, inputs, order, o1, r, seq![ds[from as int]], ds, ds);
    }
}

/// Two additions of needed nodes in a row are one.
proof fn lemma_adds_chain(
    g: Seq<Seq<usize>>,
    inputs: Seq<usize>,
    a: Seq<usize>,
    b: Seq<usize>,
    c: Seq<usize>,
    first: Seq<usize>,
    second: Seq<usize>,
    both: Seq<usize>,
)
    requires
        adds_needed(g, inputs, a, b, first),
        adds_needed(g, inputs, b, c, second),
        forall|x: usize| first.contains(x) || second.contains(x) ==> both.contains(x),
    ensures
        adds_needed(g, inputs, a, c, both),
{
    assert(c.take(a.len() as int) =~= a) by {
        assert forall|k: int| 0 <= k < a.len() implies c.take(a.len() as int)[k] == a[k] by {
            assert(c.take(b.len() as int)[k] == c[k]);
            assert(b.take(a.len() as int)[k] == b[k]);
        }
    }
    assert forall|i: int| a.len() <= i < c.len() implies both.contains(#[trigger] c[i]) || read_later(
        g,
        inputs,
        c,
        i,
    ) by {
        if i < b.len() {
            assert(c.take(b.len() as int)[i] == c[i]);
            assert(first.contains(b[i]) || read_later(g, inputs, b, i));
            if read_later(g, inputs, b, i) {
                lemma_read_later_stays(g, inputs, b, c, i);
            }
        }
    }
}

/// Serving a stack adds the nodes of the stack and what is read later,
/// nothing else.
proof fn lemma_serve_needed(g: Seq<Seq<usize>>, inputs: Seq<usize>, fuel: nat, order: Seq<usize>, stack: Seq<usize>)
    ensures
        adds_needed(g, inputs, order, serve(g, inputs, fuel, order, stack), stack),
    decreases stack.len(),
{
    if stack.len() == 0 {
        assert(order.take(order.len() as int) =~= order);
    } else {
        let o1 = visit(g, inputs, fuel, order, stack.last());
        lemma_visit_needed(g, inputs, fuel, order, stack.last());
        lemma_serve_needed(g, inputs, fuel, o1, stack.drop_last());
        assert forall|x: usize| seq![stack.last()].contains(x) || stack.drop_last().contains(x) implies stack.contains(
            x,
        ) by {
            if seq![stack.last()].contains(x) {
                assert(stack[stack.len() - 1] == x);
            } else {
                let k = choose|k: int| 0 <= k < stack.drop_last().len() && stack.drop_last()[k] == x;
                assert(stack[k] == x);
            }
        }
        lemma_adds_chain(
            g,
            inputs,
            order,
            o1,
            serve(g, inputs, fuel, order, stack),
            seq![stack.last()],
            stack.drop_last(),
            stack,
        );
    }
}

/// The plan is minimal: it lists no node that is not needed. Every node of
/// it is a target, or is read by a node that stands later in the plan and
/// is no designated input.
pub proof fn lemma_plan_needed_only(g: Seq<Seq<usize>>, inputs: Seq<usize>, targets: Seq<usize>)
    ensures
        needed_only(g, inputs, targets, plan(g, inputs, targets)),
{
    lemma_serve_needed(g, inputs, g.len(), Seq::empty(), targets);
}

fn slice_contains(s: &[usize], x: usize) -> (r: bool)
    ensures
        r == s@.contains(x),
{
    let mut i: usize = 0;
    while i < s.len()
        invariant
            i <= s.len(),
            forall|j: int| 0 <= j < i ==> s@[j] != x,
        decreases s.len() - i,
    {
        if s[i] == x {
            return true;
        }
        i += 1;
    }
    false
}

fn all_done(ins: &Vec<OutletId>, done: &NodeSet) -> (r: bool)
    ensures
        r == (forall|k: int| 0 <= k < ins@.len() ==> members(*done).contains(#[trigger] ins@[k].node)),
{
    let mut i: usize = 0;
    while i < ins.len()
        invariant
            i <= ins.len(),
            forall|k: int| 0 <= k < i ==> members(*done).contains(#[trigger] ins@[k].node),
        decreases ins.len() - i,
    {
        if !bitset_contains(done, ins[i].node) {
            return false;
        }
        i += 1;
    }
    true
}

/// Find a working evaluation order for a list of nodes.
///
/// The order is `plan` of the nodes' dependencies: it holds no node twice,
/// every node of it that is not a designated input stands after all the
/// nodes it reads, and it holds no node that is not needed. A graph with a cycle would keep the walk going for ever,
/// so it is left out.
pub fn eval_order_for_nodes<O>(nodes: &[Node<O>], inputs: &[usize], targets: &[usize]) -> (r: Result<
    Vec<usize>,
    TractError,
>)
    requires
        acyclic(deps_of(nodes@)),
        forall|t: int| 0 <= t < targets@.len() ==> targets@[t] < nodes@.len(),
    ensures
        r is Ok,
        r->Ok_0@ == plan(deps_of(nodes@), inputs@, targets@),
        r->Ok_0@.no_duplicates(),
        dependencies_first(deps_of(nodes@), inputs@, r->Ok_0@),
        needed_only(deps_of(nodes@), inputs@, targets@, r->Ok_0@),
        forall|i: int| 0 <= i < r->Ok_0@.len() ==> r->Ok_0@[i] < nodes@.len(),
        forall|t: int| 0 <= t < targets@.len() ==> r->Ok_0@.contains(targets@[t]),
{
    let ghost g = deps_of(nodes@);
    let ghost rank = choose|rank: Seq<nat>| ranks(g, rank);
    let n = nodes.len();
    let mut done = bitset_with_capacity(n);
    let mut needed: Vec<usize> = Vec::new();
    let mut order: Vec<usize> = Vec::new();
    let mut t: usize = 0;
    while t < targets.len()
        invariant
            t <= targets.len(),
            needed@ == targets@.take(t as int),
        decreases targets.len() - t,
    {
        needed.push(targets[t]);
        proof {
            assert(targets@.take(t as int).push(targets@[t as int]) =~= targets@.take(t + 1));
        }
        t += 1;
    }
    proof {
        assert(targets@.take(targets@.len() as int) =~= targets@);
        assert(members(done) =~= order@.to_set());
    }
    while needed.len() > 0
        invariant
            n == nodes@.len(),
            g == deps_of(nodes@),
            ranks(g, rank),
            members(done) == order@.to_set(),
            order@.no_duplicates(),
            dependencies_first(g, inputs@, order@),
            forall|i: int| 0 <= i < order@.len() ==> order@[i] < n,
            forall|i: int| 0 <= i < needed@.len() ==> needed@[i] < n,
            serve(g, inputs@, n as nat, order@, needed@) == plan(g, inputs@, targets@),
            forall|t: int| 0 <= t < targets@.len() ==> order@.contains(targets@[t]) || needed@.contains(targets@[t]),
        decreases
            pending(members(done), n as nat),
            (if needed@.len() > 0 && members(done).contains(needed@.last()) {
                1nat
            } else {
                0nat
            }),
            (if needed@.len() > 0 && members(done).contains(needed@.last()) {
                needed@.len()
            } else if needed@.len() > 0 {
                rank[needed@.last() as int]
            } else {
                0nat
            }),
    {
        let node = needed[needed.len() - 1];
        let ghost stack = needed@;
        let ghost listed = order@;
        assert(g[node as int] == nodes@[node as int].deps());
        if bitset_contains(&done, node) {
            needed.pop();
            proof {
                assert(needed@ =~= stack.drop_last());
                assert(listed.contains(node));
                assert forall|t: int| 0 <= t < targets@.len() implies order@.contains(targets@[t])
                    || needed@.contains(targets@[t]) by {
                    if !order@.contains(targets@[t]) {
                        let i = choose|i: int| 0 <= i < stack.len() && stack[i] == targets@[t];
                        assert(needed@[i] == targets@[t]);
                    }
                }
            }
        } else if slice_contains(inputs, node) || all_done(&nodes[node].inputs, &done) {
            order.push(node);
            needed.pop();
            bitset_insert(&mut done, node);
            proof {
                assert(needed@ =~= stack.drop_last());
                assert(!listed.contains(node));
                lemma_pending_insert(listed.to_set(), n as nat, node);
                assert(members(done) =~= order@.to_set()) by {
                    assert forall|e: usize| order@.to_set().contains(e) <==> listed.to_set().insert(node).contains(
                        e,
                    ) by {
                        lemma_push_contains(listed, node, e);
                    }
                }
                assert(order@.no_duplicates()) by {
                    assert forall|i: int, j: int| 0 <= i < order@.len() && 0 <= j < order@.len() && i != j implies order@[i]
                        != order@[j] by {
                        if i < listed.len() {
                            assert(listed.contains(listed[i]));
                        }
                        if j < listed.len() {
                            assert(listed.contains(listed[j]));
                        }
                    }
                }
                if !inputs@.contains(node) {
                    assert forall|k: int| 0 <= k < g[node as int].len() implies listed.contains(
                        #[trigger] g[node as int][k],
                    ) by {
                        assert(listed.to_set().contains(nodes@[node as int].inputs@[k].node));
                    }
                    lemma_visit_all_listed(g, inputs@, (n - 1) as nat, listed, g[node as int], 0);
                }
                assert(visit(g, inputs@, n as nat, listed, node) == order@);
                assert forall|i: int, k: int|
                    0 <= i < order@.len() && !inputs@.contains(order@[i]) && order@[i] < g.len() && 0 <= k < g[order@[i] as int].len() implies #[trigger] before(
                    order@,
                    g[order@[i] as int][k],
                    i,
                ) by {
                    let d = g[order@[i] as int][k];
                    if i < listed.len() {
                        assert(before(listed, d, i));
                        let j = choose|j: int| 0 <= j < i && j < listed.len() && listed[j] == d;
                        assert(order@[j] == d);
                    } else {
                        assert(listed.contains(d));
                        let j = choose|j: int| 0 <= j < listed.len() && listed[j] == d;
                        assert(order@[j] == d);
                    }
                }
                assert forall|t: int| 0 <= t < targets@.len() implies order@.contains(targets@[t])
                    || needed@.contains(targets@[t]) by {
                    lemma_push_contains(listed, node, targets@[t]);
                    if !order@.contains(targets@[t]) {
                        let i = choose|i: int| 0 <= i < stack.len() && stack[i] == targets@[t];
                        assert(needed@[i] == targets@[t]);
                    }
                }
            }
        } else {
            let ins = &nodes[node].inputs;
            let ghost ds = g[node as int];
            let mut k: usize = ins.len();
            proof {
                assert forall|x: Seq<usize>| covers(x, listed) implies #[trigger] serve(g, inputs@, n as nat, x, needed@)
                    == serve(g, inputs@, n as nat, visit_all(g, inputs@, n as nat, x, ds, k as nat), stack) by {}
            }
            while k > 0
                invariant
                    k <= ins@.len(),
                    ins@ == nodes@[node as int].inputs@,
                    ds == g[node as int],
                    ds.len() == ins@.len(),
                    g == deps_of(nodes@),
                    n == nodes@.len(),
                    ranks(g, rank),
                    node < n,
                    listed == order@,
                    members(done) == listed.to_set(),
                    stack.len() > 0,
                    stack.last() == node,
                    stack.len() <= needed@.len(),
                    needed@.take(stack.len() as int) == stack,
                    forall|i: int| 0 <= i < needed@.len() ==> needed@[i] < n,
                    needed@.len() > stack.len() ==> !listed.contains(needed@.last()) && rank[needed@.last() as int]
                        < rank[node as int],
                    needed@.len() == stack.len() ==> forall|j: int|
                        k <= j < ds.len() ==> listed.contains(#[trigger] ds[j]),
                    forall|x: Seq<usize>|
                        covers(x, listed) ==> #[trigger] serve(g, inputs@, n as nat, x, needed@) == serve(
                            g,
                            inputs@,
                            n as nat,
                            visit_all(g, inputs@, n as nat, x, ds, k as nat),
                            stack,
                        ),
                decreases k,
            {
                k -= 1;
                let d = ins[k].node;
                let ghost before_push = needed@;
                assert(ds[k as int] == d);
                assert(g[node as int][k as int] == d);
                if !bitset_contains(&done, d) {
                    needed.push(d);
                    proof {
                        assert(needed@.drop_last() =~= before_push);
                        assert(needed@.take(stack.len() as int) =~= before_push.take(stack.len() as int));
                        assert forall|x: Seq<usize>| covers(x, listed) implies #[trigger] serve(
                            g,
                            inputs@,
                            n as nat,
                            x,
                            needed@,
                        ) == serve(g, inputs@, n as nat, visit_all(g, inputs@, n as nat, x, ds, k as nat), stack) by {
                            let x1 = visit(g, inputs@, n as nat, x, d);
                            lemma_visit_grows(g, inputs@, n as nat, x, d);
                            assert(covers(x1, listed));
                            assert(serve(g, inputs@, n as nat, x1, before_push) == serve(
                                g,
                                inputs@,
                                n as nat,
                                visit_all(g, inputs@, n as nat, x1, ds, (k + 1) as nat),
                                stack,
                            ));
                        }
                    }
                } else {
                    proof {
                        assert forall|x: Seq<usize>| covers(x, listed) implies #[trigger] serve(
                            g,
                            inputs@,
                            n as nat,
                            x,
                            needed@,
                        ) == serve(g, inputs@, n as nat, visit_all(g, inputs@, n as nat, x, ds, k as nat), stack) by {
                            assert(listed.contains(d));
                            assert(x.contains(d));
                            assert(visit(g, inputs@, n as nat, x, d) == x);
                        }
                    }
                }
            }
            proof {
                // at least one dependency was pushed
                if needed@.len() == stack.len() {
                    assert forall|j: int| 0 <= j < ins@.len() implies members(done).contains(#[trigger] ins@[j].node) by {
                        assert(listed.contains(ds[j]));
                    }
                    assert(false);
                }
                assert(covers(listed, listed));
                let x1 = visit_all(g, inputs@, n as nat, listed, ds, 0);
                assert(serve(g, inputs@, n as nat, listed, needed@) == serve(g, inputs@, n as nat, x1, stack));
                lemma_visit_after_deps(g, inputs@, rank, listed, node);
                assert forall|t: int| 0 <= t < targets@.len() implies order@.contains(targets@[t])
                    || needed@.contains(targets@[t]) by {
                    if !order@.contains(targets@[t]) {
                        let i = choose|i: int| 0 <= i < stack.len() && stack[i] == targets@[t];
                        assert(needed@.take(stack.len() as int)[i] == targets@[t]);
                        assert(needed@[i] == targets@[t]);
                    }
                }
            }
        }
    }
    proof {
        assert forall|t: int| 0 <= t < targets@.len() implies order@.contains(targets@[t]) by {
            if needed@.contains(targets@[t]) {
                let i = choose|i: int| 0 <= i < needed@.len() && needed@[i] == targets@[t];
            }
        }
        lemma_plan_needed_only(g, inputs@, targets@);
    }
    Ok(order)
}

/// The sum of the numbers of `s`.
pub open spec fn total(s: Seq<usize>) -> nat
    decreases s.len(),
{
    if s.len() == 0 {
        0
    } else {
        total(s.drop_last()) + s.last() as nat
    }
}

/// Every number of `low` is at most the one of `high` at its place.
pub open spec fn below(low: Seq<usize>, high: Seq<nat>) -> bool {
    forall|v: int| 0 <= v < low.len() && v < high.len() ==> low[v] <= high[v]
}

proof fn lemma_total_update(s: Seq<usize>, i: int, x: usize)
    requires
        0 <= i < s.len(),
    ensures
        total(s.update(i, x)) == total(s) - s[i] + x,
    decreases s.len(),
{
    if i == s.len() - 1 {
        assert(s.update(i, x).drop_last() =~= s.drop_last());
    } else {
        assert(s.update(i, x).drop_last() =~= s.drop_last().update(i, x));
        lemma_total_update(s.drop_last(), i, x);
    }
}

proof fn lemma_total_bound(s: Seq<usize>, b: nat)
    requires
        forall|i: int| 0 <= i < s.len() ==> s[i] <= b,
    ensures
        total(s) <= s.len() * b,
    decreases s.len(),
{
    if s.len() > 0 {
        lemma_total_bound(s.drop_last(), b);
        assert((s.len() - 1) * b + b == s.len() * b) by (nonlinear_arith);
    }
}

/// The graph that a list of lists stands for.
pub open spec fn graph_of(g: Seq<Vec<usize>>) -> Seq<Seq<usize>> {
    Seq::new(g.len(), |v: int| g[v]@)
}

/// For each node, the ids of the nodes it reads.
pub fn dependencies<O>(nodes: &[Node<O>]) -> (r: Vec<Vec<usize>>)
    ensures
        graph_of(r@) == deps_of(nodes@),
{
    let mut out: Vec<Vec<usize>> = Vec::new();
    let mut v: usize = 0;
    while v < nodes.len()
        invariant
            v <= nodes.len(),
            out@.len() == v,
            forall|a: int| 0 <= a < v ==> (#[trigger] out@[a])@ == nodes@[a].deps(),
        decreases nodes.len() - v,
    {
        let mut row: Vec<usize> = Vec::new();
        let mut k: usize = 0;
        while k < nodes[v].inputs.len()
            invariant
                v < nodes.len(),
                k <= nodes@[v as int].inputs@.len(),
                row@.len() == k,
                forall|j: int| 0 <= j < k ==> row@[j] == nodes@[v as int].inputs@[j].node,
            decreases nodes@[v as int].inputs@.len() - k,
        {
            row.push(nodes[v].inputs[k].node);
            k += 1;
        }
        proof {
            assert(row@ =~= nodes@[v as int].deps());
        }
        out.push(row);
        v += 1;
    }
    proof {
        assert(graph_of(out@) =~= deps_of(nodes@));
    }
    out
}

/// Whether the nodes refer to existing nodes only and have no cycle among
/// them.
pub fn is_acyclic<O>(nodes: &[Node<O>]) -> (r: bool)
    ensures
        r == acyclic(deps_of(nodes@)),
{
    let g = dependencies(nodes);
    graph_is_acyclic(&g)
}

/// Whether a graph, given as the list of the nodes that each node reads,
/// refers to existing nodes only and has no cycle.
pub fn graph_is_acyclic(deps: &Vec<Vec<usize>>) -> (r: bool)
    ensures
        r == acyclic(graph_of(deps@)),
{
    let ghost g = graph_of(deps@);
    let n = deps.len();
    let mut v: usize = 0;
    while v < n
        invariant
            v <= n,
            n == deps@.len(),
            g == graph_of(deps@),
            forall|a: int, k: int| 0 <= a < v && 0 <= k < g[a].len() ==> (#[trigger] g[a][k]) < n,
        decreases n - v,
    {
        let mut k: usize = 0;
        while k < deps[v].len()
            invariant
                v < n,
                n == deps@.len(),
                g == graph_of(deps@),
                k <= deps@[v as int]@.len(),
                forall|a: int, j: int| 0 <= a < v && 0 <= j < g[a].len() ==> (#[trigger] g[a][j]) < n,
                forall|j: int| 0 <= j < k ==> (#[trigger] g[v as int][j]) < n,
            decreases deps@[v as int]@.len() - k,
        {
            if deps[v][k] >= n {
                proof {
                    assert(g[v as int][k as int] >= n);
                    assert forall|rank: Seq<nat>| !ranks(g, rank) by {
                        if ranks(g, rank) {
                            assert(g[v as int][k as int] < g.len());
                        }
                    }
                }
                return false;
            }
            k += 1;
        }
        v += 1;
    }
    let mut rank: Vec<usize> = Vec::new();
    let mut i: usize = 0;
    while i < n
        invariant
            i <= n,
            rank@.len() == i,
            forall|a: int| 0 <= a < i ==> rank@[a] == 0,
        decreases n - i,
    {
        rank.push(0);
        i += 1;
    }
    if n == 0 {
        proof {
            assert(ranks(g, Seq::<nat>::empty()));
        }
        return true;
    }
    proof {
        lemma_total_bound(rank@, (n - 1) as nat);
    }
    loop
        invariant
            n == deps@.len(),
            n > 0,
            g == graph_of(deps@),
            rank@.len() == n,
            forall|a: int, k: int| 0 <= a < n && 0 <= k < g[a].len() ==> (#[trigger] g[a][k]) < n,
            forall|a: int| 0 <= a < n ==> rank@[a] < n,
            forall|r: Seq<nat>| #[trigger] ranks(g, r) ==> below(rank@, r),
            total(rank@) <= n * (n - 1),
        decreases n * (n - 1) - total(rank@),
    {
        let ghost start = rank@;
        let mut changed = false;
        let mut v: usize = 0;
        while v < n
            invariant
                v <= n,
                n == deps@.len(),
                n > 0,
                g == graph_of(deps@),
                rank@.len() == n,
                forall|a: int, k: int| 0 <= a < n && 0 <= k < g[a].len() ==> (#[trigger] g[a][k]) < n,
                forall|a: int| 0 <= a < n ==> rank@[a] < n,
                forall|r: Seq<nat>| #[trigger] ranks(g, r) ==> below(rank@, r),
                total(rank@) >= total(start),
                changed ==> total(rank@) > total(start),
                !changed ==> rank@ == start,
                !changed ==> forall|a: int, k: int|
                    0 <= a < v && 0 <= k < g[a].len() ==> rank@[(#[trigger] g[a][k]) as int] < rank@[a],
            decreases n - v,
        {
            let mut k: usize = 0;
            while k < deps[v].len()
                invariant
                    v < n,
                    n == deps@.len(),
                    n > 0,
                    g == graph_of(deps@),
                    rank@.len() == n,
                    k <= deps@[v as int]@.len(),
                    forall|a: int, j: int| 0 <= a < n && 0 <= j < g[a].len() ==> (#[trigger] g[a][j]) < n,
                    forall|a: int| 0 <= a < n ==> rank@[a] < n,
                    forall|r: Seq<nat>| #[trigger] ranks(g, r) ==> below(rank@, r),
                    total(rank@) >= total(start),
                    changed ==> total(rank@) > total(start),
                    !changed ==> rank@ == start,
                    !changed ==> forall|a: int, j: int|
                        0 <= a < v && 0 <= j < g[a].len() ==> rank@[(#[trigger] g[a][j]) as int] < rank@[a],
                    !changed ==> forall|j: int| 0 <= j < k ==> rank@[(#[trigger] g[v as int][j]) as int] < rank@[v as int],
                decreases deps@[v as int]@.len() - k,
            {
                let d = deps[v][k];
                assert(g[v as int][k as int] == d);
                if rank[v] <= rank[d] {
                    if rank[d] + 1 >= n {
                        proof {
                            assert forall|r: Seq<nat>| !ranks(g, r) by {
                                if ranks(g, r) {
                                    assert(below(rank@, r));
                                    assert(r[g[v as int][k as int] as int] < r[v as int]);
                                    assert(r[v as int] < g.len());
                                }
                            }
                        }
                        return false;
                    }
                    let ghost prev = rank@;
                    let next = rank[d] + 1;
                    rank.set(v, next);
                    changed = true;
                    proof {
                        lemma_total_update(prev, v as int, next);
                        assert forall|r: Seq<nat>| #[trigger] ranks(g, r) implies below(rank@, r) by {
                            assert(below(prev, r));
                            assert(r[g[v as int][k as int] as int] < r[v as int]);
                        }
                    }
                }
                k += 1;
            }
            v += 1;
        }
        if !changed {
            proof {
                let w = Seq::new(n as nat, |a: int| rank@[a] as nat);
                assert(ranks(g, w));
            }
            return true;
        }
        proof {
            lemma_total_bound(rank@, (n - 1) as nat);
        }
    }
}

/// Find an evaluation order for a model, using its default inputs and
/// outputs as boundaries.
pub fn eval_order(model: &Model) -> (r: Result<Vec<usize>, TractError>)
    requires
        model.wf(),
        acyclic(deps_of(model.node_seq())),
    ensures
        r is Ok,
        r->Ok_0@ == plan(deps_of(model.node_seq()), outlet_nodes(model.input_seq()), outlet_nodes(model.output_seq())),
        r->Ok_0@.no_duplicates(),
        dependencies_first(deps_of(model.node_seq()), outlet_nodes(model.input_seq()), r->Ok_0@),
        needed_only(
            deps_of(model.node_seq()),
            outlet_nodes(model.input_seq()),
            outlet_nodes(model.output_seq()),
            r->Ok_0@,
        ),
{
    let inputs = nodes_of(model.input_outlets().unwrap());
    let targets = nodes_of(model.output_outlets().unwrap());
    proof {
        assert forall|t: int| 0 <= t < targets@.len() implies targets@[t] < model.node_seq().len() by {
            assert(crate::model::outlet_exists(model.node_seq(), model.output_seq()[t]));
        }
    }
    eval_order_for_nodes(model.nodes().as_slice(), inputs.as_slice(), targets.as_slice())
}

/// The nodes of a list of outlets.
pub open spec fn outlet_nodes(outlets: Seq<OutletId>) -> Seq<usize> {
    Seq::new(outlets.len(), |i: int| outlets[i].node)
}

fn nodes_of(outlets: &Vec<OutletId>) -> (r: Vec<usize>)
    ensures
        r@ == outlet_nodes(outlets@),
{
    let mut out: Vec<usize> = Vec::new();
    let mut i: usize = 0;
    while i < outlets.len()
        invariant
            i <= outlets.len(),
            out@ == outlet_nodes(outlets@.take(i as int)),
        decreases outlets.len() - i,
    {
        out.push(outlets[i].node);
        i += 1;
        proof {
            assert(out@ =~= outlet_nodes(outlets@.take(i as int)));
        }
    }
    proof {
        assert(outlets@.take(outlets@.len() as int) =~= outlets@);
    }
    out
}

} // verus!
