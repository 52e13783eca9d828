//! What the cycle traversal finds, stated over the graph alone: every
//! path it reports is a cycle of the graph, and it reports one whenever
//! the graph has any.

use crate::ir::cycles::{
    after_inputs, after_roots, after_visit, cycle_errors, cycle_through, lemma_unvisited_bound,
    lemma_unvisited_update, loop_start, unvisited, Mark, Traversal,
};
use crate::ir::errors::ValidationErrorView;
use crate::ir::ops::NodeView;
use vstd::prelude::*;

verus! {

/// Node `a` lists node `b` among its inputs, and both exist.
pub open spec fn consumes(g: Seq<NodeView>, a: u32, b: u32) -> bool {
    a < g.len() && b < g.len() && g[a as int].inputs.contains(b)
}

/// Each node of the list consumes the next one.
pub open spec fn is_chain(g: Seq<NodeView>, path: Seq<u32>) -> bool {
    forall|i: int, j: int|
        0 <= i && j == i + 1 && j < path.len() ==> consumes(
            g,
            #[trigger] path[i],
            #[trigger] path[j],
        )
}

/// A cycle: a non-empty chain whose last node consumes the first.
pub open spec fn is_cycle(g: Seq<NodeView>, path: Seq<u32>) -> bool {
    path.len() > 0 && is_chain(g, path) && consumes(g, path.last(), path[0])
}

/// The error is a `CyclicGraph` whose path is a cycle of the graph.
pub open spec fn reports_cycle(g: Seq<NodeView>, e: ValidationErrorView) -> bool {
    e matches ValidationErrorView::CyclicGraph { cycle_path } && is_cycle(g, cycle_path)
}

/// The same nodes are in progress under both lists of marks.
pub open spec fn same_progress(a: Seq<Mark>, b: Seq<Mark>) -> bool {
    a.len() == b.len() && forall|w: int|
        #![trigger a[w]]
        #![trigger b[w]]
        0 <= w < a.len() ==> (a[w] is InProgress <==> b[w] is InProgress)
}

/// The stack holds exactly the nodes in progress and is a chain, and
/// every error reported so far is a cycle of the graph.
pub open spec fn consistent(g: Seq<NodeView>, t: Traversal) -> bool {
    &&& t.marks.len() == g.len()
    &&& forall|i: int|
        0 <= i < t.stack.len() ==> (#[trigger] t.stack[i]) < g.len()
            && t.marks[t.stack[i] as int] is InProgress
    &&& is_chain(g, t.stack)
    &&& forall|w: int|
        0 <= w < g.len() && (#[trigger] t.marks[w]) is InProgress ==> t.stack.contains(w as u32)
    &&& forall|i: int| 0 <= i < t.errors.len() ==> reports_cycle(g, #[trigger] t.errors[i])
}

/// Where the stack holds `target`, `loop_start` is a position of it.
pub proof fn lemma_loop_start(stack: Seq<u32>, target: u32)
    requires
        stack.contains(target),
    ensures
        0 <= loop_start(stack, target) < stack.len(),
        stack[loop_start(stack, target)] == target,
    decreases stack.len(),
{
    if stack.last() != target {
        let i = choose|i: int| 0 <= i < stack.len() && stack[i] == target;
        assert(stack.drop_last()[i] == target);
        lemma_loop_start(stack.drop_last(), target);
    }
}

/// An edge from the top of a chain back to a node of the chain closes a
/// cycle.
pub proof fn lemma_cycle_closed(g: Seq<NodeView>, stack: Seq<u32>, target: u32)
    requires
        is_chain(g, stack),
        stack.contains(target),
        consumes(g, stack.last(), target),
    ensures
        is_cycle(g, cycle_through(stack, target)),
{
    lemma_loop_start(stack, target);
    let start = loop_start(stack, target);
    let path = cycle_through(stack, target);
    assert forall|i: int, j: int| 0 <= i && j == i + 1 && j < path.len() implies consumes(
        g,
        #[trigger] path[i],
        #[trigger] path[j],
    ) by {
        assert(path[i] == stack[start + i]);
        assert(path[j] == stack[start + j]);
    }
    assert(path.last() == stack.last());
    assert(path[0] == target);
}

/// The state in which node `v` has just been entered.
pub open spec fn entered(t: Traversal, v: u32) -> Traversal {
    Traversal {
        marks: t.marks.update(v as int, Mark::InProgress),
        stack: t.stack.push(v),
        errors: t.errors,
    }
}

/// Entering an unvisited node that the top of the stack consumes keeps
/// the traversal consistent.
pub proof fn lemma_entered_consistent(g: Seq<NodeView>, v: u32, t: Traversal)
    requires
        consistent(g, t),
        v < g.len(),
        t.marks[v as int] is Unvisited,
        t.stack.len() > 0 ==> consumes(g, t.stack.last(), v),
    ensures
        consistent(g, entered(t, v)),
{
    let entered = entered(t, v);
    assert forall|w: int|
        0 <= w < g.len() && (#[trigger] entered.marks[w]) is InProgress
        implies entered.stack.contains(w as u32) by {
        if w == v {
            assert(entered.stack[t.stack.len() as int] == v);
        } else {
            assert(t.marks[w] is InProgress);
            let i = choose|i: int| 0 <= i < t.stack.len() && t.stack[i] == w as u32;
            assert(entered.stack[i] == w as u32);
        }
    }
    assert forall|i: int, j: int|
        0 <= i && j == i + 1 && j < entered.stack.len() implies consumes(
        g,
        #[trigger] entered.stack[i],
        #[trigger] entered.stack[j],
    ) by {
        if j < t.stack.len() {
            assert(consumes(g, t.stack[i], t.stack[j]));
        }
    }
}

/// A visit keeps the traversal consistent and leaves the stack and the
/// set of nodes in progress as it found them.
pub proof fn lemma_visit_consistent(g: Seq<NodeView>, v: u32, t: Traversal, depth: nat)
    requires
        consistent(g, t),
        v < g.len(),
        t.marks[v as int] is Unvisited,
        t.stack.len() > 0 ==> consumes(g, t.stack.last(), v),
    ensures
        consistent(g, after_visit(g, v, t, depth)),
        after_visit(g, v, t, depth).stack == t.stack,
        same_progress(t.marks, after_visit(g, v, t, depth).marks),
    decreases depth, 0nat, 0nat,
{
    if depth > 0 {
        let entered = Traversal {
            marks: t.marks.update(v as int, Mark::InProgress),
            stack: t.stack.push(v),
            errors: t.errors,
        };
        lemma_entered_consistent(g, v, t);
        lemma_inputs_consistent(g, v, 0, entered, (depth - 1) as nat);
        let followed = after_inputs(g, v, 0, entered, (depth - 1) as nat);
        let left = after_visit(g, v, t, depth);
        assert(left.stack =~= t.stack);
        assert(same_progress(t.marks, left.marks)) by {
            assert forall|w: int|
                #![trigger t.marks[w]]
                #![trigger left.marks[w]]
                0 <= w < t.marks.len() implies (t.marks[w] is InProgress
                <==> left.marks[w] is InProgress) by {
                if w != v {
                    assert(entered.marks[w] is InProgress <==> followed.marks[w] is InProgress);
                }
            }
        }
        assert(consistent(g, left)) by {
            assert forall|i: int| 0 <= i < left.stack.len() implies (#[trigger] left.stack[i])
                < g.len() && left.marks[left.stack[i] as int] is InProgress by {
                assert(t.marks[t.stack[i] as int] is InProgress);
            }
            assert forall|w: int|
                0 <= w < g.len() && (#[trigger] left.marks[w]) is InProgress
                implies left.stack.contains(w as u32) by {
                assert(t.marks[w] is InProgress);
            }
        }
    }
}

/// Following the inputs of the node on top of the stack keeps the
/// traversal consistent and leaves the stack and the set of nodes in
/// progress as it found them.
pub proof fn lemma_inputs_consistent(
    g: Seq<NodeView>,
    v: u32,
    k: nat,
    t: Traversal,
    depth: nat,
)
    requires
        consistent(g, t),
        v < g.len(),
        t.stack.len() > 0,
        t.stack.last() == v,
    ensures
        consistent(g, after_inputs(g, v, k, t, depth)),
        after_inputs(g, v, k, t, depth).stack == t.stack,
        same_progress(t.marks, after_inputs(g, v, k, t, depth).marks),
    decreases depth, 1nat, g[v as int].inputs.len() - k,
{
    if k < g[v as int].inputs.len() {
        let w = g[v as int].inputs[k as int];
        if w < g.len() {
            assert(consumes(g, v, w));
            match t.marks[w as int] {
                Mark::Unvisited => {
                    lemma_visit_consistent(g, w, t, depth);
                    lemma_inputs_consistent(g, v, k + 1, after_visit(g, w, t, depth), depth);
                },
                Mark::InProgress => {
                    lemma_cycle_closed(g, t.stack, w);
                    let next = Traversal {
                        marks: t.marks,
                        stack: t.stack,
                        errors: t.errors.push(
                            ValidationErrorView::CyclicGraph {
                                cycle_path: cycle_through(t.stack, w),
                            },
                        ),
                    };
                    assert(consistent(g, next));
                    lemma_inputs_consistent(g, v, k + 1, next, depth);
                },
                Mark::Done => {
                    lemma_inputs_consistent(g, v, k + 1, t, depth);
                },
            }
        } else {
            lemma_inputs_consistent(g, v, k + 1, t, depth);
        }
    }
}

/// Between two starting points the stack is empty and the traversal is
/// consistent.
pub proof fn lemma_roots_consistent(g: Seq<NodeView>, upto: nat)
    requires
        upto <= g.len() <= u32::MAX,
    ensures
        consistent(g, after_roots(g, upto)),
        after_roots(g, upto).stack.len() == 0,
    decreases upto,
{
    if upto > 0 {
        lemma_roots_consistent(g, (upto - 1) as nat);
        let t = after_roots(g, (upto - 1) as nat);
        if t.marks[upto - 1] is Unvisited {
            lemma_visit_consistent(g, (upto - 1) as u32, t, g.len());
        }
    }
}

/// Every error of the cycle pass is a `CyclicGraph` whose path is a
/// cycle of the graph: each node of the path exists and consumes the
/// next, and the last consumes the first.
pub proof fn lemma_reported_cycles_exist(g: Seq<NodeView>, i: int)
    requires
        g.len() <= u32::MAX,
        0 <= i < cycle_errors(g).len(),
    ensures
        reports_cycle(g, cycle_errors(g)[i]),
{
    lemma_roots_consistent(g, g.len());
}

/// The edge from `a` to its input `b` closes the cycle that the error
/// reports: the path ends at `a` and begins at `b`.
pub open spec fn closing_edge(e: ValidationErrorView, a: u32, b: u32) -> bool {
    e matches ValidationErrorView::CyclicGraph { cycle_path } && cycle_path.len() > 0
        && cycle_path.last() == a && cycle_path[0] == b
}

/// Some error of the list reports a cycle that the edge from `a` to its
/// input `b` closes.
pub open spec fn closes(errors: Seq<ValidationErrorView>, a: u32, b: u32) -> bool {
    exists|i: int| 0 <= i < errors.len() && closing_edge(#[trigger] errors[i], a, b)
}

/// The second list begins with the first.
pub open spec fn grows(before: Seq<ValidationErrorView>, after: Seq<ValidationErrorView>) -> bool {
    before.len() <= after.len() && forall|i: int|
        0 <= i < before.len() ==> #[trigger] after[i] == before[i]
}

/// An edge that closes a reported cycle still does so when more errors
/// have been reported.
pub proof fn lemma_closes_grows(
    before: Seq<ValidationErrorView>,
    after: Seq<ValidationErrorView>,
    a: u32,
    b: u32,
)
    requires
        grows(before, after),
        closes(before, a, b),
    ensures
        closes(after, a, b),
{
    let i = choose|i: int| 0 <= i < before.len() && closing_edge(#[trigger] before[i], a, b);
    assert(closing_edge(after[i], a, b));
}

/// The nodes that are done are ranked: every edge from a node that is
/// done to an input that exists either closes a reported cycle, or leads
/// to a node that is done and ranks lower.
pub open spec fn ordered(
    g: Seq<NodeView>,
    marks: Seq<Mark>,
    errors: Seq<ValidationErrorView>,
    rank: Seq<int>,
    next: int,
) -> bool {
    &&& marks.len() == g.len()
    &&& rank.len() == g.len()
    &&& forall|u: int| 0 <= u < g.len() && (#[trigger] marks[u]) is Done ==> rank[u] < next
    &&& forall|u: int, j: int|
        0 <= u < g.len() && marks[u] is Done && 0 <= j < g[u].inputs.len() && (
        #[trigger] g[u].inputs[j]) < g.len() ==> closes(errors, u as u32, g[u].inputs[j]) || (
        marks[g[u].inputs[j] as int] is Done && rank[g[u].inputs[j] as int] < rank[u])
}

/// Every mark other than `Unvisited` is the same before and after.
pub open spec fn kept(before: Seq<Mark>, after: Seq<Mark>) -> bool {
    before.len() == after.len() && forall|u: int|
        0 <= u < before.len() && !((#[trigger] before[u]) is Unvisited) ==> after[u] == before[u]
}

/// The ranks of the nodes that are done are the same before and after.
pub open spec fn ranks_kept(marks: Seq<Mark>, before: Seq<int>, after: Seq<int>) -> bool {
    before.len() == after.len() && forall|u: int|
        0 <= u < marks.len() && (#[trigger] marks[u]) is Done ==> after[u] == before[u]
}

/// Each of the first `upto` inputs of node `v` that exists is done, or
/// the edge to it closes a reported cycle.
pub open spec fn inputs_done(
    g: Seq<NodeView>,
    v: u32,
    upto: int,
    marks: Seq<Mark>,
    errors: Seq<ValidationErrorView>,
) -> bool {
    forall|j: int|
        0 <= j < upto && (#[trigger] g[v as int].inputs[j]) < g.len() ==> closes(
            errors,
            v,
            g[v as int].inputs[j],
        ) || marks[g[v as int].inputs[j] as int] is Done
}

/// A ranking stays one when more errors are reported.
pub proof fn lemma_ordered_grows(
    g: Seq<NodeView>,
    marks: Seq<Mark>,
    before: Seq<ValidationErrorView>,
    after: Seq<ValidationErrorView>,
    rank: Seq<int>,
    next: int,
)
    requires
        ordered(g, marks, before, rank, next),
        grows(before, after),
    ensures
        ordered(g, marks, after, rank, next),
{
    assert forall|u: int, j: int|
        0 <= u < g.len() && marks[u] is Done && 0 <= j < g[u].inputs.len() && (
        #[trigger] g[u].inputs[j]) < g.len()
        implies closes(after, u as u32, g[u].inputs[j]) || (marks[g[u].inputs[j] as int] is Done
        && rank[g[u].inputs[j] as int] < rank[u]) by {
        if closes(before, u as u32, g[u].inputs[j]) {
            lemma_closes_grows(before, after, u as u32, g[u].inputs[j]);
        }
    }
}

/// What holds of the first inputs of a node still holds when more nodes
/// are done and more errors reported.
pub proof fn lemma_inputs_done_grows(
    g: Seq<NodeView>,
    v: u32,
    upto: int,
    marks: Seq<Mark>,
    before: Seq<ValidationErrorView>,
    later_marks: Seq<Mark>,
    after: Seq<ValidationErrorView>,
)
    requires
        marks.len() == g.len(),
        inputs_done(g, v, upto, marks, before),
        kept(marks, later_marks),
        grows(before, after),
    ensures
        inputs_done(g, v, upto, later_marks, after),
{
    assert forall|j: int| 0 <= j < upto && (#[trigger] g[v as int].inputs[j]) < g.len()
        implies closes(after, v, g[v as int].inputs[j])
        || later_marks[g[v as int].inputs[j] as int] is Done by {
        let w = g[v as int].inputs[j];
        if closes(before, v, w) {
            lemma_closes_grows(before, after, v, w);
        } else {
            assert(marks[w as int] is Done);
        }
    }
}

/// A visit keeps what was reported and every mark other than
/// `Unvisited`, leaves the visited node done, and keeps the done nodes
/// ranked. Returns the ranking after it.
pub proof fn lemma_visit_ordered(
    g: Seq<NodeView>,
    v: u32,
    t: Traversal,
    depth: nat,
    rank: Seq<int>,
    next: int,
) -> (r: (Seq<int>, int))
    requires
        consistent(g, t),
        v < g.len(),
        t.marks[v as int] is Unvisited,
        t.stack.len() > 0 ==> consumes(g, t.stack.last(), v),
        depth >= unvisited(t.marks),
        ordered(g, t.marks, t.errors, rank, next),
    ensures
        kept(t.marks, after_visit(g, v, t, depth).marks),
        ranks_kept(t.marks, rank, r.0),
        grows(t.errors, after_visit(g, v, t, depth).errors),
        unvisited(after_visit(g, v, t, depth).marks) < unvisited(t.marks),
        ordered(
            g,
            after_visit(g, v, t, depth).marks,
            after_visit(g, v, t, depth).errors,
            r.0,
            r.1,
        ),
        after_visit(g, v, t, depth).marks[v as int] is Done,
    decreases depth, 0nat, 0nat,
{
    lemma_unvisited_update(t.marks, v as int, Mark::InProgress);
    lemma_entered_consistent(g, v, t);
    let entered = entered(t, v);
    let inner = (depth - 1) as nat;
    assert(ordered(g, entered.marks, entered.errors, rank, next)) by {
        assert forall|u: int| 0 <= u < g.len() && (#[trigger] entered.marks[u]) is Done
            implies rank[u] < next by {
            assert(t.marks[u] is Done);
        }
    }
    let (ranked, reached) = lemma_inputs_ordered(g, v, 0, entered, inner, rank, next);
    let followed = after_inputs(g, v, 0, entered, inner);
    let left = after_visit(g, v, t, depth);
    lemma_unvisited_update(followed.marks, v as int, Mark::Done);
    let r = (ranked.update(v as int, reached), reached + 1);
    assert(followed.marks[v as int] is InProgress) by {
        assert(entered.marks[v as int] is InProgress);
    }
    assert(kept(t.marks, left.marks)) by {
        assert forall|u: int|
            0 <= u < t.marks.len() && !((#[trigger] t.marks[u]) is Unvisited)
            implies left.marks[u] == t.marks[u] by {
            assert(entered.marks[u] == t.marks[u]);
        }
    }
    assert(ranks_kept(t.marks, rank, r.0)) by {
        assert forall|u: int|
            0 <= u < t.marks.len() && (#[trigger] t.marks[u]) is Done
            implies r.0[u] == rank[u] by {
            assert(entered.marks[u] is Done);
        }
    }
    assert(ordered(g, left.marks, left.errors, r.0, r.1)) by {
        assert forall|u: int| 0 <= u < g.len() && (#[trigger] left.marks[u]) is Done
            implies r.0[u] < r.1 by {
            if u != v {
                assert(followed.marks[u] is Done);
            }
        }
        assert forall|u: int, j: int|
            0 <= u < g.len() && left.marks[u] is Done && 0 <= j < g[u].inputs.len() && (
            #[trigger] g[u].inputs[j]) < g.len()
            implies closes(left.errors, u as u32, g[u].inputs[j]) || (
            left.marks[g[u].inputs[j] as int] is Done && r.0[g[u].inputs[j] as int] < r.0[u]) by {
            let w = g[u].inputs[j] as int;
            if !closes(left.errors, u as u32, g[u].inputs[j]) {
                if u == v {
                    assert(followed.marks[w] is Done);
                } else {
                    assert(followed.marks[u] is Done);
                    assert(followed.marks[w] is Done);
                }
            }
        }
    }
    r
}

/// Following the inputs of the node on top of the stack, from position
/// `k` on, keeps what was reported and every mark other than
/// `Unvisited`, and keeps the done nodes ranked; in the end each input of
/// the node that exists is done, or the edge to it closes a reported
/// cycle. Returns the ranking after it.
pub proof fn lemma_inputs_ordered(
    g: Seq<NodeView>,
    v: u32,
    k: nat,
    t: Traversal,
    depth: nat,
    rank: Seq<int>,
    next: int,
) -> (r: (Seq<int>, int))
    requires
        consistent(g, t),
        v < g.len(),
        t.stack.len() > 0,
        t.stack.last() == v,
        k <= g[v as int].inputs.len(),
        depth >= unvisited(t.marks),
        ordered(g, t.marks, t.errors, rank, next),
        inputs_done(g, v, k as int, t.marks, t.errors),
    ensures
        kept(t.marks, after_inputs(g, v, k, t, depth).marks),
        ranks_kept(t.marks, rank, r.0),
        grows(t.errors, after_inputs(g, v, k, t, depth).errors),
        unvisited(after_inputs(g, v, k, t, depth).marks) <= unvisited(t.marks),
        ordered(
            g,
            after_inputs(g, v, k, t, depth).marks,
            after_inputs(g, v, k, t, depth).errors,
            r.0,
            r.1,
        ),
        inputs_done(
            g,
            v,
            g[v as int].inputs.len() as int,
            after_inputs(g, v, k, t, depth).marks,
            after_inputs(g, v, k, t, depth).errors,
        ),
    decreases depth, 1nat, g[v as int].inputs.len() - k,
{
    if k < g[v as int].inputs.len() {
        let w = g[v as int].inputs[k as int];
        if w < g.len() {
            assert(consumes(g, v, w));
            match t.marks[w as int] {
                Mark::Unvisited => {
                    let (ranked, reached) = lemma_visit_ordered(g, w, t, depth, rank, next);
                    lemma_visit_consistent(g, w, t, depth);
                    let visited = after_visit(g, w, t, depth);
                    lemma_inputs_done_grows(
                        g,
                        v,
                        k as int,
                        t.marks,
                        t.errors,
                        visited.marks,
                        visited.errors,
                    );
                    assert(inputs_done(g, v, (k + 1) as int, visited.marks, visited.errors));
                    let r = lemma_inputs_ordered(g, v, k + 1, visited, depth, ranked, reached);
                    let last = after_inputs(g, v, k + 1, visited, depth);
                    assert(ranks_kept(t.marks, rank, r.0)) by {
                        assert forall|u: int|
                            0 <= u < t.marks.len() && (#[trigger] t.marks[u]) is Done
                            implies r.0[u] == rank[u] by {
                            assert(visited.marks[u] is Done);
                        }
                    }
                    r
                },
                Mark::InProgress => {
                    let path = cycle_through(t.stack, w);
                    let found = t.errors.push(
                        ValidationErrorView::CyclicGraph { cycle_path: path },
                    );
                    let next_state = Traversal { marks: t.marks, stack: t.stack, errors: found };
                    lemma_cycle_closed(g, t.stack, w);
                    lemma_loop_start(t.stack, w);
                    assert(consistent(g, next_state));
                    assert(closes(found, v, w)) by {
                        assert(closing_edge(found[t.errors.len() as int], v, w));
                    }
                    lemma_ordered_grows(g, t.marks, t.errors, found, rank, next);
                    lemma_inputs_done_grows(g, v, k as int, t.marks, t.errors, t.marks, found);
                    assert(inputs_done(g, v, (k + 1) as int, t.marks, found));
                    lemma_inputs_ordered(g, v, k + 1, next_state, depth, rank, next)
                },
                Mark::Done => {
                    assert(inputs_done(g, v, (k + 1) as int, t.marks, t.errors));
                    lemma_inputs_ordered(g, v, k + 1, t, depth, rank, next)
                },
            }
        } else {
            assert(inputs_done(g, v, (k + 1) as int, t.marks, t.errors));
            lemma_inputs_ordered(g, v, k + 1, t, depth, rank, next)
        }
    } else {
        (rank, next)
    }
}

/// When the traversal has tried the first `upto` nodes, these are done
/// and the done nodes are ranked. Returns the ranking.
pub proof fn lemma_roots_ordered(g: Seq<NodeView>, upto: nat) -> (r: (Seq<int>, int))
    requires
        upto <= g.len() <= u32::MAX,
    ensures
        ordered(g, after_roots(g, upto).marks, after_roots(g, upto).errors, r.0, r.1),
        forall|u: int| 0 <= u < upto ==> (#[trigger] after_roots(g, upto).marks[u]) is Done,
    decreases upto,
{
    if upto == 0 {
        (Seq::new(g.len(), |i: int| 0int), 0)
    } else {
        let (rank, next) = lemma_roots_ordered(g, (upto - 1) as nat);
        lemma_roots_consistent(g, (upto - 1) as nat);
        let t = after_roots(g, (upto - 1) as nat);
        if t.marks[upto - 1] is Unvisited {
            lemma_unvisited_bound(t.marks);
            let r = lemma_visit_ordered(g, (upto - 1) as u32, t, g.len(), rank, next);
            let left = after_roots(g, upto);
            assert forall|u: int| 0 <= u < upto implies (#[trigger] left.marks[u]) is Done by {
                if u < upto - 1 {
                    assert(t.marks[u] is Done);
                }
            }
            r
        } else {
            if t.marks[upto - 1] is InProgress {
                assert(t.stack.contains((upto - 1) as u32));
            }
            (rank, next)
        }
    }
}

/// The node that follows position `i` on a cycle: the next one, or the
/// first after the last.
pub open spec fn successor(path: Seq<u32>, i: int) -> u32 {
    if i + 1 < path.len() {
        path[i + 1]
    } else {
        path[0]
    }
}

/// No edge of the cycle closes a reported one.
pub open spec fn unmet(errors: Seq<ValidationErrorView>, path: Seq<u32>) -> bool {
    forall|j: int| 0 <= j < path.len() ==> !closes(errors, #[trigger] path[j], successor(path, j))
}

/// Along a chain of done nodes none of whose edges closes a reported
/// cycle, the rank falls with every step.
pub proof fn lemma_chain_descends(
    g: Seq<NodeView>,
    marks: Seq<Mark>,
    errors: Seq<ValidationErrorView>,
    rank: Seq<int>,
    next: int,
    path: Seq<u32>,
    i: int,
)
    requires
        ordered(g, marks, errors, rank, next),
        forall|u: int| 0 <= u < g.len() ==> (#[trigger] marks[u]) is Done,
        is_chain(g, path),
        unmet(errors, path),
        0 <= i < path.len(),
        path[0] < g.len(),
    ensures
        path[i] < g.len(),
        rank[path[i] as int] <= rank[path[0] as int] - i,
    decreases i,
{
    if i > 0 {
        lemma_chain_descends(g, marks, errors, rank, next, path, i - 1);
        let a = path[i - 1];
        let b = path[i];
        assert(consumes(g, a, b));
        assert(successor(path, i - 1) == b);
        let j = choose|j: int| 0 <= j < g[a as int].inputs.len() && g[a as int].inputs[j] == b;
        assert(g[a as int].inputs[j] < g.len());
        assert(marks[a as int] is Done);
    }
}

/// Every cycle of the graph is found: on each cycle lies an edge that
/// closes one of the reported cycles. So cycles that share no node are
/// reported each on its own.
pub proof fn lemma_every_cycle_is_met(g: Seq<NodeView>, path: Seq<u32>)
    requires
        g.len() <= u32::MAX,
        is_cycle(g, path),
    ensures
        exists|i: int|
            0 <= i < path.len() && closes(cycle_errors(g), #[trigger] path[i], successor(path, i)),
{
    let errors = cycle_errors(g);
    if unmet(errors, path) {
        let (rank, next) = lemma_roots_ordered(g, g.len());
        let marks = after_roots(g, g.len()).marks;
        let last = path.last();
        let first = path[0];
        lemma_chain_descends(g, marks, errors, rank, next, path, path.len() - 1);
        assert(consumes(g, last, first));
        assert(successor(path, path.len() - 1) == first);
        assert(!closes(errors, path[path.len() - 1], first));
        let j = choose|j: int|
            0 <= j < g[last as int].inputs.len() && g[last as int].inputs[j] == first;
        assert(g[last as int].inputs[j] < g.len());
        assert(marks[last as int] is Done);
        assert(rank[first as int] < rank[last as int]);
        assert(false);
    }
}

/// The errors account for the cycles of the graph: each of them reports
/// a cycle of the graph, and on every cycle of the graph lies an edge
/// that closes a reported one.
#[verifier::opaque]
pub open spec fn accounts_for_cycles(g: Seq<NodeView>, errors: Seq<ValidationErrorView>) -> bool {
    &&& forall|i: int| 0 <= i < errors.len() ==> reports_cycle(g, #[trigger] errors[i])
    &&& forall|path: Seq<u32>| #[trigger]
        is_cycle(g, path) ==> exists|i: int|
            0 <= i < path.len() && closes(errors, #[trigger] path[i], successor(path, i))
}

/// What the cycle pass reports accounts for the cycles of the graph.
pub proof fn lemma_cycles_accounted(g: Seq<NodeView>)
    requires
        g.len() <= u32::MAX,
    ensures
        accounts_for_cycles(g, cycle_errors(g)),
{
    reveal(accounts_for_cycles);
    assert forall|i: int| 0 <= i < cycle_errors(g).len() implies reports_cycle(
        g,
        #[trigger] cycle_errors(g)[i],
    ) by {
        lemma_reported_cycles_exist(g, i);
    }
    assert forall|path: Seq<u32>| #[trigger] is_cycle(g, path) implies exists|i: int|
        0 <= i < path.len() && closes(cycle_errors(g), #[trigger] path[i], successor(path, i)) by {
        lemma_every_cycle_is_met(g, path);
    }
}

/// A graph for which the cycle pass reports nothing has no cycle.
pub proof fn lemma_no_error_no_cycle(g: Seq<NodeView>, path: Seq<u32>)
    requires
        g.len() <= u32::MAX,
        cycle_errors(g).len() == 0,
    ensures
        !is_cycle(g, path),
{
    if is_cycle(g, path) {
        lemma_every_cycle_is_met(g, path);
    }
}

/// The cycle pass succeeds exactly on the graphs without a cycle.
pub proof fn lemma_cycle_pass_decides(g: Seq<NodeView>)
    requires
        g.len() <= u32::MAX,
    ensures
        cycle_errors(g).len() == 0 <==> forall|path: Seq<u32>| !is_cycle(g, path),
{
    if cycle_errors(g).len() == 0 {
        assert forall|path: Seq<u32>| !is_cycle(g, path) by {
            lemma_no_error_no_cycle(g, path);
        }
    } else {
        lemma_reported_cycles_exist(g, 0);
        let e = cycle_errors(g)[0];
        assert(is_cycle(g, e->CyclicGraph_cycle_path));
    }
}

} // verus!
