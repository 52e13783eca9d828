//! Cycle detection: a depth-first traversal with three marks, along the
//! inputs of each node.

use crate::ir::errors::{error_views, lemma_error_views_push, ValidationError, ValidationErrorView};
use crate::ir::graph::Graph;
use crate::ir::ops::NodeView;
use crate::ir::types::NodeID;
use vstd::prelude::*;

verus! {

/// What the traversal knows of a node.
#[derive(Clone, Copy, Debug)]
pub enum Mark {
    /// Not reached yet.
    Unvisited,
    /// Entered and not left: the node is on the traversal stack.
    InProgress,
    /// Left: everything reachable from the node has been seen.
    Done,
}

/// State of a traversal: the mark of every node, the nodes entered and
/// not yet left (oldest first), and the cycles reported so far.
pub struct Traversal {
    pub marks: Seq<Mark>,
    pub stack: Seq<u32>,
    pub errors: Seq<ValidationErrorView>,
}

/// Number of nodes not reached yet.
pub open spec fn unvisited(marks: Seq<Mark>) -> nat
    decreases marks.len(),
{
    if marks.len() == 0 {
        0
    } else if marks.last() is Unvisited {
        unvisited(marks.drop_last()) + 1
    } else {
        unvisited(marks.drop_last())
    }
}

/// Position of the topmost occurrence of `target` on the stack; 0 if it
/// does not occur.
pub open spec fn loop_start(stack: Seq<u32>, target: u32) -> int
    decreases stack.len(),
{
    if stack.len() == 0 {
        0
    } else if stack.last() == target {
        stack.len() - 1
    } else {
        loop_start(stack.drop_last(), target)
    }
}

/// The cycle closed by an edge from the top of the stack back to
/// `target`: the stack from `target` upwards, in the order the nodes
/// were entered.
pub open spec fn cycle_through(stack: Seq<u32>, target: u32) -> Seq<u32> {
    stack.subrange(loop_start(stack, target), stack.len() as int)
}

/// The state after node `v`, unvisited so far, has been entered, all its
/// inputs followed and the node left. `depth` bounds the nesting of
/// visits; with `depth` at least the number of unvisited nodes it is
/// never used up.
pub open spec fn after_visit(g: Seq<NodeView>, v: u32, t: Traversal, depth: nat) -> Traversal
    decreases depth, 0nat, 0nat,
{
    if depth == 0 {
        t
    } else {
        let entered = Traversal {
            marks: t.marks.update(v as int, Mark::InProgress),
            stack: t.stack.push(v),
            errors: t.errors,
        };
        let followed = after_inputs(g, v, 0, entered, (depth - 1) as nat);
        Traversal {
            marks: followed.marks.update(v as int, Mark::Done),
            stack: followed.stack.drop_last(),
            errors: followed.errors,
        }
    }
}

/// The state after the inputs of node `v` from position `k` on have been
/// followed, in declared order. An input that names no node is passed
/// over; an unvisited one is visited; one in progress closes a cycle,
/// which is reported; one that is done is left alone.
pub open spec fn after_inputs(
    g: Seq<NodeView>,
    v: u32,
    k: nat,
    t: Traversal,
    depth: nat,
) -> Traversal
    decreases depth, 1nat, g[v as int].inputs.len() - k,
{
    if k >= g[v as int].inputs.len() {
        t
    } else {
        let w = g[v as int].inputs[k as int];
        let next = if w >= g.len() {
            t
        } else {
            match t.marks[w as int] {
                Mark::Unvisited => after_visit(g, w, t, depth),
                Mark::InProgress => Traversal {
                    marks: t.marks,
                    stack: t.stack,
                    errors: t.errors.push(
                        ValidationErrorView::CyclicGraph {
                            cycle_path: cycle_through(t.stack, w),
                        },
                    ),
                },
                Mark::Done => t,
            }
        };
        after_inputs(g, v, k + 1, next, depth)
    }
}

/// The state after the first `upto` nodes have been tried as starting
/// points, in ascending order; a node already reached is not visited
/// again.
pub open spec fn after_roots(g: Seq<NodeView>, upto: nat) -> Traversal
    decreases upto,
{
    if upto == 0 {
        Traversal {
            marks: Seq::new(g.len(), |i: int| Mark::Unvisited),
            stack: Seq::empty(),
            errors: Seq::empty(),
        }
    } else {
        let t = after_roots(g, (upto - 1) as nat);
        if t.marks[upto - 1] is Unvisited {
            after_visit(g, (upto - 1) as u32, t, g.len())
        } else {
            t
        }
    }
}

/// The cycles of a graph as the traversal reports them: one
/// `CyclicGraph` for every edge that leads back to a node in progress.
pub open spec fn cycle_errors(g: Seq<NodeView>) -> Seq<ValidationErrorView> {
    after_roots(g, g.len()).errors
}

/// Changing one mark changes the number of unvisited nodes by that mark
/// alone.
pub proof fn lemma_unvisited_update(marks: Seq<Mark>, i: int, m: Mark)
    requires
        0 <= i < marks.len(),
    ensures
        unvisited(marks.update(i, m)) + (if marks[i] is Unvisited {
            1nat
        } else {
            0nat
        }) == unvisited(marks) + (if m is Unvisited {
            1nat
        } else {
            0nat
        }),
    decreases marks.len(),
{
    if i == marks.len() - 1 {
        assert(marks.update(i, m).drop_last() =~= marks.drop_last());
    } else {
        lemma_unvisited_update(marks.drop_last(), i, m);
        assert(marks.update(i, m).drop_last() =~= marks.drop_last().update(i, m));
    }
}

/// No more nodes are unvisited than there are nodes.
pub proof fn lemma_unvisited_bound(marks: Seq<Mark>)
    ensures
        unvisited(marks) <= marks.len(),
    decreases marks.len(),
{
    if marks.len() > 0 {
        lemma_unvisited_bound(marks.drop_last());
    }
}

/// The traversal state that the three working lists stand for.
pub open spec fn state_of(
    marks: Seq<Mark>,
    stack: Seq<u32>,
    errors: Seq<ValidationError>,
) -> Traversal {
    Traversal { marks, stack, errors: error_views(errors) }
}

/// Reports the cycle closed by an edge from the top of the stack back to
/// `target`.
fn report_cycle(stack: &Vec<u32>, target: u32, errors: &mut Vec<ValidationError>)
    ensures
        error_views(final(errors)@) == error_views(old(errors)@).push(
            ValidationErrorView::CyclicGraph { cycle_path: cycle_through(stack@, target) },
        ),
{
    let len: usize = stack.len();
    let mut i: usize = len;
    assert(stack@.take(len as int) =~= stack@);
    while i > 0 && stack[i - 1] != target
        invariant
            i <= len,
            len == stack@.len(),
            loop_start(stack@, target) == loop_start(stack@.take(i as int), target),
        decreases i,
    {
        proof {
            assert(stack@.take(i as int).drop_last() =~= stack@.take(i - 1));
        }
        i -= 1;
    }
    let start: usize = if i > 0 {
        i - 1
    } else {
        0
    };
    let mut cycle_path: Vec<u32> = Vec::new();
    let mut j: usize = start;
    while j < len
        invariant
            start <= j <= len,
            len == stack@.len(),
            cycle_path@ == stack@.subrange(start as int, j as int),
        decreases len - j,
    {
        cycle_path.push(stack[j]);
        proof {
            assert(cycle_path@ =~= stack@.subrange(start as int, j + 1));
        }
        j += 1;
    }
    let ghost collected = errors@;
    let error = ValidationError::CyclicGraph { cycle_path };
    errors.push(error);
    proof {
        lemma_error_views_push(collected, error);
    }
}

/// The bound on the nesting of visits does not matter as long as it is
/// at least the number of unvisited nodes: a visit then gives the same
/// state under every such bound, and leaves fewer nodes unvisited.
pub proof fn lemma_visit_depth(g: Seq<NodeView>, v: u32, t: Traversal, d1: nat, d2: nat)
    requires
        t.marks.len() == g.len(),
        v < g.len(),
        t.marks[v as int] is Unvisited,
        d1 >= unvisited(t.marks),
        d2 >= unvisited(t.marks),
    ensures
        after_visit(g, v, t, d1) == after_visit(g, v, t, d2),
        after_visit(g, v, t, d1).marks.len() == g.len(),
        unvisited(after_visit(g, v, t, d1).marks) < unvisited(t.marks),
    decreases d1, 0nat, 0nat,
{
    lemma_unvisited_update(t.marks, v as int, Mark::InProgress);
    let entered = Traversal {
        marks: t.marks.update(v as int, Mark::InProgress),
        stack: t.stack.push(v),
        errors: t.errors,
    };
    lemma_inputs_depth(g, v, 0, entered, (d1 - 1) as nat, (d2 - 1) as nat);
    let followed = after_inputs(g, v, 0, entered, (d1 - 1) as nat);
    lemma_unvisited_update(followed.marks, v as int, Mark::Done);
}

/// Following the inputs of a node gives the same state under every
/// bound that is at least the number of unvisited nodes, and leaves no
/// more nodes unvisited than before.
pub proof fn lemma_inputs_depth(
    g: Seq<NodeView>,
    v: u32,
    k: nat,
    t: Traversal,
    d1: nat,
    d2: nat,
)
    requires
        t.marks.len() == g.len(),
        v < g.len(),
        d1 >= unvisited(t.marks),
        d2 >= unvisited(t.marks),
    ensures
        after_inputs(g, v, k, t, d1) == after_inputs(g, v, k, t, d2),
        after_inputs(g, v, k, t, d1).marks.len() == g.len(),
        unvisited(after_inputs(g, v, k, t, d1).marks) <= unvisited(t.marks),
    decreases d1, 1nat, g[v as int].inputs.len() - k,
{
    if k < g[v as int].inputs.len() {
        let w = g[v as int].inputs[k as int];
        if w < g.len() {
            match t.marks[w as int] {
                Mark::Unvisited => {
                    lemma_visit_depth(g, w, t, d1, d2);
                    lemma_inputs_depth(g, v, k + 1, after_visit(g, w, t, d1), d1, d2);
                },
                Mark::InProgress => {
                    let next = Traversal {
                        marks: t.marks,
                        stack: t.stack,
                        errors: t.errors.push(
                            ValidationErrorView::CyclicGraph {
                                cycle_path: cycle_through(t.stack, w),
                            },
                        ),
                    };
                    lemma_inputs_depth(g, v, k + 1, next, d1, d2);
                },
                Mark::Done => {
                    lemma_inputs_depth(g, v, k + 1, t, d1, d2);
                },
            }
        } else {
            lemma_inputs_depth(g, v, k + 1, t, d1, d2);
        }
    }
}

/// A visit leaves the stack as it found it.
pub proof fn lemma_visit_restores_stack(g: Seq<NodeView>, v: u32, t: Traversal, depth: nat)
    ensures
        after_visit(g, v, t, depth).stack == t.stack,
    decreases depth, 0nat, 0nat,
{
    if depth > 0 {
        let entered = Traversal {
            marks: t.marks.update(v as int, Mark::InProgress),
            stack: t.stack.push(v),
            errors: t.errors,
        };
        lemma_inputs_restore_stack(g, v, 0, entered, (depth - 1) as nat);
        assert(entered.stack.drop_last() =~= t.stack);
    }
}

/// Following the inputs of a node leaves the stack as it found it.
pub proof fn lemma_inputs_restore_stack(
    g: Seq<NodeView>,
    v: u32,
    k: nat,
    t: Traversal,
    depth: nat,
)
    ensures
        after_inputs(g, v, k, t, depth).stack == t.stack,
    decreases depth, 1nat, g[v as int].inputs.len() - k,
{
    if k < g[v as int].inputs.len() {
        let w = g[v as int].inputs[k as int];
        let next = if w >= g.len() {
            t
        } else {
            match t.marks[w as int] {
                Mark::Unvisited => after_visit(g, w, t, depth),
                Mark::InProgress => Traversal {
                    marks: t.marks,
                    stack: t.stack,
                    errors: t.errors.push(
                        ValidationErrorView::CyclicGraph {
                            cycle_path: cycle_through(t.stack, w),
                        },
                    ),
                },
                Mark::Done => t,
            }
        };
        if w < g.len() && t.marks[w as int] is Unvisited {
            lemma_visit_restores_stack(g, w, t, depth);
        }
        lemma_inputs_restore_stack(g, v, k + 1, next, depth);
    }
}

/// The state in which a suspended traversal ends. Every node on the
/// stack has been entered; `positions` holds, for each of them, how many
/// of its inputs have been followed. From the top of the stack down, the
/// remaining inputs of each node are followed and the node is left.
pub open spec fn unwound(g: Seq<NodeView>, t: Traversal, positions: Seq<usize>) -> Traversal
    decreases positions.len(),
{
    if positions.len() == 0 {
        t
    } else {
        let v = t.stack.last();
        let followed = after_inputs(
            g,
            v,
            positions.last() as nat,
            t,
            (g.len() - positions.len()) as nat,
        );
        unwound(
            g,
            Traversal {
                marks: followed.marks.update(v as int, Mark::Done),
                stack: t.stack.drop_last(),
                errors: followed.errors,
            },
            positions.drop_last(),
        )
    }
}

/// Bound on the steps that a suspended traversal still takes without
/// entering a node: one for each input not yet followed and one for each
/// node to leave.
pub open spec fn remaining(g: Seq<NodeView>, stack: Seq<u32>, positions: Seq<usize>) -> nat
    decreases positions.len(),
{
    if positions.len() == 0 || stack.len() == 0 {
        0
    } else {
        let inputs = g[stack.last() as int].inputs.len();
        let open = if inputs > positions.last() {
            (inputs - positions.last()) as nat
        } else {
            0
        };
        remaining(g, stack.drop_last(), positions.drop_last()) + open + 1
    }
}

/// Visits node `root` and everything reachable from it that is still
/// unvisited. The nodes in progress are kept on `stack`, with the number
/// of inputs already followed in `positions`, so that deep graphs cost
/// memory on the heap only.
fn visit(
    graph: &Graph,
    root: u32,
    marks: &mut Vec<Mark>,
    stack: &mut Vec<u32>,
    positions: &mut Vec<usize>,
    errors: &mut Vec<ValidationError>,
)
    requires
        root < graph@.len(),
        old(marks)@.len() == graph@.len(),
        old(marks)@[root as int] is Unvisited,
        old(stack)@.len() == 0,
        old(positions)@.len() == 0,
    ensures
        state_of(final(marks)@, final(stack)@, final(errors)@) == after_visit(
            graph@,
            root,
            state_of(old(marks)@, old(stack)@, old(errors)@),
            graph@.len(),
        ),
        final(marks)@.len() == old(marks)@.len(),
        final(stack)@.len() == 0,
        final(positions)@.len() == 0,
{
    let count: u32 = graph.node_count();
    let ghost start = state_of(marks@, stack@, errors@);
    let ghost goal = after_visit(graph@, root, start, count as nat);
    proof {
        lemma_unvisited_bound(marks@);
        lemma_unvisited_update(marks@, root as int, Mark::InProgress);
    }
    marks.set(root as usize, Mark::InProgress);
    stack.push(root);
    positions.push(0);
    proof {
        let entered = state_of(marks@, stack@, errors@);
        let followed = after_inputs(graph@, root, 0, entered, (count - 1) as nat);
        lemma_inputs_restore_stack(graph@, root, 0, entered, (count - 1) as nat);
        let left = Traversal {
            marks: followed.marks.update(root as int, Mark::Done),
            stack: entered.stack.drop_last(),
            errors: followed.errors,
        };
        assert(positions@.drop_last() =~= Seq::<usize>::empty());
        assert(unwound(graph@, left, positions@.drop_last()) == left);
        assert(left == goal);
    }
    while stack.len() > 0
        invariant
            count == graph@.len(),
            marks@.len() == count,
            positions@.len() == stack@.len(),
            forall|j: int| 0 <= j < stack@.len() ==> (#[trigger] stack@[j]) < count,
            unvisited(marks@) + stack@.len() <= count,
            unwound(graph@, state_of(marks@, stack@, errors@), positions@) == goal,
        decreases unvisited(marks@), remaining(graph@, stack@, positions@),
    {
        let top: usize = stack.len() - 1;
        let v: u32 = stack[top];
        let k: usize = positions[top];
        let ghost t = state_of(marks@, stack@, errors@);
        let ghost frames = positions@;
        let ghost depth = (count - frames.len()) as nat;
        match graph.get_node(NodeID::new(v)) {
            Some(node) => {
                if k >= node.inputs.len() {
                    proof {
                        lemma_unvisited_update(marks@, v as int, Mark::Done);
                    }
                    marks.set(v as usize, Mark::Done);
                    stack.pop();
                    positions.pop();
                    proof {
                        assert(stack@ =~= t.stack.drop_last());
                        assert(positions@ =~= frames.drop_last());
                    }
                } else {
                    let w: u32 = node.inputs[k].id();
                    assert(graph@[v as int].inputs[k as int] == w);
                    positions.set(top, k + 1);
                    let ghost advanced = positions@;
                    proof {
                        assert(advanced.drop_last() =~= frames.drop_last());
                    }
                    if w < count {
                        match marks[w as usize] {
                            Mark::Unvisited => {
                                proof {
                                    lemma_unvisited_update(marks@, w as int, Mark::InProgress);
                                }
                                marks.set(w as usize, Mark::InProgress);
                                stack.push(w);
                                positions.push(0);
                                proof {
                                    let entered = state_of(marks@, stack@, errors@);
                                    let inner = (depth - 1) as nat;
                                    let followed = after_inputs(graph@, w, 0, entered, inner);
                                    lemma_inputs_restore_stack(graph@, w, 0, entered, inner);
                                    let visited = after_visit(graph@, w, t, depth);
                                    assert(entered.stack.drop_last() =~= t.stack);
                                    assert(positions@.drop_last() =~= advanced);
                                    let left = Traversal {
                                        marks: followed.marks.update(w as int, Mark::Done),
                                        stack: entered.stack.drop_last(),
                                        errors: followed.errors,
                                    };
                                    assert(left == visited);
                                    assert(unwound(graph@, entered, positions@) == unwound(
                                        graph@,
                                        visited,
                                        advanced,
                                    ));
                                    assert(unwound(graph@, visited, advanced) == unwound(
                                        graph@,
                                        t,
                                        frames,
                                    ));
                                }
                            },
                            Mark::InProgress => {
                                report_cycle(stack, w, errors);
                            },
                            Mark::Done => {},
                        }
                    }
                }
            },
            None => {},
        }
    }
}

/// Runs the traversal over the whole graph, starting from each node in
/// ascending order of identifier, and returns every cycle it reports.
/// Inputs that name no node are passed over.
pub fn find_cycles(graph: &Graph) -> (errors: Vec<ValidationError>)
    ensures
        error_views(errors@) == cycle_errors(graph@),
{
    let count: u32 = graph.node_count();
    let mut marks: Vec<Mark> = Vec::new();
    let mut i: u32 = 0;
    while i < count
        invariant
            i <= count,
            marks@ =~= Seq::new(i as nat, |j: int| Mark::Unvisited),
        decreases count - i,
    {
        marks.push(Mark::Unvisited);
        i += 1;
    }
    let mut stack: Vec<u32> = Vec::new();
    let mut positions: Vec<usize> = Vec::new();
    let mut errors: Vec<ValidationError> = Vec::new();
    assert(error_views(errors@) =~= Seq::empty());
    i = 0;
    while i < count
        invariant
            i <= count,
            count == graph@.len(),
            marks@.len() == count,
            stack@.len() == 0,
            positions@.len() == 0,
            state_of(marks@, stack@, errors@) == after_roots(graph@, i as nat),
        decreases count - i,
    {
        match marks[i as usize] {
            Mark::Unvisited => {
                visit(graph, i, &mut marks, &mut stack, &mut positions, &mut errors);
            },
            _ => {},
        }
        i += 1;
    }
    errors
}

} // verus!
