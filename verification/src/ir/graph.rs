//! The graph: owner of all nodes and source of their identifiers.

use crate::ir::ops::{Node, NodeView};
use crate::ir::types::{id_numbers, NodeID, OpKind, OpKindView};
use std::collections::HashMap;
use vstd::prelude::*;

verus! {

broadcast use vstd::std_specs::hash::group_hash_axioms;

/// A computation graph. Nodes are stored under their number; numbers are
/// handed out in order from 0 and never reused.
pub struct Graph {
    nodes: HashMap<u32, Node>,
    next_id: u32,
}

impl View for Graph {
    type V = Seq<NodeView>;

    /// The nodes in the order they were added; a node's position is its
    /// number.
    closed spec fn view(&self) -> Seq<NodeView> {
        Seq::new(self.next_id as nat, |i: int| self.nodes@[i as u32]@)
    }
}

impl Graph {
    #[verifier::type_invariant]
    spec fn wf(&self) -> bool {
        &&& forall|id: u32| #[trigger] self.nodes@.contains_key(id) <==> id < self.next_id
        &&& forall|id: u32| #[trigger]
            self.nodes@.contains_key(id) ==> self.nodes@[id].id@ == id
    }

    /// An empty graph.
    pub fn new() -> (g: Self)
        ensures
            g@ == Seq::<NodeView>::empty(),
    {
        let g = Graph { nodes: HashMap::new(), next_id: 0 };
        assert(g@ =~= Seq::<NodeView>::empty());
        g
    }

    /// Adds a node under the next unused identifier and returns that
    /// identifier. Nothing is validated here.
    pub fn add_node(&mut self, op: OpKind, inputs: Vec<NodeID>, outputs: Vec<NodeID>) -> (id:
        NodeID)
        requires
            old(self)@.len() < u32::MAX,
        ensures
            id@ == old(self)@.len(),
            final(self)@ == old(self)@.push(
                NodeView {
                    id: id@,
                    op: op@,
                    inputs: id_numbers(inputs@),
                    outputs: id_numbers(outputs@),
                },
            ),
    {
        proof {
            use_type_invariant(&*self);
        }
        let new_node_id: NodeID = NodeID::new(self.next_id);
        let new_node: Node = Node { id: new_node_id, op, inputs, outputs };
        let ghost added = new_node@;
        // The graph is taken apart and put together again, so that it is
        // whole wherever the insertion could unwind.
        let mut taken = Graph::new();
        std::mem::swap(self, &mut taken);
        let Graph { nodes, next_id } = taken;
        let mut nodes = nodes;
        nodes.insert(next_id, new_node);
        *self = Graph { nodes, next_id: next_id + 1 };
        assert(self@ =~= old(self)@.push(added));
        new_node_id
    }

    /// The node stored under `node_id`, if there is one.
    pub fn get_node(&self, node_id: NodeID) -> (r: Option<&Node>)
        ensures
            r is Some <==> node_id@ < self@.len(),
            r matches Some(node) ==> node@ == self@[node_id@ as int] && node.id == node_id,
    {
        proof {
            use_type_invariant(self);
        }
        let key: u32 = node_id.id();
        let found = self.nodes.get(&key);
        proof {
            NodeID::lemma_view_injective(node_id, self.nodes@[key].id);
        }
        found
    }

    /// Number of nodes added so far, which is also the next identifier.
    /// Every node carries the number of its position.
    pub fn node_count(&self) -> (n: u32)
        ensures
            n == self@.len(),
            forall|i: int| 0 <= i < self@.len() ==> (#[trigger] self@[i]).id == i,
    {
        proof {
            use_type_invariant(self);
            assert forall|i: int| 0 <= i < self@.len() implies (#[trigger] self@[i]).id == i by {
                assert(self.nodes@.contains_key(i as u32));
            }
        }
        self.next_id
    }
}

impl Default for Graph {
    fn default() -> (g: Self)
        ensures
            g@ == Seq::<NodeView>::empty(),
    {
        Graph::new()
    }
}

/// The graph that results when nodes with the given operations, inputs
/// and outputs are added to an empty graph, in order.
pub open spec fn built_from(added: Seq<(OpKindView, Seq<u32>, Seq<u32>)>) -> Seq<NodeView>
    decreases added.len(),
{
    if added.len() == 0 {
        Seq::empty()
    } else {
        let g = built_from(added.drop_last());
        g.push(
            NodeView {
                id: g.len() as u32,
                op: added.last().0,
                inputs: added.last().1,
                outputs: added.last().2,
            },
        )
    }
}

/// In a graph built by additions alone, the identifiers are the numbers
/// from 0 in the order of the additions, and under each identifier
/// stands the node that was added with it.
pub proof fn lemma_built_round_trip(added: Seq<(OpKindView, Seq<u32>, Seq<u32>)>, i: int)
    requires
        added.len() <= u32::MAX,
        0 <= i < added.len(),
    ensures
        built_from(added).len() == added.len(),
        built_from(added)[i] == (NodeView {
            id: i as u32,
            op: added[i].0,
            inputs: added[i].1,
            outputs: added[i].2,
        }),
    decreases added.len(),
{
    lemma_built_len(added);
    lemma_built_len(added.drop_last());
    if i < added.len() - 1 {
        lemma_built_round_trip(added.drop_last(), i);
    }
}

/// A graph built by additions has one node for each addition.
pub proof fn lemma_built_len(added: Seq<(OpKindView, Seq<u32>, Seq<u32>)>)
    ensures
        built_from(added).len() == added.len(),
    decreases added.len(),
{
    if added.len() > 0 {
        lemma_built_len(added.drop_last());
    }
}

} // verus!
