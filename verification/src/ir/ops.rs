//! Nodes: one operation instance each.

use crate::ir::types::{id_numbers, NodeID, OpKind, OpKindView};
use vstd::prelude::*;

verus! {

/// Mathematical model of a node: its number, its operation, and the
/// numbers of the nodes it consumes from and hands to.
pub struct NodeView {
    pub id: u32,
    pub op: OpKindView,
    pub inputs: Seq<u32>,
    pub outputs: Seq<u32>,
}

/// One operation of the computation, with its declared producers
/// (`inputs`) and consumers (`outputs`).
pub struct Node {
    pub id: NodeID,
    pub op: OpKind,
    pub inputs: Vec<NodeID>,
    pub outputs: Vec<NodeID>,
}

impl View for Node {
    type V = NodeView;

    open spec fn view(&self) -> NodeView {
        NodeView {
            id: self.id@,
            op: self.op@,
            inputs: id_numbers(self.inputs@),
            outputs: id_numbers(self.outputs@),
        }
    }
}

impl Node {
    pub fn new(id: NodeID, op: OpKind, inputs: Vec<NodeID>, outputs: Vec<NodeID>) -> (r: Self)
        ensures
            r.id == id,
            r.op == op,
            r.inputs == inputs,
            r.outputs == outputs,
    {
        Node { id, op, inputs, outputs }
    }

    pub fn id(&self) -> (r: NodeID)
        ensures
            r == self.id,
    {
        self.id
    }

    pub fn op(&self) -> (r: &OpKind)
        ensures
            *r == self.op,
    {
        &self.op
    }

    pub fn inputs(&self) -> (r: &Vec<NodeID>)
        ensures
            *r == self.inputs,
    {
        &self.inputs
    }

    pub fn outputs(&self) -> (r: &Vec<NodeID>)
        ensures
            *r == self.outputs,
    {
        &self.outputs
    }
}

} // verus!
