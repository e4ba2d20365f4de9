//! Node genes: the vertices of a genome's network graph.

use vstd::prelude::*;

verus! {

/// Role of a node within the network.
#[derive(Debug, Clone, Copy, PartialEq, Eq, Structural)]
pub enum NodeGeneType {
    INPUT,
    HIDDEN,
    OUTPUT,
}

/// A node gene: an identifier issued by the node counter, a role, and a
/// layer hint consumed by external renderers. Immutable after creation but
/// for the layer hint. The fields are public so that contracts can speak of
/// them directly; the accessors mirror them.
#[derive(Debug, Clone, Copy, PartialEq, Eq, Structural)]
pub struct NodeGene {
    pub node_type: NodeGeneType,
    pub id: i32,
    pub layer: i32,
}

impl NodeGene {
    pub fn new(node_type: NodeGeneType, id: i32, layer: i32) -> (n: NodeGene)
        ensures
            n == (NodeGene { node_type, id, layer }),
    {
        Self { node_type, id, layer }
    }

    pub fn get_type(&self) -> (t: NodeGeneType)
        ensures
            t == self.node_type,
    {
        self.node_type
    }

    pub fn get_id(&self) -> (id: i32)
        ensures
            id == self.id,
    {
        self.id
    }

    pub fn get_layer(&self) -> (layer: i32)
        ensures
            layer == self.layer,
    {
        self.layer
    }

    pub fn set_layer(&mut self, layer: i32)
        ensures
            *final(self) == (NodeGene { layer, ..*old(self) }),
    {
        self.layer = layer;
    }
}

} // verus!
