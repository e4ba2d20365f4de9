//! Connection genes: the weighted, directed edges of a genome's network
//! graph, each carrying the innovation number of the mutation that created
//! it.

use vstd::prelude::*;

verus! {

/// A directed connection between two node genes. The weight is a
/// fixed-point value in thousandths; `expressed` tells whether the
/// connection is active. The innovation number is issued at creation and
/// never recomputed.
#[derive(Debug, Clone, Copy, PartialEq, Eq, Structural)]
pub struct ConnectionGene {
    pub in_node: i32,
    pub out_node: i32,
    pub weight: i64,
    pub expressed: bool,
    pub innovation: i32,
}

impl ConnectionGene {
    pub fn new(in_node: i32, out_node: i32, weight: i64, expressed: bool, innovation: i32) -> (c:
        ConnectionGene)
        ensures
            c == (ConnectionGene { in_node, out_node, weight, expressed, innovation }),
    {
        Self { in_node, out_node, weight, expressed, innovation }
    }

    pub fn get_in_node(&self) -> (id: i32)
        ensures
            id == self.in_node,
    {
        self.in_node
    }

    pub fn get_out_node(&self) -> (id: i32)
        ensures
            id == self.out_node,
    {
        self.out_node
    }

    pub fn get_weight(&self) -> (w: i64)
        ensures
            w == self.weight,
    {
        self.weight
    }

    pub fn is_expressed(&self) -> (e: bool)
        ensures
            e == self.expressed,
    {
        self.expressed
    }

    /// A detached copy of this gene.
    pub fn get_released(&self) -> (c: ConnectionGene)
        ensures
            c == *self,
    {
        ConnectionGene::new(self.in_node, self.out_node, self.weight, self.expressed, self.innovation)
    }

    /// Marks the connection inactive; every other field is kept.
    pub fn disable(&mut self)
        ensures
            *final(self) == (ConnectionGene { expressed: false, ..*old(self) }),
    {
        self.expressed = false;
    }

    pub fn get_innovation(&self) -> (innovation: i32)
        ensures
            innovation == self.innovation,
    {
        self.innovation
    }

    pub fn set_weight(&mut self, weight: i64)
        ensures
            *final(self) == (ConnectionGene { weight, ..*old(self) }),
    {
        self.weight = weight;
    }
}

/// The gene `c` with its `expressed` flag cleared; the shape every
/// disable-roll outcome of crossover takes.
pub open spec fn disabled_copy(c: ConnectionGene) -> ConnectionGene {
    ConnectionGene { expressed: false, ..c }
}

} // verus!
