//! Graph nodes: one neighbour list per layer.
use vstd::prelude::*;

use crate::link::Link;

verus! {

/// A node of the layered graph; `layers[l]` holds its neighbours on layer `l`.
pub struct Node {
    pub layers: Vec<Vec<Link>>,
}

impl View for Node {
    type V = Seq<Seq<Link>>;

    open spec fn view(&self) -> Seq<Seq<Link>> {
        self.layers@.map_values(|v: Vec<Link>| v@)
    }
}

/// The neighbour lists of every node, by node and then by layer.
pub open spec fn nodes_view(nodes: Seq<Node>) -> Seq<Seq<Seq<Link>>> {
    nodes.map_values(|n: Node| n@)
}

} // verus!
