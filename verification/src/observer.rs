//! An observer: a node that joins the network only to look at what its
//! routing table learns.

use crate::kad_id::NodeId;
use crate::node::{KademliaNode, DEFAULT_K};
use crate::routing::TableModel;
use vstd::prelude::*;

verus! {

/// A node that watches the network.
pub struct Observer {
    /// The node that the observer runs.
    pub node: KademliaNode,
}

impl Observer {
    /// An observer with the identity `id` on `port`, with an empty routing
    /// table stamped `now`. Port 0 stands for a node that serves nobody.
    pub fn new(id: NodeId, port: u16, now: u64) -> (observer: Observer)
        ensures
            observer.node.id == id,
            observer.node.port == port,
            observer.node.routing@ == TableModel::empty(id, DEFAULT_K as nat, now),
            observer.node.wf(),
    {
        Observer { node: KademliaNode::new(id, port, now) }
    }

    /// The indices of the buckets that hold a peer, in increasing order:
    /// the buckets that a dump of the routing table shows.
    pub fn occupied_buckets(&self) -> (found: Vec<usize>)
        ensures
            found@ == self.node.routing@.occupied(),
    {
        self.node.routing.occupied_buckets()
    }
}

} // verus!
