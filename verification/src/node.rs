//! The node: its identity, its port and its routing table, and what it
//! decides when a message arrives, when a peer stays silent and when a
//! bucket grows old.
//!
//! The node opens no socket and reads no clock. The caller performs each
//! exchange and hands in the outcome and the time.

use crate::kad_id::{anchored_in_bucket, decimal, generate_random_id_in_bucket, push_decimal, NodeId};
use crate::network::WireError;
use crate::protocol::{Message, MessageView, PeerView};
use crate::routing::{
    bucket_of, lemma_insert_wf, lemma_substitute_wf, other_id, untagged, RoutingTable, TableModel,
};
use vstd::prelude::*;
use vstd::string::{StrSliceExecFns, StringExecFns};

verus! {

/// The capacity of each bucket of a node's routing table.
pub const DEFAULT_K: usize = 8;

/// How many peers a `FindNode` is answered with, and how many a lookup
/// starts from.
pub const LOOKUP_WIDTH: usize = 5;

/// How many rounds a lookup runs.
pub const LOOKUP_ROUNDS: usize = 3;

/// The seconds between two liveness sweeps.
pub const LIVENESS_PERIOD_SECS: u64 = 30;

/// The seconds between two scans for stale buckets.
pub const BUCKET_SCAN_PERIOD_SECS: u64 = 60;

/// The seconds after which an untouched bucket is refreshed.
pub const BUCKET_FRESHNESS_SECS: u64 = 1800;

/// The seconds after which a connect or a read is given up.
pub const IO_TIMEOUT_SECS: u64 = 5;

/// The position of the last `:` in `s`; -1 if there is none.
pub open spec fn last_colon(s: Seq<char>) -> int
    decreases s.len(),
{
    if s.len() == 0 {
        -1
    } else if s.last() == ':' {
        s.len() - 1
    } else {
        last_colon(s.drop_last())
    }
}

/// The address under which a peer is recorded: the host of the endpoint it
/// was observed at, with the port it advertises in place of the observed
/// one. `None` if the observed endpoint has no `:`.
pub open spec fn rewritten(observed: Seq<char>, port: u16) -> Option<Seq<char>> {
    let at = last_colon(observed);
    if at < 0 {
        None
    } else {
        Some(observed.take(at) + seq![':'] + decimal(port as nat))
    }
}

/// The characters of an optional string.
pub open spec fn text_view(s: Option<String>) -> Option<Seq<char>> {
    match s {
        Some(t) => Some(t@),
        None => None,
    }
}

/// An optional message as contracts see it.
pub open spec fn reply_view(r: Option<Message>) -> Option<MessageView> {
    match r {
        Some(m) => Some(m@),
        None => None,
    }
}

/// The address under which a peer observed at `observed` and advertising
/// `port` is recorded.
pub fn rewrite_address(observed: &str, port: u16) -> (r: Option<String>)
    ensures
        text_view(r) == rewritten(observed@, port),
{
    let n = observed.unicode_len();
    let mut i: usize = n;
    assert(observed@.take(n as int) =~= observed@);
    while i > 0
        invariant
            i <= n,
            n == observed@.len(),
            last_colon(observed@) == last_colon(observed@.take(i as int)),
        decreases i,
    {
        let ghost head = observed@.take(i as int);
        if observed.get_char(i - 1) == ':' {
            let mut out = String::from_str(observed.substring_char(0, i - 1));
            proof {
                reveal_strlit(":");
                assert(observed@.subrange(0, i - 1) =~= observed@.take(i - 1));
            }
            out.append(":");
            push_decimal(&mut out, port);
            assert(out@ =~= observed@.take(i - 1) + seq![':'] + decimal(port as nat));
            return Some(out);
        }
        assert(head.drop_last() =~= observed@.take(i - 1));
        i = i - 1;
    }
    None
}

/// What a node does with an inbound message: the table afterwards and the
/// reply, if one is owed.
///
/// `Ping` and `Pong` record the sender under its rewritten address; `Ping`
/// is answered with `Pong`. A sender whose observed endpoint has no `:` is
/// neither recorded nor answered. `FindNode` is answered with the closest
/// peers and records nothing. `FoundNodes` is ignored here.
pub open spec fn handled(
    table: TableModel,
    port: u16,
    msg: MessageView,
    observed: Seq<char>,
    now: u64,
) -> (TableModel, Option<MessageView>) {
    match msg {
        MessageView::Ping(peer, advertised) => match rewritten(observed, advertised) {
            Some(addr) => (
                table.insert(peer, addr, now),
                Some(MessageView::Pong(table.owner, port)),
            ),
            None => (table, None),
        },
        MessageView::Pong(peer, advertised) => match rewritten(observed, advertised) {
            Some(addr) => (table.insert(peer, addr, now), None),
            None => (table, None),
        },
        MessageView::FindNode(target) => (
            table,
            Some(MessageView::FoundNodes(table.closest(target, LOOKUP_WIDTH as nat))),
        ),
        MessageView::FoundNodes(_) => (table, None),
    }
}

/// Whether the outcome of a ping shows the peer alive: only a `Pong` does.
pub open spec fn shows_alive(reply: Result<Message, WireError>) -> bool {
    reply matches Ok(Message::Pong(_, _))
}

/// The peers that an outcome brought, if it is a `FoundNodes`.
pub open spec fn found_peers(reply: Result<Message, WireError>) -> Option<Seq<PeerView>> {
    match reply {
        Ok(Message::FoundNodes(peers)) => Some(peers.deep_view()),
        _ => None,
    }
}

/// The test that an entry of a snapshot passes when it is not the node
/// itself.
pub open spec fn not_node(id: NodeId) -> spec_fn((usize, NodeId, Seq<char>)) -> bool {
    |t: (usize, NodeId, Seq<char>)| t.1 != id
}

/// One Kademlia node.
pub struct KademliaNode {
    /// The node's own id.
    pub id: NodeId,
    /// The node's routing table.
    pub routing: RoutingTable,
    /// The port the node listens on.
    pub port: u16,
}

impl KademliaNode {
    /// The node's table is well formed and owned by the node's id.
    pub open spec fn wf(&self) -> bool {
        &&& self.routing@.wf()
        &&& self.routing@.owner == self.id
    }

    /// A node with the identity `id` that listens on `port`, with an empty
    /// routing table of bucket capacity 8 stamped `now`.
    pub fn new(id: NodeId, port: u16, now: u64) -> (node: KademliaNode)
        ensures
            node.id == id,
            node.port == port,
            node.routing@ == TableModel::empty(id, DEFAULT_K as nat, now),
            node.wf(),
    {
        KademliaNode { id, routing: RoutingTable::new(id, DEFAULT_K, now), port }
    }

    /// Whether the node is well formed. Every node that `new` made and the
    /// operations of the node changed is.
    pub fn is_wf(&self) -> (ok: bool)
        ensures
            ok == self.wf(),
    {
        self.routing.is_wf() && self.routing.my_id() == self.id
    }

    /// The `Ping` that this node sends: its id and its port.
    pub fn ping(&self) -> (msg: Message)
        ensures
            msg@ == MessageView::Ping(self.id, self.port),
    {
        Message::Ping(self.id, self.port)
    }

    /// The `FindNode` that asks for the peers closest to `target`.
    pub fn find_node(target: &NodeId) -> (msg: Message)
        ensures
            msg@ == MessageView::FindNode(*target),
    {
        Message::FindNode(*target)
    }

    /// Reacts to a message that arrived from the endpoint `observed` at
    /// time `now`; returns the reply to send, if one is owed.
    pub fn handle_message(&mut self, msg: Message, observed: &str, now: u64) -> (reply: Option<
        Message,
    >)
        requires
            old(self).wf(),
        ensures
            final(self).wf(),
            final(self).id == old(self).id,
            final(self).port == old(self).port,
            final(self).routing@ == handled(
                old(self).routing@,
                old(self).port,
                msg@,
                observed@,
                now,
            ).0,
            reply_view(reply) == handled(old(self).routing@, old(self).port, msg@, observed@, now).1,
    {
        match msg {
            Message::Ping(peer, advertised) => {
                match rewrite_address(observed, advertised) {
                    Some(addr) => {
                        proof {
                            lemma_insert_wf(self.routing@, peer, addr@, now);
                        }
                        self.routing.insert(peer, addr, now);
                        Some(Message::Pong(self.id, self.port))
                    },
                    None => None,
                }
            },
            Message::Pong(peer, advertised) => {
                match rewrite_address(observed, advertised) {
                    Some(addr) => {
                        proof {
                            lemma_insert_wf(self.routing@, peer, addr@, now);
                        }
                        self.routing.insert(peer, addr, now);
                        None
                    },
                    None => None,
                }
            },
            Message::FindNode(target) => {
                let closest = self.routing.find_closest(&target, LOOKUP_WIDTH);
                Some(Message::FoundNodes(closest))
            },
            Message::FoundNodes(_) => None,
        }
    }

    /// The peers that a liveness sweep pings: every peer of the routing
    /// table but the node itself, bucket by bucket.
    pub fn liveness_targets(&self) -> (targets: Vec<(NodeId, String)>)
        ensures
            targets.deep_view() == untagged(self.routing@.all_nodes().filter(not_node(self.id))),
    {
        let nodes = self.routing.all_nodes();
        let ghost all = nodes.deep_view();
        let ghost keep = not_node(self.id);
        let mut targets: Vec<(NodeId, String)> = Vec::new();
        let mut i: usize = 0;
        proof {
            reveal(Seq::filter);
            assert(all.take(0).filter(keep) =~= Seq::<(usize, NodeId, Seq<char>)>::empty());
            assert(targets.deep_view() =~= untagged(all.take(0).filter(keep)));
        }
        while i < nodes.len()
            invariant
                i <= nodes.len(),
                all == nodes.deep_view(),
                keep == not_node(self.id),
                targets.deep_view() == untagged(all.take(i as int).filter(keep)),
            decreases nodes.len() - i,
        {
            let ghost sofar = all.take(i as int).filter(keep);
            let ghost prev = targets.deep_view();
            proof {
                assert(all.take(i as int + 1) =~= all.take(i as int).push(all[i as int]));
                all.take(i as int).lemma_filter_push(all[i as int], keep);
            }
            if nodes[i].1 != self.id {
                targets.push((nodes[i].1, nodes[i].2.clone()));
                assert(targets.deep_view() =~= prev.push((all[i as int].1, all[i as int].2)));
                assert(untagged(sofar.push(all[i as int])) =~= untagged(sofar).push(
                    (all[i as int].1, all[i as int].2),
                ));
            }
            i = i + 1;
        }
        assert(all.take(i as int) =~= all);
        targets
    }

    /// Acts on the outcome of the ping sent to the peer `id` during a
    /// liveness sweep: a `Pong` leaves the table as it is; any other
    /// outcome has the peer replaced from its bucket's cache, or removed.
    /// Returns whether the peer is alive.
    pub fn record_liveness(&mut self, id: NodeId, reply: &Result<Message, WireError>) -> (alive:
        bool)
        requires
            old(self).wf(),
        ensures
            final(self).wf(),
            final(self).id == old(self).id,
            final(self).port == old(self).port,
            alive == shows_alive(*reply),
            final(self).routing@ == if alive {
                old(self).routing@
            } else {
                old(self).routing@.substitute_or_remove(id)
            },
    {
        let alive = match reply {
            Ok(Message::Pong(_, _)) => true,
            _ => false,
        };
        if !alive {
            proof {
                lemma_substitute_wf(self.routing@, id);
            }
            self.routing.substitute_or_remove_node(id);
        }
        alive
    }

    /// Takes in the reply to the `FindNode` for the node's own id that
    /// bootstrap sends to the seed: the peers of a `FoundNodes`, but for the
    /// node itself, are inserted at time `now`. Returns whether the reply
    /// was a `FoundNodes`, in which case the lookup for the node's own id is
    /// to follow.
    pub fn absorb_bootstrap_reply(&mut self, reply: &Result<Message, WireError>, now: u64) -> (found:
        bool)
        requires
            old(self).wf(),
        ensures
            final(self).wf(),
            final(self).id == old(self).id,
            final(self).port == old(self).port,
            found == (found_peers(*reply) is Some),
            final(self).routing@ == match found_peers(*reply) {
                Some(peers) => old(self).routing@.insert_all(
                    peers.filter(other_id(old(self).id)),
                    now,
                ),
                None => old(self).routing@,
            },
    {
        match reply {
            Ok(Message::FoundNodes(peers)) => {
                self.insert_others(peers, now);
                true
            },
            _ => false,
        }
    }

    /// Inserts every peer of `peers` but the node itself, at time `now`.
    pub fn insert_others(&mut self, peers: &Vec<(NodeId, String)>, now: u64)
        requires
            old(self).wf(),
        ensures
            final(self).wf(),
            final(self).id == old(self).id,
            final(self).port == old(self).port,
            final(self).routing@ == old(self).routing@.insert_all(
                peers.deep_view().filter(other_id(old(self).id)),
                now,
            ),
    {
        let ghost start = self.routing@;
        let ghost all = peers.deep_view();
        let ghost keep = other_id(self.id);
        let mut i: usize = 0;
        proof {
            reveal(Seq::filter);
            assert(all.take(0).filter(keep) =~= Seq::<PeerView>::empty());
        }
        while i < peers.len()
            invariant
                i <= peers.len(),
                all == peers.deep_view(),
                keep == other_id(self.id),
                self.wf(),
                self.id == old(self).id,
                self.port == old(self).port,
                start.wf(),
                self.routing@ == start.insert_all(all.take(i as int).filter(keep), now),
            decreases peers.len() - i,
        {
            let ghost sofar = all.take(i as int).filter(keep);
            proof {
                assert(all.take(i as int + 1) =~= all.take(i as int).push(all[i as int]));
                all.take(i as int).lemma_filter_push(all[i as int], keep);
            }
            if peers[i].0 != self.id {
                proof {
                    lemma_insert_wf(self.routing@, peers[i as int].0, peers[i as int].1@, now);
                    assert(sofar.push(all[i as int]).drop_last() =~= sofar);
                }
                self.routing.insert(peers[i].0, peers[i].1.clone(), now);
            }
            i = i + 1;
        }
        assert(all.take(i as int) =~= all);
    }

    /// The target of the lookup that refreshes bucket `i` at time `now`: a
    /// random id that falls into the bucket, if the bucket holds a peer and
    /// has not been touched for more than half an hour; `None` otherwise.
    pub fn bucket_refresh_target(&self, i: usize, now: u64) -> (target: Option<NodeId>)
        requires
            self.wf(),
        ensures
            target is Some <==> self.routing@.stale(i as int, now, BUCKET_FRESHNESS_SECS),
            target matches Some(id) ==> bucket_of(self.id, id) == i && anchored_in_bucket(
                self.id,
                i as int,
                id,
            ),
    {
        if self.routing.is_stale(i, now, BUCKET_FRESHNESS_SECS) {
            Some(generate_random_id_in_bucket(&self.id, i))
        } else {
            None
        }
    }

    /// Every peer of the routing table with the index of its bucket.
    pub fn snapshot(&self) -> (nodes: Vec<(usize, NodeId, String)>)
        ensures
            nodes.deep_view() == self.routing@.all_nodes(),
    {
        self.routing.all_nodes()
    }
}

} // verus!
