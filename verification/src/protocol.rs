//! The RPC messages and the XOR metric.

use crate::kad_id::{
    be_value, lemma_be_value_first_difference, lemma_be_value_injective, lemma_id_ext, NodeId,
};
use vstd::prelude::*;

verus! {

/// A peer as contracts see it: its identifier and the characters of its
/// `host:port` address.
pub type PeerView = (NodeId, Seq<char>);

/// One RPC message.
#[derive(Debug, Clone)]
pub enum Message {
    /// The sender's id and the port it listens on.
    Ping(NodeId, u16),
    /// The responder's id and the port it listens on.
    Pong(NodeId, u16),
    /// A request for the peers closest to this id.
    FindNode(NodeId),
    /// The peers closest to the requested id.
    FoundNodes(Vec<(NodeId, String)>),
}

/// A message as contracts see it.
pub enum MessageView {
    Ping(NodeId, u16),
    Pong(NodeId, u16),
    FindNode(NodeId),
    FoundNodes(Seq<PeerView>),
}

impl View for Message {
    type V = MessageView;

    open spec fn view(&self) -> MessageView {
        match *self {
            Message::Ping(id, port) => MessageView::Ping(id, port),
            Message::Pong(id, port) => MessageView::Pong(id, port),
            Message::FindNode(id) => MessageView::FindNode(id),
            Message::FoundNodes(peers) => MessageView::FoundNodes(peers.deep_view()),
        }
    }
}

/// The bytes of `a XOR b`.
pub open spec fn xor_bytes(a: NodeId, b: NodeId) -> Seq<u8> {
    Seq::new(20, |i: int| a.0[i] ^ b.0[i])
}

/// The XOR distance between two identifiers, as a number.
pub open spec fn distance(a: NodeId, b: NodeId) -> nat {
    be_value(xor_bytes(a, b))
}

/// The bytewise XOR of two identifiers; read big-endian, it is their distance.
pub fn xor_distance(a: &NodeId, b: &NodeId) -> (out: NodeId)
    ensures
        out.0@ == xor_bytes(*a, *b),
        be_value(out.0@) == distance(*a, *b),
{
    let mut out = [0u8; 20];
    let mut i: usize = 0;
    while i < 20
        invariant
            i <= 20,
            forall|j: int| 0 <= j < i ==> out[j] == a.0[j] ^ b.0[j],
        decreases 20 - i,
    {
        out[i] = a.0[i] ^ b.0[i];
        i = i + 1;
    }
    assert(out@ =~= xor_bytes(*a, *b));
    NodeId(out)
}

/// Whether `x` is strictly smaller than `y` as a big-endian magnitude.
pub fn magnitude_less(x: &NodeId, y: &NodeId) -> (r: bool)
    ensures
        r == (be_value(x.0@) < be_value(y.0@)),
{
    let mut i: usize = 0;
    while i < 20
        invariant
            i <= 20,
            forall|j: int| 0 <= j < i ==> x.0[j] == y.0[j],
        decreases 20 - i,
    {
        if x.0[i] < y.0[i] {
            proof {
                lemma_be_value_first_difference(x.0@, y.0@, i as int);
            }
            return true;
        }
        if x.0[i] > y.0[i] {
            proof {
                lemma_be_value_first_difference(y.0@, x.0@, i as int);
            }
            return false;
        }
        i = i + 1;
    }
    assert(x.0@ =~= y.0@);
    false
}

/// Whether `a` is strictly closer to `target` than `b` is.
pub fn closer(a: &NodeId, b: &NodeId, target: &NodeId) -> (r: bool)
    ensures
        r == (distance(*a, *target) < distance(*b, *target)),
{
    let da = xor_distance(a, target);
    let db = xor_distance(b, target);
    magnitude_less(&da, &db)
}

/// Every byte of the distance from an identifier to itself is zero.
pub proof fn lemma_xor_self_bytes(x: NodeId)
    ensures
        xor_bytes(x, x) == Seq::new(20, |i: int| 0u8),
{
    assert forall|i: int| 0 <= i < 20 implies #[trigger] xor_bytes(x, x)[i] == 0u8 by {
        let b = x.0[i];
        assert(b ^ b == 0u8) by (bit_vector);
    }
    assert(xor_bytes(x, x) =~= Seq::new(20, |i: int| 0u8));
}

/// A string of zero bytes has magnitude zero.
pub proof fn lemma_be_value_zeros(s: Seq<u8>)
    requires
        forall|i: int| 0 <= i < s.len() ==> s[i] == 0u8,
    ensures
        be_value(s) == 0,
    decreases s.len(),
{
    if s.len() > 0 {
        lemma_be_value_zeros(s.drop_last());
    }
}

/// An identifier is at distance zero from itself, and no identifier is
/// closer to it than that.
pub proof fn lemma_distance_to_self_is_least(x: NodeId, y: NodeId)
    ensures
        distance(x, x) == 0,
        distance(x, x) <= distance(x, y),
{
    lemma_xor_self_bytes(x);
    lemma_be_value_zeros(xor_bytes(x, x));
}

/// Two identifiers at the same distance from a third are the same
/// identifier: ordering by distance leaves no ties between different ids.
pub proof fn lemma_same_distance_same_id(a: NodeId, b: NodeId, target: NodeId)
    requires
        distance(a, target) == distance(b, target),
    ensures
        a == b,
{
    lemma_be_value_injective(xor_bytes(a, target), xor_bytes(b, target));
    assert forall|i: int| 0 <= i < 20 implies a.0@[i] == b.0@[i] by {
        let p = a.0[i];
        let q = b.0[i];
        let t = target.0[i];
        assert(xor_bytes(a, target)[i] == xor_bytes(b, target)[i]);
        assert(p == q) by (bit_vector)
            requires
                p ^ t == q ^ t,
        ;
    }
    assert(a.0@ =~= b.0@);
    lemma_id_ext(a, b);
}

} // verus!
