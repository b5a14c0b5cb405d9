//! The iterative lookup: rounds of `FindNode` queries that pull peers close
//! to a target into the routing table.
//!
//! A [`Lookup`] holds the state between exchanges. The caller asks it for
//! the next peer to query, performs the exchange, hands in the outcome, and
//! closes each round once no peer is left to query, until the rounds are
//! used up:
//!
//! 1. `start_lookup` takes the closest known peers as the frontier.
//! 2. `next_query` hands out, in frontier order, each peer whose id was not
//!    queried before, and marks it queried.
//! 3. `record_reply` keeps the peers of a `FoundNodes` reply as the round's
//!    harvest.
//! 4. `finish_round` inserts the harvest into the routing table, extends the
//!    frontier by it, and starts the next round.

use crate::kad_id::NodeId;
use crate::network::WireError;
use crate::node::{found_peers, KademliaNode, LOOKUP_WIDTH};
use crate::protocol::{Message, PeerView};
use crate::routing::{copy_peers, lemma_insert_wf, other_id};
use vstd::prelude::*;

verus! {

/// The first position at or after `from` of a frontier peer whose id is not
/// among `queried`; the length of the frontier if there is none.
pub open spec fn next_unqueried(frontier: Seq<PeerView>, queried: Seq<NodeId>, from: int) -> int
    decreases frontier.len() - from,
{
    if from >= frontier.len() {
        frontier.len() as int
    } else if !queried.contains(frontier[from].0) {
        from
    } else {
        next_unqueried(frontier, queried, from + 1)
    }
}

/// The state of a lookup as plain values.
pub struct LookupModel {
    /// The id that the lookup closes in on.
    pub target: NodeId,
    /// The rounds that are left, the current one included.
    pub rounds_left: nat,
    /// The peers to query, in the order they were learned.
    pub frontier: Seq<PeerView>,
    /// Where in the frontier the current round stands.
    pub next: nat,
    /// The ids queried so far, in order.
    pub queried: Seq<NodeId>,
    /// The peers that the replies of the current round brought.
    pub harvest: Seq<PeerView>,
}

impl LookupModel {
    /// A lookup that has `rounds` rounds before it and starts from
    /// `frontier`.
    pub open spec fn start(target: NodeId, rounds: nat, frontier: Seq<PeerView>) -> LookupModel {
        LookupModel {
            target,
            rounds_left: rounds,
            frontier,
            next: 0,
            queried: Seq::empty(),
            harvest: Seq::empty(),
        }
    }

    /// The peer to query next, if the round has one left, and the state
    /// after it was handed out.
    pub open spec fn next_query(self) -> (LookupModel, Option<PeerView>) {
        let j = next_unqueried(self.frontier, self.queried, self.next as int);
        if self.rounds_left == 0 {
            (self, None)
        } else if j < self.frontier.len() {
            (
                LookupModel {
                    next: (j + 1) as nat,
                    queried: self.queried.push(self.frontier[j].0),
                    ..self
                },
                Some(self.frontier[j]),
            )
        } else {
            (LookupModel { next: self.frontier.len(), ..self }, None)
        }
    }

    /// The state after the outcome of a query was handed in.
    pub open spec fn record_reply(self, found: Option<Seq<PeerView>>) -> LookupModel {
        match found {
            Some(peers) => LookupModel { harvest: self.harvest + peers, ..self },
            None => self,
        }
    }

    /// The peers of the harvest that the round's end takes in: all but the
    /// node itself.
    pub open spec fn gain(self, owner: NodeId) -> Seq<PeerView> {
        self.harvest.filter(other_id(owner))
    }

    /// The state after the round was closed.
    pub open spec fn finish_round(self, owner: NodeId) -> LookupModel {
        LookupModel {
            rounds_left: if self.rounds_left > 0 {
                (self.rounds_left - 1) as nat
            } else {
                0
            },
            frontier: self.frontier + self.gain(owner),
            next: 0,
            harvest: Seq::empty(),
            ..self
        }
    }
}

/// `next_unqueried` stays within `from..=len`, names an unqueried peer when
/// it is below the length, and passes over queried peers only.
pub proof fn lemma_next_unqueried(frontier: Seq<PeerView>, queried: Seq<NodeId>, from: int)
    requires
        0 <= from,
    ensures
        next_unqueried(frontier, queried, from) <= frontier.len(),
        from <= frontier.len() ==> from <= next_unqueried(frontier, queried, from),
        next_unqueried(frontier, queried, from) < frontier.len() ==> !queried.contains(
            frontier[next_unqueried(frontier, queried, from)].0,
        ),
        forall|j: int|
            from <= j < next_unqueried(frontier, queried, from) ==> queried.contains(
                (#[trigger] frontier[j]).0,
            ),
    decreases frontier.len() - from,
{
    if from < frontier.len() && queried.contains(frontier[from].0) {
        lemma_next_unqueried(frontier, queried, from + 1);
    }
}

/// No id is queried twice: a peer that `next_query` hands out was not
/// queried before, and a list of queried ids without repeats stays without
/// repeats.
pub proof fn lemma_never_queried_twice(l: LookupModel)
    ensures
        l.next_query().1 matches Some(p) ==> !l.queried.contains(p.0) && l.next_query().0.queried
            == l.queried.push(p.0),
        l.next_query().1 is None ==> l.next_query().0.queried == l.queried,
        l.queried.no_duplicates() ==> l.next_query().0.queried.no_duplicates(),
{
    lemma_next_unqueried(l.frontier, l.queried, l.next as int);
    let j = next_unqueried(l.frontier, l.queried, l.next as int);
    if l.rounds_left > 0 && j < l.frontier.len() {
        let id = l.frontier[j].0;
        let after = l.queried.push(id);
        if l.queried.no_duplicates() {
            assert forall|x: int, y: int| 0 <= x < after.len() && 0 <= y < after.len() && x
                != y implies after[x] != after[y] by {
                if x < l.queried.len() && y < l.queried.len() {
                } else if x < l.queried.len() {
                    assert(l.queried.contains(after[x]));
                } else {
                    assert(l.queried.contains(after[y]));
                }
            }
        }
    }
}

/// The state of one lookup.
pub struct Lookup {
    target: NodeId,
    rounds_left: usize,
    frontier: Vec<(NodeId, String)>,
    next: usize,
    queried: Vec<NodeId>,
    harvest: Vec<(NodeId, String)>,
}

impl View for Lookup {
    type V = LookupModel;

    closed spec fn view(&self) -> LookupModel {
        LookupModel {
            target: self.target,
            rounds_left: self.rounds_left as nat,
            frontier: self.frontier.deep_view(),
            next: self.next as nat,
            queried: self.queried@,
            harvest: self.harvest.deep_view(),
        }
    }
}

/// Whether the id is among those queried.
fn was_queried(queried: &Vec<NodeId>, id: &NodeId) -> (r: bool)
    ensures
        r == queried@.contains(*id),
{
    let mut i: usize = 0;
    while i < queried.len()
        invariant
            i <= queried.len(),
            forall|j: int| 0 <= j < i ==> queried@[j] != *id,
        decreases queried.len() - i,
    {
        if queried[i] == *id {
            return true;
        }
        i = i + 1;
    }
    false
}

impl Lookup {
    /// The id that the lookup closes in on.
    pub fn target(&self) -> (target: NodeId)
        ensures
            target == self@.target,
    {
        self.target
    }

    /// Whether the rounds are used up.
    pub fn finished(&self) -> (done: bool)
        ensures
            done == (self@.rounds_left == 0),
    {
        self.rounds_left == 0
    }

    /// How many ids were queried so far.
    pub fn queried_count(&self) -> (n: usize)
        ensures
            n == self@.queried.len(),
    {
        self.queried.len()
    }

    /// The next peer to query in this round: the first peer of the frontier,
    /// from where the round stands, whose id was not queried before. The id
    /// counts as queried from now on, whatever the exchange brings. `None`
    /// once the round has no peer left, or the rounds are used up.
    pub fn next_query(&mut self) -> (peer: Option<(NodeId, String)>)
        ensures
            final(self)@ == old(self)@.next_query().0,
            match peer {
                Some(p) => old(self)@.next_query().1 == Some(p.deep_view()),
                None => old(self)@.next_query().1 is None,
            },
    {
        if self.rounds_left == 0 {
            return None;
        }
        let ghost frontier = self@.frontier;
        let ghost queried = self@.queried;
        let ghost from = self@.next as int;
        let mut j: usize = self.next;
        while j < self.frontier.len()
            invariant
                self.frontier.deep_view() == frontier,
                self.queried@ == queried,
                *self == *old(self),
                self.rounds_left != 0,
                from == old(self)@.next,
                from <= j,
                next_unqueried(frontier, queried, from) == next_unqueried(
                    frontier,
                    queried,
                    j as int,
                ),
            decreases self.frontier.len() - j,
        {
            if !was_queried(&self.queried, &self.frontier[j].0) {
                let id = self.frontier[j].0;
                let addr = self.frontier[j].1.clone();
                self.queried.push(id);
                self.next = j + 1;
                assert(frontier[j as int] == (id, addr@));
                return Some((id, addr));
            }
            j = j + 1;
        }
        self.next = self.frontier.len();
        None
    }

    /// Takes in the outcome of the exchange with the peer that `next_query`
    /// handed out: the peers of a `FoundNodes` join the round's harvest; any
    /// other outcome brings nothing.
    pub fn record_reply(&mut self, reply: &Result<Message, WireError>)
        ensures
            final(self)@ == old(self)@.record_reply(found_peers(*reply)),
    {
        match reply {
            Ok(Message::FoundNodes(peers)) => {
                copy_peers(peers, 0, peers.len(), &mut self.harvest);
                assert(peers.deep_view().subrange(0, peers.len() as int) =~= peers.deep_view());
            },
            _ => {},
        }
    }
}

impl KademliaNode {
    /// Starts a lookup of `max_rounds` rounds for `target`, from the five
    /// peers of the routing table that are closest to it.
    pub fn start_lookup(&self, target: NodeId, max_rounds: usize) -> (lookup: Lookup)
        ensures
            lookup@ == LookupModel::start(
                target,
                max_rounds as nat,
                self.routing@.closest(target, LOOKUP_WIDTH as nat),
            ),
    {
        let frontier = self.routing.find_closest(&target, LOOKUP_WIDTH);
        let lookup = Lookup {
            target,
            rounds_left: max_rounds,
            frontier,
            next: 0,
            queried: Vec::new(),
            harvest: Vec::new(),
        };
        assert(lookup@.queried =~= Seq::<NodeId>::empty());
        assert(lookup@.harvest =~= Seq::<PeerView>::empty());
        lookup
    }

    /// Closes a round at time `now`: every peer of the harvest but the node
    /// itself is inserted into the routing table and joins the frontier, in
    /// harvest order; the next round starts at the front of the frontier
    /// with an empty harvest.
    pub fn finish_round(&mut self, lookup: &mut Lookup, now: u64)
        requires
            old(self).wf(),
        ensures
            final(self).wf(),
            final(self).id == old(self).id,
            final(self).port == old(self).port,
            final(self).routing@ == old(self).routing@.insert_all(
                old(lookup)@.gain(old(self).id),
                now,
            ),
            final(lookup)@ == old(lookup)@.finish_round(old(self).id),
    {
        let ghost start = self.routing@;
        let ghost before = lookup@;
        let ghost all = lookup@.harvest;
        let ghost keep = other_id(self.id);
        let mut i: usize = 0;
        proof {
            reveal(Seq::filter);
            assert(all.take(0).filter(keep) =~= Seq::<PeerView>::empty());
            assert(lookup@.frontier =~= before.frontier + all.take(0).filter(keep));
        }
        while i < lookup.harvest.len()
            invariant
                i <= lookup.harvest.len(),
                all == lookup@.harvest,
                keep == other_id(self.id),
                self.wf(),
                self.id == old(self).id,
                self.port == old(self).port,
                start.wf(),
                self.routing@ == start.insert_all(all.take(i as int).filter(keep), now),
                lookup@.frontier == before.frontier + all.take(i as int).filter(keep),
                lookup@.target == before.target,
                lookup@.rounds_left == before.rounds_left,
                lookup@.queried == before.queried,
            decreases lookup.harvest.len() - i,
        {
            let ghost sofar = all.take(i as int).filter(keep);
            let ghost frontier = lookup@.frontier;
            proof {
                assert(all.take(i as int + 1) =~= all.take(i as int).push(all[i as int]));
                all.take(i as int).lemma_filter_push(all[i as int], keep);
            }
            if lookup.harvest[i].0 != self.id {
                let id = lookup.harvest[i].0;
                proof {
                    lemma_insert_wf(self.routing@, id, all[i as int].1, now);
                    assert(sofar.push(all[i as int]).drop_last() =~= sofar);
                }
                self.routing.insert(id, lookup.harvest[i].1.clone(), now);
                let addr = lookup.harvest[i].1.clone();
                lookup.frontier.push((id, addr));
                assert(lookup@.frontier =~= frontier.push(all[i as int]));
                assert(frontier.push(all[i as int]) =~= before.frontier + sofar.push(all[i as int]));
            }
            i = i + 1;
        }
        assert(all.take(i as int) =~= all);
        lookup.harvest = Vec::new();
        lookup.next = 0;
        if lookup.rounds_left > 0 {
            lookup.rounds_left = lookup.rounds_left - 1;
        }
        assert(lookup@.harvest =~= Seq::<PeerView>::empty());
    }
}

} // verus!
