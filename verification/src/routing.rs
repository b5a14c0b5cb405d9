//! The routing table: 160 k-buckets, each with a replacement cache and the
//! time at which it was last touched.
//!
//! Contracts speak of [`TableModel`], the table as plain sequences. Each
//! operation of [`RoutingTable`] is stated as the matching function of the
//! model, and the laws of the table are proved of the model.

use crate::kad_id::{bit_at, lemma_id_ext, NodeId};
use crate::protocol::{closer, distance, xor_bytes, xor_distance, PeerView};
use crate::routing_laws::{
    lemma_insert_distinct, lemma_remove_distinct, lemma_substitute_distinct, promotion_clashes,
};
use std::collections::VecDeque;
use vstd::prelude::*;

verus! {

/// The position of the first set bit of `s` at or after `from`; 160 if there
/// is none.
pub open spec fn first_set_bit(s: Seq<u8>, from: int) -> int
    decreases 160 - from,
{
    if from >= 160 {
        160
    } else if bit_at(s, from) {
        from
    } else {
        first_set_bit(s, from + 1)
    }
}

/// The bucket that `b` falls into as seen from `a`: the position of the most
/// significant set bit of `a XOR b`, counted from the top; 159 when no bit is
/// set, that is when `a == b`.
pub open spec fn bucket_of(a: NodeId, b: NodeId) -> int {
    let i = first_set_bit(xor_bytes(a, b), 0);
    if i < 160 {
        i
    } else {
        159
    }
}

/// `first_set_bit` stays within `from..=160`, and names a set bit when it is
/// below 160, with no set bit between `from` and it.
pub proof fn lemma_first_set_bit(s: Seq<u8>, from: int)
    requires
        0 <= from <= 160,
    ensures
        from <= first_set_bit(s, from) <= 160,
        first_set_bit(s, from) < 160 ==> bit_at(s, first_set_bit(s, from)),
        forall|j: int| from <= j < first_set_bit(s, from) ==> !bit_at(s, j),
    decreases 160 - from,
{
    if from < 160 && !bit_at(s, from) {
        lemma_first_set_bit(s, from + 1);
    }
}

/// The first set bit is the one set bit that has no set bit before it.
pub proof fn lemma_first_set_bit_unique(s: Seq<u8>, i: int)
    requires
        0 <= i < 160,
        bit_at(s, i),
        forall|j: int| 0 <= j < i ==> !bit_at(s, j),
    ensures
        first_set_bit(s, 0) == i,
{
    lemma_first_set_bit(s, 0);
}

/// A bucket index is always one of the 160 buckets.
pub proof fn lemma_bucket_of_range(a: NodeId, b: NodeId)
    ensures
        0 <= bucket_of(a, b) < 160,
{
    lemma_first_set_bit(xor_bytes(a, b), 0);
}

/// A byte none of whose bits is set is zero.
proof fn lemma_no_bit_no_byte(s: Seq<u8>, m: int)
    requires
        0 <= m < 20,
        forall|j: int| 8 * m <= j < 8 * m + 8 ==> !bit_at(s, j),
    ensures
        s[m] == 0,
{
    let b = s[m];
    assert(!bit_at(s, 8 * m));
    assert(!bit_at(s, 8 * m + 1));
    assert(!bit_at(s, 8 * m + 2));
    assert(!bit_at(s, 8 * m + 3));
    assert(!bit_at(s, 8 * m + 4));
    assert(!bit_at(s, 8 * m + 5));
    assert(!bit_at(s, 8 * m + 6));
    assert(!bit_at(s, 8 * m + 7));
    assert(b == 0) by (bit_vector)
        requires
            (b >> 7u8) & 1u8 != 1u8,
            (b >> 6u8) & 1u8 != 1u8,
            (b >> 5u8) & 1u8 != 1u8,
            (b >> 4u8) & 1u8 != 1u8,
            (b >> 3u8) & 1u8 != 1u8,
            (b >> 2u8) & 1u8 != 1u8,
            (b >> 1u8) & 1u8 != 1u8,
            (b >> 0u8) & 1u8 != 1u8,
    ;
}

/// An identifier falls into the last bucket of its own table.
pub proof fn lemma_bucket_of_self(a: NodeId)
    ensures
        bucket_of(a, a) == 159,
{
    let x = xor_bytes(a, a);
    lemma_first_set_bit(x, 0);
    let f = first_set_bit(x, 0);
    if f < 160 {
        let b = a.0[f / 8];
        let t: u8 = (7 - f % 8) as u8;
        assert(((b ^ b) >> t) & 1u8 != 1u8) by (bit_vector);
    }
}

/// Seen from `a`, another identifier `b` falls into the bucket numbered by
/// the first bit, counted from the top, in which the two differ.
pub proof fn lemma_bucket_of_first_difference(a: NodeId, b: NodeId)
    requires
        a != b,
    ensures
        0 <= bucket_of(a, b) < 160,
        bit_at(xor_bytes(a, b), bucket_of(a, b)),
        forall|j: int| 0 <= j < bucket_of(a, b) ==> !bit_at(xor_bytes(a, b), j),
{
    let x = xor_bytes(a, b);
    lemma_first_set_bit(x, 0);
    if first_set_bit(x, 0) >= 160 {
        assert forall|m: int| 0 <= m < 20 implies a.0@[m] == b.0@[m] by {
            lemma_no_bit_no_byte(x, m);
            let p = a.0[m];
            let q = b.0[m];
            assert(p == q) by (bit_vector)
                requires
                    p ^ q == 0u8,
            ;
        }
        assert(a.0@ =~= b.0@);
        lemma_id_ext(a, b);
    }
}

/// Whether a stored peer clashes with an incoming pair: the same id under
/// another address, or the same address under another id.
pub open spec fn conflicts(p: PeerView, id: NodeId, addr: Seq<char>) -> bool {
    (p.0 == id && p.1 != addr) || (p.0 != id && p.1 == addr)
}

/// The first position at or after `from` that holds the given id; the
/// length of `s` if none does.
pub open spec fn position_from(s: Seq<PeerView>, id: NodeId, from: int) -> int
    decreases s.len() - from,
{
    if from >= s.len() {
        s.len() as int
    } else if s[from].0 == id {
        from
    } else {
        position_from(s, id, from + 1)
    }
}

/// The first position that holds the given id; the length of `s` if none
/// does.
pub open spec fn position(s: Seq<PeerView>, id: NodeId) -> int {
    position_from(s, id, 0)
}

/// What `position_from` returns: a position with the id and none before it,
/// or the length.
pub proof fn lemma_position_from(s: Seq<PeerView>, id: NodeId, from: int)
    requires
        0 <= from <= s.len(),
    ensures
        from <= position_from(s, id, from) <= s.len(),
        position_from(s, id, from) < s.len() ==> s[position_from(s, id, from)].0 == id,
        forall|j: int| from <= j < position_from(s, id, from) ==> s[j].0 != id,
    decreases s.len() - from,
{
    if from < s.len() && s[from].0 != id {
        lemma_position_from(s, id, from + 1);
    }
}

/// The test that a stored peer passes when it does not clash with the
/// incoming pair.
pub open spec fn no_conflict(id: NodeId, addr: Seq<char>) -> spec_fn(PeerView) -> bool {
    |p: PeerView| !conflicts(p, id, addr)
}

/// The test that a stored peer passes when it has another id.
pub open spec fn other_id(id: NodeId) -> spec_fn(PeerView) -> bool {
    |p: PeerView| p.0 != id
}

/// A bucket with every peer that clashes with the incoming pair taken out.
pub open spec fn purge(bucket: Seq<PeerView>, id: NodeId, addr: Seq<char>) -> Seq<PeerView> {
    bucket.filter(no_conflict(id, addr))
}

/// A bucket with every peer of the given id taken out.
pub open spec fn without_id(bucket: Seq<PeerView>, id: NodeId) -> Seq<PeerView> {
    bucket.filter(other_id(id))
}

/// A replacement cache after `(id, addr)` was offered to it: an entry of
/// that id takes the new address where it stands; otherwise the pair goes to
/// the back, after the front entry left if the cache already held `k / 2`
/// entries.
pub open spec fn cache_put(cache: Seq<PeerView>, id: NodeId, addr: Seq<char>, k: nat) -> Seq<
    PeerView,
> {
    let j = position(cache, id);
    if j < cache.len() {
        cache.update(j, (id, addr))
    } else if cache.len() >= k / 2 && cache.len() > 0 {
        cache.drop_first().push((id, addr))
    } else {
        cache.push((id, addr))
    }
}

/// The largest number of entries a replacement cache ever holds: `k / 2`,
/// and one where that is zero.
pub open spec fn cache_bound(k: nat) -> nat {
    if k / 2 >= 1 {
        k / 2
    } else {
        1
    }
}

/// Where `p` goes in a sequence ordered by distance to `target`: before the
/// first peer at or after `from` that is strictly farther than `p`, so behind
/// every peer that is as close.
pub open spec fn insertion_point(s: Seq<PeerView>, p: PeerView, target: NodeId, from: int) -> int
    decreases s.len() - from,
{
    if from >= s.len() {
        s.len() as int
    } else if distance(p.0, target) < distance(s[from].0, target) {
        from
    } else {
        insertion_point(s, p, target, from + 1)
    }
}

/// The peers of `s` in order of distance to `target`, closest first; peers
/// at the same distance keep the order they have in `s`.
pub open spec fn sorted_by_distance(s: Seq<PeerView>, target: NodeId) -> Seq<PeerView>
    decreases s.len(),
{
    if s.len() == 0 {
        s
    } else {
        let rest = sorted_by_distance(s.drop_last(), target);
        rest.insert(insertion_point(rest, s.last(), target, 0), s.last())
    }
}

/// The time from `then` to `now`; zero if `now` is the earlier.
pub open spec fn elapsed(now: u64, then: u64) -> u64 {
    if now >= then {
        (now - then) as u64
    } else {
        0
    }
}

/// The test that the index of a bucket passes when the bucket holds a peer.
pub open spec fn holds_peer(buckets: Seq<Seq<PeerView>>) -> spec_fn(usize) -> bool {
    |i: usize| buckets[i as int].len() > 0
}

/// The peers of a snapshot, without the indices of their buckets.
pub open spec fn untagged(nodes: Seq<(usize, NodeId, Seq<char>)>) -> Seq<PeerView> {
    nodes.map_values(|t: (usize, NodeId, Seq<char>)| (t.1, t.2))
}

/// No two peers of the sequence share an id.
pub open spec fn ids_distinct(s: Seq<PeerView>) -> bool {
    forall|x: int, y: int| 0 <= x < y < s.len() ==> (#[trigger] s[x]).0 != (#[trigger] s[y]).0
}

/// No two peers of the sequence share an address.
pub open spec fn addrs_distinct(s: Seq<PeerView>) -> bool {
    forall|x: int, y: int| 0 <= x < y < s.len() ==> (#[trigger] s[x]).1 != (#[trigger] s[y]).1
}

/// The routing table as plain sequences.
pub struct TableModel {
    /// The id of the node that owns the table.
    pub owner: NodeId,
    /// The capacity of each bucket.
    pub k: nat,
    /// The 160 buckets, oldest entry first.
    pub buckets: Seq<Seq<PeerView>>,
    /// The 160 replacement caches, oldest entry first.
    pub caches: Seq<Seq<PeerView>>,
    /// When each bucket was last touched.
    pub last_touched: Seq<u64>,
}

impl TableModel {
    /// An empty table.
    pub open spec fn empty(owner: NodeId, k: nat, now: u64) -> TableModel {
        TableModel {
            owner,
            k,
            buckets: Seq::new(160, |i: int| Seq::<PeerView>::empty()),
            caches: Seq::new(160, |i: int| Seq::<PeerView>::empty()),
            last_touched: Seq::new(160, |i: int| now),
        }
    }

    /// Whether every peer of `s` belongs in bucket `i` and is not the owner.
    pub open spec fn placed(self, s: Seq<PeerView>, i: int) -> bool {
        forall|j: int|
            0 <= j < s.len() ==> (#[trigger] s[j]).0 != self.owner && bucket_of(
                self.owner,
                s[j].0,
            ) == i
    }

    /// The invariant of the table: 160 buckets and caches; every peer sits in
    /// the bucket or cache that its id maps to; the owner is in none; no
    /// bucket holds more than `k` peers, and no cache more than
    /// `cache_bound(k)`.
    pub open spec fn wf(self) -> bool {
        &&& self.buckets.len() == 160
        &&& self.caches.len() == 160
        &&& self.last_touched.len() == 160
        &&& forall|i: int|
            0 <= i < 160 ==> {
                &&& self.placed(#[trigger] self.buckets[i], i)
                &&& self.buckets[i].len() <= self.k
            }
        &&& forall|i: int|
            0 <= i < 160 ==> {
                &&& self.placed(#[trigger] self.caches[i], i)
                &&& self.caches[i].len() <= cache_bound(self.k)
            }
    }

    /// Within each bucket no id and no address occurs twice, and within
    /// each cache no id does.
    pub open spec fn distinct(self) -> bool {
        &&& forall|i: int|
            0 <= i < 160 ==> ids_distinct(#[trigger] self.buckets[i]) && addrs_distinct(
                self.buckets[i],
            )
        &&& forall|i: int| 0 <= i < 160 ==> ids_distinct(#[trigger] self.caches[i])
    }

    /// The table after `insert(id, addr)` at time `now`.
    pub open spec fn insert(self, id: NodeId, addr: Seq<char>, now: u64) -> TableModel {
        let i = bucket_of(self.owner, id);
        let bucket = self.buckets[i];
        let purged = purge(bucket, id, addr);
        if id == self.owner {
            self
        } else if bucket.contains((id, addr)) {
            TableModel { last_touched: self.last_touched.update(i, now), ..self }
        } else if purged.len() < self.k {
            TableModel {
                buckets: self.buckets.update(i, purged.push((id, addr))),
                last_touched: self.last_touched.update(i, now),
                ..self
            }
        } else {
            TableModel {
                buckets: self.buckets.update(i, purged),
                caches: self.caches.update(i, cache_put(self.caches[i], id, addr, self.k)),
                ..self
            }
        }
    }

    /// Every peer of the main buckets, bucket by bucket.
    pub open spec fn peers(self) -> Seq<PeerView> {
        self.buckets.flatten()
    }

    /// The peers of bucket `i`, each with the bucket's index.
    pub open spec fn tagged(self, i: int) -> Seq<(usize, NodeId, Seq<char>)> {
        Seq::new(
            self.buckets[i].len(),
            |j: int| (i as usize, self.buckets[i][j].0, self.buckets[i][j].1),
        )
    }

    /// What `all_nodes` returns: every peer of the main buckets with the
    /// index of its bucket, bucket by bucket.
    pub open spec fn all_nodes(self) -> Seq<(usize, NodeId, Seq<char>)> {
        Seq::new(self.buckets.len(), |i: int| self.tagged(i)).flatten()
    }

    /// What `find_closest(target, n)` returns: the first `n` peers of the
    /// main buckets in order of distance to `target`.
    pub open spec fn closest(self, target: NodeId, n: nat) -> Seq<PeerView> {
        let all = sorted_by_distance(self.peers(), target);
        if n < all.len() {
            all.take(n as int)
        } else {
            all
        }
    }

    /// Whether bucket `i` holds a peer and was last touched more than
    /// `horizon` before `now`.
    pub open spec fn stale(self, i: int, now: u64, horizon: u64) -> bool {
        &&& 0 <= i < self.buckets.len()
        &&& i < self.last_touched.len()
        &&& self.buckets[i].len() > 0
        &&& elapsed(now, self.last_touched[i]) > horizon
    }

    /// The table after each peer of `peers` was inserted at time `now`, in
    /// order.
    pub open spec fn insert_all(self, peers: Seq<PeerView>, now: u64) -> TableModel
        decreases peers.len(),
    {
        if peers.len() == 0 {
            self
        } else {
            self.insert_all(peers.drop_last(), now).insert(peers.last().0, peers.last().1, now)
        }
    }

    /// The indices of the buckets that hold a peer, in increasing order.
    pub open spec fn occupied(self) -> Seq<usize> {
        Seq::new(self.buckets.len(), |i: int| i as usize).filter(holds_peer(self.buckets))
    }

    /// The table after `remove(id)`.
    pub open spec fn remove(self, id: NodeId) -> TableModel {
        let i = bucket_of(self.owner, id);
        TableModel { buckets: self.buckets.update(i, without_id(self.buckets[i], id)), ..self }
    }

    /// The table after `substitute_or_remove_node(id)`.
    pub open spec fn substitute_or_remove(self, id: NodeId) -> TableModel {
        let i = bucket_of(self.owner, id);
        let bucket = self.buckets[i];
        let cache = self.caches[i];
        let j = position(bucket, id);
        if j >= bucket.len() {
            self
        } else if cache.len() > 0 {
            TableModel {
                buckets: self.buckets.update(i, bucket.update(j, cache[0])),
                caches: self.caches.update(i, cache.drop_first()),
                ..self
            }
        } else {
            TableModel { buckets: self.buckets.update(i, bucket.remove(j)), ..self }
        }
    }
}

/// Whether the bucket holds exactly this pair.
fn holds_pair(bucket: &Vec<(NodeId, String)>, id: &NodeId, addr: &String) -> (r: bool)
    ensures
        r == bucket.deep_view().contains((*id, addr@)),
{
    let mut j: usize = 0;
    while j < bucket.len()
        invariant
            j <= bucket.len(),
            forall|x: int| 0 <= x < j ==> bucket.deep_view()[x] != (*id, addr@),
        decreases bucket.len() - j,
    {
        if bucket[j].0 == *id && bucket[j].1 == *addr {
            assert(bucket.deep_view()[j as int] == (*id, addr@));
            return true;
        }
        j = j + 1;
    }
    false
}

/// Appends copies of `src[from..to]` to `dst`.
pub(crate) fn copy_peers(src: &Vec<(NodeId, String)>, from: usize, to: usize, dst: &mut Vec<(NodeId, String)>)
    requires
        from <= to <= src.len(),
    ensures
        final(dst).deep_view() == old(dst).deep_view() + src.deep_view().subrange(
            from as int,
            to as int,
        ),
{
    let ghost before = dst.deep_view();
    let ghost all = src.deep_view();
    let mut j: usize = from;
    assert(dst.deep_view() =~= before + all.subrange(from as int, j as int));
    while j < to
        invariant
            from <= j <= to <= src.len(),
            all == src.deep_view(),
            dst.deep_view() == before + all.subrange(from as int, j as int),
        decreases to - j,
    {
        let ghost prev = dst.deep_view();
        dst.push((src[j].0, src[j].1.clone()));
        assert(dst.deep_view() =~= prev.push(all[j as int]));
        assert(prev.push(all[j as int]) =~= before + all.subrange(from as int, j as int + 1));
        j = j + 1;
    }
}

/// The bucket without the peers that clash with the incoming pair.
fn purged(bucket: &Vec<(NodeId, String)>, id: &NodeId, addr: &String) -> (kept: Vec<
    (NodeId, String),
>)
    ensures
        kept.deep_view() == purge(bucket.deep_view(), *id, addr@),
{
    let ghost before = bucket.deep_view();
    let ghost keep = no_conflict(*id, addr@);
    let mut kept: Vec<(NodeId, String)> = Vec::new();
    let mut j: usize = 0;
    proof {
        reveal(Seq::filter);
        assert(before.take(0) =~= Seq::<PeerView>::empty());
        assert(kept.deep_view() =~= before.take(0).filter(keep));
    }
    while j < bucket.len()
        invariant
            j <= bucket.len(),
            before == bucket.deep_view(),
            keep == no_conflict(*id, addr@),
            kept.deep_view() == before.take(j as int).filter(keep),
        decreases bucket.len() - j,
    {
        let same_id = bucket[j].0 == *id;
        let same_addr = bucket[j].1 == *addr;
        let ghost prev = kept.deep_view();
        proof {
            assert(before.take(j as int + 1) =~= before.take(j as int).push(before[j as int]));
            before.take(j as int).lemma_filter_push(before[j as int], keep);
        }
        if !((same_id && !same_addr) || (!same_id && same_addr)) {
            kept.push((bucket[j].0, bucket[j].1.clone()));
            assert(kept.deep_view() =~= prev.push(before[j as int]));
        }
        j = j + 1;
    }
    assert(before.take(j as int) =~= before);
    kept
}

/// The bucket without the peers of the given id.
fn stripped(bucket: &Vec<(NodeId, String)>, id: &NodeId) -> (kept: Vec<(NodeId, String)>)
    ensures
        kept.deep_view() == without_id(bucket.deep_view(), *id),
{
    let ghost before = bucket.deep_view();
    let ghost keep = other_id(*id);
    let mut kept: Vec<(NodeId, String)> = Vec::new();
    let mut j: usize = 0;
    proof {
        reveal(Seq::filter);
        assert(before.take(0) =~= Seq::<PeerView>::empty());
        assert(kept.deep_view() =~= before.take(0).filter(keep));
    }
    while j < bucket.len()
        invariant
            j <= bucket.len(),
            before == bucket.deep_view(),
            keep == other_id(*id),
            kept.deep_view() == before.take(j as int).filter(keep),
        decreases bucket.len() - j,
    {
        let ghost prev = kept.deep_view();
        proof {
            assert(before.take(j as int + 1) =~= before.take(j as int).push(before[j as int]));
            before.take(j as int).lemma_filter_push(before[j as int], keep);
        }
        if bucket[j].0 != *id {
            kept.push((bucket[j].0, bucket[j].1.clone()));
            assert(kept.deep_view() =~= prev.push(before[j as int]));
        }
        j = j + 1;
    }
    assert(before.take(j as int) =~= before);
    kept
}

/// The first position in the bucket that holds the id; its length if none
/// does.
fn bucket_position(bucket: &Vec<(NodeId, String)>, id: &NodeId) -> (j: usize)
    ensures
        j == position(bucket.deep_view(), *id),
        j <= bucket.len(),
{
    let mut j: usize = 0;
    while j < bucket.len()
        invariant
            j <= bucket.len(),
            position(bucket.deep_view(), *id) == position_from(bucket.deep_view(), *id, j as int),
        decreases bucket.len() - j,
    {
        if bucket[j].0 == *id {
            return j;
        }
        j = j + 1;
    }
    j
}

/// Where a peer with the given id goes in a sequence ordered by distance to
/// `target`.
fn insertion_index(sorted: &Vec<(NodeId, String)>, id: &NodeId, target: &NodeId) -> (at: usize)
    ensures
        at <= sorted.len(),
        forall|addr: Seq<char>|
            at == #[trigger] insertion_point(sorted.deep_view(), (*id, addr), *target, 0),
{
    let mut at: usize = 0;
    while at < sorted.len()
        invariant
            at <= sorted.len(),
            forall|addr: Seq<char>|
                #[trigger] insertion_point(sorted.deep_view(), (*id, addr), *target, 0)
                    == insertion_point(sorted.deep_view(), (*id, addr), *target, at as int),
        decreases sorted.len() - at,
    {
        if closer(id, &sorted[at].0, target) {
            return at;
        }
        at = at + 1;
    }
    at
}

/// The first position in the cache that holds the id; its length if none
/// does.
fn cached_position(cache: &VecDeque<(NodeId, String)>, id: &NodeId) -> (j: usize)
    ensures
        j == position(cache.deep_view(), *id),
        j <= cache.len(),
{
    let mut j: usize = 0;
    while j < cache.len()
        invariant
            j <= cache.len(),
            position(cache.deep_view(), *id) == position_from(cache.deep_view(), *id, j as int),
        decreases cache.len() - j,
    {
        if cache[j].0 == *id {
            return j;
        }
        j = j + 1;
    }
    j
}

/// Offers a pair to a replacement cache.
fn cache_offer(cache: &mut VecDeque<(NodeId, String)>, id: NodeId, addr: String, k: usize)
    ensures
        final(cache).deep_view() == cache_put(old(cache).deep_view(), id, addr@, k as nat),
{
    let ghost before = cache.deep_view();
    let ghost a = addr@;
    let j = cached_position(cache, &id);
    if j < cache.len() {
        cache.remove(j);
        assert(cache.deep_view() =~= before.remove(j as int));
        cache.insert(j, (id, addr));
        assert(cache.deep_view() =~= before.update(j as int, (id, a)));
    } else if cache.len() >= k / 2 && cache.len() > 0 {
        cache.pop_front();
        assert(cache.deep_view() =~= before.drop_first());
        cache.push_back((id, addr));
        assert(cache.deep_view() =~= before.drop_first().push((id, a)));
    } else {
        cache.push_back((id, addr));
        assert(cache.deep_view() =~= before.push((id, a)));
    }
}

/// Purging keeps every peer in its bucket and never grows the bucket.
proof fn lemma_purge_placed(m: TableModel, s: Seq<PeerView>, i: int, id: NodeId, addr: Seq<char>)
    requires
        m.placed(s, i),
    ensures
        m.placed(purge(s, id, addr), i),
        purge(s, id, addr).len() <= s.len(),
        forall|j: int| 0 <= j < purge(s, id, addr).len() ==> !conflicts(#[trigger] purge(s, id, addr)[j], id, addr),
{
    let keep = no_conflict(id, addr);
    let out = s.filter(keep);
    s.lemma_filter_len(keep);
    assert forall|j: int| 0 <= j < out.len() implies (#[trigger] out[j]).0 != m.owner && bucket_of(
        m.owner,
        out[j].0,
    ) == i && !conflicts(out[j], id, addr) by {
        assert(out.contains(out[j]));
        s.lemma_filter_contains_rev(keep, out[j]);
        s.lemma_filter_pred(keep, j);
    }
}

/// Offering a peer that belongs in cache `i` keeps the cache placed and
/// within its bound.
proof fn lemma_cache_put_placed(m: TableModel, c: Seq<PeerView>, i: int, id: NodeId, addr: Seq<char>)
    requires
        m.placed(c, i),
        c.len() <= cache_bound(m.k),
        id != m.owner,
        bucket_of(m.owner, id) == i,
    ensures
        m.placed(cache_put(c, id, addr, m.k), i),
        cache_put(c, id, addr, m.k).len() <= cache_bound(m.k),
{
    lemma_position_from(c, id, 0);
    let out = cache_put(c, id, addr, m.k);
    let j = position(c, id);
    if j < c.len() {
    } else if c.len() >= m.k / 2 && c.len() > 0 {
        assert forall|x: int| 0 <= x < out.len() implies (#[trigger] out[x]).0 != m.owner
            && bucket_of(m.owner, out[x].0) == i by {
            if x < out.len() - 1 {
                assert(out[x] == c[x + 1]);
            }
        }
    } else {
    }
}

/// `insert` keeps the table well formed.
pub proof fn lemma_insert_wf(m: TableModel, id: NodeId, addr: Seq<char>, now: u64)
    requires
        m.wf(),
    ensures
        m.insert(id, addr, now).wf(),
{
    lemma_bucket_of_range(m.owner, id);
    let i = bucket_of(m.owner, id);
    let out = m.insert(id, addr, now);
    if id != m.owner && !m.buckets[i].contains((id, addr)) {
        lemma_purge_placed(m, m.buckets[i], i, id, addr);
        lemma_cache_put_placed(m, m.caches[i], i, id, addr);
        assert forall|x: int| 0 <= x < 160 implies out.placed(#[trigger] out.buckets[x], x)
            && out.buckets[x].len() <= out.k by {
            if x != i {
                assert(m.placed(m.buckets[x], x));
            }
        }
        assert forall|x: int| 0 <= x < 160 implies out.placed(#[trigger] out.caches[x], x)
            && out.caches[x].len() <= cache_bound(out.k) by {
            if x != i {
                assert(m.placed(m.caches[x], x));
            }
        }
    }
}

/// Inserting a list of peers keeps the table well formed.
pub proof fn lemma_insert_all_wf(m: TableModel, peers: Seq<PeerView>, now: u64)
    requires
        m.wf(),
    ensures
        m.insert_all(peers, now).wf(),
        m.insert_all(peers, now).owner == m.owner,
        m.insert_all(peers, now).k == m.k,
    decreases peers.len(),
{
    if peers.len() > 0 {
        lemma_insert_all_wf(m, peers.drop_last(), now);
        lemma_insert_wf(m.insert_all(peers.drop_last(), now), peers.last().0, peers.last().1, now);
    }
}

/// `remove` keeps the table well formed.
pub proof fn lemma_remove_wf(m: TableModel, id: NodeId)
    requires
        m.wf(),
    ensures
        m.remove(id).wf(),
{
    lemma_bucket_of_range(m.owner, id);
    let i = bucket_of(m.owner, id);
    let out = m.remove(id);
    let keep = other_id(id);
    let kept = m.buckets[i].filter(keep);
    m.buckets[i].lemma_filter_len(keep);
    assert(m.placed(m.buckets[i], i));
    assert forall|j: int| 0 <= j < kept.len() implies (#[trigger] kept[j]).0 != m.owner
        && bucket_of(m.owner, kept[j].0) == i by {
        assert(kept.contains(kept[j]));
        m.buckets[i].lemma_filter_contains_rev(keep, kept[j]);
    }
    assert forall|x: int| 0 <= x < 160 implies out.placed(#[trigger] out.buckets[x], x)
        && out.buckets[x].len() <= out.k by {
        if x != i {
            assert(m.placed(m.buckets[x], x));
        }
    }
    assert forall|x: int| 0 <= x < 160 implies out.placed(#[trigger] out.caches[x], x)
        && out.caches[x].len() <= cache_bound(out.k) by {
        assert(m.placed(m.caches[x], x));
    }
}

/// `substitute_or_remove` keeps the table well formed.
pub proof fn lemma_substitute_wf(m: TableModel, id: NodeId)
    requires
        m.wf(),
    ensures
        m.substitute_or_remove(id).wf(),
{
    lemma_bucket_of_range(m.owner, id);
    let i = bucket_of(m.owner, id);
    let out = m.substitute_or_remove(id);
    let bucket = m.buckets[i];
    let cache = m.caches[i];
    lemma_position_from(bucket, id, 0);
    assert(m.placed(bucket, i));
    assert(m.placed(cache, i));
    if position(bucket, id) < bucket.len() {
        assert forall|x: int| 0 <= x < 160 implies out.placed(#[trigger] out.buckets[x], x)
            && out.buckets[x].len() <= out.k by {
            if x != i {
                assert(m.placed(m.buckets[x], x));
            } else {
                let b = out.buckets[i];
                assert forall|j: int| 0 <= j < b.len() implies (#[trigger] b[j]).0 != m.owner
                    && bucket_of(m.owner, b[j].0) == i by {
                    if cache.len() > 0 {
                        if j != position(bucket, id) {
                            assert(b[j] == bucket[j]);
                        } else {
                            assert(b[j] == cache[0]);
                        }
                    } else {
                        if j < position(bucket, id) {
                            assert(b[j] == bucket[j]);
                        } else {
                            assert(b[j] == bucket[j + 1]);
                        }
                    }
                }
            }
        }
        assert forall|x: int| 0 <= x < 160 implies out.placed(#[trigger] out.caches[x], x)
            && out.caches[x].len() <= cache_bound(out.k) by {
            if x != i {
                assert(m.placed(m.caches[x], x));
            } else {
                let c = out.caches[i];
                assert forall|j: int| 0 <= j < c.len() implies (#[trigger] c[j]).0 != m.owner
                    && bucket_of(m.owner, c[j].0) == i by {
                    if cache.len() > 0 {
                        assert(c[j] == cache[j + 1]);
                    }
                }
            }
        }
    }
}

/// The routing table of one node.
#[derive(Debug)]
pub struct RoutingTable {
    buckets: Vec<Vec<(NodeId, String)>>,
    cache_buckets: Vec<VecDeque<(NodeId, String)>>,
    my_id: NodeId,
    k: usize,
    last_touched: Vec<u64>,
}

impl View for RoutingTable {
    type V = TableModel;

    closed spec fn view(&self) -> TableModel {
        TableModel {
            owner: self.my_id,
            k: self.k as nat,
            buckets: self.buckets.deep_view(),
            caches: self.cache_buckets.deep_view(),
            last_touched: self.last_touched@,
        }
    }
}

impl RoutingTable {
    /// An empty table for the node `my_id`, with buckets of capacity `k`,
    /// every bucket stamped `now`.
    pub fn new(my_id: NodeId, k: usize, now: u64) -> (table: RoutingTable)
        ensures
            table@ == TableModel::empty(my_id, k as nat, now),
            table@.wf(),
            table@.distinct(),
    {
        let mut buckets: Vec<Vec<(NodeId, String)>> = Vec::new();
        let mut cache_buckets: Vec<VecDeque<(NodeId, String)>> = Vec::new();
        let mut last_touched: Vec<u64> = Vec::new();
        let mut i: usize = 0;
        while i < 160
            invariant
                i <= 160,
                buckets.len() == i,
                cache_buckets.len() == i,
                last_touched.len() == i,
                forall|j: int| 0 <= j < i ==> (#[trigger] buckets[j])@.len() == 0,
                forall|j: int| 0 <= j < i ==> (#[trigger] cache_buckets[j])@.len() == 0,
                forall|j: int| 0 <= j < i ==> last_touched[j] == now,
            decreases 160 - i,
        {
            buckets.push(Vec::new());
            cache_buckets.push(VecDeque::new());
            last_touched.push(now);
            i = i + 1;
        }
        let table = RoutingTable { buckets, cache_buckets, my_id, k, last_touched };
        proof {
            let m = TableModel::empty(my_id, k as nat, now);
            assert(table@.buckets =~~= m.buckets);
            assert(table@.caches =~~= m.caches);
            assert(table@.last_touched =~= m.last_touched);
        }
        table
    }

    /// The bucket that `b` falls into as seen from `a`.
    pub fn bucket_index(a: &NodeId, b: &NodeId) -> (r: usize)
        ensures
            r == bucket_of(*a, *b),
            r < 160,
    {
        let x = xor_distance(a, b);
        let mut i: usize = 0;
        while i < 160
            invariant
                i <= 160,
                x.0@ == xor_bytes(*a, *b),
                first_set_bit(x.0@, 0) == first_set_bit(x.0@, i as int),
            decreases 160 - i,
        {
            let byte_index = i / 8;
            let shift: u8 = (7 - i % 8) as u8;
            if (x.0[byte_index] >> shift) & 1u8 == 1u8 {
                return i;
            }
            i = i + 1;
        }
        159
    }

    /// Records that the peer `id` was seen at `addr` at time `now`.
    ///
    /// The owner's own id is ignored. A pair that the bucket already holds
    /// only stamps the bucket. Otherwise every stored peer that clashes with
    /// the pair leaves the bucket; the pair is appended and the bucket
    /// stamped if there is room, and the pair is offered to the bucket's
    /// replacement cache if there is none.
    pub fn insert(&mut self, id: NodeId, addr: String, now: u64)
        requires
            old(self)@.wf(),
        ensures
            final(self)@ == old(self)@.insert(id, addr@, now),
            final(self)@.wf(),
            old(self)@.distinct() ==> final(self)@.distinct(),
    {
        proof {
            lemma_bucket_of_range(self.my_id, id);
            lemma_insert_wf(self@, id, addr@, now);
            if self@.distinct() {
                lemma_insert_distinct(self@, id, addr@, now);
            }
        }
        if id == self.my_id {
            return ;
        }
        let index = Self::bucket_index(&self.my_id, &id);
        let ghost m = self@;
        let ghost a = addr@;
        if holds_pair(&self.buckets[index], &id, &addr) {
            self.last_touched[index] = now;
            return ;
        }
        let mut bucket = purged(&self.buckets[index], &id, &addr);
        if bucket.len() < self.k {
            let ghost kept = bucket.deep_view();
            bucket.push((id, addr));
            assert(bucket.deep_view() =~= kept.push((id, a)));
            self.buckets[index] = bucket;
            assert(self@.buckets =~= m.buckets.update(
                index as int,
                purge(m.buckets[index as int], id, a).push((id, a)),
            ));
            self.last_touched[index] = now;
        } else {
            self.buckets[index] = bucket;
            assert(self@.buckets =~= m.buckets.update(
                index as int,
                purge(m.buckets[index as int], id, a),
            ));
            cache_offer(&mut self.cache_buckets[index], id, addr, self.k);
            assert(self@.caches =~= m.caches.update(
                index as int,
                cache_put(m.caches[index as int], id, a, m.k),
            ));
        }
    }

    /// Takes every peer with this id out of the bucket that the id maps to.
    /// The replacement cache is left alone.
    pub fn remove(&mut self, id: &NodeId)
        requires
            old(self)@.wf(),
        ensures
            final(self)@ == old(self)@.remove(*id),
            final(self)@.wf(),
            old(self)@.distinct() ==> final(self)@.distinct(),
    {
        proof {
            lemma_bucket_of_range(self.my_id, *id);
            lemma_remove_wf(self@, *id);
            if self@.distinct() {
                lemma_remove_distinct(self@, *id);
            }
        }
        let ghost m = self@;
        let index = Self::bucket_index(&self.my_id, id);
        let bucket = stripped(&self.buckets[index], id);
        self.buckets[index] = bucket;
        assert(self@.buckets =~= m.buckets.update(
            index as int,
            without_id(m.buckets[index as int], *id),
        ));
    }

    /// Replaces a peer that was found dead: the oldest entry of the bucket's
    /// replacement cache takes its place in the bucket; with an empty cache
    /// the peer just leaves. A peer that the bucket does not hold changes
    /// nothing.
    pub fn substitute_or_remove_node(&mut self, id: NodeId)
        requires
            old(self)@.wf(),
        ensures
            final(self)@ == old(self)@.substitute_or_remove(id),
            final(self)@.wf(),
            old(self)@.distinct() && !promotion_clashes(old(self)@, id) ==> final(self)@.distinct(),
    {
        proof {
            lemma_bucket_of_range(self.my_id, id);
            lemma_substitute_wf(self@, id);
            if self@.distinct() && !promotion_clashes(self@, id) {
                lemma_substitute_distinct(self@, id);
            }
        }
        let ghost m = self@;
        let index = Self::bucket_index(&self.my_id, &id);
        let pos = bucket_position(&self.buckets[index], &id);
        if pos < self.buckets[index].len() {
            let ghost bucket = m.buckets[index as int];
            let ghost cache = m.caches[index as int];
            match self.cache_buckets[index].pop_front() {
                None => {
                    self.buckets[index].remove(pos);
                    assert(self.buckets[index as int].deep_view() =~= bucket.remove(pos as int));
                    assert(self@.buckets =~= m.buckets.update(
                        index as int,
                        bucket.remove(pos as int),
                    ));
                    assert(self@.caches =~= m.caches);
                },
                Some(peer) => {
                    assert(self.cache_buckets[index as int].deep_view() =~= cache.drop_first());
                    assert(peer.deep_view() == cache[0]);
                    self.buckets[index][pos] = peer;
                    assert(self.buckets[index as int].deep_view() =~= bucket.update(
                        pos as int,
                        cache[0],
                    ));
                    assert(self@.buckets =~= m.buckets.update(
                        index as int,
                        bucket.update(pos as int, cache[0]),
                    ));
                    assert(self@.caches =~= m.caches.update(index as int, cache.drop_first()));
                },
            }
        }
    }

    /// The `k` peers of the main buckets that are closest to `target`, the
    /// closest first; all of them if there are fewer. The replacement caches
    /// are not consulted.
    pub fn find_closest(&self, target: &NodeId, k: usize) -> (out: Vec<(NodeId, String)>)
        ensures
            out.deep_view() == self@.closest(*target, k as nat),
    {
        let ghost buckets = self@.buckets;
        let mut sorted: Vec<(NodeId, String)> = Vec::new();
        let mut i: usize = 0;
        proof {
            assert(buckets.take(0) =~= Seq::<Seq<PeerView>>::empty());
            assert(sorted.deep_view() =~= Seq::<PeerView>::empty());
        }
        while i < self.buckets.len()
            invariant
                i <= self.buckets.len(),
                buckets == self@.buckets,
                sorted.deep_view() == sorted_by_distance(buckets.take(i as int).flatten(), *target),
            decreases self.buckets.len() - i,
        {
            let bucket = &self.buckets[i];
            let ghost done = buckets.take(i as int).flatten();
            let mut j: usize = 0;
            assert(done + buckets[i as int].take(0) =~= done);
            while j < bucket.len()
                invariant
                    j <= bucket.len(),
                    bucket.deep_view() == buckets[i as int],
                    sorted.deep_view() == sorted_by_distance(
                        done + buckets[i as int].take(j as int),
                        *target,
                    ),
                decreases bucket.len() - j,
            {
                let ghost seen = done + buckets[i as int].take(j as int);
                let ghost peer = buckets[i as int][j as int];
                let ghost prev = sorted.deep_view();
                let at = insertion_index(&sorted, &bucket[j].0, target);
                sorted.insert(at, (bucket[j].0, bucket[j].1.clone()));
                proof {
                    assert(sorted.deep_view() =~= prev.insert(at as int, peer));
                    let next = done + buckets[i as int].take(j as int + 1);
                    assert(next.drop_last() =~= seen);
                    assert(next.last() == peer);
                }
                j = j + 1;
            }
            proof {
                assert(buckets[i as int].take(j as int) =~= buckets[i as int]);
                assert(buckets.take(i as int + 1) =~= buckets.take(i as int).push(buckets[i as int]));
                buckets.take(i as int).lemma_flatten_push(buckets[i as int]);
            }
            i = i + 1;
        }
        assert(buckets.take(i as int) =~= buckets);
        if k < sorted.len() {
            let ghost all = sorted.deep_view();
            sorted.truncate(k);
            assert(sorted.deep_view() =~= all.take(k as int));
        }
        sorted
    }

    /// Every peer of the main buckets with the index of its bucket.
    pub fn all_nodes(&self) -> (nodes: Vec<(usize, NodeId, String)>)
        ensures
            nodes.deep_view() == self@.all_nodes(),
    {
        let ghost m = self@;
        let ghost rows = Seq::new(m.buckets.len(), |i: int| m.tagged(i));
        let mut nodes: Vec<(usize, NodeId, String)> = Vec::new();
        let mut i: usize = 0;
        proof {
            assert(rows.take(0) =~= Seq::<Seq<(usize, NodeId, Seq<char>)>>::empty());
            assert(nodes.deep_view() =~= Seq::<(usize, NodeId, Seq<char>)>::empty());
        }
        while i < self.buckets.len()
            invariant
                i <= self.buckets.len(),
                m == self@,
                rows == Seq::new(m.buckets.len(), |i: int| m.tagged(i)),
                nodes.deep_view() == rows.take(i as int).flatten(),
            decreases self.buckets.len() - i,
        {
            let bucket = &self.buckets[i];
            let ghost done = nodes.deep_view();
            let mut j: usize = 0;
            assert(done + rows[i as int].take(0) =~= done);
            while j < bucket.len()
                invariant
                    j <= bucket.len(),
                    i < m.buckets.len(),
                    bucket.deep_view() == m.buckets[i as int],
                    rows[i as int] == m.tagged(i as int),
                    nodes.deep_view() == done + rows[i as int].take(j as int),
                decreases bucket.len() - j,
            {
                let ghost prev = nodes.deep_view();
                nodes.push((i, bucket[j].0, bucket[j].1.clone()));
                proof {
                    assert(nodes.deep_view() =~= prev.push(rows[i as int][j as int]));
                    assert(prev.push(rows[i as int][j as int]) =~= done + rows[i as int].take(
                        j as int + 1,
                    ));
                }
                j = j + 1;
            }
            proof {
                assert(rows[i as int].take(j as int) =~= rows[i as int]);
                assert(rows.take(i as int + 1) =~= rows.take(i as int).push(rows[i as int]));
                rows.take(i as int).lemma_flatten_push(rows[i as int]);
            }
            i = i + 1;
        }
        assert(rows.take(i as int) =~= rows);
        nodes
    }

    /// The id of the node that owns the table.
    pub fn my_id(&self) -> (id: NodeId)
        ensures
            id == self@.owner,
    {
        self.my_id
    }

    /// The capacity of each bucket.
    pub fn k(&self) -> (k: usize)
        ensures
            k == self@.k,
    {
        self.k
    }

    /// A copy of the peers of bucket `i`, oldest first; `None` if there is no
    /// such bucket.
    pub fn bucket(&self, i: usize) -> (peers: Option<Vec<(NodeId, String)>>)
        ensures
            peers is Some <==> i < self@.buckets.len(),
            peers matches Some(v) ==> v.deep_view() == self@.buckets[i as int],
    {
        if i < self.buckets.len() {
            let mut out: Vec<(NodeId, String)> = Vec::new();
            assert(out.deep_view() =~= Seq::<PeerView>::empty());
            copy_peers(&self.buckets[i], 0, self.buckets[i].len(), &mut out);
            assert(out.deep_view() =~= self@.buckets[i as int]);
            Some(out)
        } else {
            None
        }
    }

    /// A copy of the replacement cache of bucket `i`, oldest first; `None` if
    /// there is no such bucket.
    pub fn cache_bucket(&self, i: usize) -> (peers: Option<Vec<(NodeId, String)>>)
        ensures
            peers is Some <==> i < self@.caches.len(),
            peers matches Some(v) ==> v.deep_view() == self@.caches[i as int],
    {
        if i < self.cache_buckets.len() {
            let cache = &self.cache_buckets[i];
            let mut out: Vec<(NodeId, String)> = Vec::new();
            let mut j: usize = 0;
            while j < cache.len()
                invariant
                    j <= cache.len(),
                    out.deep_view() == cache.deep_view().take(j as int),
                decreases cache.len() - j,
            {
                let ghost prev = out.deep_view();
                out.push((cache[j].0, cache[j].1.clone()));
                assert(out.deep_view() =~= prev.push(cache.deep_view()[j as int]));
                j = j + 1;
            }
            assert(cache.deep_view().take(j as int) =~= cache.deep_view());
            Some(out)
        } else {
            None
        }
    }

    /// When bucket `i` was last touched; `None` if there is no such bucket.
    pub fn last_touched(&self, i: usize) -> (at: Option<u64>)
        ensures
            at is Some <==> i < self@.last_touched.len(),
            at matches Some(t) ==> t == self@.last_touched[i as int],
    {
        if i < self.last_touched.len() {
            Some(self.last_touched[i])
        } else {
            None
        }
    }

    /// Whether bucket `i` is due for a refresh at time `now`: it holds a
    /// peer and was last touched more than `horizon` ago.
    pub fn is_stale(&self, i: usize, now: u64, horizon: u64) -> (r: bool)
        ensures
            r == self@.stale(i as int, now, horizon),
    {
        if i >= self.buckets.len() || i >= self.last_touched.len() {
            return false;
        }
        if self.buckets[i].len() == 0 {
            return false;
        }
        let then = self.last_touched[i];
        now >= then && now - then > horizon
    }

    /// The indices of the buckets that hold a peer, in increasing order.
    pub fn occupied_buckets(&self) -> (found: Vec<usize>)
        ensures
            found@ == self@.occupied(),
    {
        let ghost buckets = self@.buckets;
        let ghost all = Seq::new(buckets.len(), |i: int| i as usize);
        let ghost keep = holds_peer(buckets);
        let mut found: Vec<usize> = Vec::new();
        let mut i: usize = 0;
        proof {
            reveal(Seq::filter);
            assert(all.take(0).filter(keep) =~= Seq::<usize>::empty());
        }
        while i < self.buckets.len()
            invariant
                i <= self.buckets.len(),
                buckets == self@.buckets,
                all == Seq::new(buckets.len(), |i: int| i as usize),
                keep == holds_peer(buckets),
                found@ == all.take(i as int).filter(keep),
            decreases self.buckets.len() - i,
        {
            proof {
                assert(all.take(i as int + 1) =~= all.take(i as int).push(all[i as int]));
                all.take(i as int).lemma_filter_push(all[i as int], keep);
            }
            if self.buckets[i].len() > 0 {
                found.push(i);
            }
            i = i + 1;
        }
        assert(all.take(i as int) =~= all);
        found
    }

    /// Whether the table is well formed. Every table that `new` made and
    /// the operations of the table changed is.
    pub fn is_wf(&self) -> (ok: bool)
        ensures
            ok == self@.wf(),
    {
        if self.buckets.len() != 160 || self.cache_buckets.len() != 160 || self.last_touched.len()
            != 160 {
            return false;
        }
        let bound = if self.k / 2 >= 1 {
            self.k / 2
        } else {
            1
        };
        let ghost m = self@;
        let mut i: usize = 0;
        while i < 160
            invariant
                i <= 160,
                m == self@,
                self.buckets.len() == 160,
                self.cache_buckets.len() == 160,
                self.last_touched.len() == 160,
                bound == cache_bound(m.k),
                forall|x: int|
                    0 <= x < i ==> m.placed(#[trigger] m.buckets[x], x) && m.buckets[x].len()
                        <= m.k,
                forall|x: int|
                    0 <= x < i ==> m.placed(#[trigger] m.caches[x], x) && m.caches[x].len()
                        <= cache_bound(m.k),
            decreases 160 - i,
        {
            let bucket = &self.buckets[i];
            let cache = &self.cache_buckets[i];
            if bucket.len() > self.k || cache.len() > bound {
                assert(m.buckets[i as int].len() > m.k || m.caches[i as int].len() > cache_bound(
                    m.k,
                ));
                return false;
            }
            let mut j: usize = 0;
            while j < bucket.len()
                invariant
                    j <= bucket.len(),
                    i < 160,
                    m == self@,
                    bucket.deep_view() == m.buckets[i as int],
                    forall|y: int|
                        0 <= y < j ==> (#[trigger] m.buckets[i as int][y]).0 != m.owner
                            && bucket_of(m.owner, m.buckets[i as int][y].0) == i,
                decreases bucket.len() - j,
            {
                if bucket[j].0 == self.my_id || Self::bucket_index(&self.my_id, &bucket[j].0) != i {
                    assert(!m.placed(m.buckets[i as int], i as int)) by {
                        let p = m.buckets[i as int][j as int];
                        assert(p.0 == m.owner || bucket_of(m.owner, p.0) != i);
                    }
                    return false;
                }
                j = j + 1;
            }
            let mut j: usize = 0;
            while j < cache.len()
                invariant
                    j <= cache.len(),
                    i < 160,
                    m == self@,
                    cache.deep_view() == m.caches[i as int],
                    forall|y: int|
                        0 <= y < j ==> (#[trigger] m.caches[i as int][y]).0 != m.owner
                            && bucket_of(m.owner, m.caches[i as int][y].0) == i,
                decreases cache.len() - j,
            {
                if cache[j].0 == self.my_id || Self::bucket_index(&self.my_id, &cache[j].0) != i {
                    assert(!m.placed(m.caches[i as int], i as int)) by {
                        let p = m.caches[i as int][j as int];
                        assert(p.0 == m.owner || bucket_of(m.owner, p.0) != i);
                    }
                    return false;
                }
                j = j + 1;
            }
            i = i + 1;
        }
        true
    }
}

} // verus!
