//! What holds of the routing table after any sequence of operations, proved
//! of [`TableModel`].

use crate::kad_id::NodeId;
use crate::protocol::{distance, PeerView};
use crate::routing::{
    addrs_distinct, bucket_of, cache_put, conflicts, ids_distinct, insertion_point,
    lemma_bucket_of_range, lemma_position_from, no_conflict, other_id, position, purge,
    sorted_by_distance, untagged, TableModel,
};
use vstd::prelude::*;

verus! {

/// A filter that every element passes changes nothing.
pub proof fn lemma_filter_all<A>(s: Seq<A>, pred: spec_fn(A) -> bool)
    requires
        forall|j: int| 0 <= j < s.len() ==> pred(#[trigger] s[j]),
    ensures
        s.filter(pred) == s,
    decreases s.len(),
{
    reveal(Seq::filter);
    if s.len() > 0 {
        lemma_filter_all(s.drop_last(), pred);
        assert(s.drop_last().push(s.last()) =~= s);
    }
}

/// A filter that some element fails yields a shorter sequence.
pub proof fn lemma_filter_drops<A>(s: Seq<A>, pred: spec_fn(A) -> bool, j: int)
    requires
        0 <= j < s.len(),
        !pred(s[j]),
    ensures
        s.filter(pred).len() < s.len(),
    decreases s.len(),
{
    reveal(Seq::filter);
    s.drop_last().lemma_filter_len(pred);
    if j < s.len() - 1 {
        lemma_filter_drops(s.drop_last(), pred, j);
    }
}

/// A filter keeps the order of what it keeps: a sequence without repeated
/// ids or addresses stays so.
pub proof fn lemma_filter_distinct(s: Seq<PeerView>, pred: spec_fn(PeerView) -> bool)
    ensures
        ids_distinct(s) ==> ids_distinct(s.filter(pred)),
        addrs_distinct(s) ==> addrs_distinct(s.filter(pred)),
    decreases s.len(),
{
    reveal(Seq::filter);
    if s.len() > 0 {
        let head = s.drop_last();
        let sub = head.filter(pred);
        lemma_filter_distinct(head, pred);
        let out = s.filter(pred);
        if ids_distinct(s) {
            assert forall|x: int, y: int| 0 <= x < y < head.len() implies (#[trigger] head[x]).0 != (
            #[trigger] head[y]).0 by {
                assert(head[x] == s[x] && head[y] == s[y]);
            }
            assert forall|x: int, y: int| 0 <= x < y < out.len() implies (#[trigger] out[x]).0 != (
            #[trigger] out[y]).0 by {
                if y == sub.len() {
                    assert(sub.contains(sub[x]));
                    head.lemma_filter_contains_rev(pred, sub[x]);
                    let z = choose|z: int| 0 <= z < head.len() && head[z] == sub[x];
                    assert(s[z] == head[z]);
                    assert(s[z].0 != s[s.len() - 1].0);
                } else {
                    assert(out[x] == sub[x] && out[y] == sub[y]);
                }
            }
        }
        if addrs_distinct(s) {
            assert forall|x: int, y: int| 0 <= x < y < head.len() implies (#[trigger] head[x]).1 != (
            #[trigger] head[y]).1 by {
                assert(head[x] == s[x] && head[y] == s[y]);
            }
            assert forall|x: int, y: int| 0 <= x < y < out.len() implies (#[trigger] out[x]).1 != (
            #[trigger] out[y]).1 by {
                if y == sub.len() {
                    assert(sub.contains(sub[x]));
                    head.lemma_filter_contains_rev(pred, sub[x]);
                    let z = choose|z: int| 0 <= z < head.len() && head[z] == sub[x];
                    assert(s[z] == head[z]);
                    assert(s[z].1 != s[s.len() - 1].1);
                } else {
                    assert(out[x] == sub[x] && out[y] == sub[y]);
                }
            }
        }
    }
}

/// Every peer of a purged bucket is a peer of the bucket that does not clash
/// with the incoming pair.
pub proof fn lemma_purge_members(s: Seq<PeerView>, id: NodeId, addr: Seq<char>, j: int)
    requires
        0 <= j < purge(s, id, addr).len(),
    ensures
        s.contains(purge(s, id, addr)[j]),
        !conflicts(purge(s, id, addr)[j], id, addr),
{
    let out = purge(s, id, addr);
    assert(out.contains(out[j]));
    s.lemma_filter_contains_rev(no_conflict(id, addr), out[j]);
    s.lemma_filter_pred(no_conflict(id, addr), j);
}

/// Every peer of a main bucket sits in the bucket that its id maps to.
pub proof fn lemma_peer_in_its_bucket(m: TableModel, i: int, j: int)
    requires
        m.wf(),
        0 <= i < 160,
        0 <= j < m.buckets[i].len(),
    ensures
        bucket_of(m.owner, m.buckets[i][j].0) == i,
{
    assert(m.placed(m.buckets[i], i));
}

/// Every peer of a replacement cache sits in the cache of the bucket that
/// its id maps to.
pub proof fn lemma_cached_peer_in_its_bucket(m: TableModel, i: int, j: int)
    requires
        m.wf(),
        0 <= i < 160,
        0 <= j < m.caches[i].len(),
    ensures
        bucket_of(m.owner, m.caches[i][j].0) == i,
{
    assert(m.placed(m.caches[i], i));
}

/// No bucket holds more than `k` peers, and with `k` of two or more no
/// replacement cache holds more than `k / 2`.
pub proof fn lemma_capacity(m: TableModel, i: int)
    requires
        m.wf(),
        0 <= i < 160,
        m.k >= 2,
    ensures
        m.buckets[i].len() <= m.k,
        m.caches[i].len() <= m.k / 2,
{
    assert(m.placed(m.buckets[i], i));
    assert(m.placed(m.caches[i], i));
}

/// The owner's id is in no bucket and in no replacement cache.
pub proof fn lemma_owner_absent(m: TableModel, i: int)
    requires
        m.wf(),
        0 <= i < 160,
    ensures
        forall|j: int| 0 <= j < m.buckets[i].len() ==> (#[trigger] m.buckets[i][j]).0 != m.owner,
        forall|j: int| 0 <= j < m.caches[i].len() ==> (#[trigger] m.caches[i][j]).0 != m.owner,
{
    assert(m.placed(m.buckets[i], i));
    assert(m.placed(m.caches[i], i));
}

/// An empty table holds nothing twice.
pub proof fn lemma_empty_distinct(owner: NodeId, k: nat, now: u64)
    ensures
        TableModel::empty(owner, k, now).wf(),
        TableModel::empty(owner, k, now).distinct(),
{
}

/// An offer keeps the ids of a replacement cache distinct.
pub proof fn lemma_cache_put_distinct(c: Seq<PeerView>, id: NodeId, addr: Seq<char>, k: nat)
    requires
        ids_distinct(c),
    ensures
        ids_distinct(cache_put(c, id, addr, k)),
{
    lemma_position_from(c, id, 0);
    let out = cache_put(c, id, addr, k);
    let j = position(c, id);
    assert forall|x: int, y: int| 0 <= x < y < out.len() implies (#[trigger] out[x]).0 != (
    #[trigger] out[y]).0 by {
        if j < c.len() {
            assert(out[x].0 == c[x].0 && out[y].0 == c[y].0);
        } else if c.len() >= k / 2 && c.len() > 0 {
            assert(out[x] == c[x + 1]);
            if y < out.len() - 1 {
                assert(out[y] == c[y + 1]);
            }
        } else {
            assert(out[x] == c[x]);
            if y < out.len() - 1 {
                assert(out[y] == c[y]);
            }
        }
    }
}

/// `insert` never makes an id or an address occur twice in a bucket, nor an
/// id twice in a replacement cache.
pub proof fn lemma_insert_distinct(m: TableModel, id: NodeId, addr: Seq<char>, now: u64)
    requires
        m.wf(),
        m.distinct(),
    ensures
        m.insert(id, addr, now).distinct(),
{
    lemma_bucket_of_range(m.owner, id);
    let i = bucket_of(m.owner, id);
    let out = m.insert(id, addr, now);
    let bucket = m.buckets[i];
    let kept = purge(bucket, id, addr);
    if id != m.owner && !bucket.contains((id, addr)) {
        lemma_filter_distinct(bucket, no_conflict(id, addr));
        lemma_cache_put_distinct(m.caches[i], id, addr, m.k);
        assert(ids_distinct(bucket) && addrs_distinct(bucket));
        assert(ids_distinct(m.caches[i]));
        if kept.len() < m.k {
            let grown = kept.push((id, addr));
            assert forall|x: int, y: int| 0 <= x < y < grown.len() implies (#[trigger] grown[x]).0
                != (#[trigger] grown[y]).0 && grown[x].1 != grown[y].1 by {
                if y == kept.len() {
                    lemma_purge_members(bucket, id, addr, x);
                    assert(bucket.contains(kept[x]));
                    assert(kept[x] != (id, addr));
                } else {
                    assert(grown[x] == kept[x] && grown[y] == kept[y]);
                }
            }
        }
        assert forall|x: int| 0 <= x < 160 implies ids_distinct(#[trigger] out.buckets[x])
            && addrs_distinct(out.buckets[x]) by {
            if x != i {
                assert(out.buckets[x] == m.buckets[x]);
            }
        }
        assert forall|x: int| 0 <= x < 160 implies ids_distinct(#[trigger] out.caches[x]) by {
            if x != i {
                assert(out.caches[x] == m.caches[x]);
            }
        }
    }
}

/// `remove` never makes an id or an address occur twice.
pub proof fn lemma_remove_distinct(m: TableModel, id: NodeId)
    requires
        m.wf(),
        m.distinct(),
    ensures
        m.remove(id).distinct(),
{
    lemma_bucket_of_range(m.owner, id);
    let i = bucket_of(m.owner, id);
    let out = m.remove(id);
    lemma_filter_distinct(m.buckets[i], other_id(id));
    assert(ids_distinct(m.buckets[i]) && addrs_distinct(m.buckets[i]));
    assert forall|x: int| 0 <= x < 160 implies ids_distinct(#[trigger] out.buckets[x])
        && addrs_distinct(out.buckets[x]) by {
        if x != i {
            assert(out.buckets[x] == m.buckets[x]);
        }
    }
    assert forall|x: int| 0 <= x < 160 implies ids_distinct(#[trigger] out.caches[x]) by {
        assert(out.caches[x] == m.caches[x]);
    }
}

/// After `remove(id)` the bucket that `id` maps to holds no peer of that id.
pub proof fn lemma_remove_absent(m: TableModel, id: NodeId, j: int)
    requires
        m.wf(),
        0 <= j < m.remove(id).buckets[bucket_of(m.owner, id)].len(),
    ensures
        m.remove(id).buckets[bucket_of(m.owner, id)][j].0 != id,
{
    lemma_bucket_of_range(m.owner, id);
    let i = bucket_of(m.owner, id);
    m.buckets[i].lemma_filter_pred(other_id(id), j);
}

/// Whether the peer that `substitute_or_remove(id)` would promote from the
/// replacement cache shares its id or its address with a peer that stays in
/// the bucket.
pub open spec fn promotion_clashes(m: TableModel, id: NodeId) -> bool {
    let i = bucket_of(m.owner, id);
    let bucket = m.buckets[i];
    let cache = m.caches[i];
    let at = position(bucket, id);
    at < bucket.len() && cache.len() > 0 && exists|j: int|
        0 <= j < bucket.len() && j != at && ((#[trigger] bucket[j]).0 == cache[0].0 || bucket[j].1
            == cache[0].1)
}

/// `substitute_or_remove` never makes an id or an address occur twice,
/// unless the peer it promotes is already in the bucket under that id or
/// that address.
pub proof fn lemma_substitute_distinct(m: TableModel, id: NodeId)
    requires
        m.wf(),
        m.distinct(),
        !promotion_clashes(m, id),
    ensures
        m.substitute_or_remove(id).distinct(),
{
    lemma_bucket_of_range(m.owner, id);
    let i = bucket_of(m.owner, id);
    let out = m.substitute_or_remove(id);
    let bucket = m.buckets[i];
    let cache = m.caches[i];
    let at = position(bucket, id);
    lemma_position_from(bucket, id, 0);
    assert(ids_distinct(bucket) && addrs_distinct(bucket));
    assert(ids_distinct(cache));
    if at < bucket.len() {
        let b = out.buckets[i];
        let c = out.caches[i];
        assert forall|x: int, y: int| 0 <= x < y < b.len() implies (#[trigger] b[x]).0 != (
        #[trigger] b[y]).0 && b[x].1 != b[y].1 by {
            if cache.len() > 0 {
                if x != at {
                    assert(b[x] == bucket[x]);
                }
                if y != at {
                    assert(b[y] == bucket[y]);
                }
            } else {
                let x0 = if x < at { x } else { x + 1 };
                let y0 = if y < at { y } else { y + 1 };
                assert(b[x] == bucket[x0] && b[y] == bucket[y0]);
            }
        }
        assert forall|x: int, y: int| 0 <= x < y < c.len() implies (#[trigger] c[x]).0 != (
        #[trigger] c[y]).0 by {
            if cache.len() > 0 {
                assert(c[x] == cache[x + 1] && c[y] == cache[y + 1]);
            }
        }
        assert forall|x: int| 0 <= x < 160 implies ids_distinct(#[trigger] out.buckets[x])
            && addrs_distinct(out.buckets[x]) by {
            if x != i {
                assert(out.buckets[x] == m.buckets[x]);
            }
        }
        assert forall|x: int| 0 <= x < 160 implies ids_distinct(#[trigger] out.caches[x]) by {
            if x != i {
                assert(out.caches[x] == m.caches[x]);
            }
        }
    }
}

/// Inserting the same pair again changes no bucket and no replacement cache;
/// only the stamps may move.
pub proof fn lemma_insert_idempotent(
    m: TableModel,
    id: NodeId,
    addr: Seq<char>,
    first: u64,
    second: u64,
)
    requires
        m.wf(),
    ensures
        m.insert(id, addr, first).insert(id, addr, second).buckets == m.insert(
            id,
            addr,
            first,
        ).buckets,
        m.insert(id, addr, first).insert(id, addr, second).caches == m.insert(
            id,
            addr,
            first,
        ).caches,
{
    lemma_bucket_of_range(m.owner, id);
    let i = bucket_of(m.owner, id);
    let once = m.insert(id, addr, first);
    let twice = once.insert(id, addr, second);
    let bucket = m.buckets[i];
    let kept = purge(bucket, id, addr);
    if id != m.owner && !bucket.contains((id, addr)) {
        if kept.len() < m.k {
            let grown = kept.push((id, addr));
            assert(grown[kept.len() as int] == (id, addr));
            assert(once.buckets[i].contains((id, addr)));
        } else {
            assert(once.buckets[i] == kept);
            if kept.contains((id, addr)) {
                kept.lemma_filter_contains_rev(no_conflict(id, addr), (id, addr));
                bucket.lemma_filter_contains_rev(no_conflict(id, addr), (id, addr));
            }
            assert forall|j: int| 0 <= j < kept.len() implies no_conflict(id, addr)(
                #[trigger] kept[j],
            ) by {
                bucket.lemma_filter_pred(no_conflict(id, addr), j);
            }
            lemma_filter_all(kept, no_conflict(id, addr));
            let c = m.caches[i];
            let c1 = cache_put(c, id, addr, m.k);
            lemma_position_from(c, id, 0);
            lemma_cache_put_position(c, id, addr, m.k);
            let at = position(c1, id);
            assert(c1.update(at, (id, addr)) =~= c1);
            assert(cache_put(c1, id, addr, m.k) == c1);
            assert(twice.buckets =~= once.buckets);
            assert(twice.caches =~= once.caches);
        }
    }
}

/// After an offer the cache holds the pair, at the first position that has
/// its id.
pub proof fn lemma_cache_put_position(c: Seq<PeerView>, id: NodeId, addr: Seq<char>, k: nat)
    ensures
        0 <= position(cache_put(c, id, addr, k), id) < cache_put(c, id, addr, k).len(),
        cache_put(c, id, addr, k)[position(cache_put(c, id, addr, k), id)] == (id, addr),
{
    let out = cache_put(c, id, addr, k);
    let j = position(c, id);
    lemma_position_from(c, id, 0);
    lemma_position_from(out, id, 0);
    let at = position(out, id);
    if j < c.len() {
        assert(out[j].0 == id);
        if at < j {
            assert(out[at] == c[at]);
        }
    } else if c.len() >= k / 2 && c.len() > 0 {
        assert(out[out.len() - 1].0 == id);
        if at < out.len() - 1 {
            assert(out[at] == c[at + 1]);
        }
    } else {
        assert(out[out.len() - 1].0 == id);
        if at < out.len() - 1 {
            assert(out[at] == c[at]);
        }
    }
}

/// Inserting an id that the bucket holds under another address, and not yet
/// under the new one, leaves one entry of that id: the last of the bucket,
/// with the new address. No other entry has the new address.
pub proof fn lemma_insert_replaces_address(
    m: TableModel,
    id: NodeId,
    addr: Seq<char>,
    now: u64,
    at: int,
)
    requires
        m.wf(),
        id != m.owner,
        0 <= at < m.buckets[bucket_of(m.owner, id)].len(),
        m.buckets[bucket_of(m.owner, id)][at].0 == id,
        m.buckets[bucket_of(m.owner, id)][at].1 != addr,
        !m.buckets[bucket_of(m.owner, id)].contains((id, addr)),
    ensures
        ({
            let after = m.insert(id, addr, now).buckets[bucket_of(m.owner, id)];
            &&& after.len() > 0
            &&& after.last() == (id, addr)
            &&& forall|j: int|
                0 <= j < after.len() - 1 ==> (#[trigger] after[j]).0 != id && after[j].1 != addr
        }),
{
    lemma_bucket_of_range(m.owner, id);
    let i = bucket_of(m.owner, id);
    let bucket = m.buckets[i];
    let kept = purge(bucket, id, addr);
    lemma_filter_drops(bucket, no_conflict(id, addr), at);
    assert(m.placed(bucket, i));
    let after = m.insert(id, addr, now).buckets[i];
    assert(after == kept.push((id, addr)));
    assert forall|j: int| 0 <= j < after.len() - 1 implies (#[trigger] after[j]).0 != id
        && after[j].1 != addr by {
        lemma_purge_members(bucket, id, addr, j);
        assert(after[j] == kept[j]);
    }
}

/// Inserting a peer whose id and address are new to a full bucket leaves
/// every bucket as it was and puts the peer into the bucket's replacement
/// cache.
pub proof fn lemma_insert_into_full_bucket(m: TableModel, id: NodeId, addr: Seq<char>, now: u64)
    requires
        m.wf(),
        id != m.owner,
        m.buckets[bucket_of(m.owner, id)].len() == m.k,
        forall|j: int|
            0 <= j < m.buckets[bucket_of(m.owner, id)].len() ==> (
            #[trigger] m.buckets[bucket_of(m.owner, id)][j]).0 != id && m.buckets[bucket_of(
                m.owner,
                id,
            )][j].1 != addr,
    ensures
        m.insert(id, addr, now).buckets == m.buckets,
        m.insert(id, addr, now).last_touched == m.last_touched,
        m.insert(id, addr, now).caches[bucket_of(m.owner, id)].contains((id, addr)),
        forall|x: int|
            0 <= x < 160 && x != bucket_of(m.owner, id) ==> m.insert(id, addr, now).caches[x]
                == m.caches[x],
{
    lemma_bucket_of_range(m.owner, id);
    let i = bucket_of(m.owner, id);
    let bucket = m.buckets[i];
    assert forall|j: int| 0 <= j < bucket.len() implies no_conflict(id, addr)(
        #[trigger] bucket[j],
    ) by {}
    lemma_filter_all(bucket, no_conflict(id, addr));
    if bucket.contains((id, addr)) {
        let j = choose|j: int| 0 <= j < bucket.len() && bucket[j] == (id, addr);
        assert(bucket[j].0 == id);
    }
    let out = m.insert(id, addr, now);
    assert(out.buckets =~= m.buckets);
    lemma_cache_put_position(m.caches[i], id, addr, m.k);
    let cache = cache_put(m.caches[i], id, addr, m.k);
    assert(out.caches[i] == cache);
    assert(cache[position(cache, id)] == (id, addr));
}

/// Whether `s` is in order of distance to `target`, closest first.
pub open spec fn ordered_by_distance(s: Seq<PeerView>, target: NodeId) -> bool {
    forall|x: int, y: int|
        0 <= x < y < s.len() ==> distance((#[trigger] s[x]).0, target) <= distance(
            (#[trigger] s[y]).0,
            target,
        )
}

/// The insertion point lies behind every peer that is as close as the new
/// one and before one that is farther.
pub proof fn lemma_insertion_point(s: Seq<PeerView>, p: PeerView, target: NodeId, from: int)
    requires
        0 <= from <= s.len(),
    ensures
        from <= insertion_point(s, p, target, from) <= s.len(),
        forall|x: int|
            from <= x < insertion_point(s, p, target, from) ==> distance(
                (#[trigger] s[x]).0,
                target,
            ) <= distance(p.0, target),
        insertion_point(s, p, target, from) < s.len() ==> distance(p.0, target) < distance(
            s[insertion_point(s, p, target, from)].0,
            target,
        ),
    decreases s.len() - from,
{
    if from < s.len() && !(distance(p.0, target) < distance(s[from].0, target)) {
        lemma_insertion_point(s, p, target, from + 1);
    }
}

/// Sorting by distance gives a sequence in order of distance that holds
/// exactly the peers of the input, each as often as the input does.
pub proof fn lemma_sorted_by_distance(s: Seq<PeerView>, target: NodeId)
    ensures
        ordered_by_distance(sorted_by_distance(s, target), target),
        sorted_by_distance(s, target).to_multiset() == s.to_multiset(),
        sorted_by_distance(s, target).len() == s.len(),
    decreases s.len(),
{
    broadcast use vstd::seq_lib::to_multiset_insert, vstd::seq_lib::to_multiset_build;

    if s.len() > 0 {
        let head = s.drop_last();
        let p = s.last();
        let rest = sorted_by_distance(head, target);
        lemma_sorted_by_distance(head, target);
        lemma_insertion_point(rest, p, target, 0);
        let at = insertion_point(rest, p, target, 0);
        let out = rest.insert(at, p);
        assert forall|x: int, y: int| 0 <= x < y < out.len() implies distance(
            (#[trigger] out[x]).0,
            target,
        ) <= distance((#[trigger] out[y]).0, target) by {
            let x0 = if x < at { x } else { x - 1 };
            let y0 = if y < at { y } else { y - 1 };
            if x == at {
                assert(out[y] == rest[y0]);
                if at < y0 {
                    assert(distance(rest[at].0, target) <= distance(rest[y0].0, target));
                }
            } else if y == at {
                assert(out[x] == rest[x0]);
            } else {
                assert(out[x] == rest[x0] && out[y] == rest[y0]);
            }
        }
        assert(head.push(p) =~= s);
        assert(rest.insert(at, p).to_multiset() =~= rest.to_multiset().insert(p));
        assert(head.push(p).to_multiset() =~= head.to_multiset().insert(p));
    } else {
        assert(sorted_by_distance(s, target) =~= s);
    }
}

/// `find_closest(target, n)` returns `n` peers, or all if there are fewer,
/// in order of distance to `target`; they are the first of the table's peers
/// in that order, so none of the peers left out is closer than one returned.
pub proof fn lemma_closest(m: TableModel, target: NodeId, n: nat)
    ensures
        ({
            let all = sorted_by_distance(m.peers(), target);
            let found = m.closest(target, n);
            &&& found.len() == if n < m.peers().len() {
                n
            } else {
                m.peers().len()
            }
            &&& ordered_by_distance(found, target)
            &&& all.to_multiset() == m.peers().to_multiset()
            &&& found == all.take(found.len() as int)
            &&& forall|x: int, y: int|
                0 <= x < found.len() <= y < all.len() ==> distance((#[trigger] found[x]).0, target)
                    <= distance((#[trigger] all[y]).0, target)
        }),
{
    let all = sorted_by_distance(m.peers(), target);
    let found = m.closest(target, n);
    lemma_sorted_by_distance(m.peers(), target);
    assert(all.take(all.len() as int) =~= all);
    assert forall|x: int, y: int| 0 <= x < y < found.len() implies distance(
        (#[trigger] found[x]).0,
        target,
    ) <= distance((#[trigger] found[y]).0, target) by {
        assert(found[x] == all[x] && found[y] == all[y]);
    }
    assert forall|x: int, y: int| 0 <= x < found.len() <= y < all.len() implies distance(
        (#[trigger] found[x]).0,
        target,
    ) <= distance((#[trigger] all[y]).0, target) by {
        assert(found[x] == all[x]);
    }
}

/// The first `n` buckets of a snapshot hold the peers of the first `n`
/// buckets.
proof fn lemma_snapshot_prefix(m: TableModel, n: int)
    requires
        0 <= n <= m.buckets.len(),
    ensures
        untagged(Seq::new(m.buckets.len(), |i: int| m.tagged(i)).take(n).flatten())
            == m.buckets.take(n).flatten(),
    decreases n,
{
    let rows = Seq::new(m.buckets.len(), |i: int| m.tagged(i));
    if n == 0 {
        assert(rows.take(0) =~= Seq::<Seq<(usize, NodeId, Seq<char>)>>::empty());
        assert(m.buckets.take(0) =~= Seq::<Seq<PeerView>>::empty());
        assert(untagged(rows.take(0).flatten()) =~= m.buckets.take(0).flatten());
    } else {
        lemma_snapshot_prefix(m, n - 1);
        let row = rows[n - 1];
        let bucket = m.buckets[n - 1];
        assert(rows.take(n) =~= rows.take(n - 1).push(row));
        assert(m.buckets.take(n) =~= m.buckets.take(n - 1).push(bucket));
        rows.take(n - 1).lemma_flatten_push(row);
        m.buckets.take(n - 1).lemma_flatten_push(bucket);
        assert(untagged(row) =~= bucket);
        assert(untagged(rows.take(n - 1).flatten() + row) =~= untagged(rows.take(n - 1).flatten())
            + untagged(row));
    }
}

/// A snapshot lists the peers of the main buckets, in the same order.
pub proof fn lemma_snapshot_lists_peers(m: TableModel)
    ensures
        untagged(m.all_nodes()) == m.peers(),
{
    let rows = Seq::new(m.buckets.len(), |i: int| m.tagged(i));
    lemma_snapshot_prefix(m, m.buckets.len() as int);
    assert(rows.take(m.buckets.len() as int) =~= rows);
    assert(m.buckets.take(m.buckets.len() as int) =~= m.buckets);
}

} // verus!
