//! The wire codec: one message is one frame, a big-endian 32-bit length
//! followed by that many bytes of payload.
//!
//! The payload starts with the message's variant as a little-endian `u32`
//! (`Ping` 0, `Pong` 1, `FindNode` 2, `FoundNodes` 3). An id is its twenty
//! bytes, a port a little-endian `u16`; a list is its length as a
//! little-endian `u64` followed by its entries, and an address is the length
//! of its UTF-8 encoding as a little-endian `u64` followed by those bytes.
//! This is the layout that the `bincode` crate gives such an enum with its
//! fixed-width little-endian settings, so peers that encode with it are
//! understood. The decoder is strict: it accepts a payload only if encoding
//! the message gives the same bytes back.
//!
//! Reading from and writing to a stream is the caller's business; the codec
//! works on bytes.

use crate::kad_id::{be_value, lemma_id_ext, node_id_from_bytes, NodeId};
use crate::protocol::{Message, MessageView, PeerView};
use vstd::bytes::{
    lemma_auto_spec_u16_to_from_le_bytes, lemma_auto_spec_u32_to_from_le_bytes,
    lemma_auto_spec_u64_to_from_le_bytes, spec_u16_from_le_bytes, spec_u16_to_le_bytes,
    spec_u32_from_le_bytes, spec_u32_to_le_bytes, spec_u64_from_le_bytes, spec_u64_to_le_bytes,
    u16_from_le_bytes, u16_to_le_bytes, u32_from_le_bytes, u32_to_le_bytes, u64_from_le_bytes,
    u64_to_le_bytes,
};
use vstd::prelude::*;
use vstd::slice::{slice_subrange, slice_to_vec};
use vstd::utf8::{
    decode_utf8, decode_utf8_encode_utf8, encode_utf8, encode_utf8_decode_utf8,
    encode_utf8_valid_utf8, valid_utf8,
};

verus! {

/// Why a frame could not be read.
#[derive(Debug, Clone, Copy, PartialEq, Eq, Structural)]
pub enum WireError {
    /// The stream ended before the frame did.
    Transport,
    /// The payload is not the encoding of a message.
    Decode,
}

/// The identifier with the given bytes.
pub open spec fn id_from(s: Seq<u8>) -> NodeId {
    choose|id: NodeId| id.0@ == s
}

/// An address on the wire: the length of its UTF-8 encoding, then the
/// encoding.
pub open spec fn text_bytes(addr: Seq<char>) -> Seq<u8> {
    spec_u64_to_le_bytes(encode_utf8(addr).len() as u64) + encode_utf8(addr)
}

/// A peer on the wire: its id, then its address.
pub open spec fn peer_bytes(p: PeerView) -> Seq<u8> {
    p.0.0@ + text_bytes(p.1)
}

/// The peers of a list on the wire, one after the other.
pub open spec fn peers_bytes(ps: Seq<PeerView>) -> Seq<u8>
    decreases ps.len(),
{
    if ps.len() == 0 {
        Seq::empty()
    } else {
        peer_bytes(ps[0]) + peers_bytes(ps.drop_first())
    }
}

/// The payload that carries a message.
pub open spec fn payload_of(m: MessageView) -> Seq<u8> {
    match m {
        MessageView::Ping(id, port) => spec_u32_to_le_bytes(0) + id.0@ + spec_u16_to_le_bytes(port),
        MessageView::Pong(id, port) => spec_u32_to_le_bytes(1) + id.0@ + spec_u16_to_le_bytes(port),
        MessageView::FindNode(id) => spec_u32_to_le_bytes(2) + id.0@,
        MessageView::FoundNodes(ps) => spec_u32_to_le_bytes(3) + spec_u64_to_le_bytes(
            ps.len() as u64,
        ) + peers_bytes(ps),
    }
}

/// Whether the lengths in a message fit the 64-bit fields that carry them.
/// This holds of every message that a program can hold.
pub open spec fn encodable(m: MessageView) -> bool {
    m matches MessageView::FoundNodes(ps) ==> {
        &&& ps.len() <= u64::MAX
        &&& forall|i: int| 0 <= i < ps.len() ==> encode_utf8((#[trigger] ps[i]).1).len() <= u64::MAX
    }
}

/// The four bytes of a frame's length prefix.
pub open spec fn be32(n: u32) -> Seq<u8> {
    seq![
        (n / 0x100_0000) as u8,
        (n / 0x1_0000 % 0x100) as u8,
        (n / 0x100 % 0x100) as u8,
        (n % 0x100) as u8,
    ]
}

/// The frame that carries a message.
pub open spec fn frame_of(m: MessageView) -> Seq<u8> {
    be32(payload_of(m).len() as u32) + payload_of(m)
}

/// Reads one peer off the front of `b`; gives the peer and what follows it.
pub open spec fn parse_peer(b: Seq<u8>) -> Option<(PeerView, Seq<u8>)> {
    if b.len() < 28 {
        None
    } else {
        let n = spec_u64_from_le_bytes(b.subrange(20, 28)) as int;
        if b.len() - 28 < n {
            None
        } else if !valid_utf8(b.subrange(28, 28 + n)) {
            None
        } else {
            Some(((id_from(b.take(20)), decode_utf8(b.subrange(28, 28 + n))), b.skip(28 + n)))
        }
    }
}

/// Reads `n` peers off the front of `b` and appends them to `acc`; gives
/// the list and what follows the peers.
pub open spec fn parse_peers(b: Seq<u8>, n: nat, acc: Seq<PeerView>) -> Option<
    (Seq<PeerView>, Seq<u8>),
>
    decreases n,
{
    if n == 0 {
        Some((acc, b))
    } else {
        match parse_peer(b) {
            Some((p, rest)) => parse_peers(rest, (n - 1) as nat, acc.push(p)),
            None => None,
        }
    }
}

/// The message that a payload carries; `None` if the bytes are not the
/// payload of any message.
pub open spec fn parse_payload(b: Seq<u8>) -> Option<MessageView> {
    if b.len() < 4 {
        None
    } else {
        let tag = spec_u32_from_le_bytes(b.take(4));
        let body = b.skip(4);
        if tag == 0 {
            if body.len() != 22 {
                None
            } else {
                Some(
                    MessageView::Ping(id_from(body.take(20)), spec_u16_from_le_bytes(body.skip(20))),
                )
            }
        } else if tag == 1 {
            if body.len() != 22 {
                None
            } else {
                Some(
                    MessageView::Pong(id_from(body.take(20)), spec_u16_from_le_bytes(body.skip(20))),
                )
            }
        } else if tag == 2 {
            if body.len() != 20 {
                None
            } else {
                Some(MessageView::FindNode(id_from(body)))
            }
        } else if tag == 3 {
            if body.len() < 8 {
                None
            } else {
                match parse_peers(
                    body.skip(8),
                    spec_u64_from_le_bytes(body.take(8)) as nat,
                    Seq::empty(),
                ) {
                    Some((ps, rest)) => if rest.len() == 0 {
                        Some(MessageView::FoundNodes(ps))
                    } else {
                        None
                    },
                    None => None,
                }
            }
        } else {
            None
        }
    }
}

/// What reading one frame off the front of `b` gives: `Transport` if `b`
/// ends before the frame does, `Decode` if the payload carries no message.
/// Bytes behind the frame are not looked at.
pub open spec fn parse_frame(b: Seq<u8>) -> Result<MessageView, WireError> {
    if b.len() < 4 {
        Err(WireError::Transport)
    } else if b.len() - 4 < be_value(b.take(4)) {
        Err(WireError::Transport)
    } else {
        match parse_payload(b.subrange(4, 4 + be_value(b.take(4)) as int)) {
            Some(m) => Ok(m),
            None => Err(WireError::Decode),
        }
    }
}

/// `id_from` finds the identifier that the bytes came from.
pub proof fn lemma_id_from(id: NodeId)
    ensures
        id_from(id.0@) == id,
{
    let found = id_from(id.0@);
    assert(found.0@ == id.0@);
    lemma_id_ext(found, id);
}

/// The length prefix holds its number.
pub proof fn lemma_be32(n: u32)
    ensures
        be32(n).len() == 4,
        be_value(be32(n)) == n,
{
    let s = be32(n);
    let s3 = s.drop_last();
    let s2 = s3.drop_last();
    let s1 = s2.drop_last();
    assert(s1.drop_last().len() == 0);
    assert(be_value(s1) == s[0]) by {
        reveal_with_fuel(be_value, 2);
    }
    assert(be_value(s2) == be_value(s1) * 256 + s[1]);
    assert(be_value(s3) == be_value(s2) * 256 + s[2]);
    assert(be_value(s) == be_value(s3) * 256 + s[3]);
}

/// Appending a peer to a list appends its bytes.
pub proof fn lemma_peers_bytes_push(ps: Seq<PeerView>, p: PeerView)
    ensures
        peers_bytes(ps.push(p)) == peers_bytes(ps) + peer_bytes(p),
    decreases ps.len(),
{
    let all = ps.push(p);
    if ps.len() == 0 {
        assert(all.drop_first() =~= Seq::<PeerView>::empty());
        assert(peers_bytes(all.drop_first()) =~= Seq::<u8>::empty());
        assert(peers_bytes(ps) =~= Seq::<u8>::empty());
        assert(peers_bytes(all) =~= peers_bytes(ps) + peer_bytes(p));
    } else {
        assert(all.drop_first() =~= ps.drop_first().push(p));
        lemma_peers_bytes_push(ps.drop_first(), p);
        assert(peers_bytes(all) =~= peers_bytes(ps) + peer_bytes(p));
    }
}

/// Reading a peer off its own bytes gives the peer back, and leaves what
/// followed the bytes.
pub proof fn lemma_parse_peer_round_trip(p: PeerView, tail: Seq<u8>)
    requires
        encode_utf8(p.1).len() <= u64::MAX,
    ensures
        parse_peer(peer_bytes(p) + tail) == Some((p, tail)),
{
    lemma_auto_spec_u64_to_from_le_bytes();
    let text = encode_utf8(p.1);
    let n = text.len() as u64;
    let b = peer_bytes(p) + tail;
    assert(spec_u64_to_le_bytes(n).len() == 8);
    assert(p.0.0@.len() == 20);
    assert(b.take(20) =~= p.0.0@);
    assert(b.subrange(20, 28) =~= spec_u64_to_le_bytes(n));
    assert(b.subrange(28, 28 + n as int) =~= text);
    assert(b.skip(28 + n as int) =~= tail);
    encode_utf8_valid_utf8(p.1);
    encode_utf8_decode_utf8(p.1);
    lemma_id_from(p.0);
}

/// Reading a list of peers off its own bytes gives the list back, and
/// leaves what followed the bytes.
pub proof fn lemma_parse_peers_round_trip(ps: Seq<PeerView>, tail: Seq<u8>, acc: Seq<PeerView>)
    requires
        forall|i: int| 0 <= i < ps.len() ==> encode_utf8((#[trigger] ps[i]).1).len() <= u64::MAX,
    ensures
        parse_peers(peers_bytes(ps) + tail, ps.len(), acc) == Some((acc + ps, tail)),
    decreases ps.len(),
{
    if ps.len() == 0 {
        assert(peers_bytes(ps) + tail =~= tail);
        assert(acc + ps =~= acc);
    } else {
        let rest = ps.drop_first();
        let after = peers_bytes(rest) + tail;
        assert(peers_bytes(ps) + tail =~= peer_bytes(ps[0]) + after);
        lemma_parse_peer_round_trip(ps[0], after);
        assert forall|i: int| 0 <= i < rest.len() implies encode_utf8((#[trigger] rest[i]).1).len()
            <= u64::MAX by {
            assert(rest[i] == ps[i + 1]);
        }
        lemma_parse_peers_round_trip(rest, tail, acc.push(ps[0]));
        assert(acc.push(ps[0]) + rest =~= acc + ps);
    }
}

/// Every message is read back from its own payload.
pub proof fn lemma_payload_round_trip(m: MessageView)
    requires
        encodable(m),
    ensures
        parse_payload(payload_of(m)) == Some(m),
{
    lemma_auto_spec_u16_to_from_le_bytes();
    lemma_auto_spec_u32_to_from_le_bytes();
    lemma_auto_spec_u64_to_from_le_bytes();
    let b = payload_of(m);
    match m {
        MessageView::Ping(id, port) => {
            assert(b.take(4) =~= spec_u32_to_le_bytes(0));
            assert(b.skip(4).take(20) =~= id.0@);
            assert(b.skip(4).skip(20) =~= spec_u16_to_le_bytes(port));
            lemma_id_from(id);
        },
        MessageView::Pong(id, port) => {
            assert(b.take(4) =~= spec_u32_to_le_bytes(1));
            assert(b.skip(4).take(20) =~= id.0@);
            assert(b.skip(4).skip(20) =~= spec_u16_to_le_bytes(port));
            lemma_id_from(id);
        },
        MessageView::FindNode(id) => {
            assert(b.take(4) =~= spec_u32_to_le_bytes(2));
            assert(b.skip(4) =~= id.0@);
            lemma_id_from(id);
        },
        MessageView::FoundNodes(ps) => {
            assert(b.take(4) =~= spec_u32_to_le_bytes(3));
            assert(b.skip(4).take(8) =~= spec_u64_to_le_bytes(ps.len() as u64));
            assert(b.skip(4).skip(8) =~= peers_bytes(ps) + Seq::<u8>::empty());
            lemma_parse_peers_round_trip(ps, Seq::empty(), Seq::empty());
            assert(Seq::<PeerView>::empty() + ps =~= ps);
        },
    }
}

/// Every message whose payload fits a frame is read back from its own
/// frame, whatever follows the frame.
pub proof fn lemma_frame_round_trip(m: MessageView, tail: Seq<u8>)
    requires
        encodable(m),
        payload_of(m).len() <= u32::MAX,
    ensures
        parse_frame(frame_of(m) + tail) == Ok::<MessageView, WireError>(m),
{
    let payload = payload_of(m);
    let n = payload.len() as u32;
    let b = frame_of(m) + tail;
    lemma_be32(n);
    assert(b.take(4) =~= be32(n));
    assert(b.subrange(4, 4 + n as int) =~= payload);
    lemma_payload_round_trip(m);
}

/// Some array holds the first `n` bytes of `s`.
proof fn lemma_bytes_held(s: Seq<u8>, n: int) -> (a: [u8; 20])
    requires
        s.len() == 20,
        0 <= n <= 20,
    ensures
        forall|j: int| 0 <= j < n ==> a@[j] == s[j],
    decreases n,
{
    if n == 0 {
        arbitrary()
    } else {
        let before = lemma_bytes_held(s, n - 1);
        let a = vstd::array::spec_array_update(before, n - 1, s[n - 1]);
        assert(a@ == before@.update(n - 1, s[n - 1]));
        a
    }
}

/// Every twenty bytes are the bytes of an identifier, which `id_from`
/// finds.
pub proof fn lemma_id_from_bytes(s: Seq<u8>)
    requires
        s.len() == 20,
    ensures
        id_from(s).0@ == s,
{
    let a = lemma_bytes_held(s, 20);
    let id = NodeId(a);
    assert(id.0@ =~= s);
}

/// The four bytes of a length prefix are the prefix of the number they
/// hold.
pub proof fn lemma_be32_of_value(s: Seq<u8>)
    requires
        s.len() == 4,
    ensures
        be_value(s) <= u32::MAX,
        be32(be_value(s) as u32) == s,
{
    let s3 = s.drop_last();
    let s2 = s3.drop_last();
    let s1 = s2.drop_last();
    assert(s1.drop_last().len() == 0);
    assert(be_value(s1) == s[0]) by {
        reveal_with_fuel(be_value, 2);
    }
    assert(be_value(s2) == be_value(s1) * 256 + s[1]);
    assert(be_value(s3) == be_value(s2) * 256 + s[2]);
    assert(be_value(s) == be_value(s3) * 256 + s[3]);
    assert(be32(be_value(s) as u32) =~= s);
}

/// A peer that was read off the front of `b` has the bytes that were read.
pub proof fn lemma_parse_peer_sound(b: Seq<u8>)
    requires
        parse_peer(b) is Some,
    ensures
        ({
            let (p, rest) = parse_peer(b)->0;
            &&& b == peer_bytes(p) + rest
            &&& encode_utf8(p.1).len() <= u64::MAX
        }),
{
    lemma_auto_spec_u64_to_from_le_bytes();
    let n = spec_u64_from_le_bytes(b.subrange(20, 28));
    let text = b.subrange(28, 28 + n as int);
    let (p, rest) = parse_peer(b)->0;
    lemma_id_from_bytes(b.take(20));
    decode_utf8_encode_utf8(text);
    assert(encode_utf8(p.1) == text);
    assert(spec_u64_to_le_bytes(n) == b.subrange(20, 28));
    assert(b =~= b.take(20) + b.subrange(20, 28) + text + rest);
}

/// Peers that were read off the front of `b` have the bytes that were read.
pub proof fn lemma_parse_peers_sound(b: Seq<u8>, n: nat, acc: Seq<PeerView>)
    requires
        parse_peers(b, n, acc) is Some,
    ensures
        ({
            let (ps, rest) = parse_peers(b, n, acc)->0;
            &&& ps.len() == acc.len() + n
            &&& ps.take(acc.len() as int) == acc
            &&& b == peers_bytes(ps.skip(acc.len() as int)) + rest
            &&& forall|i: int|
                acc.len() <= i < ps.len() ==> encode_utf8((#[trigger] ps[i]).1).len() <= u64::MAX
        }),
    decreases n,
{
    let (ps, rest) = parse_peers(b, n, acc)->0;
    if n == 0 {
        assert(ps.take(acc.len() as int) =~= acc);
        assert(ps.skip(acc.len() as int) =~= Seq::<PeerView>::empty());
        assert(b =~= peers_bytes(ps.skip(acc.len() as int)) + rest);
    } else {
        let (p, after) = parse_peer(b)->0;
        lemma_parse_peer_sound(b);
        lemma_parse_peers_sound(after, (n - 1) as nat, acc.push(p));
        let grown = acc.push(p);
        assert(ps.take(grown.len() as int) == grown);
        assert(ps[acc.len() as int] == grown[acc.len() as int]);
        assert(ps.take(acc.len() as int) =~= acc) by {
            assert forall|i: int| 0 <= i < acc.len() implies ps[i] == acc[i] by {
                assert(ps.take(grown.len() as int)[i] == grown[i]);
            }
        }
        let tail = ps.skip(acc.len() as int);
        assert(tail[0] == p);
        assert(tail.drop_first() =~= ps.skip(grown.len() as int));
        assert(b =~= peers_bytes(tail) + rest);
        assert forall|i: int| acc.len() <= i < ps.len() implies encode_utf8(
            (#[trigger] ps[i]).1,
        ).len() <= u64::MAX by {
            if i == acc.len() {
            }
        }
    }
}

/// A payload that carries a message is the payload of that message: the
/// decoder accepts nothing but what the encoder writes.
pub proof fn lemma_parse_payload_sound(b: Seq<u8>)
    requires
        parse_payload(b) is Some,
    ensures
        payload_of(parse_payload(b)->0) == b,
        encodable(parse_payload(b)->0),
{
    lemma_auto_spec_u16_to_from_le_bytes();
    lemma_auto_spec_u32_to_from_le_bytes();
    lemma_auto_spec_u64_to_from_le_bytes();
    let tag = spec_u32_from_le_bytes(b.take(4));
    let body = b.skip(4);
    assert(spec_u32_to_le_bytes(tag) == b.take(4));
    assert(b =~= b.take(4) + body);
    if tag == 0 || tag == 1 {
        lemma_id_from_bytes(body.take(20));
        assert(spec_u16_to_le_bytes(spec_u16_from_le_bytes(body.skip(20))) == body.skip(20));
        assert(body =~= body.take(20) + body.skip(20));
        assert(payload_of(parse_payload(b)->0) =~= b);
    } else if tag == 2 {
        lemma_id_from_bytes(body);
        assert(payload_of(parse_payload(b)->0) =~= b);
    } else {
        let n = spec_u64_from_le_bytes(body.take(8));
        lemma_parse_peers_sound(body.skip(8), n as nat, Seq::empty());
        let (ps, rest) = parse_peers(body.skip(8), n as nat, Seq::empty())->0;
        assert(ps.skip(0) =~= ps);
        assert(spec_u64_to_le_bytes(n) == body.take(8));
        assert(body =~= body.take(8) + body.skip(8));
        assert(body.skip(8) =~= peers_bytes(ps));
        assert(payload_of(parse_payload(b)->0) =~= b);
    }
}

/// A frame that was read off the front of `b` is the frame of the message
/// that was read.
pub proof fn lemma_parse_frame_sound(b: Seq<u8>)
    requires
        parse_frame(b) is Ok,
    ensures
        frame_of(parse_frame(b)->Ok_0).len() <= b.len(),
        b.take(frame_of(parse_frame(b)->Ok_0).len() as int) == frame_of(parse_frame(b)->Ok_0),
{
    let header = b.take(4);
    let n = be_value(header);
    let payload = b.subrange(4, 4 + n as int);
    lemma_be32_of_value(header);
    lemma_parse_payload_sound(payload);
    let m = parse_frame(b)->Ok_0;
    assert(payload_of(m) == payload);
    assert(b.take(4 + n as int) =~= header + payload);
}

/// Appends `src` to `out`.
fn push_bytes(out: &mut Vec<u8>, src: &[u8])
    ensures
        final(out)@ == old(out)@ + src@,
{
    let ghost before = out@;
    let mut i: usize = 0;
    assert(out@ =~= before + src@.take(0));
    while i < src.len()
        invariant
            i <= src.len(),
            out@ == before + src@.take(i as int),
        decreases src.len() - i,
    {
        out.push(src[i]);
        assert(out@ =~= before + src@.take(i as int + 1));
        i = i + 1;
    }
    assert(src@.take(i as int) =~= src@);
}

/// `String::from_utf8`: a string exactly when the bytes are valid UTF-8,
/// and then the string whose UTF-8 encoding is those bytes.
#[verifier::external_body]
fn string_from_utf8(bytes: Vec<u8>) -> (s: Option<String>)
    ensures
        s is Some <==> valid_utf8(bytes@),
        s matches Some(t) ==> encode_utf8(t@) == bytes@,
{
    String::from_utf8(bytes).ok()
}

/// The payload that carries `msg`.
pub fn encode_payload(msg: &Message) -> (out: Vec<u8>)
    ensures
        out@ == payload_of(msg@),
        encodable(msg@),
{
    match msg {
        Message::Ping(id, port) => {
            let mut out = u32_to_le_bytes(0);
            push_bytes(&mut out, id.0.as_slice());
            let mut tail = u16_to_le_bytes(*port);
            out.append(&mut tail);
            out
        },
        Message::Pong(id, port) => {
            let mut out = u32_to_le_bytes(1);
            push_bytes(&mut out, id.0.as_slice());
            let mut tail = u16_to_le_bytes(*port);
            out.append(&mut tail);
            out
        },
        Message::FindNode(id) => {
            let mut out = u32_to_le_bytes(2);
            push_bytes(&mut out, id.0.as_slice());
            out
        },
        Message::FoundNodes(peers) => {
            let ghost ps = peers.deep_view();
            let mut out = u32_to_le_bytes(3);
            let mut count = u64_to_le_bytes(peers.len() as u64);
            out.append(&mut count);
            let ghost head = out@;
            let mut i: usize = 0;
            assert(out@ =~= head + peers_bytes(ps.take(0)));
            while i < peers.len()
                invariant
                    i <= peers.len(),
                    ps == peers.deep_view(),
                    out@ == head + peers_bytes(ps.take(i as int)),
                    forall|j: int| 0 <= j < i ==> encode_utf8((#[trigger] ps[j]).1).len() <= u64::MAX,
                decreases peers.len() - i,
            {
                let ghost before = out@;
                let text = peers[i].1.as_str().as_bytes();
                push_bytes(&mut out, peers[i].0.0.as_slice());
                let mut length = u64_to_le_bytes(text.len() as u64);
                out.append(&mut length);
                push_bytes(&mut out, text);
                proof {
                    assert(text@ == encode_utf8(ps[i as int].1));
                    assert(out@ =~= before + peer_bytes(ps[i as int]));
                    assert(ps.take(i as int + 1) =~= ps.take(i as int).push(ps[i as int]));
                    lemma_peers_bytes_push(ps.take(i as int), ps[i as int]);
                    assert(out@ =~= head + peers_bytes(ps.take(i as int + 1)));
                }
                i = i + 1;
            }
            assert(ps.take(i as int) =~= ps);
            out
        },
    }
}

/// Reads `count` peers off `bytes`, which must hold them and nothing more.
fn decode_peers(bytes: &[u8], start: usize, count: u64) -> (r: Option<Vec<(NodeId, String)>>)
    requires
        start <= bytes@.len(),
    ensures
        match r {
            Some(peers) => parse_peers(bytes@.skip(start as int), count as nat, Seq::empty())
                == Some((peers.deep_view(), Seq::<u8>::empty())),
            None => match parse_peers(bytes@.skip(start as int), count as nat, Seq::empty()) {
                Some((ps, rest)) => rest.len() > 0,
                None => true,
            },
        },
{
    let ghost goal = parse_peers(bytes@.skip(start as int), count as nat, Seq::empty());
    let mut peers: Vec<(NodeId, String)> = Vec::new();
    let mut pos: usize = start;
    let mut done: u64 = 0;
    assert(peers.deep_view() =~= Seq::<PeerView>::empty());
    while done < count
        invariant
            done <= count,
            start <= pos <= bytes@.len(),
            goal == parse_peers(bytes@.skip(start as int), count as nat, Seq::empty()),
            goal == parse_peers(
                bytes@.skip(pos as int),
                (count - done) as nat,
                peers.deep_view(),
            ),
        decreases count - done,
    {
        let ghost rest = bytes@.skip(pos as int);
        let ghost acc = peers.deep_view();
        let left = bytes.len() - pos;
        if left < 28 {
            assert(parse_peer(rest) is None);
            assert(goal is None);
            return None;
        }
        let length = u64_from_le_bytes(slice_subrange(bytes, pos + 20, pos + 28));
        assert(bytes@.subrange(pos + 20, pos + 28) =~= rest.subrange(20, 28));
        if length > (left - 28) as u64 {
            assert(parse_peer(rest) is None);
            assert(goal is None);
            return None;
        }
        let size = length as usize;
        let text = slice_to_vec(slice_subrange(bytes, pos + 28, pos + 28 + size));
        assert(text@ =~= rest.subrange(28, 28 + length as int));
        let id = match node_id_from_bytes(slice_subrange(bytes, pos, pos + 20)) {
            Some(id) => id,
            None => { return None; },
        };
        proof {
            assert(id.0@ =~= rest.take(20));
            lemma_id_from(id);
        }
        let addr = match string_from_utf8(text) {
            Some(addr) => addr,
            None => {
                assert(parse_peer(rest) is None);
                assert(goal is None);
                return None;
            },
        };
        proof {
            encode_utf8_decode_utf8(addr@);
            assert(bytes@.skip(pos + 28 + size) =~= rest.skip(28 + length as int));
        }
        peers.push((id, addr));
        assert(peers.deep_view() =~= acc.push((id, addr@)));
        pos = pos + 28 + size;
        done = done + 1;
    }
    if pos == bytes.len() {
        assert(bytes@.skip(pos as int) =~= Seq::<u8>::empty());
        Some(peers)
    } else {
        None
    }
}

/// The message that a payload carries; `Decode` if the bytes are not the
/// payload of any message.
pub fn decode_payload(bytes: &[u8]) -> (r: Result<Message, WireError>)
    ensures
        match r {
            Ok(m) => parse_payload(bytes@) == Some(m@),
            Err(e) => e == WireError::Decode && parse_payload(bytes@) is None,
        },
{
    if bytes.len() < 4 {
        return Err(WireError::Decode);
    }
    let tag = u32_from_le_bytes(slice_subrange(bytes, 0, 4));
    let ghost body = bytes@.skip(4);
    assert(bytes@.subrange(0, 4) =~= bytes@.take(4));
    if tag == 0 || tag == 1 {
        if bytes.len() != 26 {
            return Err(WireError::Decode);
        }
        let port = u16_from_le_bytes(slice_subrange(bytes, 24, 26));
        assert(bytes@.subrange(24, 26) =~= body.skip(20));
        match node_id_from_bytes(slice_subrange(bytes, 4, 24)) {
            Some(id) => {
                proof {
                    assert(id.0@ =~= body.take(20));
                    lemma_id_from(id);
                }
                if tag == 0 {
                    Ok(Message::Ping(id, port))
                } else {
                    Ok(Message::Pong(id, port))
                }
            },
            None => Err(WireError::Decode),
        }
    } else if tag == 2 {
        if bytes.len() != 24 {
            return Err(WireError::Decode);
        }
        match node_id_from_bytes(slice_subrange(bytes, 4, 24)) {
            Some(id) => {
                proof {
                    assert(id.0@ =~= body);
                    lemma_id_from(id);
                }
                Ok(Message::FindNode(id))
            },
            None => Err(WireError::Decode),
        }
    } else if tag == 3 {
        if bytes.len() < 12 {
            return Err(WireError::Decode);
        }
        let count = u64_from_le_bytes(slice_subrange(bytes, 4, 12));
        assert(bytes@.subrange(4, 12) =~= body.take(8));
        assert(bytes@.skip(12) =~= body.skip(8));
        match decode_peers(bytes, 12, count) {
            Some(peers) => Ok(Message::FoundNodes(peers)),
            None => Err(WireError::Decode),
        }
    } else {
        Err(WireError::Decode)
    }
}

/// The frame that carries `msg`: the length of its payload, then the
/// payload. `None` if the payload is too long for the 32-bit length.
pub fn encode_frame(msg: &Message) -> (frame: Option<Vec<u8>>)
    ensures
        frame is Some <==> payload_of(msg@).len() <= u32::MAX,
        frame matches Some(bytes) ==> bytes@ == frame_of(msg@),
        encodable(msg@),
{
    let mut payload = encode_payload(msg);
    if payload.len() > 0xffff_ffff {
        return None;
    }
    let n = payload.len() as u32;
    let mut frame: Vec<u8> = Vec::new();
    frame.push((n / 0x100_0000) as u8);
    frame.push((n / 0x1_0000 % 0x100) as u8);
    frame.push((n / 0x100 % 0x100) as u8);
    frame.push((n % 0x100) as u8);
    assert(frame@ =~= be32(n));
    frame.append(&mut payload);
    Some(frame)
}

/// The length of the payload that follows a frame's four-byte prefix.
pub fn frame_length(header: &[u8; 4]) -> (n: u32)
    ensures
        n == be_value(header@),
{
    proof {
        let s = header@;
        let s3 = s.drop_last();
        let s2 = s3.drop_last();
        let s1 = s2.drop_last();
        assert(s1.drop_last().len() == 0);
        assert(be_value(s1) == s[0]) by {
            reveal_with_fuel(be_value, 2);
        }
        assert(be_value(s2) == be_value(s1) * 256 + s[1]);
        assert(be_value(s3) == be_value(s2) * 256 + s[2]);
        assert(be_value(s) == be_value(s3) * 256 + s[3]);
    }
    let b0 = header[0] as u32;
    let b1 = header[1] as u32;
    let b2 = header[2] as u32;
    let b3 = header[3] as u32;
    b0 * 0x100_0000 + b1 * 0x1_0000 + b2 * 0x100 + b3
}

/// A message as contracts see it, or the error in its place.
pub open spec fn outcome(r: Result<Message, WireError>) -> Result<MessageView, WireError> {
    match r {
        Ok(m) => Ok(m@),
        Err(e) => Err(e),
    }
}

/// Reads one frame off the front of `bytes`, the bytes that came from the
/// stream: `Transport` if they end before the frame does, `Decode` if the
/// payload carries no message.
pub fn decode_frame(bytes: &[u8]) -> (r: Result<Message, WireError>)
    ensures
        outcome(r) == parse_frame(bytes@),
{
    if bytes.len() < 4 {
        return Err(WireError::Transport);
    }
    let header = [bytes[0], bytes[1], bytes[2], bytes[3]];
    assert(header@ =~= bytes@.take(4));
    let n = frame_length(&header);
    if ((bytes.len() - 4) as u64) < (n as u64) {
        return Err(WireError::Transport);
    }
    let size = n as usize;
    let payload = slice_subrange(bytes, 4, 4 + size);
    decode_payload(payload)
}

} // verus!
