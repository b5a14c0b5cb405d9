//! Node identifiers and the bit-level view that the XOR metric is built on.

use crate::protocol::xor_bytes;
use crate::routing::{bucket_of, lemma_first_set_bit_unique};
use rand::Rng;
use vstd::prelude::*;
use vstd::string::StringExecFns;

verus! {

/// A 160-bit node identifier. Equality is bytewise.
#[derive(Debug, Clone, Copy, Eq, Hash)]
#[verifier::ext_equal]
pub struct NodeId(pub [u8; 20]);

impl PartialEq for NodeId {
    fn eq(&self, other: &NodeId) -> (r: bool) {
        let mut i: usize = 0;
        while i < 20
            invariant
                i <= 20,
                forall|j: int| 0 <= j < i ==> self.0[j] == other.0[j],
            decreases 20 - i,
        {
            if self.0[i] != other.0[i] {
                return false;
            }
            i = i + 1;
        }
        assert(self.0 =~= other.0);
        true
    }
}

impl vstd::std_specs::cmp::PartialEqSpecImpl for NodeId {
    open spec fn obeys_eq_spec() -> bool {
        true
    }

    open spec fn eq_spec(&self, other: &NodeId) -> bool {
        *self == *other
    }
}

impl DeepView for NodeId {
    type V = NodeId;

    open spec fn deep_view(&self) -> NodeId {
        *self
    }
}

/// Bit `i` of a byte string, counted from the most significant bit of byte 0.
pub open spec fn bit_at(s: Seq<u8>, i: int) -> bool {
    (s[i / 8] >> ((7 - i % 8) as u8)) & 1u8 == 1u8
}

/// The value of a byte string read as a big-endian unsigned integer.
pub open spec fn be_value(s: Seq<u8>) -> nat
    decreases s.len(),
{
    if s.len() == 0 {
        0
    } else {
        be_value(s.drop_last()) * 256 + s.last() as nat
    }
}

/// Two identifiers with the same bytes are the same identifier.
pub proof fn lemma_id_ext(a: NodeId, b: NodeId)
    requires
        a.0@ == b.0@,
    ensures
        a == b,
{
    assert(a.0 =~= b.0);
}

/// Big-endian magnitudes order as their bytes do lexicographically: the first
/// byte that differs decides.
pub proof fn lemma_be_value_first_difference(a: Seq<u8>, b: Seq<u8>, i: int)
    requires
        a.len() == b.len(),
        0 <= i < a.len(),
        forall|j: int| 0 <= j < i ==> a[j] == b[j],
        a[i] < b[i],
    ensures
        be_value(a) < be_value(b),
    decreases a.len(),
{
    let a0 = a.drop_last();
    let b0 = b.drop_last();
    if i == a.len() - 1 {
        assert(a0 =~= b0);
    } else {
        lemma_be_value_first_difference(a0, b0, i);
    }
}

/// Byte strings of one length with the same big-endian magnitude are the
/// same string.
pub proof fn lemma_be_value_injective(a: Seq<u8>, b: Seq<u8>)
    requires
        a.len() == b.len(),
        be_value(a) == be_value(b),
    ensures
        a == b,
    decreases a.len(),
{
    if a.len() > 0 {
        let x = be_value(a.drop_last());
        let y = be_value(b.drop_last());
        assert(x * 256 + a.last() as nat == y * 256 + b.last() as nat);
        assert(x == y && a.last() == b.last());
        lemma_be_value_injective(a.drop_last(), b.drop_last());
        assert(a =~= a.drop_last().push(a.last()));
        assert(b =~= b.drop_last().push(b.last()));
    } else {
        assert(a =~= b);
    }
}

/// The sixteen lowercase hexadecimal digits, in order.
pub open spec fn hex_digits() -> Seq<char> {
    seq!['0', '1', '2', '3', '4', '5', '6', '7', '8', '9', 'a', 'b', 'c', 'd', 'e', 'f']
}

/// The bytes of `s` in lowercase hexadecimal, two digits for each byte.
pub open spec fn hex_of(s: Seq<u8>) -> Seq<char> {
    Seq::new(
        2 * s.len(),
        |i: int|
            if i % 2 == 0 {
                hex_digits()[s[i / 2] as int / 16]
            } else {
                hex_digits()[s[i / 2] as int % 16]
            },
    )
}

/// The digits of `n` in base ten, without leading zeros.
pub open spec fn decimal(n: nat) -> Seq<char>
    decreases n,
{
    if n < 10 {
        seq![hex_digits()[n as int]]
    } else {
        decimal(n / 10).push(hex_digits()[(n % 10) as int])
    }
}

/// The one-character string of a hexadecimal digit.
fn digit_str(n: u8) -> (s: &'static str)
    requires
        n < 16,
    ensures
        s@ == seq![hex_digits()[n as int]],
{
    proof {
        reveal_strlit("0");
        reveal_strlit("1");
        reveal_strlit("2");
        reveal_strlit("3");
        reveal_strlit("4");
        reveal_strlit("5");
        reveal_strlit("6");
        reveal_strlit("7");
        reveal_strlit("8");
        reveal_strlit("9");
        reveal_strlit("a");
        reveal_strlit("b");
        reveal_strlit("c");
        reveal_strlit("d");
        reveal_strlit("e");
        reveal_strlit("f");
    }
    let s = match n {
        0 => "0",
        1 => "1",
        2 => "2",
        3 => "3",
        4 => "4",
        5 => "5",
        6 => "6",
        7 => "7",
        8 => "8",
        9 => "9",
        10 => "a",
        11 => "b",
        12 => "c",
        13 => "d",
        14 => "e",
        _ => "f",
    };
    assert(s@ =~= seq![hex_digits()[n as int]]);
    s
}

/// Appends the decimal digits of `n`.
pub fn push_decimal(out: &mut String, n: u16)
    ensures
        final(out)@ == old(out)@ + decimal(n as nat),
    decreases n,
{
    let ghost before = out@;
    if n >= 10 {
        push_decimal(out, n / 10);
    }
    out.append(digit_str((n % 10) as u8));
    assert(out@ =~= before + decimal(n as nat));
}

impl NodeId {
    /// The display form: forty lowercase hexadecimal digits.
    pub fn to_hex(&self) -> (s: String)
        ensures
            s@ == hex_of(self.0@),
            s@.len() == 40,
    {
        let mut out = String::new();
        let mut i: usize = 0;
        while i < 20
            invariant
                i <= 20,
                out@ == hex_of(self.0@).take(2 * i as int),
            decreases 20 - i,
        {
            let byte = self.0[i];
            out.append(digit_str(byte / 16));
            out.append(digit_str(byte % 16));
            assert(out@ =~= hex_of(self.0@).take(2 * (i + 1) as int));
            i = i + 1;
        }
        assert(hex_of(self.0@).take(40) =~= hex_of(self.0@));
        out
    }
}

/// The name of the file that holds the identity of the node listening on
/// `port`: `._` for port 0, else `._.` followed by the port in decimal.
pub open spec fn identity_path_of(port: u16) -> Seq<char> {
    if port == 0 {
        seq!['.', '_']
    } else {
        seq!['.', '_', '.'] + decimal(port as nat)
    }
}

/// The name of the file that holds the identity of the node listening on
/// `port`.
pub fn identity_path(port: u16) -> (path: String)
    ensures
        path@ == identity_path_of(port),
{
    proof {
        reveal_strlit("._");
        reveal_strlit("._.");
    }
    if port == 0 {
        let path = String::from_str("._");
        assert(path@ =~= identity_path_of(port));
        path
    } else {
        let mut path = String::from_str("._.");
        push_decimal(&mut path, port);
        assert(path@ =~= identity_path_of(port));
        path
    }
}

/// The identifier made of the first twenty bytes of `bytes`; `None` if
/// there are fewer.
pub fn node_id_from_bytes(bytes: &[u8]) -> (id: Option<NodeId>)
    ensures
        id is Some <==> bytes@.len() >= 20,
        id matches Some(found) ==> found.0@ == bytes@.take(20),
{
    if bytes.len() < 20 {
        return None;
    }
    let mut out = [0u8; 20];
    let mut i: usize = 0;
    while i < 20
        invariant
            i <= 20,
            bytes@.len() >= 20,
            forall|j: int| 0 <= j < i ==> out[j] == bytes@[j],
        decreases 20 - i,
    {
        out[i] = bytes[i];
        i = i + 1;
    }
    assert(out@ =~= bytes@.take(20));
    Some(NodeId(out))
}

/// Twenty bytes from `rand::Rng::fill` on the generator that `rand::rng`
/// hands out for the calling thread. Nothing is claimed of the bytes. (The
/// generator is seeded from the operating system when a thread first asks
/// for it; `rand` panics there if the system has no randomness to give.)
#[verifier::external_body]
fn random_bytes() -> (bytes: [u8; 20]) {
    let mut bytes = [0u8; 20];
    rand::rng().fill(&mut bytes);
    bytes
}

/// One byte from `rand::Rng::random` on the generator that `rand::rng`
/// hands out for the calling thread. Nothing is claimed of the byte. (The
/// generator is seeded as for `random_bytes`.)
#[verifier::external_body]
fn random_byte() -> (byte: u8) {
    rand::rng().random()
}

/// A fresh random identifier.
pub fn generate_node_id() -> NodeId {
    NodeId(random_bytes())
}

/// The identity of a node, given what its identity file holds (`stored`,
/// empty if the file could not be read): the first twenty bytes of the file
/// if it has that many, else a fresh random identifier. The flag says
/// whether the identifier is fresh, in which case the caller should try to
/// write it to the file.
pub fn load_or_generate_node_id(stored: &[u8]) -> (r: (NodeId, bool))
    ensures
        r.1 <==> stored@.len() < 20,
        !r.1 ==> r.0.0@ == stored@.take(20),
{
    match node_id_from_bytes(stored) {
        Some(id) => (id, false),
        None => (generate_node_id(), true),
    }
}

/// Whether `id` is `owner` with bit `i` flipped and the bytes after that
/// bit's byte replaced by arbitrary ones.
pub open spec fn anchored_in_bucket(owner: NodeId, i: int, id: NodeId) -> bool {
    &&& forall|j: int| 0 <= j < i / 8 ==> id.0[j] == owner.0[j]
    &&& id.0[i / 8] == owner.0[i / 8] ^ (1u8 << ((7 - i % 8) as u8))
}

/// An identifier that agrees with the owner before bit `i` and differs
/// from it at bit `i` falls into bucket `i`.
pub proof fn lemma_anchored_in_bucket(owner: NodeId, i: int, id: NodeId)
    requires
        0 <= i < 160,
        anchored_in_bucket(owner, i, id),
    ensures
        bucket_of(owner, id) == i,
{
    let x = xor_bytes(owner, id);
    let s: u8 = (7 - i % 8) as u8;
    let b = owner.0[i / 8];
    assert forall|j: int| 0 <= j < i implies !bit_at(x, j) by {
        let t: u8 = (7 - j % 8) as u8;
        if j / 8 < i / 8 {
            let c = owner.0[j / 8];
            assert((c ^ c) >> t & 1u8 != 1u8) by (bit_vector);
        } else {
            assert(s < t < 8);
            assert(((b ^ (b ^ (1u8 << s))) >> t) & 1u8 != 1u8) by (bit_vector)
                requires
                    s < t < 8,
            ;
        }
    }
    assert(bit_at(x, i)) by {
        assert(((b ^ (b ^ (1u8 << s))) >> s) & 1u8 == 1u8) by (bit_vector)
            requires
                s < 8,
        ;
    }
    lemma_first_set_bit_unique(x, i);
}

/// A random identifier that falls into bucket `bucket_index` of the table
/// owned by `my_id`: `my_id` with that bit flipped and every later byte
/// random.
pub fn generate_random_id_in_bucket(my_id: &NodeId, bucket_index: usize) -> (id: NodeId)
    requires
        bucket_index < 160,
    ensures
        anchored_in_bucket(*my_id, bucket_index as int, id),
        bucket_of(*my_id, id) == bucket_index,
{
    let mut id = my_id.0;
    let byte_index = bucket_index / 8;
    let bit_index: u8 = (7 - bucket_index % 8) as u8;
    let flipped = id[byte_index] ^ (1u8 << bit_index);
    id[byte_index] = flipped;
    let mut i: usize = byte_index + 1;
    while i < 20
        invariant
            byte_index < i <= 20,
            forall|j: int| 0 <= j < byte_index ==> id[j] == my_id.0[j],
            id[byte_index as int] == flipped,
        decreases 20 - i,
    {
        id[i] = random_byte();
        i = i + 1;
    }
    let out = NodeId(id);
    proof {
        lemma_anchored_in_bucket(*my_id, bucket_index as int, out);
    }
    out
}

} // verus!
