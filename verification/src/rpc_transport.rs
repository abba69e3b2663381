//! What every transport agrees on: how a request and its reply are numbered,
//! and how the number goes on the wire.

pub mod networked_debug_transport;
pub mod retry_transport;
pub mod stream_framing;
pub mod tcp_transport;

use crate::close_nodes::metric;
use vstd::prelude::*;

verus! {

/// Set on a datagram's id to mark it a *reply*; clear on a *request*.
///
/// A node sends and receives everything over one socket, so its receive loop
/// has to tell an answer to something it asked from a question someone is
/// asking it. Matching the id against [`Pending`](crate::pending::Pending) and
/// calling an unmatched id a request cannot do that: request ids are minted by
/// the sender, every node starts its counter at the same place, and a peer's
/// request id `7` would be delivered to whoever here is waiting on reply `7`.
/// So the distinction is written on the wire instead of inferred: whoever
/// frames a reply sets this bit ([`frame_reply`](crate::handle_rpc::frame_reply)),
/// and whoever mints a request id clears it.
///
/// It costs the top bit of the id space: ids are 63-bit, which is 9.2e18
/// in-flight requests before one repeats.
///
/// Nothing outside [`request_id`], [`reply_id`] and [`is_reply`] should need
/// to touch the bit itself.
pub const REPLY_TAG: u64 = 0x8000_0000_0000_0000;

/// Bytes that an id takes on the wire.
pub const ID_LEN: usize = 8;

/// The number of a request, without the tag.
pub open spec fn untagged(id: u64) -> int {
    id as int % REPLY_TAG as int
}

/// The id to send a *request* under, with [`REPLY_TAG`] cleared.
///
/// Mint every outgoing request id through here rather than trusting the
/// source to leave the top bit alone: a counter never reaches it, but a random
/// number sets it half the time. Also the way to recover the request's number
/// from a reply's id.
pub fn request_id(id: u64) -> (request: u64)
    ensures
        request == untagged(id),
        request < REPLY_TAG,
{
    assert(id & !0x8000_0000_0000_0000u64 == id % 0x8000_0000_0000_0000u64) by (bit_vector);
    id & !REPLY_TAG
}

/// The id to answer request `id` under, with [`REPLY_TAG`] set.
pub fn reply_id(id: u64) -> (reply: u64)
    ensures
        reply == REPLY_TAG + untagged(id),
{
    assert(id | 0x8000_0000_0000_0000u64 == 0x8000_0000_0000_0000u64 + id
        % 0x8000_0000_0000_0000u64) by (bit_vector);
    id | REPLY_TAG
}

/// Whether a datagram's id marks it a reply rather than a request.
pub fn is_reply(id: u64) -> (reply: bool)
    ensures
        reply == (id >= REPLY_TAG),
{
    assert(id & 0x8000_0000_0000_0000u64 != 0 <==> id >= 0x8000_0000_0000_0000u64)
        by (bit_vector);
    id & REPLY_TAG != 0
}

/// The last `len` bytes of a number, most significant first.
pub open spec fn be_bytes(value: nat, len: nat) -> Seq<u8>
    decreases len,
{
    if len == 0 {
        Seq::empty()
    } else {
        be_bytes(value / 256, (len - 1) as nat).push((value % 256) as u8)
    }
}

/// An id as it goes on the wire: eight bytes, most significant first.
pub open spec fn id_bytes(id: u64) -> Seq<u8> {
    be_bytes(id as nat, 8)
}

/// The id that a datagram starts with.
pub open spec fn leading_id(datagram: Seq<u8>) -> u64 {
    metric::be_value(datagram.take(8)) as u64
}

/// A datagram: the id, then what is sent under it.
pub open spec fn framed(id: u64, payload: Seq<u8>) -> Seq<u8> {
    id_bytes(id) + payload
}

proof fn lemma_pow256_of_eight()
    ensures
        metric::pow256(8) == 0x1_0000_0000_0000_0000,
{
    reveal_with_fuel(metric::pow256, 9);
}

proof fn lemma_be_value_below(bytes: Seq<u8>)
    ensures
        metric::be_value(bytes) < metric::pow256(bytes.len()),
    decreases bytes.len(),
{
    if bytes.len() > 0 {
        lemma_be_value_below(bytes.drop_last());
    }
}

proof fn lemma_be_bytes(value: nat, len: nat)
    requires
        value < metric::pow256(len),
    ensures
        be_bytes(value, len).len() == len,
        metric::be_value(be_bytes(value, len)) == value,
    decreases len,
{
    if len > 0 {
        let shorter = be_bytes(value / 256, (len - 1) as nat);
        lemma_be_bytes(value / 256, (len - 1) as nat);
        assert(be_bytes(value, len).drop_last() =~= shorter);
    }
}

proof fn lemma_be_bytes_of_value(bytes: Seq<u8>)
    ensures
        be_bytes(metric::be_value(bytes), bytes.len()) == bytes,
    decreases bytes.len(),
{
    if bytes.len() > 0 {
        lemma_be_bytes_of_value(bytes.drop_last());
        assert(bytes =~= bytes.drop_last().push(bytes.last()));
    } else {
        assert(bytes =~= Seq::empty());
    }
}

/// What is read off a datagram is what was framed: the id, and the payload
/// behind it. And a datagram that is long enough is the one way to frame what
/// it holds.
pub proof fn lemma_framing_round_trips(id: u64, payload: Seq<u8>, datagram: Seq<u8>)
    ensures
        id_bytes(id).len() == 8,
        framed(id, payload).len() == 8 + payload.len(),
        leading_id(framed(id, payload)) == id,
        framed(id, payload).skip(8) == payload,
        datagram.len() >= 8 ==> framed(leading_id(datagram), datagram.skip(8)) == datagram,
{
    lemma_pow256_of_eight();
    lemma_be_bytes(id as nat, 8);
    assert(framed(id, payload).take(8) =~= id_bytes(id));
    assert(framed(id, payload).skip(8) =~= payload);
    if datagram.len() >= 8 {
        let head = datagram.take(8);
        lemma_be_value_below(head);
        lemma_be_bytes_of_value(head);
        assert(framed(leading_id(datagram), datagram.skip(8)) =~= datagram);
    }
}

/// A request and its reply are never mistaken for one another, and each tells
/// the number of the other.
pub proof fn lemma_replies_are_told_apart(id: u64, request: u64, reply: u64)
    requires
        request == untagged(id),
        reply == REPLY_TAG + untagged(id),
    ensures
        request < REPLY_TAG,
        reply >= REPLY_TAG,
        untagged(request) == request,
        untagged(reply) == request,
{
}

/// The bytes of an id, most significant first.
pub(crate) fn encode_id(id: u64) -> (bytes: Vec<u8>)
    ensures
        bytes@ == id_bytes(id),
{
    let mut bytes: Vec<u8> = Vec::with_capacity(ID_LEN);
    let mut i: u64 = 0;
    let mut shift: u64 = 64;
    proof {
        assert(id >> 64u64 == 0) by (bit_vector);
    }
    while i < 8
        invariant
            i <= 8,
            shift == 64 - 8 * i,
            bytes@ == be_bytes((id >> shift) as nat, i as nat),
        decreases 8 - i,
    {
        let next: u64 = shift - 8;
        let part: u64 = id >> next;
        let byte: u8 = (part % 256) as u8;
        assert((id >> next) / 256 == id >> shift) by (bit_vector)
            requires
                next <= 56,
                shift == next + 8,
        ;
        bytes.push(byte);
        i = i + 1;
        shift = next;
    }
    assert(id >> 0u64 == id) by (bit_vector);
    bytes
}

/// The id that a datagram starts with.
pub(crate) fn decode_id(datagram: &[u8]) -> (id: u64)
    requires
        datagram@.len() >= 8,
    ensures
        id == leading_id(datagram@),
{
    let mut id: u64 = 0;
    let mut i: usize = 0;
    while i < 8
        invariant
            i <= 8,
            datagram@.len() >= 8,
            id == metric::be_value(datagram@.take(i as int)),
        decreases 8 - i,
    {
        proof {
            let head = datagram@.take(i as int);
            let more = datagram@.take(i + 1);
            assert(more.drop_last() =~= head);
            lemma_be_value_below(more);
            lemma_pow256_grows((i + 1) as nat, 8);
            lemma_pow256_of_eight();
        }
        id = id * 256 + datagram[i] as u64;
        i = i + 1;
    }
    id
}

proof fn lemma_pow256_grows(a: nat, b: nat)
    requires
        a <= b,
    ensures
        metric::pow256(a) <= metric::pow256(b),
    decreases b,
{
    if a < b {
        lemma_pow256_grows(a, (b - 1) as nat);
    }
}

/// Put an id in front of a payload: the framing of every datagram and of every
/// message on a connection.
pub fn frame(id: u64, payload: &[u8]) -> (datagram: Vec<u8>)
    ensures
        datagram@ == framed(id, payload@),
{
    let mut datagram: Vec<u8> = encode_id(id);
    datagram.extend_from_slice(payload);
    assert(datagram@ =~= framed(id, payload@));
    datagram
}

/// What id a datagram starts with: the number that its first eight bytes come
/// to, the most significant first.
pub proof fn lemma_ids_go_most_significant_byte_first(datagram: Seq<u8>)
    requires
        datagram.len() >= 8,
    ensures
        leading_id(datagram) == 0x100_0000_0000_0000 * datagram[0] + 0x1_0000_0000_0000
            * datagram[1] + 0x100_0000_0000 * datagram[2] + 0x1_0000_0000 * datagram[3]
            + 0x100_0000 * datagram[4] + 0x1_0000 * datagram[5] + 0x100 * datagram[6] + datagram[7],
{
    lemma_pow256_of_eight();
    lemma_be_value_below(datagram.take(8));
    assert(metric::be_value(datagram.take(0)) == 0);
    lemma_one_byte_more(datagram, 0);
    lemma_one_byte_more(datagram, 1);
    lemma_one_byte_more(datagram, 2);
    lemma_one_byte_more(datagram, 3);
    lemma_one_byte_more(datagram, 4);
    lemma_one_byte_more(datagram, 5);
    lemma_one_byte_more(datagram, 6);
    lemma_one_byte_more(datagram, 7);
}

proof fn lemma_one_byte_more(bytes: Seq<u8>, len: int)
    requires
        0 <= len < bytes.len(),
    ensures
        metric::be_value(bytes.take(len + 1)) == metric::be_value(bytes.take(len)) * 256
            + bytes[len],
{
    assert(bytes.take(len + 1).drop_last() =~= bytes.take(len));
}

/// Numbers and tags: taking the tag off leaves the number, whether or not it
/// was set.
pub proof fn lemma_a_tag_is_taken_off(id: u64)
    ensures
        untagged(id) == if id < REPLY_TAG {
            id as int
        } else {
            id - REPLY_TAG
        },
{
}

} // verus!
