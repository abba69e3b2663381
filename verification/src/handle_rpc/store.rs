//! STORE: hold a value on behalf of the network.
//!
//! We are asked to store a key that is close to us, so the sender's idea of
//! "close" is worth sanity-checking against our own before spending storage on
//! it, but not worth refusing over, since our routing table and theirs are
//! allowed to disagree while the network churns.

use crate::address::Address;
use crate::close_nodes::{same_id, CloseNodes, Key, ID_BYTES};
use crate::handle_rpc::Context;
use crate::hashing;
use crate::hashing::key_for_value;
use crate::wire;
use vstd::prelude::*;

verus! {

/// What a STORE is acknowledged with: `STORED`, in ASCII.
pub const STORED: [u8; 6] = [0x53, 0x54, 0x4f, 0x52, 0x45, 0x44];

/// Encode a STORE body: the pair to hold.
///
/// Who is asking is not in here: it travels ahead of the method tag, in the
/// framing every request carries.
pub fn encode_request(key: Key, value: Vec<u8>) -> (body: Option<Vec<u8>>)
    ensures
        body matches Some(bytes) && bytes@ == wire::pair_bytes(key@, value@),
{
    wire::encode_pair(key, value)
}

/// A STORE puts the value under its key and is acknowledged, if the key is
/// the value's hash. One that is not, or that cannot be read, changes nothing
/// and is not answered.
pub open spec fn answers<A>(
    before: Context<A>,
    body: Seq<u8>,
    after: Context<A>,
    reply: Option<Seq<u8>>,
) -> bool {
    match wire::decoded_pair(body) {
        Some((key, value)) if key@ == hashing::sha256(value) => {
            &&& after.my_id == before.my_id
            &&& after.close_nodes == before.close_nodes
            &&& after.values@ == before.values@.insert(key@, value)
            &&& reply == Some(STORED@)
        },
        _ => after == before && reply is None,
    }
}

/// Store the key and value in `body`, and acknowledge it.
///
/// Returning `None` leaves the sender to time out, which is the right answer
/// for a request we decline to serve: it has no way to tell "refused" from
/// "unreachable" anyway, and both mean the value did not land here.
pub fn handle<A: CloseNodes<ID_BYTES>>(
    context: &mut Context<A>,
    _id: u64,
    _from: Address,
    body: &[u8],
) -> (reply: Option<Vec<u8>>)
    requires
        old(context).wf(),
    ensures
        final(context).wf(),
        old(context).is_content_addressed() ==> final(context).is_content_addressed(),
        match reply {
            Some(bytes) => answers(*old(context), body@, *final(context), Some(bytes@)),
            None => answers(*old(context), body@, *final(context), None),
        },
{
    match wire::decode_pair(body) {
        Some((key, value)) => {
            // The datastore is content-addressed: K must equal hash(V).
            let expected: Key = key_for_value(value.as_slice());
            if !same_id(&key, &expected) {
                assert(key@ != expected@) by {
                    if key@ == expected@ {
                        assert(key =~= expected);
                    }
                }
                return None;
            }
            context.values.insert(key, value);
            Some(vstd::slice::slice_to_vec(STORED.as_slice()))
        },
        None => None,
    }
}

/// A STORE is held and acknowledged exactly if the key is the value's hash.
/// Then the value is under its key and every other value stays; if not,
/// nothing changes, and nothing is said.
pub proof fn lemma_a_store_is_held_if_it_matches<A>(
    before: Context<A>,
    key: Key,
    value: Seq<u8>,
    more: Seq<u8>,
    after: Context<A>,
    reply: Option<Seq<u8>>,
)
    requires
        answers(before, wire::pair_bytes(key@, value) + more, after, reply),
        (wire::pair_bytes(key@, value) + more).len() <= u64::MAX,
    ensures
        after.my_id == before.my_id,
        after.close_nodes == before.close_nodes,
        key@ == hashing::sha256(value) ==> {
            &&& reply == Some(seq![0x53u8, 0x54u8, 0x4fu8, 0x52u8, 0x45u8, 0x44u8])
            &&& after.values@.dom().contains(key@)
            &&& after.values@[key@] == value
            &&& forall|other: Seq<u8>|
                other != key@ ==> {
                    &&& #[trigger] after.values@.dom().contains(other)
                        == before.values@.dom().contains(other)
                    &&& after.values@.dom().contains(other) ==> after.values@[other]
                        == before.values@[other]
                }
        },
        key@ != hashing::sha256(value) ==> reply is None && after.values == before.values,
{
    wire::lemma_pair_round_trips(key, value, more);
    assert(STORED@ =~= seq![0x53u8, 0x54u8, 0x4fu8, 0x52u8, 0x45u8, 0x44u8]);
}

/// A body that no key and value were written in is not answered, and changes
/// nothing.
pub proof fn lemma_an_unreadable_store_is_not_answered<A>(
    before: Context<A>,
    body: Seq<u8>,
    after: Context<A>,
    reply: Option<Seq<u8>>,
)
    requires
        answers(before, body, after, reply),
        forall|key: Key, value: Seq<u8>|
            !(#[trigger] wire::pair_bytes(key@, value)).is_prefix_of(body),
    ensures
        after == before,
        reply is None,
{
    wire::lemma_what_is_read_was_written(body);
}

} // verus!
