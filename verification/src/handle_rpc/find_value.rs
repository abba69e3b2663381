//! FIND_VALUE: answer with a stored value, or with where to look next.
//!
//! [`find_node`](super::find_node) with a shortcut: if the key is one we
//! hold, the lookup ends here and the value comes back instead of the
//! contacts. The two cases share a request but not a reply, so the encoding
//! has to let the caller tell them apart: that is what
//! [`FindValue`](crate::rpc::FindValue) is on the other end.

use crate::address::Address;
use crate::close_nodes::{CloseNodes, Contact, Key, ID_BYTES};
use crate::handle_rpc::Context;
use crate::wire;
use vstd::prelude::*;

verus! {

/// A FIND_VALUE is answered with the value under its key, if we hold one, and
/// else with what the table says about the key. One that cannot be read
/// changes nothing and is not answered.
pub open spec fn answers<A: CloseNodes<ID_BYTES>>(
    before: Context<A>,
    body: Seq<u8>,
    after: Context<A>,
    reply: Option<Seq<u8>>,
) -> bool {
    match wire::decoded_id(body) {
        Some(key) if before.values@.dom().contains(key@) => {
            &&& after == before
            &&& reply == Some(wire::found_bytes(Ok(before.values@[key@])))
        },
        Some(key) => {
            &&& after.my_id == before.my_id
            &&& after.values == before.values
            &&& exists|contacts: Seq<Contact<ID_BYTES>>|
                {
                    &&& #[trigger] A::asked(before.close_nodes, key, after.close_nodes, contacts)
                    &&& reply == Some(wire::found_bytes(Err(wire::wire_contacts(contacts))))
                }
        },
        None => after == before && reply is None,
    }
}

/// Answer a FIND_VALUE for the key in `body`.
pub fn handle<A: CloseNodes<ID_BYTES>>(
    context: &mut Context<A>,
    _id: u64,
    _from: Address,
    body: &[u8],
) -> (reply: Option<Vec<u8>>)
    requires
        old(context).wf(),
    ensures
        final(context).wf(),
        old(context).is_content_addressed() ==> final(context).is_content_addressed(),
        match reply {
            Some(bytes) => answers(*old(context), body@, *final(context), Some(bytes@)),
            None => answers(*old(context), body@, *final(context), None),
        },
{
    match wire::decode_id(body) {
        Some(key) => match context.values.get(&key) {
            Some(value) => wire::encode_found(Ok(value)),
            None => {
                let contacts: Vec<Contact<ID_BYTES>> = context.close_nodes.close_nodes(key);
                assert(A::asked(old(context).close_nodes, key, context.close_nodes, contacts@));
                wire::encode_found(Err(&contacts))
            },
        },
        None => None,
    }
}

/// What is read off the answer to a FIND_VALUE: the value that is held under
/// the key, if one is; and if not, exactly what the table says about the key,
/// every contact in its order. The values stay as they are.
pub proof fn lemma_what_is_found_is_answered_whole<A: CloseNodes<ID_BYTES>>(
    before: Context<A>,
    key: Key,
    more: Seq<u8>,
    after: Context<A>,
    reply: Option<Seq<u8>>,
) -> (contacts: Seq<Contact<ID_BYTES>>)
    requires
        answers(before, key@ + more, after, reply),
        reply matches Some(bytes) ==> bytes.len() <= u64::MAX,
    ensures
        reply is Some,
        after.my_id == before.my_id,
        after.values == before.values,
        before.values@.dom().contains(key@) ==> {
            &&& after.close_nodes == before.close_nodes
            &&& wire::decoded_found(reply->0) == Some(
                Ok::<Seq<u8>, Seq<Contact<ID_BYTES>>>(before.values@[key@]),
            )
        },
        !before.values@.dom().contains(key@) ==> {
            &&& A::asked(before.close_nodes, key, after.close_nodes, contacts)
            &&& wire::decoded_found(reply->0) matches Some(Err(named))
            &&& named.len() == contacts.len()
            &&& forall|i: int|
                0 <= i < named.len() ==> (#[trigger] named[i]).id == contacts[i].id && (
                contacts[i].address is V4 ==> named[i].address == contacts[i].address)
        },
{
    let none = Seq::<u8>::empty();
    wire::lemma_id_round_trips(key, more);
    let bytes = reply->0;
    assert(bytes + none =~= bytes);
    if before.values@.dom().contains(key@) {
        wire::lemma_found_round_trips(Ok(before.values@[key@]), none);
        Seq::empty()
    } else {
        let contacts = choose|contacts: Seq<Contact<ID_BYTES>>|
            {
                &&& #[trigger] A::asked(before.close_nodes, key, after.close_nodes, contacts)
                &&& reply == Some(wire::found_bytes(Err(wire::wire_contacts(contacts))))
            };
        wire::lemma_found_round_trips(Err(contacts), none);
        wire::lemma_contacts_come_back_whole(
            contacts,
            wire::contacts_of(wire::wire_contacts(contacts)),
        );
        contacts
    }
}

/// A body too short for a key is not answered.
pub proof fn lemma_a_question_without_a_key_is_not_answered<A: CloseNodes<ID_BYTES>>(
    before: Context<A>,
    body: Seq<u8>,
    after: Context<A>,
    reply: Option<Seq<u8>>,
)
    requires
        answers(before, body, after, reply),
        body.len() < 32,
    ensures
        after == before,
        reply is None,
{
}

} // verus!
