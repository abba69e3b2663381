//! FIND_NODE: answer with the contacts we know closest to a target.
//!
//! The RPC an iterative lookup is built out of: the caller asks the closest
//! nodes it knows for the ones they know, and repeats until the answers stop
//! getting closer. Our reply is [`CloseNodes::close_nodes`] verbatim (up to
//! [`K`](crate::close_nodes::K) contacts, nearest first) whether or not we
//! are anywhere near the target ourselves.
//!
//! The request carries the sender alongside the target, so answering it also
//! teaches us a contact. That is what makes a join propagate: a node nobody
//! has heard of becomes reachable the moment it asks its first question.

use crate::address::Address;
use crate::close_nodes::{CloseNodes, Contact, NodeId, ID_BYTES};
use crate::handle_rpc::Context;
use crate::wire;
use vstd::prelude::*;

verus! {

/// Encode a FIND_NODE body: who is asking, and what they are asking about.
///
/// One encoded value rather than two concatenated ones, so the decode cannot
/// disagree with the encode about where the first field ends.
pub fn encode_request(sender: Contact<ID_BYTES>, target: NodeId) -> (body: Option<Vec<u8>>)
    ensures
        body matches Some(bytes) && bytes@ == wire::query_bytes(
            wire::wire_contact(sender),
            target@,
        ),
{
    wire::encode_query(sender, target)
}

/// Read a FIND_NODE reply as the contacts it carries.
pub fn decode_reply(reply: &[u8]) -> (contacts: Option<Vec<Contact<ID_BYTES>>>)
    ensures
        match contacts {
            Some(contacts) => wire::decoded_contacts(reply@) == Some(contacts@),
            None => wire::decoded_contacts(reply@) is None,
        },
{
    wire::decode_contacts(reply)
}

/// A FIND_NODE teaches us its sender, and is answered with what the table then
/// says about the target. One that cannot be read changes nothing and is not
/// answered.
pub open spec fn answers<A: CloseNodes<ID_BYTES>>(
    before: Context<A>,
    body: Seq<u8>,
    after: Context<A>,
    reply: Option<Seq<u8>>,
) -> bool {
    match wire::decoded_query(body) {
        Some((sender, target)) => {
            &&& after.my_id == before.my_id
            &&& after.values == before.values
            &&& exists|taught: A, contacts: Seq<Contact<ID_BYTES>>|
                {
                    &&& #[trigger] A::offered(before.close_nodes, sender, taught)
                    &&& taught.wf()
                    &&& #[trigger] A::asked(taught, target, after.close_nodes, contacts)
                    &&& reply == Some(wire::contacts_bytes(wire::wire_contacts(contacts)))
                }
        },
        None => after == before && reply is None,
    }
}

/// Answer a FIND_NODE for the target id in `body`.
pub fn handle<A: CloseNodes<ID_BYTES>>(
    context: &mut Context<A>,
    _id: u64,
    _from: Address,
    body: &[u8],
) -> (reply: Option<Vec<u8>>)
    requires
        old(context).wf(),
    ensures
        final(context).wf(),
        old(context).is_content_addressed() ==> final(context).is_content_addressed(),
        match reply {
            Some(bytes) => answers(*old(context), body@, *final(context), Some(bytes@)),
            None => answers(*old(context), body@, *final(context), None),
        },
{
    match wire::decode_query(body) {
        Some((sender, target)) => {
            context.close_nodes.maybe_add_contact(sender);
            let ghost taught = context.close_nodes;
            let contacts: Vec<Contact<ID_BYTES>> = context.close_nodes.close_nodes(target);
            assert(A::offered(old(context).close_nodes, sender, taught));
            assert(A::asked(taught, target, context.close_nodes, contacts@));
            // The body only. `dispatch` puts the request id back on the front
            // via `frame_reply`; doing it here as well would send the id twice
            // and leave the caller unable to decode its own reply.
            wire::encode_contacts(&contacts)
        },
        None => None,
    }
}

/// What is read off the answer to a FIND_NODE: exactly what the table says
/// about the target once it was offered the sender, every contact in its order.
pub proof fn lemma_what_is_known_is_answered_whole<A: CloseNodes<ID_BYTES>>(
    before: Context<A>,
    sender: Contact<ID_BYTES>,
    target: NodeId,
    more: Seq<u8>,
    after: Context<A>,
    reply: Option<Seq<u8>>,
) -> (found: (A, Seq<Contact<ID_BYTES>>))
    requires
        sender.address is V4,
        answers(
            before,
            wire::query_bytes(wire::wire_contact(sender), target@) + more,
            after,
            reply,
        ),
        reply matches Some(bytes) ==> bytes.len() <= u64::MAX,
    ensures
        reply is Some,
        after.my_id == before.my_id,
        after.values == before.values,
        A::offered(before.close_nodes, sender, found.0),
        A::asked(found.0, target, after.close_nodes, found.1),
        wire::decoded_contacts(reply->0) is Some,
        wire::decoded_contacts(reply->0)->0.len() == found.1.len(),
        forall|i: int|
            0 <= i < found.1.len() ==> {
                let named = #[trigger] wire::decoded_contacts(reply->0)->0[i];
                &&& named.id == found.1[i].id
                &&& found.1[i].address is V4 ==> named.address == found.1[i].address
            },
{
    let none = Seq::<u8>::empty();
    wire::lemma_query_round_trips(sender, target, more);
    wire::lemma_contact_round_trips(sender);
    let told = wire::contact_of(wire::wire_contact(sender));
    assert(told == sender);
    let (taught, contacts) = choose|taught: A, contacts: Seq<Contact<ID_BYTES>>|
        {
            &&& #[trigger] A::offered(before.close_nodes, told, taught)
            &&& taught.wf()
            &&& #[trigger] A::asked(taught, target, after.close_nodes, contacts)
            &&& reply == Some(wire::contacts_bytes(wire::wire_contacts(contacts)))
        };
    let bytes = reply->0;
    assert(bytes + none =~= bytes);
    wire::lemma_contacts_round_trip(contacts, none);
    wire::lemma_contacts_come_back_whole(
        contacts,
        wire::contacts_of(wire::wire_contacts(contacts)),
    );
    (taught, contacts)
}

/// A body that no query was written in is not answered, and teaches nothing.
pub proof fn lemma_an_unreadable_query_is_not_answered<A: CloseNodes<ID_BYTES>>(
    before: Context<A>,
    body: Seq<u8>,
    after: Context<A>,
    reply: Option<Seq<u8>>,
)
    requires
        answers(before, body, after, reply),
        forall|sender: wire::WireContact, target: NodeId|
            !(#[trigger] wire::query_bytes(sender, target@)).is_prefix_of(body),
    ensures
        after == before,
        reply is None,
{
    wire::lemma_what_is_read_was_written(body);
}

} // verus!
