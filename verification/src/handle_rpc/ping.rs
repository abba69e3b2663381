//! PING: prove the node is alive, and say who is alive.
//!
//! The one RPC with no lookup behind it, so it is also the liveness probe
//! every other part of the system leans on: bucket refresh, eviction, and a
//! caller deciding whether a contact is worth keeping.
//!
//! It carries the join handshake as well. A node joining the network starts
//! with a bootstrap *address* and nothing else, and
//! [`Contact`](crate::close_nodes::Contact) needs an id to go with it. So the
//! reply is our [`NodeId`]: one round trip turns an address into a contact the
//! joiner can route with, see [`bootstrap`](crate::bootstrap), which is the
//! caller that needs it.
//!
//! The request itself is empty. Who is asking travels ahead of the method tag,
//! in the framing every request carries, and is learned by the dispatcher
//! before any handler runs.

use crate::address::Address;
use crate::close_nodes::{CloseNodes, NodeId, ID_BYTES};
use crate::handle_rpc::Context;
use crate::wire;
use vstd::prelude::*;

verus! {

/// Read a PING reply as the responder's id.
pub fn decode_reply(reply: &[u8]) -> (id: Option<NodeId>)
    ensures
        id == wire::decoded_id(reply@),
{
    wire::decode_id(reply)
}

/// A PING changes nothing and is answered with our id.
pub open spec fn answers<A>(before: Context<A>, after: Context<A>, reply: Option<Seq<u8>>) -> bool {
    &&& after == before
    &&& reply == Some(before.my_id@)
}

/// Answer a PING with our own [`NodeId`].
///
/// `body` is expected to be empty; a non-empty one is a peer that knows
/// something we do not, and is answered anyway. Refusing to reply would only
/// make us look dead to a node that is talking to us in good faith.
pub fn handle<A: CloseNodes<ID_BYTES>>(
    context: &mut Context<A>,
    _id: u64,
    _from: Address,
    _body: &[u8],
) -> (reply: Option<Vec<u8>>)
    requires
        old(context).wf(),
    ensures
        final(context).wf(),
        old(context).is_content_addressed() ==> final(context).is_content_addressed(),
        reply matches Some(bytes) && answers(*old(context), *final(context), Some(bytes@)),
{
    wire::encode_id(&context.my_id)
}

/// A PING is answered with who we are, and changes nothing.
pub proof fn lemma_a_ping_changes_nothing<A>(
    before: Context<A>,
    after: Context<A>,
    reply: Option<Seq<u8>>,
)
    requires
        answers(before, after, reply),
    ensures
        after == before,
        wire::decoded_id(reply->0) == Some(before.my_id),
        reply is Some && reply->0.len() == 32,
{
    let none = Seq::<u8>::empty();
    assert(before.my_id@ + none =~= before.my_id@);
    wire::lemma_id_round_trips(before.my_id, none);
}

} // verus!
