//! The client half of the connection-shaped RPC framing, over any connection.
//!
//! One connection per request: write an 8-byte big-endian id and the payload,
//! half-close, read the echoed id and the reply behind it. There is no length
//! prefix, so the half-close and the final EOF are what delimit the two
//! messages.

use crate::handle_rpc;
use crate::rpc_transport;
use crate::rpc_transport::{decode_id, frame, request_id, REPLY_TAG};
use vstd::prelude::*;

verus! {

/// `rand::random`: some number, by chance.
#[verifier::external_body]
fn random_id() -> u64 {
    rand::random::<u64>()
}

/// What to write on a connection for a request that is numbered `id` by
/// chance, and the number to expect back.
pub fn numbered_request(id: u64, payload: &[u8]) -> (request: (u64, Vec<u8>))
    ensures
        request.0 == rpc_transport::untagged(id),
        request.1@ == rpc_transport::framed(request.0, payload@),
{
    // Masked, not just assumed clear: a random number sets the reply tag half
    // the time, and `frame_reply` is what sets it legitimately on the way
    // back.
    let id: u64 = request_id(id);
    (id, frame(id, payload))
}

/// What to write on a connection for a request, and the number to expect back.
pub fn new_request(payload: &[u8]) -> (request: (u64, Vec<u8>))
    ensures
        request.0 < REPLY_TAG,
        request.1@ == rpc_transport::framed(request.0, payload@),
{
    numbered_request(random_id(), payload)
}

/// Check the id that a reply starts with against the request's: `Err` has the
/// id that came back if it is another one.
///
/// An error, not an assert: the peer writes these bytes, so a panic here would
/// be a peer's choice to make about us.
pub fn check_echo(id: u64, echo: &[u8]) -> (checked: Result<(), u64>)
    requires
        echo@.len() >= 8,
    ensures
        checked == if rpc_transport::untagged(rpc_transport::leading_id(echo@)) == id {
            Ok::<(), u64>(())
        } else {
            Err::<(), u64>(rpc_transport::leading_id(echo@))
        },
{
    let echoed: u64 = decode_id(echo);
    if request_id(echoed) != id {
        return Err(echoed);
    }
    Ok(())
}

/// The reply to a request passes for the reply to it, and to no other.
pub proof fn lemma_only_its_own_reply_passes(id: u64, other: u64, body: Seq<u8>)
    requires
        id < REPLY_TAG,
        other < REPLY_TAG,
    ensures
        (rpc_transport::untagged(rpc_transport::leading_id(handle_rpc::framed_reply(id, body)))
            == other) <==> id == other,
{
    handle_rpc::lemma_a_reply_names_its_request(id, body);
}

} // verus!
