//! Requests over any datagram channel.
//!
//! Every payload gets an 8-byte big-endian request id in front, replies are
//! matched back to the caller that is awaiting them through
//! [`Pending`](crate::pending::Pending), and a request that goes unanswered is
//! sent again until a reply arrives or the attempt budget runs out.
//!
//! # The one receive loop
//!
//! A node's socket carries both directions: replies to what it asked, and
//! requests other nodes are asking it. There is exactly one loop reading that
//! socket, and it splits the two on [`REPLY_TAG`]: a tagged datagram goes to
//! [`Pending`](crate::pending::Pending), an untagged one is a request, for
//! [`handle_rpc`](crate::handle_rpc) to answer.

use crate::address::Address;
use crate::handle_rpc;
use crate::handle_rpc::Request;
use crate::pending;
use crate::pending::Pending;
use crate::rpc_transport;
use crate::rpc_transport::{frame, is_reply, request_id, REPLY_TAG};
use tokio::sync::oneshot;
use vstd::prelude::*;

verus! {

/// How long to wait for a reply before resending the request, in milliseconds.
pub const RESEND_INTERVAL: u64 = 200;

/// How many times to send a request before giving up on it.
pub const MAX_ATTEMPTS: usize = 5;

/// How much of a datagram is read.
pub const BUFFER_LEN: usize = 1024;

/// What a datagram that arrived is.
pub enum Inbound {
    /// Too short to carry an id.
    TooShort,
    /// A question that is being asked of us.
    Request(Request),
    /// The answer to request `id`.
    Reply { id: u64, payload: Vec<u8> },
}

/// What to do about a datagram that arrived.
pub enum Received {
    /// Nothing: it is too short, or a reply that nobody waits for.
    Dropped,
    /// Answer this request.
    Serve(Request),
    /// Hand this payload to the call that waits for it.
    Answer { to: oneshot::Sender<Vec<u8>>, payload: Vec<u8> },
}

/// The number of the request that a datagram answers, if it is a reply.
pub open spec fn answered(datagram: Seq<u8>) -> Option<u64> {
    if datagram.len() >= 8 && rpc_transport::leading_id(datagram) >= REPLY_TAG {
        Some(rpc_transport::untagged(rpc_transport::leading_id(datagram)) as u64)
    } else {
        None
    }
}

/// Tell a request from a reply. Nobody here is waiting on an untagged id,
/// whether or not the number matches one of ours: it is a question being asked
/// of us.
pub fn classify(from: Address, datagram: &[u8]) -> (inbound: Inbound)
    ensures
        match inbound {
            Inbound::TooShort => datagram@.len() < 8,
            Inbound::Request(request) => {
                &&& datagram@.len() >= 8
                &&& rpc_transport::leading_id(datagram@) < REPLY_TAG
                &&& request.id == rpc_transport::leading_id(datagram@)
                &&& request.from == from
                &&& request.from_is_reachable
                &&& request.payload@ == datagram@.skip(8)
            },
            Inbound::Reply { id, payload } => {
                &&& datagram@.len() >= 8
                &&& rpc_transport::leading_id(datagram@) >= REPLY_TAG
                &&& id == rpc_transport::untagged(rpc_transport::leading_id(datagram@))
                &&& payload@ == datagram@.skip(8)
            },
        },
{
    match Request::from_datagram(from, datagram) {
        Some(request) => {
            if is_reply(request.id) {
                Inbound::Reply { id: request_id(request.id), payload: request.payload }
            } else {
                Inbound::Request(request)
            }
        },
        None => Inbound::TooShort,
    }
}

/// Take in a datagram that arrived. A reply resolves the call that waits under
/// its number, if one does, with the bytes behind the id. A request is to be
/// served and resolves no call, even one that waits under the same number.
/// Anything else is dropped.
pub fn receive(pending: &mut Pending, from: Address, datagram: &[u8]) -> (received: Received)
    ensures
        final(pending).counted() == old(pending).counted(),
        old(pending).wf() ==> final(pending).wf(),
        final(pending).lines() == match answered(datagram@) {
            Some(id) => old(pending).lines().remove(id),
            None => old(pending).lines(),
        },
        received is Serve <==> datagram@.len() >= 8 && rpc_transport::leading_id(datagram@)
            < REPLY_TAG,
        received matches Received::Serve(request) ==> {
            &&& request.id == rpc_transport::leading_id(datagram@)
            &&& request.from == from
            &&& request.from_is_reachable
            &&& request.payload@ == datagram@.skip(8)
        },
        received is Answer <==> (answered(datagram@) matches Some(id) && old(
            pending,
        ).lines().dom().contains(id)),
        received matches Received::Answer { to, payload } ==> {
            &&& payload@ == datagram@.skip(8)
            &&& pending::sends_on(to) == old(pending).lines()[answered(datagram@)->0]
        },
{
    match classify(from, datagram) {
        Inbound::TooShort => Received::Dropped,
        Inbound::Request(request) => Received::Serve(request),
        Inbound::Reply { id, payload } => match pending.claim(id, payload) {
            Some((to, payload)) => Received::Answer { to, payload },
            None => Received::Dropped,
        },
    }
}

/// Number a request: the id that its reply will come back under, and the
/// datagram to send.
pub fn number_request(pending: &mut Pending, payload: &[u8]) -> (numbered: (u64, Vec<u8>))
    ensures
        numbered.0 == rpc_transport::untagged(old(pending).counted()),
        numbered.1@ == rpc_transport::framed(numbered.0, payload@),
        final(pending).counted() == old(pending).counted().wrapping_add(1),
        final(pending).lines() == old(pending).lines(),
{
    // Masked, not just assumed clear: the tag bit is what marks the reply this
    // registers for, and an id that set it would register under one number and
    // be answered under another.
    let id: u64 = request_id(pending.next_id());
    (id, frame(id, payload))
}

/// How often a request was sent.
pub struct Attempts {
    made: usize,
}

impl Attempts {
    pub closed spec fn count(&self) -> nat {
        self.made as nat
    }

    /// No request is sent more often than it may be.
    pub open spec fn wf(&self) -> bool {
        self.count() <= MAX_ATTEMPTS
    }

    pub fn new() -> (attempts: Self)
        ensures
            attempts.wf(),
            attempts.count() == 0,
    {
        Attempts { made: 0 }
    }

    /// Whether to send the request once more: at the start, and whenever no
    /// reply has come for [`RESEND_INTERVAL`]. After [`MAX_ATTEMPTS`] it has
    /// failed.
    pub fn try_again(&mut self) -> (send: bool)
        requires
            old(self).wf(),
        ensures
            final(self).wf(),
            send == (old(self).count() < MAX_ATTEMPTS),
            final(self).count() == if send {
                old(self).count() + 1
            } else {
                old(self).count()
            },
    {
        if self.made < MAX_ATTEMPTS {
            self.made = self.made + 1;
            true
        } else {
            false
        }
    }
}

/// A datagram that a peer frames as the reply to our request is taken for that
/// reply, and one that we frame as a request is never taken for a reply.
pub proof fn lemma_requests_and_replies_arrive_as_such(id: u64, payload: Seq<u8>)
    requires
        id < REPLY_TAG,
    ensures
        rpc_transport::framed(id, payload).len() >= 8,
        rpc_transport::leading_id(rpc_transport::framed(id, payload)) == id,
        handle_rpc::framed_reply(id, payload).len() >= 8,
        rpc_transport::leading_id(handle_rpc::framed_reply(id, payload)) >= REPLY_TAG,
        rpc_transport::untagged(
            rpc_transport::leading_id(handle_rpc::framed_reply(id, payload)),
        ) == id,
        handle_rpc::framed_reply(id, payload).skip(8) == payload,
{
    rpc_transport::lemma_framing_round_trips(id, payload, Seq::empty());
    rpc_transport::lemma_framing_round_trips(
        (REPLY_TAG + rpc_transport::untagged(id)) as u64,
        payload,
        Seq::empty(),
    );
    handle_rpc::lemma_a_reply_names_its_request(id, payload);
}

/// A call is resolved by its own reply only, and with what the peer answered:
/// of all that can arrive, what is handed to the channel that `id` waits at is
/// what stands behind the id in a datagram that is framed as the reply to
/// `id`.
pub proof fn lemma_a_call_is_resolved_by_its_own_reply(
    lines: Map<u64, nat>,
    id: u64,
    datagram: Seq<u8>,
    body: Seq<u8>,
)
    requires
        id < REPLY_TAG,
        pending::are_apart(lines),
        lines.dom().contains(id),
    ensures
        answered(handle_rpc::framed_reply(id, body)) == Some(id),
        handle_rpc::framed_reply(id, body).skip(8) == body,
        answered(rpc_transport::framed(id, body)) is None,
        (answered(datagram) matches Some(number) && lines.dom().contains(number) && lines[number]
            == lines[id]) ==> datagram == handle_rpc::framed_reply(id, datagram.skip(8)),
{
    lemma_requests_and_replies_arrive_as_such(id, body);
    rpc_transport::lemma_framing_round_trips(id, body, datagram);
}

/// What a datagram answers: a request under the number that its id has without
/// the tag, if the tag is set, and nothing if not.
pub proof fn lemma_the_tag_marks_a_reply(datagram: Seq<u8>, id: u64)
    ensures
        answered(datagram) == Some(id) <==> datagram.len() >= 8 && rpc_transport::leading_id(
            datagram,
        ) == id + REPLY_TAG,
{
}

} // verus!
