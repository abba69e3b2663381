//! The client side of the four Kademlia RPCs: what a request says, and what is
//! made of the answer.
//!
//! Sending the one and waiting for the other is up to a transport. PING and
//! FIND_NODE go over the plain one, a datagram each way; STORE and FIND_VALUE
//! carry values and go over the robust one.

use crate::close_nodes::{CloseNodes, Contact, Key, NodeId, ID_BYTES};
use crate::handle_rpc;
use crate::handle_rpc::store::STORED;
use crate::handle_rpc::{find_node, find_value, ping, store, Context, Method, Request};
use crate::hashing;
use crate::text::same_bytes;
use crate::wire;
use vstd::prelude::*;

verus! {

/// How long to wait on a reply before giving up on a peer, in milliseconds.
///
/// The datagram transports resend on silence and give up on their own, so this
/// is a backstop for the ones that do not, and a bound on how long a single
/// unreachable peer can hold up a lookup.
pub const RPC_TIMEOUT: u64 = 2000;

/// Result of a FIND_VALUE: either the value itself, or the closest contacts
/// the peer knows about if it does not hold the key.
#[derive(Clone, Debug, PartialEq, Eq)]
pub enum FindValue {
    Value(Vec<u8>),
    Closest(Vec<Contact<ID_BYTES>>),
}

/// The four Kademlia RPCs, issued over some transport.
#[non_exhaustive]
pub struct Rpc<T, U, A> {
    /// Us, as the peer we are calling should record us.
    ///
    /// Every request carries our id. A peer that answers a question has met a
    /// live node and should remember it, and the address a datagram arrives
    /// from is not enough on its own: routing needs the [`NodeId`] too.
    my_contact: Contact<ID_BYTES>,
    transport: T,
    robust_transport: U,
    close_nodes: A,
}

/// Whether requests of `method` go over the robust transport.
pub fn goes_over_robust_transport(method: Method) -> (robust: bool)
    ensures
        robust == (method is Store || method is FindValue),
{
    match method {
        Method::Ping => false,
        Method::Store => true,
        Method::FindNode => false,
        Method::FindValue => true,
    }
}

/// Put who is asking and which RPC it is in front of a body: the framing that
/// [`parse_framed`](crate::handle_rpc::parse_framed) takes off again.
pub fn frame_request(sender: &NodeId, method: Method, body: &[u8]) -> (payload: Vec<u8>)
    ensures
        payload@ == handle_rpc::framed_request(sender@, method, body@),
{
    let mut payload: Vec<u8> = vstd::slice::slice_to_vec(sender.as_slice());
    payload.extend_from_slice(method.tag());
    payload.extend_from_slice(body);
    assert(payload@ =~= handle_rpc::framed_request(sender@, method, body@));
    payload
}

impl<T, U, A> Rpc<T, U, A> {
    pub closed spec fn me(&self) -> Contact<ID_BYTES> {
        self.my_contact
    }

    pub closed spec fn plain(&self) -> T {
        self.transport
    }

    pub closed spec fn robust(&self) -> U {
        self.robust_transport
    }

    pub closed spec fn table(&self) -> A {
        self.close_nodes
    }

    pub fn new(
        my_contact: Contact<ID_BYTES>,
        transport: T,
        robust_transport: U,
        close_nodes: A,
    ) -> (rpc: Self)
        ensures
            rpc.me() == my_contact,
            rpc.plain() == transport,
            rpc.robust() == robust_transport,
            rpc.table() == close_nodes,
    {
        Self { my_contact, transport, robust_transport, close_nodes }
    }

    pub fn transport(&self) -> (transport: &T)
        ensures
            *transport == self.plain(),
    {
        &self.transport
    }

    pub fn robust_transport(&self) -> (transport: &U)
        ensures
            *transport == self.robust(),
    {
        &self.robust_transport
    }

    pub fn close_nodes(&self) -> (table: &A)
        ensures
            *table == self.table(),
    {
        &self.close_nodes
    }

    pub fn my_contact(&self) -> (contact: Contact<ID_BYTES>)
        ensures
            contact == self.me(),
    {
        self.my_contact
    }

    pub fn my_id(&self) -> (id: NodeId)
        ensures
            id == self.me().id,
    {
        self.my_contact.id
    }

    /// A PING has nothing to say but who is asking.
    pub fn ping_request(&self) -> (payload: Vec<u8>)
        ensures
            payload@ == handle_rpc::framed_request(self.me().id@, Method::Ping, Seq::empty()),
    {
        let body: Vec<u8> = Vec::new();
        frame_request(&self.my_contact.id, Method::Ping, body.as_slice())
    }

    /// A STORE of `value` under `key`.
    pub fn store_request(&self, key: Key, value: Vec<u8>) -> (payload: Option<Vec<u8>>)
        ensures
            payload matches Some(payload) && payload@ == handle_rpc::framed_request(
                self.me().id@,
                Method::Store,
                wire::pair_bytes(key@, value@),
            ),
    {
        match store::encode_request(key, value) {
            Some(body) => Some(
                frame_request(&self.my_contact.id, Method::Store, body.as_slice()),
            ),
            None => None,
        }
    }

    /// A FIND_NODE for `target`.
    pub fn find_node_request(&self, target: NodeId) -> (payload: Option<Vec<u8>>)
        ensures
            payload matches Some(payload) && payload@ == handle_rpc::framed_request(
                self.me().id@,
                Method::FindNode,
                wire::query_bytes(wire::wire_contact(self.me()), target@),
            ),
    {
        match find_node::encode_request(self.my_contact, target) {
            Some(body) => Some(
                frame_request(&self.my_contact.id, Method::FindNode, body.as_slice()),
            ),
            None => None,
        }
    }

    /// A FIND_VALUE for `key`.
    pub fn find_value_request(&self, key: Key) -> (payload: Option<Vec<u8>>)
        ensures
            payload matches Some(payload) && payload@ == handle_rpc::framed_request(
                self.me().id@,
                Method::FindValue,
                key@,
            ),
    {
        match wire::encode_id(&key) {
            Some(body) => Some(
                frame_request(&self.my_contact.id, Method::FindValue, body.as_slice()),
            ),
            None => None,
        }
    }
}

/// What came of a PING: the peer's id. `Some` is the liveness answer as well
/// as the identity one: a node that replied is alive. `None` covers every way
/// the probe can fail, none of which the caller can tell apart on a lossy wire
/// anyway.
pub fn ping_reply(reply: Option<Vec<u8>>) -> (id: Option<NodeId>)
    ensures
        id == match reply {
            Some(reply) => wire::decoded_id(reply@),
            None => None,
        },
{
    match reply {
        Some(reply) => ping::decode_reply(reply.as_slice()),
        None => None,
    }
}

/// What came of a STORE: whether the peer has acknowledged it.
pub fn store_reply(reply: Option<Vec<u8>>) -> (stored: bool)
    ensures
        stored == (reply matches Some(reply) && reply@ == STORED@),
{
    match reply {
        Some(reply) => same_bytes(reply.as_slice(), STORED.as_slice()),
        None => false,
    }
}

/// What came of a FIND_NODE: the contacts the peer knows closest.
///
/// An empty vector is every kind of "nothing useful came back": an unreachable
/// peer, a garbled reply, or a peer that genuinely knows nobody. A lookup
/// treats all three the same (it moves on to the next candidate) so they do
/// not need telling apart here.
pub fn find_node_reply(reply: Option<Vec<u8>>) -> (contacts: Vec<Contact<ID_BYTES>>)
    ensures
        contacts@ == match reply {
            Some(reply) => match wire::decoded_contacts(reply@) {
                Some(contacts) => contacts,
                None => Seq::empty(),
            },
            None => Seq::empty(),
        },
{
    match reply {
        Some(reply) => match find_node::decode_reply(reply.as_slice()) {
            Some(contacts) => contacts,
            None => Vec::new(),
        },
        None => Vec::new(),
    }
}

/// What came of a FIND_VALUE: the value, or the closest contacts that the peer
/// knows. No contacts is every kind of "nothing useful came back".
pub fn find_value_reply(reply: Option<Vec<u8>>) -> (found: FindValue)
    ensures
        match reply {
            Some(reply) => match wire::decoded_found(reply@) {
                Some(Ok(value)) => found matches FindValue::Value(out) && out@ == value,
                Some(Err(contacts)) => found matches FindValue::Closest(out) && out@ == contacts,
                None => found matches FindValue::Closest(out) && out@.len() == 0,
            },
            None => found matches FindValue::Closest(out) && out@.len() == 0,
        },
{
    match reply {
        Some(reply) => match wire::decode_found(reply.as_slice()) {
            Some(Ok(value)) => FindValue::Value(value),
            Some(Err(contacts)) => FindValue::Closest(contacts),
            None => FindValue::Closest(Vec::new()),
        },
        None => FindValue::Closest(Vec::new()),
    }
}

/// A PING is answered, and what is read off the answer is who the peer is.
pub proof fn lemma_a_ping_names_the_peer<A: CloseNodes<ID_BYTES>>(
    before: Context<A>,
    sender: NodeId,
    body: Seq<u8>,
    request: Request,
    after: Context<A>,
    reply: Option<Seq<u8>>,
)
    requires
        request.payload@ == handle_rpc::framed_request(sender@, Method::Ping, body),
        handle_rpc::dispatched(before, request, after, reply),
    ensures
        reply is Some,
        wire::decoded_id(reply->0.skip(8)) == Some(before.my_id),
{
    handle_rpc::lemma_request_round_trips(sender, Method::Ping, body);
    handle_rpc::lemma_a_reply_names_its_request(request.id, before.my_id@);
    wire::lemma_id_round_trips(before.my_id, Seq::empty());
    assert(before.my_id@ + Seq::<u8>::empty() =~= before.my_id@);
}

/// A FIND_NODE is answered, and what is read off the answer is what the peer's
/// table says about the target once the peer was told of the sender.
pub proof fn lemma_a_find_node_brings_the_peers_contacts<A: CloseNodes<ID_BYTES>>(
    before: Context<A>,
    sender: Contact<ID_BYTES>,
    target: NodeId,
    request: Request,
    after: Context<A>,
    reply: Option<Seq<u8>>,
) -> (contacts: Seq<Contact<ID_BYTES>>)
    requires
        request.payload@ == handle_rpc::framed_request(
            sender.id@,
            Method::FindNode,
            wire::query_bytes(wire::wire_contact(sender), target@),
        ),
        handle_rpc::dispatched(before, request, after, reply),
        reply matches Some(reply) ==> reply.len() <= u64::MAX,
    ensures
        reply is Some,
        wire::decoded_contacts(reply->0.skip(8)) == Some(
            wire::contacts_of(wire::wire_contacts(contacts)),
        ),
        wire::decoded_contacts(reply->0.skip(8))->0.len() == contacts.len(),
        forall|i: int|
            0 <= i < contacts.len() ==> {
                let named = #[trigger] wire::decoded_contacts(reply->0.skip(8))->0[i];
                &&& named.id == contacts[i].id
                &&& contacts[i].address is V4 ==> named.address == contacts[i].address
            },
        exists|between: Context<A>, taught: A|
            {
                &&& #[trigger] handle_rpc::learned(before, sender.id, request, between)
                &&& between.wf()
                &&& A::offered(
                    between.close_nodes,
                    wire::contact_of(wire::wire_contact(sender)),
                    taught,
                )
                &&& taught.wf()
                &&& #[trigger] A::asked(taught, target, after.close_nodes, contacts)
            },
{
    let none = Seq::<u8>::empty();
    let body = wire::query_bytes(wire::wire_contact(sender), target@);
    handle_rpc::lemma_request_round_trips(sender.id, Method::FindNode, body);
    assert(body + none =~= body);
    wire::lemma_query_round_trips(sender, target, none);
    assert(handle_rpc::served(
        before,
        sender.id,
        Method::FindNode,
        body,
        request,
        after,
        reply,
    ));
    let (between, answer) = choose|between: Context<A>, answer: Option<Seq<u8>>|
        {
            &&& handle_rpc::learned(before, sender.id, request, between)
            &&& between.wf()
            &&& #[trigger] handle_rpc::handled(Method::FindNode, between, body, after, answer)
            &&& reply == match answer {
                Some(answer) => Some(handle_rpc::framed_reply(request.id, answer)),
                None => None,
            }
        };
    let told = wire::contact_of(wire::wire_contact(sender));
    assert(find_node::answers(between, body, after, answer));
    let (taught, contacts) = choose|taught: A, contacts: Seq<Contact<ID_BYTES>>|
        {
            &&& #[trigger] A::offered(between.close_nodes, told, taught)
            &&& taught.wf()
            &&& #[trigger] A::asked(taught, target, after.close_nodes, contacts)
            &&& answer == Some(wire::contacts_bytes(wire::wire_contacts(contacts)))
        };
    let bytes = wire::contacts_bytes(wire::wire_contacts(contacts));
    handle_rpc::lemma_a_reply_names_its_request(request.id, bytes);
    assert(bytes + none =~= bytes);
    assert(reply->0.skip(8) == bytes);
    wire::lemma_contacts_round_trip(contacts, none);
    wire::lemma_contacts_come_back_whole(
        contacts,
        wire::contacts_of(wire::wire_contacts(contacts)),
    );
    contacts
}

/// A FIND_VALUE is answered, and what is read off the answer is the value that
/// the peer holds under the key, or else exactly what its table says about the
/// key, every contact in its order.
pub proof fn lemma_a_find_value_brings_what_the_peer_has<A: CloseNodes<ID_BYTES>>(
    before: Context<A>,
    sender: NodeId,
    key: Key,
    request: Request,
    after: Context<A>,
    reply: Option<Seq<u8>>,
) -> (seen: (Context<A>, Seq<Contact<ID_BYTES>>))
    requires
        request.payload@ == handle_rpc::framed_request(sender@, Method::FindValue, key@),
        handle_rpc::dispatched(before, request, after, reply),
        reply matches Some(reply) ==> reply.len() <= u64::MAX,
    ensures
        reply is Some,
        handle_rpc::learned(before, sender, request, seen.0),
        after.values@ == before.values@,
        before.values@.dom().contains(key@) ==> wire::decoded_found(reply->0.skip(8)) == Some(
            Ok::<Seq<u8>, Seq<Contact<ID_BYTES>>>(before.values@[key@]),
        ),
        !before.values@.dom().contains(key@) ==> {
            &&& A::asked(seen.0.close_nodes, key, after.close_nodes, seen.1)
            &&& wire::decoded_found(reply->0.skip(8)) matches Some(Err(named))
            &&& named.len() == seen.1.len()
            &&& forall|i: int|
                0 <= i < named.len() ==> (#[trigger] named[i]).id == seen.1[i].id && (
                seen.1[i].address is V4 ==> named[i].address == seen.1[i].address)
        },
{
    let none = Seq::<u8>::empty();
    handle_rpc::lemma_request_round_trips(sender, Method::FindValue, key@);
    assert(handle_rpc::served(
        before,
        sender,
        Method::FindValue,
        key@,
        request,
        after,
        reply,
    ));
    let (between, answer) = choose|between: Context<A>, answer: Option<Seq<u8>>|
        {
            &&& handle_rpc::learned(before, sender, request, between)
            &&& between.wf()
            &&& #[trigger] handle_rpc::handled(Method::FindValue, between, key@, after, answer)
            &&& reply == match answer {
                Some(answer) => Some(handle_rpc::framed_reply(request.id, answer)),
                None => None,
            }
        };
    assert(key@ + none =~= key@);
    assert(find_value::answers(between, key@ + none, after, answer));
    if let Some(bytes) = answer {
        handle_rpc::lemma_a_reply_names_its_request(request.id, bytes);
        assert(reply->0.skip(8) == bytes);
        assert(bytes.len() <= reply->0.len());
    }
    let contacts = find_value::lemma_what_is_found_is_answered_whole(
        between,
        key,
        none,
        after,
        answer,
    );
    (between, contacts)
}

/// A STORE is acknowledged exactly if the key is the value's hash, and then
/// the peer holds the value under it. Whether or not it is, no other value
/// changes.
pub proof fn lemma_a_store_is_acknowledged_if_it_matches<A: CloseNodes<ID_BYTES>>(
    before: Context<A>,
    sender: NodeId,
    key: Key,
    value: Seq<u8>,
    request: Request,
    after: Context<A>,
    reply: Option<Seq<u8>>,
)
    requires
        wire::pair_bytes(key@, value).len() <= u64::MAX,
        request.payload@ == handle_rpc::framed_request(
            sender@,
            Method::Store,
            wire::pair_bytes(key@, value),
        ),
        handle_rpc::dispatched(before, request, after, reply),
    ensures
        reply is Some <==> key@ == hashing::sha256(value),
        reply is Some ==> reply->0.skip(8) == STORED@,
        reply is Some ==> after.values@.dom().contains(key@) && after.values@[key@] == value,
        reply is None ==> after.values@ == before.values@,
        forall|other: Seq<u8>|
            other != key@ ==> {
                &&& #[trigger] after.values@.dom().contains(other) == before.values@.dom().contains(
                    other,
                )
                &&& after.values@.dom().contains(other) ==> after.values@[other]
                    == before.values@[other]
            },
{
    let none = Seq::<u8>::empty();
    let body = wire::pair_bytes(key@, value);
    handle_rpc::lemma_request_round_trips(sender, Method::Store, body);
    assert(handle_rpc::served(before, sender, Method::Store, body, request, after, reply));
    let (between, answer) = choose|between: Context<A>, answer: Option<Seq<u8>>|
        {
            &&& handle_rpc::learned(before, sender, request, between)
            &&& between.wf()
            &&& #[trigger] handle_rpc::handled(Method::Store, between, body, after, answer)
            &&& reply == match answer {
                Some(answer) => Some(handle_rpc::framed_reply(request.id, answer)),
                None => None,
            }
        };
    assert(body + none =~= body);
    assert(store::answers(between, body + none, after, answer));
    store::lemma_a_store_is_held_if_it_matches(between, key, value, none, after, answer);
    if let Some(bytes) = answer {
        handle_rpc::lemma_a_reply_names_its_request(request.id, bytes);
        assert(bytes =~= STORED@);
    }
}

} // verus!
