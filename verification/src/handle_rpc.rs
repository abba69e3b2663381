//! The server side of the four Kademlia RPCs.
//!
//! [`Rpc`](crate::rpc::Rpc) is the client half: it encodes a request, hands
//! it to a transport and waits for the reply. This module is the other half:
//! [`dispatch`] routes a request's method tag to a handler, and the serve loop
//! it came from sends the answer back the way it arrived.
//!
//! # Where the requests come from
//!
//! [`dispatch`] does not read a socket. A node has one receive loop per
//! transport and it lives with that transport:
//!
//! - Datagrams: the loop that reads the socket already matches replies against
//!   [`Pending`](crate::pending::Pending). It splits the two on
//!   [`REPLY_TAG`](crate::rpc_transport::REPLY_TAG) and hands the requests on,
//!   to be answered over that same socket.
//! - Connections: one connection carries one request, and the reply goes back
//!   down the connection it arrived on.
//!
//! # What `from` means, and why it differs
//!
//! Both shapes go through the same [`dispatch`] and differ on one thing:
//! whether `from` is somewhere the sender can be reached, and so worth learning
//! as a [`Contact`]. A datagram's `from` *is* the address its sender listens
//! on. A connection's is the ephemeral port that was picked for that one dial:
//! reply down it, then forget it.
//!
//! That is [`Request::from_is_reachable`], fixed by which constructor built the
//! request ([`Request::from_datagram`] or [`Request::from_connection`], one per
//! wire shape) and never a parameter, so no call site can pass the wrong one.
//! The rule follows from the *shape*, not the protocol, hence the names.

pub mod find_node;
pub mod find_value;
pub mod ping;
pub mod store;

use crate::address::Address;
use crate::close_nodes;
use crate::close_nodes::{CloseNodes, Contact, Key, NodeId, ID_BYTES};
use crate::hashing;
use crate::rpc_transport;
use crate::rpc_transport::{decode_id, frame, reply_id, REPLY_TAG};
use crate::text;
use crate::values;
use crate::values::Values;
use crate::wire;
use vstd::prelude::*;

verus! {

/// Wire framing: an 8-byte big-endian request id, then the payload. The same
/// framing every transport writes.
pub const ID_LEN: usize = 8;

/// Wire framing: right after the request id comes the sender's [`NodeId`],
/// ahead of the method tag and body. Every RPC [`Rpc`](crate::rpc::Rpc)
/// issues is framed with this prefix, and [`parse_framed`] strips exactly
/// this much off a request's payload before looking at the method tag.
pub const NODE_ID_LEN: usize = 32;

/// A reply to request `id`: the id back on the front, tagged as a reply, and
/// then what is answered.
pub open spec fn framed_reply(id: u64, body: Seq<u8>) -> Seq<u8> {
    rpc_transport::framed((REPLY_TAG + rpc_transport::untagged(id)) as u64, body)
}

/// Frame a reply to request `id`: the id back on the front under
/// [`REPLY_TAG`](crate::rpc_transport::REPLY_TAG), then `body`.
///
/// The echo is load-bearing. The requester registered a
/// [`Pending`](crate::pending::Pending) slot under this id and
/// [`Pending::deliver`](crate::pending::Pending::deliver) is what wakes the
/// task waiting in it, matching on the id alone, since a datagram carries
/// nothing else tying it to a request. Answer without the id, or with the
/// wrong one, and the reply arrives as an id nobody registered: dropped by the
/// receive loop, while the caller sits out its full timeout as though we had
/// never replied at all.
///
/// The tag is what stops the requester's receive loop from reading this as a
/// fresh question rather than its answer.
pub fn frame_reply(id: u64, body: &[u8]) -> (datagram: Vec<u8>)
    ensures
        datagram@ == framed_reply(id, body@),
{
    frame(reply_id(id), body)
}

/// Which RPC a request is, identified by the tag its payload starts with.
///
/// The tags are the wire vocabulary, shared with the client side in
/// [`Rpc`](crate::rpc::Rpc): a request encoded there has to be recognised
/// here, so both ends go through [`Method::tag`] rather than spelling the
/// bytes out twice.
#[derive(Clone, Copy, Debug, PartialEq, Eq, Structural)]
pub enum Method {
    Ping,
    Store,
    FindNode,
    FindValue,
}

/// The bytes a request of a method starts with.
pub open spec fn tag_bytes(method: Method) -> Seq<u8> {
    text::ascii(
        match method {
            Method::Ping => "PING"@,
            Method::Store => "STORE"@,
            Method::FindNode => "FIND_NODE"@,
            Method::FindValue => "FIND_VALUE"@,
        },
    )
}

/// The method whose tag a payload starts with, and the body behind it.
pub open spec fn split(payload: Seq<u8>) -> Option<(Method, Seq<u8>)> {
    if exists|method: Method| (#[trigger] tag_bytes(method)).is_prefix_of(payload) {
        let method = choose|method: Method| (#[trigger] tag_bytes(method)).is_prefix_of(payload);
        Some((method, payload.skip(tag_bytes(method).len() as int)))
    } else {
        None
    }
}

/// No tag is a prefix of another, so a payload starts with one at most.
pub proof fn lemma_one_tag(a: Method, b: Method, payload: Seq<u8>)
    requires
        tag_bytes(a).is_prefix_of(payload),
        tag_bytes(b).is_prefix_of(payload),
    ensures
        a == b,
{
    reveal_strlit("PING");
    reveal_strlit("STORE");
    reveal_strlit("FIND_NODE");
    reveal_strlit("FIND_VALUE");
    let x = tag_bytes(a);
    let y = tag_bytes(b);
    assert(x[0] == payload[0] && y[0] == payload[0]);
    assert(a is FindNode || a is FindValue ==> x[5] == payload[5]);
    assert(b is FindNode || b is FindValue ==> y[5] == payload[5]);
}

/// Whether `payload` starts with `tag`.
fn starts_with(payload: &[u8], tag: &[u8]) -> (does: bool)
    ensures
        does == tag@.is_prefix_of(payload@),
{
    if payload.len() < tag.len() {
        return false;
    }
    let mut i: usize = 0;
    while i < tag.len()
        invariant
            i <= tag@.len() <= payload@.len(),
            forall|j: int| 0 <= j < i ==> payload@[j] == tag@[j],
        decreases tag.len() - i,
    {
        if payload[i] != tag[i] {
            assert(payload@[i as int] != tag@[i as int]);
            return false;
        }
        i = i + 1;
    }
    assert(tag@ =~= payload@.take(tag@.len() as int));
    true
}

impl Method {
    /// Every method, in the order [`split_tag`](Self::split_tag) tries them.
    pub const ALL: [Method; 4] = [
        Method::Ping,
        Method::Store,
        Method::FindNode,
        Method::FindValue,
    ];

    /// The bytes a request of this method starts with.
    ///
    /// No tag is a prefix of another (`FIND_NODE` and `FIND_VALUE` share
    /// `FIND_` but diverge before either one ends), so at most one of them can
    /// match a given payload and the matching order is not load-bearing. Keep
    /// it that way when adding a tag, or the scan below has to start caring.
    pub fn tag(self) -> (tag: &'static [u8])
        ensures
            tag@ == tag_bytes(self),
    {
        let name: &'static str = match self {
            Method::Ping => "PING",
            Method::Store => "STORE",
            Method::FindNode => "FIND_NODE",
            Method::FindValue => "FIND_VALUE",
        };
        proof {
            reveal_strlit("PING");
            reveal_strlit("STORE");
            reveal_strlit("FIND_NODE");
            reveal_strlit("FIND_VALUE");
            text::lemma_ascii(name@);
        }
        name.as_bytes()
    }

    /// Split the leading method tag off `payload`, returning it and the body
    /// that follows. `None` if the payload starts with nothing we serve.
    pub fn split_tag(payload: &[u8]) -> (found: Option<(Self, &[u8])>)
        ensures
            match found {
                Some((method, body)) => split(payload@) == Some((method, body@)),
                None => split(payload@) is None,
            },
    {
        let mut i: usize = 0;
        while i < 4
            invariant
                i <= 4,
                forall|j: int|
                    0 <= j < i ==> !tag_bytes(#[trigger] Self::ALL[j]).is_prefix_of(payload@),
            decreases 4 - i,
        {
            let method: Method = Self::ALL[i];
            let tag: &'static [u8] = method.tag();
            if starts_with(payload, tag) {
                proof {
                    assert(tag_bytes(method).is_prefix_of(payload@));
                    let other = choose|method: Method|
                        (#[trigger] tag_bytes(method)).is_prefix_of(payload@);
                    lemma_one_tag(method, other, payload@);
                    assert(payload@.skip(tag@.len() as int) =~= payload@.subrange(
                        tag@.len() as int,
                        payload@.len() as int,
                    ));
                }
                return Some(
                    (method, vstd::slice::slice_subrange(payload, tag.len(), payload.len())),
                );
            }
            i = i + 1;
        }
        proof {
            assert forall|method: Method| !(#[trigger] tag_bytes(method)).is_prefix_of(
                payload@,
            ) by {
                let at: int = match method {
                    Method::Ping => 0,
                    Method::Store => 1,
                    Method::FindNode => 2,
                    Method::FindValue => 3,
                };
                assert(Self::ALL[at] == method);
            }
        }
        None
    }
}

/// The local node's state, as a handler sees it.
///
/// Handlers take the whole context rather than the parts they happen to need
/// today: growing one struct is cheaper than re-threading four signatures.
#[non_exhaustive]
pub struct Context<A> {
    /// Who we are. A [`CloseNodes`] knows this already, but does not expose
    /// it, and [`ping`] has to put it on the wire: an address alone does not
    /// tell a joining node whose address it is.
    pub my_id: NodeId,
    pub close_nodes: A,
    pub values: Values,
}

impl<A: CloseNodes<ID_BYTES>> Context<A> {
    /// The table is in order.
    pub open spec fn wf(&self) -> bool {
        self.close_nodes.wf()
    }

    /// Every value is stored under its own hash.
    pub open spec fn is_content_addressed(&self) -> bool {
        values::content_addressed(self.values@)
    }

    /// A node that holds no values yet.
    ///
    /// `my_id` must be the same id the routing table was built around, or we
    /// answer PINGs with a name our own siblings do not know us by.
    pub fn new(my_id: NodeId, close_nodes: A) -> (context: Self)
        requires
            close_nodes.wf(),
        ensures
            context.wf(),
            context.is_content_addressed(),
            context.my_id == my_id,
            context.close_nodes == close_nodes,
            context.values@ == values::nothing(),
    {
        Self { my_id, close_nodes, values: Values::new() }
    }
}

/// One inbound RPC, waiting to be answered.
#[non_exhaustive]
pub struct Request {
    /// The sender's request id, off the front of the datagram.
    ///
    /// It is the sender's name for this request, not ours, and it is only
    /// unique among *their* in-flight requests: two peers will hand us the
    /// same id routinely, so it identifies a request only together with
    /// [`from`](Self::from). A handler wants it to name the request in a log
    /// line that the other node's log can be read against.
    pub id: u64,
    /// Who sent it, and where the reply goes.
    pub from: Address,
    /// Whether [`from`](Self::from) is an address the sender can be reached
    /// at, and so whether it may be learned as a [`Contact`].
    ///
    /// True off a datagram wire, false off a connection: see the module doc.
    /// Set by the constructor rather than passed to one, so the wire a request
    /// came off decides it and nothing downstream can get it wrong.
    pub from_is_reachable: bool,
    /// The request as it arrived, minus the transport's id prefix: the
    /// sender's [`NodeId`], then the method tag and body. [`parse_framed`]
    /// strips the node id before splitting off the tag, so a handler only
    /// ever sees what follows it.
    pub payload: Vec<u8>,
}

impl Request {
    /// Split a datagram as it came off a datagram wire: [`ID_LEN`] bytes of
    /// id, then the request itself.
    ///
    /// `None` if it is too short to carry an id, the same length check the
    /// transports' receive loops already make before matching one against
    /// [`Pending`](crate::pending::Pending). Reading the id here rather than
    /// taking the transport's word for it keeps the framing in one place.
    pub fn from_datagram(from: Address, datagram: &[u8]) -> (request: Option<Self>)
        ensures
            request is Some <==> datagram@.len() >= 8,
            request matches Some(request) ==> {
                &&& request.id == rpc_transport::leading_id(datagram@)
                &&& request.from == from
                &&& request.from_is_reachable
                &&& request.payload@ == datagram@.skip(8)
            },
    {
        if datagram.len() < ID_LEN {
            return None;
        }
        let id: u64 = decode_id(datagram);
        let payload: &[u8] = vstd::slice::slice_subrange(datagram, ID_LEN, datagram.len());
        assert(payload@ =~= datagram@.skip(8));
        Some(
            Request {
                id,
                from,
                from_is_reachable: true,
                payload: vstd::slice::slice_to_vec(payload),
            },
        )
    }

    /// The same framing off a connection, where `from` is the ephemeral port
    /// the connection was dialled from rather than an address the sender
    /// answers on. That one difference is the whole difference.
    pub fn from_connection(from: Address, datagram: &[u8]) -> (request: Option<Self>)
        ensures
            request is Some <==> datagram@.len() >= 8,
            request matches Some(request) ==> {
                &&& request.id == rpc_transport::leading_id(datagram@)
                &&& request.from == from
                &&& !request.from_is_reachable
                &&& request.payload@ == datagram@.skip(8)
            },
    {
        match Self::from_datagram(from, datagram) {
            Some(request) => Some(
                Request {
                    id: request.id,
                    from: request.from,
                    from_is_reachable: false,
                    payload: request.payload,
                },
            ),
            None => None,
        }
    }
}

/// What a request's payload holds: who sent it, which RPC it is, and the body.
pub open spec fn parsed(payload: Seq<u8>) -> Option<(NodeId, Method, Seq<u8>)> {
    if payload.len() < 32 {
        None
    } else {
        match split(payload.skip(32)) {
            Some((method, body)) => Some((close_nodes::id_of(payload.take(32)), method, body)),
            None => None,
        }
    }
}

/// A request's payload: who sends it, which RPC it is, and the body.
pub open spec fn framed_request(sender: Seq<u8>, method: Method, body: Seq<u8>) -> Seq<u8> {
    sender + tag_bytes(method) + body
}

/// What is read off a request's payload is what was framed.
pub proof fn lemma_request_round_trips(sender: NodeId, method: Method, body: Seq<u8>)
    ensures
        parsed(framed_request(sender@, method, body)) == Some((sender, method, body)),
{
    let payload = framed_request(sender@, method, body);
    let rest = payload.skip(32);
    assert(rest =~= tag_bytes(method) + body);
    assert(tag_bytes(method).is_prefix_of(rest));
    let other = choose|method: Method| (#[trigger] tag_bytes(method)).is_prefix_of(rest);
    lemma_one_tag(method, other, rest);
    assert(payload.take(32) =~= sender@);
    close_nodes::lemma_id_of(sender);
    assert(rest.skip(tag_bytes(method).len() as int) =~= body);
}

/// Who sent a request: the id that its payload starts with. `None` for a
/// payload too short to carry one.
fn sender_of(payload: &[u8]) -> (sender: Option<NodeId>)
    ensures
        sender == if payload@.len() >= 32 {
            Some(close_nodes::id_of(payload@.take(32)))
        } else {
            None
        },
{
    if payload.len() < NODE_ID_LEN {
        return None;
    }
    let mut sender: NodeId = [0u8; ID_BYTES];
    let mut i: usize = 0;
    while i < NODE_ID_LEN
        invariant
            i <= 32,
            payload@.len() >= 32,
            forall|j: int| 0 <= j < i ==> sender@[j] == payload@[j],
        decreases 32 - i,
    {
        sender[i] = payload[i];
        i = i + 1;
    }
    assert(sender@ =~= payload@.take(32));
    proof {
        close_nodes::lemma_id_of(sender);
    }
    Some(sender)
}

/// Strip the framing every [`Rpc`](crate::rpc::Rpc) writes: the sender's
/// [`NodeId`], then the method tag. `None` for a payload too short to carry
/// a node id, or one whose tag nothing here recognises.
pub fn parse_framed(payload: &[u8]) -> (found: Option<(NodeId, Method, &[u8])>)
    ensures
        match found {
            Some((sender, method, body)) => parsed(payload@) == Some((sender, method, body@)),
            None => parsed(payload@) is None,
        },
{
    let sender: NodeId = match sender_of(payload) {
        Some(sender) => sender,
        None => return None,
    };
    let rest: &[u8] = vstd::slice::slice_subrange(payload, NODE_ID_LEN, payload.len());
    assert(rest@ =~= payload@.skip(32));
    match Method::split_tag(rest) {
        Some((method, body)) => Some((sender, method, body)),
        None => None,
    }
}

/// What a handler does with a body: `before` becomes `after`, and `reply` is
/// what it answers, if it does.
pub open spec fn handled<A: CloseNodes<ID_BYTES>>(
    method: Method,
    before: Context<A>,
    body: Seq<u8>,
    after: Context<A>,
    reply: Option<Seq<u8>>,
) -> bool {
    match method {
        Method::Ping => ping::answers(before, after, reply),
        Method::Store => store::answers(before, body, after, reply),
        Method::FindNode => find_node::answers(before, body, after, reply),
        Method::FindValue => find_value::answers(before, body, after, reply),
    }
}

/// What comes of learning a request's sender, where the wire that it came off
/// allows it.
pub open spec fn learned<A: CloseNodes<ID_BYTES>>(
    before: Context<A>,
    sender: NodeId,
    request: Request,
    after: Context<A>,
) -> bool {
    if request.from_is_reachable {
        &&& A::offered(
            before.close_nodes,
            (Contact { id: sender, address: request.from }),
            after.close_nodes,
        )
        &&& after.my_id == before.my_id
        &&& after.values == before.values
    } else {
        after == before
    }
}

/// A readable request is handled once its sender was learned, and what the
/// handler answers is framed as the reply to it.
pub open spec fn served<A: CloseNodes<ID_BYTES>>(
    before: Context<A>,
    sender: NodeId,
    method: Method,
    body: Seq<u8>,
    request: Request,
    after: Context<A>,
    reply: Option<Seq<u8>>,
) -> bool {
    exists|between: Context<A>, answer: Option<Seq<u8>>|
        {
            &&& learned(before, sender, request, between)
            &&& between.wf()
            &&& #[trigger] handled(method, between, body, after, answer)
            &&& reply == match answer {
                Some(answer) => Some(framed_reply(request.id, answer)),
                None => None,
            }
        }
}

/// What comes of a request, and what is sent back. One that names a method is
/// served. Any other is not answered, but its sender is learned all the same,
/// if it says who that is.
pub open spec fn dispatched<A: CloseNodes<ID_BYTES>>(
    before: Context<A>,
    request: Request,
    after: Context<A>,
    reply: Option<Seq<u8>>,
) -> bool {
    match parsed(request.payload@) {
        Some((sender, method, body)) => served(
            before,
            sender,
            method,
            body,
            request,
            after,
            reply,
        ),
        None => {
            &&& reply is None
            &&& if request.payload@.len() >= 32 {
                learned(before, close_nodes::id_of(request.payload@.take(32)), request, after)
            } else {
                after == before
            }
        },
    }
}

/// Parse `request`, learn its sender if the wire it came off allows it, route
/// it to a handler, and frame the answer.
///
/// The sender is learned whether or not the method is recognised: that is what
/// lets a routing table build up from ordinary traffic.
///
/// `None` for a malformed or unrecognised request, or one the handler chose
/// not to answer. Both wire shapes come through here: they differ only in
/// [`from_is_reachable`](Request::from_is_reachable), which is what the module
/// doc is about.
///
/// Teaching the server a new method means adding an arm below and a tag in
/// [`Method::tag`], and nothing else.
pub fn dispatch<A: CloseNodes<ID_BYTES>>(context: &mut Context<A>, request: &Request) -> (reply:
    Option<Vec<u8>>)
    requires
        old(context).wf(),
    ensures
        final(context).wf(),
        old(context).is_content_addressed() ==> final(context).is_content_addressed(),
        dispatched(
            *old(context),
            *request,
            *final(context),
            match reply {
                Some(datagram) => Some(datagram@),
                None => None,
            },
        ),
{
    let sender: NodeId = match sender_of(request.payload.as_slice()) {
        Some(sender) => sender,
        None => return None,
    };
    // An arriving request is evidence its sender is alive, so it is learned
    // before the method is even looked at, but only off a wire where `from` is
    // somewhere it can be reached again.
    if request.from_is_reachable {
        context.close_nodes.maybe_add_contact(Contact { id: sender, address: request.from });
    }
    let ghost between = *context;
    assert(learned(*old(context), sender, *request, between));
    match parse_framed(request.payload.as_slice()) {
        Some((_, method, body)) => {
            let answer: Option<Vec<u8>> = match method {
                Method::Ping => ping::handle(context, request.id, request.from, body),
                Method::Store => store::handle(context, request.id, request.from, body),
                Method::FindNode => find_node::handle(context, request.id, request.from, body),
                Method::FindValue => find_value::handle(context, request.id, request.from, body),
            };
            match answer {
                Some(answer) => {
                    assert(handled(method, between, body@, *context, Some(answer@)));
                    let datagram: Vec<u8> = frame_reply(request.id, answer.as_slice());
                    assert(served(
                        *old(context),
                        sender,
                        method,
                        body@,
                        *request,
                        *context,
                        Some(datagram@),
                    ));
                    Some(datagram)
                },
                None => {
                    assert(handled(method, between, body@, *context, None::<Seq<u8>>));
                    assert(served(*old(context), sender, method, body@, *request, *context, None));
                    None
                },
            }
        },
        None => None,
    }
}

/// A reply carries the number of the request that it answers, and is marked as
/// a reply.
pub proof fn lemma_a_reply_names_its_request(id: u64, body: Seq<u8>)
    ensures
        rpc_transport::leading_id(framed_reply(id, body)) >= REPLY_TAG,
        rpc_transport::untagged(rpc_transport::leading_id(framed_reply(id, body)))
            == rpc_transport::untagged(id),
        framed_reply(id, body).skip(8) == body,
{
    rpc_transport::lemma_framing_round_trips(
        (REPLY_TAG + rpc_transport::untagged(id)) as u64,
        body,
        Seq::empty(),
    );
}

/// A request that came over a connection teaches us nothing about where it
/// came from: the table is offered nothing, but for the contact that a
/// FIND_NODE itself names.
pub proof fn lemma_a_connection_is_not_learned<A: CloseNodes<ID_BYTES>>(
    before: Context<A>,
    request: Request,
    after: Context<A>,
    reply: Option<Seq<u8>>,
)
    requires
        !request.from_is_reachable,
        dispatched(before, request, after, reply),
    ensures
        after.close_nodes == before.close_nodes || match parsed(request.payload@) {
            Some((_, Method::FindValue, body)) => exists|contacts: Seq<Contact<ID_BYTES>>|
                #[trigger] A::asked(
                    before.close_nodes,
                    wire::decoded_id(body)->0,
                    after.close_nodes,
                    contacts,
                ),
            Some((_, Method::FindNode, body)) => exists|
                taught: A,
                contacts: Seq<Contact<ID_BYTES>>,
            |
                {
                    &&& #[trigger] A::offered(
                        before.close_nodes,
                        (wire::decoded_query(body)->0).0,
                        taught,
                    )
                    &&& #[trigger] A::asked(
                        taught,
                        (wire::decoded_query(body)->0).1,
                        after.close_nodes,
                        contacts,
                    )
                },
            _ => false,
        },
{
}

/// Whatever is asked of a node, it keeps a value under every key that it held
/// one under, and who it is.
pub proof fn lemma_values_are_kept<A: CloseNodes<ID_BYTES>>(
    before: Context<A>,
    request: Request,
    after: Context<A>,
    reply: Option<Seq<u8>>,
)
    requires
        dispatched(before, request, after, reply),
    ensures
        before.values@.dom().subset_of(after.values@.dom()),
        after.my_id == before.my_id,
{
}

/// A value that was stored under its hash is found under it.
pub proof fn lemma_a_stored_value_is_found<A: CloseNodes<ID_BYTES>>(
    before: Context<A>,
    key: Key,
    value: Seq<u8>,
    between: Context<A>,
    stored: Option<Seq<u8>>,
    after: Context<A>,
    found: Option<Seq<u8>>,
)
    requires
        key@ == hashing::sha256(value),
        wire::pair_bytes(key@, value).len() <= u64::MAX,
        handled(Method::Store, before, wire::pair_bytes(key@, value), between, stored),
        handled(Method::FindValue, between, key@, after, found),
    ensures
        stored == Some(store::STORED@),
        found == Some(wire::found_bytes(Ok(value))),
        wire::found_bytes(Ok(value)).len() <= u64::MAX ==> wire::decoded_found(found->0) == Some(
            Ok::<Seq<u8>, Seq<Contact<ID_BYTES>>>(value),
        ),
{
    let none = Seq::<u8>::empty();
    let body = wire::pair_bytes(key@, value);
    assert(body + none =~= body);
    wire::lemma_pair_round_trips(key, value, none);
    assert(key@ + none =~= key@);
    wire::lemma_id_round_trips(key, none);
    if wire::found_bytes(Ok(value)).len() <= u64::MAX {
        let reply = wire::found_bytes(Ok(value));
        assert(reply + none =~= reply);
        wire::lemma_found_round_trips(Ok(value), none);
    }
}

/// A node never hands out a value under a key that is not the value's hash.
pub proof fn lemma_found_values_match_their_key<A: CloseNodes<ID_BYTES>>(
    before: Context<A>,
    key: Key,
    more: Seq<u8>,
    after: Context<A>,
    value: Seq<u8>,
)
    requires
        before.is_content_addressed(),
        wire::found_bytes(Ok(value)).len() <= u64::MAX,
        handled(
            Method::FindValue,
            before,
            key@ + more,
            after,
            Some(wire::found_bytes(Ok(value))),
        ),
    ensures
        key@ == hashing::sha256(value),
{
    wire::lemma_id_round_trips(key, more);
    let reply = wire::found_bytes(Ok(value));
    assert(reply.is_prefix_of(reply));
    if before.values@.dom().contains(key@) {
        wire::lemma_one_found(Ok(value), Ok(before.values@[key@]), reply);
    } else {
        let contacts = choose|contacts: Seq<Contact<ID_BYTES>>|
            {
                &&& #[trigger] A::asked(before.close_nodes, key, after.close_nodes, contacts)
                &&& Some(reply) == Some(wire::found_bytes(Err(wire::wire_contacts(contacts))))
            };
        wire::lemma_one_found(Ok(value), Err(wire::wire_contacts(contacts)), reply);
    }
}

/// A payload is read as a request exactly if it is one: the sender's id, the
/// tag of a method, and then the body, to its last byte.
pub proof fn lemma_a_request_is_read_one_way(
    payload: Seq<u8>,
    sender: NodeId,
    method: Method,
    body: Seq<u8>,
)
    ensures
        parsed(payload) == Some((sender, method, body)) <==> payload == sender@ + tag_bytes(method)
            + body,
{
    if payload == sender@ + tag_bytes(method) + body {
        lemma_request_round_trips(sender, method, body);
    }
    if parsed(payload) == Some((sender, method, body)) {
        let rest = payload.skip(32);
        close_nodes::lemma_any_bytes_are_an_id(payload.take(32));
        let other = choose|method: Method| (#[trigger] tag_bytes(method)).is_prefix_of(rest);
        assert(other == method);
        assert(rest =~= tag_bytes(method) + body);
        assert(payload =~= payload.take(32) + rest);
        assert(payload =~= sender@ + tag_bytes(method) + body);
    }
}

/// A datagram that says who sent it teaches the table that sender, at the
/// address it came from, whatever else it says: that is the first thing which
/// comes of it. After that the table is offered only the contact that a
/// FIND_NODE names, and asked only about what a FIND_NODE or a FIND_VALUE is
/// for.
pub proof fn lemma_a_datagram_teaches_its_sender<A: CloseNodes<ID_BYTES>>(
    before: Context<A>,
    request: Request,
    sender: NodeId,
    after: Context<A>,
    reply: Option<Seq<u8>>,
) -> (taught: A)
    requires
        request.from_is_reachable,
        request.payload@.len() >= 32,
        request.payload@.take(32) == sender@,
        dispatched(before, request, after, reply),
    ensures
        A::offered(before.close_nodes, (Contact { id: sender, address: request.from }), taught),
        after.close_nodes == taught || match parsed(request.payload@) {
            Some((_, Method::FindValue, body)) => exists|contacts: Seq<Contact<ID_BYTES>>|
                #[trigger] A::asked(
                    taught,
                    wire::decoded_id(body)->0,
                    after.close_nodes,
                    contacts,
                ),
            Some((_, Method::FindNode, body)) => exists|
                more: A,
                contacts: Seq<Contact<ID_BYTES>>,
            |
                {
                    &&& #[trigger] A::offered(taught, (wire::decoded_query(body)->0).0, more)
                    &&& #[trigger] A::asked(
                        more,
                        (wire::decoded_query(body)->0).1,
                        after.close_nodes,
                        contacts,
                    )
                },
            _ => false,
        },
{
    close_nodes::lemma_id_of(sender);
    match parsed(request.payload@) {
        Some((named, method, body)) => {
            assert(named == sender);
            assert(served(before, named, method, body, request, after, reply));
            let (between, answer) = choose|between: Context<A>, answer: Option<Seq<u8>>|
                {
                    &&& learned(before, named, request, between)
                    &&& between.wf()
                    &&& #[trigger] handled(method, between, body, after, answer)
                    &&& reply == match answer {
                        Some(answer) => Some(framed_reply(request.id, answer)),
                        None => None,
                    }
                };
            between.close_nodes
        },
        None => after.close_nodes,
    }
}

/// What becomes of the values, whatever is asked: only a STORE changes them,
/// and that only by what hashes to the key it is put under. Every key stays,
/// and with its own value, unless another one hashes to it.
pub proof fn lemma_only_a_store_changes_values<A: CloseNodes<ID_BYTES>>(
    before: Context<A>,
    request: Request,
    after: Context<A>,
    reply: Option<Seq<u8>>,
)
    requires
        dispatched(before, request, after, reply),
    ensures
        !(parsed(request.payload@) matches Some((_, Method::Store, _))) ==> after.values@
            == before.values@,
        forall|key: Seq<u8>| #[trigger]
            before.values@.dom().contains(key) ==> after.values@.dom().contains(key),
        forall|key: Seq<u8>| #[trigger]
            after.values@.dom().contains(key) ==> {
                ||| before.values@.dom().contains(key) && after.values@[key] == before.values@[key]
                ||| key == hashing::sha256(after.values@[key])
            },
        forall|key: Seq<u8>, other: Seq<u8>|
            #![trigger after.values@.dom().contains(key), after.values@.dom().contains(other)]
            after.values@.dom().contains(key) && after.values@.dom().contains(other) && key != other
                ==> {
                ||| before.values@.dom().contains(key) && after.values@[key] == before.values@[key]
                ||| before.values@.dom().contains(other) && after.values@[other]
                    == before.values@[other]
            },
{
}

/// In a node that holds only what was stored, every value is under its hash.
pub proof fn lemma_every_value_is_under_its_hash<A: CloseNodes<ID_BYTES>>(context: Context<A>)
    ensures
        context.is_content_addressed() <==> forall|key: Seq<u8>| #[trigger]
            context.values@.dom().contains(key) ==> key == hashing::sha256(context.values@[key]),
{
}

/// Only a request is answered, under its own number and marked as a reply:
/// what does not name a method gets nothing back.
pub proof fn lemma_only_requests_are_answered<A: CloseNodes<ID_BYTES>>(
    before: Context<A>,
    request: Request,
    after: Context<A>,
    reply: Option<Seq<u8>>,
) -> (asked: (Method, Seq<u8>))
    requires
        dispatched(before, request, after, reply),
        reply is Some,
    ensures
        reply->0.len() >= 8,
        rpc_transport::leading_id(reply->0) == if request.id < REPLY_TAG {
            request.id + REPLY_TAG
        } else {
            request.id as int
        },
        request.payload@.len() >= 32,
        request.payload@ == request.payload@.take(32) + tag_bytes(asked.0) + asked.1,
{
    match parsed(request.payload@) {
        Some((sender, method, body)) => {
            lemma_a_request_is_read_one_way(request.payload@, sender, method, body);
            close_nodes::lemma_any_bytes_are_an_id(request.payload@.take(32));
            let (between, answer) = choose|between: Context<A>, answer: Option<Seq<u8>>|
                {
                    &&& learned(before, sender, request, between)
                    &&& between.wf()
                    &&& #[trigger] handled(method, between, body, after, answer)
                    &&& reply == match answer {
                        Some(answer) => Some(framed_reply(request.id, answer)),
                        None => None,
                    }
                };
            lemma_a_reply_names_its_request(request.id, answer->0);
            rpc_transport::lemma_framing_round_trips(
                (REPLY_TAG + rpc_transport::untagged(request.id)) as u64,
                answer->0,
                Seq::empty(),
            );
            (method, body)
        },
        None => (Method::Ping, Seq::empty()),
    }
}

} // verus!
