//! What makes up a node, apart from its sockets.

use crate::address;
use crate::address::Address;
use crate::close_nodes;
use crate::close_nodes::cache;
use crate::close_nodes::sibling_list;
use crate::close_nodes::static_bucket;
use crate::close_nodes::{
    recommended, CloseNodes, Contact, Key, NodeId, RecommendedCloseNodes, CACHE_CAPACITY,
    CACHE_TTL, ID_BYTES, K, ROUTING_BUCKETS,
};
use crate::handle_rpc;
use crate::handle_rpc::{Context, Method, Request};
use crate::hashing;
use crate::hashing::node_id_from_address;
use crate::lookup;
use crate::values;
use crate::wire;
use vstd::prelude::*;

verus! {

/// How many requests wait to be answered before more are shed.
pub const REQUEST_QUEUE: usize = 64;

/// A node at `address`: who it is, and what it answers from. It knows nobody
/// and holds nothing yet. `v6` is the canonical text form of the address if it
/// is a version 6 one.
pub fn set_up(address: Address, v6: &str) -> (node: (
    Contact<ID_BYTES>,
    Context<RecommendedCloseNodes>,
))
    ensures
        node.0.address == address,
        node.0.id@ == hashing::sha256(
            vstd::utf8::encode_utf8(address::address_text(address, v6@)),
        ),
        node.1.wf(),
        node.1.is_content_addressed(),
        node.1.my_id == node.0.id,
        node.1.values@ == values::nothing(),
        node.1.close_nodes.answers() == cache::nothing_kept(),
        !node.1.close_nodes.invalidates(),
        node.1.close_nodes.lifetime() == CACHE_TTL,
        node.1.close_nodes.limit() == CACHE_CAPACITY,
        node.1.close_nodes.below().owner() == node.0.id,
        node.1.close_nodes.below().sibling_set() == Seq::<Contact<ID_BYTES>>::empty(),
        sibling_list::is_overlay(node.1.close_nodes.below()),
        node.1.close_nodes.below().below().owner() == node.0.id,
        node.1.close_nodes.below().below().buckets() == Seq::new(
            ROUTING_BUCKETS as nat,
            |i: int| Seq::<Contact<ID_BYTES>>::empty(),
        ),
{
    let id = node_id_from_address(address, v6);
    (Contact { id, address }, Context::new(id, recommended(id)))
}

/// What a node's routing table holds: its siblings, closest first, and the
/// buckets that hold anything, each with its index.
pub fn routing_snapshot(context: &Context<RecommendedCloseNodes>) -> (snapshot: (
    Vec<Contact<ID_BYTES>>,
    Vec<(usize, Vec<Contact<ID_BYTES>>)>,
))
    ensures
        snapshot.0@ == context.close_nodes.below().sibling_set(),
        static_bucket::placed(snapshot.1@) == static_bucket::filled(
            context.close_nodes.below().below().buckets(),
        ),
{
    let siblings = context.close_nodes.inner();
    (siblings.siblings(), siblings.fallback().filled_buckets())
}

/// What a node holds values under, and how long each is, in no particular
/// order.
pub fn datastore_snapshot<A>(context: &Context<A>) -> (snapshot: Vec<(Key, usize)>)
    ensures
        values::lists_sizes(context.values@, snapshot@),
{
    context.values.sizes()
}

/// Asking a table moves nobody.
proof fn lemma_asking_moves_nobody(
    before: RecommendedCloseNodes,
    id: NodeId,
    after: RecommendedCloseNodes,
    out: Seq<Contact<ID_BYTES>>,
)
    requires
        RecommendedCloseNodes::asked(before, id, after, out),
    ensures
        after.below().owner() == before.below().owner(),
        after.below().sibling_set() == before.below().sibling_set(),
        after.below().below() == before.below().below(),
{
}

/// A node's table stays an overlay through every request it serves: whoever
/// asks, no contact is left in the buckets that should be a sibling and is
/// not.
pub proof fn lemma_serving_keeps_the_overlay(
    before: Context<RecommendedCloseNodes>,
    request: Request,
    after: Context<RecommendedCloseNodes>,
    reply: Option<Seq<u8>>,
)
    requires
        before.wf(),
        sibling_list::is_overlay(before.close_nodes.below()),
        handle_rpc::dispatched(before, request, after, reply),
    ensures
        sibling_list::is_overlay(after.close_nodes.below()),
{
    match handle_rpc::parsed(request.payload@) {
        Some((sender, method, body)) => {
            let (between, answer) = choose|
                between: Context<RecommendedCloseNodes>,
                answer: Option<Seq<u8>>,
            |
                {
                    &&& handle_rpc::learned(before, sender, request, between)
                    &&& between.wf()
                    &&& #[trigger] handle_rpc::handled(method, between, body, after, answer)
                    &&& reply == match answer {
                        Some(answer) => Some(handle_rpc::framed_reply(request.id, answer)),
                        None => None,
                    }
                };
            lemma_learning_keeps_the_overlay(before, sender, request, between);
            lemma_handling_keeps_the_overlay(method, between, body, after, answer);
        },
        None => {
            if request.payload@.len() >= 32 {
                lemma_learning_keeps_the_overlay(
                    before,
                    close_nodes::id_of(request.payload@.take(32)),
                    request,
                    after,
                );
            }
        },
    }
}

proof fn lemma_learning_keeps_the_overlay(
    before: Context<RecommendedCloseNodes>,
    sender: NodeId,
    request: Request,
    after: Context<RecommendedCloseNodes>,
)
    requires
        before.wf(),
        sibling_list::is_overlay(before.close_nodes.below()),
        handle_rpc::learned(before, sender, request, after),
    ensures
        sibling_list::is_overlay(after.close_nodes.below()),
{
    if request.from_is_reachable {
        sibling_list::lemma_stays_an_overlay(
            before.close_nodes.below(),
            Contact { id: sender, address: request.from },
            after.close_nodes.below(),
        );
    }
}

proof fn lemma_handling_keeps_the_overlay(
    method: Method,
    before: Context<RecommendedCloseNodes>,
    body: Seq<u8>,
    after: Context<RecommendedCloseNodes>,
    reply: Option<Seq<u8>>,
)
    requires
        before.wf(),
        sibling_list::is_overlay(before.close_nodes.below()),
        handle_rpc::handled(method, before, body, after, reply),
    ensures
        sibling_list::is_overlay(after.close_nodes.below()),
{
    match method {
        Method::Ping => {},
        Method::Store => {},
        Method::FindNode => {
            if let Some((sender, target)) = wire::decoded_query(body) {
                let (taught, contacts) = choose|
                    taught: RecommendedCloseNodes,
                    contacts: Seq<Contact<ID_BYTES>>,
                |
                    {
                        &&& #[trigger] RecommendedCloseNodes::offered(
                            before.close_nodes,
                            sender,
                            taught,
                        )
                        &&& taught.wf()
                        &&& #[trigger] RecommendedCloseNodes::asked(
                            taught,
                            target,
                            after.close_nodes,
                            contacts,
                        )
                        &&& reply == Some(wire::contacts_bytes(wire::wire_contacts(contacts)))
                    };
                sibling_list::lemma_stays_an_overlay(
                    before.close_nodes.below(),
                    sender,
                    taught.below(),
                );
                lemma_asking_moves_nobody(taught, target, after.close_nodes, contacts);
            }
        },
        Method::FindValue => {
            if let Some(key) = wire::decoded_id(body) {
                if !before.values@.dom().contains(key@) {
                    let contacts = choose|contacts: Seq<Contact<ID_BYTES>>|
                        {
                            &&& #[trigger] RecommendedCloseNodes::asked(
                                before.close_nodes,
                                key,
                                after.close_nodes,
                                contacts,
                            )
                            &&& reply == Some(
                                wire::found_bytes(Err(wire::wire_contacts(contacts))),
                            )
                        };
                    lemma_asking_moves_nobody(
                        before.close_nodes,
                        key,
                        after.close_nodes,
                        contacts,
                    );
                }
            }
        },
    }
}

/// A node's table stays an overlay through every answer a lookup hears.
pub proof fn lemma_looking_up_keeps_the_overlay(
    before: RecommendedCloseNodes,
    contacts: Seq<Contact<ID_BYTES>>,
    after: RecommendedCloseNodes,
)
    requires
        before.wf(),
        sibling_list::is_overlay(before.below()),
        lookup::all_offered(before, contacts, after),
    ensures
        sibling_list::is_overlay(after.below()),
    decreases contacts.len(),
{
    if contacts.len() > 0 {
        let between = choose|between: RecommendedCloseNodes|
            {
                &&& lookup::all_offered(before, contacts.drop_last(), between)
                &&& between.wf()
                &&& #[trigger] RecommendedCloseNodes::offered(between, contacts.last(), after)
            };
        lemma_looking_up_keeps_the_overlay(before, contacts.drop_last(), between);
        sibling_list::lemma_stays_an_overlay(between.below(), contacts.last(), after.below());
    }
}

/// Everybody whom a bucket of `before` holds is in the same place in `after`.
spec fn loses_nobody(before: RecommendedCloseNodes, after: RecommendedCloseNodes) -> bool {
    let was = before.below().below().buckets();
    let is = after.below().below().buckets();
    &&& after.below().owner() == before.below().owner()
    &&& after.below().below().owner() == before.below().below().owner()
    &&& is.len() == was.len()
    &&& forall|b: int, i: int|
        0 <= b < was.len() && 0 <= i < was[b].len() ==> i < is[b].len() && is[b][i].id == (
        #[trigger] was[b][i]).id
}

/// `id` is in the bucket of its own in `after`, unless that one was full of
/// others in `before`.
spec fn has_a_place(
    before: RecommendedCloseNodes,
    id: NodeId,
    after: RecommendedCloseNodes,
) -> bool {
    let home = before.below().below().home(id);
    let was = before.below().below().buckets()[home];
    let is = after.below().below().buckets()[home];
    ||| exists|i: int| 0 <= i < is.len() && (#[trigger] is[i]).id == id
    ||| was.len() == K && forall|i: int| 0 <= i < was.len() ==> (#[trigger] was[i]).id != id
}

proof fn lemma_offering_loses_nobody(
    before: RecommendedCloseNodes,
    contact: Contact<ID_BYTES>,
    after: RecommendedCloseNodes,
)
    requires
        before.wf(),
        RecommendedCloseNodes::offered(before, contact, after),
    ensures
        loses_nobody(before, after),
        contact.id != before.below().owner() && contact.id != before.below().below().owner()
            ==> has_a_place(before, contact.id, after),
{
    cache::lemma_every_write_goes_through(before, contact, after);
    sibling_list::lemma_every_offer_goes_below(before.below(), contact, after.below());
    if contact.id != before.below().owner() {
        static_bucket::lemma_an_offer_is_taken_where_there_is_room(
            before.below().below(),
            contact,
            after.below().below(),
        );
        if contact.id != before.below().below().owner() {
            let home = before.below().below().home(contact.id);
            let is = after.below().below().buckets()[home];
            if is.contains(contact) {
                let i = choose|i: int| 0 <= i < is.len() && is[i] == contact;
                assert(is[i].id == contact.id);
            }
        }
    }
}

/// Whoever sends a node a datagram is held by its table afterwards, in the
/// bucket of their id, whatever they ask and whoever the siblings are, unless
/// that bucket is full of others. Nobody whom the table held is lost.
pub proof fn lemma_whoever_sends_a_datagram_is_held(
    before: Context<RecommendedCloseNodes>,
    request: Request,
    sender: NodeId,
    after: Context<RecommendedCloseNodes>,
    reply: Option<Seq<u8>>,
)
    requires
        before.wf(),
        request.from_is_reachable,
        request.payload@.len() >= 32,
        request.payload@.take(32) == sender@,
        sender != before.close_nodes.below().owner(),
        sender != before.close_nodes.below().below().owner(),
        handle_rpc::dispatched(before, request, after, reply),
    ensures
        ({
            let home = before.close_nodes.below().below().home(sender);
            let was = before.close_nodes.below().below().buckets()[home];
            let is = after.close_nodes.below().below().buckets()[home];
            ||| exists|i: int| 0 <= i < is.len() && (#[trigger] is[i]).id == sender
            ||| was.len() == K && forall|i: int| 0 <= i < was.len() ==> (#[trigger] was[i]).id
                != sender
        }),
        forall|b: int, i: int|
            0 <= b < before.close_nodes.below().below().buckets().len() && 0 <= i
                < before.close_nodes.below().below().buckets()[b].len() ==> {
                &&& i < after.close_nodes.below().below().buckets()[b].len()
                &&& after.close_nodes.below().below().buckets()[b][i].id == (
                #[trigger] before.close_nodes.below().below().buckets()[b][i]).id
            },
{
    close_nodes::lemma_id_of(sender);
    let contact = Contact { id: sender, address: request.from };
    match handle_rpc::parsed(request.payload@) {
        Some((named, method, body)) => {
            let (between, answer) = choose|
                between: Context<RecommendedCloseNodes>,
                answer: Option<Seq<u8>>,
            |
                {
                    &&& handle_rpc::learned(before, named, request, between)
                    &&& between.wf()
                    &&& #[trigger] handle_rpc::handled(method, between, body, after, answer)
                    &&& reply == match answer {
                        Some(answer) => Some(handle_rpc::framed_reply(request.id, answer)),
                        None => None,
                    }
                };
            lemma_offering_loses_nobody(before.close_nodes, contact, between.close_nodes);
            lemma_handling_loses_nobody(method, between, body, after, answer);
            let home = before.close_nodes.below().below().home(sender);
            static_bucket::lemma_home_is_a_bucket(before.close_nodes.below().below(), sender);
            let then = between.close_nodes.below().below().buckets()[home];
            let is = after.close_nodes.below().below().buckets()[home];
            if exists|i: int| 0 <= i < then.len() && (#[trigger] then[i]).id == sender {
                let i = choose|i: int| 0 <= i < then.len() && (#[trigger] then[i]).id == sender;
                assert(is[i].id == between.close_nodes.below().below().buckets()[home][i].id);
            }
            let was = before.close_nodes.below().below().buckets();
            let last = after.close_nodes.below().below().buckets();
            let mid = between.close_nodes.below().below().buckets();
            assert forall|b: int, i: int| 0 <= b < was.len() && 0 <= i < was[b].len() implies i
                < last[b].len() && last[b][i].id == (#[trigger] was[b][i]).id by {
                assert(mid[b][i].id == was[b][i].id);
            }
        },
        None => {
            lemma_offering_loses_nobody(before.close_nodes, contact, after.close_nodes);
        },
    }
}

proof fn lemma_handling_loses_nobody(
    method: Method,
    before: Context<RecommendedCloseNodes>,
    body: Seq<u8>,
    after: Context<RecommendedCloseNodes>,
    reply: Option<Seq<u8>>,
)
    requires
        before.wf(),
        handle_rpc::handled(method, before, body, after, reply),
    ensures
        loses_nobody(before.close_nodes, after.close_nodes),
{
    match method {
        Method::Ping => {},
        Method::Store => {},
        Method::FindNode => {
            if let Some((sender, target)) = wire::decoded_query(body) {
                let (taught, contacts) = choose|
                    taught: RecommendedCloseNodes,
                    contacts: Seq<Contact<ID_BYTES>>,
                |
                    {
                        &&& #[trigger] RecommendedCloseNodes::offered(
                            before.close_nodes,
                            sender,
                            taught,
                        )
                        &&& taught.wf()
                        &&& #[trigger] RecommendedCloseNodes::asked(
                            taught,
                            target,
                            after.close_nodes,
                            contacts,
                        )
                        &&& reply == Some(wire::contacts_bytes(wire::wire_contacts(contacts)))
                    };
                lemma_offering_loses_nobody(before.close_nodes, sender, taught);
                lemma_asking_moves_nobody(taught, target, after.close_nodes, contacts);
            }
        },
        Method::FindValue => {
            if let Some(key) = wire::decoded_id(body) {
                if !before.values@.dom().contains(key@) {
                    let contacts = choose|contacts: Seq<Contact<ID_BYTES>>|
                        {
                            &&& #[trigger] RecommendedCloseNodes::asked(
                                before.close_nodes,
                                key,
                                after.close_nodes,
                                contacts,
                            )
                            &&& reply == Some(
                                wire::found_bytes(Err(wire::wire_contacts(contacts))),
                            )
                        };
                    lemma_asking_moves_nobody(
                        before.close_nodes,
                        key,
                        after.close_nodes,
                        contacts,
                    );
                }
            }
        },
    }
}

/// Whoever is named in a reply that a lookup hears is held by the node's table
/// afterwards, in the bucket of their id, unless that is full of others by
/// then. Nobody whom the table held is lost.
pub proof fn lemma_whoever_is_named_in_a_reply_is_held(
    before: RecommendedCloseNodes,
    contacts: Seq<Contact<ID_BYTES>>,
    after: RecommendedCloseNodes,
    n: int,
)
    requires
        before.wf(),
        after.wf(),
        lookup::all_offered(before, contacts, after),
        0 <= n < contacts.len(),
        contacts[n].id != before.below().owner(),
        contacts[n].id != before.below().below().owner(),
    ensures
        ({
            let is = after.below().below().buckets()[before.below().below().home(contacts[n].id)];
            is.len() == K || exists|i: int|
                0 <= i < is.len() && (#[trigger] is[i]).id == contacts[n].id
        }),
{
    lemma_replies_lose_nobody(before, contacts, after, n);
}

proof fn lemma_replies_lose_nobody(
    before: RecommendedCloseNodes,
    contacts: Seq<Contact<ID_BYTES>>,
    after: RecommendedCloseNodes,
    n: int,
)
    requires
        before.wf(),
        after.wf(),
        lookup::all_offered(before, contacts, after),
    ensures
        loses_nobody(before, after),
        0 <= n < contacts.len() && contacts[n].id != before.below().owner() && contacts[n].id
            != before.below().below().owner() ==> {
            let is = after.below().below().buckets()[before.below().below().home(contacts[n].id)];
            is.len() == K || exists|i: int|
                0 <= i < is.len() && (#[trigger] is[i]).id == contacts[n].id
        },
    decreases contacts.len(),
{
    if contacts.len() > 0 {
        let fewer = contacts.drop_last();
        let between = choose|between: RecommendedCloseNodes|
            {
                &&& lookup::all_offered(before, fewer, between)
                &&& between.wf()
                &&& #[trigger] RecommendedCloseNodes::offered(between, contacts.last(), after)
            };
        lemma_replies_lose_nobody(before, fewer, between, n);
        lemma_offering_loses_nobody(between, contacts.last(), after);
        let was = before.below().below().buckets();
        let mid = between.below().below().buckets();
        let last = after.below().below().buckets();
        assert forall|b: int, i: int| 0 <= b < was.len() && 0 <= i < was[b].len() implies i
            < last[b].len() && last[b][i].id == (#[trigger] was[b][i]).id by {
            assert(mid[b][i].id == was[b][i].id);
        }
        if 0 <= n < contacts.len() && contacts[n].id != before.below().owner() && contacts[n].id
            != before.below().below().owner() {
            let id = contacts[n].id;
            let home = before.below().below().home(id);
            static_bucket::lemma_home_is_a_bucket(before.below().below(), id);
            assert(last[home].len() <= K);
            if n < fewer.len() {
                assert(fewer[n] == contacts[n]);
                if mid[home].len() == K {
                    assert(mid[home][K - 1].id == last[home][K - 1].id);
                } else {
                    let i = choose|i: int|
                        0 <= i < mid[home].len() && (#[trigger] mid[home][i]).id == id;
                    assert(last[home][i].id == mid[home][i].id);
                }
            } else {
                assert(between.below().below().home(id) == home);
                if mid[home].len() == K {
                    assert(mid[home][K - 1].id == last[home][K - 1].id);
                }
            }
        }
    }
}

} // verus!
