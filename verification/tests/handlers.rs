use kademlia::address::Address;
use kademlia::close_nodes::{
    recommended, CloseNodes, Contact, Key, NodeId, RecommendedCloseNodes, ID_BYTES,
};
use kademlia::handle_rpc::store::STORED;
use kademlia::handle_rpc::{
    dispatch, find_node, find_value, frame_reply, parse_framed, ping, store, Context, Method,
    Request, ID_LEN, NODE_ID_LEN,
};
use kademlia::hashing::{hash_bytes, key_for_value, node_id_from_address};
use kademlia::rpc::{find_value_reply, FindValue};
use kademlia::rpc_transport::{is_reply, reply_id, request_id};

fn local(port: u16) -> Address {
    Address::V4 {
        ip: [127, 0, 0, 1],
        port,
    }
}

fn addr() -> Address {
    local(4242)
}

fn sender_id() -> NodeId {
    [1u8; 32]
}

/// Frame a request payload the way a live `Rpc` does: the sender's id, then
/// whatever follows (a method tag and body).
fn framed(rest: &[u8]) -> Vec<u8> {
    let mut payload = sender_id().to_vec();
    payload.extend_from_slice(rest);
    payload
}

/// Frame a whole datagram the way a transport writes it.
fn framed_datagram(id: u64, rest: &[u8]) -> Vec<u8> {
    let mut datagram = id.to_be_bytes().to_vec();
    datagram.extend(framed(rest));
    datagram
}

const TEST_ID: NodeId = [0u8; 32];

fn test_context() -> Context<RecommendedCloseNodes> {
    Context::new(TEST_ID, recommended(TEST_ID))
}

/// What a PING is answered with: the responder's own id.
fn pong() -> Vec<u8> {
    bincode::serialize(&TEST_ID).unwrap()
}

fn datagram_request(id: u64, payload: &[u8]) -> Request {
    let mut datagram = id.to_be_bytes().to_vec();
    datagram.extend_from_slice(payload);
    Request::from_datagram(addr(), &datagram).expect("carries an id")
}

fn connection_request(id: u64, payload: &[u8]) -> Request {
    let mut datagram = id.to_be_bytes().to_vec();
    datagram.extend_from_slice(payload);
    Request::from_connection(addr(), &datagram).expect("carries an id")
}

#[test]
fn tags_are_split_off_the_front() {
    assert_eq!(
        Method::split_tag(b"FIND_NODEbody"),
        Some((Method::FindNode, &b"body"[..]))
    );
    assert_eq!(
        Method::split_tag(b"FIND_VALUE"),
        Some((Method::FindValue, &b""[..]))
    );
    assert_eq!(Method::split_tag(b"PING"), Some((Method::Ping, &b""[..])));
    assert_eq!(Method::split_tag(b"PIN"), None);
    assert_eq!(Method::split_tag(b"xPING"), None);
    assert_eq!(Method::split_tag(b""), None);
}

#[test]
fn every_method_has_its_own_tag() {
    let tags: Vec<&[u8]> = Method::ALL.iter().map(|method| method.tag()).collect();
    assert_eq!(
        tags,
        vec![
            &b"PING"[..],
            &b"STORE"[..],
            &b"FIND_NODE"[..],
            &b"FIND_VALUE"[..]
        ]
    );
    for (i, a) in tags.iter().enumerate() {
        for (j, b) in tags.iter().enumerate() {
            assert_eq!(a.starts_with(b), i == j);
        }
    }
}

#[test]
fn a_framed_payload_is_taken_apart() {
    let payload = framed(b"STOREbody");
    let (sender, method, body) = parse_framed(&payload).unwrap();
    assert_eq!((sender, method, body), (sender_id(), Method::Store, &b"body"[..]));
    assert!(parse_framed(&payload[..NODE_ID_LEN - 1]).is_none());
    assert!(parse_framed(&payload[..NODE_ID_LEN]).is_none());
    assert!(parse_framed(&framed(b"STOR")).is_none());
}

#[test]
fn a_datagram_splits_into_its_id_and_the_request() {
    let id = 0x0102_0304_0506_0708u64;
    let mut datagram = id.to_be_bytes().to_vec();
    datagram.extend_from_slice(Method::Ping.tag());

    let request = Request::from_datagram(addr(), &datagram).expect("carries an id");
    assert_eq!(request.id, id);
    assert_eq!(request.payload, Method::Ping.tag());
    assert_eq!(request.from, addr());
    assert!(request.from_is_reachable);
    let request = Request::from_connection(addr(), &datagram).expect("carries an id");
    assert_eq!(request.id, id);
    assert!(!request.from_is_reachable);
}

#[test]
fn a_datagram_too_short_for_an_id_is_rejected() {
    assert!(Request::from_datagram(addr(), b"").is_none());
    assert!(Request::from_datagram(addr(), &[0u8; ID_LEN - 1]).is_none());
    // Exactly an id and nothing else still parses; an empty payload is a
    // request with no node id or method tag, which dispatch drops on its own.
    assert!(Request::from_datagram(addr(), &[0u8; ID_LEN]).is_some());
    assert!(Request::from_connection(addr(), &[0u8; ID_LEN - 1]).is_none());
}

#[test]
fn framing_round_trips() {
    let id = 0x0102_0304_0506_0708u64;
    let datagram = frame_reply(id, b"PONG");
    let parsed = Request::from_datagram(addr(), &datagram).expect("carries an id");
    // `frame_reply` marks it a reply, so what comes back off the wire is the
    // request's id with the tag on top of it.
    assert_eq!(parsed.id, reply_id(id));
    assert_eq!(parsed.payload, b"PONG");
}

#[test]
fn ping_is_answered_with_our_own_id() {
    let request = datagram_request(7, &framed(Method::Ping.tag()));

    assert_eq!(
        dispatch(&mut test_context(), &request),
        Some(frame_reply(7, &pong()))
    );
}

#[test]
fn requests_too_short_for_a_node_id_are_dropped() {
    let request = datagram_request(7, &[0u8; NODE_ID_LEN - 1]);

    assert_eq!(dispatch(&mut test_context(), &request), None);
}

#[test]
fn a_datagram_request_learns_the_sender_as_a_contact() {
    let mut context = test_context();
    let request = datagram_request(7, &framed(Method::Ping.tag()));

    dispatch(&mut context, &request).expect("the handler replied");

    let learned = context.close_nodes.close_nodes(sender_id());
    assert!(learned
        .iter()
        .any(|c| c.id == sender_id() && c.address == addr()));
}

#[test]
fn a_connection_request_does_not_learn_the_sender_as_a_contact() {
    let mut context = test_context();
    let request = connection_request(7, &framed(Method::Ping.tag()));

    dispatch(&mut context, &request).expect("the handler replied");

    let learned = context.close_nodes.close_nodes(sender_id());
    assert!(!learned.iter().any(|c| c.id == sender_id()));
}

#[test]
fn unknown_methods_go_unanswered() {
    let request = datagram_request(7, &framed(b"NOT_A_METHOD"));

    assert_eq!(dispatch(&mut test_context(), &request), None);
}

#[test]
fn the_sender_of_an_unknown_method_is_learned_all_the_same() {
    let mut context = test_context();
    let request = datagram_request(7, &framed(b"NOT_A_METHOD"));
    assert_eq!(dispatch(&mut context, &request), None);
    let learned = context.close_nodes.close_nodes(sender_id());
    assert!(learned
        .iter()
        .any(|c| c.id == sender_id() && c.address == addr()));

    // An id and nothing behind it says who is there.
    let mut context = test_context();
    let request = datagram_request(7, &sender_id());
    assert_eq!(dispatch(&mut context, &request), None);
    assert_eq!(context.close_nodes.close_nodes(sender_id()).len(), 1);

    // A connection's address is not worth learning, whatever is asked.
    let mut context = test_context();
    let request = connection_request(7, &framed(b"NOT_A_METHOD"));
    assert_eq!(dispatch(&mut context, &request), None);
    assert!(context.close_nodes.close_nodes(sender_id()).is_empty());
}

#[test]
fn the_reply_carries_the_request_id_back() {
    let id = 0x0102_0304_0506_0708u64;
    let request = datagram_request(id, &framed(Method::Ping.tag()));

    let datagram = dispatch(&mut test_context(), &request).expect("the handler replied");

    // Read back the way a receive loop reads it: id off the front, then body.
    // The tag marks it a reply; the number under it is the request's.
    let (echoed, body) = datagram.split_at(ID_LEN);
    let echoed = u64::from_be_bytes(echoed.try_into().unwrap());
    assert_eq!(echoed, reply_id(id));
    assert_eq!(request_id(echoed), id);
    assert!(is_reply(echoed));
    assert_eq!(body, pong());
}

#[test]
fn a_find_node_round_trips_through_the_dispatcher() {
    let mut context = test_context();
    let known = Contact {
        id: [2u8; 32],
        address: local(8001),
    };
    context.close_nodes.maybe_add_contact(known);

    let sender = Contact {
        id: sender_id(),
        address: addr(),
    };
    let mut datagram = framed_datagram(7, Method::FindNode.tag());
    datagram.extend(find_node::encode_request(sender, [1u8; 32]).unwrap());
    let request = Request::from_datagram(addr(), &datagram).unwrap();
    let reply = dispatch(&mut context, &request).expect("the handler replied");

    let contacts = find_node::decode_reply(&reply[ID_LEN..])
        .expect("the reply must decode as the contacts it carries");
    assert!(contacts.contains(&known));
    // The requester is learned while being answered, so it comes back too.
    assert!(contacts.iter().any(|c| c.id == sender_id()));
}

#[test]
fn a_store_over_a_connection_is_written_and_acked() {
    let mut context = test_context();
    let value = vec![0xABu8; 5000];
    let key = key_for_value(&value);
    let id = 0x1122_3344_5566_7788u64;

    let mut payload = framed(Method::Store.tag());
    payload.extend(bincode::serialize(&(key, value.clone())).unwrap());
    let reply = dispatch(&mut context, &connection_request(id, &payload));

    assert_eq!(reply, Some(frame_reply(id, &STORED)));
    assert_eq!(context.values.get(&key), Some(value));
    assert!(context.close_nodes.close_nodes(sender_id()).is_empty());
}

#[test]
fn ping_answers_with_our_own_id() {
    let my_id = [7u8; 32];
    let mut context = Context::new(my_id, recommended(my_id));

    let reply = ping::handle(&mut context, 1, addr(), b"").unwrap();

    assert_eq!(ping::decode_reply(&reply), Some(my_id));
}

#[test]
fn ping_with_an_unexpected_body_is_still_answered() {
    let my_id = [7u8; 32];
    let mut context = Context::new(my_id, recommended(my_id));

    let reply = ping::handle(&mut context, 1, addr(), b"not a ping").unwrap();

    assert_eq!(ping::decode_reply(&reply), Some(my_id));
    assert_eq!(ping::decode_reply(&reply[..31]), None);
}

#[test]
fn store_writes_the_value_and_acks() {
    let value = b"hello".to_vec();
    let key = key_for_value(&value);
    let my_id = [0u8; 32];
    let mut context = Context::new(my_id, recommended(my_id));

    let body = store::encode_request(key, value.clone()).unwrap();
    let reply = store::handle(&mut context, 42, addr(), &body);

    assert_eq!(reply.as_deref(), Some(&STORED[..]));
    assert_eq!(&STORED, b"STORED");
    assert_eq!(context.values.get(&key), Some(value));
}

#[test]
fn invalid_overwrite_is_rejected_and_original_value_is_preserved() {
    let original = b"old".to_vec();
    let key = key_for_value(&original);

    let my_id = [0u8; 32];
    let mut context = Context::new(my_id, recommended(my_id));

    // Valid first STORE.
    let body = store::encode_request(key, original.clone()).unwrap();
    let reply = store::handle(&mut context, 1, addr(), &body);

    assert_eq!(reply.as_deref(), Some(&STORED[..]));
    assert_eq!(context.values.get(&key), Some(original.clone()));

    // Try to replace it with different content under the same key.
    let replacement = b"new".to_vec();

    assert_ne!(key, key_for_value(&replacement));

    let body = store::encode_request(key, replacement).unwrap();
    let reply = store::handle(&mut context, 2, addr(), &body);

    // Must reject it.
    assert!(reply.is_none());

    // Original content must still be there.
    assert_eq!(context.values.get(&key), Some(original));
}

#[test]
fn store_rejects_invalid_body() {
    let my_id = [0u8; 32];
    let mut context = Context::new(my_id, recommended(my_id));

    let reply = store::handle(&mut context, 42, addr(), b"too short");

    assert!(reply.is_none());
    assert!(context.values.sizes().is_empty());
}

#[test]
fn store_rejects_value_when_key_does_not_match_hash() {
    let value = b"hello".to_vec();

    // Deliberately incorrect key.
    let wrong_key: Key = [1u8; 32];

    assert_ne!(wrong_key, key_for_value(&value));

    let my_id = [0u8; 32];
    let mut context = Context::new(my_id, recommended(my_id));

    let body = store::encode_request(wrong_key, value).unwrap();
    let reply = store::handle(&mut context, 1, addr(), &body);

    assert!(reply.is_none());
    assert!(context.values.sizes().is_empty());
}

#[test]
fn storing_the_same_value_twice_is_allowed() {
    let value = b"hello".to_vec();
    let key = key_for_value(&value);

    let my_id = [0u8; 32];
    let mut context = Context::new(my_id, recommended(my_id));

    let body = store::encode_request(key, value.clone()).unwrap();

    assert_eq!(
        store::handle(&mut context, 1, addr(), &body).as_deref(),
        Some(&STORED[..])
    );

    assert_eq!(
        store::handle(&mut context, 2, addr(), &body).as_deref(),
        Some(&STORED[..])
    );

    assert_eq!(context.values.get(&key), Some(value));
    assert_eq!(context.values.sizes(), vec![(key, 5)]);
}

fn sender() -> Contact<ID_BYTES> {
    Contact {
        id: [9u8; 32],
        address: local(8009),
    }
}

#[test]
fn find_node_returns_the_contacts_it_knows() {
    let my_id = [0u8; 32];
    let mut context = Context::new(my_id, recommended(my_id));

    let known = Contact {
        id: [2u8; 32],
        address: local(8001),
    };
    context.close_nodes.maybe_add_contact(known);

    let target = [1u8; 32];
    let body = find_node::encode_request(sender(), target).unwrap();
    let reply = find_node::handle(&mut context, 42, addr(), &body).unwrap();

    // The sender is learned while answering, so it comes back too.
    let mut contacts = find_node::decode_reply(&reply).unwrap();
    contacts.sort_by_key(|c| c.id);
    assert_eq!(contacts, vec![known, sender()]);
}

#[test]
fn find_node_reply_carries_no_id_of_its_own() {
    let my_id = [0u8; 32];
    let mut context = Context::new(my_id, recommended(my_id));

    let body = find_node::encode_request(sender(), [1u8; 32]).unwrap();
    let reply = find_node::handle(&mut context, 42, addr(), &body).unwrap();

    assert!(find_node::decode_reply(&reply).is_some());
}

#[test]
fn find_node_learns_the_sender() {
    let my_id = [0u8; 32];
    let mut context = Context::new(my_id, recommended(my_id));

    let body = find_node::encode_request(sender(), [1u8; 32]).unwrap();
    find_node::handle(&mut context, 42, addr(), &body).unwrap();

    assert_eq!(context.close_nodes.close_nodes(sender().id), vec![sender()]);
}

#[test]
fn find_node_rejects_invalid_body() {
    let my_id = [0u8; 32];
    let mut context = Context::new(my_id, recommended(my_id));

    assert!(find_node::handle(&mut context, 42, addr(), b"too short").is_none());
}

struct FakeCloseNodes {
    contacts: Vec<Contact<ID_BYTES>>,
}

impl CloseNodes<ID_BYTES> for FakeCloseNodes {
    fn close_nodes(&mut self, _id: NodeId) -> Vec<Contact<ID_BYTES>> {
        self.contacts.clone()
    }

    fn maybe_add_contact(&mut self, _contact: Contact<ID_BYTES>) {}
}

#[test]
fn find_value_returns_stored_value() {
    let key = [1u8; 32];
    let value = b"hello".to_vec();

    let mut context = Context::new(
        [0u8; 32],
        FakeCloseNodes {
            contacts: Vec::new(),
        },
    );

    context.values.insert(key, value.clone());

    let body = bincode::serialize(&key).unwrap();

    let reply = find_value::handle(&mut context, 1, addr(), &body).unwrap();

    assert_eq!(find_value_reply(Some(reply)), FindValue::Value(value));
}

#[test]
fn find_value_returns_closest_contacts_when_value_missing() {
    let key = [1u8; 32];

    let contacts = vec![
        Contact {
            id: [2u8; 32],
            address: local(8001),
        },
        Contact {
            id: [3u8; 32],
            address: local(8002),
        },
    ];

    let mut context = Context::new(
        [0u8; 32],
        FakeCloseNodes {
            contacts: contacts.clone(),
        },
    );

    let body = bincode::serialize(&key).unwrap();

    let reply = find_value::handle(&mut context, 1, addr(), &body).unwrap();

    assert_eq!(find_value_reply(Some(reply)), FindValue::Closest(contacts));
}

#[test]
fn find_value_rejects_a_body_too_short_for_a_key() {
    let mut context = test_context();
    assert!(find_value::handle(&mut context, 1, addr(), &[1u8; 31]).is_none());
}

#[test]
fn a_stored_value_is_found() {
    let mut context = test_context();
    let value = b"what goes in comes out".to_vec();
    let key = key_for_value(&value);
    let body = store::encode_request(key, value.clone()).unwrap();
    store::handle(&mut context, 1, addr(), &body).unwrap();
    let reply = find_value::handle(&mut context, 2, addr(), &key).unwrap();
    assert_eq!(find_value_reply(Some(reply)), FindValue::Value(value));
}

#[test]
fn sha256_matches_known_vector() {
    assert_eq!(
        hash_bytes(b"abc"),
        [
            0xba, 0x78, 0x16, 0xbf, 0x8f, 0x01, 0xcf, 0xea, 0x41, 0x41, 0x40, 0xde, 0x5d, 0xae,
            0x22, 0x23, 0xb0, 0x03, 0x61, 0xa3, 0x96, 0x17, 0x7a, 0x9c, 0xb4, 0x10, 0xff, 0x61,
            0xf2, 0x00, 0x15, 0xad,
        ]
    );
}

#[test]
fn value_key_is_sha256_of_value() {
    let value = b"hello kademlia";

    assert_eq!(key_for_value(value), hash_bytes(value));
}

#[test]
fn node_id_is_hash_of_ip_and_port() {
    assert_eq!(
        node_id_from_address(local(8000), ""),
        hash_bytes(b"127.0.0.1:8000")
    );
}

#[test]
fn addresses_have_a_text_form() {
    assert_eq!(local(8000).text(""), "127.0.0.1:8000");
    // What is given for a version 6 address is not looked at.
    assert_eq!(local(8000).text("[::1]:8000"), "127.0.0.1:8000");
    let widest = Address::V4 {
        ip: [255, 10, 0, 249],
        port: 65535,
    };
    assert_eq!(widest.text(""), "255.10.0.249:65535");
    let nowhere = Address::V4 {
        ip: [0; 4],
        port: 0,
    };
    assert_eq!(nowhere.text(""), "0.0.0.0:0");

    let mut ip = [0u8; 16];
    ip[15] = 1;
    let loopback = Address::V6 {
        ip,
        port: 8000,
        flowinfo: 0,
        scope_id: 0,
    };
    assert_eq!(loopback.text("[::1]:8000"), "[::1]:8000");
    assert_eq!(
        node_id_from_address(loopback, "[::1]:8000"),
        hash_bytes(b"[::1]:8000")
    );
}
