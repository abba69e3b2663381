use kademlia::address::Address;
use kademlia::close_nodes::{recommended, xor_distance, CloseNodes, Contact, ID_BYTES, SIBLINGS};
use kademlia::handle_rpc::store::STORED;
use kademlia::handle_rpc::{dispatch, find_node, frame_reply, Context, Method, Request};
use kademlia::hashing::{hash_bytes, key_for_value};
use kademlia::node::{datastore_snapshot, routing_snapshot, set_up};
use kademlia::pending::Pending;
use kademlia::rpc::{
    find_node_reply, find_value_reply, frame_request, goes_over_robust_transport, ping_reply,
    store_reply, FindValue, Rpc,
};
use kademlia::rpc_transport::networked_debug_transport::{fill, Network, FIRST_EPHEMERAL_PORT};
use kademlia::rpc_transport::retry_transport::{
    classify, number_request, receive, Attempts, Inbound, Received, MAX_ATTEMPTS,
};
use kademlia::rpc_transport::stream_framing::{check_echo, new_request, numbered_request};
use kademlia::rpc_transport::{frame, is_reply, reply_id, request_id, REPLY_TAG};
use kademlia::wire::{
    decode_contacts, decode_found, decode_id, decode_pair, decode_query, encode_contacts,
    encode_found, encode_id, encode_pair, encode_query,
};

fn local(port: u16) -> Address {
    Address::V4 {
        ip: [127, 0, 0, 1],
        port,
    }
}

fn node(byte: u8, port: u16) -> Contact<ID_BYTES> {
    Contact {
        id: [byte; 32],
        address: local(port),
    }
}

fn far(byte: u8) -> Contact<ID_BYTES> {
    Contact {
        id: [byte; 32],
        address: Address::V6 {
            ip: [byte; 16],
            port: 513,
            flowinfo: 1,
            scope_id: 2,
        },
    }
}

/// What [`far`] is once it has travelled.
fn far_travelled(byte: u8) -> Contact<ID_BYTES> {
    Contact {
        id: [byte; 32],
        address: Address::V6 {
            ip: [byte; 16],
            port: 513,
            flowinfo: 0,
            scope_id: 0,
        },
    }
}

#[test]
fn ids_are_tagged_and_untagged() {
    assert_eq!(REPLY_TAG, 1 << 63);
    assert_eq!(request_id(7), 7);
    assert_eq!(request_id(REPLY_TAG + 7), 7);
    assert_eq!(request_id(u64::MAX), u64::MAX >> 1);
    assert_eq!(reply_id(7), REPLY_TAG + 7);
    assert_eq!(reply_id(reply_id(7)), REPLY_TAG + 7);
    assert!(is_reply(reply_id(7)));
    assert!(!is_reply(request_id(reply_id(7))));
}

#[test]
fn ids_go_on_the_wire_big_endian() {
    assert_eq!(
        frame(0x0102_0304_0506_0708, b"rest"),
        b"\x01\x02\x03\x04\x05\x06\x07\x08rest".to_vec()
    );
    assert_eq!(frame(u64::MAX, b""), vec![0xff; 8]);
    assert_eq!(frame(0, b""), vec![0; 8]);
}

#[test]
fn contacts_are_encoded_field_by_field() {
    let mut expected = vec![2, 0, 0, 0, 0, 0, 0, 0];
    expected.extend([5u8; 32]);
    expected.extend([0, 0, 0, 0, 127, 0, 0, 1, 0x34, 0x12]);
    expected.extend([6u8; 32]);
    expected.extend([1, 0, 0, 0]);
    expected.extend([6u8; 16]);
    expected.extend([0x01, 0x02]);
    let bytes = encode_contacts(&vec![node(5, 0x1234), far(6)]).unwrap();
    assert_eq!(bytes, expected);
    assert_eq!(
        decode_contacts(&bytes),
        Some(vec![node(5, 0x1234), far_travelled(6)])
    );
    assert_eq!(decode_contacts(&bytes[..bytes.len() - 1]), None);
}

#[test]
fn what_is_written_is_read_whatever_follows() {
    let id = [8u8; 32];
    let mut bytes = encode_id(&id).unwrap();
    assert_eq!(bytes.len(), 32);
    bytes.push(9);
    assert_eq!(decode_id(&bytes), Some(id));
    assert_eq!(decode_id(&bytes[..31]), None);

    let mut bytes = encode_query(far(3), id).unwrap();
    bytes.push(9);
    assert_eq!(decode_query(&bytes), Some((far_travelled(3), id)));
    assert_eq!(decode_query(&bytes[..40]), None);

    let mut bytes = encode_pair(id, b"value".to_vec()).unwrap();
    assert_eq!(bytes.len(), 32 + 8 + 5);
    bytes.push(9);
    assert_eq!(decode_pair(&bytes), Some((id, b"value".to_vec())));
    assert_eq!(decode_pair(&bytes[..44]), None);

    let mut bytes = encode_found(Ok(b"value".to_vec())).unwrap();
    bytes.push(9);
    assert_eq!(decode_found(&bytes), Some(Ok(b"value".to_vec())));
    let contacts = vec![node(1, 2), node(3, 4)];
    let bytes = encode_found(Err(&contacts)).unwrap();
    assert_eq!(decode_found(&bytes), Some(Err(contacts)));
    assert_eq!(decode_found(&[2, 0, 0, 0, 0, 0, 0, 0, 0, 0, 0, 0]), None);
}

#[test]
fn a_query_with_an_unknown_kind_of_address_is_not_read() {
    let mut bytes = encode_query(node(3, 4), [8u8; 32]).unwrap();
    bytes[32] = 2;
    assert_eq!(decode_query(&bytes), None);
}

fn rpc() -> Rpc<(), (), ()> {
    Rpc::new(node(1, 8010), (), (), ())
}

#[test]
fn requests_name_their_sender_and_their_method() {
    let rpc = rpc();
    assert_eq!(rpc.my_id(), [1u8; 32]);
    assert_eq!(rpc.my_contact(), node(1, 8010));
    let mut ping = vec![1u8; 32];
    ping.extend(b"PING");
    assert_eq!(rpc.ping_request(), ping);

    let mut find = vec![1u8; 32];
    find.extend(b"FIND_NODE");
    find.extend(find_node::encode_request(node(1, 8010), [9u8; 32]).unwrap());
    assert_eq!(rpc.find_node_request([9u8; 32]), Some(find));

    let mut value = vec![1u8; 32];
    value.extend(b"FIND_VALUE");
    value.extend([9u8; 32]);
    assert_eq!(rpc.find_value_request([9u8; 32]), Some(value));

    let mut store = vec![1u8; 32];
    store.extend(b"STORE");
    store.extend(bincode::serialize(&([9u8; 32], b"x".to_vec())).unwrap());
    assert_eq!(rpc.store_request([9u8; 32], b"x".to_vec()), Some(store));
    assert_eq!(
        frame_request(&[1u8; 32], Method::Ping, b""),
        rpc.ping_request()
    );
    (*rpc.transport(), *rpc.robust_transport(), *rpc.close_nodes());
}

#[test]
fn values_go_over_the_robust_transport() {
    let robust: Vec<bool> = Method::ALL
        .iter()
        .map(|method| goes_over_robust_transport(*method))
        .collect();
    assert_eq!(robust, vec![false, true, false, true]);
}

#[test]
fn replies_that_say_nothing_useful() {
    assert_eq!(ping_reply(None), None);
    assert_eq!(ping_reply(Some(vec![1; 31])), None);
    assert_eq!(ping_reply(Some(vec![1; 32])), Some([1; 32]));
    assert!(!store_reply(None));
    assert!(!store_reply(Some(b"STORE".to_vec())));
    assert!(!store_reply(Some(b"STORES".to_vec())));
    assert!(store_reply(Some(STORED.to_vec())));
    assert!(find_node_reply(None).is_empty());
    assert!(find_node_reply(Some(b"garbled".to_vec())).is_empty());
    assert_eq!(find_value_reply(None), FindValue::Closest(Vec::new()));
    assert_eq!(
        find_value_reply(Some(b"garbled".to_vec())),
        FindValue::Closest(Vec::new())
    );
}

/// Ask one node something, all the way through the framing of both.
fn call(
    context: &mut Context<kademlia::close_nodes::RecommendedCloseNodes>,
    payload: &[u8],
) -> Option<Vec<u8>> {
    let (id, message) = new_request(payload);
    let request = Request::from_connection(local(50_000), &message).unwrap();
    let reply = dispatch(context, &request)?;
    assert_eq!(check_echo(id, &reply), Ok(()));
    Some(reply[8..].to_vec())
}

#[test]
fn two_nodes_understand_each_other() {
    let (me, mut peer) = set_up(local(8000), "");
    assert_eq!(me.address, local(8000));
    assert_eq!(me.id, hash_bytes(b"127.0.0.1:8000"));
    assert_eq!(peer.my_id, me.id);
    peer.close_nodes.maybe_add_contact(node(7, 700));
    let rpc = rpc();

    assert_eq!(
        ping_reply(call(&mut peer, &rpc.ping_request())),
        Some(peer.my_id)
    );

    let value = vec![0xABu8; 5000];
    let key = key_for_value(&value);
    let store = rpc.store_request(key, value.clone()).unwrap();
    assert!(store_reply(call(&mut peer, &store)));
    let wrong = rpc.store_request([0u8; 32], value.clone()).unwrap();
    assert!(!store_reply(call(&mut peer, &wrong)));

    let find = rpc.find_value_request(key).unwrap();
    assert_eq!(
        find_value_reply(call(&mut peer, &find)),
        FindValue::Value(value)
    );
    let missing = rpc.find_value_request([7u8; 32]).unwrap();
    assert_eq!(
        find_value_reply(call(&mut peer, &missing)),
        FindValue::Closest(vec![node(7, 700)])
    );
    let target = rpc.find_node_request([6u8; 32]).unwrap();
    assert_eq!(
        find_node_reply(call(&mut peer, &target)),
        vec![node(7, 700), node(1, 8010)]
    );

    let (siblings, buckets) = routing_snapshot(&peer);
    assert_eq!(siblings.len(), 2);
    assert_eq!(buckets.iter().map(|b| b.1.len()).sum::<usize>(), 2);
    assert_eq!(datastore_snapshot(&peer), vec![(key, 5000)]);
}

#[test]
fn no_node_stays_in_the_buckets_that_should_be_a_sibling() {
    let (me, mut peer) = set_up(local(8000), "");
    for i in 0..200u16 {
        let mut id = me.id;
        id[(i % 32) as usize] ^= (i as u8) | 1;
        let mut datagram = frame(i as u64, &id);
        datagram.extend(if i % 3 == 0 { &b"PING"[..] } else { &b"?"[..] });
        let request = Request::from_datagram(local(9000 + i), &datagram).unwrap();
        dispatch(&mut peer, &request);
    }
    let distance = |contact: &Contact<ID_BYTES>| xor_distance(contact.id, me.id);
    let (siblings, buckets) = routing_snapshot(&peer);
    assert_eq!(siblings.len(), SIBLINGS);
    let farthest = distance(siblings.last().unwrap());
    for (_, bucket) in &buckets {
        for known in bucket {
            let is_sibling = siblings.iter().any(|sibling| sibling.id == known.id);
            assert!(is_sibling || distance(known) > farthest);
        }
    }
}

#[test]
fn a_request_reusing_a_pending_id_is_not_mistaken_for_its_reply() {
    let mut pending = Pending::new();
    let (id, _datagram) = number_request(&mut pending, b"a question of our own");
    let mut response = pending.register(id);
    assert_eq!(id, 0);

    let mut datagram = 0u64.to_be_bytes().to_vec();
    datagram.extend_from_slice(b"a question of theirs");
    match receive(&mut pending, local(1), &datagram) {
        Received::Serve(request) => {
            assert_eq!(request.id, 0);
            assert_eq!(request.payload, b"a question of theirs");
            assert!(request.from_is_reachable);
        }
        Received::Dropped | Received::Answer { .. } => panic!("it is a request"),
    }
    // Our own call is still waiting, not resolved by it.
    assert!(response.try_recv().is_err());
}

#[test]
fn a_tagged_datagram_is_delivered_as_a_reply() {
    let mut pending = Pending::new();
    let (id, datagram) = number_request(&mut pending, b"ping");
    assert_eq!(datagram, frame(id, b"ping"));
    let mut response = pending.register(id);

    let reply = frame_reply(id, b"an answer");
    match receive(&mut pending, local(1), &reply) {
        Received::Answer { to, payload } => to.send(payload).unwrap(),
        Received::Dropped | Received::Serve(_) => panic!("somebody waits for it"),
    }
    assert_eq!(response.try_recv().unwrap(), b"an answer");
    // Once is enough.
    assert!(matches!(
        receive(&mut pending, local(1), &reply),
        Received::Dropped
    ));
    assert!(!pending.deliver(id, b"again".to_vec()));
}

#[test]
fn every_call_gets_its_own_reply() {
    let mut pending = Pending::new();
    let mut first = pending.register(10);
    let mut second = pending.register(11);
    match receive(&mut pending, local(1), &frame_reply(11, b"for the second")) {
        Received::Answer { to, payload } => to.send(payload).unwrap(),
        Received::Dropped | Received::Serve(_) => panic!("somebody waits for it"),
    }
    assert!(first.try_recv().is_err());
    assert_eq!(second.try_recv().unwrap(), b"for the second");
    assert!(pending.deliver(10, b"for the first".to_vec()));
    assert_eq!(first.try_recv().unwrap(), b"for the first");
}

#[test]
fn a_claim_says_where_the_response_goes() {
    let mut pending = Pending::new();
    assert!(pending.claim(3, b"unsolicited".to_vec()).is_none());
    let mut response = pending.register(3);
    let (to, payload) = pending.claim(3, b"an answer".to_vec()).unwrap();
    assert_eq!(payload, b"an answer");
    assert!(pending.claim(3, b"again".to_vec()).is_none());
    to.send(payload).unwrap();
    assert_eq!(response.try_recv().unwrap(), b"an answer");

    // Registering an id again takes the place of who waited on it.
    let mut replaced = pending.register(3);
    let mut response = pending.register(3);
    assert!(pending.deliver(3, b"an answer".to_vec()));
    assert!(replaced.try_recv().is_err());
    assert_eq!(response.try_recv().unwrap(), b"an answer");
}

#[test]
fn pending_requests() {
    let mut pending = Pending::new();
    assert_eq!((pending.next_id(), pending.next_id()), (0, 1));
    assert!(!pending.deliver(0, b"unsolicited".to_vec()));
    let gone = pending.register(0);
    drop(gone);
    assert!(!pending.deliver(0, b"too late".to_vec()));
    let mut waiting = pending.register(1);
    pending.deregister(1);
    assert!(!pending.deliver(1, b"cancelled".to_vec()));
    assert!(waiting.try_recv().is_err());
}

#[test]
fn datagrams_are_classified() {
    assert!(matches!(classify(local(1), b"short"), Inbound::TooShort));
    assert!(matches!(
        classify(local(1), &frame(5, b"x")),
        Inbound::Request(request) if request.id == 5 && request.payload == b"x"
    ));
    assert!(matches!(
        classify(local(1), &frame_reply(5, b"x")),
        Inbound::Reply { id: 5, payload } if payload == b"x"
    ));
    let mut pending = Pending::new();
    assert!(matches!(
        receive(&mut pending, local(1), b"short"),
        Received::Dropped
    ));
}

#[test]
fn a_request_is_sent_five_times() {
    assert_eq!(MAX_ATTEMPTS, 5);
    let mut attempts = Attempts::new();
    let sent: Vec<bool> = (0..7).map(|_| attempts.try_again()).collect();
    assert_eq!(sent, vec![true, true, true, true, true, false, false]);
}

#[test]
fn a_reply_under_the_wrong_id_is_an_error_not_a_panic() {
    let (id, message) = numbered_request(u64::MAX, b"STORE...");
    assert_eq!(id, u64::MAX >> 1);
    assert_eq!(message, frame(id, b"STORE..."));
    let echo = reply_id(id);
    assert_eq!(check_echo(id, &echo.to_be_bytes()), Ok(()));
    let mangled = echo.wrapping_add(1);
    assert_eq!(check_echo(id, &mangled.to_be_bytes()), Err(mangled));
}

#[test]
fn request_numbers_are_drawn_by_chance() {
    let drawn: Vec<u64> = (0..16).map(|_| new_request(b"").0).collect();
    assert!(drawn.iter().all(|id| !is_reply(*id)));
    assert!(drawn.iter().any(|id| *id != drawn[0]));
}

#[test]
fn addresses_are_bound_once() {
    let mut network = Network::new();
    assert!(network.bind(local(42), 1));
    assert!(!network.bind(local(42), 2));
    assert_eq!(network.route(local(42)), Some(1));
    assert_eq!(network.route(local(43)), None);
    network.unbind(local(42));
    assert_eq!(network.route(local(42)), None);
    assert!(network.bind(local(42), 3));
}

#[test]
fn fresh_addresses_skip_what_is_bound_and_port_zero() {
    let mut network = Network::new();
    assert_eq!(FIRST_EPHEMERAL_PORT, 49152);
    assert!(network.bind(local(49153), 9));
    assert_eq!(network.bind_any(1), Some(local(49152)));
    assert_eq!(network.bind_any(2), Some(local(49154)));
    let mut last = local(49154);
    for _ in 49155..=65535u32 {
        last = network.fresh_address().unwrap();
    }
    assert_eq!(last, local(65535));
    assert_eq!(network.fresh_address(), Some(local(1)));
}

#[test]
fn a_network_without_a_free_port() {
    let mut network = Network::new();
    for port in 1..=65535u16 {
        assert!(network.bind(local(port), port as u64));
    }
    assert_eq!(network.fresh_address(), None);
    assert_eq!(network.bind_any(0), None);
    assert!(network.connect(local(1)).is_none());
    network.unbind(local(77));
    assert_eq!(network.bind_any(5), Some(local(77)));
}

#[test]
fn the_dialling_address_is_not_one_anybody_is_bound_to() {
    let mut network = Network::new();
    let here = network.bind_any(1).unwrap();
    let there = network.bind_any(2).unwrap();
    let (from, endpoint) = network.connect(there).unwrap();
    assert_eq!(endpoint, Some(2));
    assert_ne!(from, here);
    assert_ne!(from, there);
    assert_eq!(network.route(from), None);
}

#[test]
fn connecting_to_an_unbound_address_is_refused() {
    let mut network = Network::new();
    assert_eq!(network.connect(local(9999)).unwrap().1, None);
}

#[test]
fn a_datagram_is_cut_to_the_buffer() {
    let mut buffer = vec![9u8; 4];
    assert_eq!(fill(&mut buffer, b"abcdef"), 4);
    assert_eq!(buffer, b"abcd");
    assert_eq!(fill(&mut buffer, b"xy"), 2);
    assert_eq!(buffer, b"xycd");
    assert_eq!(fill(&mut buffer, b""), 0);
}

#[test]
fn a_lookup_over_a_recommended_table() {
    let me = [0u8; 32];
    let mut table = recommended(me);
    for byte in 1..=9u8 {
        table.maybe_add_contact(node(byte, byte as u16));
    }
    let mut lookup = kademlia::lookup::NodeLookup::new(&mut table, [4u8; 32]);
    assert_eq!(lookup.next_query(), Some(node(4, 4)));
    assert_eq!(lookup.next_query(), Some(node(5, 5)));
    assert_eq!(lookup.next_query(), Some(node(6, 6)));
}
