use kademlia::address::Address;
use kademlia::bootstrap::{join, BootstrapError};
use kademlia::close_nodes::dumb_bucket::DumbBucket;
use kademlia::close_nodes::{CloseNodes, Contact, Key, NodeId, ID_BYTES, K};
use kademlia::hashing::key_for_value;
use kademlia::lookup::{store_targets, NodeLookup, ValueLookup, ALPHA};
use kademlia::rpc::{find_node_reply, find_value_reply, FindValue};
use kademlia::wire::{encode_contacts, encode_found};

fn local(port: u16) -> Address {
    Address::V4 {
        ip: [127, 0, 0, 1],
        port,
    }
}

fn node(byte: u8, port: u16) -> Contact<ID_BYTES> {
    Contact {
        id: [byte; 32],
        address: local(port),
    }
}

struct FakeCloseNodes {
    initial: Vec<Contact<ID_BYTES>>,
}

impl CloseNodes<ID_BYTES> for FakeCloseNodes {
    fn close_nodes(&mut self, _id: NodeId) -> Vec<Contact<ID_BYTES>> {
        self.initial.clone()
    }

    fn maybe_add_contact(&mut self, _contact: Contact<ID_BYTES>) {}
}

/// What a peer answers a FIND_NODE with, by its address, as it comes off the
/// wire.
type Peers<'a> = &'a dyn Fn(Address) -> Vec<Contact<ID_BYTES>>;

/// What a peer answers a FIND_VALUE with.
type ValuePeers<'a> = &'a dyn Fn(Address) -> FindValue;

/// Run a node lookup to its end, the most open questions at a time and the
/// earliest answered first.
fn run<A: CloseNodes<ID_BYTES>>(
    lookup: &mut NodeLookup,
    table: &mut A,
    peers: Peers,
) -> Vec<Contact<ID_BYTES>> {
    let mut open: Vec<Contact<ID_BYTES>> = Vec::new();
    loop {
        while let Some(next) = lookup.next_query() {
            open.push(next);
        }
        assert!(open.len() <= ALPHA);
        if open.is_empty() {
            assert!(lookup.is_finished());
            return lookup.contacts();
        }
        assert!(!lookup.is_finished());
        let asked = open.remove(0);
        let reply = encode_contacts(&peers(asked.address));
        lookup.on_reply(table, find_node_reply(reply));
    }
}

fn lookup_node<A: CloseNodes<ID_BYTES>>(
    table: &mut A,
    target: NodeId,
    peers: Peers,
) -> Vec<Contact<ID_BYTES>> {
    let mut lookup = NodeLookup::new(table, target);
    run(&mut lookup, table, peers)
}

fn lookup_value<A: CloseNodes<ID_BYTES>>(
    table: &mut A,
    key: Key,
    peers: Peers,
    values: ValuePeers,
) -> Option<Vec<u8>> {
    let candidates = lookup_node(table, key, peers);
    let mut lookup = ValueLookup::new(key, candidates);
    let mut open: Vec<Contact<ID_BYTES>> = Vec::new();
    loop {
        while let Some(next) = lookup.next_query() {
            open.push(next);
        }
        assert!(open.len() <= ALPHA);
        if open.is_empty() {
            assert!(lookup.is_finished());
            return None;
        }
        let source = open.remove(0);
        let reply = match values(source.address) {
            FindValue::Value(value) => encode_found(Ok(value)),
            FindValue::Closest(contacts) => encode_found(Err(&contacts)),
        };
        if let Some(found) = lookup.on_reply(table, source, find_value_reply(reply)) {
            assert_eq!(found.source, source);
            return Some(found.value);
        }
    }
}

/// Peer `a` knows `b`, and `b` knows `c`.
fn chain(address: Address) -> Vec<Contact<ID_BYTES>> {
    match address.port() {
        8001 => vec![node(4, 8002)],
        8002 => vec![node(2, 8003)],
        _ => Vec::new(),
    }
}

fn value_chain(value: &[u8], address: Address) -> FindValue {
    match address.port() {
        8001 => FindValue::Closest(vec![node(4, 8002)]),
        8002 => FindValue::Closest(vec![node(2, 8003)]),
        8003 => FindValue::Value(value.to_vec()),
        _ => FindValue::Closest(Vec::new()),
    }
}

#[test]
fn value_lookup_finds_value_after_node_lookup() {
    let value = b"hello".to_vec();
    let key = key_for_value(&value);
    let mut table = FakeCloseNodes {
        initial: vec![node(8, 8001)],
    };

    let result = lookup_value(&mut table, key, &chain, &|a| value_chain(b"hello", a));

    assert_eq!(result, Some(value));
}

#[test]
fn value_lookup_returns_none_when_value_is_not_found() {
    let key = [0u8; 32];
    let mut table = FakeCloseNodes {
        initial: vec![node(8, 8001)],
    };

    let result = lookup_value(&mut table, key, &chain, &|address| {
        match address.port() {
            8001 => FindValue::Closest(vec![node(4, 8002)]),
            _ => FindValue::Closest(Vec::new()),
        }
    });

    assert_eq!(result, None);
}

#[test]
fn value_lookup_offers_closest_reply_contacts_to_the_routing_table() {
    let key = [0u8; 32];
    let a = node(8, 9101);
    // Only ever surfaces through a FIND_VALUE's closest reply, never through
    // FIND_NODE, so its presence proves this call path.
    let newly_discovered = node(4, 9102);

    let mut table = DumbBucket { contacts: vec![a] };
    let result = lookup_value(&mut table, key, &|_| Vec::new(), &|address| {
        if address == a.address {
            FindValue::Closest(vec![newly_discovered])
        } else {
            FindValue::Closest(Vec::new())
        }
    });

    assert_eq!(result, None);
    assert!(table.contacts.contains(&newly_discovered));
}

#[test]
fn lookup_follows_newly_discovered_contacts() {
    let target = [0u8; 32];
    let a = node(8, 8001);
    let b = node(4, 8002);
    let c = node(2, 8003);
    let mut table = FakeCloseNodes { initial: vec![a] };

    let result = lookup_node(&mut table, target, &chain);

    assert_eq!(result, vec![c, b, a]);
}

#[test]
fn lookup_offers_newly_discovered_contacts_to_the_routing_table() {
    let target = [0u8; 32];
    let a = node(8, 8001);
    let b = node(4, 8002);
    let c = node(2, 8003);
    let mut table = DumbBucket { contacts: vec![a] };

    lookup_node(&mut table, target, &chain);

    assert_eq!(table.contacts, vec![a, b, c]);
}

#[test]
fn lookup_returns_empty_when_no_contacts_are_known() {
    let mut table = FakeCloseNodes { initial: vec![] };

    let result = lookup_node(&mut table, [0u8; 32], &chain);

    assert!(result.is_empty());
}

#[test]
fn value_lookup_rejects_value_that_does_not_match_key() {
    let key = key_for_value(b"correct value");
    let mut table = FakeCloseNodes {
        initial: vec![node(8, 8001)],
    };

    // The last peer claims to have the requested key, but sends different
    // content.
    let result = lookup_value(&mut table, key, &chain, &|a| {
        value_chain(b"tampered value", a)
    });

    assert_eq!(result, None);
}

#[test]
fn no_more_than_alpha_questions_are_open() {
    assert_eq!(ALPHA, 3);
    let known: Vec<Contact<ID_BYTES>> = (1..=5u8).map(|b| node(b, b as u16)).collect();
    let mut table = FakeCloseNodes { initial: known };
    let mut lookup = NodeLookup::new(&mut table, [0u8; 32]);
    let asked: Vec<u16> = (0..3)
        .map(|_| lookup.next_query().unwrap().address.port())
        .collect();
    assert_eq!(asked, vec![1, 2, 3]);
    assert!(lookup.next_query().is_none());
    lookup.on_reply(&mut table, Vec::new());
    assert_eq!(lookup.next_query().unwrap().address.port(), 4);
    assert!(lookup.next_query().is_none());
}

#[test]
fn nobody_is_asked_twice() {
    let mut table = FakeCloseNodes {
        initial: vec![node(8, 1)],
    };
    let mut lookup = NodeLookup::new(&mut table, [0u8; 32]);
    assert_eq!(lookup.next_query().unwrap().address.port(), 1);
    // The same node again, at another address: its id was asked already.
    lookup.on_reply(&mut table, vec![node(8, 2)]);
    assert!(lookup.next_query().is_none());
    assert!(lookup.is_finished());
    assert_eq!(lookup.contacts(), vec![node(8, 1)]);
}

#[test]
fn a_lookup_keeps_the_closest_it_saw() {
    let mut table = FakeCloseNodes {
        initial: vec![node(200, 200)],
    };
    let result = lookup_node(&mut table, [0u8; 32], &|address| {
        if address.port() == 200 {
            (1..=40u8).rev().map(|b| node(b, b as u16)).collect()
        } else {
            Vec::new()
        }
    });
    let ids: Vec<u8> = result.iter().map(|c| c.id[0]).collect();
    assert_eq!(ids, (1..=20u8).collect::<Vec<u8>>());
    assert_eq!(result.len(), K);
}

#[test]
fn values_are_stored_on_the_closest_including_us() {
    let key = [0u8; 32];
    let found: Vec<Contact<ID_BYTES>> = (10..=29u8).map(|b| node(b, b as u16)).collect();
    // Near: we push the farthest out.
    let targets = store_targets(found.clone(), node(3, 3), key);
    assert_eq!(targets.len(), K);
    assert_eq!(targets[0], node(3, 3));
    assert!(!targets.contains(&node(29, 29)));
    // Far: we are not among them.
    let targets = store_targets(found.clone(), node(99, 99), key);
    assert_eq!(targets, found);
    // Alone: it is all ours.
    assert_eq!(store_targets(Vec::new(), node(99, 99), key), vec![node(99, 99)]);
}

/// A routing table that remembers what a join taught it.
struct RecordingCloseNodes {
    contacts: Vec<Contact<ID_BYTES>>,
}

impl CloseNodes<ID_BYTES> for RecordingCloseNodes {
    fn close_nodes(&mut self, _id: NodeId) -> Vec<Contact<ID_BYTES>> {
        self.contacts.clone()
    }

    fn maybe_add_contact(&mut self, contact: Contact<ID_BYTES>) {
        if !self.contacts.iter().any(|known| known.id == contact.id) {
            self.contacts.push(contact);
        }
    }
}

const MY_ID: NodeId = [1u8; 32];
const SEED_ID: NodeId = [2u8; 32];

fn bootstrap(
    table: &mut RecordingCloseNodes,
    answer: Option<NodeId>,
    peers: Peers,
) -> Result<Vec<Contact<ID_BYTES>>, BootstrapError> {
    match join(table, MY_ID, local(8000), answer) {
        Ok(mut lookup) => Ok(run(&mut lookup, table, peers)),
        Err(error) => Err(error),
    }
}

fn seed() -> Contact<ID_BYTES> {
    Contact {
        id: SEED_ID,
        address: local(8000),
    }
}

#[test]
fn bootstrap_records_the_seed() {
    let mut table = RecordingCloseNodes {
        contacts: Vec::new(),
    };

    bootstrap(&mut table, Some(SEED_ID), &|_| Vec::new()).unwrap();

    assert_eq!(table.close_nodes(MY_ID), vec![seed()]);
}

#[test]
fn bootstrap_learns_the_seeds_neighbours() {
    let neighbour = node(3, 8001);
    let mut table = RecordingCloseNodes {
        contacts: Vec::new(),
    };

    let found = bootstrap(&mut table, Some(SEED_ID), &|_| vec![neighbour]).unwrap();

    assert!(found.contains(&neighbour));
    let mut known = table.close_nodes(MY_ID);
    known.sort_by_key(|contact| contact.id);
    assert_eq!(known, vec![seed(), neighbour]);
}

#[test]
fn an_unreachable_seed_is_an_error() {
    let mut table = RecordingCloseNodes {
        contacts: Vec::new(),
    };

    assert_eq!(
        bootstrap(&mut table, None, &|_| Vec::new()),
        Err(BootstrapError::Unreachable)
    );
    assert!(table.close_nodes(MY_ID).is_empty());
}

#[test]
fn a_seed_that_is_us_is_an_error() {
    let mut table = RecordingCloseNodes {
        contacts: Vec::new(),
    };

    assert_eq!(
        bootstrap(&mut table, Some(MY_ID), &|_| Vec::new()),
        Err(BootstrapError::SelfSeed)
    );
    assert!(table.close_nodes(MY_ID).is_empty());
}
