//! How the bodies of requests and replies are encoded.
//!
//! Bodies are bincode: fixed-width little-endian integers, fields one after
//! the other, a list as its length and then its items, and an alternative as
//! its number and then its content.
//!
//! What goes to the encoder are plain values. An address is given to it as the
//! alternative of a version 4 and a version 6 one, each an IP and a port: flow
//! info and scope of a version 6 address do not travel.

use crate::address::Address;
use crate::close_nodes;
use crate::close_nodes::metric;
use crate::close_nodes::{Contact, Key, NodeId, ID_BYTES};
use vstd::prelude::*;

verus! {

/// An address as it is encoded.
pub type WireAddress = Result<([u8; 4], u16), ([u8; 16], u16)>;

/// A contact as it is encoded.
pub type WireContact = ([u8; 32], WireAddress);

/// A number in `len` bytes, least significant first.
pub open spec fn le_bytes(value: nat, len: nat) -> Seq<u8>
    decreases len,
{
    if len == 0 {
        Seq::empty()
    } else {
        seq![(value % 256) as u8] + le_bytes(value / 256, (len - 1) as nat)
    }
}

/// An address on the wire: which version it is, its IP and its port.
pub open spec fn address_bytes(address: WireAddress) -> Seq<u8> {
    match address {
        Ok((ip, port)) => le_bytes(0, 4) + ip@ + le_bytes(port as nat, 2),
        Err((ip, port)) => le_bytes(1, 4) + ip@ + le_bytes(port as nat, 2),
    }
}

/// A contact on the wire: its id and its address.
pub open spec fn contact_bytes(contact: WireContact) -> Seq<u8> {
    contact.0@ + address_bytes(contact.1)
}

/// Contacts one after the other.
pub open spec fn joined(contacts: Seq<WireContact>) -> Seq<u8>
    decreases contacts.len(),
{
    if contacts.len() == 0 {
        Seq::empty()
    } else {
        contact_bytes(contacts[0]) + joined(contacts.skip(1))
    }
}

/// A list of contacts on the wire: how many there are, and then each.
pub open spec fn contacts_bytes(contacts: Seq<WireContact>) -> Seq<u8> {
    le_bytes(contacts.len(), 8) + joined(contacts)
}

/// A value on the wire: how long it is, and then its bytes.
pub open spec fn value_bytes(value: Seq<u8>) -> Seq<u8> {
    le_bytes(value.len(), 8) + value
}

/// A key and a value on the wire.
pub open spec fn pair_bytes(key: Seq<u8>, value: Seq<u8>) -> Seq<u8> {
    key + value_bytes(value)
}

/// A contact and an id on the wire.
pub open spec fn query_bytes(sender: WireContact, target: Seq<u8>) -> Seq<u8> {
    contact_bytes(sender) + target
}

/// What is found for a key, on the wire: a value, or else contacts.
pub open spec fn found_bytes(found: Result<Seq<u8>, Seq<WireContact>>) -> Seq<u8> {
    match found {
        Ok(value) => le_bytes(0, 4) + value_bytes(value),
        Err(contacts) => le_bytes(1, 4) + contacts_bytes(contacts),
    }
}

/// The views of what was found.
pub open spec fn found_view(found: Result<Vec<u8>, Vec<WireContact>>) -> Result<
    Seq<u8>,
    Seq<WireContact>,
> {
    match found {
        Ok(value) => Ok(value@),
        Err(contacts) => Err(contacts@),
    }
}

/// `bincode::serialize` of 32 bytes: those bytes.
#[verifier::external_body]
fn serialize_id(id: &[u8; 32]) -> (out: Option<Vec<u8>>)
    ensures
        out is Some,
        out matches Some(bytes) ==> bytes@ == id@,
{
    bincode::serialize(id).ok()
}

/// `bincode::deserialize` to 32 bytes: the first 32 there are. Bytes behind
/// them are ignored.
#[verifier::external_body]
fn deserialize_id(bytes: &[u8]) -> (out: Option<[u8; 32]>)
    ensures
        out is Some <==> bytes@.len() >= 32,
        out matches Some(id) ==> id@ == bytes@.take(32),
{
    bincode::deserialize(bytes).ok()
}

/// `bincode::serialize` of a contact and an id.
#[verifier::external_body]
fn serialize_query(sender: WireContact, target: [u8; 32]) -> (out: Option<Vec<u8>>)
    ensures
        out is Some,
        out matches Some(bytes) ==> bytes@ == query_bytes(sender, target@),
{
    bincode::serialize(&(sender, target)).ok()
}

/// `bincode::deserialize` to a contact and an id: those whose encoding the
/// bytes start with, and nothing if they start with none.
#[verifier::external_body]
fn deserialize_query(bytes: &[u8]) -> (out: Option<(WireContact, [u8; 32])>)
    ensures
        match out {
            Some((sender, target)) => query_bytes(sender, target@).is_prefix_of(bytes@),
            None => forall|sender: WireContact, target: [u8; 32]|
                !(#[trigger] query_bytes(sender, target@)).is_prefix_of(bytes@),
        },
{
    bincode::deserialize(bytes).ok()
}

/// `bincode::serialize` of a list of contacts.
#[verifier::external_body]
fn serialize_contacts(contacts: &Vec<WireContact>) -> (out: Option<Vec<u8>>)
    ensures
        out is Some,
        out matches Some(bytes) ==> bytes@ == contacts_bytes(contacts@),
{
    bincode::serialize(contacts).ok()
}

/// `bincode::deserialize` to a list of contacts: the one whose encoding the
/// bytes start with, and nothing if they start with none.
#[verifier::external_body]
fn deserialize_contacts(bytes: &[u8]) -> (out: Option<Vec<WireContact>>)
    ensures
        match out {
            Some(contacts) => contacts_bytes(contacts@).is_prefix_of(bytes@),
            None => forall|contacts: Seq<WireContact>|
                !(#[trigger] contacts_bytes(contacts)).is_prefix_of(bytes@),
        },
{
    bincode::deserialize(bytes).ok()
}

/// `bincode::serialize` of a key and a value.
#[verifier::external_body]
fn serialize_pair(key: [u8; 32], value: Vec<u8>) -> (out: Option<Vec<u8>>)
    ensures
        out is Some,
        out matches Some(bytes) ==> bytes@ == pair_bytes(key@, value@),
{
    bincode::serialize(&(key, value)).ok()
}

/// `bincode::deserialize` to a key and a value: those whose encoding the bytes
/// start with, and nothing if they start with none.
#[verifier::external_body]
fn deserialize_pair(bytes: &[u8]) -> (out: Option<([u8; 32], Vec<u8>)>)
    ensures
        match out {
            Some((key, value)) => pair_bytes(key@, value@).is_prefix_of(bytes@),
            None => forall|key: [u8; 32], value: Seq<u8>|
                !(#[trigger] pair_bytes(key@, value)).is_prefix_of(bytes@),
        },
{
    bincode::deserialize(bytes).ok()
}

/// `bincode::serialize` of a value or else contacts.
#[verifier::external_body]
fn serialize_found(found: &Result<Vec<u8>, Vec<WireContact>>) -> (out: Option<Vec<u8>>)
    ensures
        out is Some,
        out matches Some(bytes) ==> bytes@ == found_bytes(found_view(*found)),
{
    bincode::serialize(found).ok()
}

/// `bincode::deserialize` to a value or else contacts: what the encoding that
/// the bytes start with stands for, and nothing if they start with none.
#[verifier::external_body]
fn deserialize_found(bytes: &[u8]) -> (out: Option<Result<Vec<u8>, Vec<WireContact>>>)
    ensures
        match out {
            Some(found) => found_bytes(found_view(found)).is_prefix_of(bytes@),
            None => forall|found: Result<Seq<u8>, Seq<WireContact>>|
                !(#[trigger] found_bytes(found)).is_prefix_of(bytes@),
        },
{
    bincode::deserialize(bytes).ok()
}

/// An address as it is given to the encoder.
pub open spec fn wire_address(address: Address) -> WireAddress {
    match address {
        Address::V4 { ip, port } => Ok((ip, port)),
        Address::V6 { ip, port, .. } => Err((ip, port)),
    }
}

/// An address as it comes out of the decoder.
pub open spec fn address_of(address: WireAddress) -> Address {
    match address {
        Ok((ip, port)) => Address::V4 { ip, port },
        Err((ip, port)) => Address::V6 { ip, port, flowinfo: 0, scope_id: 0 },
    }
}

/// A contact as it is given to the encoder.
pub open spec fn wire_contact(contact: Contact<ID_BYTES>) -> WireContact {
    (contact.id, wire_address(contact.address))
}

/// A contact as it comes out of the decoder.
pub open spec fn contact_of(contact: WireContact) -> Contact<ID_BYTES> {
    Contact { id: contact.0, address: address_of(contact.1) }
}

/// Contacts as they are given to the encoder.
pub open spec fn wire_contacts(contacts: Seq<Contact<ID_BYTES>>) -> Seq<WireContact> {
    contacts.map_values(|contact: Contact<ID_BYTES>| wire_contact(contact))
}

/// Contacts as they come out of the decoder.
pub open spec fn contacts_of(contacts: Seq<WireContact>) -> Seq<Contact<ID_BYTES>> {
    contacts.map_values(|contact: WireContact| contact_of(contact))
}

/// The id that some bytes start with.
pub open spec fn decoded_id(bytes: Seq<u8>) -> Option<NodeId> {
    if bytes.len() >= 32 {
        Some(close_nodes::id_of(bytes.take(32)))
    } else {
        None
    }
}

/// The contact and the id whose encoding some bytes start with.
pub open spec fn decoded_query(bytes: Seq<u8>) -> Option<(Contact<ID_BYTES>, NodeId)> {
    if exists|sender: WireContact, target: NodeId|
        (#[trigger] query_bytes(sender, target@)).is_prefix_of(bytes) {
        let (sender, target) = choose|sender: WireContact, target: NodeId|
            (#[trigger] query_bytes(sender, target@)).is_prefix_of(bytes);
        Some((contact_of(sender), target))
    } else {
        None
    }
}

/// The contacts whose encoding some bytes start with.
pub open spec fn decoded_contacts(bytes: Seq<u8>) -> Option<Seq<Contact<ID_BYTES>>> {
    if exists|contacts: Seq<WireContact>|
        (#[trigger] contacts_bytes(contacts)).is_prefix_of(bytes) {
        Some(
            contacts_of(
                choose|contacts: Seq<WireContact>|
                    (#[trigger] contacts_bytes(contacts)).is_prefix_of(bytes),
            ),
        )
    } else {
        None
    }
}

/// The key and the value whose encoding some bytes start with.
pub open spec fn decoded_pair(bytes: Seq<u8>) -> Option<(Key, Seq<u8>)> {
    if exists|key: Key, value: Seq<u8>|
        (#[trigger] pair_bytes(key@, value)).is_prefix_of(bytes) {
        Some(
            choose|key: Key, value: Seq<u8>|
                (#[trigger] pair_bytes(key@, value)).is_prefix_of(bytes),
        )
    } else {
        None
    }
}

/// What the encoding that some bytes start with says was found: a value, or
/// else contacts.
pub open spec fn decoded_found(bytes: Seq<u8>) -> Option<
    Result<Seq<u8>, Seq<Contact<ID_BYTES>>>,
> {
    if exists|found: Result<Seq<u8>, Seq<WireContact>>|
        (#[trigger] found_bytes(found)).is_prefix_of(bytes) {
        match choose|found: Result<Seq<u8>, Seq<WireContact>>|
            (#[trigger] found_bytes(found)).is_prefix_of(bytes) {
            Ok(value) => Some(Ok(value)),
            Err(contacts) => Some(Err(contacts_of(contacts))),
        }
    } else {
        None
    }
}

proof fn lemma_prefix_of_two(x: Seq<u8>, y: Seq<u8>, bytes: Seq<u8>)
    requires
        (x + y).is_prefix_of(bytes),
    ensures
        x.is_prefix_of(bytes),
        y.is_prefix_of(bytes.skip(x.len() as int)),
        x == bytes.take(x.len() as int),
{
    let both = x + y;
    assert(both =~= bytes.take(both.len() as int));
    assert(x =~= both.take(x.len() as int));
    assert(x =~= bytes.take(x.len() as int));
    assert(y =~= both.skip(x.len() as int));
    assert(y =~= bytes.skip(x.len() as int).take(y.len() as int));
}

proof fn lemma_pow256()
    ensures
        metric::pow256(2) == 0x1_0000,
        metric::pow256(4) == 0x1_0000_0000,
        metric::pow256(8) == 0x1_0000_0000_0000_0000,
{
    reveal_with_fuel(metric::pow256, 9);
}

proof fn lemma_le_len(value: nat, len: nat)
    ensures
        le_bytes(value, len).len() == len,
    decreases len,
{
    if len > 0 {
        lemma_le_len(value / 256, (len - 1) as nat);
    }
}

proof fn lemma_le_injective(a: nat, b: nat, len: nat)
    requires
        a < metric::pow256(len),
        b < metric::pow256(len),
        le_bytes(a, len) == le_bytes(b, len),
    ensures
        a == b,
    decreases len,
{
    if len > 0 {
        let x = le_bytes(a, len);
        let y = le_bytes(b, len);
        assert(x[0] == y[0]);
        assert(x.skip(1) =~= le_bytes(a / 256, (len - 1) as nat));
        assert(y.skip(1) =~= le_bytes(b / 256, (len - 1) as nat));
        lemma_le_injective(a / 256, b / 256, (len - 1) as nat);
    }
}

/// Whatever number the first `len` bytes hold, they hold one.
proof fn lemma_one_number(a: nat, b: nat, len: nat, bytes: Seq<u8>)
    requires
        a < metric::pow256(len),
        b < metric::pow256(len),
        le_bytes(a, len).is_prefix_of(bytes),
        le_bytes(b, len).is_prefix_of(bytes),
    ensures
        a == b,
{
    lemma_le_len(a, len);
    lemma_le_len(b, len);
    assert(le_bytes(a, len) =~= bytes.take(len as int));
    assert(le_bytes(b, len) =~= bytes.take(len as int));
    lemma_le_injective(a, b, len);
}

proof fn lemma_one_array<const N: usize>(a: [u8; N], b: [u8; N], bytes: Seq<u8>)
    requires
        a@.is_prefix_of(bytes),
        b@.is_prefix_of(bytes),
    ensures
        a == b,
{
    assert forall|i: int| 0 <= i < N implies a[i] == b[i] by {
        assert(a@[i] == bytes[i]);
        assert(b@[i] == bytes[i]);
    }
    assert(a =~= b);
}

proof fn lemma_one_address(a: WireAddress, b: WireAddress, bytes: Seq<u8>)
    requires
        address_bytes(a).is_prefix_of(bytes),
        address_bytes(b).is_prefix_of(bytes),
    ensures
        a == b,
        address_bytes(a).len() > 0,
{
    lemma_pow256();
    let (kind_a, rest_a) = lemma_address_parts(a, bytes);
    let (kind_b, rest_b) = lemma_address_parts(b, bytes);
    lemma_one_number(kind_a, kind_b, 4, bytes);
    let rest = bytes.skip(4);
    match a {
        Ok((ip, port)) => {
            match b {
                Ok((other, other_port)) => {
                    lemma_prefix_of_two(ip@, le_bytes(port as nat, 2), rest);
                    lemma_prefix_of_two(other@, le_bytes(other_port as nat, 2), rest);
                    lemma_one_array(ip, other, rest);
                    lemma_one_number(port as nat, other_port as nat, 2, rest.skip(4));
                },
                Err(_) => {},
            }
        },
        Err((ip, port)) => {
            match b {
                Err((other, other_port)) => {
                    lemma_prefix_of_two(ip@, le_bytes(port as nat, 2), rest);
                    lemma_prefix_of_two(other@, le_bytes(other_port as nat, 2), rest);
                    lemma_one_array(ip, other, rest);
                    lemma_one_number(port as nat, other_port as nat, 2, rest.skip(16));
                },
                Ok(_) => {},
            }
        },
    }
}

proof fn lemma_address_parts(address: WireAddress, bytes: Seq<u8>) -> (parts: (nat, Seq<u8>))
    requires
        address_bytes(address).is_prefix_of(bytes),
    ensures
        parts.0 == if address is Ok {
            0nat
        } else {
            1
        },
        parts.1 == match address {
            Ok((ip, port)) => ip@ + le_bytes(port as nat, 2),
            Err((ip, port)) => ip@ + le_bytes(port as nat, 2),
        },
        le_bytes(parts.0, 4).is_prefix_of(bytes),
        parts.1.is_prefix_of(bytes.skip(4)),
        address_bytes(address).len() == 4 + parts.1.len(),
{
    let kind: nat = if address is Ok {
        0
    } else {
        1
    };
    let rest = match address {
        Ok((ip, port)) => ip@ + le_bytes(port as nat, 2),
        Err((ip, port)) => ip@ + le_bytes(port as nat, 2),
    };
    lemma_le_len(kind, 4);
    assert(address_bytes(address) =~= le_bytes(kind, 4) + rest);
    lemma_prefix_of_two(le_bytes(kind, 4), rest, bytes);
    (kind, rest)
}

/// Bytes start with the encoding of one contact at most.
pub proof fn lemma_one_contact(a: WireContact, b: WireContact, bytes: Seq<u8>)
    requires
        contact_bytes(a).is_prefix_of(bytes),
        contact_bytes(b).is_prefix_of(bytes),
    ensures
        a == b,
        contact_bytes(a).len() > 0,
{
    lemma_prefix_of_two(a.0@, address_bytes(a.1), bytes);
    lemma_prefix_of_two(b.0@, address_bytes(b.1), bytes);
    lemma_one_array(a.0, b.0, bytes);
    lemma_one_address(a.1, b.1, bytes.skip(32));
}

/// Bytes start with the encoding of one contact and id at most.
pub proof fn lemma_one_query(
    a: WireContact,
    b: WireContact,
    target: NodeId,
    other: NodeId,
    bytes: Seq<u8>,
)
    requires
        query_bytes(a, target@).is_prefix_of(bytes),
        query_bytes(b, other@).is_prefix_of(bytes),
    ensures
        a == b,
        target == other,
{
    lemma_prefix_of_two(contact_bytes(a), target@, bytes);
    lemma_prefix_of_two(contact_bytes(b), other@, bytes);
    lemma_one_contact(a, b, bytes);
    lemma_one_array(target, other, bytes.skip(contact_bytes(a).len() as int));
}

proof fn lemma_joined_len(contacts: Seq<WireContact>)
    ensures
        joined(contacts).len() >= contacts.len(),
    decreases contacts.len(),
{
    if contacts.len() > 0 {
        lemma_joined_len(contacts.skip(1));
        assert(contacts[0].0@.len() == 32);
    }
}

proof fn lemma_one_joined(a: Seq<WireContact>, b: Seq<WireContact>, bytes: Seq<u8>)
    requires
        a.len() == b.len(),
        joined(a).is_prefix_of(bytes),
        joined(b).is_prefix_of(bytes),
    ensures
        a == b,
    decreases a.len(),
{
    if a.len() > 0 {
        lemma_prefix_of_two(contact_bytes(a[0]), joined(a.skip(1)), bytes);
        lemma_prefix_of_two(contact_bytes(b[0]), joined(b.skip(1)), bytes);
        lemma_one_contact(a[0], b[0], bytes);
        lemma_one_joined(a.skip(1), b.skip(1), bytes.skip(contact_bytes(a[0]).len() as int));
        assert(a =~= seq![a[0]] + a.skip(1));
        assert(b =~= seq![b[0]] + b.skip(1));
    } else {
        assert(a =~= b);
    }
}

/// Bytes start with the encoding of one list of contacts at most.
pub proof fn lemma_one_list(a: Seq<WireContact>, b: Seq<WireContact>, bytes: Seq<u8>)
    requires
        bytes.len() <= u64::MAX,
        contacts_bytes(a).is_prefix_of(bytes),
        contacts_bytes(b).is_prefix_of(bytes),
    ensures
        a == b,
{
    lemma_pow256();
    lemma_joined_len(a);
    lemma_joined_len(b);
    lemma_le_len(a.len(), 8);
    lemma_le_len(b.len(), 8);
    lemma_prefix_of_two(le_bytes(a.len(), 8), joined(a), bytes);
    lemma_prefix_of_two(le_bytes(b.len(), 8), joined(b), bytes);
    lemma_one_number(a.len(), b.len(), 8, bytes);
    lemma_one_joined(a, b, bytes.skip(8));
}

proof fn lemma_one_value(a: Seq<u8>, b: Seq<u8>, bytes: Seq<u8>)
    requires
        bytes.len() <= u64::MAX,
        value_bytes(a).is_prefix_of(bytes),
        value_bytes(b).is_prefix_of(bytes),
    ensures
        a == b,
{
    lemma_pow256();
    lemma_le_len(a.len(), 8);
    lemma_le_len(b.len(), 8);
    lemma_prefix_of_two(le_bytes(a.len(), 8), a, bytes);
    lemma_prefix_of_two(le_bytes(b.len(), 8), b, bytes);
    lemma_one_number(a.len(), b.len(), 8, bytes);
    assert(a =~= bytes.skip(8).take(a.len() as int));
    assert(b =~= bytes.skip(8).take(a.len() as int));
}

/// Bytes start with the encoding of one key and value at most.
pub proof fn lemma_one_pair(
    key: Key,
    other: Key,
    a: Seq<u8>,
    b: Seq<u8>,
    bytes: Seq<u8>,
)
    requires
        bytes.len() <= u64::MAX,
        pair_bytes(key@, a).is_prefix_of(bytes),
        pair_bytes(other@, b).is_prefix_of(bytes),
    ensures
        key == other,
        a == b,
{
    lemma_prefix_of_two(key@, value_bytes(a), bytes);
    lemma_prefix_of_two(other@, value_bytes(b), bytes);
    lemma_one_array(key, other, bytes);
    lemma_one_value(a, b, bytes.skip(32));
}

/// Bytes start with the encoding of one thing found at most.
pub proof fn lemma_one_found(
    a: Result<Seq<u8>, Seq<WireContact>>,
    b: Result<Seq<u8>, Seq<WireContact>>,
    bytes: Seq<u8>,
)
    requires
        bytes.len() <= u64::MAX,
        found_bytes(a).is_prefix_of(bytes),
        found_bytes(b).is_prefix_of(bytes),
    ensures
        a == b,
{
    lemma_pow256();
    let kind_a: nat = if a is Ok {
        0
    } else {
        1
    };
    let kind_b: nat = if b is Ok {
        0
    } else {
        1
    };
    let rest_a = match a {
        Ok(value) => value_bytes(value),
        Err(contacts) => contacts_bytes(contacts),
    };
    let rest_b = match b {
        Ok(value) => value_bytes(value),
        Err(contacts) => contacts_bytes(contacts),
    };
    lemma_le_len(kind_a, 4);
    lemma_le_len(kind_b, 4);
    lemma_prefix_of_two(le_bytes(kind_a, 4), rest_a, bytes);
    lemma_prefix_of_two(le_bytes(kind_b, 4), rest_b, bytes);
    lemma_one_number(kind_a, kind_b, 4, bytes);
    match a {
        Ok(value) => {
            if b is Ok {
                lemma_one_value(value, b->Ok_0, bytes.skip(4));
            }
        },
        Err(contacts) => {
            if b is Err {
                lemma_one_list(contacts, b->Err_0, bytes.skip(4));
            }
        },
    }
}

/// A contact comes back as it was sent, but for flow info and scope.
pub proof fn lemma_contact_round_trips(contact: Contact<ID_BYTES>)
    ensures
        contact_of(wire_contact(contact)).id == contact.id,
        contact_of(wire_contact(contact)).address == match contact.address {
            Address::V4 { ip, port } => Address::V4 { ip, port },
            Address::V6 { ip, port, .. } => Address::V6 { ip, port, flowinfo: 0, scope_id: 0 },
        },
{
}

/// An id is read as it was written, whatever follows it.
pub proof fn lemma_id_round_trips(id: NodeId, more: Seq<u8>)
    ensures
        decoded_id(id@ + more) == Some(id),
{
    assert((id@ + more).take(32) =~= id@);
    close_nodes::lemma_id_of(id);
}

/// A query is read as it was written, whatever follows it.
pub proof fn lemma_query_round_trips(
    sender: Contact<ID_BYTES>,
    target: NodeId,
    more: Seq<u8>,
)
    ensures
        decoded_query(query_bytes(wire_contact(sender), target@) + more) == Some(
            (contact_of(wire_contact(sender)), target),
        ),
{
    let bytes = query_bytes(wire_contact(sender), target@) + more;
    assert(query_bytes(wire_contact(sender), target@).is_prefix_of(bytes));
    let (other, other_target) = choose|sender: WireContact, target: NodeId|
        (#[trigger] query_bytes(sender, target@)).is_prefix_of(bytes);
    lemma_one_query(wire_contact(sender), other, target, other_target, bytes);
}

/// Contacts are read as they were written, whatever follows them.
pub proof fn lemma_contacts_round_trip(contacts: Seq<Contact<ID_BYTES>>, more: Seq<u8>)
    requires
        (contacts_bytes(wire_contacts(contacts)) + more).len() <= u64::MAX,
    ensures
        decoded_contacts(contacts_bytes(wire_contacts(contacts)) + more) == Some(
            contacts_of(wire_contacts(contacts)),
        ),
{
    let bytes = contacts_bytes(wire_contacts(contacts)) + more;
    assert(contacts_bytes(wire_contacts(contacts)).is_prefix_of(bytes));
    let other = choose|contacts: Seq<WireContact>|
        (#[trigger] contacts_bytes(contacts)).is_prefix_of(bytes);
    lemma_one_list(wire_contacts(contacts), other, bytes);
}

/// A key and a value are read as they were written, whatever follows them.
pub proof fn lemma_pair_round_trips(key: Key, value: Seq<u8>, more: Seq<u8>)
    requires
        (pair_bytes(key@, value) + more).len() <= u64::MAX,
    ensures
        decoded_pair(pair_bytes(key@, value) + more) == Some((key, value)),
{
    let bytes = pair_bytes(key@, value) + more;
    assert(pair_bytes(key@, value).is_prefix_of(bytes));
    let (other, other_value) = choose|key: Key, value: Seq<u8>|
        (#[trigger] pair_bytes(key@, value)).is_prefix_of(bytes);
    lemma_one_pair(key, other, value, other_value, bytes);
}

/// A value is read as found if it was written as found, and contacts likewise,
/// whatever follows.
pub proof fn lemma_found_round_trips(
    found: Result<Seq<u8>, Seq<Contact<ID_BYTES>>>,
    more: Seq<u8>,
)
    requires
        (found_bytes(wire_found(found)) + more).len() <= u64::MAX,
    ensures
        decoded_found(found_bytes(wire_found(found)) + more) == Some(
            match found {
                Ok(value) => Ok(value),
                Err(contacts) => Err(contacts_of(wire_contacts(contacts))),
            },
        ),
{
    let bytes = found_bytes(wire_found(found)) + more;
    assert(found_bytes(wire_found(found)).is_prefix_of(bytes));
    let other = choose|found: Result<Seq<u8>, Seq<WireContact>>|
        (#[trigger] found_bytes(found)).is_prefix_of(bytes);
    lemma_one_found(wire_found(found), other, bytes);
}

/// What was found as it is given to the encoder.
pub open spec fn wire_found(found: Result<Seq<u8>, Seq<Contact<ID_BYTES>>>) -> Result<
    Seq<u8>,
    Seq<WireContact>,
> {
    match found {
        Ok(value) => Ok(value),
        Err(contacts) => Err(wire_contacts(contacts)),
    }
}

fn to_wire(contact: &Contact<ID_BYTES>) -> (out: WireContact)
    ensures
        out == wire_contact(*contact),
{
    let address: WireAddress = match contact.address {
        Address::V4 { ip, port } => Ok((ip, port)),
        Address::V6 { ip, port, flowinfo: _, scope_id: _ } => Err((ip, port)),
    };
    (contact.id, address)
}

fn from_wire(contact: &WireContact) -> (out: Contact<ID_BYTES>)
    ensures
        out == contact_of(*contact),
{
    let address: Address = match contact.1 {
        Ok((ip, port)) => Address::V4 { ip, port },
        Err((ip, port)) => Address::V6 { ip, port, flowinfo: 0, scope_id: 0 },
    };
    Contact { id: contact.0, address }
}

fn all_to_wire(contacts: &Vec<Contact<ID_BYTES>>) -> (out: Vec<WireContact>)
    ensures
        out@ == wire_contacts(contacts@),
{
    let mut out: Vec<WireContact> = Vec::with_capacity(contacts.len());
    let mut i: usize = 0;
    while i < contacts.len()
        invariant
            i <= contacts@.len(),
            out@.len() == i,
            forall|j: int| 0 <= j < i ==> #[trigger] out@[j] == wire_contact(contacts@[j]),
        decreases contacts.len() - i,
    {
        out.push(to_wire(&contacts[i]));
        i = i + 1;
    }
    assert(out@ =~= wire_contacts(contacts@));
    out
}

fn all_from_wire(contacts: &Vec<WireContact>) -> (out: Vec<Contact<ID_BYTES>>)
    ensures
        out@ == contacts_of(contacts@),
{
    let mut out: Vec<Contact<ID_BYTES>> = Vec::with_capacity(contacts.len());
    let mut i: usize = 0;
    while i < contacts.len()
        invariant
            i <= contacts@.len(),
            out@.len() == i,
            forall|j: int| 0 <= j < i ==> #[trigger] out@[j] == contact_of(contacts@[j]),
        decreases contacts.len() - i,
    {
        out.push(from_wire(&contacts[i]));
        i = i + 1;
    }
    assert(out@ =~= contacts_of(contacts@));
    out
}

/// Encode an id.
pub fn encode_id(id: &NodeId) -> (out: Option<Vec<u8>>)
    ensures
        out matches Some(bytes) && bytes@ == id@,
{
    serialize_id(id)
}

/// Decode an id.
pub fn decode_id(bytes: &[u8]) -> (out: Option<NodeId>)
    ensures
        out == decoded_id(bytes@),
{
    let out = deserialize_id(bytes);
    proof {
        if let Some(id) = out {
            close_nodes::lemma_id_of(id);
        }
    }
    out
}

/// Encode a contact and an id.
pub fn encode_query(sender: Contact<ID_BYTES>, target: NodeId) -> (out: Option<Vec<u8>>)
    ensures
        out matches Some(bytes) && bytes@ == query_bytes(wire_contact(sender), target@),
{
    serialize_query(to_wire(&sender), target)
}

/// Decode a contact and an id.
pub fn decode_query(bytes: &[u8]) -> (out: Option<(Contact<ID_BYTES>, NodeId)>)
    ensures
        out == decoded_query(bytes@),
{
    match deserialize_query(bytes) {
        Some((sender, target)) => {
            proof {
                assert(query_bytes(sender, target@).is_prefix_of(bytes@));
                let (other, other_target) = choose|sender: WireContact, target: NodeId|
                    (#[trigger] query_bytes(sender, target@)).is_prefix_of(bytes@);
                lemma_one_query(sender, other, target, other_target, bytes@);
            }
            Some((from_wire(&sender), target))
        },
        None => None,
    }
}

/// Encode contacts.
pub fn encode_contacts(contacts: &Vec<Contact<ID_BYTES>>) -> (out: Option<Vec<u8>>)
    ensures
        out matches Some(bytes) && bytes@ == contacts_bytes(wire_contacts(contacts@)),
{
    serialize_contacts(&all_to_wire(contacts))
}

/// Decode contacts.
pub fn decode_contacts(bytes: &[u8]) -> (out: Option<Vec<Contact<ID_BYTES>>>)
    ensures
        match out {
            Some(contacts) => decoded_contacts(bytes@) == Some(contacts@),
            None => decoded_contacts(bytes@) is None,
        },
{
    match deserialize_contacts(bytes) {
        Some(contacts) => {
            proof {
                assert(contacts_bytes(contacts@).is_prefix_of(bytes@));
                assert(bytes@.len() == bytes.len());
                let other = choose|contacts: Seq<WireContact>|
                    (#[trigger] contacts_bytes(contacts)).is_prefix_of(bytes@);
                lemma_one_list(contacts@, other, bytes@);
            }
            Some(all_from_wire(&contacts))
        },
        None => None,
    }
}

/// Encode a key and a value.
pub fn encode_pair(key: Key, value: Vec<u8>) -> (out: Option<Vec<u8>>)
    ensures
        out matches Some(bytes) && bytes@ == pair_bytes(key@, value@),
{
    serialize_pair(key, value)
}

/// Decode a key and a value.
pub fn decode_pair(bytes: &[u8]) -> (out: Option<(Key, Vec<u8>)>)
    ensures
        match out {
            Some((key, value)) => decoded_pair(bytes@) == Some((key, value@)),
            None => decoded_pair(bytes@) is None,
        },
{
    match deserialize_pair(bytes) {
        Some((key, value)) => {
            proof {
                assert(pair_bytes(key@, value@).is_prefix_of(bytes@));
                assert(bytes@.len() == bytes.len());
                let (other, other_value) = choose|key: Key, value: Seq<u8>|
                    (#[trigger] pair_bytes(key@, value)).is_prefix_of(bytes@);
                lemma_one_pair(key, other, value@, other_value, bytes@);
            }
            Some((key, value))
        },
        None => None,
    }
}

/// Encode what was found for a key: a value, or else contacts.
pub fn encode_found(found: Result<Vec<u8>, &Vec<Contact<ID_BYTES>>>) -> (out: Option<Vec<u8>>)
    ensures
        out matches Some(bytes) && bytes@ == found_bytes(
            match found {
                Ok(value) => Ok(value@),
                Err(contacts) => Err(wire_contacts(contacts@)),
            },
        ),
{
    let found: Result<Vec<u8>, Vec<WireContact>> = match found {
        Ok(value) => Ok(value),
        Err(contacts) => Err(all_to_wire(contacts)),
    };
    serialize_found(&found)
}

/// Decode what was found for a key: a value, or else contacts.
pub fn decode_found(bytes: &[u8]) -> (out: Option<Result<Vec<u8>, Vec<Contact<ID_BYTES>>>>)
    ensures
        match out {
            Some(Ok(value)) => decoded_found(bytes@) == Some(
                Ok::<Seq<u8>, Seq<Contact<ID_BYTES>>>(value@),
            ),
            Some(Err(contacts)) => decoded_found(bytes@) == Some(
                Err::<Seq<u8>, Seq<Contact<ID_BYTES>>>(contacts@),
            ),
            None => decoded_found(bytes@) is None,
        },
{
    match deserialize_found(bytes) {
        Some(found) => {
            proof {
                assert(found_bytes(found_view(found)).is_prefix_of(bytes@));
                assert(bytes@.len() == bytes.len());
                let other = choose|found: Result<Seq<u8>, Seq<WireContact>>|
                    (#[trigger] found_bytes(found)).is_prefix_of(bytes@);
                lemma_one_found(found_view(found), other, bytes@);
            }
            match found {
                Ok(value) => Some(Ok(value)),
                Err(contacts) => Some(Err(all_from_wire(&contacts))),
            }
        },
        None => None,
    }
}

/// Contacts come back as many as were sent, in their order, each with its own
/// id and at its own address, but for flow info and scope.
pub proof fn lemma_contacts_come_back_whole(
    contacts: Seq<Contact<ID_BYTES>>,
    back: Seq<Contact<ID_BYTES>>,
)
    requires
        back == contacts_of(wire_contacts(contacts)),
    ensures
        back.len() == contacts.len(),
        forall|i: int|
            0 <= i < contacts.len() ==> {
                &&& (#[trigger] back[i]).id == contacts[i].id
                &&& back[i].address == match contacts[i].address {
                    Address::V4 { ip, port } => Address::V4 { ip, port },
                    Address::V6 { ip, port, .. } => Address::V6 {
                        ip,
                        port,
                        flowinfo: 0,
                        scope_id: 0,
                    },
                }
            },
{
}

/// Whatever is read was written: the bytes start with what encodes it.
pub proof fn lemma_what_is_read_was_written(bytes: Seq<u8>)
    ensures
        decoded_id(bytes) matches Some(id) ==> id@ == bytes.take(32),
        decoded_id(bytes) is Some <==> bytes.len() >= 32,
        decoded_pair(bytes) matches Some((key, value)) ==> pair_bytes(key@, value).is_prefix_of(
            bytes,
        ),
        decoded_query(bytes) matches Some((sender, target)) ==> exists|written: WireContact|
            contact_of(written) == sender && (#[trigger] query_bytes(
                written,
                target@,
            )).is_prefix_of(bytes),
        decoded_contacts(bytes) matches Some(contacts) ==> exists|written: Seq<WireContact>|
            contacts_of(written) == contacts && (#[trigger] contacts_bytes(written)).is_prefix_of(
                bytes,
            ),
        decoded_found(bytes) matches Some(Ok(value)) ==> found_bytes(Ok(value)).is_prefix_of(
            bytes,
        ),
        decoded_found(bytes) matches Some(Err(contacts)) ==> exists|written: Seq<WireContact>|
            contacts_of(written) == contacts && (#[trigger] found_bytes(
                Err(written),
            )).is_prefix_of(bytes),
{
    if bytes.len() >= 32 {
        close_nodes::lemma_any_bytes_are_an_id(bytes.take(32));
    }
    if let Some((sender, target)) = decoded_query(bytes) {
        let (written, other) = choose|sender: WireContact, target: NodeId|
            (#[trigger] query_bytes(sender, target@)).is_prefix_of(bytes);
        assert(contact_of(written) == sender && other == target);
    }
    if let Some(contacts) = decoded_contacts(bytes) {
        let written = choose|contacts: Seq<WireContact>|
            (#[trigger] contacts_bytes(contacts)).is_prefix_of(bytes);
        assert(contacts_of(written) == contacts);
    }
    if let Some(found) = decoded_found(bytes) {
        let written = choose|found: Result<Seq<u8>, Seq<WireContact>>|
            (#[trigger] found_bytes(found)).is_prefix_of(bytes);
        assert(found_bytes(written).is_prefix_of(bytes));
        if let Err(contacts) = written {
            assert(found == Err::<Seq<u8>, Seq<Contact<ID_BYTES>>>(contacts_of(contacts)));
        }
    }
}

} // verus!
