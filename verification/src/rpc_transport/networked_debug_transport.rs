//! The bookkeeping of a fake network: which addresses are bound, and what
//! happens to what is sent to them.
//!
//! A fake network plays the role of the wire, and an endpoint bound to it
//! stands in for both sockets a node answers on: a datagram sent to an address
//! is handed to whichever endpoint bound that address, and so is a connection
//! opened to it. Nothing is bound in the OS and nothing leaves the process, so
//! tests get UDP semantics (unreliable, unordered, silently dropped when
//! nobody is home) and TCP's without touching a port or waiting on a real
//! timeout.
//!
//! One endpoint carries both because a node has one address and answers both
//! shapes on it.
//!
//! Opening a connection mints a fresh address that is left unbound rather than
//! handing over the caller's, because real TCP shows the accepting side an
//! ephemeral port: the reason a request off a connection is not
//! [`from_is_reachable`](crate::handle_rpc::Request::from_is_reachable).

use crate::address::Address;
use dashmap::DashMap;
use std::collections::hash_map::RandomState;
use vstd::prelude::*;

verus! {

/// Where the network starts handing out ports.
pub const FIRST_EPHEMERAL_PORT: u16 = 49152;

/// How much a connection holds before the writer waits on the reader.
pub const PIPE_CAPACITY: usize = 65536;

/// An address as plain values: a version 4 one, or else a version 6 one.
pub type Place = Result<([u8; 4], u16), ([u8; 16], u16, u32, u32)>;

/// What [`Address`] comes to in plain values.
pub open spec fn place(address: Address) -> Place {
    match address {
        Address::V4 { ip, port } => Ok((ip, port)),
        Address::V6 { ip, port, flowinfo, scope_id } => Err((ip, port, flowinfo, scope_id)),
    }
}

/// Which endpoint is bound to each place.
pub uninterp spec fn endpoints(
    map: DashMap<Result<([u8; 4], u16), ([u8; 16], u16, u32, u32)>, u64, RandomState>,
) -> Map<Result<([u8; 4], u16), ([u8; 16], u16, u32, u32)>, u64>;

/// Nothing is bound.
pub open spec fn unbound() -> Map<Place, u64> {
    Map::empty()
}

/// `DashMap::new`: nothing is bound.
#[verifier::external_body]
fn no_endpoints() -> (map: DashMap<Place, u64, RandomState>)
    ensures
        endpoints(map) == unbound(),
{
    DashMap::new()
}

/// `DashMap::get`, with the value copied: what is bound to a place, if
/// anything is.
#[verifier::external_body]
fn find_endpoint(map: &DashMap<Place, u64, RandomState>, place: &Place) -> (found: Option<u64>)
    ensures
        found is Some <==> endpoints(*map).dom().contains(*place),
        found matches Some(endpoint) ==> endpoint == endpoints(*map)[*place],
{
    map.get(place).map(|endpoint| *endpoint.value())
}

/// `DashMap::insert`: the endpoint is bound to the place, instead of any
/// earlier one.
#[verifier::external_body]
fn add_endpoint(map: &mut DashMap<Place, u64, RandomState>, place: Place, endpoint: u64)
    ensures
        endpoints(*final(map)) == endpoints(*old(map)).insert(place, endpoint),
{
    map.insert(place, endpoint);
}

/// `DashMap::remove`: nothing is bound to the place.
#[verifier::external_body]
fn remove_endpoint(map: &mut DashMap<Place, u64, RandomState>, place: &Place)
    ensures
        endpoints(*final(map)) == endpoints(*old(map)).remove(*place),
{
    map.remove(place);
}

fn place_of(address: Address) -> (out: Place)
    ensures
        out == place(address),
{
    match address {
        Address::V4 { ip, port } => Ok((ip, port)),
        Address::V6 { ip, port, flowinfo, scope_id } => Err((ip, port, flowinfo, scope_id)),
    }
}

/// The IP of the local host.
pub const LOCALHOST: [u8; 4] = [127, 0, 0, 1];

/// The loopback address with this port.
pub open spec fn loopback(port: u16) -> Address {
    Address::V4 { ip: LOCALHOST, port }
}

/// The port that comes `steps` after `first`.
pub open spec fn port_after(first: u16, steps: int) -> u16 {
    ((first + steps) % 65536) as u16
}

/// Which endpoint is bound to which address, and which port comes next.
///
/// Endpoints go by a number that whoever binds them has given them.
pub struct Network {
    endpoints: DashMap<Place, u64, RandomState>,
    next_port: u16,
}

impl Network {
    /// What is bound.
    pub closed spec fn bound(&self) -> Map<Place, u64> {
        endpoints(self.endpoints)
    }

    /// The port that is tried next.
    pub closed spec fn upcoming(&self) -> u16 {
        self.next_port
    }

    /// Whether a loopback address with this port can be handed out. Port 0
    /// cannot: it means "any" everywhere else.
    pub open spec fn is_free(&self, port: u16) -> bool {
        port != 0 && !self.bound().dom().contains(place(loopback(port)))
    }

    /// `address` is the loopback address whose port comes first, from the
    /// upcoming one on, of all that are free, and `next` is the one behind it.
    pub open spec fn hands_out(&self, address: Address, next: u16) -> bool {
        exists|steps: int|
            {
                let port = #[trigger] port_after(self.upcoming(), steps);
                &&& 0 <= steps < 65536
                &&& address == loopback(port)
                &&& self.is_free(port)
                &&& forall|i: int|
                    0 <= i < steps ==> !self.is_free(#[trigger] port_after(self.upcoming(), i))
                &&& next == port_after(self.upcoming(), steps + 1)
            }
    }

    /// No loopback address can be handed out.
    pub open spec fn is_full(&self) -> bool {
        forall|port: u16| !self.is_free(port)
    }

    pub fn new() -> (network: Self)
        ensures
            network.bound() == unbound(),
            network.upcoming() == FIRST_EPHEMERAL_PORT,
    {
        Network { endpoints: no_endpoints(), next_port: FIRST_EPHEMERAL_PORT }
    }

    /// Bind `address`, unless some live endpoint already holds it.
    ///
    /// One endpoint, both shapes: it receives the datagrams sent to the
    /// address and accepts the connections opened to it.
    pub fn bind(&mut self, address: Address, endpoint: u64) -> (bound: bool)
        ensures
            bound == !old(self).bound().dom().contains(place(address)),
            final(self).bound() == if bound {
                old(self).bound().insert(place(address), endpoint)
            } else {
                old(self).bound()
            },
            final(self).upcoming() == old(self).upcoming(),
    {
        let place: Place = place_of(address);
        match find_endpoint(&self.endpoints, &place) {
            Some(_) => false,
            None => {
                add_endpoint(&mut self.endpoints, place, endpoint);
                true
            },
        }
    }

    /// The next loopback address in sequence that nothing is bound to. Ports
    /// wrap; `None` only once every one of them is taken.
    pub fn fresh_address(&mut self) -> (fresh: Option<Address>)
        ensures
            final(self).bound() == old(self).bound(),
            match fresh {
                Some(address) => old(self).hands_out(address, final(self).upcoming()),
                None => old(self).is_full() && final(self).upcoming() == old(self).upcoming(),
            },
    {
        let ghost first = self.next_port;
        let mut steps: u32 = 0;
        while steps < 65536
            invariant
                steps <= 65536,
                self.bound() == old(self).bound(),
                first == old(self).upcoming(),
                self.upcoming() == port_after(first, steps as int),
                forall|i: int|
                    0 <= i < steps ==> !old(self).is_free(#[trigger] port_after(first, i)),
            decreases 65536 - steps,
        {
            let port: u16 = self.next_port;
            self.next_port = port.wrapping_add(1);
            assert(self.next_port == port_after(first, steps + 1));
            if port != 0 {
                let address: Address = Address::V4 { ip: LOCALHOST, port };
                if find_endpoint(&self.endpoints, &place_of(address)).is_none() {
                    assert(address == loopback(port_after(first, steps as int)));
                    assert(old(self).hands_out(address, self.upcoming()));
                    return Some(address);
                }
            }
            steps = steps + 1;
        }
        proof {
            assert forall|port: u16| !old(self).is_free(port) by {
                let i = (port - first) % 65536;
                assert(port_after(first, i) == port);
            }
        }
        None
    }

    /// Bind a fresh loopback address.
    pub fn bind_any(&mut self, endpoint: u64) -> (address: Option<Address>)
        ensures
            match address {
                Some(address) => {
                    &&& old(self).hands_out(address, final(self).upcoming())
                    &&& !old(self).bound().dom().contains(place(address))
                    &&& final(self).bound() == old(self).bound().insert(place(address), endpoint)
                },
                None => {
                    &&& old(self).is_full()
                    &&& final(self).bound() == old(self).bound()
                    &&& final(self).upcoming() == old(self).upcoming()
                },
            },
    {
        match self.fresh_address() {
            Some(address) => {
                add_endpoint(&mut self.endpoints, place_of(address), endpoint);
                Some(address)
            },
            None => None,
        }
    }

    /// Open a connection to `to`: the address that it comes from, which
    /// nothing is bound to so that the accepting side cannot dial it back, and
    /// the endpoint that it goes to.
    ///
    /// No endpoint means that the connection is refused. Unlike a datagram,
    /// which this wire can only swallow, a connection attempt is answered one
    /// way or the other.
    pub fn connect(&mut self, to: Address) -> (dialled: Option<(Address, Option<u64>)>)
        ensures
            final(self).bound() == old(self).bound(),
            match dialled {
                Some((from, endpoint)) => {
                    &&& old(self).hands_out(from, final(self).upcoming())
                    &&& !old(self).bound().dom().contains(place(from))
                    &&& endpoint == if old(self).bound().dom().contains(place(to)) {
                        Some(old(self).bound()[place(to)])
                    } else {
                        None
                    }
                },
                None => old(self).is_full() && final(self).upcoming() == old(self).upcoming(),
            },
    {
        match self.fresh_address() {
            Some(from) => Some((from, self.route(to))),
            None => None,
        }
    }

    /// Which endpoint a datagram to `to` goes to. Like UDP, an address that
    /// nothing is bound to swallows it.
    pub fn route(&self, to: Address) -> (endpoint: Option<u64>)
        ensures
            endpoint == if self.bound().dom().contains(place(to)) {
                Some(self.bound()[place(to)])
            } else {
                None
            },
    {
        find_endpoint(&self.endpoints, &place_of(to))
    }

    /// Free `address` for another endpoint.
    pub fn unbind(&mut self, address: Address)
        ensures
            final(self).bound() == old(self).bound().remove(place(address)),
            final(self).upcoming() == old(self).upcoming(),
    {
        remove_endpoint(&mut self.endpoints, &place_of(address));
    }
}

/// Put a datagram into a buffer, as far as it fits, and say how far that is.
pub fn fill(buffer: &mut Vec<u8>, datagram: &[u8]) -> (len: usize)
    ensures
        len == if datagram@.len() < old(buffer)@.len() {
            datagram@.len()
        } else {
            old(buffer)@.len()
        },
        final(buffer)@ == datagram@.take(len as int) + old(buffer)@.skip(len as int),
{
    let len: usize = if datagram.len() < buffer.len() {
        datagram.len()
    } else {
        buffer.len()
    };
    let mut i: usize = 0;
    while i < len
        invariant
            i <= len <= datagram@.len(),
            len <= old(buffer)@.len() == buffer@.len(),
            forall|j: int| 0 <= j < i ==> buffer@[j] == datagram@[j],
            forall|j: int| i <= j < buffer@.len() ==> buffer@[j] == old(buffer)@[j],
        decreases len - i,
    {
        buffer[i] = datagram[i];
        i = i + 1;
    }
    assert(buffer@ =~= datagram@.take(len as int) + old(buffer)@.skip(len as int));
    len
}

/// Two addresses are one place only if they are one address.
pub proof fn lemma_place_injective(a: Address, b: Address)
    requires
        place(a) == place(b),
    ensures
        a == b,
{
}

/// What address a network hands out: one of the local host that nothing is
/// bound to, with the port that comes first of all that are free, counted from
/// the one that is due and around. Port 0 is never handed out. The port behind
/// it is due next.
pub proof fn lemma_the_next_free_port_is_handed_out(network: Network, address: Address, next: u16)
    requires
        network.hands_out(address, next),
    ensures
        address matches Address::V4 { ip, port } && {
            &&& ip == [127u8, 0u8, 0u8, 1u8]
            &&& port != 0
            &&& !network.bound().dom().contains(Ok((ip, port)))
            &&& next == if port == 65535 {
                0
            } else {
                port + 1
            }
            &&& forall|other: u16|
                #![trigger network.bound().dom().contains(Ok((ip, other)))]
                (if network.upcoming() <= port {
                    network.upcoming() <= other < port
                } else {
                    network.upcoming() <= other || other < port
                }) ==> other == 0 || network.bound().dom().contains(Ok((ip, other)))
        },
{
    let first = network.upcoming();
    let steps = choose|steps: int|
        {
            let port = #[trigger] port_after(network.upcoming(), steps);
            &&& 0 <= steps < 65536
            &&& address == loopback(port)
            &&& network.is_free(port)
            &&& forall|i: int|
                0 <= i < steps ==> !network.is_free(#[trigger] port_after(network.upcoming(), i))
            &&& next == port_after(network.upcoming(), steps + 1)
        };
    let port = port_after(first, steps);
    let ip = LOCALHOST;
    assert(ip =~= [127u8, 0u8, 0u8, 1u8]);
    assert forall|other: u16|
        #![trigger network.bound().dom().contains(Ok((ip, other)))]
        (if first <= port {
            first <= other < port
        } else {
            first <= other || other < port
        }) implies other == 0 || network.bound().dom().contains(Ok((ip, other))) by {
        let i = if other >= first {
            other - first
        } else {
            other - first + 65536
        };
        assert(port_after(first, i) == other);
        assert(0 <= i < steps);
        assert(!network.is_free(port_after(first, i)));
    }
}

/// A network is full only once something is bound to every port of the local
/// host but 0.
pub proof fn lemma_a_full_network_has_no_port_left(network: Network, port: u16)
    requires
        network.is_full(),
        port != 0,
    ensures
        network.bound().dom().contains(Ok(([127u8, 0u8, 0u8, 1u8], port))),
{
    assert(LOCALHOST =~= [127u8, 0u8, 0u8, 1u8]);
    assert(!network.is_free(port));
}

/// A place is the address that it stands for, every part of it.
pub proof fn lemma_a_place_is_an_address(address: Address)
    ensures
        match address {
            Address::V4 { ip, port } => place(address) == Ok::<_, ([u8; 16], u16, u32, u32)>(
                (ip, port),
            ),
            Address::V6 { ip, port, flowinfo, scope_id } => place(address) == Err::<
                ([u8; 4], u16),
                _,
            >((ip, port, flowinfo, scope_id)),
        },
{
}

} // verus!
