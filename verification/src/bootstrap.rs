//! Joining an existing network.
//!
//! Kademlia has no broadcast, no directory, and no announcement of new
//! arrivals, so a node that knows nobody has no way to find anybody, because
//! finding anybody means asking somebody. Bootstrapping breaks that circle
//! with the one fact a joining node is given from outside the protocol: the
//! address of a node already in the network.

use crate::address::Address;
use crate::close_nodes::order;
use crate::close_nodes::{same_id, CloseNodes, Contact, NodeId, ID_BYTES, K};
use crate::lookup::NodeLookup;
use vstd::prelude::*;

verus! {

#[derive(Clone, Copy, Debug, PartialEq, Eq, Structural)]
pub enum BootstrapError {
    /// The seed never answered, so there is no network to join.
    Unreachable,
    /// The seed answered with our own id.
    SelfSeed,
}

/// Join the network through `seed`, which has answered a PING with `answer`:
/// start the lookup that takes us to our neighbourhood.
///
/// # Why a PING first
///
/// A routing table stores [`Contact`]s, and we arrived holding half of one:
/// `seed` is an address, and only the node living there can say which id goes
/// with it. A PING is answered with the responder's id for exactly this
/// reason. With both halves the seed becomes the single entry a lookup needs
/// in order to start.
///
/// # Why we look ourselves up
///
/// Searching for an id we already hold reads as a no-op, and is the opposite.
/// A lookup is a walk, not a query: we ask the seed for the nodes it knows
/// nearest us, ask those nodes the same question, and keep going while the
/// answers get closer. A [`NodeLookup`] files every contact it meets along the
/// way, so the walk is what populates the table.
///
/// Aiming it at our own id makes it converge on our own neighbourhood, which
/// is the part of the keyspace we most need to know: those are the nodes that
/// will hold values whose keys land near us, and the nodes we answer for.
///
/// The walk also runs in the other direction, which is easy to miss and is
/// half the point. Every request carries our [`NodeId`] ahead of its method
/// tag, and the receiving node pairs it with the address the request arrived
/// from, so each node we touch records us while answering. Without that the
/// join would be read-only: a thousand nodes could each bootstrap off the same
/// seed and that seed would still know none of them, answering every query
/// with an empty list while the network failed to form.
///
/// # Errors
///
/// [`Unreachable`](BootstrapError::Unreachable) if the seed never answered:
/// there is no network to join through a node that is not there. It folds
/// together timeout, transport error and garbled reply, none of which a caller
/// could act on differently.
///
/// [`SelfSeed`](BootstrapError::SelfSeed) if the seed answered with our own id,
/// meaning we were pointed at ourselves. That is a configuration mistake
/// rather than a network condition, and it earns its own variant because the
/// alternative is silent: the sibling list declines to store our own id, so we
/// would start the lookup with an empty table and return an empty vector with
/// nothing to explain it.
///
/// An empty-handed success is not an error. The second node on a network
/// legitimately finds only the seed.
pub fn join<A: CloseNodes<ID_BYTES>>(
    table: &mut A,
    my_id: NodeId,
    seed: Address,
    answer: Option<NodeId>,
) -> (joined: Result<NodeLookup, BootstrapError>)
    requires
        old(table).wf(),
    ensures
        final(table).wf(),
        match answer {
            None => joined == Err::<NodeLookup, _>(BootstrapError::Unreachable) && *final(table)
                == *old(table),
            Some(id) if id == my_id => joined == Err::<NodeLookup, _>(BootstrapError::SelfSeed)
                && *final(table) == *old(table),
            Some(id) => joined matches Ok(lookup) && lookup.wf() && lookup.aim() == my_id
                && lookup.asked() == Seq::<NodeId>::empty() && lookup.waiting() == 0 && exists|
                taught: A,
                contacts: Seq<Contact<ID_BYTES>>,
            |
                {
                    &&& A::offered(*old(table), (Contact { id, address: seed }), taught)
                    &&& taught.wf()
                    &&& #[trigger] A::asked(taught, my_id, *final(table), contacts)
                    &&& lookup.known() == order::nearest(contacts, my_id, K as int)
                },
        },
{
    match answer {
        Some(id) => {
            if same_id(&id, &my_id) {
                return Err(BootstrapError::SelfSeed);
            }
            table.maybe_add_contact(Contact { id, address: seed });
            // The self-lookup converges on our own neighbourhood by design, so
            // it leaves the table dense around us and thin everywhere else.
            // Inbound requests fill the distant buckets over time.
            Ok(NodeLookup::new(table, my_id))
        },
        None => Err(BootstrapError::Unreachable),
    }
}

} // verus!
