//! Requests that wait for their reply.

use crate::rpc_transport;
use dashmap::DashMap;
use std::collections::hash_map::RandomState;
use tokio::sync::oneshot;
use vstd::prelude::*;

verus! {

/// `tokio::sync::oneshot::Sender`, the end of a channel that takes one value.
#[verifier::external_type_specification]
#[verifier::external_body]
#[verifier::reject_recursive_types(T)]
pub struct ExSender<T>(oneshot::Sender<T>);

/// `tokio::sync::oneshot::Receiver`, the end of a channel that gives one value.
#[verifier::external_type_specification]
#[verifier::external_body]
#[verifier::reject_recursive_types(T)]
pub struct ExReceiver<T>(oneshot::Receiver<T>);

/// `tokio::sync::oneshot::error::RecvError`, which a channel whose sender is
/// gone gives instead of a value. A receiver is not known without it: it is
/// what awaiting one gives.
#[verifier::external_type_specification]
#[verifier::external_body]
pub struct ExRecvError(oneshot::error::RecvError);

/// Which channel a sender sends on. A channel goes by a number of its own.
pub uninterp spec fn sends_on(sender: oneshot::Sender<Vec<u8>>) -> nat;

/// Which channel a receiver hears on.
pub uninterp spec fn hears_on(receiver: oneshot::Receiver<Vec<u8>>) -> nat;

/// The channel that each id of a map has the sender of.
pub uninterp spec fn slots(map: DashMap<u64, oneshot::Sender<Vec<u8>>, RandomState>) -> Map<
    u64,
    nat,
>;

/// No two ids have the same channel.
pub open spec fn are_apart(lines: Map<u64, nat>) -> bool {
    forall|a: u64, b: u64| #[trigger]
        lines.dom().contains(a) && #[trigger] lines.dom().contains(b) && a != b ==> lines[a]
            != lines[b]
}

/// No slots at all.
pub open spec fn no_lines() -> Map<u64, nat> {
    Map::empty()
}

/// `DashMap::new`: the map has no slots.
#[verifier::external_body]
fn no_slots() -> (map: DashMap<u64, oneshot::Sender<Vec<u8>>, RandomState>)
    ensures
        slots(map) == no_lines(),
{
    DashMap::new()
}

/// `DashMap::insert`: the id has this sender, instead of any earlier one. A
/// channel has one sender, which cannot be cloned, so no other id has a sender
/// of the same channel.
#[verifier::external_body]
fn open_slot(
    map: &mut DashMap<u64, oneshot::Sender<Vec<u8>>, RandomState>,
    id: u64,
    sender: oneshot::Sender<Vec<u8>>,
)
    ensures
        slots(*final(map)) == slots(*old(map)).insert(id, sends_on(sender)),
        are_apart(slots(*old(map))) ==> are_apart(slots(*final(map))),
{
    map.insert(id, sender);
}

/// `DashMap::remove`: the id has no sender any more, and if it had one, that
/// comes back.
#[verifier::external_body]
fn take_slot(map: &mut DashMap<u64, oneshot::Sender<Vec<u8>>, RandomState>, id: u64) -> (taken:
    Option<oneshot::Sender<Vec<u8>>>)
    ensures
        taken is Some <==> slots(*old(map)).dom().contains(id),
        taken matches Some(sender) ==> sends_on(sender) == slots(*old(map))[id],
        slots(*final(map)) == slots(*old(map)).remove(id),
{
    map.remove(&id).map(|slot| slot.1)
}

/// `tokio::sync::oneshot::channel`: the two ends of one channel.
#[verifier::external_body]
fn channel() -> (ends: (oneshot::Sender<Vec<u8>>, oneshot::Receiver<Vec<u8>>))
    ensures
        sends_on(ends.0) == hears_on(ends.1),
{
    oneshot::channel()
}

/// `tokio::sync::oneshot::Sender::send`: hands a value to whoever holds the
/// other end, or gives it back if nobody does any more. Which of the two it is
/// is up to them, so nothing is said of it.
#[verifier::external_body]
fn hand_over(sender: oneshot::Sender<Vec<u8>>, payload: Vec<u8>) -> (handed: Result<(), Vec<u8>>)
    ensures
        handed matches Err(back) ==> back@ == payload@,
{
    sender.send(payload)
}

/// A pool of in-flight request slots. Each outbound RPC registers its id here
/// and gets back the end of a channel on which the response carrying that id
/// arrives.
pub struct Pending {
    slots: DashMap<u64, oneshot::Sender<Vec<u8>>, RandomState>,
    counter: u64,
}

impl Pending {
    /// The ids that someone waits on, and the channel that each waits at.
    pub closed spec fn lines(&self) -> Map<u64, nat> {
        slots(self.slots)
    }

    /// The next id to hand out.
    pub closed spec fn counted(&self) -> u64 {
        self.counter
    }

    /// Everyone who waits does so at a channel of their own.
    pub open spec fn wf(&self) -> bool {
        are_apart(self.lines())
    }

    pub fn new() -> (pending: Self)
        ensures
            pending.wf(),
            pending.lines() == no_lines(),
            pending.counted() == 0,
    {
        Pending { slots: no_slots(), counter: 0 }
    }

    /// Hand out the next request id. A counter rather than a random draw: ids
    /// only have to be unique among this node's in-flight requests.
    pub fn next_id(&mut self) -> (id: u64)
        ensures
            id == old(self).counted(),
            final(self).counted() == id.wrapping_add(1),
            final(self).lines() == old(self).lines(),
    {
        let id: u64 = self.counter;
        self.counter = id.wrapping_add(1);
        id
    }

    /// Register `id` as in-flight. Await the returned channel to get the
    /// response.
    pub fn register(&mut self, id: u64) -> (response: oneshot::Receiver<Vec<u8>>)
        ensures
            final(self).lines() == old(self).lines().insert(id, hears_on(response)),
            old(self).wf() ==> final(self).wf(),
            final(self).counted() == old(self).counted(),
    {
        let (sender, receiver) = channel();
        open_slot(&mut self.slots, id, sender);
        receiver
    }

    /// Take whoever is awaiting `id` off the list: where the response has to
    /// go, together with the response. `None` if no one is waiting: an
    /// unsolicited, duplicate, or already-cancelled response.
    pub fn claim(&mut self, id: u64, payload: Vec<u8>) -> (claimed: Option<
        (oneshot::Sender<Vec<u8>>, Vec<u8>),
    >)
        ensures
            claimed is Some <==> old(self).lines().dom().contains(id),
            claimed matches Some((to, handed)) ==> sends_on(to) == old(self).lines()[id] && handed@
                == payload@,
            final(self).lines() == old(self).lines().remove(id),
            old(self).wf() ==> final(self).wf(),
            final(self).counted() == old(self).counted(),
    {
        match take_slot(&mut self.slots, id) {
            Some(to) => Some((to, payload)),
            None => None,
        }
    }

    /// Hand a response to whoever is awaiting `id`. Returns false if no one was
    /// waiting: an unsolicited, duplicate, or already-cancelled response.
    ///
    /// What is handed over and to whom is what [`claim`](Self::claim) says.
    /// Whether the one who registered the id is still there to take it is up to
    /// them, so for an id that is registered either outcome is possible.
    pub fn deliver(&mut self, id: u64, payload: Vec<u8>) -> (delivered: bool)
        ensures
            delivered ==> old(self).lines().dom().contains(id),
            final(self).lines() == old(self).lines().remove(id),
            old(self).wf() ==> final(self).wf(),
            final(self).counted() == old(self).counted(),
    {
        match self.claim(id, payload) {
            Some((to, payload)) => hand_over(to, payload).is_ok(),
            None => false,
        }
    }

    /// Forget that anyone waits on `id`.
    pub fn deregister(&mut self, id: u64)
        ensures
            final(self).lines() == old(self).lines().remove(id),
            old(self).wf() ==> final(self).wf(),
            final(self).counted() == old(self).counted(),
    {
        let _slot = take_slot(&mut self.slots, id);
    }
}

/// A response reaches the one who registered its id, and nobody else, whoever
/// else has registered in between: as long as `id` itself is not registered
/// again or taken off, what is claimed for it goes to the channel that its
/// registration gave out, and what is claimed for another id does not.
pub proof fn lemma_a_response_reaches_who_registered(
    lines: Map<u64, nat>,
    id: u64,
    line: nat,
    other: u64,
)
    requires
        lines.dom().contains(id),
        lines[id] == line,
        are_apart(lines),
        other != id,
    ensures
        lines.dom().contains(other) ==> lines[other] != line,
        !lines.remove(id).dom().contains(id),
        lines.remove(other).dom().contains(id) && lines.remove(other)[id] == line,
{
}

/// The id that is handed out after `steps` others, from `start` on.
pub open spec fn later_id(start: u64, steps: int) -> u64 {
    ((start + steps) % 0x1_0000_0000_0000_0000) as u64
}

/// Handing out an id moves on to the next one.
pub proof fn lemma_later_id(start: u64)
    ensures
        later_id(start, 0) == start,
        later_id(start, 1) == start.wrapping_add(1),
{
}

/// Request ids do not repeat until there were as many of them as fit beside
/// the reply tag.
pub proof fn lemma_request_ids_do_not_repeat(start: u64, i: int, j: int)
    requires
        0 <= i < j < i + rpc_transport::REPLY_TAG,
    ensures
        rpc_transport::untagged(later_id(start, i)) != rpc_transport::untagged(
            later_id(start, j),
        ),
{
    let half: int = 0x8000_0000_0000_0000;
    let a = start + i;
    let b = start + j;
    vstd::arithmetic::div_mod::lemma_mod_mod(a, half, 2);
    vstd::arithmetic::div_mod::lemma_mod_mod(b, half, 2);
    assert(a % half != b % half) by (nonlinear_arith)
        requires
            half > 0,
            a < b < a + half,
    ;
}

} // verus!
