//! Iterative lookups: asking the nodes nearest a target for nearer ones, until
//! the answers stop getting closer.
//!
//! A lookup here decides and does not wait. [`next_query`](NodeLookup::next_query)
//! says whom to ask next, whoever runs the lookup asks, and every reply is
//! handed back, in whatever order replies arrive.

use crate::close_nodes::dumb_bucket::DumbBucket;
use crate::close_nodes::metric;
use crate::close_nodes::order;
use crate::close_nodes::{same_id, CloseNodes, Contact, Key, NodeId, ID_BYTES, K};
use crate::hashing;
use crate::hashing::key_for_value;
use crate::rpc::FindValue;
use vstd::prelude::*;

verus! {

/// Kademlia's concurrency parameter: how many RPCs a lookup keeps in flight at
/// once.
pub const ALPHA: usize = 3;

/// Offering `contacts` one after the other to `before` can leave `after`.
pub open spec fn all_offered<A: CloseNodes<ID_BYTES>>(
    before: A,
    contacts: Seq<Contact<ID_BYTES>>,
    after: A,
) -> bool
    decreases contacts.len(),
{
    if contacts.len() == 0 {
        after == before
    } else {
        exists|between: A|
            {
                &&& all_offered(before, contacts.drop_last(), between)
                &&& between.wf()
                &&& #[trigger] A::offered(between, contacts.last(), after)
            }
    }
}

/// Offer every one of `contacts` to the table, in order.
fn offer_all<A: CloseNodes<ID_BYTES>>(table: &mut A, contacts: &Vec<Contact<ID_BYTES>>)
    requires
        old(table).wf(),
    ensures
        final(table).wf(),
        all_offered(*old(table), contacts@, *final(table)),
{
    let mut i: usize = 0;
    assert(contacts@.take(0) =~= Seq::empty());
    while i < contacts.len()
        invariant
            i <= contacts@.len(),
            table.wf(),
            all_offered(*old(table), contacts@.take(i as int), *table),
        decreases contacts.len() - i,
    {
        let ghost between = *table;
        table.maybe_add_contact(contacts[i]);
        proof {
            let more = contacts@.take(i + 1);
            assert(more.drop_last() =~= contacts@.take(i as int));
            assert(A::offered(between, more.last(), *table));
        }
        i = i + 1;
    }
    assert(contacts@.take(i as int) =~= contacts@);
}

/// Whether `ids` has `id`.
fn has_id(ids: &Vec<NodeId>, id: &NodeId) -> (has: bool)
    ensures
        has == ids@.contains(*id),
{
    let mut i: usize = 0;
    while i < ids.len()
        invariant
            i <= ids@.len(),
            forall|j: int| 0 <= j < i ==> ids@[j] != *id,
        decreases ids.len() - i,
    {
        if same_id(&ids[i], id) {
            assert(ids@[i as int] == *id);
            return true;
        }
        i = i + 1;
    }
    false
}

/// The first of `candidates` whose id is none of `queried`.
pub open spec fn first_unqueried(
    candidates: Seq<Contact<ID_BYTES>>,
    queried: Seq<NodeId>,
) -> Option<Contact<ID_BYTES>>
    decreases candidates.len(),
{
    if candidates.len() == 0 {
        None
    } else if !queried.contains(candidates[0].id) {
        Some(candidates[0])
    } else {
        first_unqueried(candidates.skip(1), queried)
    }
}

/// A lookup for the nodes closest to a target.
pub struct NodeLookup {
    target: NodeId,
    /// The closest contacts that the lookup knows of, closest first.
    candidates: Vec<Contact<ID_BYTES>>,
    /// Ids that were already asked: in flight or answered, never asked again.
    queried: Vec<NodeId>,
    in_flight: usize,
}

impl NodeLookup {
    pub closed spec fn aim(&self) -> NodeId {
        self.target
    }

    pub closed spec fn known(&self) -> Seq<Contact<ID_BYTES>> {
        self.candidates@
    }

    pub closed spec fn asked(&self) -> Seq<NodeId> {
        self.queried@
    }

    pub closed spec fn waiting(&self) -> nat {
        self.in_flight as nat
    }

    /// No more than [`ALPHA`] questions are open, no id was asked twice, and
    /// no more than [`K`] candidates are kept.
    pub open spec fn wf(&self) -> bool {
        &&& self.waiting() <= ALPHA
        &&& self.waiting() <= self.asked().len()
        &&& self.known().len() <= K
        &&& self.asked().no_duplicates()
    }

    /// Start with the contacts the table knows closest to the target.
    pub fn new<A: CloseNodes<ID_BYTES>>(table: &mut A, target: NodeId) -> (lookup: Self)
        requires
            old(table).wf(),
        ensures
            final(table).wf(),
            lookup.wf(),
            lookup.aim() == target,
            lookup.asked() == Seq::<NodeId>::empty(),
            lookup.waiting() == 0,
            exists|contacts: Seq<Contact<ID_BYTES>>|
                {
                    &&& #[trigger] A::asked(*old(table), target, *final(table), contacts)
                    &&& lookup.known() == order::nearest(contacts, target, K as int)
                },
    {
        let mut candidates: Vec<Contact<ID_BYTES>> = table.close_nodes(target);
        let ghost contacts = candidates@;
        order::keep_nearest(&mut candidates, target, K);
        assert(A::asked(*old(table), target, *table, contacts));
        NodeLookup { target, candidates, queried: Vec::new(), in_flight: 0 }
    }

    /// Whom to ask next: the closest candidate that was not asked yet, unless
    /// [`ALPHA`] questions are already open.
    pub fn next_query(&mut self) -> (next: Option<Contact<ID_BYTES>>)
        requires
            old(self).wf(),
        ensures
            final(self).wf(),
            final(self).aim() == old(self).aim(),
            final(self).known() == old(self).known(),
            next == if old(self).waiting() < ALPHA {
                first_unqueried(old(self).known(), old(self).asked())
            } else {
                None
            },
            match next {
                Some(contact) => {
                    &&& !old(self).asked().contains(contact.id)
                    &&& final(self).asked() == old(self).asked().push(contact.id)
                    &&& final(self).waiting() == old(self).waiting() + 1
                },
                None => *final(self) == *old(self),
            },
    {
        if self.in_flight >= ALPHA {
            return None;
        }
        let mut i: usize = 0;
        assert(self.candidates@.skip(0) =~= self.candidates@);
        while i < self.candidates.len()
            invariant
                *self == *old(self),
                self.wf(),
                self.in_flight < ALPHA,
                i <= self.candidates@.len(),
                first_unqueried(self.known(), self.asked()) == first_unqueried(
                    self.candidates@.skip(i as int),
                    self.asked(),
                ),
            decreases self.candidates.len() - i,
        {
            let candidate: Contact<ID_BYTES> = self.candidates[i];
            assert(self.candidates@.skip(i as int).skip(1) =~= self.candidates@.skip(i + 1));
            if !has_id(&self.queried, &candidate.id) {
                self.queried.push(candidate.id);
                self.in_flight = self.in_flight + 1;
                return Some(candidate);
            }
            i = i + 1;
        }
        None
    }

    /// Take in what a node that was asked has answered: every contact is worth
    /// offering to the routing table, whether or not it ends up among the
    /// closest here.
    pub fn on_reply<A: CloseNodes<ID_BYTES>>(
        &mut self,
        table: &mut A,
        contacts: Vec<Contact<ID_BYTES>>,
    )
        requires
            old(self).wf(),
            old(self).waiting() > 0,
            old(table).wf(),
        ensures
            final(self).wf(),
            final(table).wf(),
            final(self).aim() == old(self).aim(),
            final(self).asked() == old(self).asked(),
            final(self).waiting() == old(self).waiting() - 1,
            final(self).known() == order::nearest_ids(
                old(self).known() + contacts@,
                old(self).aim(),
                K as int,
            ),
            all_offered(*old(table), contacts@, *final(table)),
    {
        offer_all(table, &contacts);
        let mut candidates: Vec<Contact<ID_BYTES>> = Vec::new();
        candidates.extend_from_slice(self.candidates.as_slice());
        candidates.extend_from_slice(contacts.as_slice());
        assert(candidates@ =~= self.candidates@ + contacts@);
        order::keep_nearest_ids(&mut candidates, self.target, K);
        self.candidates = candidates;
        self.in_flight = self.in_flight - 1;
    }

    /// Whether the lookup is over: nothing is running, and nothing is left to
    /// start.
    pub fn is_finished(&self) -> (is: bool)
        requires
            self.wf(),
        ensures
            is == (self.waiting() == 0 && first_unqueried(self.known(), self.asked()) is None),
    {
        if self.in_flight > 0 {
            return false;
        }
        let mut i: usize = 0;
        assert(self.candidates@.skip(0) =~= self.candidates@);
        while i < self.candidates.len()
            invariant
                i <= self.candidates@.len(),
                first_unqueried(self.known(), self.asked()) == first_unqueried(
                    self.candidates@.skip(i as int),
                    self.asked(),
                ),
            decreases self.candidates.len() - i,
        {
            assert(self.candidates@.skip(i as int).skip(1) =~= self.candidates@.skip(i + 1));
            if !has_id(&self.queried, &self.candidates[i].id) {
                return false;
            }
            i = i + 1;
        }
        true
    }

    /// The closest contacts found so far, closest first: once the lookup is
    /// over, its result.
    pub fn contacts(&self) -> (out: Vec<Contact<ID_BYTES>>)
        ensures
            out@ == self.known(),
    {
        let mut out: Vec<Contact<ID_BYTES>> = Vec::new();
        out.extend_from_slice(self.candidates.as_slice());
        assert(out@ =~= self.candidates@);
        out
    }
}

/// A lookup for a value, among the nodes closest to its key.
pub struct ValueLookup {
    key: Key,
    candidates: Vec<Contact<ID_BYTES>>,
    /// How many of the candidates were asked.
    asked: usize,
    in_flight: usize,
}

/// A value that was found, and who had it.
pub struct Found {
    pub source: Contact<ID_BYTES>,
    pub value: Vec<u8>,
}

impl ValueLookup {
    pub closed spec fn aim(&self) -> Key {
        self.key
    }

    pub closed spec fn known(&self) -> Seq<Contact<ID_BYTES>> {
        self.candidates@
    }

    pub closed spec fn asked_so_far(&self) -> nat {
        self.asked as nat
    }

    pub closed spec fn waiting(&self) -> nat {
        self.in_flight as nat
    }

    /// No more than [`ALPHA`] questions are open, each to a candidate.
    pub open spec fn wf(&self) -> bool {
        &&& self.waiting() <= ALPHA
        &&& self.waiting() <= self.asked_so_far() <= self.known().len()
    }

    /// Look for `key` among `candidates`, which a node lookup has found.
    pub fn new(key: Key, candidates: Vec<Contact<ID_BYTES>>) -> (lookup: Self)
        ensures
            lookup.wf(),
            lookup.aim() == key,
            lookup.known() == candidates@,
            lookup.asked_so_far() == 0,
            lookup.waiting() == 0,
    {
        ValueLookup { key, candidates, asked: 0, in_flight: 0 }
    }

    /// Whom to ask next: the candidates in their order, unless [`ALPHA`]
    /// questions are already open.
    pub fn next_query(&mut self) -> (next: Option<Contact<ID_BYTES>>)
        requires
            old(self).wf(),
        ensures
            final(self).wf(),
            final(self).aim() == old(self).aim(),
            final(self).known() == old(self).known(),
            next is Some <==> old(self).waiting() < ALPHA && old(self).asked_so_far() < old(
                self,
            ).known().len(),
            match next {
                Some(contact) => {
                    &&& contact == old(self).known()[old(self).asked_so_far() as int]
                    &&& final(self).asked_so_far() == old(self).asked_so_far() + 1
                    &&& final(self).waiting() == old(self).waiting() + 1
                },
                None => *final(self) == *old(self),
            },
    {
        if self.in_flight >= ALPHA || self.asked >= self.candidates.len() {
            return None;
        }
        let next: Contact<ID_BYTES> = self.candidates[self.asked];
        self.asked = self.asked + 1;
        self.in_flight = self.in_flight + 1;
        Some(next)
    }

    /// Take in what `source` has answered. A value that hashes to the key ends
    /// the lookup. Another value is not what was looked for and is ignored.
    /// Contacts are worth offering to the routing table, whether or not the
    /// value turns up.
    pub fn on_reply<A: CloseNodes<ID_BYTES>>(
        &mut self,
        table: &mut A,
        source: Contact<ID_BYTES>,
        reply: FindValue,
    ) -> (found: Option<Found>)
        requires
            old(self).wf(),
            old(self).waiting() > 0,
            old(table).wf(),
        ensures
            final(self).wf(),
            final(table).wf(),
            final(self).aim() == old(self).aim(),
            final(self).known() == old(self).known(),
            final(self).asked_so_far() == old(self).asked_so_far(),
            final(self).waiting() == old(self).waiting() - 1,
            match reply {
                FindValue::Value(value) => {
                    &&& *final(table) == *old(table)
                    &&& found is Some <==> hashing::sha256(value@) == old(self).aim()@
                    &&& found matches Some(found) ==> found.source == source && found.value@
                        == value@
                },
                FindValue::Closest(contacts) => {
                    &&& all_offered(*old(table), contacts@, *final(table))
                    &&& found is None
                },
            },
    {
        self.in_flight = self.in_flight - 1;
        match reply {
            FindValue::Value(value) => {
                let hash: Key = key_for_value(value.as_slice());
                if same_id(&hash, &self.key) {
                    Some(Found { source, value })
                } else {
                    assert(hash@ != self.key@) by {
                        if hash@ == self.key@ {
                            assert(hash =~= self.key);
                        }
                    }
                    None
                }
            },
            FindValue::Closest(contacts) => {
                offer_all(table, &contacts);
                None
            },
        }
    }

    /// Whether the lookup is over without a result: every candidate was asked,
    /// and every one has answered.
    pub fn is_finished(&self) -> (is: bool)
        ensures
            is == (self.waiting() == 0 && self.asked_so_far() >= self.known().len()),
    {
        self.in_flight == 0 && self.asked >= self.candidates.len()
    }
}

/// Where to store a value, once a lookup for its key has found `found`.
///
/// Our routing table does not contain ourselves, but we may still be one of
/// the [`K`] nodes closest to the key.
pub fn store_targets(found: Vec<Contact<ID_BYTES>>, me: Contact<ID_BYTES>, key: Key) -> (targets:
    Vec<Contact<ID_BYTES>>)
    ensures
        targets@ == order::nearest_ids(found@.push(me), key, K as int),
{
    let mut targets: Vec<Contact<ID_BYTES>> = found;
    targets.push(me);
    order::keep_nearest_ids(&mut targets, key, K);
    targets
}

/// What is known after a lookup that started from `initial` was told each of
/// `replies`.
pub open spec fn known_after(
    initial: Seq<Contact<ID_BYTES>>,
    replies: Seq<Seq<Contact<ID_BYTES>>>,
    target: NodeId,
) -> Seq<Contact<ID_BYTES>>
    decreases replies.len(),
{
    if replies.len() == 0 {
        initial
    } else {
        order::nearest_ids(
            known_after(initial, replies.drop_last(), target) + replies.last(),
            target,
            K as int,
        )
    }
}

/// Everything that a lookup was told, from the start.
pub open spec fn seen(
    initial: Seq<Contact<ID_BYTES>>,
    replies: Seq<Seq<Contact<ID_BYTES>>>,
) -> Seq<Contact<ID_BYTES>>
    decreases replies.len(),
{
    if replies.len() == 0 {
        initial
    } else {
        seen(initial, replies.drop_last()) + replies.last()
    }
}

/// Dropping all but the closest candidates after every reply loses nothing: a
/// lookup ends up with the [`K`] closest of all the nodes that it heard of.
pub proof fn lemma_a_lookup_keeps_the_closest_it_saw(
    initial: Seq<Contact<ID_BYTES>>,
    replies: Seq<Seq<Contact<ID_BYTES>>>,
    target: NodeId,
)
    requires
        replies.len() > 0,
    ensures
        known_after(initial, replies, target) == order::nearest_ids(
            seen(initial, replies),
            target,
            K as int,
        ),
    decreases replies.len(),
{
    reveal_with_fuel(known_after, 2);
    reveal_with_fuel(seen, 2);
    let earlier = replies.drop_last();
    if earlier.len() > 0 {
        lemma_a_lookup_keeps_the_closest_it_saw(initial, earlier, target);
        order::lemma_nearest_ids_absorbs(
            seen(initial, earlier),
            replies.last(),
            target,
            K as int,
        );
    }
}

proof fn lemma_first_unqueried(candidates: Seq<Contact<ID_BYTES>>, queried: Seq<NodeId>)
    ensures
        first_unqueried(candidates, queried) is None <==> forall|i: int|
            0 <= i < candidates.len() ==> queried.contains((#[trigger] candidates[i]).id),
        first_unqueried(candidates, queried) matches Some(next) ==> candidates.contains(next)
            && !queried.contains(next.id),
    decreases candidates.len(),
{
    if candidates.len() > 0 {
        let rest = candidates.skip(1);
        lemma_first_unqueried(rest, queried);
        if queried.contains(candidates[0].id) {
            assert forall|i: int| 0 < i < candidates.len() implies #[trigger] candidates[i]
                == rest[i - 1] by {}
            if first_unqueried(rest, queried) is None {
                assert forall|i: int| 0 <= i < candidates.len() implies queried.contains(
                    (#[trigger] candidates[i]).id,
                ) by {
                    if i > 0 {
                        assert(candidates[i] == rest[i - 1]);
                    }
                }
            } else {
                let next = first_unqueried(rest, queried)->0;
                let i = choose|i: int| 0 <= i < rest.len() && rest[i] == next;
                assert(candidates[i + 1] == next);
            }
            if forall|i: int|
                0 <= i < candidates.len() ==> queried.contains((#[trigger] candidates[i]).id) {
                assert forall|i: int| 0 <= i < rest.len() implies queried.contains(
                    (#[trigger] rest[i]).id,
                ) by {
                    assert(candidates[i + 1] == rest[i]);
                }
            }
        } else {
            assert(candidates[0] == first_unqueried(candidates, queried)->0);
        }
    }
}

/// A lookup is over exactly when no question is open and every node that it
/// ends up with was asked.
pub proof fn lemma_a_finished_lookup_asked_everyone(lookup: NodeLookup)
    ensures
        (lookup.waiting() == 0 && first_unqueried(lookup.known(), lookup.asked()) is None) <==> (
        lookup.waiting() == 0 && forall|i: int|
            0 <= i < lookup.known().len() ==> lookup.asked().contains(
                (#[trigger] lookup.known()[i]).id,
            )),
{
    lemma_first_unqueried(lookup.known(), lookup.asked());
}

/// Whoever is asked next is a candidate, was not asked before, and has no
/// candidate ahead that was not asked either.
pub proof fn lemma_the_closest_is_asked_next(lookup: NodeLookup, at: int)
    requires
        0 <= at < lookup.known().len(),
        !lookup.asked().contains(lookup.known()[at].id),
        forall|i: int| 0 <= i < at ==> lookup.asked().contains((#[trigger] lookup.known()[i]).id),
    ensures
        first_unqueried(lookup.known(), lookup.asked()) == Some(lookup.known()[at]),
{
    lemma_first_at(lookup.known(), lookup.asked(), at);
}

proof fn lemma_first_at(candidates: Seq<Contact<ID_BYTES>>, queried: Seq<NodeId>, at: int)
    requires
        0 <= at < candidates.len(),
        !queried.contains(candidates[at].id),
        forall|i: int| 0 <= i < at ==> queried.contains((#[trigger] candidates[i]).id),
    ensures
        first_unqueried(candidates, queried) == Some(candidates[at]),
    decreases candidates.len(),
{
    if at > 0 {
        let rest = candidates.skip(1);
        assert(queried.contains(candidates[0].id));
        assert forall|i: int| 0 <= i < at - 1 implies queried.contains((#[trigger] rest[i]).id) by {
            assert(rest[i] == candidates[i + 1]);
        }
        assert(rest[at - 1] == candidates[at]);
        lemma_first_at(rest, queried, at - 1);
    }
}

/// Every contact of a reply is offered to the table, one after the other, in
/// the order in which the reply has them: the states that the table goes
/// through, from before the reply to after it.
pub proof fn lemma_every_contact_is_offered<A: CloseNodes<ID_BYTES>>(
    before: A,
    contacts: Seq<Contact<ID_BYTES>>,
    after: A,
) -> (states: Seq<A>)
    requires
        all_offered(before, contacts, after),
    ensures
        states.len() == contacts.len() + 1,
        states[0] == before,
        states[contacts.len() as int] == after,
        forall|i: int|
            0 <= i < contacts.len() ==> A::offered(
                states[i],
                #[trigger] contacts[i],
                states[i + 1],
            ) && states[i].wf(),
    decreases contacts.len(),
{
    if contacts.len() == 0 {
        seq![before]
    } else {
        let fewer = contacts.drop_last();
        let between = choose|between: A|
            {
                &&& all_offered(before, fewer, between)
                &&& between.wf()
                &&& #[trigger] A::offered(between, contacts.last(), after)
            };
        let earlier = lemma_every_contact_is_offered(before, fewer, between);
        let states = earlier.push(after);
        assert forall|i: int| 0 <= i < contacts.len() implies A::offered(
            states[i],
            #[trigger] contacts[i],
            states[i + 1],
        ) && states[i].wf() by {
            if i < fewer.len() {
                assert(fewer[i] == contacts[i]);
            }
        }
        states
    }
}

/// A table that keeps everything knows the whole of a reply afterwards, behind
/// what it knew before.
pub proof fn lemma_a_reply_is_learned_whole(
    before: DumbBucket<ID_BYTES>,
    contacts: Seq<Contact<ID_BYTES>>,
    after: DumbBucket<ID_BYTES>,
)
    requires
        all_offered(before, contacts, after),
    ensures
        after.contacts@ == before.contacts@ + contacts,
    decreases contacts.len(),
{
    if contacts.len() == 0 {
        assert(before.contacts@ + contacts =~= before.contacts@);
    } else {
        let fewer = contacts.drop_last();
        let between = choose|between: DumbBucket<ID_BYTES>|
            {
                &&& all_offered(before, fewer, between)
                &&& between.wf()
                &&& #[trigger] DumbBucket::<ID_BYTES>::offered(between, contacts.last(), after)
            };
        lemma_a_reply_is_learned_whole(before, fewer, between);
        assert(before.contacts@ + contacts =~= (before.contacts@ + fewer).push(contacts.last()));
    }
}

/// Whom a lookup knows once it was told of some contacts: of those it knew and
/// those it was told of, each is known under its id, or else [`K`] are known
/// that are all nearer to the target. They are known nearest first, and nobody
/// else is.
pub proof fn lemma_a_reply_brings_nearer_nodes(
    known: Seq<Contact<ID_BYTES>>,
    contacts: Seq<Contact<ID_BYTES>>,
    target: NodeId,
    then: Seq<Contact<ID_BYTES>>,
)
    requires
        then == order::nearest_ids(known + contacts, target, K as int),
    ensures
        then.len() <= K,
        forall|i: int, j: int|
            0 <= i < j < then.len() ==> metric::distance((#[trigger] then[i]).id, target)
                < metric::distance((#[trigger] then[j]).id, target),
        forall|n: int|
            0 <= n < known.len() ==> {
                ||| exists|i: int|
                    0 <= i < then.len() && (#[trigger] then[i]).id == (#[trigger] known[n]).id
                ||| then.len() == K && forall|i: int|
                    0 <= i < K ==> metric::distance((#[trigger] then[i]).id, target)
                        < metric::distance(known[n].id, target)
            },
        forall|n: int|
            0 <= n < contacts.len() ==> {
                ||| exists|i: int|
                    0 <= i < then.len() && (#[trigger] then[i]).id == (#[trigger] contacts[n]).id
                ||| then.len() == K && forall|i: int|
                    0 <= i < K ==> metric::distance((#[trigger] then[i]).id, target)
                        < metric::distance(contacts[n].id, target)
            },
        forall|contact: Contact<ID_BYTES>| #[trigger]
            then.contains(contact) ==> known.contains(contact) || contacts.contains(contact),
{
    let all = known + contacts;
    order::lemma_nearest_ids(all, target, K as int);
    assert forall|n: int| 0 <= n < known.len() implies {
        ||| exists|i: int|
            0 <= i < then.len() && (#[trigger] then[i]).id == (#[trigger] known[n]).id
        ||| then.len() == K && forall|i: int|
            0 <= i < K ==> metric::distance((#[trigger] then[i]).id, target) < metric::distance(
                known[n].id,
                target,
            )
    } by {
        assert(all[n].id == known[n].id);
        assert(order::lists(then, all[n].id) || then.len() == K);
    }
    assert forall|n: int| 0 <= n < contacts.len() implies {
        ||| exists|i: int|
            0 <= i < then.len() && (#[trigger] then[i]).id == (#[trigger] contacts[n]).id
        ||| then.len() == K && forall|i: int|
            0 <= i < K ==> metric::distance((#[trigger] then[i]).id, target) < metric::distance(
                contacts[n].id,
                target,
            )
    } by {
        assert(all[known.len() + n].id == contacts[n].id);
        assert(order::lists(then, all[known.len() + n].id) || then.len() == K);
    }
    assert forall|contact: Contact<ID_BYTES>| #[trigger] then.contains(
        contact,
    ) implies known.contains(contact) || contacts.contains(contact) by {
        let i = choose|i: int| 0 <= i < then.len() && then[i] == contact;
        let at = order::lemma_first_listed(all, then[i].id);
        if at < known.len() {
            assert(known[at] == contact);
        } else {
            assert(contacts[at - known.len()] == contact);
        }
    }
}

/// Whom a lookup asks next, as long as it may ask: the first whom it knows and
/// has not asked. It asks nobody only if it has asked everybody whom it knows.
pub proof fn lemma_nobody_is_passed_over(
    known: Seq<Contact<ID_BYTES>>,
    asked: Seq<NodeId>,
    next: Option<Contact<ID_BYTES>>,
)
    requires
        next == first_unqueried(known, asked),
    ensures
        match next {
            Some(contact) => exists|at: int|
                {
                    &&& 0 <= at < known.len()
                    &&& #[trigger] known[at] == contact
                    &&& !asked.contains(contact.id)
                    &&& forall|i: int| 0 <= i < at ==> asked.contains((#[trigger] known[i]).id)
                },
            None => forall|i: int|
                0 <= i < known.len() ==> asked.contains((#[trigger] known[i]).id),
        },
    decreases known.len(),
{
    if known.len() > 0 && asked.contains(known[0].id) {
        let rest = known.skip(1);
        lemma_nobody_is_passed_over(rest, asked, next);
        match next {
            Some(contact) => {
                let at = choose|at: int|
                    {
                        &&& 0 <= at < rest.len()
                        &&& #[trigger] rest[at] == contact
                        &&& !asked.contains(contact.id)
                        &&& forall|i: int| 0 <= i < at ==> asked.contains((#[trigger] rest[i]).id)
                    };
                assert(known[at + 1] == contact);
                assert forall|i: int| 0 <= i < at + 1 implies asked.contains(
                    (#[trigger] known[i]).id,
                ) by {
                    if i > 0 {
                        assert(known[i] == rest[i - 1]);
                    }
                }
            },
            None => {
                assert forall|i: int| 0 <= i < known.len() implies asked.contains(
                    (#[trigger] known[i]).id,
                ) by {
                    if i > 0 {
                        assert(known[i] == rest[i - 1]);
                    }
                }
            },
        }
    } else if known.len() > 0 {
        assert(known[0] == next->0);
    }
}

} // verus!
