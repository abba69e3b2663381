//! The nodes nearest to us, held separately from the routing table.
//!
//! A bucket table is built around the *far* half of the keyspace: half of its
//! buckets cover half the network, and the near region (the one that decides
//! where a key is actually stored) gets a single bucket that a table with a
//! bounded bucket count may even clamp several prefix lengths into. That is
//! fine for routing, where any contact in the right direction moves a lookup
//! forward, but it is not fine for replication, where the set of nodes closest
//! to a key has to be right.
//!
//! S/Kademlia's answer is a sibling list: a small sorted set of the `s` nodes
//! closest to us, maintained outside the buckets so no eviction policy can
//! drop them.

use crate::close_nodes::metric;
use crate::close_nodes::order;
use crate::close_nodes::static_bucket;
use crate::close_nodes::static_bucket::StaticBucket;
use crate::close_nodes::{is_closer, same_id, CloseNodes, Contact, K};
use vstd::prelude::*;

verus! {

/// The `SIBLINGS` contacts closest to `my_id`, layered over a `fallback`
/// [`CloseNodes`] that answers for the rest of the keyspace.
///
/// The two are an overlay, not a partition: every contact offered here is also
/// offered to the fallback, so the routing table stays complete and a contact
/// evicted from the sibling list is not lost. Queries merge both and let XOR
/// distance decide, which is why the overlap costs nothing.
pub struct SiblingList<C, const SIBLINGS: usize, const N: usize> {
    /// Sorted by XOR distance to `my_id`, closest first, so the farthest
    /// sibling (the only one eviction ever looks at) is last.
    siblings: Vec<Contact<N>>,
    fallback: C,
    my_id: [u8; N],
}

/// Every contact is strictly farther from `target` than the one before it.
pub open spec fn strictly_ordered<const N: usize>(
    contacts: Seq<Contact<N>>,
    target: [u8; N],
) -> bool {
    forall|i: int, j: int|
        0 <= i < j < contacts.len() ==> metric::distance(#[trigger] contacts[i].id, target)
            < metric::distance(#[trigger] contacts[j].id, target)
}

/// A sibling set once `contact` was offered to it: a known sibling's address
/// is refreshed, and a new node takes its place in the order, pushing the
/// farthest out if there are more than `most` then. Unlike in a bucket,
/// seniority does not enter into it: the sibling set is defined by distance.
pub open spec fn siblings_with<const N: usize>(
    siblings: Seq<Contact<N>>,
    contact: Contact<N>,
    my_id: [u8; N],
    most: int,
) -> Seq<Contact<N>> {
    if order::lists(siblings, contact.id) {
        siblings.map_values(
            |known: Contact<N>|
                if known.id == contact.id {
                    contact
                } else {
                    known
                },
        )
    } else {
        order::at_most(order::place(siblings, contact, my_id), most)
    }
}

impl<C: CloseNodes<N>, const SIBLINGS: usize, const N: usize> SiblingList<C, SIBLINGS, N> {
    /// The id that the list is built around.
    pub closed spec fn owner(&self) -> [u8; N] {
        self.my_id
    }

    /// The sibling set, closest first.
    pub closed spec fn sibling_set(&self) -> Seq<Contact<N>> {
        self.siblings@
    }

    /// The table underneath.
    pub closed spec fn below(&self) -> C {
        self.fallback
    }

    /// No siblings yet, over `fallback`.
    pub fn new(my_id: [u8; N], fallback: C) -> (table: Self)
        requires
            fallback.wf(),
        ensures
            table.wf(),
            table.owner() == my_id,
            table.sibling_set() == Seq::<Contact<N>>::empty(),
            table.below() == fallback,
    {
        Self { siblings: Vec::new(), fallback, my_id }
    }

    /// The current sibling set, closest first.
    ///
    /// This is the replication set: a value whose key falls in our
    /// neighbourhood belongs on these nodes, and unlike
    /// [`CloseNodes::close_nodes`] the answer is not diluted by routing
    /// contacts that merely point the right way.
    pub fn siblings(&self) -> (out: Vec<Contact<N>>)
        ensures
            out@ == self.sibling_set(),
    {
        let mut out: Vec<Contact<N>> = Vec::new();
        out.extend_from_slice(self.siblings.as_slice());
        assert(out@ =~= self.siblings@);
        out
    }

    pub fn fallback(&self) -> (below: &C)
        ensures
            *below == self.below(),
    {
        &self.fallback
    }
}

impl<C: CloseNodes<N>, const SIBLINGS: usize, const N: usize> CloseNodes<N> for SiblingList<
    C,
    SIBLINGS,
    N,
> {
    /// There are no more siblings than there may be, they are in order, and we
    /// are not one of them.
    open spec fn wf(&self) -> bool {
        &&& self.below().wf()
        &&& self.sibling_set().len() <= SIBLINGS
        &&& strictly_ordered(self.sibling_set(), self.owner())
        &&& !order::lists(self.sibling_set(), self.owner())
    }

    open spec fn asked(before: Self, id: [u8; N], after: Self, out: Seq<Contact<N>>) -> bool {
        &&& after.owner() == before.owner()
        &&& after.sibling_set() == before.sibling_set()
        &&& exists|routed: Seq<Contact<N>>|
            {
                &&& #[trigger] C::asked(before.below(), id, after.below(), routed)
                &&& out == order::nearest_ids(routed + before.sibling_set(), id, K as int)
            }
    }

    open spec fn offered(before: Self, contact: Contact<N>, after: Self) -> bool {
        if contact.id == before.owner() {
            after == before
        } else {
            &&& after.owner() == before.owner()
            &&& C::offered(before.below(), contact, after.below())
            &&& after.sibling_set() == siblings_with(
                before.sibling_set(),
                contact,
                before.owner(),
                SIBLINGS as int,
            )
        }
    }

    fn close_nodes(&mut self, id: [u8; N]) -> (out: Vec<Contact<N>>) {
        let mut out: Vec<Contact<N>> = self.fallback.close_nodes(id);
        let ghost routed = out@;
        out.extend_from_slice(self.siblings.as_slice());
        assert(out@ =~= routed + self.siblings@);
        // XOR is a bijection, so two distinct ids never share a distance to
        // `id`: after the sort, duplicates of one contact are adjacent.
        order::keep_nearest_ids(&mut out, id, K);
        assert(C::asked(old(self).below(), id, self.below(), routed));
        out
    }

    fn maybe_add_contact(&mut self, contact: Contact<N>) {
        if same_id(&contact.id, &self.my_id) {
            return ;
        }
        self.fallback.maybe_add_contact(contact);

        let ghost before = self.siblings@;
        // Everything ahead of `pos` is closer than the contact.
        let mut pos: usize = 0;
        while pos < self.siblings.len() && is_closer(
            self.siblings[pos].id,
            contact.id,
            self.my_id,
        )
            invariant
                pos <= self.siblings@.len(),
                forall|j: int|
                    0 <= j < pos ==> metric::distance(#[trigger] self.siblings@[j].id, self.my_id)
                        < metric::distance(contact.id, self.my_id),
            decreases self.siblings.len() - pos,
        {
            pos = pos + 1;
        }
        proof {
            lemma_sibling_place(before, contact, self.my_id, pos as int);
            lemma_siblings_with(before, contact, self.my_id, SIBLINGS as int);
        }
        if pos < self.siblings.len() && same_id(&self.siblings[pos].id, &contact.id) {
            self.siblings[pos] = contact;
            assert(self.siblings@ =~= siblings_with(
                before,
                contact,
                self.my_id,
                SIBLINGS as int,
            ));
            return ;
        }
        if self.siblings.len() >= SIBLINGS {
            // Farther than every sibling we already hold, and with a full
            // list, that is the whole test.
            if pos == self.siblings.len() {
                assert(self.siblings@ =~= siblings_with(
                    before,
                    contact,
                    self.my_id,
                    SIBLINGS as int,
                ));
                return ;
            }
            self.siblings.pop();
        }
        self.siblings.insert(pos, contact);
        assert(self.siblings@ =~= siblings_with(before, contact, self.my_id, SIBLINGS as int));
    }
}

/// Where a contact goes among siblings that are in order: it is known exactly
/// if it stands at the first place that is not closer, and goes there if not.
proof fn lemma_sibling_place<const N: usize>(
    siblings: Seq<Contact<N>>,
    contact: Contact<N>,
    my_id: [u8; N],
    pos: int,
)
    requires
        strictly_ordered(siblings, my_id),
        0 <= pos <= siblings.len(),
        forall|j: int|
            0 <= j < pos ==> metric::distance(#[trigger] siblings[j].id, my_id)
                < metric::distance(contact.id, my_id),
        pos < siblings.len() ==> metric::distance(siblings[pos].id, my_id) >= metric::distance(
            contact.id,
            my_id,
        ),
    ensures
        order::lists(siblings, contact.id) <==> pos < siblings.len() && siblings[pos].id
            == contact.id,
        forall|j: int|
            0 <= j < siblings.len() && j != pos ==> (#[trigger] siblings[j]).id != contact.id,
        !order::lists(siblings, contact.id) ==> order::place(siblings, contact, my_id)
            == siblings.insert(pos, contact),
{
    assert forall|j: int| 0 <= j < siblings.len() && j != pos implies (#[trigger] siblings[j]).id
        != contact.id by {
        if j > pos {
            assert(metric::distance(siblings[pos].id, my_id) < metric::distance(
                siblings[j].id,
                my_id,
            ));
        }
    }
    if pos < siblings.len() {
        metric::lemma_distance_injective(siblings[pos].id, contact.id, my_id);
    }
    if !order::lists(siblings, contact.id) {
        assert forall|j: int| pos <= j < siblings.len() implies metric::distance(
            #[trigger] siblings[j].id,
            my_id,
        ) > metric::distance(contact.id, my_id) by {
            if j > pos {
                assert(metric::distance(siblings[pos].id, my_id) < metric::distance(
                    siblings[j].id,
                    my_id,
                ));
            } else {
                assert(siblings[j].id != contact.id);
            }
        }
        if pos > 0 {
            assert(metric::distance(siblings[pos - 1].id, my_id) < metric::distance(
                contact.id,
                my_id,
            ));
        }
        order::lemma_place_is_insert(siblings, contact, my_id, pos);
    }
}

/// Offering a contact keeps the siblings in order, no more than there may be,
/// and ourselves out of them.
proof fn lemma_siblings_with<const N: usize>(
    siblings: Seq<Contact<N>>,
    contact: Contact<N>,
    my_id: [u8; N],
    most: int,
)
    requires
        strictly_ordered(siblings, my_id),
        siblings.len() <= most,
        contact.id != my_id,
        !order::lists(siblings, my_id),
    ensures
        siblings_with(siblings, contact, my_id, most).len() <= most,
        strictly_ordered(siblings_with(siblings, contact, my_id, most), my_id),
        !order::lists(siblings_with(siblings, contact, my_id, most), my_id),
{
    let after = siblings_with(siblings, contact, my_id, most);
    if order::lists(siblings, contact.id) {
        assert forall|i: int| 0 <= i < after.len() implies (#[trigger] after[i]).id
            == siblings[i].id by {}
    } else {
        let pos = lemma_sibling_position(siblings, contact, my_id);
        lemma_sibling_place(siblings, contact, my_id, pos);
        let whole = siblings.insert(pos, contact);
        lemma_insert_is_ordered(siblings, contact, my_id, pos);
        assert forall|i: int| 0 <= i < whole.len() implies (#[trigger] whole[i]).id != my_id by {
            if i < pos {
                assert(whole[i] == siblings[i]);
            } else if i > pos {
                assert(whole[i] == siblings[i - 1]);
            }
        }
        assert forall|i: int| 0 <= i < after.len() implies #[trigger] after[i] == whole[i] by {}
    }
}

/// A contact put where `lemma_sibling_place` says leaves siblings in order.
proof fn lemma_insert_is_ordered<const N: usize>(
    siblings: Seq<Contact<N>>,
    contact: Contact<N>,
    my_id: [u8; N],
    pos: int,
)
    requires
        strictly_ordered(siblings, my_id),
        !order::lists(siblings, contact.id),
        0 <= pos <= siblings.len(),
        forall|j: int|
            0 <= j < pos ==> metric::distance(#[trigger] siblings[j].id, my_id)
                < metric::distance(contact.id, my_id),
        pos < siblings.len() ==> metric::distance(siblings[pos].id, my_id) >= metric::distance(
            contact.id,
            my_id,
        ),
    ensures
        strictly_ordered(siblings.insert(pos, contact), my_id),
{
    let whole = siblings.insert(pos, contact);
    assert forall|i: int, j: int| 0 <= i < j < whole.len() implies metric::distance(
        #[trigger] whole[i].id,
        my_id,
    ) < metric::distance(#[trigger] whole[j].id, my_id) by {
        let a = if i < pos {
            i
        } else {
            i - 1
        };
        let b = if j < pos {
            j
        } else {
            j - 1
        };
        if i == pos {
            assert(whole[j] == siblings[b]);
            if b > pos {
                assert(metric::distance(siblings[pos].id, my_id) < metric::distance(
                    siblings[b].id,
                    my_id,
                ));
            }
            metric::lemma_distance_injective(siblings[pos].id, contact.id, my_id);
        } else if j == pos {
            assert(whole[i] == siblings[a]);
        } else {
            assert(whole[i] == siblings[a] && whole[j] == siblings[b]);
        }
    }
}

/// The first place among the siblings that is not closer than `contact`.
proof fn lemma_sibling_position<const N: usize>(
    siblings: Seq<Contact<N>>,
    contact: Contact<N>,
    my_id: [u8; N],
) -> (pos: int)
    ensures
        0 <= pos <= siblings.len(),
        forall|j: int|
            0 <= j < pos ==> metric::distance(#[trigger] siblings[j].id, my_id)
                < metric::distance(contact.id, my_id),
        pos < siblings.len() ==> metric::distance(siblings[pos].id, my_id) >= metric::distance(
            contact.id,
            my_id,
        ),
    decreases siblings.len(),
{
    if siblings.len() == 0 {
        0
    } else {
        let fewer = siblings.drop_last();
        let pos = lemma_sibling_position(fewer, contact, my_id);
        assert forall|j: int| 0 <= j < pos implies metric::distance(
            #[trigger] siblings[j].id,
            my_id,
        ) < metric::distance(contact.id, my_id) by {
            assert(siblings[j] == fewer[j]);
        }
        if pos < fewer.len() {
            assert(siblings[pos] == fewer[pos]);
            pos
        } else if metric::distance(siblings.last().id, my_id) < metric::distance(
            contact.id,
            my_id,
        ) {
            pos + 1
        } else {
            pos
        }
    }
}

/// The nearest of what was seen, and then of one more.
proof fn lemma_offer_keeps_the_nearest<const N: usize>(
    siblings: Seq<Contact<N>>,
    seen: Seq<Contact<N>>,
    contact: Contact<N>,
    my_id: [u8; N],
    most: int,
)
    requires
        order::is_nearest_ids(siblings, seen, my_id, most),
    ensures
        order::is_nearest_ids(
            siblings_with(siblings, contact, my_id, most),
            seq![contact] + seen,
            my_id,
            most,
        ),
{
    let after = siblings_with(siblings, contact, my_id, most);
    let more = seq![contact] + seen;
    let pos = lemma_sibling_position(siblings, contact, my_id);
    lemma_sibling_place(siblings, contact, my_id, pos);
    let whole = siblings.insert(pos, contact);
    assert forall|id: [u8; N]| #[trigger]
        order::listed_as(more, id) == if contact.id == id {
            seq![contact] + order::listed_as(seen, id)
        } else {
            order::listed_as(seen, id)
        } by {
        order::lemma_listed_as_concat(seq![contact], seen, id);
        order::lemma_listed_as(seq![contact], id);
        if contact.id == id {
            order::lemma_listed_as_one(seq![contact], 0);
        } else {
            if order::lists(seq![contact], id) {
                assert(false);
            }
            assert(order::listed_as(more, id) =~= order::listed_as(seen, id));
        }
    }
    assert forall|id: [u8; N]| #[trigger]
        order::lists(more, id) <==> order::lists(seen, id) || contact.id == id by {
        order::lemma_lists_concat(seq![contact], seen, id);
        if contact.id == id {
            assert(seq![contact][0].id == id);
        }
    }
    if order::lists(siblings, contact.id) {
        assert forall|i: int| 0 <= i < after.len() implies (#[trigger] after[i]).id
            == siblings[i].id && after[i] == if i == pos {
            contact
        } else {
            siblings[i]
        } by {}
        assert forall|i: int| 0 <= i < more.len() implies order::lists(
            after,
            #[trigger] more[i].id,
        ) || (after.len() == most && forall|j: int|
            0 <= j < after.len() ==> metric::distance(#[trigger] after[j].id, my_id)
                < metric::distance(more[i].id, my_id)) by {
            if i == 0 {
                assert(after[pos].id == contact.id);
            } else {
                assert(more[i] == seen[i - 1]);
                if order::lists(siblings, seen[i - 1].id) {
                    let n = choose|n: int|
                        0 <= n < siblings.len() && #[trigger] siblings[n].id == seen[i - 1].id;
                    assert(after[n].id == more[i].id);
                }
            }
        }
    } else {
        lemma_insert_is_ordered(siblings, contact, my_id, pos);
        assert forall|i: int| 0 <= i < after.len() implies #[trigger] after[i] == whole[i] by {}
        assert forall|i: int| 0 <= i < after.len() implies order::lists(more, #[trigger] after[i].id)
            && after[i] == order::listed_as(more, after[i].id)[0] by {
            if i != pos {
                let n = if i < pos {
                    i
                } else {
                    i - 1
                };
                assert(after[i] == siblings[n]);
                assert(siblings[n].id != contact.id);
            }
        }
        assert forall|i: int| 0 <= i < more.len() implies order::lists(
            after,
            #[trigger] more[i].id,
        ) || (after.len() == most && forall|j: int|
            0 <= j < after.len() ==> metric::distance(#[trigger] after[j].id, my_id)
                < metric::distance(more[i].id, my_id)) by {
            let id = more[i].id;
            if order::lists(whole, id) {
                let n = choose|n: int| 0 <= n < whole.len() && #[trigger] whole[n].id == id;
                if n < after.len() {
                    assert(after[n].id == id);
                } else {
                    assert forall|j: int| 0 <= j < after.len() implies metric::distance(
                        #[trigger] after[j].id,
                        my_id,
                    ) < metric::distance(id, my_id) by {
                        assert(after[j] == whole[j]);
                    }
                }
            } else {
                assert(whole[pos].id == contact.id);
                assert(more[i] == seen[i - 1]);
                if order::lists(siblings, id) {
                    let n = choose|n: int| 0 <= n < siblings.len() && #[trigger] siblings[n].id == id;
                    if n < pos {
                        assert(whole[n].id == id);
                    } else {
                        assert(whole[n + 1].id == id);
                    }
                }
                assert(siblings.len() == most);
                assert forall|j: int| 0 <= j < after.len() implies metric::distance(
                    #[trigger] after[j].id,
                    my_id,
                ) < metric::distance(id, my_id) by {
                    assert(after[j] == whole[j]);
                    if j < pos {
                        assert(after[j] == siblings[j]);
                    } else if j > pos {
                        assert(after[j] == siblings[j - 1]);
                    } else {
                        // The one that was pushed out stands behind it.
                        assert(whole[j + 1] == siblings[j]);
                        assert(metric::distance(whole[j].id, my_id) < metric::distance(
                            whole[j + 1].id,
                            my_id,
                        ));
                    }
                }
            }
        }
    }
}

/// The sibling set that comes of offering `contacts` one after the other to an
/// empty one.
pub open spec fn siblings_of<const N: usize>(
    contacts: Seq<Contact<N>>,
    my_id: [u8; N],
    most: int,
) -> Seq<Contact<N>>
    decreases contacts.len(),
{
    if contacts.len() == 0 {
        Seq::empty()
    } else {
        let before = siblings_of(contacts.drop_last(), my_id, most);
        if contacts.last().id == my_id {
            before
        } else {
            siblings_with(before, contacts.last(), my_id, most)
        }
    }
}

/// The contacts that are not `my_id`, latest first.
pub open spec fn latest_others<const N: usize>(contacts: Seq<Contact<N>>, my_id: [u8; N]) -> Seq<
    Contact<N>,
>
    decreases contacts.len(),
{
    if contacts.len() == 0 {
        contacts
    } else if contacts.last().id == my_id {
        latest_others(contacts.drop_last(), my_id)
    } else {
        seq![contacts.last()] + latest_others(contacts.drop_last(), my_id)
    }
}

/// The siblings are the nodes closest to us of all that were ever offered, in
/// whatever order they came, each at the address it was offered with last.
pub proof fn lemma_siblings_are_the_nearest_offered<const N: usize>(
    contacts: Seq<Contact<N>>,
    my_id: [u8; N],
    most: int,
)
    requires
        0 <= most,
    ensures
        siblings_of(contacts, my_id, most) == order::nearest_ids(
            latest_others(contacts, my_id),
            my_id,
            most,
        ),
    decreases contacts.len(),
{
    let seen = latest_others(contacts, my_id);
    if contacts.len() == 0 {
        assert(order::nearest_ids(seen, my_id, most) =~= Seq::<Contact<N>>::empty());
    } else {
        lemma_siblings_are_the_nearest_offered(contacts.drop_last(), my_id, most);
        if contacts.last().id != my_id {
            let earlier = latest_others(contacts.drop_last(), my_id);
            order::lemma_nearest_ids(earlier, my_id, most);
            lemma_offer_keeps_the_nearest(
                siblings_of(contacts.drop_last(), my_id, most),
                earlier,
                contacts.last(),
                my_id,
                most,
            );
            order::lemma_nearest_ids(seen, my_id, most);
            order::lemma_nearest_ids_unique(
                siblings_of(contacts, my_id, most),
                order::nearest_ids(seen, my_id, most),
                seen,
                my_id,
                most,
            );
        }
    }
}


/// `id` is a sibling, or there are as many siblings as there may be and all
/// of them are closer.
pub open spec fn is_covered<const N: usize>(
    siblings: Seq<Contact<N>>,
    id: [u8; N],
    my_id: [u8; N],
    most: int,
) -> bool {
    order::lists(siblings, id) || (siblings.len() == most && forall|j: int|
        0 <= j < siblings.len() ==> metric::distance(#[trigger] siblings[j].id, my_id)
            < metric::distance(id, my_id))
}

/// Every contact that the buckets hold is a sibling, or too far away to be
/// one.
pub open spec fn is_overlay<
    const BUCKET_SIZE: usize,
    const SEARCH_SHIFT: usize,
    const MAX_BUCKETS: usize,
    const SIBLINGS: usize,
    const N: usize,
>(
    list: SiblingList<StaticBucket<BUCKET_SIZE, SEARCH_SHIFT, MAX_BUCKETS, N>, SIBLINGS, N>,
) -> bool {
    forall|contact: Contact<N>| #[trigger]
        static_bucket::holds(list.below().buckets(), contact) ==> is_covered(
            list.sibling_set(),
            contact.id,
            list.owner(),
            SIBLINGS as int,
        )
}

proof fn lemma_offer_covers<const N: usize>(
    siblings: Seq<Contact<N>>,
    contact: Contact<N>,
    other: Contact<N>,
    my_id: [u8; N],
    most: int,
)
    requires
        strictly_ordered(siblings, my_id),
        siblings.len() <= most,
        other == contact || is_covered(siblings, other.id, my_id, most),
    ensures
        is_covered(siblings_with(siblings, contact, my_id, most), other.id, my_id, most),
{
    let rest = if other == contact {
        Seq::<Contact<N>>::empty()
    } else {
        seq![other]
    };
    let seen = siblings + rest;
    order::lemma_strict_is_distinct(siblings, my_id);
    assert forall|i: int| 0 <= i < siblings.len() implies order::lists(
        seen,
        #[trigger] siblings[i].id,
    ) && siblings[i] == order::listed_as(seen, siblings[i].id)[0] by {
        assert(seen[i] == siblings[i]);
        order::lemma_listed_as_one(siblings, i);
        order::lemma_listed_as_concat(siblings, rest, siblings[i].id);
    }
    assert forall|i: int| 0 <= i < seen.len() implies is_covered(
        siblings,
        #[trigger] seen[i].id,
        my_id,
        most,
    ) by {
        if i < siblings.len() {
            assert(siblings[i].id == seen[i].id);
        } else {
            assert(seen[i] == other);
        }
    }
    lemma_offer_keeps_the_nearest(siblings, seen, contact, my_id, most);
    let more = seq![contact] + seen;
    if other == contact {
        assert(more[0].id == other.id);
    } else {
        assert(more[1 + siblings.len() as int].id == other.id);
    }
}

/// An overlay stays one: whatever is offered, no contact gets into the
/// buckets that should be a sibling and is not.
pub proof fn lemma_stays_an_overlay<
    const BUCKET_SIZE: usize,
    const SEARCH_SHIFT: usize,
    const MAX_BUCKETS: usize,
    const SIBLINGS: usize,
    const N: usize,
>(
    before: SiblingList<StaticBucket<BUCKET_SIZE, SEARCH_SHIFT, MAX_BUCKETS, N>, SIBLINGS, N>,
    contact: Contact<N>,
    after: SiblingList<StaticBucket<BUCKET_SIZE, SEARCH_SHIFT, MAX_BUCKETS, N>, SIBLINGS, N>,
)
    requires
        before.wf(),
        is_overlay(before),
        SiblingList::<
            StaticBucket<BUCKET_SIZE, SEARCH_SHIFT, MAX_BUCKETS, N>,
            SIBLINGS,
            N,
        >::offered(before, contact, after),
    ensures
        is_overlay(after),
{
    if contact.id != before.owner() {
        let old_buckets = before.below().buckets();
        let new_buckets = after.below().buckets();
        assert forall|other: Contact<N>| #[trigger]
            static_bucket::holds(new_buckets, other) implies is_covered(
            after.sibling_set(),
            other.id,
            after.owner(),
            SIBLINGS as int,
        ) by {
            let b = choose|b: int|
                0 <= b < new_buckets.len() && #[trigger] new_buckets[b].contains(other);
            let i = choose|i: int| 0 <= i < new_buckets[b].len() && new_buckets[b][i] == other;
            if other != contact {
                assert(old_buckets[b][i] == other);
                assert(old_buckets[b].contains(other));
                assert(static_bucket::holds(old_buckets, other));
            }
            lemma_offer_covers(
                before.sibling_set(),
                contact,
                other,
                before.owner(),
                SIBLINGS as int,
            );
        }
    }
}

/// The sibling set alone answers for our own neighbourhood, if there may be
/// `K` siblings or more: asked about ourselves, the table names the nearest
/// siblings, whatever the buckets have room for.
pub proof fn lemma_siblings_answer_for_us<
    const BUCKET_SIZE: usize,
    const SEARCH_SHIFT: usize,
    const MAX_BUCKETS: usize,
    const SIBLINGS: usize,
    const N: usize,
>(
    before: SiblingList<StaticBucket<BUCKET_SIZE, SEARCH_SHIFT, MAX_BUCKETS, N>, SIBLINGS, N>,
    after: SiblingList<StaticBucket<BUCKET_SIZE, SEARCH_SHIFT, MAX_BUCKETS, N>, SIBLINGS, N>,
    out: Seq<Contact<N>>,
)
    requires
        before.wf(),
        is_overlay(before),
        SIBLINGS >= K,
        SiblingList::<
            StaticBucket<BUCKET_SIZE, SEARCH_SHIFT, MAX_BUCKETS, N>,
            SIBLINGS,
            N,
        >::asked(before, before.owner(), after, out),
    ensures
        out.len() == if before.sibling_set().len() < K {
            before.sibling_set().len()
        } else {
            K as nat
        },
        forall|i: int|
            0 <= i < out.len() ==> (#[trigger] out[i]).id == before.sibling_set()[i].id,
{
    let me = before.owner();
    let siblings = before.sibling_set();
    let buckets = before.below().buckets();
    let routed = static_bucket::answer(buckets, before.below().home(me), me);
    let all = routed + siblings;
    static_bucket::lemma_answer(buckets, before.below().home(me), me);
    let len = if siblings.len() < K {
        siblings.len()
    } else {
        K as nat
    };
    let expected = Seq::new(len, |i: int| order::listed_as(all, siblings[i].id)[0]);
    assert forall|i: int| 0 <= i < len implies (#[trigger] expected[i]).id == siblings[i].id
        && order::lists(all, siblings[i].id) by {
        order::lemma_lists_concat(routed, siblings, siblings[i].id);
        order::lemma_listed_as(all, siblings[i].id);
        assert(order::lists(siblings, siblings[i].id));
    }
    assert forall|i: int| 0 <= i < all.len() implies is_covered(
        expected,
        #[trigger] all[i].id,
        me,
        K as int,
    ) by {
        let id = all[i].id;
        if i < routed.len() {
            assert(all[i] == routed[i]);
            assert(static_bucket::holds(buckets, routed[i]));
        } else {
            assert(all[i] == siblings[i - routed.len()]);
        }
        assert(is_covered(siblings, id, me, SIBLINGS as int));
        if order::lists(siblings, id) {
            let n = choose|n: int| 0 <= n < siblings.len() && #[trigger] siblings[n].id == id;
            if n < len {
                assert(expected[n].id == id);
            } else {
                assert forall|j: int| 0 <= j < expected.len() implies metric::distance(
                    #[trigger] expected[j].id,
                    me,
                ) < metric::distance(id, me) by {
                    assert(expected[j].id == siblings[j].id);
                }
            }
        } else {
            assert forall|j: int| 0 <= j < expected.len() implies metric::distance(
                #[trigger] expected[j].id,
                me,
            ) < metric::distance(id, me) by {
                assert(expected[j].id == siblings[j].id);
            }
        }
    }
    assert forall|i: int, j: int| 0 <= i < j < expected.len() implies metric::distance(
        #[trigger] expected[i].id,
        me,
    ) < metric::distance(#[trigger] expected[j].id, me) by {
        assert(expected[i].id == siblings[i].id && expected[j].id == siblings[j].id);
    }
    order::lemma_nearest_ids(all, me, K as int);
    order::lemma_nearest_ids_unique(out, expected, all, me, K as int);
}

/// However many contacts the table below knows, the merged answer has no more
/// than [`K`], closest first, and no id twice.
pub proof fn lemma_merged_answer_is_ordered<
    C: CloseNodes<N>,
    const SIBLINGS: usize,
    const N: usize,
>(
    before: SiblingList<C, SIBLINGS, N>,
    id: [u8; N],
    after: SiblingList<C, SIBLINGS, N>,
    out: Seq<Contact<N>>,
)
    requires
        SiblingList::<C, SIBLINGS, N>::asked(before, id, after, out),
    ensures
        out.len() <= K,
        strictly_ordered(out, id),
        order::distinct(out),
{
    let routed = choose|routed: Seq<Contact<N>>|
        {
            &&& #[trigger] C::asked(before.below(), id, after.below(), routed)
            &&& out == order::nearest_ids(routed + before.sibling_set(), id, K as int)
        };
    order::lemma_nearest_ids(routed + before.sibling_set(), id, K as int);
    order::lemma_strict_is_distinct(out, id);
}

/// Whatever id is asked about, the answer merges what the table below says
/// with the siblings, and distance alone decides: of both, a contact is in the
/// answer under its id, or the answer has [`K`] contacts that are all nearer.
/// Nobody else is in it, nobody twice, and the nearest come first. Asking moves
/// no sibling.
pub proof fn lemma_every_answer_merges_the_siblings<
    C: CloseNodes<N>,
    const SIBLINGS: usize,
    const N: usize,
>(
    before: SiblingList<C, SIBLINGS, N>,
    id: [u8; N],
    after: SiblingList<C, SIBLINGS, N>,
    out: Seq<Contact<N>>,
) -> (routed: Seq<Contact<N>>)
    requires
        SiblingList::<C, SIBLINGS, N>::asked(before, id, after, out),
    ensures
        after.owner() == before.owner(),
        after.sibling_set() == before.sibling_set(),
        C::asked(before.below(), id, after.below(), routed),
        out.len() <= K,
        forall|i: int, j: int|
            0 <= i < j < out.len() ==> metric::distance((#[trigger] out[i]).id, id)
                < metric::distance((#[trigger] out[j]).id, id),
        forall|contact: Contact<N>| #[trigger]
            out.contains(contact) ==> routed.contains(contact) || before.sibling_set().contains(
                contact,
            ),
        forall|n: int|
            0 <= n < before.sibling_set().len() ==> {
                ||| exists|i: int|
                    0 <= i < out.len() && (#[trigger] out[i]).id == (
                    #[trigger] before.sibling_set()[n]).id
                ||| out.len() == K && forall|i: int|
                    0 <= i < K ==> metric::distance((#[trigger] out[i]).id, id)
                        < metric::distance(before.sibling_set()[n].id, id)
            },
        forall|n: int|
            0 <= n < routed.len() ==> {
                ||| out.contains(#[trigger] routed[n])
                ||| exists|i: int| 0 <= i < n && (#[trigger] routed[i]).id == routed[n].id
                ||| out.len() == K && forall|i: int|
                    0 <= i < K ==> metric::distance((#[trigger] out[i]).id, id)
                        < metric::distance(routed[n].id, id)
            },
{
    let routed = choose|routed: Seq<Contact<N>>|
        {
            &&& #[trigger] C::asked(before.below(), id, after.below(), routed)
            &&& out == order::nearest_ids(routed + before.sibling_set(), id, K as int)
        };
    lemma_merged(routed, before.sibling_set(), id, out);
    routed
}

/// The [`K`] nearest of two lists.
proof fn lemma_merged<const N: usize>(
    routed: Seq<Contact<N>>,
    siblings: Seq<Contact<N>>,
    id: [u8; N],
    out: Seq<Contact<N>>,
)
    requires
        out == order::nearest_ids(routed + siblings, id, K as int),
    ensures
        out.len() <= K,
        strictly_ordered(out, id),
        forall|contact: Contact<N>| #[trigger]
            out.contains(contact) ==> routed.contains(contact) || siblings.contains(contact),
        forall|n: int|
            0 <= n < siblings.len() ==> is_covered(
                out,
                (#[trigger] siblings[n]).id,
                id,
                K as int,
            ),
        forall|n: int|
            0 <= n < routed.len() ==> {
                ||| out.contains(#[trigger] routed[n])
                ||| exists|i: int| 0 <= i < n && (#[trigger] routed[i]).id == routed[n].id
                ||| out.len() == K && forall|i: int|
                    0 <= i < K ==> metric::distance((#[trigger] out[i]).id, id)
                        < metric::distance(routed[n].id, id)
            },
{
    let all = routed + siblings;
    order::lemma_nearest_ids(all, id, K as int);
    assert forall|contact: Contact<N>| #[trigger] out.contains(
        contact,
    ) implies routed.contains(contact) || siblings.contains(contact) by {
        let i = choose|i: int| 0 <= i < out.len() && out[i] == contact;
        let at = order::lemma_first_listed(all, out[i].id);
        if at < routed.len() {
            assert(routed[at] == contact);
        } else {
            assert(siblings[at - routed.len()] == contact);
        }
    }
    assert forall|n: int| 0 <= n < siblings.len() implies is_covered(
        out,
        (#[trigger] siblings[n]).id,
        id,
        K as int,
    ) by {
        assert(all[routed.len() + n].id == siblings[n].id);
    }
    assert forall|n: int| 0 <= n < routed.len() implies {
        ||| out.contains(#[trigger] routed[n])
        ||| exists|i: int| 0 <= i < n && (#[trigger] routed[i]).id == routed[n].id
        ||| out.len() == K && forall|i: int|
            0 <= i < K ==> metric::distance((#[trigger] out[i]).id, id) < metric::distance(
                routed[n].id,
                id,
            )
    } by {
        assert(all[n].id == routed[n].id);
        if order::lists(out, all[n].id) {
            let i = choose|i: int| 0 <= i < out.len() && #[trigger] out[i].id == all[n].id;
            let at = order::lemma_first_listed(all, out[i].id);
            if at == n {
                assert(out[i] == routed[n]);
            } else if at > n {
                assert(all[n].id != out[i].id);
            } else {
                assert(routed[at].id == routed[n].id);
            }
        }
    }
}

/// Every contact that is offered, other than ourselves, is also offered to the
/// table below, whoever the siblings are. Ourselves, we are offered to nobody.
pub proof fn lemma_every_offer_goes_below<C: CloseNodes<N>, const SIBLINGS: usize, const N: usize>(
    before: SiblingList<C, SIBLINGS, N>,
    contact: Contact<N>,
    after: SiblingList<C, SIBLINGS, N>,
)
    requires
        SiblingList::<C, SIBLINGS, N>::offered(before, contact, after),
    ensures
        after.owner() == before.owner(),
        contact.id != before.owner() ==> C::offered(before.below(), contact, after.below()),
        contact.id == before.owner() ==> after.below() == before.below() && after.sibling_set()
            == before.sibling_set(),
{
}

/// Over buckets, a contact other than ourselves is held once it was offered,
/// whoever the siblings are: by the bucket of its id, unless that is full of
/// other nodes. Nobody whom a bucket holds is lost to it.
pub proof fn lemma_an_offered_contact_is_held<
    const BUCKET_SIZE: usize,
    const SEARCH_SHIFT: usize,
    const MAX_BUCKETS: usize,
    const SIBLINGS: usize,
    const N: usize,
>(
    before: SiblingList<StaticBucket<BUCKET_SIZE, SEARCH_SHIFT, MAX_BUCKETS, N>, SIBLINGS, N>,
    contact: Contact<N>,
    after: SiblingList<StaticBucket<BUCKET_SIZE, SEARCH_SHIFT, MAX_BUCKETS, N>, SIBLINGS, N>,
)
    requires
        before.wf(),
        contact.id != before.owner(),
        contact.id != before.below().owner(),
        SiblingList::<
            StaticBucket<BUCKET_SIZE, SEARCH_SHIFT, MAX_BUCKETS, N>,
            SIBLINGS,
            N,
        >::offered(before, contact, after),
    ensures
        ({
            let was = before.below().buckets()[before.below().home(contact.id)];
            let is = after.below().buckets()[before.below().home(contact.id)];
            ||| is.contains(contact)
            ||| is == was && was.len() == BUCKET_SIZE && forall|i: int|
                0 <= i < was.len() ==> (#[trigger] was[i]).id != contact.id
        }),
        forall|b: int, i: int|
            0 <= b < before.below().buckets().len() && 0 <= i < before.below().buckets()[b].len()
                ==> {
                &&& i < after.below().buckets()[b].len()
                &&& after.below().buckets()[b][i].id == (
                #[trigger] before.below().buckets()[b][i]).id
            },
{
    lemma_every_offer_goes_below(before, contact, after);
    static_bucket::lemma_an_offer_is_taken_where_there_is_room(
        before.below(),
        contact,
        after.below(),
    );
}

/// What the siblings are to start with, and stay: no more than there may be,
/// each farther from us than the one before, and none of them ourselves.
pub proof fn lemma_siblings_are_in_order<C: CloseNodes<N>, const SIBLINGS: usize, const N: usize>(
    list: SiblingList<C, SIBLINGS, N>,
)
    requires
        list.wf(),
    ensures
        list.below().wf(),
        list.sibling_set().len() <= SIBLINGS,
        forall|i: int, j: int|
            0 <= i < j < list.sibling_set().len() ==> metric::distance(
                (#[trigger] list.sibling_set()[i]).id,
                list.owner(),
            ) < metric::distance((#[trigger] list.sibling_set()[j]).id, list.owner()),
        forall|i: int|
            0 <= i < list.sibling_set().len() ==> (#[trigger] list.sibling_set()[i]).id
                != list.owner(),
{
}

/// What an offer does to the siblings: distance to us decides. The contact
/// that was offered and every sibling there was is a sibling afterwards, at the
/// address offered last, or else there are as many as there may be and all of
/// them are nearer. Nobody else becomes one.
pub proof fn lemma_distance_decides_who_is_a_sibling<
    C: CloseNodes<N>,
    const SIBLINGS: usize,
    const N: usize,
>(
    before: SiblingList<C, SIBLINGS, N>,
    contact: Contact<N>,
    after: SiblingList<C, SIBLINGS, N>,
)
    requires
        before.wf(),
        contact.id != before.owner(),
        SiblingList::<C, SIBLINGS, N>::offered(before, contact, after),
    ensures
        after.sibling_set().len() <= SIBLINGS,
        after.sibling_set().contains(contact) || after.sibling_set().len() == SIBLINGS && forall|
            i: int,
        |
            0 <= i < SIBLINGS ==> metric::distance(
                (#[trigger] after.sibling_set()[i]).id,
                before.owner(),
            ) < metric::distance(contact.id, before.owner()),
        forall|n: int|
            0 <= n < before.sibling_set().len() ==> {
                ||| (#[trigger] before.sibling_set()[n]).id == contact.id
                ||| after.sibling_set().contains(before.sibling_set()[n])
                ||| after.sibling_set().len() == SIBLINGS && forall|i: int|
                    0 <= i < SIBLINGS ==> metric::distance(
                        (#[trigger] after.sibling_set()[i]).id,
                        before.owner(),
                    ) < metric::distance(before.sibling_set()[n].id, before.owner())
            },
        forall|other: Contact<N>| #[trigger]
            after.sibling_set().contains(other) ==> other == contact || (
            before.sibling_set().contains(other) && other.id != contact.id),
{
    let siblings = before.sibling_set();
    let me = before.owner();
    let set = after.sibling_set();
    let most = SIBLINGS as int;
    let pos = lemma_sibling_position(siblings, contact, me);
    lemma_sibling_place(siblings, contact, me, pos);
    lemma_siblings_with(siblings, contact, me, most);
    if order::lists(siblings, contact.id) {
        assert forall|i: int| 0 <= i < set.len() implies #[trigger] set[i] == if i == pos {
            contact
        } else {
            siblings[i]
        } by {}
        assert(set[pos] == contact);
        assert forall|n: int|
            0 <= n < siblings.len() && (#[trigger] siblings[n]).id != contact.id implies set.contains(
            siblings[n],
        ) by {
            assert(set[n] == siblings[n]);
        }
        assert forall|other: Contact<N>| #[trigger] set.contains(other) implies other == contact || (
        siblings.contains(other) && other.id != contact.id) by {
            let i = choose|i: int| 0 <= i < set.len() && set[i] == other;
            if i != pos {
                assert(siblings[i] == other);
                assert(siblings[i].id != contact.id);
            }
        }
    } else {
        let whole = siblings.insert(pos, contact);
        lemma_insert_is_ordered(siblings, contact, me, pos);
        assert forall|i: int| 0 <= i < set.len() implies #[trigger] set[i] == whole[i] by {}
        assert(whole[pos] == contact);
        if pos < set.len() {
            assert(set[pos] == contact);
        } else {
            assert forall|i: int| 0 <= i < SIBLINGS implies metric::distance(
                (#[trigger] set[i]).id,
                me,
            ) < metric::distance(contact.id, me) by {
                assert(set[i] == whole[i]);
            }
        }
        assert forall|n: int| 0 <= n < siblings.len() implies {
            ||| (#[trigger] siblings[n]).id == contact.id
            ||| set.contains(siblings[n])
            ||| set.len() == SIBLINGS && forall|i: int|
                0 <= i < SIBLINGS ==> metric::distance((#[trigger] set[i]).id, me)
                    < metric::distance(siblings[n].id, me)
        } by {
            let m = if n < pos {
                n
            } else {
                n + 1
            };
            assert(whole[m] == siblings[n]);
            if m < set.len() {
                assert(set[m] == siblings[n]);
            } else {
                assert forall|i: int| 0 <= i < SIBLINGS implies metric::distance(
                    (#[trigger] set[i]).id,
                    me,
                ) < metric::distance(siblings[n].id, me) by {
                    assert(set[i] == whole[i]);
                }
            }
        }
        assert forall|other: Contact<N>| #[trigger] set.contains(other) implies other == contact || (
        siblings.contains(other) && other.id != contact.id) by {
            let i = choose|i: int| 0 <= i < set.len() && set[i] == other;
            if i < pos {
                assert(siblings[i] == other);
            } else if i > pos {
                assert(siblings[i - 1] == other);
            }
            if other != contact {
                let n = choose|n: int| 0 <= n < siblings.len() && siblings[n] == other;
                assert(siblings[n].id != contact.id);
            }
        }
    }
}

} // verus!
