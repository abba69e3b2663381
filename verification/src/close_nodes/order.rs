//! Putting contacts in order of their distance to a target.

use crate::close_nodes::metric;
use crate::close_nodes::{is_closer, same_id, Contact};
use vstd::prelude::*;

verus! {

/// Put `contact` into an ordered list: behind everything that is at least as
/// close to `target` as it is, and ahead of the rest.
pub open spec fn place<const N: usize>(
    ordered: Seq<Contact<N>>,
    contact: Contact<N>,
    target: [u8; N],
) -> Seq<Contact<N>>
    decreases ordered.len(),
{
    if ordered.len() == 0 || metric::distance(ordered.last().id, target) <= metric::distance(
        contact.id,
        target,
    ) {
        ordered.push(contact)
    } else {
        place(ordered.drop_last(), contact, target).push(ordered.last())
    }
}

/// `contacts`, closest to `target` first. Contacts that are equally close
/// stay in the order they came in.
pub open spec fn by_distance<const N: usize>(contacts: Seq<Contact<N>>, target: [u8; N]) -> Seq<
    Contact<N>,
>
    decreases contacts.len(),
{
    if contacts.len() == 0 {
        contacts
    } else {
        place(by_distance(contacts.drop_last(), target), contacts.last(), target)
    }
}

/// `contacts` with every contact dropped that follows one of the same id.
pub open spec fn dedup<const N: usize>(contacts: Seq<Contact<N>>) -> Seq<Contact<N>>
    decreases contacts.len(),
{
    if contacts.len() <= 1 {
        contacts
    } else {
        let kept = dedup(contacts.drop_last());
        if kept.last().id == contacts.last().id {
            kept
        } else {
            kept.push(contacts.last())
        }
    }
}

/// At most the first `k` contacts.
pub open spec fn at_most<const N: usize>(contacts: Seq<Contact<N>>, k: int) -> Seq<Contact<N>> {
    if contacts.len() <= k {
        contacts
    } else {
        contacts.take(k)
    }
}

/// The `k` contacts closest to `target`, closest first.
pub open spec fn nearest<const N: usize>(
    contacts: Seq<Contact<N>>,
    target: [u8; N],
    k: int,
) -> Seq<Contact<N>> {
    at_most(by_distance(contacts, target), k)
}

/// The `k` ids closest to `target`, closest first, each with the contact
/// that was listed first under it.
pub open spec fn nearest_ids<const N: usize>(
    contacts: Seq<Contact<N>>,
    target: [u8; N],
    k: int,
) -> Seq<Contact<N>> {
    at_most(dedup(by_distance(contacts, target)), k)
}

/// No contact is followed by one that is closer to `target`.
pub open spec fn ordered<const N: usize>(contacts: Seq<Contact<N>>, target: [u8; N]) -> bool {
    forall|i: int, j: int|
        0 <= i <= j < contacts.len() ==> metric::distance(#[trigger] contacts[i].id, target)
            <= metric::distance(#[trigger] contacts[j].id, target)
}

/// Some contact in the list has this id.
pub open spec fn lists<const N: usize>(contacts: Seq<Contact<N>>, id: [u8; N]) -> bool {
    exists|i: int| 0 <= i < contacts.len() && #[trigger] contacts[i].id == id
}

/// No id is listed twice.
pub open spec fn distinct<const N: usize>(contacts: Seq<Contact<N>>) -> bool {
    forall|i: int, j: int|
        0 <= i < j < contacts.len() ==> #[trigger] contacts[i].id != #[trigger] contacts[j].id
}

/// Where `place` puts a contact: `at` has everything strictly farther behind
/// it, and nothing strictly farther ahead of it.
pub proof fn lemma_place_is_insert<const N: usize>(
    contacts: Seq<Contact<N>>,
    contact: Contact<N>,
    target: [u8; N],
    at: int,
)
    requires
        0 <= at <= contacts.len(),
        at > 0 ==> metric::distance(contacts[at - 1].id, target) <= metric::distance(
            contact.id,
            target,
        ),
        forall|j: int|
            at <= j < contacts.len() ==> metric::distance(#[trigger] contacts[j].id, target)
                > metric::distance(contact.id, target),
    ensures
        place(contacts, contact, target) == contacts.insert(at, contact),
    decreases contacts.len(),
{
    if at == contacts.len() {
        assert(contacts.insert(at, contact) =~= contacts.push(contact));
    } else {
        assert(metric::distance(contacts[contacts.len() - 1].id, target) > metric::distance(
            contact.id,
            target,
        ));
        lemma_place_is_insert(contacts.drop_last(), contact, target, at);
        assert(contacts.insert(at, contact) =~= contacts.drop_last().insert(at, contact).push(
            contacts.last(),
        ));
    }
}

/// Put `contacts` in order of their distance to `target`, closest first.
pub fn sort_by_distance<const N: usize>(contacts: &mut Vec<Contact<N>>, target: [u8; N])
    ensures
        final(contacts)@ == by_distance(old(contacts)@, target),
{
    let mut sorted: Vec<Contact<N>> = Vec::with_capacity(contacts.len());
    let mut i: usize = 0;
    while i < contacts.len()
        invariant
            i <= contacts@.len(),
            contacts@ == old(contacts)@,
            sorted@.len() == i,
            sorted@ == by_distance(contacts@.take(i as int), target),
        decreases contacts.len() - i,
    {
        let contact: Contact<N> = contacts[i];
        let mut at: usize = sorted.len();
        while at > 0 && is_closer(contact.id, sorted[at - 1].id, target)
            invariant
                at <= sorted@.len(),
                forall|j: int|
                    at <= j < sorted@.len() ==> metric::distance(#[trigger] sorted@[j].id, target)
                        > metric::distance(contact.id, target),
            decreases at,
        {
            at = at - 1;
        }
        proof {
            lemma_place_is_insert(sorted@, contact, target, at as int);
            assert(contacts@.take(i + 1).drop_last() =~= contacts@.take(i as int));
        }
        sorted.insert(at, contact);
        i = i + 1;
    }
    assert(contacts@.take(i as int) =~= contacts@);
    *contacts = sorted;
}

proof fn lemma_dedup_keeps_the_last<const N: usize>(contacts: Seq<Contact<N>>)
    requires
        contacts.len() > 0,
    ensures
        dedup(contacts).len() > 0,
        dedup(contacts).len() <= contacts.len(),
        dedup(contacts).last().id == contacts.last().id,
    decreases contacts.len(),
{
    if contacts.len() > 1 {
        lemma_dedup_keeps_the_last(contacts.drop_last());
    }
}

/// Drop every contact that follows one of the same id.
pub fn dedup_ids<const N: usize>(contacts: &mut Vec<Contact<N>>)
    ensures
        final(contacts)@ == dedup(old(contacts)@),
{
    let mut kept: Vec<Contact<N>> = Vec::with_capacity(contacts.len());
    let mut i: usize = 0;
    while i < contacts.len()
        invariant
            i <= contacts@.len(),
            contacts@ == old(contacts)@,
            i > 0 ==> kept@.len() > 0,
            kept@ == dedup(contacts@.take(i as int)),
        decreases contacts.len() - i,
    {
        let contact: Contact<N> = contacts[i];
        proof {
            assert(contacts@.take(i + 1).drop_last() =~= contacts@.take(i as int));
            lemma_dedup_keeps_the_last(contacts@.take(i + 1));
        }
        if kept.len() == 0 || !same_id(&kept[kept.len() - 1].id, &contact.id) {
            kept.push(contact);
        }
        proof {
            assert(kept@ =~= dedup(contacts@.take(i + 1)));
        }
        i = i + 1;
    }
    assert(contacts@.take(i as int) =~= contacts@);
    *contacts = kept;
}

/// Keep the `k` contacts closest to `target`, closest first.
pub fn keep_nearest<const N: usize>(contacts: &mut Vec<Contact<N>>, target: [u8; N], k: usize)
    ensures
        final(contacts)@ == nearest(old(contacts)@, target, k as int),
{
    sort_by_distance(contacts, target);
    contacts.truncate(k);
}

/// Keep the `k` ids closest to `target`, closest first, each with the contact
/// that was listed first under it.
pub fn keep_nearest_ids<const N: usize>(contacts: &mut Vec<Contact<N>>, target: [u8; N], k: usize)
    ensures
        final(contacts)@ == nearest_ids(old(contacts)@, target, k as int),
{
    sort_by_distance(contacts, target);
    dedup_ids(contacts);
    contacts.truncate(k);
}

/// The contacts listed under `id`, in the order they are listed.
pub open spec fn listed_as<const N: usize>(contacts: Seq<Contact<N>>, id: [u8; N]) -> Seq<
    Contact<N>,
> {
    contacts.filter(|contact: Contact<N>| contact.id == id)
}

/// `out` holds the `k` ids closest to `target` of those that `contacts`
/// lists: strictly closest first, each with the contact listed first under
/// it, and nothing left out but for ids farther than all `k` of them.
pub open spec fn is_nearest_ids<const N: usize>(
    out: Seq<Contact<N>>,
    contacts: Seq<Contact<N>>,
    target: [u8; N],
    k: int,
) -> bool {
    &&& out.len() <= k
    &&& forall|i: int, j: int|
        0 <= i < j < out.len() ==> metric::distance(#[trigger] out[i].id, target)
            < metric::distance(#[trigger] out[j].id, target)
    &&& forall|i: int|
        0 <= i < out.len() ==> lists(contacts, #[trigger] out[i].id) && out[i] == listed_as(
            contacts,
            out[i].id,
        )[0]
    &&& forall|i: int|
        0 <= i < contacts.len() ==> lists(out, #[trigger] contacts[i].id) || (out.len() == k
            && forall|j: int|
            0 <= j < out.len() ==> metric::distance(#[trigger] out[j].id, target)
                < metric::distance(contacts[i].id, target))
}

proof fn lemma_listed_as_push<const N: usize>(
    contacts: Seq<Contact<N>>,
    contact: Contact<N>,
    id: [u8; N],
)
    ensures
        listed_as(contacts.push(contact), id) == if contact.id == id {
            listed_as(contacts, id).push(contact)
        } else {
            listed_as(contacts, id)
        },
{
    reveal(Seq::filter);
    assert(contacts.push(contact).drop_last() =~= contacts);
}

proof fn lemma_lists_push<const N: usize>(
    contacts: Seq<Contact<N>>,
    contact: Contact<N>,
    id: [u8; N],
)
    ensures
        lists(contacts.push(contact), id) <==> lists(contacts, id) || contact.id == id,
{
    let more = contacts.push(contact);
    if lists(contacts, id) {
        let i = choose|i: int| 0 <= i < contacts.len() && #[trigger] contacts[i].id == id;
        assert(more[i].id == id);
    }
    if contact.id == id {
        assert(more[contacts.len() as int].id == id);
    }
    if lists(more, id) {
        let i = choose|i: int| 0 <= i < more.len() && #[trigger] more[i].id == id;
        if i < contacts.len() {
            assert(contacts[i].id == id);
        }
    }
}

/// An id is listed exactly if something is listed under it, and what is
/// listed under an id has that id.
pub proof fn lemma_listed_as<const N: usize>(contacts: Seq<Contact<N>>, id: [u8; N])
    ensures
        lists(contacts, id) <==> listed_as(contacts, id).len() > 0,
        forall|i: int|
            0 <= i < listed_as(contacts, id).len() ==> (#[trigger] listed_as(contacts, id)[i]).id
                == id,
    decreases contacts.len(),
{
    reveal(Seq::filter);
    if contacts.len() > 0 {
        let fewer = contacts.drop_last();
        assert(contacts =~= fewer.push(contacts.last()));
        lemma_listed_as(fewer, id);
        lemma_listed_as_push(fewer, contacts.last(), id);
        lemma_lists_push(fewer, contacts.last(), id);
    }
}

proof fn lemma_place<const N: usize>(
    contacts: Seq<Contact<N>>,
    contact: Contact<N>,
    target: [u8; N],
)
    requires
        ordered(contacts, target),
    ensures
        place(contacts, contact, target).len() == contacts.len() + 1,
        place(contacts, contact, target).to_multiset() == contacts.push(contact).to_multiset(),
        ordered(place(contacts, contact, target), target),
        forall|i: int|
            0 <= i <= contacts.len() ==> {
                ||| (#[trigger] place(contacts, contact, target)[i]) == contact
                ||| exists|j: int|
                    0 <= j < contacts.len() && #[trigger] contacts[j] == place(
                        contacts,
                        contact,
                        target,
                    )[i]
            },
        forall|id: [u8; N]| #[trigger]
            listed_as(place(contacts, contact, target), id) == listed_as(
                contacts.push(contact),
                id,
            ),
    decreases contacts.len(),
{
    let placed = place(contacts, contact, target);
    if contacts.len() == 0 || metric::distance(contacts.last().id, target) <= metric::distance(
        contact.id,
        target,
    ) {
        assert(placed == contacts.push(contact));
        assert forall|i: int, j: int| 0 <= i <= j < placed.len() implies metric::distance(
            #[trigger] placed[i].id,
            target,
        ) <= metric::distance(#[trigger] placed[j].id, target) by {
            if i < contacts.len() {
                assert(metric::distance(contacts[i].id, target) <= metric::distance(
                    contacts[contacts.len() - 1].id,
                    target,
                ));
            }
        }
        assert forall|i: int| 0 <= i <= contacts.len() implies (#[trigger] placed[i]) == contact
            || exists|j: int|
            0 <= j < contacts.len() && #[trigger] contacts[j] == placed[i] by {
            if i < contacts.len() {
                assert(contacts[i] == placed[i]);
            }
        }
    } else {
        let fewer = contacts.drop_last();
        let last = contacts.last();
        let sub = place(fewer, contact, target);
        lemma_place(fewer, contact, target);
        assert(placed == sub.push(last));
        assert(contacts =~= fewer.push(last));
        assert forall|i: int| 0 <= i <= contacts.len() implies (#[trigger] placed[i]) == contact
            || exists|j: int|
            0 <= j < contacts.len() && #[trigger] contacts[j] == placed[i] by {
            if i < sub.len() {
                assert(sub[i] == placed[i]);
                if sub[i] != contact {
                    let j = choose|j: int| 0 <= j < fewer.len() && #[trigger] fewer[j] == sub[i];
                    assert(contacts[j] == placed[i]);
                }
            } else {
                assert(contacts[contacts.len() - 1] == placed[i]);
            }
        }
        assert forall|i: int, j: int| 0 <= i <= j < placed.len() implies metric::distance(
            #[trigger] placed[i].id,
            target,
        ) <= metric::distance(#[trigger] placed[j].id, target) by {
            if j < sub.len() {
                assert(sub[i] == placed[i] && sub[j] == placed[j]);
            } else if i < sub.len() {
                assert(placed[j] == last);
                if placed[i] != contact {
                    let m = choose|m: int|
                        0 <= m < contacts.len() && #[trigger] contacts[m] == placed[i];
                    assert(metric::distance(contacts[m].id, target) <= metric::distance(
                        contacts[contacts.len() - 1].id,
                        target,
                    ));
                }
            }
        }
        assert(placed.to_multiset() =~= contacts.push(contact).to_multiset()) by {
            vstd::seq_lib::to_multiset_build(sub, last);
            vstd::seq_lib::to_multiset_build(fewer, contact);
            vstd::seq_lib::to_multiset_build(fewer, last);
            vstd::seq_lib::to_multiset_build(contacts, contact);
        }
        assert forall|id: [u8; N]| #[trigger]
            listed_as(placed, id) == listed_as(contacts.push(contact), id) by {
            lemma_listed_as_push(sub, last, id);
            lemma_listed_as_push(fewer, contact, id);
            lemma_listed_as_push(fewer, last, id);
            lemma_listed_as_push(contacts, contact, id);
            assert(listed_as(sub, id) == listed_as(fewer.push(contact), id));
        }
    }
}

/// Sorting by distance loses and adds nothing, puts closer contacts first,
/// and keeps the contacts of one id in the order they came in.
pub proof fn lemma_by_distance<const N: usize>(contacts: Seq<Contact<N>>, target: [u8; N])
    ensures
        by_distance(contacts, target).len() == contacts.len(),
        by_distance(contacts, target).to_multiset() == contacts.to_multiset(),
        ordered(by_distance(contacts, target), target),
        forall|id: [u8; N]| #[trigger]
            listed_as(by_distance(contacts, target), id) == listed_as(contacts, id),
    decreases contacts.len(),
{
    if contacts.len() > 0 {
        let fewer = contacts.drop_last();
        let sorted = by_distance(fewer, target);
        lemma_by_distance(fewer, target);
        lemma_place(sorted, contacts.last(), target);
        assert(contacts =~= fewer.push(contacts.last()));
        vstd::seq_lib::to_multiset_build(sorted, contacts.last());
        vstd::seq_lib::to_multiset_build(fewer, contacts.last());
        assert forall|id: [u8; N]| #[trigger]
            listed_as(by_distance(contacts, target), id) == listed_as(contacts, id) by {
            lemma_listed_as_push(sorted, contacts.last(), id);
            lemma_listed_as_push(fewer, contacts.last(), id);
            assert(listed_as(sorted, id) == listed_as(fewer, id));
            assert(listed_as(place(sorted, contacts.last(), target), id) == listed_as(
                sorted.push(contacts.last()),
                id,
            ));
        }
    }
}

proof fn lemma_dedup<const N: usize>(contacts: Seq<Contact<N>>, target: [u8; N])
    requires
        ordered(contacts, target),
    ensures
        forall|i: int, j: int|
            0 <= i < j < dedup(contacts).len() ==> metric::distance(
                #[trigger] dedup(contacts)[i].id,
                target,
            ) < metric::distance(#[trigger] dedup(contacts)[j].id, target),
        forall|i: int|
            0 <= i < dedup(contacts).len() ==> lists(contacts, #[trigger] dedup(contacts)[i].id)
                && dedup(contacts)[i] == listed_as(contacts, dedup(contacts)[i].id)[0],
        forall|i: int|
            0 <= i < contacts.len() ==> lists(dedup(contacts), #[trigger] contacts[i].id),
    decreases contacts.len(),
{
    let out = dedup(contacts);
    if contacts.len() == 1 {
        assert(contacts =~= Seq::<Contact<N>>::empty().push(contacts[0]));
        lemma_listed_as_push(Seq::empty(), contacts[0], contacts[0].id);
        reveal(Seq::filter);
        assert(listed_as(Seq::<Contact<N>>::empty(), contacts[0].id) =~= Seq::empty());
    } else if contacts.len() > 1 {
        let fewer = contacts.drop_last();
        let last = contacts.last();
        let kept = dedup(fewer);
        lemma_dedup(fewer, target);
        lemma_dedup_keeps_the_last(fewer);
        assert(contacts =~= fewer.push(last));
        assert(metric::distance(contacts[contacts.len() - 2].id, target) <= metric::distance(
            contacts[contacts.len() - 1].id,
            target,
        ));
        metric::lemma_distance_injective(fewer.last().id, last.id, target);
        assert forall|i: int| 0 <= i < kept.len() implies lists(contacts, #[trigger] kept[i].id)
            && kept[i] == listed_as(contacts, kept[i].id)[0] by {
            lemma_lists_push(fewer, last, kept[i].id);
            lemma_listed_as_push(fewer, last, kept[i].id);
            lemma_listed_as(fewer, kept[i].id);
        }
        if kept.last().id == last.id {
            assert forall|i: int| 0 <= i < contacts.len() implies lists(
                out,
                #[trigger] contacts[i].id,
            ) by {
                if i < fewer.len() {
                    assert(contacts[i] == fewer[i]);
                } else {
                    assert(kept[kept.len() - 1].id == last.id);
                }
            }
        } else {
            assert(!lists(fewer, last.id)) by {
                if lists(fewer, last.id) {
                    let i = choose|i: int| 0 <= i < fewer.len() && #[trigger] fewer[i].id == last.id;
                    assert(metric::distance(contacts[i].id, target) <= metric::distance(
                        contacts[contacts.len() - 2].id,
                        target,
                    ));
                }
            }
            lemma_listed_as(fewer, last.id);
            lemma_listed_as_push(fewer, last, last.id);
            lemma_lists_push(fewer, last, last.id);
            assert forall|i: int, j: int| 0 <= i < j < out.len() implies metric::distance(
                #[trigger] out[i].id,
                target,
            ) < metric::distance(#[trigger] out[j].id, target) by {
                if j == kept.len() {
                    if i < kept.len() - 1 {
                        assert(metric::distance(kept[i].id, target) < metric::distance(
                            kept[kept.len() - 1].id,
                            target,
                        ));
                    }
                }
            }
            assert forall|i: int| 0 <= i < out.len() implies lists(contacts, #[trigger] out[i].id)
                && out[i] == listed_as(contacts, out[i].id)[0] by {
                if i < kept.len() {
                    assert(out[i] == kept[i]);
                }
            }
            assert forall|i: int| 0 <= i < contacts.len() implies lists(
                out,
                #[trigger] contacts[i].id,
            ) by {
                lemma_lists_push(kept, last, contacts[i].id);
                if i < fewer.len() {
                    assert(contacts[i] == fewer[i]);
                }
            }
        }
    }
}

/// What `nearest_ids` picks are the `k` nearest ids, and the contact listed
/// first speaks for an id.
pub proof fn lemma_nearest_ids<const N: usize>(
    contacts: Seq<Contact<N>>,
    target: [u8; N],
    k: int,
)
    requires
        k >= 0,
    ensures
        is_nearest_ids(nearest_ids(contacts, target, k), contacts, target, k),
{
    let sorted = by_distance(contacts, target);
    let whole = dedup(sorted);
    let out = nearest_ids(contacts, target, k);
    lemma_by_distance(contacts, target);
    lemma_dedup(sorted, target);
    assert forall|i: int| 0 <= i < out.len() implies lists(contacts, #[trigger] out[i].id)
        && out[i] == listed_as(contacts, out[i].id)[0] by {
        assert(out[i] == whole[i]);
        lemma_listed_as(sorted, out[i].id);
        lemma_listed_as(contacts, out[i].id);
        assert(listed_as(sorted, out[i].id) == listed_as(contacts, out[i].id));
    }
    assert forall|i: int, j: int| 0 <= i < j < out.len() implies metric::distance(
        #[trigger] out[i].id,
        target,
    ) < metric::distance(#[trigger] out[j].id, target) by {
        assert(out[i] == whole[i] && out[j] == whole[j]);
    }
    assert forall|i: int| 0 <= i < contacts.len() implies lists(out, #[trigger] contacts[i].id) || (
    out.len() == k && forall|j: int|
        0 <= j < out.len() ==> metric::distance(#[trigger] out[j].id, target) < metric::distance(
            contacts[i].id,
            target,
        )) by {
        let id = contacts[i].id;
        lemma_listed_as(contacts, id);
        lemma_listed_as(sorted, id);
        assert(lists(contacts, id));
        assert(listed_as(sorted, id) == listed_as(contacts, id));
        let m = choose|m: int| 0 <= m < sorted.len() && #[trigger] sorted[m].id == id;
        assert(lists(whole, sorted[m].id));
        let n = choose|n: int| 0 <= n < whole.len() && #[trigger] whole[n].id == id;
        if n < k {
            assert(out[n].id == id);
        } else {
            assert forall|j: int| 0 <= j < out.len() implies metric::distance(
                #[trigger] out[j].id,
                target,
            ) < metric::distance(id, target) by {
                assert(out[j] == whole[j]);
            }
        }
    }
}

/// Nothing but one list is the `k` nearest ids.
pub proof fn lemma_nearest_ids_unique<const N: usize>(
    one: Seq<Contact<N>>,
    other: Seq<Contact<N>>,
    contacts: Seq<Contact<N>>,
    target: [u8; N],
    k: int,
)
    requires
        is_nearest_ids(one, contacts, target, k),
        is_nearest_ids(other, contacts, target, k),
    ensures
        one == other,
{
    lemma_nearest_ids_prefix(one, other, contacts, target, k, one.len() as int);
    lemma_nearest_ids_prefix(other, one, contacts, target, k, other.len() as int);
    assert(one =~= other);
}

proof fn lemma_nearest_ids_prefix<const N: usize>(
    one: Seq<Contact<N>>,
    other: Seq<Contact<N>>,
    contacts: Seq<Contact<N>>,
    target: [u8; N],
    k: int,
    n: int,
)
    requires
        is_nearest_ids(one, contacts, target, k),
        is_nearest_ids(other, contacts, target, k),
        0 <= n <= one.len(),
    ensures
        n <= other.len(),
        forall|i: int| 0 <= i < n ==> one[i] == other[i],
    decreases n,
{
    if n > 0 {
        let i = n - 1;
        lemma_nearest_ids_prefix(one, other, contacts, target, k, i);
        let x = one[i].id;
        assert(lists(contacts, one[i].id));
        let s = choose|s: int| 0 <= s < contacts.len() && #[trigger] contacts[s].id == x;
        assert(lists(other, contacts[s].id) || other.len() == k);
        assert(other.len() > i) by {
            if other.len() <= i {
                assert(lists(other, x));
                let m = choose|m: int| 0 <= m < other.len() && #[trigger] other[m].id == x;
                assert(one[m] == other[m]);
                assert(metric::distance(one[m].id, target) < metric::distance(one[i].id, target));
            }
        }
        let y = other[i].id;
        assert(lists(contacts, other[i].id));
        let r = choose|r: int| 0 <= r < contacts.len() && #[trigger] contacts[r].id == y;
        metric::lemma_distance_injective(x, y, target);
        assert(metric::distance(x, target) <= metric::distance(y, target)) by {
            if metric::distance(y, target) < metric::distance(x, target) {
                assert(lists(one, contacts[r].id) || forall|j: int|
                    0 <= j < one.len() ==> metric::distance(#[trigger] one[j].id, target)
                        < metric::distance(y, target));
                assert(metric::distance(one[i].id, target) >= metric::distance(y, target));
                let m = choose|m: int| 0 <= m < one.len() && #[trigger] one[m].id == y;
                if m < i {
                    assert(one[m] == other[m]);
                    assert(metric::distance(other[m].id, target) < metric::distance(
                        other[i].id,
                        target,
                    ));
                } else if m > i {
                    assert(metric::distance(one[i].id, target) < metric::distance(
                        one[m].id,
                        target,
                    ));
                }
            }
        }
        assert(metric::distance(y, target) <= metric::distance(x, target)) by {
            if metric::distance(x, target) < metric::distance(y, target) {
                assert(metric::distance(other[i].id, target) >= metric::distance(x, target));
                let m = choose|m: int| 0 <= m < other.len() && #[trigger] other[m].id == x;
                if m < i {
                    assert(one[m] == other[m]);
                    assert(metric::distance(one[m].id, target) < metric::distance(
                        one[i].id,
                        target,
                    ));
                } else if m > i {
                    assert(metric::distance(other[i].id, target) < metric::distance(
                        other[m].id,
                        target,
                    ));
                }
            }
        }
    }
}

/// A list made of two lists what either does.
pub proof fn lemma_lists_concat<const N: usize>(a: Seq<Contact<N>>, b: Seq<Contact<N>>, id: [u8; N])
    ensures
        lists(a + b, id) <==> lists(a, id) || lists(b, id),
{
    let s = a + b;
    if lists(a, id) {
        let i = choose|i: int| 0 <= i < a.len() && #[trigger] a[i].id == id;
        assert(s[i].id == id);
    }
    if lists(b, id) {
        let i = choose|i: int| 0 <= i < b.len() && #[trigger] b[i].id == id;
        assert(s[a.len() + i].id == id);
    }
    if lists(s, id) {
        let i = choose|i: int| 0 <= i < s.len() && #[trigger] s[i].id == id;
        if i < a.len() {
            assert(a[i].id == id);
        } else {
            assert(b[i - a.len()].id == id);
        }
    }
}

/// What a list made of two has under an id: what the first has, then what the
/// second has.
pub proof fn lemma_listed_as_concat<const N: usize>(
    a: Seq<Contact<N>>,
    b: Seq<Contact<N>>,
    id: [u8; N],
)
    ensures
        listed_as(a + b, id) == listed_as(a, id) + listed_as(b, id),
    decreases b.len(),
{
    reveal(Seq::filter);
    if b.len() == 0 {
        assert(a + b =~= a);
        assert(listed_as(a, id) + listed_as(b, id) =~= listed_as(a, id));
    } else {
        let fewer = b.drop_last();
        lemma_listed_as_concat(a, fewer, id);
        assert(a + b =~= (a + fewer).push(b.last()));
        assert(b =~= fewer.push(b.last()));
        lemma_listed_as_push(a + fewer, b.last(), id);
        lemma_listed_as_push(fewer, b.last(), id);
        assert(listed_as(a + b, id) =~= listed_as(a, id) + listed_as(b, id));
    }
}

/// Contacts at ever greater distances are all different.
pub proof fn lemma_strict_is_distinct<const N: usize>(contacts: Seq<Contact<N>>, target: [u8; N])
    requires
        forall|i: int, j: int|
            0 <= i < j < contacts.len() ==> metric::distance(#[trigger] contacts[i].id, target)
                < metric::distance(#[trigger] contacts[j].id, target),
    ensures
        distinct(contacts),
{
}

/// Where no id is listed twice, an id speaks for one contact.
pub proof fn lemma_listed_as_one<const N: usize>(contacts: Seq<Contact<N>>, j: int)
    requires
        distinct(contacts),
        0 <= j < contacts.len(),
    ensures
        listed_as(contacts, contacts[j].id) == seq![contacts[j]],
    decreases contacts.len(),
{
    let fewer = contacts.drop_last();
    let last = contacts.last();
    let id = contacts[j].id;
    assert(contacts =~= fewer.push(last));
    lemma_listed_as_push(fewer, last, id);
    lemma_listed_as(fewer, id);
    if j < fewer.len() {
        lemma_listed_as_one(fewer, j);
        assert(contacts[j].id != contacts[contacts.len() - 1].id);
    } else {
        assert(!lists(fewer, id)) by {
            if lists(fewer, id) {
                let i = choose|i: int| 0 <= i < fewer.len() && #[trigger] fewer[i].id == id;
                assert(contacts[i].id != contacts[j].id);
            }
        }
        assert(listed_as(fewer, id) =~= Seq::empty());
    }
    assert(listed_as(contacts, id) =~= seq![contacts[j]]);
}

/// Contacts that are strictly in order stand no earlier in a longer list that
/// is strictly in order too.
proof fn lemma_order_embeds<const N: usize>(
    few: Seq<Contact<N>>,
    many: Seq<Contact<N>>,
    target: [u8; N],
    i: int,
) -> (place: int)
    requires
        forall|i: int, j: int|
            0 <= i < j < few.len() ==> metric::distance(#[trigger] few[i].id, target)
                < metric::distance(#[trigger] few[j].id, target),
        forall|i: int, j: int|
            0 <= i < j < many.len() ==> metric::distance(#[trigger] many[i].id, target)
                < metric::distance(#[trigger] many[j].id, target),
        forall|i: int| 0 <= i < few.len() ==> lists(many, #[trigger] few[i].id),
        0 <= i < few.len(),
    ensures
        i <= place < many.len(),
        many[place].id == few[i].id,
    decreases i,
{
    assert(lists(many, few[i].id));
    let place = choose|m: int| 0 <= m < many.len() && #[trigger] many[m].id == few[i].id;
    if i > 0 {
        let before = lemma_order_embeds(few, many, target, i - 1);
        assert(metric::distance(few[i - 1].id, target) < metric::distance(few[i].id, target));
        if place < before {
            assert(metric::distance(many[place].id, target) < metric::distance(
                many[before].id,
                target,
            ));
        }
    }
    place
}

/// Once `k` ids are known that are all closer than `bound`, the `k` nearest
/// of those and any others are `k` ids that are all closer than `bound`.
proof fn lemma_beyond_kept<const N: usize>(
    out: Seq<Contact<N>>,
    kept: Seq<Contact<N>>,
    more: Seq<Contact<N>>,
    target: [u8; N],
    k: int,
    bound: nat,
)
    requires
        is_nearest_ids(out, kept + more, target, k),
        kept.len() == k,
        forall|i: int, j: int|
            0 <= i < j < kept.len() ==> metric::distance(#[trigger] kept[i].id, target)
                < metric::distance(#[trigger] kept[j].id, target),
        forall|i: int|
            0 <= i < kept.len() ==> metric::distance(#[trigger] kept[i].id, target) < bound,
    ensures
        out.len() == k,
        forall|j: int|
            0 <= j < out.len() ==> metric::distance(#[trigger] out[j].id, target) < bound,
{
    let both = kept + more;
    if k > 0 {
        if out.len() < k {
            assert forall|i: int| 0 <= i < kept.len() implies lists(out, #[trigger] kept[i].id) by {
                assert(both[i] == kept[i]);
            }
            let last = lemma_order_embeds(kept, out, target, k - 1);
        }
        assert forall|j: int| 0 <= j < out.len() implies metric::distance(
            #[trigger] out[j].id,
            target,
        ) < bound by {
            if metric::distance(out[j].id, target) >= bound {
                assert forall|i: int| 0 <= i < kept.len() implies lists(
                    out,
                    #[trigger] kept[i].id,
                ) by {
                    assert(both[i] == kept[i]);
                }
                let last = lemma_order_embeds(kept, out, target, k - 1);
                assert(metric::distance(out[last].id, target) < bound);
                assert(j < last);
                assert(metric::distance(out[j].id, target) < metric::distance(
                    out[last].id,
                    target,
                ));
            }
        }
    }
}

/// Keeping only the nearest so far forgets nothing that matters: the `k`
/// nearest ids of a list and more are the `k` nearest of its own `k` nearest
/// and more.
pub proof fn lemma_nearest_ids_absorbs<const N: usize>(
    seen: Seq<Contact<N>>,
    more: Seq<Contact<N>>,
    target: [u8; N],
    k: int,
)
    requires
        k >= 0,
    ensures
        nearest_ids(nearest_ids(seen, target, k) + more, target, k) == nearest_ids(
            seen + more,
            target,
            k,
        ),
{
    let kept = nearest_ids(seen, target, k);
    let out = nearest_ids(kept + more, target, k);
    lemma_nearest_ids(seen, target, k);
    lemma_nearest_ids(kept + more, target, k);
    lemma_nearest_ids(seen + more, target, k);
    let all = seen + more;
    assert forall|i: int| 0 <= i < out.len() implies lists(all, #[trigger] out[i].id) && out[i]
        == listed_as(all, out[i].id)[0] by {
        let id = out[i].id;
        lemma_lists_concat(kept, more, id);
        lemma_lists_concat(seen, more, id);
        lemma_listed_as_concat(kept, more, id);
        lemma_listed_as_concat(seen, more, id);
        lemma_listed_as(kept, id);
        lemma_listed_as(seen, id);
        lemma_listed_as(more, id);
        assert(out[i] == listed_as(kept + more, id)[0]);
        if lists(kept, id) {
            let j = choose|j: int| 0 <= j < kept.len() && #[trigger] kept[j].id == id;
            lemma_strict_is_distinct(kept, target);
            lemma_listed_as_one(kept, j);
            assert(kept[j] == listed_as(seen, id)[0]);
        } else if lists(seen, id) {
            // Left out of `kept`, so `k` ids are closer: it cannot be among
            // the `k` nearest of `kept` and more.
            let s = choose|s: int| 0 <= s < seen.len() && #[trigger] seen[s].id == id;
            assert(!lists(kept, seen[s].id));
            lemma_beyond_kept(out, kept, more, target, k, metric::distance(id, target));
        }
    }
    assert forall|i: int| 0 <= i < all.len() implies lists(out, #[trigger] all[i].id) || (out.len()
        == k && forall|j: int|
        0 <= j < out.len() ==> metric::distance(#[trigger] out[j].id, target) < metric::distance(
            all[i].id,
            target,
        )) by {
        let id = all[i].id;
        let both = kept + more;
        if i >= seen.len() {
            assert(both[kept.len() + (i - seen.len())] == all[i]);
            assert(lists(out, both[kept.len() + (i - seen.len())].id) || out.len() == k);
        } else {
            assert(seen[i] == all[i]);
            if lists(kept, seen[i].id) {
                let j = choose|j: int| 0 <= j < kept.len() && #[trigger] kept[j].id == id;
                assert(both[j] == kept[j]);
                assert(lists(out, both[j].id) || out.len() == k);
            } else if !lists(out, id) {
                lemma_beyond_kept(out, kept, more, target, k, metric::distance(id, target));
            }
        }
    }
    lemma_nearest_ids_unique(out, nearest_ids(all, target, k), all, target, k);
}

/// No id is listed twice exactly if each is listed under one contact at most.
proof fn lemma_distinct_listings<const N: usize>(contacts: Seq<Contact<N>>)
    ensures
        distinct(contacts) <==> forall|id: [u8; N]|
            (#[trigger] listed_as(contacts, id)).len() <= 1,
{
    if distinct(contacts) {
        assert forall|id: [u8; N]| (#[trigger] listed_as(contacts, id)).len() <= 1 by {
            lemma_listed_as(contacts, id);
            if lists(contacts, id) {
                let i = choose|i: int| 0 <= i < contacts.len() && #[trigger] contacts[i].id == id;
                lemma_listed_as_one(contacts, i);
            }
        }
    }
    if forall|id: [u8; N]| (#[trigger] listed_as(contacts, id)).len() <= 1 {
        assert forall|i: int, j: int| 0 <= i < j < contacts.len() implies #[trigger] contacts[i].id
            != #[trigger] contacts[j].id by {
            let id = contacts[j].id;
            if contacts[i].id == id {
                let a = contacts.take(j);
                let b = contacts.skip(j);
                assert(a + b =~= contacts);
                lemma_listed_as_concat(a, b, id);
                lemma_listed_as(a, id);
                lemma_listed_as(b, id);
                assert(a[i].id == id && b[0].id == id);
                assert(listed_as(contacts, id).len() <= 1);
            }
        }
    }
}

/// Sorting lists no id twice that was not.
pub proof fn lemma_by_distance_is_distinct<const N: usize>(
    contacts: Seq<Contact<N>>,
    target: [u8; N],
)
    requires
        distinct(contacts),
    ensures
        distinct(by_distance(contacts, target)),
{
    let sorted = by_distance(contacts, target);
    lemma_by_distance(contacts, target);
    lemma_distinct_listings(contacts);
    lemma_distinct_listings(sorted);
    assert forall|id: [u8; N]| (#[trigger] listed_as(sorted, id)).len() <= 1 by {
        assert(listed_as(contacts, id).len() <= 1);
    }
}

/// The contact listed first under an id: it is in the list, and none ahead of
/// it has that id.
pub proof fn lemma_first_listed<const N: usize>(contacts: Seq<Contact<N>>, id: [u8; N]) -> (at: int)
    requires
        lists(contacts, id),
    ensures
        0 <= at < contacts.len(),
        contacts[at] == listed_as(contacts, id)[0],
        contacts[at].id == id,
        forall|i: int| 0 <= i < at ==> (#[trigger] contacts[i]).id != id,
    decreases contacts.len(),
{
    let fewer = contacts.drop_last();
    let last = contacts.last();
    assert(contacts =~= fewer.push(last));
    lemma_listed_as_push(fewer, last, id);
    lemma_lists_push(fewer, last, id);
    lemma_listed_as(fewer, id);
    if lists(fewer, id) {
        let at = lemma_first_listed(fewer, id);
        assert(contacts[at] == fewer[at]);
        assert forall|i: int| 0 <= i < at implies (#[trigger] contacts[i]).id != id by {
            assert(contacts[i] == fewer[i]);
        }
        at
    } else {
        let at = contacts.len() - 1;
        assert forall|i: int| 0 <= i < at implies (#[trigger] contacts[i]).id != id by {
            assert(contacts[i] == fewer[i]);
        }
        at
    }
}

/// What it is to keep the `k` nearest ids: no more than `k` are kept, each
/// farther from the target than the one before; each kept contact was given,
/// ahead of all others of its id; and whatever was given is kept under its id,
/// unless `k` are kept and every one of them is nearer.
pub proof fn lemma_the_nearest_ids_are_kept<const N: usize>(
    contacts: Seq<Contact<N>>,
    target: [u8; N],
    k: int,
)
    requires
        k >= 0,
    ensures
        nearest_ids(contacts, target, k).len() <= k,
        forall|i: int, j: int|
            0 <= i < j < nearest_ids(contacts, target, k).len() ==> metric::distance(
                (#[trigger] nearest_ids(contacts, target, k)[i]).id,
                target,
            ) < metric::distance((#[trigger] nearest_ids(contacts, target, k)[j]).id, target),
        forall|i: int|
            0 <= i < nearest_ids(contacts, target, k).len() ==> exists|at: int|
                {
                    &&& 0 <= at < contacts.len()
                    &&& #[trigger] contacts[at] == #[trigger] nearest_ids(contacts, target, k)[i]
                    &&& forall|j: int|
                        0 <= j < at ==> (#[trigger] contacts[j]).id != nearest_ids(
                            contacts,
                            target,
                            k,
                        )[i].id
                },
        forall|at: int|
            0 <= at < contacts.len() ==> {
                ||| exists|i: int|
                    0 <= i < nearest_ids(contacts, target, k).len() && (
                    #[trigger] nearest_ids(contacts, target, k)[i]).id == (
                    #[trigger] contacts[at]).id
                ||| nearest_ids(contacts, target, k).len() == k && forall|i: int|
                    0 <= i < k ==> metric::distance(
                        (#[trigger] nearest_ids(contacts, target, k)[i]).id,
                        target,
                    ) < metric::distance(contacts[at].id, target)
            },
{
    let out = nearest_ids(contacts, target, k);
    lemma_nearest_ids(contacts, target, k);
    assert forall|i: int| 0 <= i < out.len() implies exists|at: int|
        {
            &&& 0 <= at < contacts.len()
            &&& #[trigger] contacts[at] == #[trigger] out[i]
            &&& forall|j: int| 0 <= j < at ==> (#[trigger] contacts[j]).id != out[i].id
        } by {
        assert(lists(contacts, out[i].id));
        let at = lemma_first_listed(contacts, out[i].id);
        assert(contacts[at] == out[i]);
    }
    assert forall|at: int| 0 <= at < contacts.len() implies {
        ||| exists|i: int|
            0 <= i < out.len() && (#[trigger] out[i]).id == (#[trigger] contacts[at]).id
        ||| out.len() == k && forall|i: int|
            0 <= i < k ==> metric::distance((#[trigger] out[i]).id, target) < metric::distance(
                contacts[at].id,
                target,
            )
    } by {
        assert(lists(out, contacts[at].id) || out.len() == k);
    }
}

/// What it is to keep the `k` nearest contacts: there are `k` of them, or all
/// that were given if those are fewer; no contact is followed by a nearer one;
/// each was given, as often as it is kept; and none that is left out is nearer
/// than one that is kept.
pub proof fn lemma_the_nearest_are_kept<const N: usize>(
    contacts: Seq<Contact<N>>,
    target: [u8; N],
    k: int,
)
    requires
        k >= 0,
    ensures
        nearest(contacts, target, k).len() == if contacts.len() < k {
            contacts.len() as int
        } else {
            k
        },
        forall|i: int, j: int|
            0 <= i < j < nearest(contacts, target, k).len() ==> metric::distance(
                (#[trigger] nearest(contacts, target, k)[i]).id,
                target,
            ) <= metric::distance((#[trigger] nearest(contacts, target, k)[j]).id, target),
        nearest(contacts, target, k).to_multiset().subset_of(contacts.to_multiset()),
        forall|left: Contact<N>, i: int|
            contacts.to_multiset().count(left) > #[trigger] nearest(
                contacts,
                target,
                k,
            ).to_multiset().count(left) && 0 <= i < nearest(contacts, target, k).len()
                ==> metric::distance((#[trigger] nearest(contacts, target, k)[i]).id, target)
                <= metric::distance(left.id, target),
{
    let sorted = by_distance(contacts, target);
    let out = nearest(contacts, target, k);
    lemma_by_distance(contacts, target);
    let rest = sorted.skip(out.len() as int);
    assert(out =~= sorted.take(out.len() as int));
    assert(out + rest =~= sorted);
    vstd::seq_lib::lemma_multiset_commutative(out, rest);
    assert forall|i: int, j: int| 0 <= i < j < out.len() implies metric::distance(
        (#[trigger] out[i]).id,
        target,
    ) <= metric::distance((#[trigger] out[j]).id, target) by {
        assert(out[i] == sorted[i] && out[j] == sorted[j]);
    }
    assert forall|left: Contact<N>, i: int|
        contacts.to_multiset().count(left) > #[trigger] out.to_multiset().count(left) && 0 <= i
            < out.len() implies metric::distance((#[trigger] out[i]).id, target)
        <= metric::distance(left.id, target) by {
        vstd::seq_lib::to_multiset_contains(rest, left);
        assert(rest.to_multiset().count(left) > 0);
        let j = choose|j: int| 0 <= j < rest.len() && rest[j] == left;
        assert(sorted[out.len() + j] == left);
        assert(out[i] == sorted[i]);
    }
}

/// What it is to sort: the same contacts, as often as they were given, no
/// contact followed by a nearer one, and contacts of one id in the order in
/// which they came.
pub proof fn lemma_sorting_is_stable<const N: usize>(
    contacts: Seq<Contact<N>>,
    target: [u8; N],
    id: [u8; N],
)
    ensures
        by_distance(contacts, target).to_multiset() == contacts.to_multiset(),
        forall|i: int, j: int|
            0 <= i < j < by_distance(contacts, target).len() ==> metric::distance(
                (#[trigger] by_distance(contacts, target)[i]).id,
                target,
            ) <= metric::distance((#[trigger] by_distance(contacts, target)[j]).id, target),
        by_distance(contacts, target).filter(|contact: Contact<N>| contact.id == id)
            == contacts.filter(|contact: Contact<N>| contact.id == id),
{
    lemma_by_distance(contacts, target);
    assert(listed_as(by_distance(contacts, target), id) == listed_as(contacts, id));
}

/// One more contact is dropped if the one right ahead of it has its id, and
/// kept if not, whatever else is in the list; so no id is ever followed by
/// itself.
pub proof fn lemma_only_repeats_are_dropped<const N: usize>(
    contacts: Seq<Contact<N>>,
    contact: Contact<N>,
)
    ensures
        dedup(Seq::<Contact<N>>::empty()) == Seq::<Contact<N>>::empty(),
        dedup(contacts.push(contact)) == if contacts.len() > 0 && contacts.last().id
            == contact.id {
            dedup(contacts)
        } else {
            dedup(contacts).push(contact)
        },
        forall|i: int|
            0 < i < dedup(contacts).len() ==> dedup(contacts)[i - 1].id != (
            #[trigger] dedup(contacts)[i]).id,
    decreases contacts.len(),
{
    let more = contacts.push(contact);
    assert(more.drop_last() =~= contacts);
    if contacts.len() == 0 {
        assert(dedup(more) =~= dedup(contacts).push(contact));
    } else {
        lemma_dedup_keeps_the_last(contacts);
        let fewer = contacts.drop_last();
        lemma_only_repeats_are_dropped(fewer, contacts.last());
        assert(fewer.push(contacts.last()) =~= contacts);
        if contacts.len() > 1 {
            lemma_dedup_keeps_the_last(fewer);
        }
        let out = dedup(contacts);
        assert forall|i: int| 0 < i < out.len() implies out[i - 1].id != (#[trigger] out[i]).id by {
            let kept = dedup(fewer);
            if i < kept.len() {
                assert(out[i] == kept[i] && out[i - 1] == kept[i - 1]);
            }
        }
    }
}

} // verus!
