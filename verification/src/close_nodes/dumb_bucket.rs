//! The obvious baseline to check the other tables against.

use crate::close_nodes::metric;
use crate::close_nodes::order;
use crate::close_nodes::{CloseNodes, Contact, K};
use vstd::prelude::*;

verus! {

/// A single list that keeps everything and sorts the whole thing on every
/// query. No eviction, no structure.
pub struct DumbBucket<const N: usize> {
    pub contacts: Vec<Contact<N>>,
}

impl<const N: usize> DumbBucket<N> {
    /// The contacts nearest `id`.
    pub fn close_nodes(&self, id: [u8; N]) -> (out: Vec<Contact<N>>)
        ensures
            out@ == order::nearest(self.contacts@, id, K as int),
    {
        // Sort the whole table before truncating: the k closest are only the
        // k closest if every contact was in the running.
        let mut out: Vec<Contact<N>> = Vec::new();
        out.extend_from_slice(self.contacts.as_slice());
        assert(out@ =~= self.contacts@);
        order::keep_nearest(&mut out, id, K);
        out
    }
}

impl<const N: usize> CloseNodes<N> for DumbBucket<N> {
    open spec fn wf(&self) -> bool {
        true
    }

    open spec fn asked(before: Self, id: [u8; N], after: Self, out: Seq<Contact<N>>) -> bool {
        &&& after == before
        &&& out == order::nearest(before.contacts@, id, K as int)
    }

    open spec fn offered(before: Self, contact: Contact<N>, after: Self) -> bool {
        after.contacts@ == before.contacts@.push(contact)
    }

    fn close_nodes(&mut self, id: [u8; N]) -> (out: Vec<Contact<N>>) {
        DumbBucket::close_nodes(&*self, id)
    }

    fn maybe_add_contact(&mut self, contact: Contact<N>) {
        self.contacts.push(contact);
    }
}

/// Everything that is offered is kept, behind what was there.
pub proof fn lemma_everything_offered_is_kept<const N: usize>(
    before: DumbBucket<N>,
    contact: Contact<N>,
    after: DumbBucket<N>,
)
    requires
        DumbBucket::<N>::offered(before, contact, after),
    ensures
        after.contacts@ == before.contacts@.push(contact),
{
}

/// The answer is the [`K`] nearest of everything there is: all of it if that
/// is no more, nearest first, and nothing left out that is nearer than
/// something named.
pub proof fn lemma_the_nearest_of_everything<const N: usize>(
    before: DumbBucket<N>,
    id: [u8; N],
    after: DumbBucket<N>,
    out: Seq<Contact<N>>,
)
    requires
        DumbBucket::<N>::asked(before, id, after, out),
    ensures
        after == before,
        out.len() == if before.contacts@.len() < K {
            before.contacts@.len()
        } else {
            K as nat
        },
        forall|i: int, j: int|
            0 <= i < j < out.len() ==> metric::distance((#[trigger] out[i]).id, id)
                <= metric::distance((#[trigger] out[j]).id, id),
        out.to_multiset().subset_of(before.contacts@.to_multiset()),
        forall|left: Contact<N>, i: int|
            before.contacts@.to_multiset().count(left) > #[trigger] out.to_multiset().count(left)
                && 0 <= i < out.len() ==> metric::distance((#[trigger] out[i]).id, id)
                <= metric::distance(left.id, id),
{
    order::lemma_the_nearest_are_kept(before.contacts@, id, K as int);
}

} // verus!
