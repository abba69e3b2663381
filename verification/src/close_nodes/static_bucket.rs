//! A routing table with a fixed set of buckets.
//!
//! Unlike classic Kademlia it never splits buckets: there is a fixed array of
//! them, indexed by the number of leading bits a contact shares with our own
//! id. With 4-bit ids, and our id y3 y2 y1 y0:
//!
//! ```text
//! bucket 0  !y3  x   x   x
//! bucket 1   y3 !y2  x   x
//! bucket 2   y3  y2 !y1  x
//! bucket 3   y3  y2  y1 !y0
//! ```
//!
//! Finding the right bucket is an XOR and a leading-zero count into a
//! contiguous array.

use crate::close_nodes::metric;
use crate::close_nodes::order;
use crate::close_nodes::{leading_zeros, same_id, xor_distance, CloseNodes, Contact, K};
use vstd::prelude::*;

verus! {

/// Contacts in `MAX_BUCKETS` buckets of at most `BUCKET_SIZE` each.
///
/// `SEARCH_SHIFT` reduces the number of buckets: the count of shared leading
/// bits is shifted down by it, so several prefix lengths collapse into one.
pub struct StaticBucket<
    const BUCKET_SIZE: usize,
    const SEARCH_SHIFT: usize,
    const MAX_BUCKETS: usize,
    const N: usize,
> {
    contacts: Vec<Vec<Contact<N>>>,
    my_id: [u8; N],
}

/// Which bucket an id that shares `shared` leading bits with ours lives in.
pub open spec fn bucket_of(shared: int, search_shift: usize, max_buckets: usize) -> int {
    let shifted = (shared as usize) >> search_shift;
    if shifted < max_buckets {
        shifted as int
    } else {
        max_buckets - 1
    }
}

/// The candidates for a query: starting from what `out` already holds, out of
/// buckets `low` to `high`, widen by one bucket in both directions until
/// there are `K` of them or the table runs out.
pub open spec fn widen<const N: usize>(
    buckets: Seq<Seq<Contact<N>>>,
    low: int,
    high: int,
    out: Seq<Contact<N>>,
) -> Seq<Contact<N>>
    decreases low + (buckets.len() - high),
{
    if out.len() < K && 0 <= low && high < buckets.len() && (low > 0 || high + 1 < buckets.len()) {
        let up = if high + 1 < buckets.len() {
            out + buckets[high + 1]
        } else {
            out
        };
        let both = if low > 0 {
            up + buckets[low - 1]
        } else {
            up
        };
        widen(
            buckets,
            if low > 0 {
                low - 1
            } else {
                low
            },
            if high + 1 < buckets.len() {
                high + 1
            } else {
                high
            },
            both,
        )
    } else {
        out
    }
}

/// What a table with these buckets answers about `id`, which lives in bucket
/// `home`.
pub open spec fn answer<const N: usize>(
    buckets: Seq<Seq<Contact<N>>>,
    home: int,
    id: [u8; N],
) -> Seq<Contact<N>> {
    order::nearest(widen(buckets, home, home, buckets[home]), id, K as int)
}

/// The buckets that hold anything, each with its place, in order.
pub open spec fn filled<const N: usize>(buckets: Seq<Seq<Contact<N>>>) -> Seq<
    (int, Seq<Contact<N>>),
>
    decreases buckets.len(),
{
    if buckets.len() == 0 {
        Seq::empty()
    } else if buckets.last().len() == 0 {
        filled(buckets.drop_last())
    } else {
        filled(buckets.drop_last()).push((buckets.len() - 1, buckets.last()))
    }
}

/// What a list of buckets with their places stands for.
pub open spec fn placed<const N: usize>(buckets: Seq<(usize, Vec<Contact<N>>)>) -> Seq<
    (int, Seq<Contact<N>>),
> {
    buckets.map_values(|bucket: (usize, Vec<Contact<N>>)| (bucket.0 as int, bucket.1@))
}

/// A bucket once `contact` was offered to it: a known node's address is
/// refreshed, a new node joins if there is room, and a full bucket keeps what
/// it has.
pub open spec fn bucket_with<const N: usize>(
    bucket: Seq<Contact<N>>,
    contact: Contact<N>,
    size: usize,
) -> Seq<Contact<N>> {
    if order::lists(bucket, contact.id) {
        bucket.map_values(
            |known: Contact<N>|
                if known.id == contact.id {
                    contact
                } else {
                    known
                },
        )
    } else if bucket.len() < size {
        bucket.push(contact)
    } else {
        bucket
    }
}

/// The place of `id` in a bucket, if it is in there.
fn find_id<const N: usize>(bucket: &Vec<Contact<N>>, id: &[u8; N]) -> (found: Option<usize>)
    ensures
        found is Some <==> order::lists(bucket@, *id),
        found matches Some(at) ==> at < bucket@.len() && bucket@[at as int].id == *id,
{
    let mut i: usize = 0;
    while i < bucket.len()
        invariant
            i <= bucket@.len(),
            forall|j: int| 0 <= j < i ==> (#[trigger] bucket@[j]).id != *id,
        decreases bucket.len() - i,
    {
        if same_id(&bucket[i].id, id) {
            return Some(i);
        }
        i = i + 1;
    }
    None
}

impl<
    const BUCKET_SIZE: usize,
    const SEARCH_SHIFT: usize,
    const MAX_BUCKETS: usize,
    const N: usize,
> StaticBucket<BUCKET_SIZE, SEARCH_SHIFT, MAX_BUCKETS, N> {
    /// The id that the table is built around.
    pub closed spec fn owner(&self) -> [u8; N] {
        self.my_id
    }

    /// What each bucket holds.
    pub closed spec fn buckets(&self) -> Seq<Seq<Contact<N>>> {
        Seq::new(self.contacts@.len(), |i: int| self.contacts@[i]@)
    }

    /// The bucket `id` lives in.
    pub open spec fn home(&self, id: [u8; N]) -> int {
        bucket_of(metric::shared_bits(id, self.owner()), SEARCH_SHIFT, MAX_BUCKETS)
    }

    /// A table for the node `my_id`, with every bucket empty.
    pub fn new(my_id: [u8; N]) -> (table: Self)
        requires
            0 < MAX_BUCKETS,
            SEARCH_SHIFT < usize::BITS,
            8 * N <= u32::MAX,
        ensures
            table.wf(),
            table.owner() == my_id,
            table.buckets() == Seq::new(MAX_BUCKETS as nat, |i: int| Seq::<Contact<N>>::empty()),
    {
        let mut contacts: Vec<Vec<Contact<N>>> = Vec::with_capacity(MAX_BUCKETS);
        let mut i: usize = 0;
        while i < MAX_BUCKETS
            invariant
                i <= MAX_BUCKETS,
                contacts@.len() == i,
                forall|j: int| 0 <= j < i ==> (#[trigger] contacts@[j])@.len() == 0,
            decreases MAX_BUCKETS - i,
        {
            contacts.push(Vec::new());
            i = i + 1;
        }
        let table = Self { contacts, my_id };
        proof {
            let empty = Seq::new(MAX_BUCKETS as nat, |i: int| Seq::<Contact<N>>::empty());
            assert forall|j: int| 0 <= j < MAX_BUCKETS implies table.buckets()[j] == empty[j] by {
                assert(table.buckets()[j] =~= Seq::<Contact<N>>::empty());
            }
            assert(table.buckets() =~= empty);
        }
        table
    }

    /// The bucket `id` lives in: how many leading bits it shares with our own
    /// id, shifted down by `SEARCH_SHIFT` so several prefix lengths collapse
    /// into one bucket.
    ///
    /// Index 0 therefore holds the far half of the keyspace (ids differing in
    /// the top bit) and the last index the nearest sliver. Ids that share more
    /// bits than the table has buckets (our own shares all of them) clamp into
    /// the last bucket rather than running off the end.
    pub fn bucket_index(&self, id: [u8; N]) -> (index: usize)
        requires
            self.wf(),
        ensures
            index == self.home(id),
            index < MAX_BUCKETS,
    {
        let shared: usize = leading_zeros(xor_distance(id, self.my_id)) as usize;
        let shifted: usize = shared >> SEARCH_SHIFT;
        if shifted < MAX_BUCKETS {
            shifted
        } else {
            MAX_BUCKETS - 1
        }
    }

    fn extend_from_bucket(&self, out: &mut Vec<Contact<N>>, index: usize)
        requires
            index < self.buckets().len(),
        ensures
            final(out)@ == old(out)@ + self.buckets()[index as int],
    {
        out.extend_from_slice(self.contacts[index].as_slice());
        assert(out@ =~= old(out)@ + self.buckets()[index as int]);
    }

    /// The buckets that hold anything, each with its index.
    pub fn filled_buckets(&self) -> (out: Vec<(usize, Vec<Contact<N>>)>)
        ensures
            placed(out@) == filled(self.buckets()),
    {
        let mut out: Vec<(usize, Vec<Contact<N>>)> = Vec::new();
        let mut i: usize = 0;
        assert(placed(out@) =~= filled(self.buckets().take(0)));
        while i < self.contacts.len()
            invariant
                i <= self.contacts@.len(),
                self.buckets().len() == self.contacts@.len(),
                placed(out@) == filled(self.buckets().take(i as int)),
            decreases self.contacts.len() - i,
        {
            let ghost before = out@;
            assert(self.buckets().take(i + 1).drop_last() =~= self.buckets().take(i as int));
            if self.contacts[i].len() > 0 {
                let mut bucket: Vec<Contact<N>> = Vec::new();
                self.extend_from_bucket(&mut bucket, i);
                assert(bucket@ =~= self.buckets()[i as int]);
                out.push((i, bucket));
                assert(placed(out@) =~= placed(before).push((i as int, bucket@)));
            }
            i = i + 1;
        }
        assert(self.buckets().take(i as int) =~= self.buckets());
        out
    }

    /// The contacts nearest `id` among those in its own bucket and in the
    /// buckets around it.
    pub fn close_nodes(&self, id: [u8; N]) -> (out: Vec<Contact<N>>)
        requires
            self.wf(),
        ensures
            out@ == answer(self.buckets(), self.home(id), id),
    {
        let home: usize = self.bucket_index(id);
        let mut out: Vec<Contact<N>> = Vec::with_capacity(K);
        self.extend_from_bucket(&mut out, home);
        assert(out@ =~= self.buckets()[home as int]);

        // The home bucket is where the closest contacts are, but it may hold
        // fewer than k of them, so widen one bucket at a time in both
        // directions until there are enough candidates or the table runs out.
        // Neighbouring buckets are not ordered by distance to `id` among
        // themselves: only the sort below decides which candidates survive.
        let mut low: usize = home;
        let mut high: usize = home;
        while out.len() < K && (low > 0 || high + 1 < MAX_BUCKETS)
            invariant
                self.buckets().len() == MAX_BUCKETS,
                low <= home <= high < MAX_BUCKETS,
                widen(self.buckets(), low as int, high as int, out@) == widen(
                    self.buckets(),
                    home as int,
                    home as int,
                    self.buckets()[home as int],
                ),
            decreases low + (MAX_BUCKETS - high),
        {
            if high + 1 < MAX_BUCKETS {
                high = high + 1;
                self.extend_from_bucket(&mut out, high);
            }
            if low > 0 {
                low = low - 1;
                self.extend_from_bucket(&mut out, low);
            }
        }
        order::keep_nearest(&mut out, id, K);
        out
    }
}

impl<
    const BUCKET_SIZE: usize,
    const SEARCH_SHIFT: usize,
    const MAX_BUCKETS: usize,
    const N: usize,
> CloseNodes<N> for StaticBucket<BUCKET_SIZE, SEARCH_SHIFT, MAX_BUCKETS, N> {
    /// No bucket holds more than it may, every contact is in its own bucket,
    /// no id is held twice, and our own not at all.
    open spec fn wf(&self) -> bool {
        &&& 0 < MAX_BUCKETS
        &&& SEARCH_SHIFT < usize::BITS
        &&& 8 * N <= u32::MAX
        &&& self.buckets().len() == MAX_BUCKETS
        &&& forall|b: int|
            0 <= b < MAX_BUCKETS ==> {
                let bucket = #[trigger] self.buckets()[b];
                &&& bucket.len() <= BUCKET_SIZE
                &&& order::distinct(bucket)
                &&& forall|i: int|
                    0 <= i < bucket.len() ==> self.home((#[trigger] bucket[i]).id) == b
                        && bucket[i].id != self.owner()
            }
    }

    open spec fn asked(before: Self, id: [u8; N], after: Self, out: Seq<Contact<N>>) -> bool {
        &&& after == before
        &&& out == answer(before.buckets(), before.home(id), id)
    }

    open spec fn offered(before: Self, contact: Contact<N>, after: Self) -> bool {
        &&& after.owner() == before.owner()
        &&& after.buckets() == if contact.id == before.owner() {
            before.buckets()
        } else {
            let home = before.home(contact.id);
            before.buckets().update(
                home,
                bucket_with(before.buckets()[home], contact, BUCKET_SIZE),
            )
        }
    }

    fn close_nodes(&mut self, id: [u8; N]) -> (out: Vec<Contact<N>>) {
        StaticBucket::close_nodes(&*self, id)
    }

    fn maybe_add_contact(&mut self, contact: Contact<N>) {
        // A node is not its own contact: its distance to itself is zero, so it
        // would sit in the nearest bucket and crowd out a real peer.
        if same_id(&contact.id, &self.my_id) {
            return ;
        }
        let index: usize = self.bucket_index(contact.id);
        let ghost before = self.buckets();
        let ghost bucket = before[index as int];
        match find_id(&self.contacts[index], &contact.id) {
            Some(at) => {
                // Same node, new address: a peer that moved is still the peer
                // we want, so refresh where to reach it.
                self.contacts[index][at] = contact;
            },
            None => {
                // A full bucket keeps what it has. Kademlia prefers long-lived
                // contacts, and everything already in here has outlived this
                // one.
                if self.contacts[index].len() < BUCKET_SIZE {
                    self.contacts[index].push(contact);
                }
            },
        }
        proof {
            assert(self.buckets()[index as int] =~= bucket_with(bucket, contact, BUCKET_SIZE));
            assert(self.buckets() =~= before.update(
                index as int,
                bucket_with(bucket, contact, BUCKET_SIZE),
            ));
        }
    }
}

/// Whether some bucket holds `contact`.
pub open spec fn holds<const N: usize>(
    buckets: Seq<Seq<Contact<N>>>,
    contact: Contact<N>,
) -> bool {
    exists|b: int| 0 <= b < buckets.len() && #[trigger] buckets[b].contains(contact)
}

/// How many contacts buckets `low` to `high` hold.
pub open spec fn count<const N: usize>(
    buckets: Seq<Seq<Contact<N>>>,
    low: int,
    high: int,
) -> nat
    decreases high - low + 1,
{
    if low > high {
        0
    } else {
        count(buckets, low, high - 1) + buckets[high].len()
    }
}

proof fn lemma_count_from_below<const N: usize>(
    buckets: Seq<Seq<Contact<N>>>,
    low: int,
    high: int,
)
    requires
        low <= high,
    ensures
        count(buckets, low, high) == buckets[low].len() + count(buckets, low + 1, high),
    decreases high - low,
{
    if low < high {
        lemma_count_from_below(buckets, low, high - 1);
    } else {
        assert(count(buckets, low, high - 1) == 0);
    }
}

/// A wider range of buckets holds at least as many contacts, and more if one
/// of the buckets that it adds holds any.
proof fn lemma_count_wider<const N: usize>(
    buckets: Seq<Seq<Contact<N>>>,
    low: int,
    high: int,
    lower: int,
    higher: int,
)
    requires
        lower <= low <= high <= higher,
    ensures
        count(buckets, low, high) <= count(buckets, lower, higher),
        forall|b: int|
            (lower <= b < low || high < b <= higher) && (#[trigger] buckets[b]).len() > 0
                ==> count(buckets, low, high) < count(buckets, lower, higher),
    decreases (low - lower) + (higher - high),
{
    if high < higher {
        lemma_count_wider(buckets, low, high, lower, higher - 1);
    } else if lower < low {
        lemma_count_wider(buckets, low, high, lower + 1, higher);
        lemma_count_from_below(buckets, lower, higher);
    }
}

/// What a query collects: all of the buckets of some range around the ones it
/// started from and nothing else, which is `K` contacts or more unless the
/// range is the whole table.
proof fn lemma_widen<const N: usize>(
    buckets: Seq<Seq<Contact<N>>>,
    low: int,
    high: int,
    out: Seq<Contact<N>>,
) -> (range: (int, int))
    requires
        0 <= low <= high < buckets.len(),
        out.len() == count(buckets, low, high),
        forall|contact: Contact<N>| #[trigger]
            out.contains(contact) <==> exists|b: int|
                low <= b <= high && #[trigger] buckets[b].contains(contact),
    ensures
        0 <= range.0 <= low,
        high <= range.1 < buckets.len(),
        widen(buckets, low, high, out).len() == count(buckets, range.0, range.1),
        widen(buckets, low, high, out).len() >= K || (range.0 == 0 && range.1 == buckets.len() - 1),
        forall|contact: Contact<N>| #[trigger]
            widen(buckets, low, high, out).contains(contact) <==> exists|b: int|
                range.0 <= b <= range.1 && #[trigger] buckets[b].contains(contact),
    decreases low + (buckets.len() - high),
{
    if out.len() < K && (low > 0 || high + 1 < buckets.len()) {
        let (up, higher) = if high + 1 < buckets.len() {
            lemma_collects_one_more(buckets, low, high, out, high + 1);
            (out + buckets[high + 1], high + 1)
        } else {
            (out, high)
        };
        let (both, lower) = if low > 0 {
            lemma_collects_one_more(buckets, low, higher, up, low - 1);
            lemma_count_from_below(buckets, low - 1, higher);
            (up + buckets[low - 1], low - 1)
        } else {
            (up, low)
        };
        lemma_widen(buckets, lower, higher, both)
    } else {
        (low, high)
    }
}

proof fn lemma_collects_one_more<const N: usize>(
    buckets: Seq<Seq<Contact<N>>>,
    low: int,
    high: int,
    out: Seq<Contact<N>>,
    next: int,
)
    requires
        0 <= low <= high < buckets.len(),
        0 <= next < buckets.len(),
        next == low - 1 || next == high + 1,
        forall|contact: Contact<N>| #[trigger]
            out.contains(contact) <==> exists|b: int|
                low <= b <= high && #[trigger] buckets[b].contains(contact),
    ensures
        ({
            let lower = if next < low {
                next
            } else {
                low
            };
            let higher = if next > high {
                next
            } else {
                high
            };
            forall|contact: Contact<N>| #[trigger]
                (out + buckets[next]).contains(contact) <==> exists|b: int|
                    lower <= b <= higher && #[trigger] buckets[b].contains(contact)
        }),
{
    let lower = if next < low {
        next
    } else {
        low
    };
    let higher = if next > high {
        next
    } else {
        high
    };
    let more = out + buckets[next];
    assert forall|contact: Contact<N>| #[trigger] more.contains(contact) <==> exists|b: int|
        lower <= b <= higher && #[trigger] buckets[b].contains(contact) by {
        if more.contains(contact) {
            let i = choose|i: int| 0 <= i < more.len() && more[i] == contact;
            if i < out.len() {
                assert(out[i] == contact);
                assert(out.contains(contact));
            } else {
                assert(buckets[next][i - out.len()] == contact);
                assert(buckets[next].contains(contact));
            }
        }
        if exists|b: int| lower <= b <= higher && #[trigger] buckets[b].contains(contact) {
            let b = choose|b: int| lower <= b <= higher && #[trigger] buckets[b].contains(contact);
            if b == next {
                let i = choose|i: int| 0 <= i < buckets[b].len() && buckets[b][i] == contact;
                assert(more[out.len() + i] == contact);
            } else {
                assert(out.contains(contact));
                let i = choose|i: int| 0 <= i < out.len() && out[i] == contact;
                assert(more[i] == contact);
            }
        }
    }
}

/// A table answers with `K` contacts, or with all that it has if those are
/// fewer; with none but those that it holds; and closest first.
pub proof fn lemma_answer<const N: usize>(
    buckets: Seq<Seq<Contact<N>>>,
    home: int,
    id: [u8; N],
)
    requires
        0 <= home < buckets.len(),
    ensures
        ({
            let out = answer(buckets, home, id);
            let total = count(buckets, 0, buckets.len() - 1);
            &&& out.len() == if total < K {
                total as int
            } else {
                K as int
            }
            &&& forall|i: int| 0 <= i < out.len() ==> holds(buckets, #[trigger] out[i])
            &&& order::ordered(out, id)
            &&& total <= K ==> forall|contact: Contact<N>| #[trigger]
                holds(buckets, contact) ==> out.contains(contact)
        }),
{
    let last = buckets.len() - 1;
    let total = count(buckets, 0, last);
    let out = answer(buckets, home, id);
    assert(count(buckets, home, home - 1) == 0);
    assert forall|contact: Contact<N>| #[trigger]
        buckets[home].contains(contact) <==> exists|b: int|
            home <= b <= home && #[trigger] buckets[b].contains(contact) by {
        if buckets[home].contains(contact) {
            assert(home <= home <= home && buckets[home].contains(contact));
        }
    }
    let range = lemma_widen(buckets, home, home, buckets[home]);
    let found = widen(buckets, home, home, buckets[home]);
    let sorted = order::by_distance(found, id);
    lemma_count_wider(buckets, range.0, range.1, 0, last);
    order::lemma_by_distance(found, id);
    assert forall|contact: Contact<N>| #[trigger] sorted.contains(contact) <==> found.contains(
        contact,
    ) by {
        vstd::seq_lib::to_multiset_contains(sorted, contact);
        vstd::seq_lib::to_multiset_contains(found, contact);
    }
    assert forall|i: int| 0 <= i < out.len() implies holds(buckets, #[trigger] out[i]) by {
        assert(out[i] == sorted[i]);
        assert(sorted.contains(out[i]));
        assert(found.contains(out[i]));
        let b = choose|b: int|
            range.0 <= b <= range.1 && #[trigger] buckets[b].contains(out[i]);
        assert(buckets[b].contains(out[i]));
    }
    assert forall|i: int, j: int| 0 <= i <= j < out.len() implies metric::distance(
        #[trigger] out[i].id,
        id,
    ) <= metric::distance(#[trigger] out[j].id, id) by {
        assert(out[i] == sorted[i] && out[j] == sorted[j]);
    }
    if total <= K {
        assert forall|contact: Contact<N>| #[trigger] holds(
            buckets,
            contact,
        ) implies out.contains(contact) by {
            let b = choose|b: int| 0 <= b < buckets.len() && #[trigger] buckets[b].contains(contact);
            assert(buckets[b].len() > 0);
            assert(range.0 <= b <= range.1);
            assert(found.contains(contact));
            assert(sorted.contains(contact));
            assert(out =~= sorted);
        }
    }
}

proof fn lemma_widen_is_distinct<
    const BUCKET_SIZE: usize,
    const SEARCH_SHIFT: usize,
    const MAX_BUCKETS: usize,
    const N: usize,
>(
    table: StaticBucket<BUCKET_SIZE, SEARCH_SHIFT, MAX_BUCKETS, N>,
    low: int,
    high: int,
    out: Seq<Contact<N>>,
)
    requires
        table.wf(),
        0 <= low <= high < MAX_BUCKETS,
        order::distinct(out),
        forall|i: int|
            0 <= i < out.len() ==> low <= table.home((#[trigger] out[i]).id) <= high
                && out[i].id != table.owner(),
    ensures
        order::distinct(widen(table.buckets(), low, high, out)),
        !order::lists(widen(table.buckets(), low, high, out), table.owner()),
    decreases low + (MAX_BUCKETS - high),
{
    let buckets = table.buckets();
    if out.len() < K && (low > 0 || high + 1 < buckets.len()) {
        let (up, higher) = if high + 1 < buckets.len() {
            (out + buckets[high + 1], high + 1)
        } else {
            (out, high)
        };
        let (both, lower) = if low > 0 {
            (up + buckets[low - 1], low - 1)
        } else {
            (up, low)
        };
        lemma_widen_is_distinct(table, lower, higher, both);
    }
}

/// A table answers with no id twice, and never with its own node's.
pub proof fn lemma_answer_is_distinct<
    const BUCKET_SIZE: usize,
    const SEARCH_SHIFT: usize,
    const MAX_BUCKETS: usize,
    const N: usize,
>(table: StaticBucket<BUCKET_SIZE, SEARCH_SHIFT, MAX_BUCKETS, N>, id: [u8; N])
    requires
        table.wf(),
    ensures
        order::distinct(answer(table.buckets(), table.home(id), id)),
        !order::lists(answer(table.buckets(), table.home(id), id), table.owner()),
{
    let home = table.home(id);
    let found = widen(table.buckets(), home, home, table.buckets()[home]);
    let sorted = order::by_distance(found, id);
    let out = answer(table.buckets(), home, id);
    lemma_widen_is_distinct(table, home, home, table.buckets()[home]);
    order::lemma_by_distance_is_distinct(found, id);
    order::lemma_by_distance(found, id);
    assert forall|i: int| 0 <= i < out.len() implies #[trigger] out[i] == sorted[i] by {}
    if order::lists(out, table.owner()) {
        let i = choose|i: int| 0 <= i < out.len() && #[trigger] out[i].id == table.owner();
        order::lemma_listed_as(sorted, table.owner());
        order::lemma_listed_as(found, table.owner());
        assert(sorted[i].id == table.owner());
        assert(order::listed_as(sorted, table.owner()) == order::listed_as(found, table.owner()));
    }
}

/// The contacts of an id's own bucket are closer to it than any other, in a
/// table with a bucket for each length of prefix. That does not go for the
/// last bucket, which holds everything nearer than the ones before it.
pub proof fn lemma_home_is_nearest<
    const BUCKET_SIZE: usize,
    const MAX_BUCKETS: usize,
    const N: usize,
>(
    table: StaticBucket<BUCKET_SIZE, 0, MAX_BUCKETS, N>,
    id: [u8; N],
    near: Contact<N>,
    far: Contact<N>,
)
    requires
        table.wf(),
        table.home(id) < MAX_BUCKETS - 1,
        table.buckets()[table.home(id)].contains(near),
        holds(table.buckets(), far),
        !table.buckets()[table.home(id)].contains(far),
    ensures
        metric::distance(near.id, id) < metric::distance(far.id, id),
{
    let me = table.owner();
    let home = table.home(id);
    let b = choose|b: int| 0 <= b < table.buckets().len() && #[trigger] table.buckets()[b].contains(far);
    lemma_home_without_shift(id, me, MAX_BUCKETS);
    lemma_home_without_shift(near.id, me, MAX_BUCKETS);
    lemma_home_without_shift(far.id, me, MAX_BUCKETS);
    assert(table.home(near.id) == home);
    assert(table.home(far.id) == b);
    metric::lemma_shares_all_bits(near.id, me);
    metric::lemma_shared_bits_of_two(near.id, id, me);
    metric::lemma_shared_bits_of_two(far.id, id, me);
    metric::lemma_more_shared_bits_is_closer(near.id, far.id, id);
}

proof fn lemma_home_without_shift<const N: usize>(id: [u8; N], me: [u8; N], max_buckets: usize)
    requires
        0 < max_buckets,
        8 * N <= u32::MAX,
    ensures
        bucket_of(metric::shared_bits(id, me), 0, max_buckets) == if metric::shared_bits(id, me)
            < max_buckets {
            metric::shared_bits(id, me)
        } else {
            max_buckets - 1
        },
        0 <= metric::shared_bits(id, me) <= 8 * N,
{
    metric::lemma_zero_bits(metric::xor_bytes(id@, me@));
    let shared: usize = metric::shared_bits(id, me) as usize;
    assert(shared >> 0usize == shared) by (bit_vector);
}

proof fn lemma_bucket_of_is_monotonic(
    a: int,
    b: int,
    search_shift: usize,
    max_buckets: usize,
)
    requires
        0 <= a <= b <= usize::MAX,
        search_shift < usize::BITS,
        0 < max_buckets,
    ensures
        bucket_of(a, search_shift, max_buckets) <= bucket_of(b, search_shift, max_buckets),
{
    let x: usize = a as usize;
    let y: usize = b as usize;
    assert(x >> search_shift <= y >> search_shift) by (bit_vector)
        requires
            x <= y,
            search_shift < usize::BITS,
    ;
}

/// Of the contacts that a table holds, it answers with the nearest, but for
/// those in buckets nearer to us than it had to look into: whatever else it
/// leaves out is no nearer than any of the `K` that it names.
pub proof fn lemma_answer_is_nearest<
    const BUCKET_SIZE: usize,
    const SEARCH_SHIFT: usize,
    const MAX_BUCKETS: usize,
    const N: usize,
>(
    table: StaticBucket<BUCKET_SIZE, SEARCH_SHIFT, MAX_BUCKETS, N>,
    id: [u8; N],
    contact: Contact<N>,
)
    requires
        table.wf(),
        holds(table.buckets(), contact),
        table.home(contact.id) <= table.home(id) || widen(
            table.buckets(),
            table.home(id),
            table.home(id),
            table.buckets()[table.home(id)],
        ).contains(contact),
    ensures
        ({
            let out = answer(table.buckets(), table.home(id), id);
            out.contains(contact) || (out.len() == K && forall|i: int|
                0 <= i < out.len() ==> metric::distance((#[trigger] out[i]).id, id)
                    <= metric::distance(contact.id, id))
        }),
{
    let me = table.owner();
    let buckets = table.buckets();
    let home = table.home(id);
    let found = widen(buckets, home, home, buckets[home]);
    let sorted = order::by_distance(found, id);
    let out = answer(buckets, home, id);
    assert(count(buckets, home, home - 1) == 0);
    assert forall|contact: Contact<N>| #[trigger]
        buckets[home].contains(contact) <==> exists|b: int|
            home <= b <= home && #[trigger] buckets[b].contains(contact) by {
        if buckets[home].contains(contact) {
            assert(home <= home <= home && buckets[home].contains(contact));
        }
    }
    let range = lemma_widen(buckets, home, home, buckets[home]);
    order::lemma_by_distance(found, id);
    vstd::seq_lib::to_multiset_contains(sorted, contact);
    vstd::seq_lib::to_multiset_contains(found, contact);
    if found.contains(contact) {
        assert(sorted.contains(contact));
        let n = choose|n: int| 0 <= n < sorted.len() && sorted[n] == contact;
        if n < out.len() {
            assert(out[n] == contact);
        } else {
            assert forall|i: int| 0 <= i < out.len() implies metric::distance(
                (#[trigger] out[i]).id,
                id,
            ) <= metric::distance(contact.id, id) by {
                assert(out[i] == sorted[i]);
            }
        }
    } else {
        let b = choose|b: int| 0 <= b < buckets.len() && #[trigger] buckets[b].contains(contact);
        assert(table.home(contact.id) == b);
        assert(b < range.0);
        assert forall|i: int| 0 <= i < out.len() implies metric::distance(
            (#[trigger] out[i]).id,
            id,
        ) <= metric::distance(contact.id, id) by {
            assert(out[i] == sorted[i]);
            vstd::seq_lib::to_multiset_contains(sorted, out[i]);
            vstd::seq_lib::to_multiset_contains(found, out[i]);
            assert(sorted.contains(out[i]));
            assert(found.contains(out[i]));
            let at = choose|at: int| range.0 <= at <= range.1 && #[trigger] buckets[at].contains(
                out[i],
            );
            let n = choose|n: int| 0 <= n < buckets[at].len() && buckets[at][n] == out[i];
            assert(table.home(buckets[at][n].id) == at);
            lemma_farther_bucket_is_farther(
                out[i].id,
                contact.id,
                id,
                me,
                SEARCH_SHIFT,
                MAX_BUCKETS,
            );
        }
    }
}

/// An id whose bucket is farther out than those of two others is farther from
/// each of them than they are from one another.
proof fn lemma_farther_bucket_is_farther<const N: usize>(
    near: [u8; N],
    far: [u8; N],
    id: [u8; N],
    me: [u8; N],
    search_shift: usize,
    max_buckets: usize,
)
    requires
        8 * N <= u32::MAX,
        search_shift < usize::BITS,
        0 < max_buckets,
        near != me,
        bucket_of(metric::shared_bits(far, me), search_shift, max_buckets) < bucket_of(
            metric::shared_bits(near, me),
            search_shift,
            max_buckets,
        ),
        bucket_of(metric::shared_bits(far, me), search_shift, max_buckets) < bucket_of(
            metric::shared_bits(id, me),
            search_shift,
            max_buckets,
        ),
    ensures
        metric::distance(near, id) < metric::distance(far, id),
{
    metric::lemma_zero_bits(metric::xor_bytes(near@, me@));
    metric::lemma_zero_bits(metric::xor_bytes(far@, me@));
    metric::lemma_zero_bits(metric::xor_bytes(id@, me@));
    if metric::shared_bits(far, me) >= metric::shared_bits(near, me) {
        lemma_bucket_of_is_monotonic(
            metric::shared_bits(near, me),
            metric::shared_bits(far, me),
            search_shift,
            max_buckets,
        );
    }
    if metric::shared_bits(far, me) >= metric::shared_bits(id, me) {
        lemma_bucket_of_is_monotonic(
            metric::shared_bits(id, me),
            metric::shared_bits(far, me),
            search_shift,
            max_buckets,
        );
    }
    metric::lemma_shares_all_bits(near, me);
    metric::lemma_shared_bits_of_two(near, id, me);
    metric::lemma_shared_bits_of_two(far, id, me);
    metric::lemma_more_shared_bits_is_closer(near, far, id);
}

/// What a table keeps to: there is a fixed number of buckets, none holds more
/// than it may, every contact stands in the bucket of its id, and no id is held
/// twice, our own not at all.
pub proof fn lemma_a_table_is_in_order<
    const BUCKET_SIZE: usize,
    const SEARCH_SHIFT: usize,
    const MAX_BUCKETS: usize,
    const N: usize,
>(
    table: StaticBucket<BUCKET_SIZE, SEARCH_SHIFT, MAX_BUCKETS, N>,
    b: int,
    i: int,
    c: int,
    j: int,
)
    requires
        table.wf(),
        0 <= b < MAX_BUCKETS,
        0 <= i < table.buckets()[b].len(),
        0 <= c < MAX_BUCKETS,
        0 <= j < table.buckets()[c].len(),
    ensures
        table.buckets().len() == MAX_BUCKETS,
        table.buckets()[b].len() <= BUCKET_SIZE,
        table.home(table.buckets()[b][i].id) == b,
        table.buckets()[b][i].id != table.owner(),
        table.buckets()[b][i].id == table.buckets()[c][j].id ==> b == c && i == j,
{
    assert(table.home(table.buckets()[c][j].id) == c);
}

/// Which bucket an id lives in: with every `2^SEARCH_SHIFT` bits more that it
/// shares with ours, counted from the front, it is the next one, up to the
/// last.
pub proof fn lemma_the_bucket_follows_from_the_prefix<
    const BUCKET_SIZE: usize,
    const SEARCH_SHIFT: usize,
    const MAX_BUCKETS: usize,
    const N: usize,
>(
    table: StaticBucket<BUCKET_SIZE, SEARCH_SHIFT, MAX_BUCKETS, N>,
    id: [u8; N],
    shared: int,
)
    requires
        table.wf(),
        0 <= shared <= 8 * N,
        forall|i: int|
            0 <= i < shared ==> #[trigger] metric::id_bit(id@, i) == metric::id_bit(
                table.owner()@,
                i,
            ),
        shared < 8 * N ==> metric::id_bit(id@, shared) != metric::id_bit(table.owner()@, shared),
    ensures
        ({
            let steps = shared / (vstd::arithmetic::power2::pow2(SEARCH_SHIFT as nat) as int);
            table.home(id) == if steps < MAX_BUCKETS {
                steps
            } else {
                MAX_BUCKETS - 1
            }
        }),
{
    let apart = metric::xor_bytes(id@, table.owner()@);
    metric::lemma_distance_bits(id, table.owner(), shared);
    assert(metric::is_shared_prefix(id@, table.owner()@, shared));
    metric::lemma_leading_zeros_unique(apart, shared);
    vstd::bits::lemma_usize_shr_is_div(shared as usize, SEARCH_SHIFT);
}

/// A contact that was offered is held afterwards, where the bucket of its id
/// had it or had room for it. A full bucket of other nodes keeps what it has.
/// Whatever else is held stays where it is, a node that is known is held at
/// the address that was offered last, and nobody else turns up.
pub proof fn lemma_an_offer_is_taken_where_there_is_room<
    const BUCKET_SIZE: usize,
    const SEARCH_SHIFT: usize,
    const MAX_BUCKETS: usize,
    const N: usize,
>(
    before: StaticBucket<BUCKET_SIZE, SEARCH_SHIFT, MAX_BUCKETS, N>,
    contact: Contact<N>,
    after: StaticBucket<BUCKET_SIZE, SEARCH_SHIFT, MAX_BUCKETS, N>,
)
    requires
        before.wf(),
        StaticBucket::<BUCKET_SIZE, SEARCH_SHIFT, MAX_BUCKETS, N>::offered(before, contact, after),
    ensures
        after.owner() == before.owner(),
        after.buckets().len() == before.buckets().len(),
        contact.id == before.owner() ==> after.buckets() == before.buckets(),
        contact.id != before.owner() ==> {
            let was = before.buckets()[before.home(contact.id)];
            let is = after.buckets()[before.home(contact.id)];
            ||| is.contains(contact) && is.len() <= was.len() + 1
            ||| is == was && was.len() == BUCKET_SIZE && forall|i: int|
                0 <= i < was.len() ==> (#[trigger] was[i]).id != contact.id
        },
        forall|b: int, i: int|
            0 <= b < before.buckets().len() && 0 <= i < before.buckets()[b].len() ==> {
                &&& i < after.buckets()[b].len()
                &&& after.buckets()[b][i] == if (#[trigger] before.buckets()[b][i]).id
                    == contact.id {
                    contact
                } else {
                    before.buckets()[b][i]
                }
            },
        forall|b: int, i: int|
            0 <= b < after.buckets().len() && before.buckets()[b].len() <= i
                < after.buckets()[b].len() ==> {
                &&& #[trigger] after.buckets()[b][i] == contact
                &&& b == before.home(contact.id)
            },
{
    if contact.id != before.owner() {
        let home = before.home(contact.id);
        let was = before.buckets()[home];
        let is = after.buckets()[home];
        lemma_home_is_a_bucket(before, contact.id);
        if order::lists(was, contact.id) {
            let i = choose|i: int| 0 <= i < was.len() && #[trigger] was[i].id == contact.id;
            assert(is[i] == contact);
        } else if was.len() < BUCKET_SIZE {
            assert(is[was.len() as int] == contact);
        } else {
            assert(was.len() <= BUCKET_SIZE);
            assert forall|i: int| 0 <= i < was.len() implies (#[trigger] was[i]).id
                != contact.id by {}
        }
        assert forall|b: int, i: int|
            0 <= b < before.buckets().len() && 0 <= i < before.buckets()[b].len() implies {
            &&& i < after.buckets()[b].len()
            &&& after.buckets()[b][i] == if (#[trigger] before.buckets()[b][i]).id == contact.id {
                contact
            } else {
                before.buckets()[b][i]
            }
        } by {
            if b != home {
                assert(before.home(before.buckets()[b][i].id) == b);
            }
        }
    } else {
        assert forall|b: int, i: int|
            0 <= b < before.buckets().len() && 0 <= i < before.buckets()[b].len() implies (
        #[trigger] before.buckets()[b][i]).id != contact.id by {
            assert(before.buckets()[b][i].id != before.owner());
        }
    }
}

/// An id lives in one of the buckets there are.
pub proof fn lemma_home_is_a_bucket<
    const BUCKET_SIZE: usize,
    const SEARCH_SHIFT: usize,
    const MAX_BUCKETS: usize,
    const N: usize,
>(table: StaticBucket<BUCKET_SIZE, SEARCH_SHIFT, MAX_BUCKETS, N>, id: [u8; N])
    requires
        table.wf(),
    ensures
        0 <= table.home(id) < MAX_BUCKETS,
{
}

/// The lower end of the buckets that are at most `radius` from `home`.
spec fn lower_end(home: int, radius: int) -> int {
    if radius < home {
        home - radius
    } else {
        0
    }
}

/// Their upper end, where there are `len` buckets.
spec fn upper_end(home: int, radius: int, len: int) -> int {
    if home + radius < len {
        home + radius
    } else {
        len - 1
    }
}

/// How far a query widens: it collects everything within some radius, and
/// goes one farther only while it has too little.
proof fn lemma_widen_radius<const N: usize>(
    buckets: Seq<Seq<Contact<N>>>,
    home: int,
    radius: int,
    out: Seq<Contact<N>>,
) -> (reached: int)
    requires
        0 <= home < buckets.len(),
        0 <= radius,
        out.len() == count(
            buckets,
            lower_end(home, radius),
            upper_end(home, radius, buckets.len() as int),
        ),
        forall|contact: Contact<N>| #[trigger]
            out.contains(contact) <==> exists|b: int|
                lower_end(home, radius) <= b <= upper_end(home, radius, buckets.len() as int)
                    && #[trigger] buckets[b].contains(contact),
    ensures
        radius <= reached,
        ({
            let low = lower_end(home, radius);
            let high = upper_end(home, radius, buckets.len() as int);
            let found = widen(buckets, low, high, out);
            &&& forall|contact: Contact<N>| #[trigger]
                found.contains(contact) <==> exists|b: int|
                    lower_end(home, reached) <= b <= upper_end(
                        home,
                        reached,
                        buckets.len() as int,
                    ) && #[trigger] buckets[b].contains(contact)
            &&& radius < reached ==> count(
                buckets,
                lower_end(home, reached - 1),
                upper_end(home, reached - 1, buckets.len() as int),
            ) < K
            &&& found.len() < K ==> lower_end(home, reached) == 0 && upper_end(
                home,
                reached,
                buckets.len() as int,
            ) == buckets.len() - 1
        }),
    decreases
            lower_end(home, radius) + (buckets.len() - upper_end(
                home,
                radius,
                buckets.len() as int,
            )),
{
    let low = lower_end(home, radius);
    let high = upper_end(home, radius, buckets.len() as int);
    if out.len() < K && (low > 0 || high + 1 < buckets.len()) {
        let (up, higher) = if high + 1 < buckets.len() {
            lemma_collects_one_more(buckets, low, high, out, high + 1);
            (out + buckets[high + 1], high + 1)
        } else {
            (out, high)
        };
        let (both, lower) = if low > 0 {
            lemma_collects_one_more(buckets, low, higher, up, low - 1);
            lemma_count_from_below(buckets, low - 1, higher);
            (up + buckets[low - 1], low - 1)
        } else {
            (up, low)
        };
        assert(lower == lower_end(home, radius + 1));
        assert(higher == upper_end(home, radius + 1, buckets.len() as int));
        assert(widen(buckets, low, high, out) == widen(buckets, lower, higher, both));
        lemma_widen_radius(buckets, home, radius + 1, both)
    } else {
        radius
    }
}

/// Counting the contacts of some buckets is putting the buckets together.
proof fn lemma_count_is_length<const N: usize>(
    buckets: Seq<Seq<Contact<N>>>,
    low: int,
    high: int,
)
    requires
        0 <= low <= high + 1 <= buckets.len(),
    ensures
        count(buckets, low, high) == buckets.subrange(low, high + 1).flatten().len(),
    decreases high - low + 1,
{
    let part = buckets.subrange(low, high + 1);
    part.lemma_flatten_and_flatten_alt_are_equivalent();
    if low <= high {
        let fewer = buckets.subrange(low, high);
        lemma_count_is_length(buckets, low, high - 1);
        fewer.lemma_flatten_and_flatten_alt_are_equivalent();
        assert(part.drop_last() =~= fewer);
    }
}

/// What a table answers about an id: of all contacts within some radius of
/// the bucket of the id, the [`K`] nearest, each strictly farther than the one
/// before. The radius is the least with which there are [`K`] contacts in
/// reach, or else the whole table is.
pub proof fn lemma_a_query_widens_until_it_has_enough<
    const BUCKET_SIZE: usize,
    const SEARCH_SHIFT: usize,
    const MAX_BUCKETS: usize,
    const N: usize,
>(
    before: StaticBucket<BUCKET_SIZE, SEARCH_SHIFT, MAX_BUCKETS, N>,
    id: [u8; N],
    after: StaticBucket<BUCKET_SIZE, SEARCH_SHIFT, MAX_BUCKETS, N>,
    out: Seq<Contact<N>>,
) -> (radius: int)
    requires
        before.wf(),
        StaticBucket::<BUCKET_SIZE, SEARCH_SHIFT, MAX_BUCKETS, N>::asked(before, id, after, out),
    ensures
        after == before,
        radius >= 0,
        out.len() <= K,
        forall|i: int, j: int|
            0 <= i < j < out.len() ==> metric::distance((#[trigger] out[i]).id, id)
                < metric::distance((#[trigger] out[j]).id, id),
        forall|contact: Contact<N>| #[trigger]
            out.contains(contact) ==> exists|b: int|
                {
                    &&& 0 <= b < MAX_BUCKETS
                    &&& before.home(id) - radius <= b <= before.home(id) + radius
                    &&& #[trigger] before.buckets()[b].contains(contact)
                },
        forall|b: int, n: int|
            0 <= b < MAX_BUCKETS && before.home(id) - radius <= b <= before.home(id) + radius && 0
                <= n < before.buckets()[b].len() ==> {
                ||| out.contains(#[trigger] before.buckets()[b][n])
                ||| out.len() == K && forall|i: int|
                    0 <= i < out.len() ==> metric::distance((#[trigger] out[i]).id, id)
                        <= metric::distance(before.buckets()[b][n].id, id)
            },
        radius > 0 ==> before.buckets().subrange(
            if radius - 1 < before.home(id) {
                before.home(id) - radius + 1
            } else {
                0
            },
            if before.home(id) + radius < MAX_BUCKETS {
                before.home(id) + radius
            } else {
                MAX_BUCKETS as int
            },
        ).flatten().len() < K,
        out.len() < K ==> before.home(id) <= radius && MAX_BUCKETS - 1 <= before.home(id) + radius,
{
    let buckets = before.buckets();
    let home = before.home(id);
    let len = buckets.len() as int;
    lemma_home_is_a_bucket(before, id);
    let found = widen(buckets, home, home, buckets[home]);
    let sorted = order::by_distance(found, id);
    assert(count(buckets, home, home - 1) == 0);
    assert forall|contact: Contact<N>| #[trigger]
        buckets[home].contains(contact) <==> exists|b: int|
            lower_end(home, 0) <= b <= upper_end(home, 0, len) && #[trigger] buckets[b].contains(
                contact,
            ) by {
        if buckets[home].contains(contact) {
            assert(lower_end(home, 0) <= home <= upper_end(home, 0, len)
                && buckets[home].contains(contact));
        }
    }
    let radius = lemma_widen_radius(buckets, home, 0, buckets[home]);
    if radius > 0 {
        lemma_count_is_length(
            buckets,
            lower_end(home, radius - 1),
            upper_end(home, radius - 1, len),
        );
    }
    lemma_answer(buckets, home, id);
    lemma_answer_is_distinct(before, id);
    order::lemma_by_distance(found, id);
    assert forall|i: int, j: int| 0 <= i < j < out.len() implies metric::distance(
        (#[trigger] out[i]).id,
        id,
    ) < metric::distance((#[trigger] out[j]).id, id) by {
        metric::lemma_distance_injective(out[i].id, out[j].id, id);
        assert(metric::distance(out[i].id, id) <= metric::distance(out[j].id, id));
    }
    assert forall|contact: Contact<N>| #[trigger] out.contains(contact) implies exists|b: int|
        {
            &&& 0 <= b < MAX_BUCKETS
            &&& home - radius <= b <= home + radius
            &&& #[trigger] buckets[b].contains(contact)
        } by {
        let i = choose|i: int| 0 <= i < out.len() && out[i] == contact;
        assert(out[i] == sorted[i]);
        vstd::seq_lib::to_multiset_contains(sorted, out[i]);
        vstd::seq_lib::to_multiset_contains(found, out[i]);
        assert(sorted.contains(out[i]));
        assert(found.contains(out[i]));
        let b = choose|b: int|
            lower_end(home, radius) <= b <= upper_end(home, radius, len)
                && #[trigger] buckets[b].contains(out[i]);
        assert(0 <= b < MAX_BUCKETS && home - radius <= b <= home + radius);
    }
    assert forall|b: int, n: int|
        0 <= b < MAX_BUCKETS && home - radius <= b <= home + radius && 0 <= n
            < buckets[b].len() implies {
        ||| out.contains(#[trigger] buckets[b][n])
        ||| out.len() == K && forall|i: int|
            0 <= i < out.len() ==> metric::distance((#[trigger] out[i]).id, id)
                <= metric::distance(buckets[b][n].id, id)
    } by {
        let contact = buckets[b][n];
        assert(buckets[b].contains(contact));
        assert(lower_end(home, radius) <= b <= upper_end(home, radius, len));
        assert(found.contains(contact));
        vstd::seq_lib::to_multiset_contains(sorted, contact);
        vstd::seq_lib::to_multiset_contains(found, contact);
        assert(sorted.contains(contact));
        let m = choose|m: int| 0 <= m < sorted.len() && sorted[m] == contact;
        if m < out.len() {
            assert(out[m] == contact);
        } else {
            assert forall|i: int| 0 <= i < out.len() implies metric::distance(
                (#[trigger] out[i]).id,
                id,
            ) <= metric::distance(contact.id, id) by {
                assert(out[i] == sorted[i]);
            }
        }
    }
    radius
}

proof fn lemma_filled<const N: usize>(buckets: Seq<Seq<Contact<N>>>)
    ensures
        forall|i: int|
            0 <= i < filled(buckets).len() ==> {
                let (b, held) = #[trigger] filled(buckets)[i];
                0 <= b < buckets.len() && held == buckets[b] && held.len() > 0
            },
        forall|i: int, j: int|
            0 <= i < j < filled(buckets).len() ==> (#[trigger] filled(buckets)[i]).0 < (
            #[trigger] filled(buckets)[j]).0,
        forall|b: int|
            0 <= b < buckets.len() && (#[trigger] buckets[b]).len() > 0 ==> exists|i: int|
                0 <= i < filled(buckets).len() && (#[trigger] filled(buckets)[i]).0 == b,
    decreases buckets.len(),
{
    if buckets.len() > 0 {
        let fewer = buckets.drop_last();
        let listed = filled(buckets);
        lemma_filled(fewer);
        assert forall|i: int| 0 <= i < listed.len() implies {
            let (b, held) = #[trigger] listed[i];
            0 <= b < buckets.len() && held == buckets[b] && held.len() > 0
        } by {
            if i < filled(fewer).len() {
                assert(listed[i] == filled(fewer)[i]);
            }
        }
        assert forall|i: int, j: int| 0 <= i < j < listed.len() implies (#[trigger] listed[i]).0 < (
        #[trigger] listed[j]).0 by {
            assert(listed[i] == filled(fewer)[i]);
            if j < filled(fewer).len() {
                assert(listed[j] == filled(fewer)[j]);
            }
        }
        assert forall|b: int|
            0 <= b < buckets.len() && (#[trigger] buckets[b]).len() > 0 implies exists|i: int|
            0 <= i < listed.len() && (#[trigger] listed[i]).0 == b by {
            if b < fewer.len() {
                assert(fewer[b].len() > 0);
                let i = choose|i: int|
                    0 <= i < filled(fewer).len() && (#[trigger] filled(fewer)[i]).0 == b;
                assert(listed[i].0 == b);
            } else {
                assert(listed[listed.len() - 1].0 == b);
            }
        }
    }
}

/// What is listed of a table: every bucket that holds anything, with all that
/// it holds, under its own index, in order.
pub proof fn lemma_every_filled_bucket_is_listed<const N: usize>(
    listed: Seq<(usize, Vec<Contact<N>>)>,
    buckets: Seq<Seq<Contact<N>>>,
)
    requires
        placed(listed) == filled(buckets),
    ensures
        forall|i: int|
            0 <= i < listed.len() ==> {
                &&& (#[trigger] listed[i]).0 < buckets.len()
                &&& listed[i].1@ == buckets[listed[i].0 as int]
                &&& listed[i].1@.len() > 0
            },
        forall|i: int, j: int|
            0 <= i < j < listed.len() ==> (#[trigger] listed[i]).0 < (#[trigger] listed[j]).0,
        forall|b: int|
            0 <= b < buckets.len() && (#[trigger] buckets[b]).len() > 0 ==> exists|i: int|
                0 <= i < listed.len() && (#[trigger] listed[i]).0 == b,
{
    let all = filled(buckets);
    lemma_filled(buckets);
    assert(placed(listed).len() == listed.len());
    assert forall|i: int| 0 <= i < listed.len() implies (#[trigger] listed[i]).0 == all[i].0
        && listed[i].1@ == all[i].1 by {
        assert(placed(listed)[i] == all[i]);
    }
    assert forall|b: int|
        0 <= b < buckets.len() && (#[trigger] buckets[b]).len() > 0 implies exists|i: int|
        0 <= i < listed.len() && (#[trigger] listed[i]).0 == b by {
        let i = choose|i: int| 0 <= i < all.len() && (#[trigger] all[i]).0 == b;
        assert(listed[i].0 == b);
    }
}

} // verus!
