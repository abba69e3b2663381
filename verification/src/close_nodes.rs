//! Kademlia's keyspace: ids, the distance between them, and the tables that
//! answer which known nodes are nearest an id.

pub mod cache;
pub mod dumb_bucket;
pub mod metric;
pub mod order;
pub mod sibling_list;
pub mod static_bucket;

use crate::address::Address;
use crate::close_nodes::cache::CachedCloseNodes;
use crate::close_nodes::sibling_list::SiblingList;
use crate::close_nodes::static_bucket::StaticBucket;
use std::cmp::Ordering;
use vstd::prelude::*;

verus! {

/// Bytes in a [`NodeId`]: a SHA-256 digest.
pub const ID_BYTES: usize = 32;

/// A Kademlia node id.
pub type NodeId = [u8; ID_BYTES];

/// A key in the same space as [`NodeId`].
pub type Key = [u8; ID_BYTES];

/// The id that has these bytes.
pub open spec fn id_of(bytes: Seq<u8>) -> NodeId {
    choose|id: NodeId| id@ == bytes
}

/// An id is the only one that has its bytes.
pub proof fn lemma_id_of(id: NodeId)
    ensures
        id_of(id@) == id,
{
    let other = id_of(id@);
    assert(other@ == id@);
    assert forall|i: int| 0 <= i < ID_BYTES implies other[i] == id[i] by {
        assert(other@[i] == id@[i]);
    }
    assert(other =~= id);
}

/// Any bytes of the right number are an id's.
pub proof fn lemma_any_bytes_are_an_id(bytes: Seq<u8>)
    requires
        bytes.len() == ID_BYTES,
    ensures
        id_of(bytes)@ == bytes,
{
    let id: NodeId = [
        bytes[0], bytes[1], bytes[2], bytes[3], bytes[4], bytes[5],
        bytes[6], bytes[7], bytes[8], bytes[9], bytes[10], bytes[11],
        bytes[12], bytes[13], bytes[14], bytes[15], bytes[16], bytes[17],
        bytes[18], bytes[19], bytes[20], bytes[21], bytes[22], bytes[23],
        bytes[24], bytes[25], bytes[26], bytes[27], bytes[28], bytes[29],
        bytes[30], bytes[31],
    ];
    assert(id@ =~= bytes);
}

/// A routing-table entry: who a node is, and where to reach it.
#[derive(Clone, Copy, Debug, PartialEq, Eq)]
pub struct Contact<const N: usize> {
    pub id: [u8; N],
    pub address: Address,
}

/// Kademlia's replication parameter: how many contacts a lookup returns.
pub const K: usize = 20;

/// A table of known nodes that can say which of them are nearest an id.
///
/// Implementations compose: each one can wrap another and layer behaviour on
/// top. An answer may depend on more than the table (a cached one depends on
/// the time), so a table states which outcomes a call can have.
pub trait CloseNodes<const N: usize>: Sized {
    /// The table is in order. A table that says nothing about it always is.
    open spec fn wf(&self) -> bool {
        true
    }

    /// Asking `before` about `id` can leave `after` and answer `out`. A table
    /// that says nothing about it can answer anything.
    open spec fn asked(before: Self, id: [u8; N], after: Self, out: Seq<Contact<N>>) -> bool {
        true
    }

    /// Offering `contact` to `before` can leave `after`. A table that says
    /// nothing about it can do anything.
    open spec fn offered(before: Self, contact: Contact<N>, after: Self) -> bool {
        true
    }

    /// The known contacts nearest `id`.
    fn close_nodes(&mut self, id: [u8; N]) -> (out: Vec<Contact<N>>)
        requires
            old(self).wf(),
        ensures
            final(self).wf(),
            Self::asked(*old(self), id, *final(self), out@),
    ;

    /// Offer a contact that the table may keep or ignore.
    fn maybe_add_contact(&mut self, contact: Contact<N>)
        requires
            old(self).wf(),
        ensures
            final(self).wf(),
            Self::offered(*old(self), contact, *final(self)),
    ;
}

/// The XOR distance between `id` and `target`.
///
/// Byte 0 is the most significant: an id is a big-endian unsigned integer,
/// matching the `u64` request ids on the wire and the order a digest already
/// arrives in. Reading it from the other end would not be the XOR metric at
/// all, so the direction is load-bearing.
///
/// It also means that lexicographic order on byte strings *is* numeric
/// ordering, so the returned distance sorts correctly as a plain sort key.
pub fn xor_distance<const N: usize>(id: [u8; N], target: [u8; N]) -> (apart: [u8; N])
    ensures
        apart@ == metric::xor_bytes(id@, target@),
        metric::be_value(apart@) == metric::distance(id, target),
        forall|i: int| 0 <= i < N ==> #[trigger] apart@[i] == id@[i] ^ target@[i],
{
    let mut apart: [u8; N] = [0u8; N];
    let mut i: usize = 0;
    while i < N
        invariant
            i <= N,
            forall|j: int| 0 <= j < i ==> apart@[j] == id@[j] ^ target@[j],
        decreases N - i,
    {
        apart[i] = id[i] ^ target[i];
        i = i + 1;
    }
    assert(apart@ =~= metric::xor_bytes(id@, target@));
    apart
}

/// Whether two ids are the same id.
pub fn same_id<const N: usize>(a: &[u8; N], b: &[u8; N]) -> (same: bool)
    ensures
        same == (*a == *b),
{
    let i = first_difference(a, b);
    if i == N {
        assert(*a =~= *b);
        true
    } else {
        false
    }
}

/// The first place where two ids differ, or their length if they do not.
fn first_difference<const N: usize>(a: &[u8; N], b: &[u8; N]) -> (place: usize)
    ensures
        place <= N,
        forall|j: int| 0 <= j < place ==> a@[j] == b@[j],
        place < N ==> a@[place as int] != b@[place as int],
{
    let mut i: usize = 0;
    while i < N
        invariant
            i <= N,
            forall|j: int| 0 <= j < i ==> a@[j] == b@[j],
        decreases N - i,
    {
        if a[i] != b[i] {
            return i;
        }
        i = i + 1;
    }
    i
}

/// What decides which of two ids is closer to a target is the first byte in
/// which they differ, XORed with the target's.
pub proof fn lemma_order_at_difference<const N: usize>(
    a: [u8; N],
    b: [u8; N],
    target: [u8; N],
    place: usize,
)
    requires
        place <= N,
        forall|j: int| 0 <= j < place ==> a@[j] == b@[j],
        place < N ==> a@[place as int] != b@[place as int],
    ensures
        place == N ==> metric::distance(a, target) == metric::distance(b, target),
        place < N ==> {
            let x = a@[place as int] ^ target@[place as int];
            let y = b@[place as int] ^ target@[place as int];
            &&& x != y
            &&& x < y <==> metric::distance(a, target) < metric::distance(b, target)
            &&& x > y <==> metric::distance(a, target) > metric::distance(b, target)
        },
{
    let x = metric::xor_bytes(a@, target@);
    let y = metric::xor_bytes(b@, target@);
    if place == N {
        assert(x =~= y);
    } else {
        let p: u8 = a@[place as int];
        let q: u8 = b@[place as int];
        let t: u8 = target@[place as int];
        assert(p ^ t == q ^ t ==> p == q) by (bit_vector);
        if x[place as int] < y[place as int] {
            metric::lemma_first_difference_orders(x, y, place as int);
        } else {
            metric::lemma_first_difference_orders(y, x, place as int);
        }
    }
}

/// Orders `a` and `b` by [`xor_distance`] to `target`; the closer id sorts
/// first. Only the first byte in which they differ is compared, so neither
/// distance is materialized.
pub fn xor_distance_cmp<const N: usize>(a: [u8; N], b: [u8; N], target: [u8; N]) -> (order:
    Ordering)
    ensures
        order == Ordering::Less <==> metric::distance(a, target) < metric::distance(b, target),
        order == Ordering::Equal <==> metric::distance(a, target) == metric::distance(b, target),
        order == Ordering::Greater <==> metric::distance(a, target) > metric::distance(b, target),
{
    let place = first_difference(&a, &b);
    proof {
        lemma_order_at_difference(a, b, target, place);
    }
    if place == N {
        Ordering::Equal
    } else if a[place] ^ target[place] < b[place] ^ target[place] {
        Ordering::Less
    } else {
        Ordering::Greater
    }
}

/// Whether `a` is strictly closer to `target` than `b` is.
pub fn is_closer<const N: usize>(a: [u8; N], b: [u8; N], target: [u8; N]) -> (closer: bool)
    ensures
        closer == (metric::distance(a, target) < metric::distance(b, target)),
{
    match xor_distance_cmp(a, b, target) {
        Ordering::Less => true,
        _ => false,
    }
}

/// Number of leading zero bits in `id`, counting down from the most
/// significant bit of byte 0, the same big-endian direction
/// [`xor_distance`] documents. The all-zero id has all of its bits zero.
///
/// `leading_zeros(xor_distance(a, b))` is the length of the common prefix a
/// and b share, which is what picks a routing bucket.
pub fn leading_zeros<const N: usize>(id: [u8; N]) -> (zeros: u32)
    requires
        8 * N <= u32::MAX,
    ensures
        metric::is_leading_zeros(id@, zeros as int),
        zeros == metric::zero_bits(id@),
{
    let mut zeros: u32 = 0;
    let mut i: usize = 0;
    while i < N
        invariant
            i <= N,
            8 * N <= u32::MAX,
            zeros == 8 * i,
            forall|j: int| 0 <= j < 8 * i ==> !#[trigger] metric::id_bit(id@, j),
        decreases N - i,
    {
        let byte = id[i];
        proof {
            lemma_byte_bits(id@, i as int);
        }
        if byte != 0 {
            let found: u32 = zeros + byte.leading_zeros();
            proof {
                metric::lemma_leading_zeros_unique(id@, found as int);
            }
            return found;
        }
        zeros = zeros + 8;
        i = i + 1;
    }
    proof {
        metric::lemma_leading_zeros_unique(id@, zeros as int);
    }
    zeros
}

proof fn lemma_byte_bits(id: Seq<u8>, i: int)
    requires
        0 <= i < id.len(),
    ensures
        ({
            let zeros = vstd::std_specs::bits::u8_leading_zeros(id[i]);
            &&& zeros <= 8
            &&& id[i] == 0 <==> zeros == 8
            &&& forall|j: int| 8 * i <= j < 8 * i + zeros ==> !#[trigger] metric::id_bit(id, j)
            &&& zeros < 8 ==> metric::id_bit(id, 8 * i + zeros)
        }),
{
    vstd::std_specs::bits::axiom_u8_leading_zeros(id[i]);
    let byte: u8 = id[i];
    let zeros = vstd::std_specs::bits::u8_leading_zeros(byte);
    assert forall|j: int| 8 * i <= j < 8 * i + zeros implies !#[trigger] metric::id_bit(id, j) by {
        assert(j / 8 == i);
        let k: u8 = (7 - j % 8) as u8;
        assert((byte >> k) & 1u8 == 0u8);
    }
    if zeros < 8 {
        let at = 8 * i + zeros;
        assert(at / 8 == i && at % 8 == zeros);
        let k: u8 = (7 - zeros) as u8;
        assert((byte >> k) & 1u8 == 1u8 || (byte >> k) & 1u8 == 0u8) by (bit_vector);
    }
}

/// How many routing buckets [`recommended`] gives the table under the
/// siblings.
///
/// A bucket at shared-prefix length `m` covers `2^-m` of the keyspace, so in a
/// network of `n` nodes every bucket past `log2(n)` sits empty essentially
/// always. Thirty-two of them cover networks into the billions before the
/// clamp at the near end starts throwing contacts together: cheap enough that
/// trading routing precision for a smaller table (`SEARCH_SHIFT`) buys nothing
/// worth having.
pub const ROUTING_BUCKETS: usize = 32;

/// The `s` of S/Kademlia: how many near nodes are held outside the buckets,
/// safe from bucket eviction. As many as [`K`], so the sibling set alone can
/// answer a full lookup for a key in our own neighbourhood.
pub const SIBLINGS: usize = K;

/// How long [`recommended`] serves a cached answer, in nanoseconds: half a
/// second.
///
/// The window is what a contact learned right now waits before it can be
/// routed to, so it is set by how stale an answer may be, not by how much
/// work it saves: half a second is beneath a lookup round trip, and a lookup
/// that misses a brand-new contact just takes one more round.
pub const CACHE_TTL: u128 = 500_000_000;

/// How many distinct targets [`recommended`] keeps cached.
///
/// The cache pays for our own in-flight lookups, which ask about one target
/// repeatedly as they converge; incoming queries name targets that are near
/// enough to random and mostly miss. So this needs to cover concurrent
/// lookups, not traffic, and every entry costs another `K` contacts of memory.
pub const CACHE_CAPACITY: usize = 64;

/// The routing table under the siblings that [`recommended`] builds.
pub type RoutingTable = StaticBucket<K, 0, ROUTING_BUCKETS, ID_BYTES>;

/// The stack [`recommended`] builds, named so it can be stored in a struct.
pub type RecommendedCloseNodes = CachedCloseNodes<SiblingList<RoutingTable, SIBLINGS, ID_BYTES>>;

/// A [`CloseNodes`] assembled from all three layers, outermost first:
///
/// - [`CachedCloseNodes`] memoises answers for [`CACHE_TTL`]. It is built
///   [TTL-only](CachedCloseNodes::ttl_only), on the assumption that contacts
///   arrive often: with a write per RPC, invalidating on write would flush
///   the cache faster than anything could be reused.
/// - [`SiblingList`] pins the [`SIBLINGS`] nearest nodes where no bucket
///   eviction can reach them, so replication has an exact neighbourhood to
///   work with rather than whatever routing happened to keep.
/// - [`StaticBucket`] routes the rest of the keyspace, one bucket per bit of
///   shared prefix and no bucket count reduction.
///
/// Caching goes outside the sibling list so a hit skips the merge as well as
/// the sort.
pub fn recommended(my_id: NodeId) -> (table: RecommendedCloseNodes)
    ensures
        table.wf(),
        table.answers() == cache::nothing_kept(),
        !table.invalidates(),
        table.lifetime() == CACHE_TTL,
        table.limit() == CACHE_CAPACITY,
        table.below().owner() == my_id,
        table.below().sibling_set() == Seq::<Contact<ID_BYTES>>::empty(),
        sibling_list::is_overlay(table.below()),
        table.below().below().owner() == my_id,
        table.below().below().buckets() == Seq::new(
            ROUTING_BUCKETS as nat,
            |i: int| Seq::<Contact<ID_BYTES>>::empty(),
        ),
{
    CachedCloseNodes::ttl_only(
        SiblingList::new(my_id, StaticBucket::new(my_id)),
        CACHE_TTL,
        CACHE_CAPACITY,
    )
}

} // verus!
