//! What the XOR metric means, and the facts about it that the tables lean on.

use vstd::prelude::*;

verus! {

/// The unsigned integer that `bytes` spells with its most significant byte
/// first.
pub open spec fn be_value(bytes: Seq<u8>) -> nat
    decreases bytes.len(),
{
    if bytes.len() == 0 {
        0
    } else {
        be_value(bytes.drop_last()) * 256 + bytes.last() as nat
    }
}

/// How many numbers `n` bytes can spell.
pub open spec fn pow256(n: nat) -> nat
    decreases n,
{
    if n == 0 {
        1
    } else {
        256 * pow256((n - 1) as nat)
    }
}

/// The bytewise XOR of two ids of one length.
pub open spec fn xor_bytes(a: Seq<u8>, b: Seq<u8>) -> Seq<u8> {
    Seq::new(a.len(), |i: int| a[i] ^ b[i])
}

/// The XOR metric: how far apart two ids are, as a number.
pub open spec fn distance<const N: usize>(a: [u8; N], b: [u8; N]) -> nat {
    be_value(xor_bytes(a@, b@))
}

/// Whether bit `i` of an id is set, bit 0 being the most significant bit of
/// byte 0.
pub open spec fn id_bit(id: Seq<u8>, i: int) -> bool {
    (id[i / 8] >> ((7 - i % 8) as u8)) & 1u8 == 1u8
}

/// `zeros` is how many bits of `id` come before the first one that is set.
pub open spec fn is_leading_zeros(id: Seq<u8>, zeros: int) -> bool {
    &&& 0 <= zeros <= 8 * id.len()
    &&& forall|i: int| 0 <= i < zeros ==> !#[trigger] id_bit(id, i)
    &&& zeros < 8 * id.len() ==> id_bit(id, zeros)
}

/// `shared` is how many leading bits two ids have in common: they agree on
/// that many, and unless that is all of them they disagree on the next.
pub open spec fn is_shared_prefix(a: Seq<u8>, b: Seq<u8>, shared: int) -> bool {
    &&& 0 <= shared <= 8 * a.len()
    &&& forall|i: int| 0 <= i < shared ==> #[trigger] id_bit(a, i) == id_bit(b, i)
    &&& shared < 8 * a.len() ==> id_bit(a, shared) != id_bit(b, shared)
}

/// The number of leading zero bits of `id`.
pub open spec fn zero_bits(id: Seq<u8>) -> int {
    choose|zeros: int| is_leading_zeros(id, zeros)
}

/// The number of leading bits that two ids share.
pub open spec fn shared_bits<const N: usize>(a: [u8; N], b: [u8; N]) -> int {
    zero_bits(xor_bytes(a@, b@))
}

/// Of two byte strings of one length, the one with the smaller byte at the
/// first place where they differ spells the smaller number: lexicographic
/// order is numeric order.
pub proof fn lemma_first_difference_orders(x: Seq<u8>, y: Seq<u8>, i: int)
    requires
        x.len() == y.len(),
        0 <= i < x.len(),
        forall|j: int| 0 <= j < i ==> x[j] == y[j],
        x[i] < y[i],
    ensures
        be_value(x) < be_value(y),
    decreases x.len(),
{
    if i == x.len() - 1 {
        assert(x.drop_last() =~= y.drop_last());
    } else {
        lemma_first_difference_orders(x.drop_last(), y.drop_last(), i);
    }
}

/// Two byte strings of one length that spell one number are equal.
pub proof fn lemma_be_value_injective(x: Seq<u8>, y: Seq<u8>)
    requires
        x.len() == y.len(),
        be_value(x) == be_value(y),
    ensures
        x == y,
    decreases x.len(),
{
    if x.len() > 0 {
        assert(be_value(x.drop_last()) == be_value(y.drop_last()) && x.last() == y.last());
        lemma_be_value_injective(x.drop_last(), y.drop_last());
        assert(x =~= x.drop_last().push(x.last()));
        assert(y =~= y.drop_last().push(y.last()));
    }
    assert(x =~= y);
}

/// XOR with one target is a bijection: two ids are equally far from a target
/// only if they are the same id.
pub proof fn lemma_distance_injective<const N: usize>(a: [u8; N], b: [u8; N], target: [u8; N])
    ensures
        distance(a, target) == distance(b, target) <==> a == b,
{
    if distance(a, target) == distance(b, target) {
        let x = xor_bytes(a@, target@);
        let y = xor_bytes(b@, target@);
        lemma_be_value_injective(x, y);
        assert forall|i: int| 0 <= i < N implies a@[i] == b@[i] by {
            assert(x[i] == y[i]);
            let p: u8 = a@[i];
            let q: u8 = b@[i];
            let t: u8 = target@[i];
            assert(p ^ t == q ^ t ==> p == q) by (bit_vector);
        }
        assert(a =~= b);
    }
}

/// A distance of zero means the same id.
pub proof fn lemma_distance_zero<const N: usize>(a: [u8; N], b: [u8; N])
    ensures
        distance(a, b) == 0 <==> a == b,
{
    lemma_distance_to_itself(b);
    lemma_distance_injective(a, b, b);
}

/// An id is at distance zero from itself.
pub proof fn lemma_distance_to_itself<const N: usize>(a: [u8; N])
    ensures
        distance(a, a) == 0,
{
    assert forall|i: int| 0 <= i < N implies xor_bytes(a@, a@)[i] == 0 by {
        let p: u8 = a@[i];
        assert(p ^ p == 0u8) by (bit_vector);
    }
    lemma_be_value_of_zeros(xor_bytes(a@, a@));
}

proof fn lemma_be_value_of_zeros(s: Seq<u8>)
    requires
        forall|i: int| 0 <= i < s.len() ==> s[i] == 0,
    ensures
        be_value(s) == 0,
    decreases s.len(),
{
    if s.len() > 0 {
        lemma_be_value_of_zeros(s.drop_last());
    }
}

/// The metric does not care which of two ids is the one asking.
pub proof fn lemma_distance_symmetric<const N: usize>(a: [u8; N], b: [u8; N])
    ensures
        distance(a, b) == distance(b, a),
{
    assert forall|i: int| 0 <= i < N implies xor_bytes(a@, b@)[i] == xor_bytes(b@, a@)[i] by {
        let p: u8 = a@[i];
        let q: u8 = b@[i];
        assert(p ^ q == q ^ p) by (bit_vector);
    }
    assert(xor_bytes(a@, b@) =~= xor_bytes(b@, a@));
}

/// A count of leading zeros is the only one.
pub proof fn lemma_leading_zeros_unique(id: Seq<u8>, zeros: int)
    requires
        is_leading_zeros(id, zeros),
    ensures
        zero_bits(id) == zeros,
{
    let other = zero_bits(id);
    assert(is_leading_zeros(id, other));
    if other < zeros {
        assert(!id_bit(id, other));
    } else if zeros < other {
        assert(!id_bit(id, zeros));
    }
}

/// The leading zeros of a distance count the bits that two ids share.
pub proof fn lemma_distance_bits<const N: usize>(a: [u8; N], b: [u8; N], shared: int)
    ensures
        is_leading_zeros(xor_bytes(a@, b@), shared) <==> is_shared_prefix(a@, b@, shared),
{
    let x = xor_bytes(a@, b@);
    assert forall|i: int| 0 <= i < 8 * N implies (#[trigger] id_bit(x, i) <==> id_bit(a@, i)
        != id_bit(b@, i)) by {
        let p: u8 = a@[i / 8];
        let q: u8 = b@[i / 8];
        let k: u8 = (7 - i % 8) as u8;
        assert(x[i / 8] == p ^ q);
        assert(((p ^ q) >> k) & 1u8 == 1u8 <==> ((p >> k) & 1u8 == 1u8) != ((q >> k) & 1u8 == 1u8))
            by (bit_vector);
    }
    if is_shared_prefix(a@, b@, shared) {
        assert forall|i: int| 0 <= i < shared implies !#[trigger] id_bit(x, i) by {
            assert(id_bit(a@, i) == id_bit(b@, i));
        }
    }
    if is_leading_zeros(x, shared) {
        assert forall|i: int| 0 <= i < shared implies #[trigger] id_bit(a@, i) == id_bit(b@, i) by {
            assert(!id_bit(x, i));
        }
    }
}

/// Every id has a number of leading zeros.
pub proof fn lemma_zero_bits(id: Seq<u8>)
    ensures
        is_leading_zeros(id, zero_bits(id)),
{
    let zeros = lemma_first_set_bit(id, 0);
    assert(is_leading_zeros(id, zeros));
}

proof fn lemma_first_set_bit(id: Seq<u8>, from: int) -> (zeros: int)
    requires
        0 <= from <= 8 * id.len(),
        forall|i: int| 0 <= i < from ==> !#[trigger] id_bit(id, i),
    ensures
        is_leading_zeros(id, zeros),
    decreases 8 * id.len() - from,
{
    if from == 8 * id.len() || id_bit(id, from) {
        from
    } else {
        lemma_first_set_bit(id, from + 1)
    }
}

proof fn lemma_bit_of_byte(id: Seq<u8>, j: int, k: u8)
    requires
        0 <= j < id.len(),
        k < 8,
    ensures
        id_bit(id, 8 * j + (7 - k)) == ((id[j] >> k) & 1u8 == 1u8),
{
    assert((8 * j + (7 - k)) / 8 == j);
    assert((8 * j + (7 - k)) % 8 == 7 - k);
}

proof fn lemma_same_bit(x: Seq<u8>, y: Seq<u8>, j: int, k: u8)
    requires
        0 <= j < x.len(),
        j < y.len(),
        k < 8,
        id_bit(x, 8 * j + (7 - k)) == id_bit(y, 8 * j + (7 - k)),
    ensures
        (x[j] >> k) & 1u8 == (y[j] >> k) & 1u8,
{
    lemma_bit_of_byte(x, j, k);
    lemma_bit_of_byte(y, j, k);
    let a: u8 = x[j];
    let b: u8 = y[j];
    assert((a >> k) & 1u8 == 0u8 || (a >> k) & 1u8 == 1u8) by (bit_vector);
    assert((b >> k) & 1u8 == 0u8 || (b >> k) & 1u8 == 1u8) by (bit_vector);
}

proof fn lemma_same_byte(x: Seq<u8>, y: Seq<u8>, j: int)
    requires
        0 <= j < x.len(),
        j < y.len(),
        forall|i: int| 8 * j <= i < 8 * j + 8 ==> #[trigger] id_bit(x, i) == id_bit(y, i),
    ensures
        x[j] == y[j],
{
    assert forall|k: u8| k < 8 implies (#[trigger] (x[j] >> k)) & 1u8 == (y[j] >> k) & 1u8 by {
        lemma_same_bit(x, y, j, k);
    }
    let a: u8 = x[j];
    let b: u8 = y[j];
    assert(a == b) by (bit_vector)
        requires
                (a >> 0u8) & 1u8 == (b >> 0u8) & 1u8,
                (a >> 1u8) & 1u8 == (b >> 1u8) & 1u8,
                (a >> 2u8) & 1u8 == (b >> 2u8) & 1u8,
                (a >> 3u8) & 1u8 == (b >> 3u8) & 1u8,
                (a >> 4u8) & 1u8 == (b >> 4u8) & 1u8,
                (a >> 5u8) & 1u8 == (b >> 5u8) & 1u8,
                (a >> 6u8) & 1u8 == (b >> 6u8) & 1u8,
                (a >> 7u8) & 1u8 == (b >> 7u8) & 1u8,
    ;
}

/// Of two byte strings of one length, the one without a bit at the first
/// place where their bits differ spells the smaller number.
pub proof fn lemma_first_bit_orders(x: Seq<u8>, y: Seq<u8>, i: int)
    requires
        x.len() == y.len(),
        0 <= i < 8 * x.len(),
        forall|j: int| 0 <= j < i ==> #[trigger] id_bit(x, j) == id_bit(y, j),
        !id_bit(x, i),
        id_bit(y, i),
    ensures
        be_value(x) < be_value(y),
{
    let p = i / 8;
    assert forall|j: int| 0 <= j < p implies x[j] == y[j] by {
        lemma_same_byte(x, y, j);
    }
    let k: u8 = (7 - i % 8) as u8;
    let a: u8 = x[p];
    let b: u8 = y[p];
    assert forall|t: u8| k < t < 8 implies (#[trigger] (x[p] >> t)) & 1u8 == (y[p] >> t) & 1u8 by {
        assert(8 * p + (7 - t) < i);
        lemma_same_bit(x, y, p, t);
    }
    assert(x[p] < y[p]) by {
        assert(a < b) by (bit_vector)
            requires
                k < 8,
                k < 1 ==> (a >> 1u8) & 1u8 == (b >> 1u8) & 1u8,
                k < 2 ==> (a >> 2u8) & 1u8 == (b >> 2u8) & 1u8,
                k < 3 ==> (a >> 3u8) & 1u8 == (b >> 3u8) & 1u8,
                k < 4 ==> (a >> 4u8) & 1u8 == (b >> 4u8) & 1u8,
                k < 5 ==> (a >> 5u8) & 1u8 == (b >> 5u8) & 1u8,
                k < 6 ==> (a >> 6u8) & 1u8 == (b >> 6u8) & 1u8,
                k < 7 ==> (a >> 7u8) & 1u8 == (b >> 7u8) & 1u8,
                (a >> k) & 1u8 != 1u8,
                (b >> k) & 1u8 == 1u8,
        ;
    }
    lemma_first_difference_orders(x, y, p);
}

/// Of two ids, the one that shares more leading bits with a target is closer
/// to it.
pub proof fn lemma_more_shared_bits_is_closer<const N: usize>(
    a: [u8; N],
    b: [u8; N],
    target: [u8; N],
)
    requires
        shared_bits(a, target) > shared_bits(b, target),
    ensures
        distance(a, target) < distance(b, target),
{
    let x = xor_bytes(a@, target@);
    let y = xor_bytes(b@, target@);
    lemma_zero_bits(x);
    lemma_zero_bits(y);
    lemma_first_bit_orders(x, y, zero_bits(y));
}

/// Ids that share some leading bits with a third share as many with each
/// other, and where both disagree with it on the next bit, one more.
pub proof fn lemma_shared_bits_of_two<const N: usize>(a: [u8; N], b: [u8; N], third: [u8; N])
    ensures
        shared_bits(a, third) == shared_bits(b, third) && shared_bits(a, third) < 8 * N
            ==> shared_bits(a, b) > shared_bits(a, third),
        shared_bits(a, third) != shared_bits(b, third) ==> shared_bits(a, b) == if shared_bits(
            a,
            third,
        ) < shared_bits(b, third) {
            shared_bits(a, third)
        } else {
            shared_bits(b, third)
        },
{
    let s = shared_bits(a, third);
    let t = shared_bits(b, third);
    lemma_zero_bits(xor_bytes(a@, third@));
    lemma_zero_bits(xor_bytes(b@, third@));
    lemma_zero_bits(xor_bytes(a@, b@));
    lemma_distance_bits(a, third, s);
    lemma_distance_bits(b, third, t);
    let u = shared_bits(a, b);
    lemma_distance_bits(a, b, u);
    let least = if s < t {
        s
    } else {
        t
    };
    assert forall|i: int| 0 <= i < least implies #[trigger] id_bit(a@, i) == id_bit(b@, i) by {
        assert(id_bit(b@, i) == id_bit(third@, i));
    }
    if s != t {
        if s < t {
            assert(id_bit(b@, s) == id_bit(third@, s));
        } else {
            assert(id_bit(a@, t) == id_bit(third@, t));
        }
        if u > least {
            assert(id_bit(a@, least) == id_bit(b@, least));
        }
    }
}

/// An id shares all of its bits with itself only.
pub proof fn lemma_shares_all_bits<const N: usize>(a: [u8; N], b: [u8; N])
    ensures
        shared_bits(a, b) == 8 * N <==> a == b,
{
    lemma_zero_bits(xor_bytes(a@, b@));
    lemma_distance_bits(a, b, shared_bits(a, b));
    if shared_bits(a, b) == 8 * N {
        assert forall|j: int| 0 <= j < N implies a@[j] == b@[j] by {
            lemma_same_byte(a@, b@, j);
        }
        assert(a =~= b);
    }
}

} // verus!
