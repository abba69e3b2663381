use kademlia::address::Address;
use kademlia::close_nodes::cache::CachedCloseNodes;
use kademlia::close_nodes::dumb_bucket::DumbBucket;
use kademlia::close_nodes::order::{dedup_ids, keep_nearest, keep_nearest_ids, sort_by_distance};
use kademlia::close_nodes::sibling_list::SiblingList;
use kademlia::close_nodes::static_bucket::StaticBucket;
use kademlia::close_nodes::{
    is_closer, leading_zeros, recommended, same_id, xor_distance, xor_distance_cmp, CloseNodes,
    Contact, CACHE_CAPACITY, CACHE_TTL, ID_BYTES, K, ROUTING_BUCKETS, SIBLINGS,
};
use std::cmp::Ordering;
use std::time::Duration;

const SHORT: usize = 20;

fn local(port: u16) -> Address {
    Address::V4 {
        ip: [127, 0, 0, 1],
        port,
    }
}

fn contact(first_byte: u8, port: u16) -> Contact<SHORT> {
    let mut id = [0u8; SHORT];
    id[0] = first_byte;
    Contact {
        id,
        address: local(port),
    }
}

fn firsts(contacts: &[Contact<SHORT>]) -> Vec<u8> {
    contacts.iter().map(|c| c.id[0]).collect()
}

#[test]
fn leading_zeros_counts_whole_id() {
    assert_eq!(leading_zeros([0u8; 20]), 160);
    assert_eq!(leading_zeros([0x80; 20]), 0);
    let mut id = [0u8; 20];
    id[2] = 0x01;
    assert_eq!(leading_zeros(id), 23);
}

#[test]
fn distances_are_big_endian() {
    let near: [u8; 2] = [0x00, 0xff];
    let far: [u8; 2] = [0x01, 0x00];
    assert_eq!(xor_distance([0x0fu8, 0x30], [0xf0, 0x31]), [0xff, 0x01]);
    assert_eq!(xor_distance_cmp(near, far, [0, 0]), Ordering::Less);
    assert_eq!(xor_distance_cmp(far, near, [0, 0]), Ordering::Greater);
    assert_eq!(xor_distance_cmp(far, far, [0, 0]), Ordering::Equal);
    // Seen from the far one, it is the other way round.
    assert_eq!(xor_distance_cmp(near, far, far), Ordering::Greater);
    assert!(is_closer(near, far, [0, 0]));
    assert!(!is_closer(far, far, [0, 0]));
    assert!(same_id(&near, &[0x00, 0xff]));
    assert!(!same_id(&near, &far));
}

#[test]
fn a_distance_sorts_as_a_plain_key() {
    let target = [0x55u8; SHORT];
    let mut ids: Vec<[u8; SHORT]> = (0..=255u8).map(|b| contact(b, 0).id).collect();
    ids.sort_by_key(|id| xor_distance(*id, target));
    for pair in ids.windows(2) {
        assert_eq!(
            xor_distance_cmp(pair[0], pair[1], target),
            Ordering::Less
        );
    }
}

#[test]
fn bucket_index_grows_with_shared_prefix_and_clamps() {
    let table = StaticBucket::<2, 0, 8, SHORT>::new([0u8; 20]);
    // 0x80... differs in the top bit: no shared prefix, first bucket.
    assert_eq!(table.bucket_index(contact(0x80, 0).id), 0);
    // 0x40... shares one bit.
    assert_eq!(table.bucket_index(contact(0x40, 0).id), 1);
    // Own id shares all 160 bits, far past the eight buckets that exist.
    assert_eq!(table.bucket_index([0u8; 20]), 7);
}

#[test]
fn a_search_shift_collapses_prefix_lengths() {
    let table = StaticBucket::<2, 1, 8, SHORT>::new([0u8; 20]);
    assert_eq!(table.bucket_index(contact(0x80, 0).id), 0);
    assert_eq!(table.bucket_index(contact(0x40, 0).id), 0);
    assert_eq!(table.bucket_index(contact(0x20, 0).id), 1);
    assert_eq!(table.bucket_index(contact(0x01, 0).id), 3);
}

#[test]
fn close_nodes_widens_past_the_home_bucket() {
    let mut table = StaticBucket::<4, 0, 8, SHORT>::new([0u8; 20]);
    for i in 0..4u8 {
        table.maybe_add_contact(contact(0x80 | i, 1000 + i as u16));
        table.maybe_add_contact(contact(0x40 | i, 2000 + i as u16));
    }
    // Only four contacts fit the home bucket, so the rest come from its
    // neighbours, and every one of the eight is returned.
    let close = table.close_nodes(contact(0x80, 0).id);
    assert_eq!(close.len(), 8);
    assert_eq!(close[0].id, contact(0x80, 0).id);
}

#[test]
fn maybe_add_contact_refreshes_address_and_ignores_self() {
    let mut table = StaticBucket::<4, 0, 8, SHORT>::new([0u8; 20]);
    table.maybe_add_contact(contact(0x80, 1000));
    table.maybe_add_contact(contact(0x80, 1001));
    let close = table.close_nodes(contact(0x80, 0).id);
    assert_eq!(close.len(), 1);
    assert_eq!(close[0].address.port(), 1001);

    table.maybe_add_contact(Contact {
        id: [0u8; 20],
        address: local(9),
    });
    assert_eq!(table.close_nodes([0u8; 20]).len(), 1);
}

#[test]
fn a_full_bucket_keeps_what_it_has() {
    let mut table = StaticBucket::<2, 0, 8, SHORT>::new([0u8; 20]);
    for first in [0x80, 0x81, 0x82] {
        table.maybe_add_contact(contact(first, 1));
    }
    assert_eq!(firsts(&table.close_nodes([0u8; 20])), vec![0x80, 0x81]);
}

#[test]
fn home_contacts_are_nearer_than_any_other() {
    let mut table = StaticBucket::<4, 0, 8, SHORT>::new([0u8; 20]);
    for first in [0x40, 0x60, 0x81, 0xc0, 0x01] {
        table.maybe_add_contact(contact(first, 1));
    }
    let close = firsts(&table.close_nodes(contact(0x80, 0).id));
    assert_eq!(&close[..2], &[0x81, 0xc0]);
    assert_eq!(close.len(), 5);
}

#[test]
fn a_search_stops_at_k_though_nearer_buckets_are_left() {
    let mut table = StaticBucket::<20, 0, 8, SHORT>::new([0u8; 20]);
    for i in 0..20u8 {
        table.maybe_add_contact(contact(0x80 | i, 1));
    }
    table.maybe_add_contact(contact(0x10, 2));
    // The neighbours of the empty home bucket hold enough, so the bucket of
    // 0x10, one farther up, is not looked into.
    let close = firsts(&table.close_nodes(contact(0x40, 0).id));
    assert_eq!(close.len(), K);
    assert!(!close.contains(&0x10));
    assert!(is_closer(
        contact(0x10, 0).id,
        contact(0x80, 0).id,
        contact(0x40, 0).id
    ));
}

#[test]
fn filled_buckets_leave_out_the_empty_ones() {
    let mut table = StaticBucket::<4, 0, 8, SHORT>::new([0u8; 20]);
    assert!(table.filled_buckets().is_empty());
    table.maybe_add_contact(contact(0x80, 1));
    table.maybe_add_contact(contact(0x20, 2));
    table.maybe_add_contact(contact(0x21, 3));
    let filled = table.filled_buckets();
    assert_eq!(filled.len(), 2);
    assert_eq!((filled[0].0, firsts(&filled[0].1)), (0, vec![0x80]));
    assert_eq!((filled[1].0, firsts(&filled[1].1)), (2, vec![0x20, 0x21]));
}

#[test]
fn a_table_answers_with_no_more_than_k() {
    let mut table = StaticBucket::<64, 0, 8, SHORT>::new([0u8; 20]);
    for first in 1..=60u8 {
        table.maybe_add_contact(contact(first, 1));
    }
    let close = firsts(&table.close_nodes([0u8; 20]));
    assert_eq!(close.len(), K);
    // The nodes that share our longest prefixes clamp into one bucket, and the
    // sort decides among them.
    assert_eq!(close, (1..=20u8).collect::<Vec<u8>>());
}

#[test]
fn a_dumb_bucket_keeps_everything_and_sorts_it() {
    let mut table = DumbBucket::<SHORT> {
        contacts: Vec::new(),
    };
    for first in [0x80, 0x01, 0x80, 0x40] {
        table.maybe_add_contact(contact(first, 1));
    }
    assert_eq!(
        firsts(&table.close_nodes([0u8; 20])),
        vec![0x01, 0x40, 0x80, 0x80]
    );
}

fn table<const S: usize>() -> SiblingList<StaticBucket<2, 0, 4, SHORT>, S, SHORT> {
    SiblingList::new([0u8; 20], StaticBucket::new([0u8; 20]))
}

#[test]
fn keeps_the_closest_and_drops_the_rest() {
    let mut table = table::<3>();
    for first in [0x80, 0x01, 0x40, 0x02, 0x04] {
        table.maybe_add_contact(contact(first, 1000));
    }
    let siblings: Vec<u8> = table.siblings().iter().map(|c| c.id[0]).collect();
    assert_eq!(siblings, vec![0x01, 0x02, 0x04]);
}

#[test]
fn survives_eviction_from_the_fallback() {
    // The fallback holds two per bucket; 0x01, 0x02 and 0x04 all share a
    // bucket there, so one of them cannot fit.
    let mut table = table::<3>();
    for first in [0x01, 0x02, 0x04] {
        table.maybe_add_contact(contact(first, 1000));
    }
    let close: Vec<u8> = table
        .close_nodes([0u8; 20])
        .iter()
        .map(|c| c.id[0])
        .collect();
    assert_eq!(close, vec![0x01, 0x02, 0x04]);
    assert_eq!(table.fallback().filled_buckets()[0].1.len(), 2);
}

#[test]
fn merges_without_duplicating() {
    let mut table = table::<3>();
    table.maybe_add_contact(contact(0x01, 1000));
    // Present in both the sibling list and the fallback, returned once.
    assert_eq!(table.close_nodes([0u8; 20]).len(), 1);

    table.maybe_add_contact(contact(0x01, 1001));
    assert_eq!(table.siblings()[0].address.port(), 1001);
}

#[test]
fn siblings_do_not_depend_on_the_order_they_came_in() {
    let mut one = table::<3>();
    let mut other = table::<3>();
    let offers = [0x07, 0x01, 0x30, 0x02, 0x05, 0x04, 0x00];
    for first in offers {
        one.maybe_add_contact(contact(first, 1));
    }
    for first in offers.iter().rev() {
        other.maybe_add_contact(contact(*first, 1));
    }
    assert_eq!(one.siblings(), other.siblings());
    assert_eq!(firsts(&one.siblings()), vec![0x01, 0x02, 0x04]);
}

#[test]
fn no_siblings_at_all() {
    let mut table = table::<0>();
    table.maybe_add_contact(contact(0x01, 1));
    assert!(table.siblings().is_empty());
    assert_eq!(firsts(&table.close_nodes([0u8; 20])), vec![0x01]);
}

/// Counts how often the cache actually reached the table below it.
struct Counting {
    inner: StaticBucket<4, 0, 4, SHORT>,
    queries: usize,
}

impl CloseNodes<SHORT> for Counting {
    fn close_nodes(&mut self, id: [u8; SHORT]) -> Vec<Contact<SHORT>> {
        self.queries += 1;
        self.inner.close_nodes(id)
    }

    fn maybe_add_contact(&mut self, contact: Contact<SHORT>) {
        self.inner.maybe_add_contact(contact);
    }
}

fn counting() -> Counting {
    Counting {
        inner: StaticBucket::new([0u8; 20]),
        queries: 0,
    }
}

fn cache(ttl: Duration) -> CachedCloseNodes<Counting> {
    CachedCloseNodes::new(counting(), ttl.as_nanos(), 2)
}

fn queries(cache: &CachedCloseNodes<Counting>) -> usize {
    cache.inner().queries
}

#[test]
fn repeated_targets_hit_the_cache() {
    let mut cache = cache(Duration::from_secs(60));
    cache.close_nodes([1u8; 20]);
    cache.close_nodes([1u8; 20]);
    assert_eq!(queries(&cache), 1);

    cache.close_nodes([2u8; 20]);
    assert_eq!(queries(&cache), 2);
}

#[test]
fn a_new_contact_invalidates_every_target() {
    let mut cache = cache(Duration::from_secs(60));
    cache.close_nodes([1u8; 20]);
    cache.maybe_add_contact(contact(0x80, 1000));
    assert_eq!(cache.close_nodes([1u8; 20]), vec![contact(0x80, 1000)]);
    assert_eq!(queries(&cache), 2);
}

#[test]
fn ttl_only_serves_through_writes() {
    let mut cache =
        CachedCloseNodes::ttl_only(counting(), Duration::from_secs(60).as_nanos(), 2);
    let before = cache.close_nodes([1u8; 20]);
    cache.maybe_add_contact(contact(0x80, 1000));
    // The new contact is in the table below, but the cached answer stands.
    assert_eq!(cache.close_nodes([1u8; 20]), before);
    assert_eq!(
        cache.inner().inner.close_nodes([1u8; 20]),
        vec![contact(0x80, 1000)]
    );
    assert_eq!(queries(&cache), 1);
}

#[test]
fn expired_entries_are_recomputed() {
    let mut cache = cache(Duration::ZERO);
    cache.close_nodes([1u8; 20]);
    cache.close_nodes([1u8; 20]);
    assert_eq!(queries(&cache), 2);
}

#[test]
fn stays_within_capacity() {
    let mut cache = cache(Duration::from_secs(60));
    for i in 0..8u8 {
        cache.close_nodes([i; 20]);
    }
    assert!(cache.cached_targets() <= 2);
}

#[test]
fn a_cache_that_counts_writes_answers_as_its_table_does() {
    let mut cache = cache(Duration::from_secs(60));
    for i in 1..40u8 {
        cache.maybe_add_contact(contact(i.wrapping_mul(37), i as u16));
        for target in [[1u8; 20], [2u8; 20], [i; 20]] {
            let expected = cache.inner().inner.close_nodes(target);
            assert_eq!(cache.close_nodes(target), expected);
            assert_eq!(cache.close_nodes(target), expected);
        }
    }
}

#[test]
fn a_cache_without_capacity_keeps_nothing() {
    let mut cache = CachedCloseNodes::new(counting(), Duration::from_secs(60).as_nanos(), 0);
    for i in 0..3u8 {
        cache.close_nodes([i; 20]);
        assert_eq!(cache.cached_targets(), 0);
    }
    cache.remember([1u8; 20], &vec![contact(1, 1)], 0);
    assert_eq!(cache.cached_targets(), 0);
    assert_eq!(cache.cached_answer([1u8; 20], 0), None);
}

#[test]
fn an_answer_is_served_until_its_ttl_is_over() {
    let mut cache = CachedCloseNodes::new(counting(), 100, 2);
    let answer = vec![contact(0x80, 7), contact(0x40, 8)];
    cache.remember([1u8; 20], &answer, 1000);
    assert_eq!(cache.cached_answer([1u8; 20], 1099), Some(answer.clone()));
    assert_eq!(cache.cached_answer([1u8; 20], 1100), None);
    // A clock that reads less than when the answer was kept makes it young.
    assert_eq!(cache.cached_answer([1u8; 20], 3), Some(answer));
    assert_eq!(cache.cached_answer([2u8; 20], 1000), None);
    cache.maybe_add_contact(contact(0x01, 9));
    assert_eq!(cache.cached_answer([1u8; 20], 1050), None);
}

#[test]
fn room_is_made_by_dropping_what_is_dead_first() {
    let mut cache = CachedCloseNodes::new(counting(), 100, 2);
    cache.remember([1u8; 20], &vec![contact(1, 1)], 0);
    cache.remember([2u8; 20], &vec![contact(2, 2)], 90);
    // The first is dead at 150 and makes room.
    cache.remember([3u8; 20], &vec![contact(3, 3)], 150);
    assert_eq!(cache.cached_targets(), 2);
    assert_eq!(
        cache.cached_answer([2u8; 20], 150),
        Some(vec![contact(2, 2)])
    );
    // Nothing is dead at 160, so everything goes.
    cache.remember([4u8; 20], &vec![contact(4, 4)], 160);
    assert_eq!(cache.cached_targets(), 1);
    assert_eq!(cache.cached_answer([3u8; 20], 160), None);
}

#[test]
fn clearing_drops_every_answer() {
    let mut cache = cache(Duration::from_secs(60));
    cache.close_nodes([1u8; 20]);
    assert_eq!(cache.cached_targets(), 1);
    cache.clear();
    assert_eq!(cache.cached_targets(), 0);
    cache.close_nodes([1u8; 20]);
    assert_eq!(queries(&cache), 2);
}

#[test]
fn version_six_addresses_survive_the_cache() {
    let far = Contact {
        id: [3u8; SHORT],
        address: Address::V6 {
            ip: [9u8; 16],
            port: 77,
            flowinfo: 5,
            scope_id: 6,
        },
    };
    let mut cache = CachedCloseNodes::new(counting(), 100, 2);
    cache.remember([1u8; 20], &vec![far], 0);
    assert_eq!(cache.cached_answer([1u8; 20], 0), Some(vec![far]));
}

#[test]
fn sorting_keeps_equals_in_order_and_dedup_keeps_the_first() {
    let mut contacts = vec![
        contact(0x04, 1),
        contact(0x01, 2),
        contact(0x04, 3),
        contact(0x02, 4),
    ];
    sort_by_distance(&mut contacts, [0u8; SHORT]);
    let order: Vec<u16> = contacts.iter().map(|c| c.address.port()).collect();
    assert_eq!(order, vec![2, 4, 1, 3]);
    dedup_ids(&mut contacts);
    let order: Vec<u16> = contacts.iter().map(|c| c.address.port()).collect();
    assert_eq!(order, vec![2, 4, 1]);
}

#[test]
fn keeping_the_nearest() {
    let all = vec![contact(0x04, 1), contact(0x01, 2), contact(0x01, 3)];
    let mut nearest = all.clone();
    keep_nearest(&mut nearest, [0u8; SHORT], 2);
    assert_eq!(nearest, vec![contact(0x01, 2), contact(0x01, 3)]);
    let mut ids = all.clone();
    keep_nearest_ids(&mut ids, [0u8; SHORT], 2);
    assert_eq!(ids, vec![contact(0x01, 2), contact(0x04, 1)]);
    keep_nearest_ids(&mut ids, [0u8; SHORT], 0);
    assert!(ids.is_empty());
}

#[test]
fn keeping_only_the_nearest_so_far_forgets_nothing() {
    let first: Vec<Contact<SHORT>> = (10..=50u8).map(|b| contact(b, 1)).collect();
    let second: Vec<Contact<SHORT>> = (5..=30u8).map(|b| contact(b, 2)).collect();
    let target = contact(0x11, 0).id;
    let mut steps = first.clone();
    keep_nearest_ids(&mut steps, target, 5);
    steps.extend(second.clone());
    keep_nearest_ids(&mut steps, target, 5);
    let mut whole = first;
    whole.extend(second);
    keep_nearest_ids(&mut whole, target, 5);
    assert_eq!(steps, whole);
}

#[test]
fn the_recommended_stack_pins_the_nearest_nodes() {
    assert_eq!((K, SIBLINGS, ROUTING_BUCKETS), (20, 20, 32));
    assert_eq!((CACHE_CAPACITY, CACHE_TTL), (64, Duration::from_millis(500).as_nanos()));
    let me = [0u8; ID_BYTES];
    let mut table = recommended(me);
    // More nodes than a bucket or the sibling list holds, nearest last, all of
    // them in the bucket that everything near clamps into.
    for last in (1..=60u8).rev() {
        let mut id = [0u8; ID_BYTES];
        id[ID_BYTES - 1] = last;
        table.maybe_add_contact(Contact {
            id,
            address: local(last as u16),
        });
    }
    let close: Vec<u8> = table
        .close_nodes(me)
        .iter()
        .map(|c| c.id[ID_BYTES - 1])
        .collect();
    assert_eq!(close, (1..=20u8).collect::<Vec<u8>>());
    assert_eq!(table.inner().siblings().len(), SIBLINGS);
}
