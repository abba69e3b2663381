//! A memoising layer over any [`CloseNodes`].
//!
//! An iterative lookup asks for the contacts closest to one target over and
//! over as it converges, and every arriving RPC asks again to decide who to
//! reply with. The underlying answer is a sort over a table that changed by at
//! most one contact in between, so the same target is recomputed far more
//! often than it actually moves.

use crate::address::Address;
use crate::close_nodes::static_bucket;
use crate::close_nodes::static_bucket::StaticBucket;
use crate::close_nodes::{CloseNodes, Contact};
use dashmap::DashMap;
use std::collections::hash_map::RandomState;
use std::time::Instant;
use vstd::prelude::*;

verus! {

/// `std::time::Instant`, a point on the machine's own clock.
#[verifier::external_type_specification]
#[verifier::external_body]
pub struct ExInstant(Instant);

/// A kept answer: the contacts, the generation it was computed in, and when it
/// was stored, in nanoseconds on the cache's clock.
///
/// Contacts are kept as the bytes of their id with their address, so that the
/// map below does not depend on how long an id is.
pub type Entry = (Vec<(Vec<u8>, Address)>, u64, u128);

/// What [`Entry`] stands for.
pub type Kept = (Seq<(Seq<u8>, Address)>, u64, u128);

/// The answers a map holds, by the bytes of the id they answer about.
pub uninterp spec fn kept_answers(
    map: DashMap<Vec<u8>, (Vec<(Vec<u8>, Address)>, u64, u128), RandomState>,
) -> Map<Seq<u8>, (Seq<(Seq<u8>, Address)>, u64, u128)>;

/// No answers at all.
pub open spec fn nothing_kept() -> Map<Seq<u8>, Kept> {
    Map::empty()
}

/// The contacts as an entry keeps them.
pub open spec fn packed<const N: usize>(contacts: Seq<Contact<N>>) -> Seq<(Seq<u8>, Address)> {
    contacts.map_values(|contact: Contact<N>| (contact.id@, contact.address))
}

/// What is kept in an entry's list.
pub open spec fn listed(entries: Seq<(Vec<u8>, Address)>) -> Seq<(Seq<u8>, Address)> {
    entries.map_values(|entry: (Vec<u8>, Address)| (entry.0@, entry.1))
}

/// What an entry stands for.
pub open spec fn kept(entry: Entry) -> Kept {
    (listed(entry.0@), entry.1, entry.2)
}

/// Whether an answer of `generation`, stored at `stored`, may still be served
/// at `now`: nothing was written since, and less than `ttl` has passed.
pub open spec fn fresh(
    generation: u64,
    stored: u128,
    current: u64,
    now: u128,
    ttl: u128,
) -> bool {
    generation == current && if now >= stored {
        now - stored < ttl
    } else {
        0 < ttl
    }
}

/// The answers that are still fresh.
pub open spec fn only_fresh(
    answers: Map<Seq<u8>, Kept>,
    current: u64,
    now: u128,
    ttl: u128,
) -> Map<Seq<u8>, Kept> {
    answers.restrict(
        Set::new(
            |id: Seq<u8>|
                answers.dom().contains(id) && fresh(
                    answers[id].1,
                    answers[id].2,
                    current,
                    now,
                    ttl,
                ),
        ),
    )
}

/// The answers once there is room for one more: untouched if there is, else
/// without the dead ones, and if that is not enough either, none.
pub open spec fn with_room(
    answers: Map<Seq<u8>, Kept>,
    capacity: usize,
    current: u64,
    now: u128,
    ttl: u128,
) -> Map<Seq<u8>, Kept> {
    if answers.len() < capacity {
        answers
    } else {
        let alive = only_fresh(answers, current, now, ttl);
        if alive.len() < capacity {
            alive
        } else {
            nothing_kept()
        }
    }
}

/// The answers once one more was kept. Where none may be kept, none is.
pub open spec fn remembered(
    answers: Map<Seq<u8>, Kept>,
    id: Seq<u8>,
    contacts: Seq<(Seq<u8>, Address)>,
    capacity: usize,
    current: u64,
    now: u128,
    ttl: u128,
) -> Map<Seq<u8>, Kept> {
    if capacity == 0 {
        answers
    } else {
        with_room(answers, capacity, current, now, ttl).insert(id, (contacts, current, now))
    }
}

/// Starts a clock: `std::time::Instant::now`.
#[verifier::external_body]
fn start_clock() -> Instant {
    Instant::now()
}

/// How long a clock has run, in nanoseconds: `std::time::Instant::elapsed`,
/// as a number. Nothing is promised of it.
#[verifier::external_body]
fn read_clock(clock: &Instant) -> u128 {
    clock.elapsed().as_nanos()
}

/// `DashMap::new`: the map holds nothing.
#[verifier::external_body]
fn no_answers() -> (map: DashMap<Vec<u8>, Entry, RandomState>)
    ensures
        kept_answers(map) == nothing_kept(),
{
    DashMap::new()
}

/// `DashMap::get`, with the value cloned: the answer about an id, if the map
/// holds one.
#[verifier::external_body]
fn find_answer(map: &DashMap<Vec<u8>, Entry, RandomState>, id: &Vec<u8>) -> (found: Option<Entry>)
    ensures
        found is Some <==> kept_answers(*map).dom().contains(id@),
        found matches Some(entry) ==> kept(entry) == kept_answers(*map)[id@],
{
    map.get(id).map(|entry| entry.value().clone())
}

/// `DashMap::insert`: the answer about an id is put in the place of any
/// earlier one.
#[verifier::external_body]
fn put_answer(map: &mut DashMap<Vec<u8>, Entry, RandomState>, id: Vec<u8>, entry: Entry)
    ensures
        kept_answers(*final(map)) == kept_answers(*old(map)).insert(id@, kept(entry)),
{
    map.insert(id, entry);
}

/// `DashMap::retain`, with `is_fresh` as the test: what passes it stays, the
/// rest leaves.
#[verifier::external_body]
fn drop_stale(
    map: &mut DashMap<Vec<u8>, Entry, RandomState>,
    current: u64,
    now: u128,
    ttl: u128,
)
    ensures
        kept_answers(*final(map)) == only_fresh(kept_answers(*old(map)), current, now, ttl),
{
    map.retain(|_, entry| is_fresh(entry.1, entry.2, current, now, ttl));
}

/// `DashMap::len`: how many answers the map holds.
#[verifier::external_body]
fn count_answers(map: &DashMap<Vec<u8>, Entry, RandomState>) -> (count: usize)
    ensures
        count == kept_answers(*map).len(),
{
    map.len()
}

/// `DashMap::clear`: the map holds nothing.
#[verifier::external_body]
fn drop_answers(map: &mut DashMap<Vec<u8>, Entry, RandomState>)
    ensures
        kept_answers(*final(map)) == nothing_kept(),
{
    map.clear();
}

fn is_fresh(generation: u64, stored: u128, current: u64, now: u128, ttl: u128) -> (is: bool)
    ensures
        is == fresh(generation, stored, current, now, ttl),
{
    let age: u128 = if now >= stored {
        now - stored
    } else {
        0
    };
    generation == current && age < ttl
}

/// The bytes of an id.
fn id_bytes<const N: usize>(id: &[u8; N]) -> (bytes: Vec<u8>)
    ensures
        bytes@ == id@,
{
    let mut bytes: Vec<u8> = Vec::with_capacity(N);
    let mut i: usize = 0;
    while i < N
        invariant
            i <= N,
            bytes@ == id@.take(i as int),
        decreases N - i,
    {
        bytes.push(id[i]);
        i = i + 1;
        assert(id@.take(i as int) =~= id@.take(i - 1).push(id@[i - 1]));
    }
    assert(id@.take(N as int) =~= id@);
    bytes
}

/// The id that has these bytes.
fn id_of<const N: usize>(bytes: &Vec<u8>) -> (id: [u8; N])
    requires
        bytes@.len() == N,
    ensures
        id@ == bytes@,
{
    let mut id: [u8; N] = [0u8; N];
    let mut i: usize = 0;
    while i < N
        invariant
            i <= N,
            bytes@.len() == N,
            forall|j: int| 0 <= j < i ==> id@[j] == bytes@[j],
        decreases N - i,
    {
        id[i] = bytes[i];
        i = i + 1;
    }
    assert(id@ =~= bytes@);
    id
}

fn pack<const N: usize>(contacts: &Vec<Contact<N>>) -> (entries: Vec<(Vec<u8>, Address)>)
    ensures
        listed(entries@) == packed(contacts@),
{
    let mut entries: Vec<(Vec<u8>, Address)> = Vec::with_capacity(contacts.len());
    let mut i: usize = 0;
    while i < contacts.len()
        invariant
            i <= contacts@.len(),
            entries@.len() == i,
            forall|j: int|
                0 <= j < i ==> (#[trigger] entries@[j]).0@ == contacts@[j].id@ && entries@[j].1
                    == contacts@[j].address,
        decreases contacts.len() - i,
    {
        entries.push((id_bytes(&contacts[i].id), contacts[i].address));
        i = i + 1;
    }
    assert(listed(entries@) =~= packed(contacts@));
    entries
}

fn unpack<const N: usize>(entries: &Vec<(Vec<u8>, Address)>) -> (contacts: Vec<Contact<N>>)
    requires
        forall|i: int| 0 <= i < entries@.len() ==> (#[trigger] entries@[i]).0@.len() == N,
    ensures
        packed(contacts@) == listed(entries@),
{
    let mut contacts: Vec<Contact<N>> = Vec::with_capacity(entries.len());
    let mut i: usize = 0;
    while i < entries.len()
        invariant
            i <= entries@.len(),
            contacts@.len() == i,
            forall|i: int| 0 <= i < entries@.len() ==> (#[trigger] entries@[i]).0@.len() == N,
            forall|j: int|
                0 <= j < i ==> (#[trigger] contacts@[j]).id@ == entries@[j].0@
                    && contacts@[j].address == entries@[j].1,
        decreases entries.len() - i,
    {
        contacts.push(Contact { id: id_of(&entries[i].0), address: entries[i].1 });
        i = i + 1;
    }
    assert(packed(contacts@) =~= listed(entries@));
    contacts
}

/// A kept list stands for one list of contacts only.
pub proof fn lemma_packed_injective<const N: usize>(a: Seq<Contact<N>>, b: Seq<Contact<N>>)
    requires
        packed(a) == packed(b),
    ensures
        a == b,
{
    assert(packed(a).len() == a.len() && packed(b).len() == b.len());
    assert forall|i: int| 0 <= i < a.len() implies a[i] == b[i] by {
        assert(packed(a)[i] == (a[i].id@, a[i].address));
        assert(packed(b)[i] == (b[i].id@, b[i].address));
        assert forall|j: int| 0 <= j < N implies a[i].id[j] == b[i].id[j] by {
            assert(a[i].id@[j] == b[i].id@[j]);
        }
        assert(a[i].id =~= b[i].id);
    }
    assert(a =~= b);
}

/// Caches [`CloseNodes::close_nodes`] answers per target id.
///
/// An entry is served while it is younger than `ttl` *and* no contact has been
/// added since it was computed. The generation counter is what makes the
/// second half cheap: a write bumps one number instead of walking the map, and
/// stale entries are recognised on the way out.
pub struct CachedCloseNodes<C> {
    inner: C,
    entries: DashMap<Vec<u8>, Entry, RandomState>,
    /// Bumped by every write, so entries computed before it are stale.
    generation: u64,
    clock: Instant,
    /// In nanoseconds.
    ttl: u128,
    capacity: usize,
    /// Whether a write bumps the generation. See [`CachedCloseNodes::ttl_only`].
    invalidate_on_write: bool,
}

impl<C> CachedCloseNodes<C> {
    /// The table underneath.
    pub closed spec fn below(&self) -> C {
        self.inner
    }

    /// The answers held, by the bytes of the id they answer about.
    pub closed spec fn answers(&self) -> Map<Seq<u8>, Kept> {
        kept_answers(self.entries)
    }

    /// How many writes there were, as far as they count.
    pub closed spec fn current(&self) -> u64 {
        self.generation
    }

    /// For how long an answer may be served, in nanoseconds.
    pub closed spec fn lifetime(&self) -> u128 {
        self.ttl
    }

    /// How many targets may be cached.
    pub closed spec fn limit(&self) -> usize {
        self.capacity
    }

    /// Whether a write makes the answers before it stale.
    pub closed spec fn invalidates(&self) -> bool {
        self.invalidate_on_write
    }

    /// What the cache serves about `id` at `now`.
    pub open spec fn serves<const N: usize>(&self, id: [u8; N], now: u128) -> Option<
        Seq<(Seq<u8>, Address)>,
    > {
        if self.answers().dom().contains(id@) && fresh(
            self.answers()[id@].1,
            self.answers()[id@].2,
            self.current(),
            now,
            self.lifetime(),
        ) {
            Some(self.answers()[id@].0)
        } else {
            None
        }
    }

    /// The settings and the write count are those of `other`.
    pub open spec fn set_up_as(&self, other: Self) -> bool {
        &&& self.current() == other.current()
        &&& self.lifetime() == other.lifetime()
        &&& self.limit() == other.limit()
        &&& self.invalidates() == other.invalidates()
    }

    /// No answer is of a generation still to come.
    pub open spec fn up_to_date(&self) -> bool {
        forall|id: Seq<u8>| #[trigger]
            self.answers().dom().contains(id) ==> self.answers()[id].1 <= self.current()
    }

    /// A cache that never serves an answer computed before the last write.
    ///
    /// `capacity` bounds the number of cached targets; a lookup sweeps through
    /// many ids, so without it the map grows with traffic rather than with the
    /// routing table. `ttl` is in nanoseconds.
    pub fn new(inner: C, ttl: u128, capacity: usize) -> (cache: Self)
        ensures
            cache.below() == inner,
            cache.answers() == nothing_kept(),
            cache.current() == 0,
            cache.lifetime() == ttl,
            cache.limit() == capacity,
            cache.invalidates(),
    {
        Self {
            inner,
            entries: no_answers(),
            generation: 0,
            clock: start_clock(),
            ttl,
            capacity,
            invalidate_on_write: true,
        }
    }

    /// A cache bounded only by `ttl`: writes go straight through and leave
    /// cached answers standing until they expire.
    ///
    /// This is the variant to want when contacts arrive constantly: a table
    /// that learns one per RPC bumps the generation faster than entries can be
    /// reused, and [`new`](Self::new) then costs the bookkeeping of a cache
    /// while behaving like none at all. What it trades away is small: a
    /// contact learned just now may not be routed to for up to `ttl`, and a
    /// lookup that misses it simply takes another round.
    pub fn ttl_only(inner: C, ttl: u128, capacity: usize) -> (cache: Self)
        ensures
            cache.below() == inner,
            cache.answers() == nothing_kept(),
            cache.current() == 0,
            cache.lifetime() == ttl,
            cache.limit() == capacity,
            !cache.invalidates(),
    {
        let mut cache = Self::new(inner, ttl, capacity);
        cache.invalidate_on_write = false;
        cache
    }

    pub fn inner(&self) -> (below: &C)
        ensures
            *below == self.below(),
    {
        &self.inner
    }

    /// How many targets are cached.
    pub fn cached_targets(&self) -> (count: usize)
        ensures
            count == self.answers().len(),
    {
        count_answers(&self.entries)
    }

    /// Drops every cached answer, whether or not it has expired.
    pub fn clear(&mut self)
        ensures
            final(self).answers() == nothing_kept(),
            final(self).below() == old(self).below(),
            final(self).set_up_as(*old(self)),
    {
        drop_answers(&mut self.entries);
    }

    /// Makes room for one more entry, preferring to drop what is already dead
    /// and falling back to dropping everything: an LRU's bookkeeping would
    /// cost more than recomputing a sort of the routing table.
    fn make_room(&mut self, now: u128)
        requires
            old(self).answers().dom().finite(),
            old(self).limit() > 0,
        ensures
            final(self).answers() == with_room(
                old(self).answers(),
                old(self).limit(),
                old(self).current(),
                now,
                old(self).lifetime(),
            ),
            final(self).answers().dom().finite(),
            final(self).answers().len() < old(self).limit(),
            final(self).below() == old(self).below(),
            final(self).set_up_as(*old(self)),
    {
        let count: usize = count_answers(&self.entries);
        if count < self.capacity {
            return ;
        }
        drop_stale(&mut self.entries, self.generation, now, self.ttl);
        assert(self.answers().dom() =~= old(self).answers().dom().intersect(self.answers().dom()));
        let left: usize = count_answers(&self.entries);
        if left >= self.capacity {
            drop_answers(&mut self.entries);
        }
    }

    /// The answer about `id` that may be served at `now`.
    pub fn cached_answer<const N: usize>(&self, id: [u8; N], now: u128) -> (found: Option<
        Vec<Contact<N>>,
    >)
        where C: CloseNodes<N>
        requires
            self.wf(),
        ensures
            match found {
                Some(contacts) => self.serves(id, now) == Some(packed(contacts@)),
                None => self.serves(id, now) is None,
            },
    {
        match find_answer(&self.entries, &id_bytes(&id)) {
            Some(entry) => {
                if is_fresh(entry.1, entry.2, self.generation, now, self.ttl) {
                    proof {
                        let answer = self.answers()[id@];
                        assert forall|i: int| 0 <= i < entry.0@.len() implies (
                        #[trigger] entry.0@[i]).0@.len() == N by {
                            assert(answer.0[i].0 == entry.0@[i].0@);
                        }
                    }
                    Some(unpack(&entry.0))
                } else {
                    None
                }
            },
            None => None,
        }
    }

    /// Keep an answer that was computed just now. A cache without capacity
    /// keeps none.
    pub fn remember<const N: usize>(&mut self, id: [u8; N], contacts: &Vec<Contact<N>>, now: u128)
        where C: CloseNodes<N>
        requires
            old(self).wf(),
        ensures
            final(self).wf(),
            final(self).below() == old(self).below(),
            final(self).set_up_as(*old(self)),
            final(self).answers() == remembered(
                old(self).answers(),
                id@,
                packed(contacts@),
                old(self).limit(),
                old(self).current(),
                now,
                old(self).lifetime(),
            ),
    {
        if self.capacity == 0 {
            return ;
        }
        self.make_room(now);
        let entry: Entry = (pack(contacts), self.generation, now);
        put_answer(&mut self.entries, id_bytes(&id), entry);
    }
}

impl<const N: usize, C: CloseNodes<N>> CloseNodes<N> for CachedCloseNodes<C> {
    /// The table underneath is in order, no more targets are cached than may
    /// be, and every id that an answer holds is whole.
    open spec fn wf(&self) -> bool {
        &&& self.below().wf()
        &&& self.answers().dom().finite()
        &&& self.answers().len() <= self.limit()
        &&& forall|id: Seq<u8>, i: int| #[trigger]
            self.answers().dom().contains(id) && 0 <= i < self.answers()[id].0.len() ==> (
            #[trigger] self.answers()[id].0[i]).0.len() == N
    }

    /// The kept answer, if one may be served at the time of asking; if not,
    /// what the table underneath answers, which is kept.
    open spec fn asked(before: Self, id: [u8; N], after: Self, out: Seq<Contact<N>>) -> bool {
        exists|now: u128|
            match #[trigger] before.serves(id, now) {
                Some(contacts) => after == before && contacts == packed(out),
                None => {
                    &&& C::asked(before.below(), id, after.below(), out)
                    &&& after.set_up_as(before)
                    &&& exists|later: u128|
                        after.answers() == #[trigger] remembered(
                            before.answers(),
                            id@,
                            packed(out),
                            before.limit(),
                            before.current(),
                            later,
                            before.lifetime(),
                        )
                },
            }
    }

    /// The table underneath is offered the contact. The answers are all kept,
    /// but none of them is of the new generation where writes count.
    open spec fn offered(before: Self, contact: Contact<N>, after: Self) -> bool {
        &&& C::offered(before.below(), contact, after.below())
        &&& after.answers() == before.answers()
        &&& after.lifetime() == before.lifetime()
        &&& after.limit() == before.limit()
        &&& after.invalidates() == before.invalidates()
        &&& after.current() == if before.invalidates() {
            before.current().wrapping_add(1)
        } else {
            before.current()
        }
    }

    fn close_nodes(&mut self, id: [u8; N]) -> (out: Vec<Contact<N>>) {
        let now: u128 = read_clock(&self.clock);
        match self.cached_answer(id, now) {
            Some(contacts) => {
                assert(self.serves(id, now) == Some(packed(contacts@)));
                contacts
            },
            None => {
                assert(old(self).serves(id, now) is None);
                let contacts: Vec<Contact<N>> = self.inner.close_nodes(id);
                let later: u128 = read_clock(&self.clock);
                self.remember(id, &contacts, later);
                assert(self.answers() == remembered(
                    old(self).answers(),
                    id@,
                    packed(contacts@),
                    old(self).limit(),
                    old(self).current(),
                    later,
                    old(self).lifetime(),
                ));
                contacts
            },
        }
    }

    fn maybe_add_contact(&mut self, contact: Contact<N>) {
        self.inner.maybe_add_contact(contact);
        // A write invalidates every target, not just nearby ones: a contact
        // can enter the k closest of any id. That is why the write-heavy case
        // has its own constructor rather than a cheaper invalidation.
        if self.invalidate_on_write {
            self.generation = self.generation.wrapping_add(1);
        }
    }
}

/// Whatever is asked, no answer is of a generation still to come.
pub proof fn lemma_asking_stays_up_to_date<C: CloseNodes<N>, const N: usize>(
    before: CachedCloseNodes<C>,
    id: [u8; N],
    after: CachedCloseNodes<C>,
    out: Seq<Contact<N>>,
)
    requires
        before.up_to_date(),
        CachedCloseNodes::<C>::asked(before, id, after, out),
    ensures
        after.up_to_date(),
{
}

/// A cache that writes invalidate serves nothing that was computed before the
/// last write. This holds until the count of writes starts over.
pub proof fn lemma_a_write_makes_every_answer_stale<C: CloseNodes<N>, const N: usize>(
    before: CachedCloseNodes<C>,
    contact: Contact<N>,
    after: CachedCloseNodes<C>,
    id: [u8; N],
    now: u128,
)
    requires
        before.up_to_date(),
        before.invalidates(),
        before.current() < u64::MAX,
        CachedCloseNodes::<C>::offered(before, contact, after),
    ensures
        after.up_to_date(),
        after.serves(id, now) is None,
{
}

/// A cache that is bounded only by its ttl serves through writes what it
/// served before.
pub proof fn lemma_ttl_only_serves_through_writes<C: CloseNodes<N>, const N: usize>(
    before: CachedCloseNodes<C>,
    contact: Contact<N>,
    after: CachedCloseNodes<C>,
    id: [u8; N],
    now: u128,
)
    requires
        !before.invalidates(),
        CachedCloseNodes::<C>::offered(before, contact, after),
    ensures
        after.serves(id, now) == before.serves(id, now),
{
}

/// An answer is served again for as long as it lives: from the time that it
/// was kept at, whenever that was, until a ttl later. A cache without capacity
/// keeps none.
pub proof fn lemma_repeated_targets_hit_the_cache<C: CloseNodes<N>, const N: usize>(
    before: CachedCloseNodes<C>,
    id: [u8; N],
    after: CachedCloseNodes<C>,
    out: Seq<Contact<N>>,
    now: u128,
)
    requires
        before.limit() > 0,
        CachedCloseNodes::<C>::asked(before, id, after, out),
        after.answers()[id@].2 <= now < after.answers()[id@].2 + after.lifetime(),
    ensures
        after.serves(id, now) == Some(packed(out)),
{
}

/// With no time to live, nothing is ever served from the cache.
pub proof fn lemma_without_a_lifetime_nothing_is_served<C: CloseNodes<N>, const N: usize>(
    cache: CachedCloseNodes<C>,
    id: [u8; N],
    now: u128,
)
    requires
        cache.lifetime() == 0,
    ensures
        cache.serves(id, now) is None,
{
}

/// Once an answer is as old as the ttl, it is not served any more.
pub proof fn lemma_expired_answers_are_not_served<C: CloseNodes<N>, const N: usize>(
    cache: CachedCloseNodes<C>,
    id: [u8; N],
    now: u128,
)
    requires
        now >= cache.answers()[id@].2 + cache.lifetime(),
    ensures
        cache.serves(id, now) is None,
{
}

/// What `table` can answer about `id`, as it is.
pub open spec fn can_answer<C: CloseNodes<N>, const N: usize>(
    table: C,
    id: [u8; N],
    out: Seq<Contact<N>>,
) -> bool {
    exists|after: C| #[trigger] C::asked(table, id, after, out)
}

/// Being asked leaves `table` with the answers it had: they change through
/// offers only.
pub open spec fn is_steady<C: CloseNodes<N>, const N: usize>(table: C) -> bool {
    forall|id: [u8; N], after: C, out: Seq<Contact<N>>, other: [u8; N], answer: Seq<Contact<N>>|
        #[trigger] C::asked(table, id, after, out) && #[trigger] can_answer(table, other, answer)
            ==> can_answer(after, other, answer)
}

/// The kept answer about `id`, if it is of the current generation, is one that
/// the table below can give as it is now.
pub open spec fn is_faithful_about<C: CloseNodes<N>, const N: usize>(
    cache: CachedCloseNodes<C>,
    id: [u8; N],
) -> bool {
    cache.answers().dom().contains(id@) && cache.answers()[id@].1 == cache.current() ==> exists|
        out: Seq<Contact<N>>,
    |
        packed(out) == cache.answers()[id@].0 && #[trigger] can_answer(cache.below(), id, out)
}

/// Every kept answer of the current generation is one that the table below can
/// give as it is now.
pub open spec fn is_faithful<C: CloseNodes<N>, const N: usize>(
    cache: CachedCloseNodes<C>,
) -> bool {
    forall|id: [u8; N]| #[trigger] is_faithful_about(cache, id)
}

/// A faithful cache answers as the table below would at that moment, and stays
/// faithful.
pub proof fn lemma_a_cache_answers_as_the_table_does<C: CloseNodes<N>, const N: usize>(
    before: CachedCloseNodes<C>,
    id: [u8; N],
    after: CachedCloseNodes<C>,
    out: Seq<Contact<N>>,
)
    requires
        is_faithful::<C, N>(before),
        is_steady::<C, N>(before.below()),
        CachedCloseNodes::<C>::asked(before, id, after, out),
    ensures
        can_answer(before.below(), id, out),
        is_faithful::<C, N>(after),
{
    let now = choose|now: u128|
        match #[trigger] before.serves(id, now) {
            Some(contacts) => after == before && contacts == packed(out),
            None => {
                &&& C::asked(before.below(), id, after.below(), out)
                &&& after.set_up_as(before)
                &&& exists|later: u128|
                    after.answers() == #[trigger] remembered(
                        before.answers(),
                        id@,
                        packed(out),
                        before.limit(),
                        before.current(),
                        later,
                        before.lifetime(),
                    )
            },
        };
    assert(is_faithful_about(before, id));
    if before.serves(id, now) is Some {
        let kept = choose|kept: Seq<Contact<N>>|
            packed(kept) == before.answers()[id@].0 && #[trigger] can_answer(
                before.below(),
                id,
                kept,
            );
        lemma_packed_injective(kept, out);
    } else {
        assert(can_answer(before.below(), id, out));
        assert forall|other: [u8; N]| #[trigger] is_faithful_about(after, other) by {
            if after.answers().dom().contains(other@) && after.answers()[other@].1
                == after.current() {
                if other@ == id@ && before.limit() > 0 {
                    lemma_same_bytes_same_id(other, id);
                    assert(can_answer(after.below(), other, out));
                    assert(packed(out) == after.answers()[other@].0);
                } else {
                    assert(is_faithful_about(before, other));
                    assert(before.answers().dom().contains(other@));
                    let kept = choose|kept: Seq<Contact<N>>|
                        packed(kept) == before.answers()[other@].0 && #[trigger] can_answer(
                            before.below(),
                            other,
                            kept,
                        );
                    assert(can_answer(after.below(), other, kept));
                    assert(packed(kept) == after.answers()[other@].0);
                }
            }
        }
    }
}

/// A cache that was just written to is faithful, if writes count: whatever it
/// keeps is of an earlier generation. This holds until the count of writes
/// starts over.
pub proof fn lemma_a_cache_is_faithful_across_writes<C: CloseNodes<N>, const N: usize>(
    before: CachedCloseNodes<C>,
    contact: Contact<N>,
    after: CachedCloseNodes<C>,
)
    requires
        before.up_to_date(),
        before.invalidates(),
        before.current() < u64::MAX,
        CachedCloseNodes::<C>::offered(before, contact, after),
    ensures
        is_faithful::<C, N>(after),
        after.up_to_date(),
        after.invalidates(),
{
}

/// A new cache is faithful.
pub proof fn lemma_a_new_cache_is_faithful<C: CloseNodes<N>, const N: usize>(
    cache: CachedCloseNodes<C>,
)
    requires
        cache.answers() == nothing_kept(),
    ensures
        is_faithful::<C, N>(cache),
        cache.up_to_date(),
{
}

proof fn lemma_same_bytes_same_id<const N: usize>(a: [u8; N], b: [u8; N])
    requires
        a@ == b@,
    ensures
        a == b,
{
    assert forall|i: int| 0 <= i < N implies a[i] == b[i] by {
        assert(a@[i] == b@[i]);
    }
    assert(a =~= b);
}

/// `after` can come of one call on `before`: a question or an offer.
pub open spec fn is_one_call<C: CloseNodes<N>, const N: usize>(
    before: CachedCloseNodes<C>,
    after: CachedCloseNodes<C>,
) -> bool {
    ||| exists|id: [u8; N], out: Seq<Contact<N>>| #[trigger]
        CachedCloseNodes::<C>::asked(before, id, after, out)
    ||| exists|contact: Contact<N>| #[trigger]
        CachedCloseNodes::<C>::offered(before, contact, after)
}

/// Whatever calls are made on a new cache that writes invalidate, at every
/// moment it answers as the table below would then, if that table's answers
/// change through offers only. This holds until the count of writes starts
/// over.
pub proof fn lemma_a_cache_always_answers_as_the_table_does<C: CloseNodes<N>, const N: usize>(
    states: Seq<CachedCloseNodes<C>>,
    i: int,
    id: [u8; N],
    after: CachedCloseNodes<C>,
    out: Seq<Contact<N>>,
)
    requires
        0 <= i < states.len() <= u64::MAX,
        states[0].answers() == nothing_kept(),
        states[0].current() == 0,
        states[0].invalidates(),
        forall|j: int| 0 <= j < states.len() ==> is_steady::<C, N>((#[trigger] states[j]).below()),
        forall|j: int|
            0 < j < states.len() ==> is_one_call::<C, N>(states[j - 1], #[trigger] states[j]),
        CachedCloseNodes::<C>::asked(states[i], id, after, out),
    ensures
        can_answer(states[i].below(), id, out),
{
    lemma_stays_faithful::<C, N>(states, i);
    assert(is_steady::<C, N>(states[i].below()));
    lemma_a_cache_answers_as_the_table_does(states[i], id, after, out);
}

proof fn lemma_stays_faithful<C: CloseNodes<N>, const N: usize>(
    states: Seq<CachedCloseNodes<C>>,
    i: int,
)
    requires
        0 <= i < states.len() <= u64::MAX,
        states[0].answers() == nothing_kept(),
        states[0].current() == 0,
        states[0].invalidates(),
        forall|j: int| 0 <= j < states.len() ==> is_steady::<C, N>((#[trigger] states[j]).below()),
        forall|j: int|
            0 < j < states.len() ==> is_one_call::<C, N>(states[j - 1], #[trigger] states[j]),
    ensures
        is_faithful::<C, N>(states[i]),
        states[i].up_to_date(),
        states[i].invalidates(),
        states[i].current() <= i,
    decreases i,
{
    if i == 0 {
        lemma_a_new_cache_is_faithful::<C, N>(states[0]);
    } else {
        lemma_stays_faithful::<C, N>(states, i - 1);
        let before = states[i - 1];
        let after = states[i];
        assert(is_steady::<C, N>(before.below()));
        assert(is_one_call::<C, N>(before, after));
        if exists|id: [u8; N], out: Seq<Contact<N>>| #[trigger]
            CachedCloseNodes::<C>::asked(before, id, after, out) {
            let (id, out) = choose|id: [u8; N], out: Seq<Contact<N>>| #[trigger]
                CachedCloseNodes::<C>::asked(before, id, after, out);
            lemma_a_cache_answers_as_the_table_does(before, id, after, out);
            lemma_asking_stays_up_to_date(before, id, after, out);
        } else {
            let contact = choose|contact: Contact<N>| #[trigger]
                CachedCloseNodes::<C>::offered(before, contact, after);
            lemma_a_cache_is_faithful_across_writes(before, contact, after);
        }
    }
}

/// Over a table of buckets a faithful cache answers exactly what the buckets
/// do at that moment, in whatever order questions and writes come.
pub proof fn lemma_a_cache_over_buckets_is_exact<
    const BUCKET_SIZE: usize,
    const SEARCH_SHIFT: usize,
    const MAX_BUCKETS: usize,
    const N: usize,
>(
    before: CachedCloseNodes<StaticBucket<BUCKET_SIZE, SEARCH_SHIFT, MAX_BUCKETS, N>>,
    id: [u8; N],
    after: CachedCloseNodes<StaticBucket<BUCKET_SIZE, SEARCH_SHIFT, MAX_BUCKETS, N>>,
    out: Seq<Contact<N>>,
)
    requires
        is_faithful::<StaticBucket<BUCKET_SIZE, SEARCH_SHIFT, MAX_BUCKETS, N>, N>(before),
        CachedCloseNodes::<StaticBucket<BUCKET_SIZE, SEARCH_SHIFT, MAX_BUCKETS, N>>::asked(
            before,
            id,
            after,
            out,
        ),
    ensures
        out == static_bucket::answer(before.below().buckets(), before.below().home(id), id),
        is_faithful::<StaticBucket<BUCKET_SIZE, SEARCH_SHIFT, MAX_BUCKETS, N>, N>(after),
{
    lemma_a_cache_answers_as_the_table_does(before, id, after, out);
}

/// What a cache serves at some time: what it keeps about that very id, as long
/// as nothing was written since that counts, and less than the ttl has passed.
pub proof fn lemma_what_is_served_is_kept_and_young<C, const N: usize>(
    cache: CachedCloseNodes<C>,
    id: [u8; N],
    now: u128,
)
    ensures
        cache.serves(id, now) == if cache.answers().dom().contains(id@) && cache.answers()[id@].1
            == cache.current() && now - cache.answers()[id@].2 < cache.lifetime()
            && cache.lifetime() > 0 {
            Some(cache.answers()[id@].0)
        } else {
            None
        },
{
}

/// An answer is what was kept about that very id, whole and in order, at a
/// time when it may be served; or else it is what the table below answers,
/// and it is kept, unless nothing may be. Nothing else is ever kept, and
/// nothing leaves a cache that has room.
pub proof fn lemma_an_answer_is_kept_or_asked_for<C: CloseNodes<N>, const N: usize>(
    before: CachedCloseNodes<C>,
    id: [u8; N],
    after: CachedCloseNodes<C>,
    out: Seq<Contact<N>>,
) -> (served: Option<u128>)
    requires
        before.wf(),
        CachedCloseNodes::<C>::asked(before, id, after, out),
    ensures
        after.current() == before.current(),
        after.lifetime() == before.lifetime(),
        after.limit() == before.limit(),
        after.invalidates() == before.invalidates(),
        match served {
            Some(now) => {
                &&& after == before
                &&& before.answers().dom().contains(id@)
                &&& before.answers()[id@].1 == before.current()
                &&& now - before.answers()[id@].2 < before.lifetime()
                &&& before.answers()[id@].0.len() == out.len()
                &&& forall|i: int|
                    0 <= i < out.len() ==> before.answers()[id@].0[i] == (
                        (#[trigger] out[i]).id@,
                        out[i].address,
                    )
            },
            None => {
                &&& C::asked(before.below(), id, after.below(), out)
                &&& before.limit() == 0 ==> after.answers() == before.answers()
                &&& before.limit() > 0 ==> {
                    &&& after.answers().dom().contains(id@)
                    &&& after.answers()[id@].1 == before.current()
                    &&& after.answers()[id@].0.len() == out.len()
                    &&& forall|i: int|
                        0 <= i < out.len() ==> after.answers()[id@].0[i] == (
                            (#[trigger] out[i]).id@,
                            out[i].address,
                        )
                }
                &&& forall|other: Seq<u8>|
                    other != id@ && #[trigger] after.answers().dom().contains(other)
                        ==> before.answers().dom().contains(other) && after.answers()[other]
                        == before.answers()[other]
                &&& before.answers().len() < before.limit() ==> forall|other: Seq<u8>|
                    #[trigger] before.answers().dom().contains(other)
                        ==> after.answers().dom().contains(other)
            },
        },
{
    let now = choose|now: u128|
        match #[trigger] before.serves(id, now) {
            Some(contacts) => after == before && contacts == packed(out),
            None => {
                &&& C::asked(before.below(), id, after.below(), out)
                &&& after.set_up_as(before)
                &&& exists|later: u128|
                    after.answers() == #[trigger] remembered(
                        before.answers(),
                        id@,
                        packed(out),
                        before.limit(),
                        before.current(),
                        later,
                        before.lifetime(),
                    )
            },
        };
    assert(packed(out).len() == out.len());
    assert forall|i: int| 0 <= i < out.len() implies packed(out)[i] == (
        (#[trigger] out[i]).id@,
        out[i].address,
    ) by {}
    if before.serves(id, now) is Some {
        Some(now)
    } else {
        None
    }
}

/// What is kept once one more answer was: that answer, under its id and of its
/// time. Everything else stays while there is room; without room, what is dead
/// leaves; and if that does not make room, all of it. Nothing changes that
/// stays, and where none may be kept, none is.
pub proof fn lemma_room_is_made_by_dropping_the_dead_first(
    answers: Map<Seq<u8>, Kept>,
    id: Seq<u8>,
    contacts: Seq<(Seq<u8>, Address)>,
    capacity: usize,
    current: u64,
    now: u128,
    ttl: u128,
)
    requires
        answers.dom().finite(),
    ensures
        ({
            let after = remembered(answers, id, contacts, capacity, current, now, ttl);
            let alive = answers.dom().filter(
                |kept: Seq<u8>|
                    answers[kept].1 == current && now - answers[kept].2 < ttl && ttl > 0,
            );
            &&& capacity == 0 ==> after == answers
            &&& capacity > 0 ==> {
                &&& after.dom() == (if answers.dom().len() < capacity {
                    answers.dom()
                } else if alive.len() < capacity {
                    alive
                } else {
                    Set::empty()
                }).insert(id)
                &&& after[id] == (contacts, current, now)
                &&& forall|other: Seq<u8>|
                    other != id && #[trigger] after.dom().contains(other) ==> after[other]
                        == answers[other]
            }
        }),
{
    let alive = answers.dom().filter(
        |kept: Seq<u8>| answers[kept].1 == current && now - answers[kept].2 < ttl && ttl > 0,
    );
    assert(only_fresh(answers, current, now, ttl).dom() =~= alive);
    let after = remembered(answers, id, contacts, capacity, current, now, ttl);
    if capacity > 0 {
        assert(after.dom() =~= (if answers.dom().len() < capacity {
            answers.dom()
        } else if alive.len() < capacity {
            alive
        } else {
            Set::empty()
        }).insert(id));
    }
}

/// Every write goes through to the table below, and takes no answer away. It
/// counts where writes do, and changes nothing else.
pub proof fn lemma_every_write_goes_through<C: CloseNodes<N>, const N: usize>(
    before: CachedCloseNodes<C>,
    contact: Contact<N>,
    after: CachedCloseNodes<C>,
)
    requires
        CachedCloseNodes::<C>::offered(before, contact, after),
    ensures
        C::offered(before.below(), contact, after.below()),
        after.answers() == before.answers(),
        after.lifetime() == before.lifetime(),
        after.limit() == before.limit(),
        after.invalidates() == before.invalidates(),
        before.invalidates() && before.current() < u64::MAX ==> after.current() == before.current()
            + 1,
        before.invalidates() && before.current() == u64::MAX ==> after.current() == 0,
        !before.invalidates() ==> after.current() == before.current(),
{
}

/// A cache keeps no more targets than it may.
pub proof fn lemma_a_cache_stays_within_its_capacity<C: CloseNodes<N>, const N: usize>(
    cache: CachedCloseNodes<C>,
)
    requires
        CloseNodes::<N>::wf(&cache),
    ensures
        cache.below().wf(),
        cache.answers().dom().finite(),
        cache.answers().dom().len() <= cache.limit(),
{
}

} // verus!
