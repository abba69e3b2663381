//! The values that a node holds on behalf of the network.

use crate::close_nodes::Key;
use crate::hashing;
use dashmap::DashMap;
use std::collections::hash_map::RandomState;
use vstd::prelude::*;

verus! {

/// The values that a map holds, by their key.
pub uninterp spec fn stored(map: DashMap<[u8; 32], Vec<u8>, RandomState>) -> Map<Seq<u8>, Seq<u8>>;

/// No values at all.
pub open spec fn nothing() -> Map<Seq<u8>, Seq<u8>> {
    Map::empty()
}

/// Every value is stored under its own hash.
pub open spec fn content_addressed(values: Map<Seq<u8>, Seq<u8>>) -> bool {
    forall|key: Seq<u8>| #[trigger]
        values.dom().contains(key) ==> key == hashing::sha256(values[key])
}

/// `DashMap::new`: the map holds nothing.
#[verifier::external_body]
fn no_values() -> (map: DashMap<[u8; 32], Vec<u8>, RandomState>)
    ensures
        stored(map) == nothing(),
{
    DashMap::new()
}

/// `DashMap::get`, with the value cloned: the value under a key, if the map
/// holds one.
#[verifier::external_body]
fn find_value(map: &DashMap<[u8; 32], Vec<u8>, RandomState>, key: &[u8; 32]) -> (found: Option<
    Vec<u8>,
>)
    ensures
        found is Some <==> stored(*map).dom().contains(key@),
        found matches Some(value) ==> value@ == stored(*map)[key@],
{
    map.get(key).map(|value| value.value().clone())
}

/// `DashMap::insert`: the value is put under the key in the place of any
/// earlier one.
#[verifier::external_body]
fn put_value(map: &mut DashMap<[u8; 32], Vec<u8>, RandomState>, key: [u8; 32], value: Vec<u8>)
    ensures
        stored(*final(map)) == stored(*old(map)).insert(key@, value@),
{
    map.insert(key, value);
}

/// `out` lists each key once that `values` has, with the length of its value.
pub open spec fn lists_sizes(values: Map<Seq<u8>, Seq<u8>>, out: Seq<([u8; 32], usize)>) -> bool {
    &&& forall|i: int|
        0 <= i < out.len() ==> values.dom().contains((#[trigger] out[i]).0@) && out[i].1
            == values[out[i].0@].len()
    &&& forall|i: int, j: int| 0 <= i < j < out.len() ==> #[trigger] out[i].0 != #[trigger] out[j].0
    &&& forall|key: Seq<u8>| #[trigger]
        values.dom().contains(key) ==> exists|i: int|
            0 <= i < out.len() && #[trigger] out[i].0@ == key
}

/// `DashMap::iter`, with each item as its key and the length of its value:
/// each item once, in no particular order.
#[verifier::external_body]
fn list_sizes(map: &DashMap<[u8; 32], Vec<u8>, RandomState>) -> (out: Vec<([u8; 32], usize)>)
    ensures
        lists_sizes(stored(*map), out@),
{
    map.iter().map(|item| (*item.key(), item.value().len())).collect()
}

/// Values by their key.
pub struct Values {
    map: DashMap<[u8; 32], Vec<u8>, RandomState>,
}

impl View for Values {
    type V = Map<Seq<u8>, Seq<u8>>;

    closed spec fn view(&self) -> Map<Seq<u8>, Seq<u8>> {
        stored(self.map)
    }
}

impl Values {
    pub fn new() -> (values: Self)
        ensures
            values@ == nothing(),
    {
        Values { map: no_values() }
    }

    /// The value under `key`.
    pub fn get(&self, key: &Key) -> (found: Option<Vec<u8>>)
        ensures
            found is Some <==> self@.dom().contains(key@),
            found matches Some(value) ==> value@ == self@[key@],
    {
        find_value(&self.map, key)
    }

    /// Hold `value` under `key`.
    pub fn insert(&mut self, key: Key, value: Vec<u8>)
        ensures
            final(self)@ == old(self)@.insert(key@, value@),
    {
        put_value(&mut self.map, key, value);
    }

    /// Every key that a value is held under, with the value's size, in no
    /// particular order.
    pub fn sizes(&self) -> (out: Vec<(Key, usize)>)
        ensures
            lists_sizes(self@, out@),
    {
        list_sizes(&self.map)
    }
}

/// What is listed of the values: every key that there is one under, once, and
/// how long its value is.
pub proof fn lemma_every_key_is_listed_once(
    values: Map<Seq<u8>, Seq<u8>>,
    out: Seq<([u8; 32], usize)>,
    key: Seq<u8>,
)
    requires
        lists_sizes(values, out),
    ensures
        values.dom().contains(key) <==> exists|i: int|
            0 <= i < out.len() && (#[trigger] out[i]).0@ == key,
        forall|i: int|
            0 <= i < out.len() && (#[trigger] out[i]).0@ == key ==> out[i].1 == values[key].len(),
        forall|i: int, j: int|
            0 <= i < j < out.len() ==> (#[trigger] out[i]).0 != (#[trigger] out[j]).0,
{
}

/// Values are under their own hash exactly if each of them is.
pub proof fn lemma_content_addressing(values: Map<Seq<u8>, Seq<u8>>)
    ensures
        content_addressed(values) <==> forall|key: Seq<u8>| #[trigger]
            values.dom().contains(key) ==> hashing::sha256(values[key]) == key,
{
}

} // verus!
