//! The worker's key-value store: a `dashmap::DashMap` from keys to values.

use vstd::prelude::*;
use dashmap::DashMap;

verus! {

#[verifier::external_type_specification]
#[verifier::external_body]
#[verifier::reject_recursive_types(K)]
#[verifier::reject_recursive_types(V)]
#[verifier::reject_recursive_types(S)]
pub struct ExDashMap<K, V, S>(DashMap<K, V, S>);

/// The key-value pairs that a store holds.
pub uninterp spec fn store_contents(store: DashMap<String, String>) -> Map<Seq<char>, Seq<char>>;

/// Calls `DashMap::new`. Trusted: the new map holds nothing.
#[verifier::external_body]
fn store_new() -> (fresh: DashMap<String, String>)
    ensures
        store_contents(fresh).dom() == Set::<Seq<char>>::empty(),
{
    DashMap::new()
}

/// Calls `DashMap::insert` with exclusive access to the map. Trusted: the
/// key now maps to the value, every other key is unchanged, and the previous
/// value of the key (if any) is returned.
#[verifier::external_body]
fn store_insert(store: &mut DashMap<String, String>, key: String, value: String) -> (previous: Option<String>)
    ensures
        store_contents(*final(store)) == store_contents(*old(store)).insert(key@, value@),
        match previous {
            Some(v) => store_contents(*old(store)).contains_key(key@) && v@ == store_contents(
                *old(store),
            )[key@],
            None => !store_contents(*old(store)).contains_key(key@),
        },
{
    store.insert(key, value)
}

/// Calls `DashMap::get` and copies the value out. Trusted: the result is the
/// key's value, or `None` when the key is absent.
#[verifier::external_body]
fn store_get(store: &DashMap<String, String>, key: &str) -> (value: Option<String>)
    ensures
        match value {
            Some(v) => store_contents(*store).contains_key(key@) && v@ == store_contents(
                *store,
            )[key@],
            None => !store_contents(*store).contains_key(key@),
        },
{
    store.get(key).map(|entry| entry.value().clone())
}

/// Walks `DashMap::iter` and copies each pair out. Trusted: every pair of
/// the map occurs exactly once, in an order that the map decides.
#[verifier::external_body]
fn store_entries(store: &DashMap<String, String>) -> (entries: Vec<(String, String)>)
    ensures
        forall|i: int|
            0 <= i < entries@.len() ==> store_contents(*store).contains_key(#[trigger] entries@[i].0@)
                && store_contents(*store)[entries@[i].0@] == entries@[i].1@,
        forall|i: int, j: int|
            0 <= i < j < entries@.len() ==> #[trigger] entries@[i].0@ != #[trigger] entries@[j].0@,
        forall|k: Seq<char>|
            #[trigger] store_contents(*store).contains_key(k) ==> exists|i: int|
                0 <= i < entries@.len() && entries@[i].0@ == k,
{
    let mut out = Vec::new();
    for entry in store.iter() {
        out.push((entry.key().clone(), entry.value().clone()));
    }
    out
}

/// A worker's key-value store. The map is private, so every change goes
/// through `insert`, which takes the store by `&mut`.
pub struct Store {
    map: DashMap<String, String>,
}

impl View for Store {
    type V = Map<Seq<char>, Seq<char>>;

    closed spec fn view(&self) -> Map<Seq<char>, Seq<char>> {
        store_contents(self.map)
    }
}

impl Store {
    /// An empty store.
    pub fn new() -> (store: Self)
        ensures
            store@.dom() == Set::<Seq<char>>::empty(),
    {
        Store { map: store_new() }
    }

    /// Stores `value` under `key`, and returns the key's previous value.
    pub fn insert(&mut self, key: String, value: String) -> (previous: Option<String>)
        ensures
            final(self)@ == old(self)@.insert(key@, value@),
            match previous {
                Some(v) => old(self)@.contains_key(key@) && v@ == old(self)@[key@],
                None => !old(self)@.contains_key(key@),
            },
    {
        store_insert(&mut self.map, key, value)
    }

    /// The value stored under `key`, if any.
    pub fn get(&self, key: &str) -> (value: Option<String>)
        ensures
            match value {
                Some(v) => self@.contains_key(key@) && v@ == self@[key@],
                None => !self@.contains_key(key@),
            },
    {
        store_get(&self.map, key)
    }

    /// Every key and value, each key once, in an order the map decides.
    pub fn entries(&self) -> (entries: Vec<(String, String)>)
        ensures
            forall|i: int|
                0 <= i < entries@.len() ==> self@.contains_key(#[trigger] entries@[i].0@)
                    && self@[entries@[i].0@] == entries@[i].1@,
            forall|i: int, j: int|
                0 <= i < j < entries@.len() ==> #[trigger] entries@[i].0@ != #[trigger] entries@[j].0@,
            forall|k: Seq<char>|
                #[trigger] self@.contains_key(k) ==> exists|i: int|
                    0 <= i < entries@.len() && entries@[i].0@ == k,
    {
        store_entries(&self.map)
    }
}

} // verus!
