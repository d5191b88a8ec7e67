//! The in-memory tier: placeholder SVG text by request, held in a `DashMap`
//! keyed by the request's wire key. Only blur requests enter it, and entries
//! are never removed.
use crate::request::{CachedImage, RequestView};
use crate::text::ascii_chars;
use crate::wire::wire_bytes;
use dashmap::DashMap;
use vstd::prelude::*;

verus! {

/// The `dashmap` crate's concurrent map, known only through `placeholder_entries`.
#[verifier::external_type_specification]
#[verifier::external_body]
#[verifier::reject_recursive_types(K)]
#[verifier::reject_recursive_types(V)]
#[verifier::reject_recursive_types(S)]
pub struct ExDashMap<K, V, S>(DashMap<K, V, S>);

/// The entries of a map from wire keys to placeholder text.
pub uninterp spec fn placeholder_entries(m: DashMap<String, String>) -> Map<Seq<char>, Seq<char>>;

/// The map without entries.
pub open spec fn no_entries() -> Map<Seq<char>, Seq<char>> {
    Map::empty()
}

/// Relies on `DashMap::new`: an empty map.
#[verifier::external_body]
fn new_map() -> (r: DashMap<String, String>)
    ensures
        placeholder_entries(r) == no_entries(),
{
    DashMap::new()
}

/// Relies on `DashMap::get`: the value stored under the key, if any (cloned
/// out of the guard).
#[verifier::external_body]
fn map_get(m: &DashMap<String, String>, key: &str) -> (r: Option<String>)
    ensures
        r is Some <==> placeholder_entries(*m).contains_key(key@),
        r matches Some(v) ==> v@ == placeholder_entries(*m)[key@],
{
    m.get(key).map(|entry| entry.value().clone())
}

/// Relies on `DashMap::contains_key`: whether the key has a value.
#[verifier::external_body]
fn map_contains(m: &DashMap<String, String>, key: &str) -> (r: bool)
    ensures
        r == placeholder_entries(*m).contains_key(key@),
{
    m.contains_key(key)
}

/// Relies on `DashMap::insert`: stores the value under the key, replacing any
/// earlier one.
#[verifier::external_body]
fn map_insert(m: &mut DashMap<String, String>, key: String, value: String)
    ensures
        placeholder_entries(*final(m)) == placeholder_entries(*old(m)).insert(key@, value@),
{
    m.insert(key, value);
}

/// The key a request is stored under: its wire key.
pub open spec fn memory_key(r: RequestView) -> Seq<char> {
    ascii_chars(wire_bytes(r))
}

/// Placeholder text of blur requests, for serving without touching disk.
pub struct PlaceholderCache {
    entries: DashMap<String, String>,
}

impl View for PlaceholderCache {
    type V = Map<Seq<char>, Seq<char>>;

    closed spec fn view(&self) -> Map<Seq<char>, Seq<char>> {
        placeholder_entries(self.entries)
    }
}

impl PlaceholderCache {
    /// An empty cache.
    pub fn new() -> (r: PlaceholderCache)
        ensures
            r@ == Map::<Seq<char>, Seq<char>>::empty(),
    {
        PlaceholderCache { entries: new_map() }
    }

    /// The placeholder text held for `req`, if any.
    pub fn lookup_memory(&self, req: &CachedImage) -> (r: Option<String>)
        ensures
            r is Some <==> self@.contains_key(memory_key(req@)),
            r matches Some(text) ==> text@ == self@[memory_key(req@)],
    {
        let key = req.encode_wire();
        map_get(&self.entries, key.as_str())
    }

    /// Whether `req` is a blur request whose text is not held yet.
    pub fn needs_warming(&self, req: &CachedImage) -> (r: bool)
        ensures
            r == (req.is_blur() && !self@.contains_key(memory_key(req@))),
    {
        if !req.wants_blur() {
            return false;
        }
        let key = req.encode_wire();
        !map_contains(&self.entries, key.as_str())
    }

    /// Records the placeholder text read for `req`: only for a blur request,
    /// and only if none is held yet. Nothing is ever removed.
    pub fn warm_memory_cache(&mut self, req: &CachedImage, text: String)
        ensures
            final(self)@ == if req.is_blur() && !old(self)@.contains_key(memory_key(req@)) {
                old(self)@.insert(memory_key(req@), text@)
            } else {
                old(self)@
            },
    {
        if self.needs_warming(req) {
            let key = req.encode_wire();
            map_insert(&mut self.entries, key, text);
        }
    }
}

} // verus!
