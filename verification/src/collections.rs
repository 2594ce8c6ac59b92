use vstd::prelude::*;
use indexmap::IndexMap;
use slab::Slab;
use crate::file_tree::File;

verus! {

#[verifier::external_type_specification]
#[verifier::external_body]
#[verifier::reject_recursive_types(K)]
#[verifier::reject_recursive_types(V)]
#[verifier::reject_recursive_types(S)]
pub struct ExIndexMap<K, V, S>(IndexMap<K, V, S>);

#[verifier::external_type_specification]
#[verifier::external_body]
#[verifier::reject_recursive_types(T)]
pub struct ExSlab<T>(Slab<T>);

// ---------------------------------------------------------------------------
// The name-to-id maps that directories keep, in insertion order.
// ---------------------------------------------------------------------------

/// What an `IndexMap<String, usize>` holds: its entries in their order, each key
/// taken by its view.
pub uninterp spec fn child_entries(m: IndexMap<String, usize>) -> Seq<(Seq<char>, usize)>;

pub open spec fn has_key(es: Seq<(Seq<char>, usize)>, key: Seq<char>) -> bool {
    exists|i: int| 0 <= i < es.len() && #[trigger] es[i].0 == key
}

pub open spec fn key_position(es: Seq<(Seq<char>, usize)>, key: Seq<char>) -> int {
    choose|i: int| 0 <= i < es.len() && #[trigger] es[i].0 == key
}

pub open spec fn keys_distinct(es: Seq<(Seq<char>, usize)>) -> bool {
    forall|i: int, j: int| 0 <= i < j < es.len() ==> #[trigger] es[i].0 != #[trigger] es[j].0
}

/// The value stored under `key`, if any.
pub open spec fn lookup(es: Seq<(Seq<char>, usize)>, key: Seq<char>) -> Option<usize> {
    if has_key(es, key) {
        Some(es[key_position(es, key)].1)
    } else {
        None
    }
}

/// Inserting into an index map: an existing key keeps its place and takes the new
/// value; a new key goes last.
pub open spec fn insert_entry(es: Seq<(Seq<char>, usize)>, key: Seq<char>, value: usize) -> Seq<
    (Seq<char>, usize),
> {
    if has_key(es, key) {
        es.update(key_position(es, key), (key, value))
    } else {
        es.push((key, value))
    }
}

/// `Clone` for an index map: a copy of the entries in their order. Nothing is
/// stated of the copy here, because the impl is generic over the key, value and
/// hasher types and the names for what a map holds are not.
pub assume_specification<K, V, S>[<IndexMap<K, V, S> as Clone>::clone](m: &IndexMap<K, V, S>) -> IndexMap<K, V, S>
    where
        K: Clone,
        V: Clone,
        S: Clone,
;

/// `IndexMap::new`: a map with no entries.
#[verifier::external_body]
pub fn child_map_new() -> (m: IndexMap<String, usize>)
    ensures
        child_entries(m).len() == 0,
{
    IndexMap::new()
}

/// `IndexMap::len`: the number of entries.
#[verifier::external_body]
pub fn child_map_len(m: &IndexMap<String, usize>) -> (n: usize)
    ensures
        n == child_entries(*m).len(),
{
    m.len()
}

/// `IndexMap::get`, with the value copied out: the value stored under `key`.
/// Keys of an index map are distinct, so the entry with that key is unique.
#[verifier::external_body]
pub fn child_map_get(m: &IndexMap<String, usize>, key: &str) -> (r: Option<usize>)
    ensures
        r == lookup(child_entries(*m), key@),
{
    m.get(key).cloned()
}

/// `IndexMap::insert`: an existing key keeps its position and gets the new value,
/// a new key is appended; keys stay distinct.
#[verifier::external_body]
pub fn child_map_insert(m: &mut IndexMap<String, usize>, key: String, value: usize)
    ensures
        child_entries(*final(m)) == insert_entry(child_entries(*old(m)), key@, value),
        keys_distinct(child_entries(*final(m))),
{
    m.insert(key, value);
}

/// `IndexMap::iter`, each entry copied out: the entries in their order.
#[verifier::external_body]
pub fn child_map_entries(m: &IndexMap<String, usize>) -> (r: Vec<(String, usize)>)
    ensures
        r@.len() == child_entries(*m).len(),
        forall|i: int|
            0 <= i < r@.len() ==> (#[trigger] r@[i]).0@ == child_entries(*m)[i].0 && r@[i].1
                == child_entries(*m)[i].1,
{
    m.iter().map(|(k, v)| (k.clone(), *v)).collect()
}

// ---------------------------------------------------------------------------
// The arena of tree nodes.
// ---------------------------------------------------------------------------

/// What a `Slab<Box<File>>` holds: the occupied keys and their values.
pub uninterp spec fn slab_files(s: Slab<Box<File>>) -> Map<usize, Box<File>>;

/// What `Slab::vacant_key` returns: the key that the next insertion takes.
pub uninterp spec fn slab_next_key(s: Slab<Box<File>>) -> usize;

/// `Slab::new`: an empty slab.
#[verifier::external_body]
pub fn slab_new() -> (r: Slab<Box<File>>)
    ensures
        slab_files(r).is_empty(),
{
    Slab::new()
}

/// `Slab::vacant_key`: the key the next insertion takes, which is not occupied.
#[verifier::external_body]
pub fn slab_vacant_key(s: &Slab<Box<File>>) -> (k: usize)
    ensures
        k == slab_next_key(*s),
        !slab_files(*s).dom().contains(k),
{
    s.vacant_key()
}

/// `Slab::insert`: stores the value under the vacant key and returns that key.
#[verifier::external_body]
pub fn slab_insert(s: &mut Slab<Box<File>>, value: Box<File>) -> (k: usize)
    ensures
        k == slab_next_key(*old(s)),
        !slab_files(*old(s)).dom().contains(k),
        slab_files(*final(s)) == slab_files(*old(s)).insert(k, value),
{
    s.insert(value)
}

/// `Index` on a slab: the value under an occupied key (it panics on a vacant one).
#[verifier::external_body]
pub fn slab_get(s: &Slab<Box<File>>, key: usize) -> (r: &Box<File>)
    requires
        slab_files(*s).dom().contains(key),
    ensures
        *r == slab_files(*s)[key],
{
    &s[key]
}

/// `IndexMut` on a slab: the value under an occupied key, to be changed in place.
#[verifier::external_body]
pub fn slab_get_mut(s: &mut Slab<Box<File>>, key: usize) -> (r: &mut Box<File>)
    requires
        slab_files(*old(s)).dom().contains(key),
    ensures
        *r == slab_files(*old(s))[key],
        slab_files(*final(s)) == slab_files(*old(s)).insert(key, *final(r)),
{
    &mut s[key]
}

} // verus!
