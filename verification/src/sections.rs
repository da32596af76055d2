//! The insertion-ordered map from header sections to their tables, kept in an
//! `ordered_hash_map::OrderedHashMap`.

use ordered_hash_map::OrderedHashMap;
use vstd::prelude::*;

verus! {

#[verifier::external_type_specification]
#[verifier::external_body]
#[verifier::reject_recursive_types(K)]
#[verifier::reject_recursive_types(V)]
#[verifier::reject_recursive_types(S)]
pub struct ExOrderedHashMap<K, V, S>(OrderedHashMap<K, V, S>);

#[verifier::external_type_specification]
#[verifier::external_body]
pub struct ExDefaultHashBuilder(ordered_hash_map::ordered_map::DefaultHashBuilder);

/// A section key: a kind and an index within the kind.
pub type SectionKey = (u64, u64);

/// What a section map holds: its `(key, table index)` pairs in insertion order.
pub uninterp spec fn section_entries(m: OrderedHashMap<(u64, u64), usize>) -> Seq<((u64, u64), usize)>;

/// No key occurs twice.
pub open spec fn keys_unique(e: Seq<((u64, u64), usize)>) -> bool {
    forall|i: int, j: int| 0 <= i < j < e.len() ==> e[i].0 != e[j].0
}

/// The position of the entry under `k`.
pub open spec fn key_position(e: Seq<((u64, u64), usize)>, k: (u64, u64)) -> Option<int>
    decreases e.len(),
{
    if e.len() == 0 {
        None
    } else if e[0].0 == k {
        Some(0)
    } else {
        match key_position(e.drop_first(), k) {
            Some(i) => Some(i + 1),
            None => None,
        }
    }
}

/// `OrderedHashMap::new`: an empty map.
#[verifier::external_body]
pub(crate) fn section_map_new() -> (m: OrderedHashMap<(u64, u64), usize>)
    ensures
        section_entries(m) == Seq::<((u64, u64), usize)>::empty(),
{
    OrderedHashMap::new()
}

/// `OrderedHashMap::get`: the value stored under `k`, if any.
#[verifier::external_body]
pub(crate) fn section_map_get(m: &OrderedHashMap<(u64, u64), usize>, k: (u64, u64)) -> (r: Option<
    usize,
>)
    ensures
        r == match key_position(section_entries(*m), k) {
            Some(i) => Some(section_entries(*m)[i].1),
            None => None::<usize>,
        },
{
    m.get(&k).copied()
}

/// `OrderedHashMap::insert`: a new key is added at the back; an existing key gets the
/// new value, is moved to the back, and its old value is returned.
#[verifier::external_body]
pub(crate) fn section_map_insert(m: &mut OrderedHashMap<(u64, u64), usize>, k: (u64, u64), v: usize) -> (r:
    Option<usize>)
    ensures
        keys_unique(section_entries(*old(m))),
        keys_unique(section_entries(*final(m))),
        match key_position(section_entries(*old(m)), k) {
            None => r is None && section_entries(*final(m)) == section_entries(*old(m)).push((k, v)),
            Some(i) => r == Some(section_entries(*old(m))[i].1) && section_entries(*final(m))
                == section_entries(*old(m)).remove(i).push((k, v)),
        },
{
    m.insert(k, v)
}

/// `OrderedHashMap::remove`: takes the entry under `k` out of the map, keeping the order
/// of the others, and returns its value.
#[verifier::external_body]
pub(crate) fn section_map_remove(m: &mut OrderedHashMap<(u64, u64), usize>, k: (u64, u64)) -> (r: Option<
    usize,
>)
    ensures
        keys_unique(section_entries(*old(m))),
        keys_unique(section_entries(*final(m))),
        match key_position(section_entries(*old(m)), k) {
            None => r is None && section_entries(*final(m)) == section_entries(*old(m)),
            Some(i) => r == Some(section_entries(*old(m))[i].1) && section_entries(*final(m))
                == section_entries(*old(m)).remove(i),
        },
{
    m.remove(&k)
}

/// `OrderedHashMap::drain`: hands out all entries in insertion order and leaves the map
/// empty.
#[verifier::external_body]
pub(crate) fn section_map_drain(m: &mut OrderedHashMap<(u64, u64), usize>) -> (r: Vec<((u64, u64), usize)>)
    ensures
        keys_unique(section_entries(*old(m))),
        r@ == section_entries(*old(m)),
        section_entries(*final(m)) == Seq::<((u64, u64), usize)>::empty(),
{
    m.drain().collect()
}

} // verus!
