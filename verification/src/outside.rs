//! The outside collections that the searches keep their tables in: an
//! insertion-ordered `IndexMap` / `IndexSet` of `indexmap`, hashed with
//! `rustc_hash`'s `FxHasher`, and `rustc_hash`'s `FxHashSet` / `FxHashMap`.

use vstd::prelude::*;
use indexmap::{IndexMap, IndexSet};
use rustc_hash::{FxBuildHasher, FxHasher};
use std::collections::{HashMap, HashSet};
use std::hash::BuildHasherDefault;

verus! {

/// `rustc_hash::FxHasher`, carried through as an opaque type.
#[verifier::external_type_specification]
#[verifier::external_body]
pub struct ExFxHasher(FxHasher);

/// `rustc_hash::FxBuildHasher`, carried through as an opaque type.
#[verifier::external_type_specification]
#[verifier::external_body]
pub struct ExFxBuildHasher(FxBuildHasher);

/// `std::hash::BuildHasherDefault`, carried through as an opaque type.
#[verifier::external_type_specification]
#[verifier::external_body]
#[verifier::reject_recursive_types(H)]
pub struct ExBuildHasherDefault<H>(BuildHasherDefault<H>);

/// `indexmap::IndexMap`, opaque: what the searches read of it is named by
/// `node_map_entries` below.
#[verifier::external_type_specification]
#[verifier::external_body]
#[verifier::reject_recursive_types(K)]
#[verifier::reject_recursive_types(V)]
#[verifier::reject_recursive_types(S)]
pub struct ExIndexMap<K, V, S>(IndexMap<K, V, S>);

/// `indexmap::IndexSet`, opaque: what the searches read of it is named by
/// `node_set_items` below.
#[verifier::external_type_specification]
#[verifier::external_body]
#[verifier::reject_recursive_types(T)]
#[verifier::reject_recursive_types(S)]
pub struct ExIndexSet<T, S>(IndexSet<T, S>);

/// An insertion-ordered table from nodes to `usize` values.
pub type NodeMap = IndexMap<usize, usize, BuildHasherDefault<FxHasher>>;

/// An insertion-ordered set of nodes.
pub type NodeSet = IndexSet<usize, BuildHasherDefault<FxHasher>>;

/// `rustc_hash::FxHashSet` of nodes.
pub type FxSet = HashSet<usize, FxBuildHasher>;

/// `rustc_hash::FxHashMap` from nodes to nodes.
pub type FxMap = HashMap<usize, usize, FxBuildHasher>;

/// The entries of a `NodeMap`, as `(key, value)` pairs in the map's order.
pub uninterp spec fn node_map_entries(m: IndexMap<usize, usize, BuildHasherDefault<FxHasher>>) -> Seq<(usize, usize)>;

/// The items of a `NodeSet`, in the set's order.
pub uninterp spec fn node_set_items(s: IndexSet<usize, BuildHasherDefault<FxHasher>>) -> Seq<usize>;

/// `IndexMap::default`: an empty map.
#[verifier::external_body]
pub(crate) fn node_map_new() -> (m: NodeMap)
    ensures
        node_map_entries(m).len() == 0,
{
    IndexMap::default()
}

/// `IndexMap::len`: the number of entries.
#[verifier::external_body]
pub(crate) fn node_map_len(m: &NodeMap) -> (r: usize)
    ensures
        r == node_map_entries(*m).len(),
{
    m.len()
}

/// `IndexMap::get_index`: the entry at position `i`, if there is one.
#[verifier::external_body]
pub(crate) fn node_map_get_index(m: &NodeMap, i: usize) -> (r: Option<(usize, usize)>)
    ensures
        match r {
            Some(e) => i < node_map_entries(*m).len() && e == node_map_entries(*m)[i as int],
            None => i >= node_map_entries(*m).len(),
        },
{
    m.get_index(i).map(|(k, v)| (*k, *v))
}

/// `IndexMap::get_index_of`: the position of the entry for key `k`, if there is one.
#[verifier::external_body]
pub(crate) fn node_map_get_index_of(m: &NodeMap, k: usize) -> (r: Option<usize>)
    ensures
        match r {
            Some(i) => i < node_map_entries(*m).len() && node_map_entries(*m)[i as int].0 == k,
            None => forall|j: int|
                0 <= j < node_map_entries(*m).len() ==> #[trigger] node_map_entries(*m)[j].0 != k,
        },
{
    m.get_index_of(&k)
}

/// `IndexMap::insert_full`: where no entry has key `k`, the pair is appended and
/// its position returned with `None`; otherwise the value of that entry is
/// replaced in place and its position returned with the former value.
#[verifier::external_body]
pub(crate) fn node_map_insert_full(m: &mut NodeMap, k: usize, v: usize) -> (r: (usize, Option<usize>))
    ensures
        match r.1 {
            None => {
                &&& forall|j: int|
                    0 <= j < node_map_entries(*old(m)).len() ==> #[trigger] node_map_entries(*old(m))[j].0 != k
                &&& node_map_entries(*final(m)) == node_map_entries(*old(m)).push((k, v))
                &&& r.0 == node_map_entries(*old(m)).len()
            },
            Some(prev) => {
                &&& r.0 < node_map_entries(*old(m)).len()
                &&& node_map_entries(*old(m))[r.0 as int] == (k, prev)
                &&& node_map_entries(*final(m)) == node_map_entries(*old(m)).update(r.0 as int, (k, v))
            },
        },
{
    m.insert_full(k, v)
}

/// `IndexSet::default`: an empty set.
#[verifier::external_body]
pub(crate) fn node_set_new() -> (s: NodeSet)
    ensures
        node_set_items(s) == Seq::<usize>::empty(),
{
    IndexSet::default()
}

/// `IndexSet::len`: the number of items.
#[verifier::external_body]
pub(crate) fn node_set_len(s: &NodeSet) -> (r: usize)
    ensures
        r == node_set_items(*s).len(),
{
    s.len()
}

/// `IndexSet::get_index`: the item at position `i`, if there is one.
#[verifier::external_body]
pub(crate) fn node_set_get_index(s: &NodeSet, i: usize) -> (r: Option<usize>)
    ensures
        match r {
            Some(x) => i < node_set_items(*s).len() && x == node_set_items(*s)[i as int],
            None => i >= node_set_items(*s).len(),
        },
{
    s.get_index(i).copied()
}

/// `IndexSet::insert`: appends `x` where it is absent (returning `true`), and
/// leaves the set unchanged where it is present (returning `false`).
#[verifier::external_body]
pub(crate) fn node_set_insert(s: &mut NodeSet, x: usize) -> (r: bool)
    ensures
        r == !node_set_items(*old(s)).contains(x),
        r ==> node_set_items(*final(s)) == node_set_items(*old(s)).push(x),
        !r ==> node_set_items(*final(s)) == node_set_items(*old(s)),
{
    s.insert(x)
}

/// `IndexSet::insert_full`: where `x` is absent it is appended, and its
/// position is returned with `true`; otherwise the set is unchanged, and the
/// position of `x` is returned with `false`.
#[verifier::external_body]
pub(crate) fn node_set_insert_full(s: &mut NodeSet, x: usize) -> (r: (usize, bool))
    ensures
        r.1 == !node_set_items(*old(s)).contains(x),
        r.1 ==> node_set_items(*final(s)) == node_set_items(*old(s)).push(x) && r.0 == node_set_items(*old(s)).len(),
        !r.1 ==> node_set_items(*final(s)) == node_set_items(*old(s)) && r.0 < node_set_items(*old(s)).len()
            && node_set_items(*old(s))[r.0 as int] == x,
{
    s.insert_full(x)
}

/// `IndexSet::contains`: whether `x` is an item.
#[verifier::external_body]
pub(crate) fn node_set_contains(s: &NodeSet, x: usize) -> (r: bool)
    ensures
        r == node_set_items(*s).contains(x),
{
    s.contains(&x)
}

/// `IndexSet::swap_remove_index`: the item at position `i`, if there is one,
/// is removed and returned, the last item taking its place.
#[verifier::external_body]
pub(crate) fn node_set_swap_remove_index(s: &mut NodeSet, i: usize) -> (r: Option<usize>)
    ensures
        match r {
            Some(x) => {
                &&& i < node_set_items(*old(s)).len()
                &&& x == node_set_items(*old(s))[i as int]
                &&& node_set_items(*final(s)) == node_set_items(*old(s)).update(i as int, node_set_items(*old(s)).last()).drop_last()
            },
            None => i >= node_set_items(*old(s)).len() && node_set_items(*final(s)) == node_set_items(*old(s)),
        },
{
    s.swap_remove_index(i)
}

/// `FxHashSet::default`: an empty set.
#[verifier::external_body]
pub(crate) fn fx_set_new() -> (s: FxSet)
    ensures
        s@ == Set::<usize>::empty(),
{
    HashSet::default()
}

/// `HashSet::insert` under `FxBuildHasher`: adds `x`, returning whether it was absent.
#[verifier::external_body]
pub(crate) fn fx_set_insert(s: &mut FxSet, x: usize) -> (r: bool)
    ensures
        final(s)@ == old(s)@.insert(x),
        r == !old(s)@.contains(x),
{
    s.insert(x)
}

/// `HashSet::contains` under `FxBuildHasher`.
#[verifier::external_body]
pub(crate) fn fx_set_contains(s: &FxSet, x: usize) -> (r: bool)
    ensures
        r == s@.contains(x),
{
    s.contains(&x)
}

/// `FxHashMap::default`: an empty map.
#[verifier::external_body]
pub(crate) fn fx_map_new() -> (r: FxMap)
    ensures
        r@.dom() == Set::<usize>::empty(),
{
    HashMap::default()
}

/// `HashMap::insert` under `FxBuildHasher`: maps `k` to `v`, returning the former
/// value of `k`, if any.
#[verifier::external_body]
pub(crate) fn fx_map_insert(m: &mut FxMap, k: usize, v: usize) -> (r: Option<usize>)
    ensures
        final(m)@ == old(m)@.insert(k, v),
        match r {
            Some(p) => old(m)@.contains_key(k) && old(m)@[k] == p,
            None => !old(m)@.contains_key(k),
        },
{
    m.insert(k, v)
}

/// `HashMap::get` under `FxBuildHasher`: the value for `k`, if any.
#[verifier::external_body]
pub(crate) fn fx_map_get(m: &FxMap, k: usize) -> (r: Option<usize>)
    ensures
        match r {
            Some(v) => m@.contains_key(k) && m@[k] == v,
            None => !m@.contains_key(k),
        },
{
    m.get(&k).copied()
}

} // verus!
