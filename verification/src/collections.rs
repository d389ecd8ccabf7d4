//! The insertion-ordered maps and sets of `indexmap` that the graph logic
//! keeps its state in. Each collection is seen as the sequence of its
//! entries in order.
//!
//! Every item here is trusted: its contract restates what the `indexmap`
//! documentation and source say of the method it calls. Keys compare by
//! `Eq` and `Hash` of `String` and `u32`, that is by their contents.

use vstd::prelude::*;

use indexmap::{IndexMap, IndexSet};

use crate::graph_utils::Node;
use crate::keyed::{has_key, key_pos, keyed_insert, keyed_remove, lookup, seq_with, seq_without};

verus! {

#[verifier::external_type_specification]
#[verifier::external_body]
#[verifier::reject_recursive_types(K)]
#[verifier::reject_recursive_types(V)]
#[verifier::reject_recursive_types(S)]
pub struct ExIndexMap<K, V, S>(IndexMap<K, V, S>);

#[verifier::external_type_specification]
#[verifier::external_body]
#[verifier::reject_recursive_types(T)]
#[verifier::reject_recursive_types(S)]
pub struct ExIndexSet<T, S>(IndexSet<T, S>);

// ---------------------------------------------------------------------
// IndexSet<String>

/// The items of a set of strings, in insertion order.
pub uninterp spec fn string_set_items(s: IndexSet<String>) -> Seq<Seq<char>>;

/// `IndexSet::new`: an empty set.
#[verifier::external_body]
pub(crate) fn string_set_new() -> (r: IndexSet<String>)
    ensures
        string_set_items(r) == Seq::<Seq<char>>::empty(),
{
    IndexSet::new()
}

/// `IndexSet::insert`: a new item goes last and `true` is returned; an item
/// already there keeps its place and `false` is returned.
#[verifier::external_body]
pub(crate) fn string_set_insert(s: &mut IndexSet<String>, v: String) -> (r: bool)
    ensures
        r == !string_set_items(*old(s)).contains(v@),
        string_set_items(*final(s)) == seq_with(string_set_items(*old(s)), v@),
{
    s.insert(v)
}

/// `IndexSet::contains`.
#[verifier::external_body]
pub(crate) fn string_set_contains(s: &IndexSet<String>, v: &str) -> (r: bool)
    ensures
        r == string_set_items(*s).contains(v@),
{
    s.contains(v)
}

/// `IndexSet::shift_remove`: removes the item, the later ones shifted down
/// in order; `true` when it was there.
#[verifier::external_body]
pub(crate) fn string_set_shift_remove(s: &mut IndexSet<String>, v: &str) -> (r: bool)
    ensures
        r == string_set_items(*old(s)).contains(v@),
        string_set_items(*final(s)) == seq_without(string_set_items(*old(s)), v@),
{
    s.shift_remove(v)
}

/// `IndexSet::len`.
#[verifier::external_body]
pub(crate) fn string_set_len(s: &IndexSet<String>) -> (r: usize)
    ensures
        r == string_set_items(*s).len(),
{
    s.len()
}

/// `IndexSet::get_index`: the item at position `i`, if there is one.
#[verifier::external_body]
pub(crate) fn string_set_get_index(s: &IndexSet<String>, i: usize) -> (r: Option<&String>)
    ensures
        i < string_set_items(*s).len() ==> (r is Some && r->0@ == string_set_items(*s)[i as int]),
        i >= string_set_items(*s).len() ==> r is None,
{
    s.get_index(i)
}

// ---------------------------------------------------------------------
// IndexMap<String, String>

/// The entries of a map from strings to strings, in insertion order.
pub uninterp spec fn string_map_entries(m: IndexMap<String, String>) -> Seq<(Seq<char>, Seq<char>)>;

/// `IndexMap::new`: an empty map.
#[verifier::external_body]
pub(crate) fn string_map_new() -> (r: IndexMap<String, String>)
    ensures
        string_map_entries(r) == Seq::<(Seq<char>, Seq<char>)>::empty(),
{
    IndexMap::new()
}

/// `IndexMap::insert`: an existing key keeps its place and takes the new
/// value, a new key goes last.
#[verifier::external_body]
pub(crate) fn string_map_insert(m: &mut IndexMap<String, String>, k: String, v: String)
    ensures
        string_map_entries(*final(m)) == keyed_insert(string_map_entries(*old(m)), k@, v@),
{
    m.insert(k, v);
}

/// `IndexMap::get`: the value under `k`.
#[verifier::external_body]
pub(crate) fn string_map_get<'a>(m: &'a IndexMap<String, String>, k: &str) -> (r: Option<&'a String>)
    ensures
        match r {
            Some(v) => lookup(string_map_entries(*m), k@) == Some(v@),
            None => !has_key(string_map_entries(*m), k@),
        },
{
    m.get(k)
}

// ---------------------------------------------------------------------
// IndexMap<String, usize>

/// The entries of a map from strings to counts, in insertion order.
pub uninterp spec fn count_map_entries(m: IndexMap<String, usize>) -> Seq<(Seq<char>, usize)>;

/// `IndexMap::new`: an empty map.
#[verifier::external_body]
pub(crate) fn count_map_new() -> (r: IndexMap<String, usize>)
    ensures
        count_map_entries(r) == Seq::<(Seq<char>, usize)>::empty(),
{
    IndexMap::new()
}

/// `IndexMap::insert`: an existing key keeps its place and takes the new
/// value, a new key goes last.
#[verifier::external_body]
pub(crate) fn count_map_insert(m: &mut IndexMap<String, usize>, k: String, v: usize)
    ensures
        count_map_entries(*final(m)) == keyed_insert(count_map_entries(*old(m)), k@, v),
{
    m.insert(k, v);
}

/// `IndexMap::get`: the value under `k`.
#[verifier::external_body]
pub(crate) fn count_map_get(m: &IndexMap<String, usize>, k: &str) -> (r: Option<usize>)
    ensures
        r == lookup(count_map_entries(*m), k@),
{
    m.get(k).copied()
}

/// `IndexMap::shift_remove`: removes the entry, the later ones shifted down.
#[verifier::external_body]
pub(crate) fn count_map_shift_remove(m: &mut IndexMap<String, usize>, k: &str)
    ensures
        count_map_entries(*final(m)) == keyed_remove(count_map_entries(*old(m)), k@),
{
    m.shift_remove(k);
}

// ---------------------------------------------------------------------
// IndexMap<u32, bool>

/// The entries of a map from socket indices to flags, in insertion order.
pub uninterp spec fn socket_entries(m: IndexMap<u32, bool>) -> Seq<(u32, bool)>;

/// `IndexMap::new`: an empty map.
#[verifier::external_body]
pub(crate) fn socket_map_new() -> (r: IndexMap<u32, bool>)
    ensures
        socket_entries(r) == Seq::<(u32, bool)>::empty(),
{
    IndexMap::new()
}

/// `IndexMap::insert`: an existing key keeps its place and takes the new
/// value, a new key goes last.
#[verifier::external_body]
pub(crate) fn socket_map_insert(m: &mut IndexMap<u32, bool>, k: u32, v: bool)
    ensures
        socket_entries(*final(m)) == keyed_insert(socket_entries(*old(m)), k, v),
{
    m.insert(k, v);
}

/// `IndexMap::len`.
#[verifier::external_body]
pub(crate) fn socket_map_len(m: &IndexMap<u32, bool>) -> (r: usize)
    ensures
        r == socket_entries(*m).len(),
{
    m.len()
}

/// `IndexMap::get_index`: the entry at position `i`, if there is one.
#[verifier::external_body]
pub(crate) fn socket_map_get_index(m: &IndexMap<u32, bool>, i: usize) -> (r: Option<(u32, bool)>)
    ensures
        i < socket_entries(*m).len() ==> r == Some(socket_entries(*m)[i as int]),
        i >= socket_entries(*m).len() ==> r is None,
{
    m.get_index(i).map(|(k, v)| (*k, *v))
}

// ---------------------------------------------------------------------
// IndexMap<String, IndexMap<u32, bool>>

/// The entries of a map from blocked node ids to socket maps, in insertion
/// order, each socket map by its entries.
pub uninterp spec fn blocked_entries(m: IndexMap<String, IndexMap<u32, bool>>) -> Seq<(Seq<char>, Seq<(u32, bool)>)>;

/// `IndexMap::new`: an empty map.
#[verifier::external_body]
pub(crate) fn blocked_map_new() -> (r: IndexMap<String, IndexMap<u32, bool>>)
    ensures
        blocked_entries(r) == Seq::<(Seq<char>, Seq<(u32, bool)>)>::empty(),
{
    IndexMap::new()
}

/// `IndexMap::contains_key`.
#[verifier::external_body]
pub(crate) fn blocked_map_contains_key(m: &IndexMap<String, IndexMap<u32, bool>>, k: &str) -> (r: bool)
    ensures
        r == has_key(blocked_entries(*m), k@),
{
    m.contains_key(k)
}

/// `IndexMap::insert`: an existing key keeps its place and takes the new
/// value, whose predecessor is returned; a new key goes last.
#[verifier::external_body]
pub(crate) fn blocked_map_insert(
    m: &mut IndexMap<String, IndexMap<u32, bool>>,
    k: String,
    v: IndexMap<u32, bool>,
) -> (r: Option<IndexMap<u32, bool>>)
    ensures
        blocked_entries(*final(m)) == keyed_insert(blocked_entries(*old(m)), k@, socket_entries(v)),
        match r {
            Some(o) => lookup(blocked_entries(*old(m)), k@) == Some(socket_entries(o)),
            None => !has_key(blocked_entries(*old(m)), k@),
        },
{
    m.insert(k, v)
}

/// `IndexMap::len`.
#[verifier::external_body]
pub(crate) fn blocked_map_len(m: &IndexMap<String, IndexMap<u32, bool>>) -> (r: usize)
    ensures
        r == blocked_entries(*m).len(),
{
    m.len()
}

/// `IndexMap::get_index`: the entry at position `i`, if there is one.
#[verifier::external_body]
pub(crate) fn blocked_map_get_index(m: &IndexMap<String, IndexMap<u32, bool>>, i: usize) -> (r: Option<(&String, &IndexMap<u32, bool>)>)
    ensures
        i < blocked_entries(*m).len() ==> (r is Some && (r->0).0@ == blocked_entries(*m)[i as int].0
            && socket_entries(*(r->0).1) == blocked_entries(*m)[i as int].1),
        i >= blocked_entries(*m).len() ==> r is None,
{
    m.get_index(i)
}

// ---------------------------------------------------------------------
// IndexMap<String, IndexMap<String, IndexMap<u32, bool>>>

/// The entries of the map from blocking node ids to what they block, in
/// insertion order, each inner map by its entries.
pub uninterp spec fn blocking_entries(m: IndexMap<String, IndexMap<String, IndexMap<u32, bool>>>) -> Seq<(Seq<char>, Seq<(Seq<char>, Seq<(u32, bool)>)>)>;

/// `IndexMap::new`: an empty map.
#[verifier::external_body]
pub(crate) fn blocking_map_new() -> (r: IndexMap<String, IndexMap<String, IndexMap<u32, bool>>>)
    ensures
        blocking_entries(r) == Seq::<(Seq<char>, Seq<(Seq<char>, Seq<(u32, bool)>)>)>::empty(),
{
    IndexMap::new()
}

/// `IndexMap::insert`: an existing key keeps its place and takes the new
/// value, whose predecessor is returned; a new key goes last.
#[verifier::external_body]
pub(crate) fn blocking_map_insert(
    m: &mut IndexMap<String, IndexMap<String, IndexMap<u32, bool>>>,
    k: String,
    v: IndexMap<String, IndexMap<u32, bool>>,
) -> (r: Option<IndexMap<String, IndexMap<u32, bool>>>)
    ensures
        blocking_entries(*final(m)) == keyed_insert(blocking_entries(*old(m)), k@, blocked_entries(v)),
        match r {
            Some(o) => lookup(blocking_entries(*old(m)), k@) == Some(blocked_entries(o)),
            None => !has_key(blocking_entries(*old(m)), k@),
        },
{
    m.insert(k, v)
}

/// `IndexMap::shift_remove`: removes the entry, the later ones shifted
/// down, and returns its value.
#[verifier::external_body]
pub(crate) fn blocking_map_shift_remove(
    m: &mut IndexMap<String, IndexMap<String, IndexMap<u32, bool>>>,
    k: &str,
) -> (r: Option<IndexMap<String, IndexMap<u32, bool>>>)
    ensures
        blocking_entries(*final(m)) == keyed_remove(blocking_entries(*old(m)), k@),
        match r {
            Some(o) => lookup(blocking_entries(*old(m)), k@) == Some(blocked_entries(o)),
            None => !has_key(blocking_entries(*old(m)), k@),
        },
{
    m.shift_remove(k)
}

/// `IndexMap::len`.
#[verifier::external_body]
pub(crate) fn blocking_map_len(m: &IndexMap<String, IndexMap<String, IndexMap<u32, bool>>>) -> (r: usize)
    ensures
        r == blocking_entries(*m).len(),
{
    m.len()
}

/// `IndexMap::get_index`: the entry at position `i`, if there is one.
#[verifier::external_body]
pub(crate) fn blocking_map_get_index(
    m: &IndexMap<String, IndexMap<String, IndexMap<u32, bool>>>,
    i: usize,
) -> (r: Option<(&String, &IndexMap<String, IndexMap<u32, bool>>)>)
    ensures
        i < blocking_entries(*m).len() ==> (r is Some && (r->0).0@ == blocking_entries(*m)[i as int].0
            && blocked_entries(*(r->0).1) == blocking_entries(*m)[i as int].1),
        i >= blocking_entries(*m).len() ==> r is None,
{
    m.get_index(i)
}

// ---------------------------------------------------------------------
// IndexMap<String, IndexSet<String>>

/// The entries of a map from node ids to sets of node ids, in insertion
/// order, each set by its items.
pub uninterp spec fn blocker_entries(m: IndexMap<String, IndexSet<String>>) -> Seq<(Seq<char>, Seq<Seq<char>>)>;

/// `IndexMap::new`: an empty map.
#[verifier::external_body]
pub(crate) fn blocker_map_new() -> (r: IndexMap<String, IndexSet<String>>)
    ensures
        blocker_entries(r) == Seq::<(Seq<char>, Seq<Seq<char>>)>::empty(),
{
    IndexMap::new()
}

/// `IndexMap::contains_key`.
#[verifier::external_body]
pub(crate) fn blocker_map_contains_key(m: &IndexMap<String, IndexSet<String>>, k: &str) -> (r: bool)
    ensures
        r == has_key(blocker_entries(*m), k@),
{
    m.contains_key(k)
}

/// `IndexMap::insert`: an existing key keeps its place and takes the new
/// value, whose predecessor is returned; a new key goes last.
#[verifier::external_body]
pub(crate) fn blocker_map_insert(
    m: &mut IndexMap<String, IndexSet<String>>,
    k: String,
    v: IndexSet<String>,
) -> (r: Option<IndexSet<String>>)
    ensures
        blocker_entries(*final(m)) == keyed_insert(blocker_entries(*old(m)), k@, string_set_items(v)),
        match r {
            Some(o) => lookup(blocker_entries(*old(m)), k@) == Some(string_set_items(o)),
            None => !has_key(blocker_entries(*old(m)), k@),
        },
{
    m.insert(k, v)
}

/// `IndexMap::shift_remove`: removes the entry, the later ones shifted down.
#[verifier::external_body]
pub(crate) fn blocker_map_shift_remove(m: &mut IndexMap<String, IndexSet<String>>, k: &str)
    ensures
        blocker_entries(*final(m)) == keyed_remove(blocker_entries(*old(m)), k@),
{
    m.shift_remove(k);
}

/// `IndexMap::len`.
#[verifier::external_body]
pub(crate) fn blocker_map_len(m: &IndexMap<String, IndexSet<String>>) -> (r: usize)
    ensures
        r == blocker_entries(*m).len(),
{
    m.len()
}

/// `IndexMap::get_index`: the entry at position `i`, if there is one.
#[verifier::external_body]
pub(crate) fn blocker_map_get_index(m: &IndexMap<String, IndexSet<String>>, i: usize) -> (r: Option<(&String, &IndexSet<String>)>)
    ensures
        i < blocker_entries(*m).len() ==> (r is Some && (r->0).0@ == blocker_entries(*m)[i as int].0
            && string_set_items(*(r->0).1) == blocker_entries(*m)[i as int].1),
        i >= blocker_entries(*m).len() ==> r is None,
{
    m.get_index(i)
}

// ---------------------------------------------------------------------
// IndexMap<String, Node>

/// The entries of a map from node ids to nodes, in insertion order.
pub uninterp spec fn node_entries(m: IndexMap<String, Node>) -> Seq<(Seq<char>, Node)>;

/// `IndexMap::new`: an empty map.
#[verifier::external_body]
pub(crate) fn node_map_new() -> (r: IndexMap<String, Node>)
    ensures
        node_entries(r) == Seq::<(Seq<char>, Node)>::empty(),
{
    IndexMap::new()
}

/// `IndexMap::insert`: an existing key keeps its place and takes the new
/// value, a new key goes last.
#[verifier::external_body]
pub(crate) fn node_map_insert(m: &mut IndexMap<String, Node>, k: String, v: Node)
    ensures
        node_entries(*final(m)) == keyed_insert(node_entries(*old(m)), k@, v),
{
    m.insert(k, v);
}

/// `IndexMap::get_index_of`: the position of the entry with key `k`.
#[verifier::external_body]
pub(crate) fn node_map_get_index_of(m: &IndexMap<String, Node>, k: &str) -> (r: Option<usize>)
    ensures
        match r {
            Some(i) => has_key(node_entries(*m), k@) && i == key_pos(node_entries(*m), k@),
            None => !has_key(node_entries(*m), k@),
        },
{
    m.get_index_of(k)
}

/// `IndexMap::len`.
#[verifier::external_body]
pub(crate) fn node_map_len(m: &IndexMap<String, Node>) -> (r: usize)
    ensures
        r == node_entries(*m).len(),
{
    m.len()
}

/// `IndexMap::get_index`: the entry at position `i`, if there is one.
#[verifier::external_body]
pub(crate) fn node_map_get_index(m: &IndexMap<String, Node>, i: usize) -> (r: Option<(&String, &Node)>)
    ensures
        i < node_entries(*m).len() ==> (r is Some && (r->0).0@ == node_entries(*m)[i as int].0
            && *(r->0).1 == node_entries(*m)[i as int].1),
        i >= node_entries(*m).len() ==> r is None,
{
    m.get_index(i)
}

/// `IndexMut<usize>` of `IndexMap`: the value at position `i`, borrowed
/// mutably; what is written through it becomes that entry's value.
#[verifier::external_body]
pub(crate) fn node_map_index_mut(m: &mut IndexMap<String, Node>, i: usize) -> (r: &mut Node)
    requires
        i < node_entries(*old(m)).len(),
    ensures
        *r == node_entries(*old(m))[i as int].1,
        node_entries(*final(m)) == node_entries(*old(m)).update(i as int, (node_entries(*old(m))[i as int].0, *final(r))),
{
    &mut m[i]
}

/// `IndexMap::shift_remove`: removes the entry, the later ones shifted down.
#[verifier::external_body]
pub(crate) fn node_map_shift_remove(m: &mut IndexMap<String, Node>, k: &str)
    ensures
        node_entries(*final(m)) == keyed_remove(node_entries(*old(m)), k@),
{
    m.shift_remove(k);
}

} // verus!
