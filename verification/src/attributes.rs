//! The attributes of an element: an insertion-ordered map from name to value.
//!
//! The map itself is `indexmap::IndexMap`. What it holds is modelled as a
//! sequence of name and value pairs in the map's order, and the few map
//! operations that the library needs are stated over that sequence.

use indexmap::IndexMap;
use vstd::prelude::*;
use vstd::string::*;
use vstd::utf8::*;

verus! {

/// The attributes of one element, in order: pairs of name and value.
pub type Entries = Seq<(Seq<char>, Seq<char>)>;

/// The index of the first entry named `key`, or the length of `entries`
/// where no entry has that name.
pub open spec fn key_index(entries: Entries, key: Seq<char>) -> int
    decreases entries.len(),
{
    if entries.len() == 0 {
        0
    } else {
        let before = key_index(entries.drop_last(), key);
        if before < entries.len() - 1 {
            before
        } else if entries.last().0 == key {
            entries.len() - 1
        } else {
            entries.len() as int
        }
    }
}

pub open spec fn has_key(entries: Entries, key: Seq<char>) -> bool {
    key_index(entries, key) < entries.len()
}

/// The value stored under `key`.
pub open spec fn lookup(entries: Entries, key: Seq<char>) -> Option<Seq<char>> {
    if has_key(entries, key) {
        Some(entries[key_index(entries, key)].1)
    } else {
        None
    }
}

/// `entries` after `key` was set to `value`: an entry of that name keeps its
/// place and gets the new value, a new name goes to the end.
pub open spec fn inserted(entries: Entries, key: Seq<char>, value: Seq<char>) -> Entries {
    if has_key(entries, key) {
        entries.update(key_index(entries, key), (key, value))
    } else {
        entries.push((key, value))
    }
}

/// `entries` without the entry named `key`; those behind it move up.
pub open spec fn removed(entries: Entries, key: Seq<char>) -> Entries {
    if has_key(entries, key) {
        entries.remove(key_index(entries, key))
    } else {
        entries
    }
}

/// No two entries have the same name.
pub open spec fn distinct_keys(entries: Entries) -> bool {
    forall|i: int, j: int|
        0 <= i < j < entries.len() ==> (#[trigger] entries[i]).0 != (#[trigger] entries[j]).0
}

/// `key_index` is the least index of an entry named `key`.
pub proof fn lemma_key_index(entries: Entries, key: Seq<char>)
    ensures
        0 <= key_index(entries, key) <= entries.len(),
        has_key(entries, key) ==> entries[key_index(entries, key)].0 == key,
        forall|i: int| 0 <= i < key_index(entries, key) ==> (#[trigger] entries[i]).0 != key,
    decreases entries.len(),
{
    if entries.len() > 0 {
        let front = entries.drop_last();
        lemma_key_index(front, key);
        assert forall|i: int| 0 <= i < key_index(entries, key) implies (#[trigger] entries[i]).0
            != key by {
            if i < front.len() {
                assert(front[i] == entries[i]);
            }
        }
        if key_index(front, key) < front.len() {
            assert(front[key_index(front, key)] == entries[key_index(front, key)]);
        }
    }
}

/// Setting an attribute keeps the names distinct, and the value is then
/// found under its name; every other name keeps what it had.
pub proof fn lemma_inserted(entries: Entries, key: Seq<char>, value: Seq<char>)
    requires
        distinct_keys(entries),
    ensures
        distinct_keys(inserted(entries, key, value)),
        lookup(inserted(entries, key, value), key) == Some(value),
        has_key(entries, key) ==> inserted(entries, key, value).len() == entries.len(),
        !has_key(entries, key) ==> inserted(entries, key, value).len() == entries.len() + 1,
        forall|other: Seq<char>|
            other != key ==> lookup(inserted(entries, key, value), other) == lookup(entries, other),
{
    let after = inserted(entries, key, value);
    lemma_key_index(entries, key);
    lemma_key_index(after, key);
    let at = key_index(entries, key);
    if has_key(entries, key) {
        assert(after[at].0 == key);
    } else {
        assert(after[entries.len() as int].0 == key);
    }
    assert(has_key(after, key));
    assert forall|other: Seq<char>| other != key implies lookup(after, other) == lookup(
        entries,
        other,
    ) by {
        lemma_key_index(entries, other);
        lemma_key_index(after, other);
        let a = key_index(entries, other);
        let b = key_index(after, other);
        if a < entries.len() {
            assert(after[a].0 == other);
        }
        if b < after.len() {
            assert(b < entries.len());
            assert(entries[b].0 == other);
        }
    }
}

/// Removing an attribute keeps the names distinct, and the name is then
/// absent.
pub proof fn lemma_removed(entries: Entries, key: Seq<char>)
    requires
        distinct_keys(entries),
    ensures
        distinct_keys(removed(entries, key)),
        lookup(removed(entries, key), key) is None,
{
    let after = removed(entries, key);
    lemma_key_index(entries, key);
    lemma_key_index(after, key);
    let at = key_index(entries, key);
    let b = key_index(after, key);
    if b < after.len() {
        if has_key(entries, key) {
            if b < at {
                assert(after[b] == entries[b]);
            } else {
                assert(after[b] == entries[b + 1]);
            }
        }
    }
}

/// `indexmap::IndexMap`, a hash map that keeps its entries in the order in
/// which their keys were first inserted. Nothing inside it is visible here;
/// what it holds has a name below.
#[verifier::external_type_specification]
#[verifier::external_body]
#[verifier::reject_recursive_types(K)]
#[verifier::reject_recursive_types(V)]
#[verifier::reject_recursive_types(S)]
pub struct ExIndexMap<K, V, S>(IndexMap<K, V, S>);

/// What a map of borrowed attributes holds, in the map's order.
pub uninterp spec fn ref_entries(m: IndexMap<&str, &str>) -> Entries;

/// What a map of owned attributes holds, in the map's order.
pub uninterp spec fn owned_entries(m: IndexMap<String, String>) -> Entries;

/// `IndexMap::new`: the new map holds nothing.
#[verifier::external_body]
pub(crate) fn ref_map_new<'s>() -> (m: IndexMap<&'s str, &'s str>)
    ensures
        ref_entries(m) == Seq::<(Seq<char>, Seq<char>)>::empty(),
{
    IndexMap::new()
}

/// `IndexMap::insert`: a key that the map has keeps its place and gets the
/// new value; a new key goes last.
#[verifier::external_body]
pub(crate) fn ref_map_insert<'s>(m: &mut IndexMap<&'s str, &'s str>, key: &'s str, value: &'s str)
    ensures
        ref_entries(*final(m)) == inserted(ref_entries(*old(m)), key@, value@),
{
    m.insert(key, value);
}

/// `IndexMap::get`: the value under `key`, if the map has that key.
#[verifier::external_body]
pub(crate) fn ref_map_get<'s>(m: &IndexMap<&'s str, &'s str>, key: &str) -> (r: Option<&'s str>)
    ensures
        match r {
            Some(v) => lookup(ref_entries(*m), key@) == Some(v@),
            None => lookup(ref_entries(*m), key@) is None,
        },
{
    m.get(key).copied()
}

/// `IndexMap::shift_remove`: the entry under `key` leaves, the entries behind
/// it keep their order, and the value that was stored comes back.
#[verifier::external_body]
pub(crate) fn ref_map_shift_remove<'s>(m: &mut IndexMap<&'s str, &'s str>, key: &str) -> (r:
    Option<&'s str>)
    ensures
        ref_entries(*final(m)) == removed(ref_entries(*old(m)), key@),
        match r {
            Some(v) => lookup(ref_entries(*old(m)), key@) == Some(v@),
            None => lookup(ref_entries(*old(m)), key@) is None,
        },
{
    m.shift_remove(key)
}

/// `IndexMap`'s `clone`: the copy holds the same entries in the same order.
#[verifier::external_body]
pub(crate) fn ref_map_clone<'s>(m: &IndexMap<&'s str, &'s str>) -> (r: IndexMap<&'s str, &'s str>)
    ensures
        ref_entries(r) == ref_entries(*m),
{
    m.clone()
}

/// `IndexMap::len`: the number of entries.
#[verifier::external_body]
pub(crate) fn ref_map_len<'s>(m: &IndexMap<&'s str, &'s str>) -> (n: usize)
    ensures
        n == ref_entries(*m).len(),
{
    m.len()
}

/// `IndexMap::get_index`: the entry at `index` in the map's order, `None`
/// from the map's length on.
#[verifier::external_body]
pub(crate) fn ref_map_get_index<'s>(m: &IndexMap<&'s str, &'s str>, index: usize) -> (r: Option<
    (&'s str, &'s str),
>)
    ensures
        match r {
            Some(e) => index < ref_entries(*m).len() && ref_entries(*m)[index as int] == (
                e.0@,
                e.1@,
            ),
            None => index >= ref_entries(*m).len(),
        },
{
    m.get_index(index).map(|(k, v)| (*k, *v))
}

/// `IndexMap::new`: the new map holds nothing.
#[verifier::external_body]
pub(crate) fn owned_map_new() -> (m: IndexMap<String, String>)
    ensures
        owned_entries(m) == Seq::<(Seq<char>, Seq<char>)>::empty(),
{
    IndexMap::new()
}

/// `IndexMap::insert`: a key that the map has keeps its place and gets the
/// new value; a new key goes last.
#[verifier::external_body]
pub(crate) fn owned_map_insert(m: &mut IndexMap<String, String>, key: String, value: String)
    ensures
        owned_entries(*final(m)) == inserted(owned_entries(*old(m)), key@, value@),
{
    m.insert(key, value);
}

/// `IndexMap::get`: the value under `key`, if the map has that key.
#[verifier::external_body]
pub(crate) fn owned_map_get<'a>(m: &'a IndexMap<String, String>, key: &str) -> (r: Option<
    &'a String,
>)
    ensures
        match r {
            Some(v) => lookup(owned_entries(*m), key@) == Some(v@),
            None => lookup(owned_entries(*m), key@) is None,
        },
{
    m.get(key)
}

/// `IndexMap::shift_remove`: the entry under `key` leaves, the entries behind
/// it keep their order, and the value that was stored comes back.
#[verifier::external_body]
pub(crate) fn owned_map_shift_remove(m: &mut IndexMap<String, String>, key: &str) -> (r: Option<
    String,
>)
    ensures
        owned_entries(*final(m)) == removed(owned_entries(*old(m)), key@),
        match r {
            Some(v) => lookup(owned_entries(*old(m)), key@) == Some(v@),
            None => lookup(owned_entries(*old(m)), key@) is None,
        },
{
    m.shift_remove(key)
}

/// `IndexMap`'s `clone`: the copy holds the same entries in the same order.
#[verifier::external_body]
pub(crate) fn owned_map_clone(m: &IndexMap<String, String>) -> (r: IndexMap<String, String>)
    ensures
        owned_entries(r) == owned_entries(*m),
{
    m.clone()
}

/// `IndexMap::len`: the number of entries.
#[verifier::external_body]
pub(crate) fn owned_map_len(m: &IndexMap<String, String>) -> (n: usize)
    ensures
        n == owned_entries(*m).len(),
{
    m.len()
}

/// `IndexMap::get_index`: the entry at `index` in the map's order, `None`
/// from the map's length on.
#[verifier::external_body]
pub(crate) fn owned_map_get_index<'a>(m: &'a IndexMap<String, String>, index: usize) -> (r: Option<
    (&'a String, &'a String),
>)
    ensures
        match r {
            Some(e) => index < owned_entries(*m).len() && owned_entries(*m)[index as int] == (
                e.0@,
                e.1@,
            ),
            None => index >= owned_entries(*m).len(),
        },
{
    m.get_index(index)
}

/// Whether `a` and `b` hold the same characters, found by comparing their
/// bytes.
pub(crate) fn str_eq(a: &str, b: &str) -> (r: bool)
    ensures
        r == (a@ == b@),
{
    let x = a.as_bytes();
    let y = b.as_bytes();
    proof {
        encode_utf8_decode_utf8(a@);
        encode_utf8_decode_utf8(b@);
    }
    if x.len() != y.len() {
        return false;
    }
    let mut i: usize = 0;
    while i < x.len()
        invariant
            i <= x.len(),
            x.len() == y.len(),
            x@ == encode_utf8(a@),
            y@ == encode_utf8(b@),
            forall|k: int| 0 <= k < i ==> x@[k] == y@[k],
        decreases x.len() - i,
    {
        if x[i] != y[i] {
            return false;
        }
        i += 1;
    }
    assert(x@ =~= y@);
    true
}

} // verus!
