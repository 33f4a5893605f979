//! The insertion-ordered key index that a dictionary is built on.
//!
//! The index is an `indexmap::IndexMap` from a key to a number. Nothing in
//! this file is proved: each function states what the map's own source shows
//! of one of its methods.

use vstd::prelude::*;
use indexmap::IndexMap;

verus! {

/// `indexmap::IndexMap`, taken as an opaque type.
#[verifier::external_type_specification]
#[verifier::external_body]
#[verifier::reject_recursive_types(K)]
#[verifier::reject_recursive_types(V)]
#[verifier::reject_recursive_types(S)]
pub struct ExIndexMap<K, V, S>(IndexMap<K, V, S>);

/// What a map holds: its keys, each with the number bound to it, in the
/// map's own order.
pub uninterp spec fn index_entries(index: IndexMap<&[u8], usize>) -> Seq<(Seq<u8>, usize)>;

/// Whether `key` is the key of some entry of `entries`.
pub open spec fn indexed(entries: Seq<(Seq<u8>, usize)>, key: Seq<u8>) -> bool {
    exists|i: int| 0 <= i < entries.len() && (#[trigger] entries[i]).0 == key
}

/// `IndexMap::new`: the new map holds nothing.
#[verifier::external_body]
pub(crate) fn index_new<'a>() -> (index: IndexMap<&'a [u8], usize>)
    ensures
        index_entries(index) == Seq::<(Seq<u8>, usize)>::empty(),
{
    IndexMap::new()
}

/// `IndexMap::get`: the number bound to `key`, `None` where no entry has
/// that key.
#[verifier::external_body]
pub(crate) fn index_get(index: &IndexMap<&[u8], usize>, key: &[u8]) -> (found: Option<usize>)
    ensures
        match found {
            Some(value) => exists|i: int|
                0 <= i < index_entries(*index).len() && #[trigger] index_entries(*index)[i] == (
                    key@,
                    value,
                ),
            None => !indexed(index_entries(*index), key@),
        },
{
    index.get(key).copied()
}

/// `IndexMap::insert`: a key that the map already holds keeps its place and
/// is bound to `value`, and the number it was bound to is returned; a new
/// key goes last, and `None` is returned.
#[verifier::external_body]
pub(crate) fn index_insert<'a>(
    index: &mut IndexMap<&'a [u8], usize>,
    key: &'a [u8],
    value: usize,
) -> (previous: Option<usize>)
    ensures
        match previous {
            Some(before) => exists|i: int|
                0 <= i < index_entries(*old(index)).len() && #[trigger] index_entries(
                    *old(index),
                )[i] == (key@, before) && index_entries(*final(index)) == index_entries(
                    *old(index),
                ).update(i, (key@, value)),
            None => !indexed(index_entries(*old(index)), key@) && index_entries(*final(index))
                == index_entries(*old(index)).push((key@, value)),
        },
{
    index.insert(key, value)
}

/// `IndexMap::get_index`: the key of the entry at place `at`, `None` where
/// the map has no such place.
#[verifier::external_body]
pub(crate) fn index_key_at<'a>(index: &IndexMap<&'a [u8], usize>, at: usize) -> (key: Option<
    &'a [u8],
>)
    ensures
        match key {
            Some(k) => at < index_entries(*index).len() && k@ == index_entries(*index)[at as int].0,
            None => at >= index_entries(*index).len(),
        },
{
    index.get_index(at).map(|(k, _)| *k)
}

} // verus!
