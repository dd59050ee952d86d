//! Entries grouped by their time, and the buckets of the index kept in an
//! ordered map.
use crate::base_types::ObjectID;
use crate::schedule::{ids_at, Entry};
use itertools::Itertools;
use std::collections::BTreeMap;
use std::ops::Bound::{Excluded, Included};
use vstd::prelude::*;

verus! {

/// The entries of one chunk: each identifier of `ids`, due at `t`.
pub open spec fn chunk_entries(t: u64, ids: Seq<ObjectID>) -> Seq<Entry> {
    Seq::new(ids.len(), |i: int| (t, ids[i]))
}

/// The entries of the chunks, one chunk after the other.
pub open spec fn chunks_joined(chunks: Seq<(u64, Vec<ObjectID>)>) -> Seq<Entry>
    decreases chunks.len(),
{
    if chunks.len() == 0 {
        Seq::empty()
    } else {
        chunks_joined(chunks.drop_last()) + chunk_entries(chunks.last().0, chunks.last().1@)
    }
}

/// Cuts the entries into runs of one time each with `Itertools::chunk_by`,
/// and collects each run. The contract says what the runs are: put one after
/// the other they are the entries, none is empty, and two neighbours differ
/// in their time.
#[verifier::external_body]
pub(crate) fn chunks_by_time(entries: Vec<Entry>) -> (r: Vec<(u64, Vec<ObjectID>)>)
    ensures
        chunks_joined(r@) == entries@,
        forall|i: int| 0 <= i < r@.len() ==> (#[trigger] r@[i]).1@.len() > 0,
        forall|i: int| 0 <= i < r@.len() - 1 ==> (#[trigger] r@[i]).0 != r@[i + 1].0,
{
    let chunks = entries.into_iter().chunk_by(|(t, _)| *t);
    chunks.into_iter().map(|(t, group)| (t, group.map(|(_, id)| id).collect())).collect()
}

/// Groups the entries by their time with `Itertools::into_group_map`, and
/// lists the groups in the order in which the map hands them out, which is
/// any order. The contract says what holds in every order: no time has two
/// groups, each time of an entry has a group, and the group of a time holds
/// the identifiers due at that time, in the order of the entries.
#[verifier::external_body]
pub(crate) fn groups_by_time(entries: Vec<Entry>) -> (r: Vec<(u64, Vec<ObjectID>)>)
    ensures
        forall|i: int, j: int|
            0 <= i < j < r@.len() ==> (#[trigger] r@[i]).0 != (#[trigger] r@[j]).0,
        forall|i: int|
            0 <= i < r@.len() ==> (#[trigger] r@[i]).1@ == ids_at(entries@, r@[i].0)
                && r@[i].1@.len() > 0,
        forall|k: int|
            0 <= k < entries@.len() ==> exists|i: int|
                0 <= i < r@.len() && (#[trigger] r@[i]).0 == (#[trigger] entries@[k]).0,
{
    entries.into_iter().into_group_map().into_iter().collect()
}

/// Lists the times in `map` that are after `from` and not after `to`, with
/// `BTreeMap::range`. The contract says that these are all such times, in
/// rising order. The range must not end before it begins: there the call
/// would not return.
#[verifier::external_body]
pub(crate) fn times_in_range<V>(map: &BTreeMap<u64, V>, from: u64, to: u64) -> (r: Vec<u64>)
    requires
        from <= to,
    ensures
        forall|i: int|
            0 <= i < r@.len() ==> from < (#[trigger] r@[i]) <= to && map@.contains_key(r@[i]),
        forall|i: int, j: int| 0 <= i < j < r@.len() ==> r@[i] < r@[j],
        forall|t: u64| from < t <= to && #[trigger] map@.contains_key(t) ==> r@.contains(t),
{
    map.range((Excluded(from), Included(to))).map(|(t, _)| *t).collect()
}

/// The bucket of the time `t`, if the map has one.
pub fn peek_bucket<V>(map: &BTreeMap<u64, V>, t: u64) -> (r: Option<&V>)
    ensures
        match r {
            Some(ids) => map@.contains_key(t) && *ids == map@[t],
            None => !map@.contains_key(t),
        },
{
    broadcast use vstd::std_specs::btree::group_btree_axioms;
    broadcast use vstd::laws_cmp::group_laws_cmp;

    map.get(&t)
}

/// Takes the bucket of the time `t` out of the map, if the map has one.
pub fn take_bucket<V>(map: &mut BTreeMap<u64, V>, t: u64) -> (r: Option<V>)
    ensures
        final(map)@ == old(map)@.remove(t),
        match r {
            Some(ids) => old(map)@.contains_key(t) && ids == old(map)@[t],
            None => !old(map)@.contains_key(t),
        },
{
    broadcast use vstd::std_specs::btree::group_btree_axioms;
    broadcast use vstd::laws_cmp::group_laws_cmp;

    map.remove(&t)
}

/// Puts `ids` into the map as the bucket of the time `t`.
pub fn put_bucket<V>(map: &mut BTreeMap<u64, V>, t: u64, ids: V)
    ensures
        final(map)@ == old(map)@.insert(t, ids),
{
    broadcast use vstd::std_specs::btree::group_btree_axioms;
    broadcast use vstd::laws_cmp::group_laws_cmp;

    map.insert(t, ids);
}

} // verus!
