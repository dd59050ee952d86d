//! The index of pending triggers: which trigger is due when.
use crate::auto_executable_transaction::{
    decode_move_call_args, transactions_view, AutoExecutableTransaction,
    AutoExecutableTransactionView, AutoTx,
};
use crate::base_types::ObjectID;
use crate::error::SuiResult;
use crate::execution_cache::ObjectCacheRead;
use crate::grouping::{
    chunk_entries, chunks_by_time, chunks_joined, groups_by_time, peek_bucket, put_bucket,
    take_bucket, times_in_range,
};
use crate::language_storage::{decode_type_tags};
use crate::materialize::{
    lemma_materialized_range, lemma_materialized_range_gap, lemma_materialized_range_once,
    materialize_decoded, materialized, materialized_bucket, materialized_range, object_ids,
};
use crate::schedule::{
    bucket_at, clamped, first_occurrences, ids_at, ids_of, index_wf, lemma_due_at,
    lemma_first_occurrences, lemma_first_occurrences_push, lemma_ids_at_members, lemma_retained,
    lemma_retained_agree, lemma_scheduled_index, lemma_time_of, lemma_update_in_two_steps,
    lemma_update_keeps_index, lemma_update_respects_watermark, raised, retained, scheduled_buckets,
    scheduled_times, time_of, update_added, update_allowed, update_removed, updated_bucket,
    updated_buckets, updated_times, Entry,
};

use std::collections::{BTreeMap, HashMap, HashSet};
use vstd::prelude::*;

verus! {

/// Millisecond timestamp at which a trigger is due.
pub type TriggerTime = u64;

/// The pending triggers, by the time at which each is due, over the object
/// store that holds them.
pub struct AutoExecutionStore<C: ObjectCacheRead> {
    clock: TriggerTime,
    cache: C,
    map: BTreeMap<TriggerTime, Vec<ObjectID>>,
    reverse: HashMap<u128, TriggerTime>,
}

/// The buckets that an ordered map of identifier lists stands for.
spec fn buckets_of(map: Map<u64, Vec<ObjectID>>) -> Map<u64, Seq<ObjectID>> {
    Map::new(|t: u64| map.contains_key(t), |t: u64| map[t]@)
}

/// The times that a map from the numbers of identifiers stands for.
spec fn times_of(reverse: Map<u128, u64>) -> Map<ObjectID, u64> {
    Map::new(|id: ObjectID| reverse.contains_key(id.0), |id: ObjectID| reverse[id.0])
}

/// The identifiers that have no time in `reverse`.
spec fn not_pending(reverse: Map<u128, u64>) -> Set<ObjectID> {
    Set::new(|id: ObjectID| !reverse.contains_key(id.0))
}

/// Appends `ids` to the bucket of the time `t`, which is made if there is
/// none.
fn extend_bucket(map: &mut BTreeMap<u64, Vec<ObjectID>>, t: u64, ids: Vec<ObjectID>)
    ensures
        buckets_of(final(map)@) == buckets_of(old(map)@).insert(
            t,
            bucket_at(buckets_of(old(map)@), t) + ids@,
        ),
{
    let ghost given = ids@;
    let mut rest = ids;
    let mut bucket = match take_bucket(map, t) {
        Some(bucket) => bucket,
        None => Vec::new(),
    };
    bucket.append(&mut rest);
    put_bucket(map, t, bucket);
    proof {
        assert(buckets_of(map@) =~= buckets_of(old(map)@).insert(
            t,
            bucket_at(buckets_of(old(map)@), t) + given,
        ));
    }
}

/// The identifiers of `ids` that have a time in `reverse`, in their order.
fn keep_pending(ids: &Vec<ObjectID>, reverse: &HashMap<u128, u64>) -> (r: Vec<ObjectID>)
    ensures
        r@ == retained(ids@, not_pending(reverse@)),
{
    broadcast use vstd::std_specs::hash::group_hash_axioms;

    let mut kept: Vec<ObjectID> = Vec::new();
    let mut i: usize = 0;
    proof {
        assert(ids@.take(0) =~= Seq::<ObjectID>::empty());
    }
    while i < ids.len()
        invariant
            i <= ids.len(),
            kept@ == retained(ids@.take(i as int), not_pending(reverse@)),
        decreases ids.len() - i,
    {
        proof {
            assert(ids@.take(i + 1).drop_last() =~= ids@.take(i as int));
            assert(ids@.take(i + 1).last() == ids@[i as int]);
        }
        let id = ids[i];
        if reverse.contains_key(&id.0) {
            kept.push(id);
        }
        i += 1;
    }
    proof {
        assert(ids@.take(ids@.len() as int) =~= ids@);
    }
    kept
}

/// Takes the time of each identifier of `ids` out of `reverse`, and gives
/// the identifiers back, each with the time it had.
fn unschedule(reverse: &mut HashMap<u128, u64>, ids: &Vec<ObjectID>) -> (r: Vec<Entry>)
    requires
        ids@.no_duplicates(),
        forall|i: int| 0 <= i < ids@.len() ==> old(reverse)@.contains_key((#[trigger] ids@[i]).0),
    ensures
        r@.len() == ids@.len(),
        forall|i: int|
            0 <= i < ids@.len() ==> (#[trigger] r@[i]) == (old(reverse)@[ids@[i].0], ids@[i]),
        forall|k: u128|
            final(reverse)@.contains_key(k) <==> old(reverse)@.contains_key(k) && !ids@.contains(
                ObjectID(k),
            ),
        forall|k: u128|
            final(reverse)@.contains_key(k) ==> final(reverse)@[k] == old(reverse)@[k],
{
    broadcast use vstd::std_specs::hash::group_hash_axioms;

    let mut pairs: Vec<Entry> = Vec::new();
    let mut i: usize = 0;
    while i < ids.len()
        invariant
            i <= ids.len(),
            ids@.no_duplicates(),
            forall|j: int|
                0 <= j < ids@.len() ==> old(reverse)@.contains_key((#[trigger] ids@[j]).0),
            pairs@.len() == i,
            forall|j: int|
                0 <= j < i ==> (#[trigger] pairs@[j]) == (old(reverse)@[ids@[j].0], ids@[j]),
            forall|k: u128|
                reverse@.contains_key(k) <==> old(reverse)@.contains_key(k) && !ids@.take(
                    i as int,
                ).contains(ObjectID(k)),
            forall|k: u128| reverse@.contains_key(k) ==> reverse@[k] == old(reverse)@[k],
        decreases ids.len() - i,
    {
        let id = ids[i];
        let ghost before = reverse@;
        proof {
            if ids@.take(i as int).contains(id) {
                let j = choose|j: int| 0 <= j < i && ids@.take(i as int)[j] == id;
                assert(ids@[j] == ids@[i as int]);
                assert(false);
            }
            assert(before.contains_key(id.0));
        }
        let time = match reverse.remove(&id.0) {
            Some(time) => time,
            None => { vstd::pervasive::unreached() },
        };
        pairs.push((time, id));
        proof {
            assert forall|k: u128|
                reverse@.contains_key(k) <==> old(reverse)@.contains_key(k) && !ids@.take(
                    i + 1,
                ).contains(ObjectID(k)) by {
                let next = ids@.take(i + 1);
                let prev = ids@.take(i as int);
                if next.contains(ObjectID(k)) {
                    let j = choose|j: int| 0 <= j < next.len() && next[j] == ObjectID(k);
                    if j < i {
                        assert(prev[j] == ObjectID(k));
                    }
                }
                if prev.contains(ObjectID(k)) {
                    let j = choose|j: int| 0 <= j < prev.len() && prev[j] == ObjectID(k);
                    assert(next[j] == ObjectID(k));
                }
                if k == id.0 {
                    assert(next[i as int] == ObjectID(k));
                }
            }
        }
        i += 1;
    }
    proof {
        assert(ids@.take(ids@.len() as int) =~= ids@);
    }
    pairs
}

/// Whether one of the groups from position `n` on is the group of the time
/// `t`.
spec fn group_done(all: Seq<(u64, Vec<ObjectID>)>, n: int, t: u64) -> bool {
    exists|j: int| n <= j < all.len() && (#[trigger] all[j]).0 == t
}

/// Whether `id` is in one of the groups from position `n` on.
spec fn id_done(
    entries: Seq<Entry>,
    all: Seq<(u64, Vec<ObjectID>)>,
    n: int,
    id: ObjectID,
) -> bool {
    match time_of(entries, id) {
        Some(t) => group_done(all, n, t),
        None => false,
    }
}

/// Whether one of the first `n` groups is the group of the time `t`.
spec fn group_seen(all: Seq<(u64, Vec<ObjectID>)>, n: int, t: u64) -> bool {
    exists|j: int| 0 <= j < n && (#[trigger] all[j]).0 == t
}

/// Whether no identifier is in `ids` twice; if none is, also the numbers of
/// the identifiers.
fn all_distinct(ids: &Vec<ObjectID>) -> (r: (bool, HashSet<u128>))
    ensures
        r.0 == ids@.no_duplicates(),
        r.0 ==> forall|k: u128| r.1@.contains(k) <==> ids@.contains(ObjectID(k)),
{
    broadcast use vstd::std_specs::hash::group_hash_axioms;

    let mut seen: HashSet<u128> = HashSet::new();
    let mut i: usize = 0;
    while i < ids.len()
        invariant
            i <= ids.len(),
            ids@.take(i as int).no_duplicates(),
            forall|k: u128| seen@.contains(k) <==> ids@.take(i as int).contains(ObjectID(k)),
        decreases ids.len() - i,
    {
        let id = ids[i];
        let ghost prev = ids@.take(i as int);
        let ghost next = ids@.take(i + 1);
        proof {
            assert(next[i as int] == id);
        }
        if seen.contains(&id.0) {
            proof {
                let j = choose|j: int| 0 <= j < prev.len() && prev[j] == ObjectID(id.0);
                assert(ids@[j] == ids@[i as int]);
            }
            return (false, seen);
        }
        seen.insert(id.0);
        proof {
            assert forall|a: int, b: int|
                0 <= a < next.len() && 0 <= b < next.len() && a != b implies next[a] != next[b] by {
                if a < i && b < i {
                    assert(prev[a] != prev[b]);
                } else if a < i {
                    assert(prev[a] == next[a]);
                    assert(prev.contains(next[a]));
                } else if b < i {
                    assert(prev[b] == next[b]);
                    assert(prev.contains(next[b]));
                }
            }
            assert forall|k: u128| seen@.contains(k) <==> next.contains(ObjectID(k)) by {
                if next.contains(ObjectID(k)) {
                    let j = choose|j: int| 0 <= j < next.len() && next[j] == ObjectID(k);
                    if j < i {
                        assert(prev[j] == ObjectID(k));
                    }
                }
                if prev.contains(ObjectID(k)) {
                    let j = choose|j: int| 0 <= j < prev.len() && prev[j] == ObjectID(k);
                    assert(next[j] == ObjectID(k));
                }
            }
        }
        i += 1;
    }
    proof {
        assert(ids@.take(ids@.len() as int) =~= ids@);
    }
    (true, seen)
}

/// Gives each identifier of `ids` the time `t`.
fn schedule_all(reverse: &mut HashMap<u128, u64>, t: u64, ids: &Vec<ObjectID>)
    ensures
        forall|k: u128|
            final(reverse)@.contains_key(k) <==> old(reverse)@.contains_key(k) || ids@.contains(
                ObjectID(k),
            ),
        forall|k: u128|
            final(reverse)@.contains_key(k) ==> final(reverse)@[k] == if ids@.contains(ObjectID(k)) {
                t
            } else {
                old(reverse)@[k]
            },
{
    broadcast use vstd::std_specs::hash::group_hash_axioms;

    let mut i: usize = 0;
    while i < ids.len()
        invariant
            i <= ids.len(),
            forall|k: u128|
                reverse@.contains_key(k) <==> old(reverse)@.contains_key(k) || ids@.take(
                    i as int,
                ).contains(ObjectID(k)),
            forall|k: u128|
                reverse@.contains_key(k) ==> reverse@[k] == if ids@.take(i as int).contains(
                    ObjectID(k),
                ) {
                    t
                } else {
                    old(reverse)@[k]
                },
        decreases ids.len() - i,
    {
        let id = ids[i];
        let ghost before = reverse@;
        reverse.insert(id.0, t);
        proof {
            let next = ids@.take(i + 1);
            let prev = ids@.take(i as int);
            assert(next[i as int] == id);
            assert forall|k: u128| next.contains(ObjectID(k)) <==> prev.contains(ObjectID(k)) || k
                == id.0 by {
                if next.contains(ObjectID(k)) {
                    let j = choose|j: int| 0 <= j < next.len() && next[j] == ObjectID(k);
                    if j < i {
                        assert(prev[j] == ObjectID(k));
                    }
                }
                if prev.contains(ObjectID(k)) {
                    let j = choose|j: int| 0 <= j < prev.len() && prev[j] == ObjectID(k);
                    assert(next[j] == ObjectID(k));
                }
            }
        }
        i += 1;
    }
    proof {
        assert(ids@.take(ids@.len() as int) =~= ids@);
    }
}

impl<C: ObjectCacheRead> AutoExecutionStore<C> {
    /// The object store that the index reads.
    pub closed spec fn cache(&self) -> &C {
        &self.cache
    }

    /// The latest time up to which the index was asked for triggers.
    pub closed spec fn watermark(&self) -> TriggerTime {
        self.clock
    }

    /// The buckets of the index: for each time at which a trigger is due, the
    /// identifiers of the triggers due then.
    pub closed spec fn buckets(&self) -> Map<TriggerTime, Seq<ObjectID>> {
        Map::new(|t: TriggerTime| self.map@.contains_key(t), |t: TriggerTime| self.map@[t]@)
    }

    /// The time at which each pending trigger is due.
    pub closed spec fn times(&self) -> Map<ObjectID, TriggerTime> {
        Map::new(|id: ObjectID| self.reverse@.contains_key(id.0), |id: ObjectID| self.reverse@[id.0])
    }

    /// Whether the buckets and the times are an index: each pending trigger
    /// is in one bucket, that of its time.
    pub open spec fn wf(&self) -> bool {
        index_wf(self.buckets(), self.times())
    }

    /// An index of the triggers `current`, each with the time at which it is
    /// due, over the object store `cache`. The watermark is at zero. Of two
    /// entries for one identifier the first counts.
    pub fn new(current: Vec<(TriggerTime, ObjectID)>, cache: C) -> (r: Self)
        ensures
            r.wf(),
            r.watermark() == 0,
            *r.cache() == cache,
            r.buckets() == scheduled_buckets(first_occurrences(current@)),
            r.times() == scheduled_times(first_occurrences(current@)),
            ids_of(current@).no_duplicates() ==> first_occurrences(current@) == current@,
    {
        broadcast use vstd::std_specs::hash::group_hash_axioms;

        let ghost entries = current@;
        let chunks = chunks_by_time(current);
        let mut map: BTreeMap<TriggerTime, Vec<ObjectID>> = BTreeMap::new();
        let mut reverse: HashMap<u128, TriggerTime> = HashMap::new();
        let mut k: usize = 0;
        proof {
            assert(chunks@.take(0) =~= Seq::<(u64, Vec<ObjectID>)>::empty());
            assert(buckets_of(map@) =~= scheduled_buckets(Seq::<Entry>::empty()));
            assert(times_of(reverse@) =~= scheduled_times(Seq::<Entry>::empty()));
        }
        while k < chunks.len()
            invariant
                k <= chunks.len(),
                buckets_of(map@) == scheduled_buckets(
                    first_occurrences(chunks_joined(chunks@.take(k as int))),
                ),
                times_of(reverse@) == scheduled_times(
                    first_occurrences(chunks_joined(chunks@.take(k as int))),
                ),
            decreases chunks.len() - k,
        {
            let t = chunks[k].0;
            let ids = &chunks[k].1;
            let ghost before = chunks_joined(chunks@.take(k as int));
            let ghost first = first_occurrences(before);
            let mut fresh: Vec<ObjectID> = Vec::new();
            let mut j: usize = 0;
            proof {
                assert(ids@.take(0) =~= Seq::<ObjectID>::empty());
                assert(before + chunk_entries(t, ids@.take(0)) =~= before);
                assert(ids_at(first, t) + fresh@ =~= ids_at(first, t));
            }
            while j < ids.len()
                invariant
                    j <= ids.len(),
                    first == first_occurrences(before),
                    times_of(reverse@) == scheduled_times(
                        first_occurrences(before + chunk_entries(t, ids@.take(j as int))),
                    ),
                    forall|u: u64| #[trigger]
                        ids_at(
                            first_occurrences(before + chunk_entries(t, ids@.take(j as int))),
                            u,
                        ) == if u == t {
                            ids_at(first, t) + fresh@
                        } else {
                            ids_at(first, u)
                        },
                decreases ids.len() - j,
            {
                let id = ids[j];
                let ghost so_far = before + chunk_entries(t, ids@.take(j as int));
                let ghost kept = first_occurrences(so_far);
                let ghost had = times_of(reverse@);
                let ghost fresh_before = fresh@;
                proof {
                    assert(so_far.push((t, id)) =~= before + chunk_entries(t, ids@.take(j + 1)));
                    lemma_first_occurrences_push(so_far, (t, id));
                    assert(had.contains_key(id) <==> time_of(kept, id) is Some);
                }
                if !reverse.contains_key(&id.0) {
                    reverse.insert(id.0, t);
                    fresh.push(id);
                    proof {
                        let next = kept.push((t, id));
                        assert(next.drop_last() =~= kept);
                        assert(next.last() == (t, id));
                        assert forall|other: ObjectID| #[trigger]
                            times_of(reverse@).contains_key(other) <==> scheduled_times(
                                next,
                            ).contains_key(other) by {
                            if other != id {
                                assert(other.0 != id.0);
                                assert(time_of(next, other) == time_of(kept, other));
                                assert(had.contains_key(other) == scheduled_times(
                                    kept,
                                ).contains_key(other));
                            }
                        }
                        assert forall|other: ObjectID| #[trigger]
                            times_of(reverse@).contains_key(other) implies times_of(
                            reverse@,
                        )[other] == scheduled_times(next)[other] by {
                            if other != id {
                                assert(other.0 != id.0);
                                assert(time_of(next, other) == time_of(kept, other));
                                assert(had.contains_key(other));
                                assert(had[other] == scheduled_times(kept)[other]);
                            }
                        }
                        assert(times_of(reverse@) =~= scheduled_times(next));
                        assert forall|u: u64| #[trigger] ids_at(next, u) == if u == t {
                            ids_at(first, t) + fresh@
                        } else {
                            ids_at(first, u)
                        } by {
                            if u == t {
                                assert(ids_at(kept, t) == ids_at(first, t) + fresh_before);
                                assert((ids_at(first, t) + fresh_before).push(id) =~= ids_at(
                                    first,
                                    t,
                                ) + fresh@);
                            } else {
                                assert(ids_at(kept, u) == ids_at(first, u));
                            }
                        }
                    }
                }
                j += 1;
            }
            proof {
                assert(ids@.take(ids@.len() as int) =~= ids@);
                assert(chunks@.take(k + 1).drop_last() =~= chunks@.take(k as int));
                assert(chunks@.take(k + 1).last() == chunks@[k as int]);
                assert(chunks_joined(chunks@.take(k + 1)) == before + chunk_entries(t, ids@));
            }
            let ghost after = first_occurrences(before + chunk_entries(t, ids@));
            if fresh.len() > 0 {
                let ghost had = buckets_of(map@);
                extend_bucket(&mut map, t, fresh);
                proof {
                    assert(bucket_at(had, t) == ids_at(first, t));
                    assert forall|u: u64| #[trigger]
                        buckets_of(map@).contains_key(u) <==> ids_at(after, u).len() > 0 by {
                        assert(ids_at(after, u) == if u == t {
                            ids_at(first, t) + fresh@
                        } else {
                            ids_at(first, u)
                        });
                        assert(had.contains_key(u) <==> ids_at(first, u).len() > 0);
                    }
                    assert forall|u: u64| #[trigger]
                        buckets_of(map@).contains_key(u) implies buckets_of(map@)[u] == ids_at(
                        after,
                        u,
                    ) by {
                        assert(ids_at(after, u) == if u == t {
                            ids_at(first, t) + fresh@
                        } else {
                            ids_at(first, u)
                        });
                        if u != t {
                            assert(had.contains_key(u));
                            assert(had[u] == ids_at(first, u));
                        }
                    }
                    assert(buckets_of(map@) =~= scheduled_buckets(after));
                }
            } else {
                proof {
                    assert forall|u: u64| ids_at(after, u) == ids_at(first, u) by {
                        assert(ids_at(after, u) == if u == t {
                            ids_at(first, t) + fresh@
                        } else {
                            ids_at(first, u)
                        });
                        assert(ids_at(first, t) + fresh@ =~= ids_at(first, t));
                    }
                    assert(buckets_of(map@) =~= scheduled_buckets(after));
                }
            }
            k += 1;
        }
        proof {
            assert(chunks@.take(chunks@.len() as int) =~= chunks@);
            lemma_first_occurrences(entries);
            lemma_scheduled_index(first_occurrences(entries));
        }
        let store = AutoExecutionStore { clock: 0, cache, map, reverse };
        proof {
            assert(store.buckets() =~= buckets_of(map@));
            assert(store.times() =~= times_of(reverse@));
        }
        store
    }

    /// Puts the entries `added` into the index.
    fn add_entries(&mut self, added: Vec<Entry>)
        requires
            ids_of(added@).no_duplicates(),
            forall|u: u64| #[trigger]
                old(self).buckets().contains_key(u) ==> old(self).buckets()[u].len() > 0,
        ensures
            final(self).watermark() == old(self).watermark(),
            final(self).cache() == old(self).cache(),
            final(self).buckets() == updated_buckets(old(self).buckets(), Set::empty(), added@),
            final(self).times() == updated_times(old(self).times(), Set::empty(), added@),
    {
        let ghost entries = added@;
        let ghost base_b = self.buckets();
        let ghost base_t = self.times();
        let ghost nobody = Set::<ObjectID>::empty();
        let mut groups = groups_by_time(added);
        let ghost all = groups@;
        proof {
            assert(all.take(all.len() as int) =~= all);
            assert forall|u: u64| bucket_at(base_b, u) + Seq::<ObjectID>::empty() == bucket_at(
                base_b,
                u,
            ) by {
                assert(bucket_at(base_b, u) + Seq::<ObjectID>::empty() =~= bucket_at(base_b, u));
            }
        }
        while groups.len() > 0
            invariant
                groups@ == all.take(groups@.len() as int),
                groups@.len() <= all.len(),
                ids_of(entries).no_duplicates(),
                forall|i: int, j: int|
                    0 <= i < j < all.len() ==> (#[trigger] all[i]).0 != (#[trigger] all[j]).0,
                forall|i: int|
                    0 <= i < all.len() ==> (#[trigger] all[i]).1@ == ids_at(entries, all[i].0)
                        && all[i].1@.len() > 0,
                self.clock == old(self).clock,
                self.cache == old(self).cache,
                forall|u: u64| #[trigger]
                    bucket_at(buckets_of(self.map@), u) == bucket_at(base_b, u) + if group_done(
                        all,
                        groups@.len() as int,
                        u,
                    ) {
                        ids_at(entries, u)
                    } else {
                        Seq::empty()
                    },
                forall|u: u64| #[trigger]
                    buckets_of(self.map@).contains_key(u) ==> buckets_of(self.map@)[u].len() > 0,
                forall|id: ObjectID| #[trigger]
                    times_of(self.reverse@).contains_key(id) <==> base_t.contains_key(id) || id_done(
                        entries,
                        all,
                        groups@.len() as int,
                        id,
                    ),
                forall|id: ObjectID| #[trigger]
                    times_of(self.reverse@).contains_key(id) ==> times_of(self.reverse@)[id]
                        == if id_done(entries, all, groups@.len() as int, id) {
                        time_of(entries, id).unwrap()
                    } else {
                        base_t[id]
                    },
            decreases groups.len(),
        {
            let ghost n = groups@.len() as int;
            let ghost had_b = buckets_of(self.map@);
            let ghost had_t = times_of(self.reverse@);
            let (t, ids) = match groups.pop() {
                Some(group) => group,
                None => { vstd::pervasive::unreached() },
            };
            proof {
                assert(groups@ =~= all.take(n - 1));
                assert(all[n - 1] == (t, ids));
                lemma_due_at(entries, t);
                assert(!group_done(all, n, t)) by {
                    if group_done(all, n, t) {
                        let j = choose|j: int| n <= j < all.len() && (#[trigger] all[j]).0 == t;
                        assert(all[n - 1].0 != all[j].0);
                    }
                }
                assert forall|u: u64| group_done(all, n - 1, u) <==> group_done(all, n, u) || u
                    == t by {
                    if group_done(all, n - 1, u) {
                        let j = choose|j: int| n - 1 <= j < all.len() && (#[trigger] all[j]).0 == u;
                        if j >= n {
                            assert(group_done(all, n, u));
                        }
                    }
                    if group_done(all, n, u) {
                        let j = choose|j: int| n <= j < all.len() && (#[trigger] all[j]).0 == u;
                        assert(group_done(all, n - 1, u));
                    }
                    if u == t {
                        assert(all[n - 1].0 == u);
                    }
                }
            }
            schedule_all(&mut self.reverse, t, &ids);
            extend_bucket(&mut self.map, t, ids);
            proof {
                assert forall|u: u64| #[trigger]
                    bucket_at(buckets_of(self.map@), u) == bucket_at(base_b, u) + if group_done(
                        all,
                        n - 1,
                        u,
                    ) {
                        ids_at(entries, u)
                    } else {
                        Seq::empty()
                    } by {
                    assert(bucket_at(had_b, u) == bucket_at(base_b, u) + if group_done(all, n, u) {
                        ids_at(entries, u)
                    } else {
                        Seq::empty()
                    });
                    if u == t {
                        assert(bucket_at(had_b, t) =~= bucket_at(base_b, t));
                    }
                }
                assert forall|u: u64| #[trigger]
                    buckets_of(self.map@).contains_key(u) implies buckets_of(self.map@)[u].len()
                    > 0 by {
                    if u != t {
                        assert(had_b.contains_key(u));
                    }
                }
                assert forall|id: ObjectID|
                    id_done(entries, all, n - 1, id) <==> id_done(entries, all, n, id)
                        || ids@.contains(id) by {
                    assert(ids_at(entries, t).contains(id) <==> time_of(entries, id) == Some(t));
                }
                assert forall|id: ObjectID| #[trigger]
                    times_of(self.reverse@).contains_key(id) <==> base_t.contains_key(id) || id_done(
                        entries,
                        all,
                        n - 1,
                        id,
                    ) by {
                    assert(had_t.contains_key(id) <==> base_t.contains_key(id) || id_done(
                        entries,
                        all,
                        n,
                        id,
                    ));
                    assert(ObjectID(id.0) == id);
                }
                assert forall|id: ObjectID| #[trigger]
                    times_of(self.reverse@).contains_key(id) implies times_of(self.reverse@)[id]
                    == if id_done(entries, all, n - 1, id) {
                    time_of(entries, id).unwrap()
                } else {
                    base_t[id]
                } by {
                    assert(ObjectID(id.0) == id);
                    assert(ids_at(entries, t).contains(id) <==> time_of(entries, id) == Some(t));
                    if !ids@.contains(id) {
                        assert(had_t.contains_key(id));
                        assert(had_t[id] == if id_done(entries, all, n, id) {
                            time_of(entries, id).unwrap()
                        } else {
                            base_t[id]
                        });
                    }
                }
            }
        }
        proof {
            // every time of an entry has had its group
            assert forall|u: u64| #[trigger]
                bucket_at(buckets_of(self.map@), u) == updated_bucket(base_b, nobody, entries, u) by {
                lemma_retained(bucket_at(base_b, u), nobody);
                if !group_done(all, 0, u) {
                    lemma_ids_at_members(entries, u);
                    if ids_at(entries, u).len() > 0 {
                        let id = ids_at(entries, u)[0];
                        assert(ids_at(entries, u).contains(id));
                        let k = choose|k: int|
                            0 <= k < entries.len() && #[trigger] entries[k] == (u, id);
                        let i = choose|i: int|
                            0 <= i < all.len() && (#[trigger] all[i]).0 == (#[trigger] entries[k]).0;
                        assert(group_done(all, 0, u));
                    }
                    assert(ids_at(entries, u) =~= Seq::<ObjectID>::empty());
                }
            }
            assert forall|id: ObjectID|
                id_done(entries, all, 0, id) <==> time_of(entries, id) is Some by {
                if time_of(entries, id) is Some {
                    lemma_time_of(entries, id);
                    let u = time_of(entries, id).unwrap();
                    let k = choose|k: int| 0 <= k < entries.len() && #[trigger] entries[k] == (u, id);
                    let i = choose|i: int|
                        0 <= i < all.len() && (#[trigger] all[i]).0 == (#[trigger] entries[k]).0;
                    assert(group_done(all, 0, u));
                }
            }
            assert forall|u: u64| #[trigger]
                self.buckets().contains_key(u) <==> updated_buckets(
                    base_b,
                    nobody,
                    entries,
                ).contains_key(u) by {
                assert(bucket_at(buckets_of(self.map@), u) == updated_bucket(
                    base_b,
                    nobody,
                    entries,
                    u,
                ));
                if buckets_of(self.map@).contains_key(u) {
                    assert(buckets_of(self.map@)[u].len() > 0);
                }
            }
            assert forall|u: u64| #[trigger] self.buckets().contains_key(u) implies self.buckets()[u]
                == updated_buckets(base_b, nobody, entries)[u] by {
                assert(bucket_at(buckets_of(self.map@), u) == updated_bucket(
                    base_b,
                    nobody,
                    entries,
                    u,
                ));
            }
            assert(self.buckets() =~= updated_buckets(base_b, nobody, entries));
            assert forall|id: ObjectID| #[trigger]
                self.times().contains_key(id) <==> updated_times(
                    base_t,
                    nobody,
                    entries,
                ).contains_key(id) by {
                assert(times_of(self.reverse@).contains_key(id) <==> base_t.contains_key(id)
                    || id_done(entries, all, 0, id));
            }
            assert forall|id: ObjectID| #[trigger] self.times().contains_key(id) implies self.times()[id]
                == updated_times(base_t, nobody, entries)[id] by {
                assert(times_of(self.reverse@).contains_key(id));
                assert(times_of(self.reverse@)[id] == if id_done(entries, all, 0, id) {
                    time_of(entries, id).unwrap()
                } else {
                    base_t[id]
                });
            }
            assert(self.times() =~= updated_times(base_t, nobody, entries));
        }
    }

    /// Takes the identifiers `removed` out of the index.
    fn remove_ids(&mut self, removed: &Vec<ObjectID>)
        requires
            old(self).wf(),
            removed@.no_duplicates(),
            forall|i: int|
                0 <= i < removed@.len() ==> old(self).times().contains_key(#[trigger] removed@[i]),
        ensures
            final(self).watermark() == old(self).watermark(),
            final(self).cache() == old(self).cache(),
            final(self).buckets() == updated_buckets(
                old(self).buckets(),
                removed@.to_set(),
                Seq::empty(),
            ),
            final(self).times() == updated_times(
                old(self).times(),
                removed@.to_set(),
                Seq::empty(),
            ),
    {
        let ghost gone = removed@.to_set();
        let ghost nothing = Seq::<Entry>::empty();
        let ghost base_b = self.buckets();
        let ghost base_t = self.times();
        let ghost base_r = self.reverse@;
        proof {
            assert forall|i: int| 0 <= i < removed@.len() implies self.reverse@.contains_key(
                (#[trigger] removed@[i]).0,
            ) by {
                assert(base_t.contains_key(removed@[i]));
            }
        }
        let pairs = unschedule(&mut self.reverse, removed);
        let ghost taken = pairs@;
        proof {
            assert forall|id: ObjectID| #[trigger]
                times_of(self.reverse@).contains_key(id) <==> base_t.contains_key(id)
                    && !gone.contains(id) by {
                assert(ObjectID(id.0) == id);
            }
        }
        let ghost left = times_of(self.reverse@);
        let groups = groups_by_time(pairs);
        let mut k: usize = 0;
        while k < groups.len()
            invariant
                k <= groups.len(),
                index_wf(base_b, base_t),
                self.clock == old(self).clock,
                self.cache == old(self).cache,
                forall|i: int, j: int|
                    0 <= i < j < groups@.len() ==> (#[trigger] groups@[i]).0 != (
                    #[trigger] groups@[j]).0,
                forall|id: ObjectID| #[trigger]
                    times_of(self.reverse@).contains_key(id) <==> base_t.contains_key(id)
                        && !gone.contains(id),
                times_of(self.reverse@) == left,
                forall|id: ObjectID| #[trigger] left.contains_key(id) ==> left[id] == base_t[id],
                forall|u: u64| #[trigger]
                    bucket_at(buckets_of(self.map@), u) == if group_seen(groups@, k as int, u) {
                        retained(bucket_at(base_b, u), gone)
                    } else {
                        bucket_at(base_b, u)
                    },
                forall|u: u64| #[trigger]
                    buckets_of(self.map@).contains_key(u) ==> buckets_of(self.map@)[u].len() > 0,
            decreases groups.len() - k,
        {
            let t = groups[k].0;
            let ghost had_b = buckets_of(self.map@);
            proof {
                assert(!group_seen(groups@, k as int, t)) by {
                    if group_seen(groups@, k as int, t) {
                        let j = choose|j: int| 0 <= j < k && (#[trigger] groups@[j]).0 == t;
                        assert(groups@[j].0 != groups@[k as int].0);
                    }
                }
                assert forall|u: u64| group_seen(groups@, k + 1, u) <==> group_seen(
                    groups@,
                    k as int,
                    u,
                ) || u == t by {
                    if group_seen(groups@, k + 1, u) {
                        let j = choose|j: int| 0 <= j < k + 1 && (#[trigger] groups@[j]).0 == u;
                        if j < k {
                            assert(group_seen(groups@, k as int, u));
                        }
                    }
                    if group_seen(groups@, k as int, u) {
                        let j = choose|j: int| 0 <= j < k && (#[trigger] groups@[j]).0 == u;
                        assert(group_seen(groups@, k + 1, u));
                    }
                    if u == t {
                        assert(groups@[k as int].0 == u);
                    }
                }
                assert(bucket_at(had_b, t) == bucket_at(base_b, t));
            }
            match take_bucket(&mut self.map, t) {
                Some(bucket) => {
                    let kept = keep_pending(&bucket, &self.reverse);
                    proof {
                        assert(bucket@ == bucket_at(base_b, t));
                        assert forall|i: int| 0 <= i < bucket@.len() implies (not_pending(
                            self.reverse@,
                        ).contains(#[trigger] bucket@[i]) <==> gone.contains(bucket@[i])) by {
                            let id = bucket@[i];
                            assert(base_b[t][i] == id);
                            assert(base_t.contains_key(id));
                            assert(times_of(self.reverse@).contains_key(id) <==> base_t.contains_key(
                                id,
                            ) && !gone.contains(id));
                        }
                        lemma_retained_agree(bucket@, not_pending(self.reverse@), gone);
                    }
                    if kept.len() > 0 {
                        put_bucket(&mut self.map, t, kept);
                    }
                },
                None => {
                    proof {
                        assert(retained(bucket_at(base_b, t), gone) =~= Seq::<ObjectID>::empty());
                    }
                },
            }
            proof {
                assert forall|u: u64| #[trigger]
                    bucket_at(buckets_of(self.map@), u) == if group_seen(groups@, k + 1, u) {
                        retained(bucket_at(base_b, u), gone)
                    } else {
                        bucket_at(base_b, u)
                    } by {
                    assert(bucket_at(had_b, u) == if group_seen(groups@, k as int, u) {
                        retained(bucket_at(base_b, u), gone)
                    } else {
                        bucket_at(base_b, u)
                    });
                    if u == t {
                        assert(bucket_at(buckets_of(self.map@), t) =~= retained(
                            bucket_at(base_b, t),
                            gone,
                        ));
                    }
                }
                assert forall|u: u64| #[trigger]
                    buckets_of(self.map@).contains_key(u) implies buckets_of(self.map@)[u].len()
                    > 0 by {
                    if u != t {
                        assert(had_b.contains_key(u));
                    }
                }
            }
            k += 1;
        }
        proof {
            let n = groups@.len() as int;
            assert forall|u: u64| #[trigger]
                bucket_at(buckets_of(self.map@), u) == updated_bucket(base_b, gone, nothing, u) by {
                let was = bucket_at(base_b, u);
                assert(retained(was, gone) + ids_at(nothing, u) =~= retained(was, gone));
                if !group_seen(groups@, n, u) {
                    assert forall|i: int| 0 <= i < was.len() implies !gone.contains(
                        #[trigger] was[i],
                    ) by {
                        let id = was[i];
                        if gone.contains(id) {
                            assert(base_b[u][i] == id);
                            assert(base_t[id] == u);
                            let m = choose|m: int| 0 <= m < removed@.len() && removed@[m] == id;
                            assert(taken[m] == (base_r[removed@[m].0], removed@[m]));
                            assert(taken[m].0 == u);
                            let j = choose|j: int|
                                0 <= j < groups@.len() && (#[trigger] groups@[j]).0 == (
                                #[trigger] taken[m]).0;
                            assert(group_seen(groups@, n, u));
                        }
                    }
                    lemma_retained(was, gone);
                }
            }
            assert forall|u: u64| #[trigger]
                self.buckets().contains_key(u) <==> updated_buckets(
                    base_b,
                    gone,
                    nothing,
                ).contains_key(u) by {
                assert(bucket_at(buckets_of(self.map@), u) == updated_bucket(
                    base_b,
                    gone,
                    nothing,
                    u,
                ));
                if buckets_of(self.map@).contains_key(u) {
                    assert(buckets_of(self.map@)[u].len() > 0);
                }
            }
            assert forall|u: u64| #[trigger] self.buckets().contains_key(u) implies self.buckets()[u]
                == updated_buckets(base_b, gone, nothing)[u] by {
                assert(bucket_at(buckets_of(self.map@), u) == updated_bucket(
                    base_b,
                    gone,
                    nothing,
                    u,
                ));
            }
            assert(self.buckets() =~= updated_buckets(base_b, gone, nothing));
            assert forall|id: ObjectID| #[trigger]
                self.times().contains_key(id) <==> updated_times(
                    base_t,
                    gone,
                    nothing,
                ).contains_key(id) by {
                assert(times_of(self.reverse@).contains_key(id) <==> base_t.contains_key(id)
                    && !gone.contains(id));
            }
            assert forall|id: ObjectID| #[trigger] self.times().contains_key(id) implies self.times()[id]
                == updated_times(base_t, gone, nothing)[id] by {
                assert(left.contains_key(id));
            }
            assert(self.times() =~= updated_times(base_t, gone, nothing));
        }
    }

    /// Whether the index may be asked for the update: see
    /// [`update_allowed`]. The identifiers to take out must be pending and
    /// named once, those to put in named once, and a new one not pending.
    pub open spec fn may_update(
        &self,
        to_add: Seq<Entry>,
        to_update: Seq<Entry>,
        to_delete: Seq<ObjectID>,
    ) -> bool {
        update_allowed(self.times(), to_add, to_update, to_delete)
    }

    /// Whether the index may be asked for the update.
    pub fn can_update(
        &self,
        to_add: &Vec<(TriggerTime, ObjectID)>,
        to_update: &Vec<(TriggerTime, ObjectID)>,
        to_delete: &Vec<ObjectID>,
    ) -> (r: bool)
        ensures
            r == self.may_update(to_add@, to_update@, to_delete@),
    {
        broadcast use vstd::std_specs::hash::group_hash_axioms;

        let ghost times = self.times();
        let ghost removed_ids = to_delete@ + ids_of(to_update@);
        let ghost added_ids = ids_of(to_add@ + to_update@);
        // the identifiers that leave, and those that enter
        let mut removed: Vec<ObjectID> = Vec::new();
        let mut added: Vec<ObjectID> = Vec::new();
        let mut d: usize = 0;
        while d < to_delete.len()
            invariant
                d <= to_delete.len(),
                removed@ == to_delete@.take(d as int),
            decreases to_delete.len() - d,
        {
            removed.push(to_delete[d]);
            proof {
                assert(removed@ =~= to_delete@.take(d + 1));
            }
            d += 1;
        }
        proof {
            assert(to_delete@.take(to_delete@.len() as int) =~= to_delete@);
        }
        let mut a: usize = 0;
        while a < to_add.len()
            invariant
                a <= to_add.len(),
                added@ == added_ids.take(a as int),
                added_ids == ids_of(to_add@ + to_update@),
            decreases to_add.len() - a,
        {
            added.push(to_add[a].1);
            proof {
                assert((to_add@ + to_update@)[a as int] == to_add@[a as int]);
                assert(added@ =~= added_ids.take(a + 1));
            }
            a += 1;
        }
        let mut u: usize = 0;
        while u < to_update.len()
            invariant
                u <= to_update.len(),
                removed@ == to_delete@ + ids_of(to_update@).take(u as int),
                added@ == added_ids.take(to_add@.len() + u),
                added_ids == ids_of(to_add@ + to_update@),
            decreases to_update.len() - u,
        {
            removed.push(to_update[u].1);
            added.push(to_update[u].1);
            proof {
                assert((to_add@ + to_update@)[to_add@.len() + u] == to_update@[u as int]);
                assert(removed@ =~= to_delete@ + ids_of(to_update@).take(u + 1));
                assert(added@ =~= added_ids.take(to_add@.len() + u + 1));
            }
            u += 1;
        }
        proof {
            assert(ids_of(to_update@).take(to_update@.len() as int) =~= ids_of(to_update@));
            assert(added_ids.take(added_ids.len() as int) =~= added_ids);
            assert(removed@ == removed_ids);
            assert(added@ == added_ids);
        }
        let (removed_distinct, leaving) = all_distinct(&removed);
        if !removed_distinct {
            return false;
        }
        let (added_distinct, _) = all_distinct(&added);
        if !added_distinct {
            return false;
        }
        let mut i: usize = 0;
        while i < removed.len()
            invariant
                i <= removed.len(),
                times == self.times(),
                removed@ == removed_ids,
                removed_ids == to_delete@ + ids_of(to_update@),
                forall|j: int| 0 <= j < i ==> times.contains_key(#[trigger] removed@[j]),
            decreases removed.len() - i,
        {
            if !self.reverse.contains_key(&removed[i].0) {
                proof {
                    assert(!times.contains_key(removed@[i as int]));
                }
                return false;
            }
            i += 1;
        }
        let mut n: usize = 0;
        while n < to_add.len()
            invariant
                n <= to_add.len(),
                times == self.times(),
                removed@ == removed_ids,
                removed_ids == to_delete@ + ids_of(to_update@),
                forall|k: u128| leaving@.contains(k) <==> removed@.contains(ObjectID(k)),
                forall|j: int|
                    0 <= j < n && times.contains_key(#[trigger] to_add@[j].1)
                        ==> removed_ids.contains(to_add@[j].1),
            decreases to_add.len() - n,
        {
            let id = to_add[n].1;
            if self.reverse.contains_key(&id.0) && !leaving.contains(&id.0) {
                proof {
                    assert(ObjectID(id.0) == id);
                    assert(times.contains_key(to_add@[n as int].1));
                    assert(!removed_ids.contains(to_add@[n as int].1));
                }
                return false;
            }
            proof {
                assert(ObjectID(id.0) == id);
            }
            n += 1;
        }
        true
    }

    /// Brings the index up to date if it may be asked for the update, and
    /// says whether it did. An update that may not be asked for changes
    /// nothing.
    pub fn try_update(
        &mut self,
        to_add: Vec<(TriggerTime, ObjectID)>,
        to_update: Vec<(TriggerTime, ObjectID)>,
        to_delete: Vec<ObjectID>,
    ) -> (r: bool)
        requires
            old(self).wf(),
        ensures
            final(self).wf(),
            r == old(self).may_update(to_add@, to_update@, to_delete@),
            final(self).watermark() == old(self).watermark(),
            final(self).cache() == old(self).cache(),
            r ==> final(self).buckets() == updated_buckets(
                old(self).buckets(),
                update_removed(to_update@, to_delete@),
                update_added(to_add@, to_update@, old(self).watermark()),
            ) && final(self).times() == updated_times(
                old(self).times(),
                update_removed(to_update@, to_delete@),
                update_added(to_add@, to_update@, old(self).watermark()),
            ),
            !r ==> final(self).buckets() == old(self).buckets() && final(self).times() == old(
                self,
            ).times(),
    {
        if !self.can_update(&to_add, &to_update, &to_delete) {
            return false;
        }
        self.update(to_add, to_update, to_delete);
        true
    }

    /// Brings the index up to date: the triggers `to_delete` and those of
    /// `to_update` leave their buckets, and a bucket that is left empty goes;
    /// then the triggers of `to_add` and of `to_update` enter the bucket of
    /// their time, or that of the watermark if their time is before it.
    pub fn update(
        &mut self,
        to_add: Vec<(TriggerTime, ObjectID)>,
        to_update: Vec<(TriggerTime, ObjectID)>,
        to_delete: Vec<ObjectID>,
    )
        requires
            old(self).wf(),
            old(self).may_update(to_add@, to_update@, to_delete@),
        ensures
            final(self).wf(),
            final(self).watermark() == old(self).watermark(),
            final(self).cache() == old(self).cache(),
            final(self).buckets() == updated_buckets(
                old(self).buckets(),
                update_removed(to_update@, to_delete@),
                update_added(to_add@, to_update@, old(self).watermark()),
            ),
            final(self).times() == updated_times(
                old(self).times(),
                update_removed(to_update@, to_delete@),
                update_added(to_add@, to_update@, old(self).watermark()),
            ),
            forall|t: TriggerTime|
                #[trigger] final(self).buckets().contains_key(t) && !old(self).buckets().contains_key(
                    t,
                ) ==> t >= old(self).watermark(),
    {
        let ghost removed_ids = to_delete@ + ids_of(to_update@);
        let ghost entries = to_add@ + to_update@;
        let ghost watermark = self.clock;
        let ghost base_b = self.buckets();
        let ghost base_t = self.times();
        // the triggers that leave their bucket
        let mut removed = to_delete;
        let mut i: usize = 0;
        while i < to_update.len()
            invariant
                i <= to_update.len(),
                removed@ == to_delete@ + ids_of(to_update@).take(i as int),
            decreases to_update.len() - i,
        {
            removed.push(to_update[i].1);
            proof {
                assert(ids_of(to_update@).take(i + 1) =~= ids_of(to_update@).take(i as int).push(
                    to_update@[i as int].1,
                ));
                assert(removed@ =~= to_delete@ + ids_of(to_update@).take(i + 1));
            }
            i += 1;
        }
        proof {
            assert(ids_of(to_update@).take(to_update@.len() as int) =~= ids_of(to_update@));
        }
        // the triggers that enter a bucket: none before the clock
        let clock = self.clock;
        let mut added: Vec<(TriggerTime, ObjectID)> = Vec::new();
        let mut j: usize = 0;
        while j < to_add.len()
            invariant
                j <= to_add.len(),
                clock == watermark,
                entries == to_add@ + to_update@,
                added@ == clamped(entries, watermark).take(j as int),
            decreases to_add.len() - j,
        {
            let (t, id) = to_add[j];
            added.push((if t < clock { clock } else { t }, id));
            proof {
                assert(entries[j as int] == to_add@[j as int]);
                assert(added@ =~= clamped(entries, watermark).take(j + 1));
            }
            j += 1;
        }
        let mut m: usize = 0;
        while m < to_update.len()
            invariant
                m <= to_update.len(),
                clock == watermark,
                entries == to_add@ + to_update@,
                added@ == clamped(entries, watermark).take(to_add@.len() + m),
            decreases to_update.len() - m,
        {
            let (t, id) = to_update[m];
            added.push((if t < clock { clock } else { t }, id));
            proof {
                assert(entries[to_add@.len() + m] == to_update@[m as int]);
                assert(added@ =~= clamped(entries, watermark).take(to_add@.len() + m + 1));
            }
            m += 1;
        }
        proof {
            assert(added@ =~= clamped(entries, watermark));
            assert(ids_of(added@) =~= ids_of(entries));
        }
        self.remove_ids(&removed);
        self.add_entries(added);
        proof {
            let gone = removed_ids.to_set();
            lemma_update_in_two_steps(base_b, base_t, gone, added@);
            lemma_update_keeps_index(
                base_b,
                base_t,
                watermark,
                to_add@,
                to_update@,
                to_delete@,
            );
            assert forall|t: TriggerTime|
                #[trigger] self.buckets().contains_key(t) && !base_b.contains_key(
                    t,
                ) implies t >= watermark by {
                lemma_update_respects_watermark(base_b, gone, entries, watermark, t);
            }
        }
    }

    /// The latest time up to which the index was asked for triggers.
    pub fn clock(&self) -> (r: TriggerTime)
        ensures
            r == self.watermark(),
    {
        self.clock
    }

    /// The triggers that are due at `t`, if any is.
    pub fn pending_at(&self, t: TriggerTime) -> (r: Option<Vec<ObjectID>>)
        ensures
            match r {
                Some(ids) => self.buckets().contains_key(t) && ids@ == self.buckets()[t],
                None => !self.buckets().contains_key(t),
            },
    {
        match peek_bucket(&self.map, t) {
            Some(ids) => {
                let mut copy: Vec<ObjectID> = Vec::new();
                let mut i: usize = 0;
                while i < ids.len()
                    invariant
                        i <= ids.len(),
                        copy@ == ids@.take(i as int),
                    decreases ids.len() - i,
                {
                    copy.push(ids[i]);
                    proof {
                        assert(copy@ =~= ids@.take(i + 1));
                    }
                    i += 1;
                }
                proof {
                    assert(ids@.take(ids@.len() as int) =~= ids@);
                }
                Some(copy)
            },
            None => None,
        }
    }

    /// The time at which the trigger `id` is due, if it is pending.
    pub fn due_time(&self, id: &ObjectID) -> (r: Option<TriggerTime>)
        ensures
            match r {
                Some(t) => self.times().contains_key(*id) && self.times()[*id] == t,
                None => !self.times().contains_key(*id),
            },
    {
        broadcast use vstd::std_specs::hash::group_hash_axioms;

        match self.reverse.get(&id.0) {
            Some(t) => Some(*t),
            None => None,
        }
    }

    /// The object store that the index reads.
    pub fn object_cache(&self) -> (r: &C)
        ensures
            r == self.cache(),
    {
        &self.cache
    }

    /// The transaction that the trigger `id` becomes at the gas price
    /// `gas_price`, if it becomes one.
    pub fn get_auto_tx_from_id(&self, id: &ObjectID, gas_price: u64) -> (r: Option<
        AutoExecutableTransaction,
    >)
        ensures
            match r {
                Some(tx) => materialized(self.cache(), *id, gas_price) == Some(tx@),
                None => materialized(self.cache(), *id, gas_price) is None,
            },
    {
        proof {
            reveal(materialized);
        }
        // read the trigger object
        let object = match self.cache.get_object(id) {
            Ok(Some(object)) => object,
            _ => { return None },
        };
        let auto_tx = match AutoTx::try_from_object(&object) {
            Some(auto_tx) => auto_tx,
            None => { return None },
        };
        // read the gas object
        let gas = match self.cache.get_object(&auto_tx.gas_id) {
            Ok(Some(gas)) => gas,
            _ => { return None },
        };
        if !gas.is_gas_coin() {
            return None;
        }
        let balance = match gas.as_coin_maybe() {
            Some(coin) => coin.value(),
            None => { return None },
        };
        // decode type inputs and arguments
        let type_inputs = match decode_type_tags(auto_tx.type_inputs.as_slice()) {
            Some(type_inputs) => type_inputs,
            None => { return None },
        };
        let args = match decode_move_call_args(auto_tx.arguments.as_slice()) {
            Some(args) => args,
            None => { return None },
        };
        materialize_decoded(&self.cache, &auto_tx, &gas, balance, gas_price, type_inputs, args)
    }

    /// What asking the index for the triggers from `from` to `to` does: the
    /// index `after` the call differs from this one in its watermark, which
    /// is at `to` if it was lower, and in nothing else; and the call gives the
    /// transactions `txs` of this index in that range.
    pub open spec fn asked_till(
        &self,
        after: &Self,
        from: TriggerTime,
        to: TriggerTime,
        gas_price: u64,
        txs: Seq<AutoExecutableTransactionView>,
    ) -> bool {
        &&& after.watermark() == raised(self.watermark(), to)
        &&& after.buckets() == self.buckets()
        &&& after.times() == self.times()
        &&& after.cache() == self.cache()
        &&& txs == materialized_range(self.cache(), self.buckets(), from, to, gas_price)
    }

    /// To ask twice for the same range is to get the same twice: the second
    /// call gives the transactions that the first gave, and leaves the index
    /// as the first left it.
    pub proof fn lemma_get_till_idempotent(
        &self,
        once: &Self,
        twice: &Self,
        from: TriggerTime,
        to: TriggerTime,
        gas_price: u64,
        first: Seq<AutoExecutableTransactionView>,
        second: Seq<AutoExecutableTransactionView>,
    )
        requires
            self.asked_till(once, from, to, gas_price, first),
            once.asked_till(twice, from, to, gas_price, second),
        ensures
            second == first,
            twice.watermark() == once.watermark(),
            twice.buckets() == once.buckets(),
            twice.times() == once.times(),
            twice.cache() == once.cache(),
            once.watermark() >= self.watermark(),
    {
    }

    /// What a range query of an index gives is one transaction for each
    /// trigger that is due after `from` and not after `to` and becomes one,
    /// and nothing else: each transaction carries the identifier of its
    /// trigger, that trigger is in the bucket of a time in the range, and no
    /// trigger has two. So no trigger that is due at `from` itself is given.
    pub proof fn lemma_get_till_gives_the_range(
        &self,
        after: &Self,
        from: TriggerTime,
        to: TriggerTime,
        gas_price: u64,
        txs: Seq<AutoExecutableTransactionView>,
    )
        requires
            self.wf(),
            self.asked_till(after, from, to, gas_price, txs),
        ensures
            forall|k: int|
                0 <= k < txs.len() ==> {
                    let id = (#[trigger] txs[k]).object_id;
                    &&& self.times().contains_key(id)
                    &&& from < self.times()[id] <= to
                    &&& self.buckets().contains_key(self.times()[id])
                    &&& self.buckets()[self.times()[id]].contains(id)
                    &&& materialized(self.cache(), id, gas_price) == Some(txs[k])
                },
            forall|t: TriggerTime, i: int|
                from < t <= to && self.buckets().contains_key(t) && 0 <= i < self.buckets()[t].len()
                    && materialized(self.cache(), #[trigger] self.buckets()[t][i], gas_price)
                    is Some ==> txs.contains(
                    materialized(self.cache(), self.buckets()[t][i], gas_price).unwrap(),
                ),
            object_ids(txs).no_duplicates(),
            txs.no_duplicates(),
            after.wf(),
    {
        lemma_materialized_range_once(
            self.cache(),
            self.buckets(),
            self.times(),
            from,
            to,
            gas_price,
        );
        lemma_materialized_range(self.cache(), self.buckets(), from, to, gas_price);
    }

    /// The transactions of the triggers that are due after `from` and not
    /// after `to`, at the gas price `gas_price`: bucket by bucket as the time
    /// rises. A trigger that becomes no transaction is left out. The watermark
    /// rises to `to` if it was lower; nothing else changes.
    pub fn get_till(&mut self, from: TriggerTime, to: TriggerTime, gas_price: u64) -> (r: SuiResult<
        Vec<AutoExecutableTransaction>,
    >)
        ensures
            r is Ok,
            old(self).asked_till(final(self), from, to, gas_price, transactions_view(r.unwrap()@)),
    {
        if to > self.clock {
            // the clock only rises: it marks how far the triggers were handed out
            self.clock = to;
        }
        let mut result: Vec<AutoExecutableTransaction> = Vec::new();
        if from >= to {
            proof {
                assert(transactions_view(result@) =~= Seq::<AutoExecutableTransactionView>::empty());
            }
            return Ok(result);
        }
        let times = times_in_range(&self.map, from, to);
        let ghost buckets = self.buckets();
        let ghost mut done: u64 = from;
        let mut k: usize = 0;
        proof {
            assert(transactions_view(result@) =~= Seq::<AutoExecutableTransactionView>::empty());
        }
        while k < times.len()
            invariant
                k <= times.len(),
                from < to,
                buckets == self.buckets(),
                self.cache() == old(self).cache(),
                forall|i: int|
                    0 <= i < times@.len() ==> from < (#[trigger] times@[i]) <= to
                        && self.map@.contains_key(times@[i]),
                forall|i: int, j: int| 0 <= i < j < times@.len() ==> times@[i] < times@[j],
                forall|t: u64|
                    from < t <= to && #[trigger] self.map@.contains_key(t) ==> times@.contains(t),
                from <= done <= to,
                k == 0 ==> done == from,
                k > 0 ==> done == times@[k - 1],
                transactions_view(result@) == materialized_range(
                    self.cache(),
                    buckets,
                    from,
                    done,
                    gas_price,
                ),
            decreases times.len() - k,
        {
            let t = times[k];
            let ids = match peek_bucket(&self.map, t) {
                Some(ids) => ids,
                None => { vstd::pervasive::unreached() },
            };
            let ghost before = transactions_view(result@);
            proof {
                assert forall|u: u64| done < u <= t - 1 implies !buckets.contains_key(u) by {
                    if self.map@.contains_key(u) {
                        let i = choose|i: int| 0 <= i < times@.len() && times@[i] == u;
                        if i < k {
                            if k > 0 && i < k - 1 {
                                assert(times@[i] < times@[k - 1]);
                            }
                        } else if i > k {
                            assert(times@[k as int] < times@[i]);
                        }
                    }
                }
                lemma_materialized_range_gap(
                    self.cache(),
                    buckets,
                    from,
                    done,
                    (t - 1) as u64,
                    gas_price,
                );
                assert(bucket_at(buckets, t) == ids@);
                assert(ids@.take(0) =~= Seq::<ObjectID>::empty());
                assert(before + Seq::<AutoExecutableTransactionView>::empty() =~= before);
            }
            let mut j: usize = 0;
            while j < ids.len()
                invariant
                    j <= ids.len(),
                    transactions_view(result@) == before + materialized_bucket(
                        self.cache(),
                        ids@.take(j as int),
                        gas_price,
                    ),
                decreases ids.len() - j,
            {
                let ghost so_far = transactions_view(result@);
                proof {
                    assert(ids@.take(j + 1).drop_last() =~= ids@.take(j as int));
                    assert(ids@.take(j + 1).last() == ids@[j as int]);
                }
                match self.get_auto_tx_from_id(&ids[j], gas_price) {
                    Some(tx) => {
                        result.push(tx);
                        proof {
                            assert(transactions_view(result@) =~= so_far.push(tx@));
                            assert(so_far.push(tx@) =~= before + materialized_bucket(
                                self.cache(),
                                ids@.take(j + 1),
                                gas_price,
                            ));
                        }
                    },
                    None => {},
                }
                j += 1;
            }
            proof {
                assert(ids@.take(ids@.len() as int) =~= ids@);
                done = t;
            }
            k += 1;
        }
        proof {
            assert forall|u: u64| done < u <= to implies !buckets.contains_key(u) by {
                if self.map@.contains_key(u) {
                    let i = choose|i: int| 0 <= i < times@.len() && times@[i] == u;
                    if k > 0 && i < k - 1 {
                        assert(times@[i] < times@[k - 1]);
                    }
                }
            }
            lemma_materialized_range_gap(self.cache(), buckets, from, done, to, gas_price);
        }
        Ok(result)
    }
}

} // verus!
