//! The mathematics of the trigger index: lists of scheduled triggers, the
//! buckets and times they stand for, and what an update makes of them.
use crate::base_types::ObjectID;
use vstd::prelude::*;

verus! {

/// A trigger and the time at which it is due.
pub type Entry = (u64, ObjectID);

/// The identifiers of the entries, in their order.
pub open spec fn ids_of(entries: Seq<Entry>) -> Seq<ObjectID> {
    Seq::new(entries.len(), |i: int| entries[i].1)
}

/// The identifiers of the entries that are due at `t`, in their order.
pub open spec fn ids_at(entries: Seq<Entry>, t: u64) -> Seq<ObjectID>
    decreases entries.len(),
{
    if entries.len() == 0 {
        Seq::empty()
    } else if entries.last().0 == t {
        ids_at(entries.drop_last(), t).push(entries.last().1)
    } else {
        ids_at(entries.drop_last(), t)
    }
}

/// The time at which the entries have `id` due: that of the last entry for
/// `id`, and none where no entry is for `id`.
pub open spec fn time_of(entries: Seq<Entry>, id: ObjectID) -> Option<u64>
    decreases entries.len(),
{
    if entries.len() == 0 {
        None
    } else if entries.last().1 == id {
        Some(entries.last().0)
    } else {
        time_of(entries.drop_last(), id)
    }
}

/// The identifiers of `ids` that are not in `removed`, in their order.
pub open spec fn retained(ids: Seq<ObjectID>, removed: Set<ObjectID>) -> Seq<ObjectID>
    decreases ids.len(),
{
    if ids.len() == 0 {
        Seq::empty()
    } else if removed.contains(ids.last()) {
        retained(ids.drop_last(), removed)
    } else {
        retained(ids.drop_last(), removed).push(ids.last())
    }
}

/// The entries without those whose identifier an earlier entry has.
pub open spec fn first_occurrences(entries: Seq<Entry>) -> Seq<Entry>
    decreases entries.len(),
{
    if entries.len() == 0 {
        Seq::empty()
    } else if ids_of(entries.drop_last()).contains(entries.last().1) {
        first_occurrences(entries.drop_last())
    } else {
        first_occurrences(entries.drop_last()).push(entries.last())
    }
}

/// The entries, with every time before `watermark` moved up to `watermark`.
pub open spec fn clamped(entries: Seq<Entry>, watermark: u64) -> Seq<Entry> {
    Seq::new(
        entries.len(),
        |i: int|
            (
                if entries[i].0 < watermark {
                    watermark
                } else {
                    entries[i].0
                },
                entries[i].1,
            ),
    )
}

/// The bucket of the time `t`: empty where the index has none.
pub open spec fn bucket_at(buckets: Map<u64, Seq<ObjectID>>, t: u64) -> Seq<ObjectID> {
    if buckets.contains_key(t) {
        buckets[t]
    } else {
        Seq::empty()
    }
}

/// What makes buckets and times an index: no bucket is empty, no bucket has
/// an identifier twice, each member of a bucket is due at the bucket's time,
/// and each identifier that is due is a member of the bucket of its time. So
/// each identifier is in one bucket at most, and the times are the buckets
/// turned round.
pub open spec fn index_wf(buckets: Map<u64, Seq<ObjectID>>, times: Map<ObjectID, u64>) -> bool {
    &&& forall|t: u64| #[trigger]
        buckets.contains_key(t) ==> buckets[t].len() > 0 && buckets[t].no_duplicates()
    &&& forall|t: u64, i: int|
        buckets.contains_key(t) && 0 <= i < buckets[t].len() ==> times.contains_key(
            #[trigger] buckets[t][i],
        ) && times[buckets[t][i]] == t
    &&& forall|id: ObjectID| #[trigger]
        times.contains_key(id) ==> buckets.contains_key(times[id]) && buckets[times[id]].contains(
            id,
        )
}

/// The buckets that the entries stand for.
pub open spec fn scheduled_buckets(entries: Seq<Entry>) -> Map<u64, Seq<ObjectID>> {
    Map::new(|t: u64| ids_at(entries, t).len() > 0, |t: u64| ids_at(entries, t))
}

/// The times that the entries stand for.
pub open spec fn scheduled_times(entries: Seq<Entry>) -> Map<ObjectID, u64> {
    Map::new(
        |id: ObjectID| time_of(entries, id) is Some,
        |id: ObjectID| time_of(entries, id).unwrap(),
    )
}

/// The bucket of `t` after an update: what the update leaves of the old
/// bucket, then what it adds.
pub open spec fn updated_bucket(
    buckets: Map<u64, Seq<ObjectID>>,
    removed: Set<ObjectID>,
    added: Seq<Entry>,
    t: u64,
) -> Seq<ObjectID> {
    retained(bucket_at(buckets, t), removed) + ids_at(added, t)
}

/// The buckets after an update that takes out the identifiers `removed` and
/// then puts in the entries `added`.
pub open spec fn updated_buckets(
    buckets: Map<u64, Seq<ObjectID>>,
    removed: Set<ObjectID>,
    added: Seq<Entry>,
) -> Map<u64, Seq<ObjectID>> {
    Map::new(
        |t: u64| updated_bucket(buckets, removed, added, t).len() > 0,
        |t: u64| updated_bucket(buckets, removed, added, t),
    )
}

/// The times after an update that takes out the identifiers `removed` and
/// then puts in the entries `added`.
pub open spec fn updated_times(
    times: Map<ObjectID, u64>,
    removed: Set<ObjectID>,
    added: Seq<Entry>,
) -> Map<ObjectID, u64> {
    Map::new(
        |id: ObjectID|
            time_of(added, id) is Some || (times.contains_key(id) && !removed.contains(id)),
        |id: ObjectID|
            match time_of(added, id) {
                Some(t) => t,
                None => times[id],
            },
    )
}

/// What an update may be asked for: each identifier that it takes out (to
/// delete it or to move it) is pending, and is named once; each identifier
/// that it puts in (as new or moved) is named once; and one that it puts in
/// as new is not pending, unless the same update deletes it.
pub open spec fn update_allowed(
    times: Map<ObjectID, u64>,
    to_add: Seq<Entry>,
    to_update: Seq<Entry>,
    to_delete: Seq<ObjectID>,
) -> bool {
    let removed = to_delete + ids_of(to_update);
    let added = ids_of(to_add + to_update);
    &&& removed.no_duplicates()
    &&& forall|i: int| 0 <= i < removed.len() ==> times.contains_key(#[trigger] removed[i])
    &&& added.no_duplicates()
    &&& forall|i: int|
        0 <= i < to_add.len() && times.contains_key(#[trigger] to_add[i].1) ==> removed.contains(
            to_add[i].1,
        )
}

/// The watermark after the index was asked for the triggers up to `to`: it
/// rises to `to` if it was lower.
pub open spec fn raised(watermark: u64, to: u64) -> u64 {
    if to > watermark {
        to
    } else {
        watermark
    }
}

/// The watermark after the index was asked for the triggers up to each time
/// of `tos`, one call after the other.
pub open spec fn raised_through(watermark: u64, tos: Seq<u64>) -> u64
    decreases tos.len(),
{
    if tos.len() == 0 {
        watermark
    } else {
        raised(raised_through(watermark, tos.drop_last()), tos.last())
    }
}

// ---------------------------------------------------------------------------
// Lemmas
// ---------------------------------------------------------------------------
/// An identifier is due at `t` exactly if an entry says so.
pub proof fn lemma_ids_at_members(entries: Seq<Entry>, t: u64)
    ensures
        forall|id: ObjectID|
            ids_at(entries, t).contains(id) <==> exists|i: int|
                0 <= i < entries.len() && #[trigger] entries[i] == (t, id),
        ids_at(entries, t).len() <= entries.len(),
    decreases entries.len(),
{
    if entries.len() == 0 {
    } else {
        let front = entries.drop_last();
        let last = entries.last();
        lemma_ids_at_members(front, t);
        assert forall|id: ObjectID| ids_at(entries, t).contains(id) implies exists|i: int|
            0 <= i < entries.len() && #[trigger] entries[i] == (t, id) by {
            let k = choose|k: int| 0 <= k < ids_at(entries, t).len() && ids_at(entries, t)[k] == id;
            if last.0 == t && k == ids_at(front, t).len() {
                assert(entries[entries.len() - 1] == (t, id));
            } else {
                assert(ids_at(front, t)[k] == id);
                assert(ids_at(front, t).contains(id));
                let i = choose|i: int| 0 <= i < front.len() && #[trigger] front[i] == (t, id);
                assert(entries[i] == (t, id));
            }
        }
        assert forall|id: ObjectID|
            (exists|i: int|
                0 <= i < entries.len() && #[trigger] entries[i] == (t, id)) implies ids_at(
            entries,
            t,
        ).contains(id) by {
            let i = choose|i: int| 0 <= i < entries.len() && #[trigger] entries[i] == (t, id);
            if i == entries.len() - 1 {
                assert(ids_at(entries, t)[ids_at(front, t).len() as int] == id);
            } else {
                assert(front[i] == (t, id));
                assert(ids_at(front, t).contains(id));
                let k = choose|k: int| 0 <= k < ids_at(front, t).len() && ids_at(front, t)[k] == id;
                assert(ids_at(entries, t)[k] == id);
            }
        }
    }
}

/// Where no identifier has two entries, none is due twice at `t`.
pub proof fn lemma_ids_at_no_duplicates(entries: Seq<Entry>, t: u64)
    requires
        ids_of(entries).no_duplicates(),
    ensures
        ids_at(entries, t).no_duplicates(),
    decreases entries.len(),
{
    if entries.len() > 0 {
        let front = entries.drop_last();
        let last = entries.last();
        assert(ids_of(front) =~= ids_of(entries).drop_last());
        lemma_ids_at_no_duplicates(front, t);
        if last.0 == t {
            lemma_ids_at_members(front, t);
            if ids_at(front, t).contains(last.1) {
                let i = choose|i: int| 0 <= i < front.len() && #[trigger] front[i] == (t, last.1);
                assert(ids_of(entries)[i] == last.1);
                assert(ids_of(entries)[entries.len() - 1] == last.1);
                assert(false);
            }
            let s = ids_at(front, t);
            assert forall|i: int, j: int|
                0 <= i < s.push(last.1).len() && 0 <= j < s.push(last.1).len() && i != j implies s.push(
                last.1,
            )[i] != s.push(last.1)[j] by {
                if i == s.len() {
                    assert(s[j] == s.push(last.1)[j]);
                    assert(!s.contains(last.1));
                } else if j == s.len() {
                    assert(s[i] == s.push(last.1)[i]);
                    assert(!s.contains(last.1));
                }
            }
        }
    }
}

/// The entries have a time for `id` exactly if one of them is for `id`; and
/// where no identifier has two entries, it is the time of that entry.
pub proof fn lemma_time_of(entries: Seq<Entry>, id: ObjectID)
    ensures
        time_of(entries, id) is Some <==> ids_of(entries).contains(id),
        ids_of(entries).no_duplicates() ==> forall|i: int|
            0 <= i < entries.len() && (#[trigger] entries[i]).1 == id ==> time_of(entries, id)
                == Some(entries[i].0),
        time_of(entries, id) is Some ==> exists|i: int|
            0 <= i < entries.len() && #[trigger] entries[i] == (time_of(entries, id).unwrap(), id),
    decreases entries.len(),
{
    if entries.len() == 0 {
    } else {
        let front = entries.drop_last();
        let last = entries.last();
        lemma_time_of(front, id);
        assert(ids_of(front) =~= ids_of(entries).drop_last());
        if last.1 == id {
            assert(ids_of(entries)[entries.len() - 1] == id);
            assert(entries[entries.len() - 1] == (last.0, id));
            if ids_of(entries).no_duplicates() {
                assert forall|i: int|
                    0 <= i < entries.len() && (#[trigger] entries[i]).1 == id implies time_of(
                    entries,
                    id,
                ) == Some(entries[i].0) by {
                    if i != entries.len() - 1 {
                        assert(ids_of(entries)[i] == id);
                        assert(false);
                    }
                }
            }
        } else {
            if ids_of(entries).contains(id) {
                let k = choose|k: int| 0 <= k < entries.len() && ids_of(entries)[k] == id;
                assert(ids_of(front)[k] == id);
            }
            if ids_of(front).contains(id) {
                let k = choose|k: int| 0 <= k < front.len() && ids_of(front)[k] == id;
                assert(ids_of(entries)[k] == id);
            }
            if time_of(entries, id) is Some {
                let i = choose|i: int|
                    0 <= i < front.len() && #[trigger] front[i] == (
                        time_of(front, id).unwrap(),
                        id,
                    );
                assert(entries[i] == (time_of(entries, id).unwrap(), id));
            }
            if ids_of(entries).no_duplicates() {
                assert forall|i: int|
                    0 <= i < entries.len() && (#[trigger] entries[i]).1 == id implies time_of(
                    entries,
                    id,
                ) == Some(entries[i].0) by {
                    assert(front[i] == entries[i]);
                }
            }
        }
    }
}

/// What is retained of a bucket: its members that were not removed, none of
/// them twice if none was there twice.
pub proof fn lemma_retained(ids: Seq<ObjectID>, removed: Set<ObjectID>)
    ensures
        forall|id: ObjectID| #[trigger]
            retained(ids, removed).contains(id) ==> ids.contains(id) && !removed.contains(id),
        forall|id: ObjectID|
            #[trigger] ids.contains(id) && !removed.contains(id) ==> retained(ids, removed).contains(
                id,
            ),
        ids.no_duplicates() ==> retained(ids, removed).no_duplicates(),
        retained(ids, removed).len() <= ids.len(),
        (forall|i: int| 0 <= i < ids.len() ==> !removed.contains(#[trigger] ids[i])) ==> retained(
            ids,
            removed,
        ) == ids,
    decreases ids.len(),
{
    if ids.len() == 0 {
        assert(retained(ids, removed) =~= ids);
    } else {
        let front = ids.drop_last();
        let last = ids.last();
        lemma_retained(front, removed);
        let r = retained(ids, removed);
        let rf = retained(front, removed);
        assert forall|id: ObjectID| r.contains(id) implies ids.contains(id) && !removed.contains(
            id,
        ) by {
            let k = choose|k: int| 0 <= k < r.len() && r[k] == id;
            if !removed.contains(last) && k == rf.len() {
                assert(ids[ids.len() - 1] == id);
            } else {
                assert(rf[k] == id);
                assert(rf.contains(id));
                let i = choose|i: int| 0 <= i < front.len() && front[i] == id;
                assert(ids[i] == id);
            }
        }
        assert forall|id: ObjectID| ids.contains(id) && !removed.contains(id) implies r.contains(
            id,
        ) by {
            let i = choose|i: int| 0 <= i < ids.len() && ids[i] == id;
            if i == ids.len() - 1 {
                assert(r[rf.len() as int] == id);
            } else {
                assert(front[i] == id);
                assert(front.contains(id));
                assert(rf.contains(id));
                let k = choose|k: int| 0 <= k < rf.len() && rf[k] == id;
                assert(r[k] == id);
            }
        }
        if ids.no_duplicates() {
            assert(front.no_duplicates());
            if !removed.contains(last) {
                if rf.contains(last) {
                    let i = choose|i: int| 0 <= i < front.len() && front[i] == last;
                    assert(ids[i] == ids[ids.len() - 1]);
                    assert(false);
                }
                assert forall|i: int, j: int|
                    0 <= i < r.len() && 0 <= j < r.len() && i != j implies r[i] != r[j] by {
                    if i == rf.len() {
                        assert(rf[j] == r[j]);
                        assert(!rf.contains(last));
                    } else if j == rf.len() {
                        assert(rf[i] == r[i]);
                        assert(!rf.contains(last));
                    }
                }
            }
        }
        if forall|i: int| 0 <= i < ids.len() ==> !removed.contains(#[trigger] ids[i]) {
            assert(!removed.contains(ids[ids.len() - 1]));
            assert forall|i: int| 0 <= i < front.len() implies !removed.contains(
                #[trigger] front[i],
            ) by {
                assert(front[i] == ids[i]);
            }
            assert(r =~= ids);
        }
    }
}

/// The first occurrences name each identifier of the entries once.
pub proof fn lemma_first_occurrences(entries: Seq<Entry>)
    ensures
        ids_of(first_occurrences(entries)).no_duplicates(),
        forall|id: ObjectID| #[trigger]
            ids_of(first_occurrences(entries)).contains(id) ==> ids_of(entries).contains(id),
        forall|id: ObjectID| #[trigger]
            ids_of(entries).contains(id) ==> ids_of(first_occurrences(entries)).contains(id),
        ids_of(entries).no_duplicates() ==> first_occurrences(entries) == entries,
    decreases entries.len(),
{
    if entries.len() == 0 {
        assert(first_occurrences(entries) =~= entries);
    } else {
        let front = entries.drop_last();
        let last = entries.last();
        lemma_first_occurrences(front);
        let f = first_occurrences(entries);
        let ff = first_occurrences(front);
        assert(ids_of(front) =~= ids_of(entries).drop_last());
        assert forall|id: ObjectID| ids_of(f).contains(id) implies ids_of(entries).contains(id) by {
            let k = choose|k: int| 0 <= k < f.len() && ids_of(f)[k] == id;
            if !ids_of(front).contains(last.1) && k == ff.len() {
                assert(ids_of(entries)[entries.len() - 1] == id);
            } else {
                assert(ids_of(ff)[k] == id);
                assert(ids_of(ff).contains(id));
                let i = choose|i: int| 0 <= i < front.len() && ids_of(front)[i] == id;
                assert(ids_of(entries)[i] == id);
            }
        }
        assert forall|id: ObjectID| ids_of(entries).contains(id) implies ids_of(f).contains(id) by {
            let i = choose|i: int| 0 <= i < entries.len() && ids_of(entries)[i] == id;
            if i < entries.len() - 1 || ids_of(front).contains(last.1) {
                if i < entries.len() - 1 {
                    assert(ids_of(front)[i] == id);
                }
                assert(ids_of(front).contains(id));
                let k = choose|k: int| 0 <= k < ff.len() && ids_of(ff)[k] == id;
                assert(ids_of(f)[k] == id);
            } else {
                assert(ids_of(f)[ff.len() as int] == id);
            }
        }
        if !ids_of(front).contains(last.1) {
            assert(!ids_of(ff).contains(last.1));
            assert forall|i: int, j: int|
                0 <= i < f.len() && 0 <= j < f.len() && i != j implies ids_of(f)[i] != ids_of(f)[j] by {
                if i == ff.len() {
                    assert(ids_of(ff)[j] == ids_of(f)[j]);
                } else if j == ff.len() {
                    assert(ids_of(ff)[i] == ids_of(f)[i]);
                } else {
                    assert(ids_of(ff)[i] == ids_of(f)[i]);
                    assert(ids_of(ff)[j] == ids_of(f)[j]);
                }
            }
        } else {
            assert(f == ff);
        }
        if ids_of(entries).no_duplicates() {
            if ids_of(front).contains(last.1) {
                let i = choose|i: int| 0 <= i < front.len() && ids_of(front)[i] == last.1;
                assert(ids_of(entries)[i] == ids_of(entries)[entries.len() - 1]);
                assert(false);
            }
            assert(f =~= entries);
        }
    }
}

/// In an index no identifier is in two buckets, and the time of an
/// identifier is the time of the one bucket that holds it.
pub proof fn lemma_one_bucket(
    buckets: Map<u64, Seq<ObjectID>>,
    times: Map<ObjectID, u64>,
    id: ObjectID,
    t1: u64,
    t2: u64,
)
    requires
        index_wf(buckets, times),
        buckets.contains_key(t1),
        buckets[t1].contains(id),
        buckets.contains_key(t2),
        buckets[t2].contains(id),
    ensures
        t1 == t2,
        times.contains_key(id),
        times[id] == t1,
{
    let i = choose|i: int| 0 <= i < buckets[t1].len() && buckets[t1][i] == id;
    let j = choose|j: int| 0 <= j < buckets[t2].len() && buckets[t2][j] == id;
    assert(times[buckets[t1][i]] == t1);
    assert(times[buckets[t2][j]] == t2);
}

/// Taking identifiers out of an index and putting entries in leaves an
/// index, where no identifier is put in twice and none is put in that stays
/// in.
pub proof fn lemma_updated_index(
    buckets: Map<u64, Seq<ObjectID>>,
    times: Map<ObjectID, u64>,
    removed: Set<ObjectID>,
    added: Seq<Entry>,
)
    requires
        index_wf(buckets, times),
        ids_of(added).no_duplicates(),
        forall|i: int|
            0 <= i < added.len() && times.contains_key(#[trigger] added[i].1) ==> removed.contains(
                added[i].1,
            ),
    ensures
        index_wf(updated_buckets(buckets, removed, added), updated_times(times, removed, added)),
{
    let nb = updated_buckets(buckets, removed, added);
    let nt = updated_times(times, removed, added);
    assert forall|t: u64| #[trigger] nb.contains_key(t) implies nb[t].len() > 0
        && nb[t].no_duplicates() by {
        lemma_bucket_parts(buckets, times, removed, added, t);
        let kept = retained(bucket_at(buckets, t), removed);
        let new = ids_at(added, t);
        assert forall|i: int, j: int|
            0 <= i < nb[t].len() && 0 <= j < nb[t].len() && i != j implies nb[t][i] != nb[t][j] by {
            if i < kept.len() && j < kept.len() {
            } else if i >= kept.len() && j >= kept.len() {
                assert(new[i - kept.len()] != new[j - kept.len()]);
            } else if i < kept.len() {
                assert(kept.contains(kept[i]));
                assert(new.contains(new[j - kept.len()]));
            } else {
                assert(kept.contains(kept[j]));
                assert(new.contains(new[i - kept.len()]));
            }
        }
    }
    assert forall|t: u64, i: int| nb.contains_key(t) && 0 <= i < nb[t].len() implies nt.contains_key(
        #[trigger] nb[t][i],
    ) && nt[nb[t][i]] == t by {
        lemma_bucket_parts(buckets, times, removed, added, t);
        let kept = retained(bucket_at(buckets, t), removed);
        let new = ids_at(added, t);
        let id = nb[t][i];
        if i < kept.len() {
            assert(kept.contains(kept[i]));
        } else {
            assert(new.contains(new[i - kept.len()]));
        }
    }
    assert forall|id: ObjectID| #[trigger] nt.contains_key(id) implies nb.contains_key(nt[id])
        && nb[nt[id]].contains(id) by {
        let t = nt[id];
        lemma_bucket_parts(buckets, times, removed, added, t);
        let kept = retained(bucket_at(buckets, t), removed);
        let new = ids_at(added, t);
        lemma_time_of(added, id);
        lemma_ids_at_members(added, t);
        lemma_retained(bucket_at(buckets, t), removed);
        match time_of(added, id) {
            Some(_) => {
                let i = choose|i: int| 0 <= i < added.len() && #[trigger] added[i] == (t, id);
                assert(new.contains(id));
                let k = choose|k: int| 0 <= k < new.len() && new[k] == id;
                assert((kept + new)[kept.len() + k] == id);
            },
            None => {
                assert(buckets[t].contains(id));
                assert(bucket_at(buckets, t).contains(id));
                assert(kept.contains(id));
                let k = choose|k: int| 0 <= k < kept.len() && kept[k] == id;
                assert((kept + new)[k] == id);
            },
        }
    }
}

/// The two parts of a bucket after an update: what is kept was due at `t`
/// before, was not removed and is not added; what is new is due at `t` by
/// the entries added. No part has an identifier twice, and they share none.
proof fn lemma_bucket_parts(
    buckets: Map<u64, Seq<ObjectID>>,
    times: Map<ObjectID, u64>,
    removed: Set<ObjectID>,
    added: Seq<Entry>,
    t: u64,
)
    requires
        index_wf(buckets, times),
        ids_of(added).no_duplicates(),
        forall|i: int|
            0 <= i < added.len() && times.contains_key(#[trigger] added[i].1) ==> removed.contains(
                added[i].1,
            ),
    ensures
        retained(bucket_at(buckets, t), removed).no_duplicates(),
        ids_at(added, t).no_duplicates(),
        forall|id: ObjectID| #[trigger]
            retained(bucket_at(buckets, t), removed).contains(id) ==> times.contains_key(id)
                && times[id] == t && !removed.contains(id) && time_of(added, id) is None
                && !ids_at(added, t).contains(id),
        forall|id: ObjectID| #[trigger]
            ids_at(added, t).contains(id) ==> time_of(added, id) == Some(t),
{
    let old = bucket_at(buckets, t);
    lemma_retained(old, removed);
    lemma_ids_at_no_duplicates(added, t);
    lemma_ids_at_members(added, t);
    assert forall|id: ObjectID| #[trigger] ids_at(added, t).contains(id) implies time_of(added, id)
        == Some(t) by {
        let i = choose|i: int| 0 <= i < added.len() && #[trigger] added[i] == (t, id);
        lemma_time_of(added, id);
    }
    assert forall|id: ObjectID| #[trigger]
        retained(old, removed).contains(id) implies times.contains_key(id) && times[id] == t
        && !removed.contains(id) && time_of(added, id) is None && !ids_at(added, t).contains(
        id,
    ) by {
        assert(old.contains(id));
        let k = choose|k: int| 0 <= k < old.len() && old[k] == id;
        assert(times.contains_key(buckets[t][k]));
        lemma_time_of(added, id);
        if time_of(added, id) is Some {
            let i = choose|i: int|
                0 <= i < added.len() && #[trigger] added[i] == (time_of(added, id).unwrap(), id);
            assert(times.contains_key(added[i].1));
            assert(false);
        }
    }
}

/// Entries that name no identifier twice stand for an index.
pub proof fn lemma_scheduled_index(entries: Seq<Entry>)
    requires
        ids_of(entries).no_duplicates(),
    ensures
        index_wf(scheduled_buckets(entries), scheduled_times(entries)),
{
    let none = Map::<u64, Seq<ObjectID>>::empty();
    let never = Map::<ObjectID, u64>::empty();
    let nobody = Set::<ObjectID>::empty();
    lemma_updated_index(none, never, nobody, entries);
    assert forall|t: u64| updated_bucket(none, nobody, entries, t) == ids_at(entries, t) by {
        assert(retained(bucket_at(none, t), nobody) =~= Seq::<ObjectID>::empty());
        assert(Seq::<ObjectID>::empty() + ids_at(entries, t) =~= ids_at(entries, t));
    }
    assert(scheduled_buckets(entries) =~= updated_buckets(none, nobody, entries));
    assert(scheduled_times(entries) =~= updated_times(never, nobody, entries));
}

/// An update never makes a bucket before the watermark: a time that has a
/// bucket after the update and had none before is the watermark or later.
pub proof fn lemma_update_respects_watermark(
    buckets: Map<u64, Seq<ObjectID>>,
    removed: Set<ObjectID>,
    entries: Seq<Entry>,
    watermark: u64,
    t: u64,
)
    requires
        updated_buckets(buckets, removed, clamped(entries, watermark)).contains_key(t),
        !buckets.contains_key(t),
    ensures
        t >= watermark,
{
    let added = clamped(entries, watermark);
    assert(retained(bucket_at(buckets, t), removed) =~= Seq::<ObjectID>::empty());
    let new = ids_at(added, t);
    assert(new.len() > 0);
    lemma_ids_at_members(added, t);
    assert(new.contains(new[0]));
    let i = choose|i: int| 0 <= i < added.len() && #[trigger] added[i] == (t, new[0]);
    assert(added[i].0 >= watermark);
}

/// What one more entry does to the first occurrences: an entry for an
/// identifier that has a time already changes nothing; another is added at
/// the end, and gives its identifier its time.
pub proof fn lemma_first_occurrences_push(entries: Seq<Entry>, e: Entry)
    ensures
        first_occurrences(entries.push(e)) == if time_of(first_occurrences(entries), e.1) is Some {
            first_occurrences(entries)
        } else {
            first_occurrences(entries).push(e)
        },
        time_of(first_occurrences(entries), e.1) is Some <==> ids_of(entries).contains(e.1),
{
    let f = first_occurrences(entries);
    assert(entries.push(e).drop_last() =~= entries);
    assert(entries.push(e).last() == e);
    lemma_time_of(f, e.1);
    lemma_first_occurrences(entries);
}

/// Where no identifier has two entries, the identifiers due at `t` are
/// those whose time is `t`.
pub proof fn lemma_due_at(entries: Seq<Entry>, t: u64)
    requires
        ids_of(entries).no_duplicates(),
    ensures
        forall|id: ObjectID| #[trigger]
            ids_at(entries, t).contains(id) <==> time_of(entries, id) == Some(t),
{
    lemma_ids_at_members(entries, t);
    assert forall|id: ObjectID| #[trigger]
        ids_at(entries, t).contains(id) <==> time_of(entries, id) == Some(t) by {
        lemma_time_of(entries, id);
        if ids_at(entries, t).contains(id) {
            let i = choose|i: int| 0 <= i < entries.len() && #[trigger] entries[i] == (t, id);
            assert(entries[i].1 == id);
        }
        if time_of(entries, id) == Some(t) {
            let i = choose|i: int| 0 <= i < entries.len() && #[trigger] entries[i] == (t, id);
        }
    }
}

/// What is retained does not depend on the identifiers that the bucket does
/// not hold: two sets that agree on the members of `ids` leave the same.
pub proof fn lemma_retained_agree(ids: Seq<ObjectID>, a: Set<ObjectID>, b: Set<ObjectID>)
    requires
        forall|i: int| 0 <= i < ids.len() ==> (a.contains(#[trigger] ids[i]) <==> b.contains(ids[i])),
    ensures
        retained(ids, a) == retained(ids, b),
    decreases ids.len(),
{
    if ids.len() > 0 {
        let front = ids.drop_last();
        assert forall|i: int| 0 <= i < front.len() implies (a.contains(#[trigger] front[i])
            <==> b.contains(front[i])) by {
            assert(front[i] == ids[i]);
        }
        lemma_retained_agree(front, a, b);
        assert(ids.last() == ids[ids.len() - 1]);
    }
}

/// An update can be made in two steps: first take out, then put in.
pub proof fn lemma_update_in_two_steps(
    buckets: Map<u64, Seq<ObjectID>>,
    times: Map<ObjectID, u64>,
    removed: Set<ObjectID>,
    added: Seq<Entry>,
)
    ensures
        updated_buckets(
            updated_buckets(buckets, removed, Seq::empty()),
            Set::empty(),
            added,
        ) == updated_buckets(buckets, removed, added),
        updated_times(updated_times(times, removed, Seq::empty()), Set::empty(), added)
            == updated_times(times, removed, added),
{
    let nothing = Seq::<Entry>::empty();
    let nobody = Set::<ObjectID>::empty();
    let mid = updated_buckets(buckets, removed, nothing);
    assert forall|t: u64|
        updated_bucket(mid, nobody, added, t) == updated_bucket(buckets, removed, added, t) by {
        let kept = retained(bucket_at(buckets, t), removed);
        assert(updated_bucket(buckets, removed, nothing, t) =~= kept);
        assert(bucket_at(mid, t) =~= kept);
        lemma_retained(kept, nobody);
    }
    assert(updated_buckets(mid, nobody, added) =~= updated_buckets(buckets, removed, added));
    assert(updated_times(updated_times(times, removed, nothing), nobody, added) =~= updated_times(
        times,
        removed,
        added,
    ));
}

/// The watermark never falls: after more calls it is where it was after
/// fewer, or later.
pub proof fn lemma_watermark_never_falls(watermark: u64, tos: Seq<u64>, i: int, j: int)
    requires
        0 <= i <= j <= tos.len(),
    ensures
        raised_through(watermark, tos.take(i)) <= raised_through(watermark, tos.take(j)),
    decreases j - i,
{
    if i < j {
        lemma_watermark_never_falls(watermark, tos, i, j - 1);
        assert(tos.take(j).drop_last() =~= tos.take(j - 1));
    }
}

/// Asking twice for the triggers up to one time leaves the watermark where
/// the first call put it.
pub proof fn lemma_raised_twice(watermark: u64, to: u64)
    ensures
        raised(raised(watermark, to), to) == raised(watermark, to),
        raised(watermark, to) >= watermark,
{
}

/// The identifiers that an update takes out of the index.
pub open spec fn update_removed(to_update: Seq<Entry>, to_delete: Seq<ObjectID>) -> Set<
    ObjectID,
> {
    (to_delete + ids_of(to_update)).to_set()
}

/// The entries that an update puts into the index, at the watermark
/// `watermark`.
pub open spec fn update_added(to_add: Seq<Entry>, to_update: Seq<Entry>, watermark: u64) -> Seq<
    Entry,
> {
    clamped(to_add + to_update, watermark)
}

/// An update that may be asked for leaves an index: each identifier is in
/// one bucket, that of its time.
pub proof fn lemma_update_keeps_index(
    buckets: Map<u64, Seq<ObjectID>>,
    times: Map<ObjectID, u64>,
    watermark: u64,
    to_add: Seq<Entry>,
    to_update: Seq<Entry>,
    to_delete: Seq<ObjectID>,
)
    requires
        index_wf(buckets, times),
        update_allowed(times, to_add, to_update, to_delete),
    ensures
        index_wf(
            updated_buckets(
                buckets,
                update_removed(to_update, to_delete),
                update_added(to_add, to_update, watermark),
            ),
            updated_times(
                times,
                update_removed(to_update, to_delete),
                update_added(to_add, to_update, watermark),
            ),
        ),
{
    let removed_ids = to_delete + ids_of(to_update);
    let gone = update_removed(to_update, to_delete);
    let added = update_added(to_add, to_update, watermark);
    assert(ids_of(added) =~= ids_of(to_add + to_update));
    assert forall|k: int|
        0 <= k < added.len() && times.contains_key(#[trigger] added[k].1) implies gone.contains(
        added[k].1,
    ) by {
        if k < to_add.len() {
            assert(added[k].1 == to_add[k].1);
            assert(removed_ids.contains(to_add[k].1));
        } else {
            let at = k - to_add.len();
            assert(added[k].1 == to_update[at].1);
            assert(removed_ids[to_delete.len() + at] == to_update[at].1);
        }
    }
    lemma_updated_index(buckets, times, gone, added);
}

/// What a new index holds is an index, whatever the entries it is made of.
pub proof fn lemma_new_index(entries: Seq<Entry>)
    ensures
        index_wf(
            scheduled_buckets(first_occurrences(entries)),
            scheduled_times(first_occurrences(entries)),
        ),
{
    lemma_first_occurrences(entries);
    lemma_scheduled_index(first_occurrences(entries));
}

/// One update: what it is asked for, and the watermark at which it is made.
pub ghost struct UpdateRequest {
    pub to_add: Seq<Entry>,
    pub to_update: Seq<Entry>,
    pub to_delete: Seq<ObjectID>,
    pub watermark: u64,
}

/// The buckets and the times after the updates `requests`, made one after the
/// other on the buckets and times given.
pub open spec fn after_updates(
    buckets: Map<u64, Seq<ObjectID>>,
    times: Map<ObjectID, u64>,
    requests: Seq<UpdateRequest>,
) -> (Map<u64, Seq<ObjectID>>, Map<ObjectID, u64>)
    decreases requests.len(),
{
    if requests.len() == 0 {
        (buckets, times)
    } else {
        let before = after_updates(buckets, times, requests.drop_last());
        let last = requests.last();
        (
            updated_buckets(
                before.0,
                update_removed(last.to_update, last.to_delete),
                update_added(last.to_add, last.to_update, last.watermark),
            ),
            updated_times(
                before.1,
                update_removed(last.to_update, last.to_delete),
                update_added(last.to_add, last.to_update, last.watermark),
            ),
        )
    }
}

/// Whether each of the updates `requests` may be asked for when its turn
/// comes.
pub open spec fn updates_allowed(
    buckets: Map<u64, Seq<ObjectID>>,
    times: Map<ObjectID, u64>,
    requests: Seq<UpdateRequest>,
) -> bool
    decreases requests.len(),
{
    if requests.len() == 0 {
        true
    } else {
        &&& updates_allowed(buckets, times, requests.drop_last())
        &&& update_allowed(
            after_updates(buckets, times, requests.drop_last()).1,
            requests.last().to_add,
            requests.last().to_update,
            requests.last().to_delete,
        )
    }
}

/// After any number of updates an index is an index: each identifier is in
/// one bucket, and the times are the buckets turned round.
pub proof fn lemma_updates_keep_index(
    buckets: Map<u64, Seq<ObjectID>>,
    times: Map<ObjectID, u64>,
    requests: Seq<UpdateRequest>,
)
    requires
        index_wf(buckets, times),
        updates_allowed(buckets, times, requests),
    ensures
        index_wf(after_updates(buckets, times, requests).0, after_updates(buckets, times, requests).1),
    decreases requests.len(),
{
    if requests.len() > 0 {
        lemma_updates_keep_index(buckets, times, requests.drop_last());
        let before = after_updates(buckets, times, requests.drop_last());
        let last = requests.last();
        lemma_update_keeps_index(
            before.0,
            before.1,
            last.watermark,
            last.to_add,
            last.to_update,
            last.to_delete,
        );
    }
}

} // verus!
