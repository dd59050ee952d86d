//! What a trigger becomes once the objects it names are read: the rules by
//! which its arguments are resolved and its transaction is built.
use crate::auto_executable_transaction::{
    decoded_move_call_args, lemma_trigger_has_the_id_of_its_object, move_call_args_view,
    transaction_from_trigger, trigger_of, AutoExecutableTransaction, AutoExecutableTransactionView,
    AutoTx, AutoTxView, MoveCallArg, MoveCallArgView, MoveObjectRef,
};
use crate::base_types::ObjectID;
use crate::execution_cache::{ObjectCacheRead, ReadOutcome};
use crate::language_storage::{
    copy_bytes, decoded_type_tags, type_tags_view, MoveType, MoveTypeView,
};
use crate::object::{Object, ObjectView, Owner};
use crate::schedule::{bucket_at, index_wf};
use crate::transaction::{call_args_view, CallArg, CallArgView, ObjectArg, ObjectArgView};
use vstd::prelude::*;

verus! {

/// The argument that stands for the object `object`, which a trigger asks for
/// with `wanted`: a shared object goes in as shared, with the version at
/// which it was shared and the mutability that the trigger asks for; another
/// object goes in as received where the trigger says so, and else as owned
/// or immutable, with its version and digest.
pub open spec fn object_argument(object: ObjectView, wanted: MoveObjectRef) -> ObjectArgView {
    match object.owner {
        Owner::Shared { initial_shared_version } => ObjectArgView::SharedObject {
            id: wanted.id,
            initial_shared_version,
            mutable: wanted.mutable,
        },
        _ => if wanted.receiving {
            ObjectArgView::Receiving((object.id(), object.version(), object.digest()))
        } else {
            ObjectArgView::ImmOrOwnedObject((object.id(), object.version(), object.digest()))
        },
    }
}

/// One argument of a trigger, resolved against what the store answered for
/// the object it names (`read`; it is not looked at for pure bytes). With the
/// argument comes the type that takes the place of the type argument at the
/// same position, where the argument is an object. `None`: the object could
/// not be read, or has no type.
pub open spec fn resolved_argument(arg: MoveCallArgView, read: ReadOutcome) -> Option<
    (CallArgView, Option<MoveTypeView>),
> {
    match arg {
        MoveCallArgView::Pure(bytes) => Some((CallArgView::Pure(bytes), None)),
        MoveCallArgView::Object(wanted) => match read {
            ReadOutcome::Found(object) => match object.template_type() {
                Some(tag) => Some(
                    (CallArgView::Object(object_argument(object, wanted)), Some(tag)),
                ),
                None => None,
            },
            _ => None,
        },
    }
}

/// What the store answers for the object that `arg` names.
pub open spec fn read_for<C: ObjectCacheRead>(cache: &C, arg: MoveCallArgView) -> ReadOutcome {
    match arg {
        MoveCallArgView::Pure(_) => ReadOutcome::Missing,
        MoveCallArgView::Object(wanted) => cache.lookup(wanted.id),
    }
}

/// Whether each of the first `n` arguments can be resolved.
pub open spec fn arguments_resolve<C: ObjectCacheRead>(
    cache: &C,
    args: Seq<MoveCallArgView>,
    n: int,
) -> bool {
    forall|i: int|
        0 <= i < n ==> (#[trigger] resolved_argument(args[i], read_for(cache, args[i]))) is Some
}

/// The arguments of the call, resolved.
pub open spec fn resolved_arguments<C: ObjectCacheRead>(
    cache: &C,
    args: Seq<MoveCallArgView>,
) -> Seq<CallArgView> {
    Seq::new(args.len(), |i: int| resolved_argument(args[i], read_for(cache, args[i])).unwrap().0)
}

/// The type argument of the call at position `i`: the one that the trigger
/// declares, but where the argument at that position is an object, the type
/// of that object.
pub open spec fn resolved_type_input<C: ObjectCacheRead>(
    cache: &C,
    args: Seq<MoveCallArgView>,
    type_inputs: Seq<MoveTypeView>,
    i: int,
) -> MoveTypeView {
    if i < args.len() {
        match resolved_argument(args[i], read_for(cache, args[i])).unwrap().1 {
            Some(tag) => tag,
            None => type_inputs[i],
        }
    } else {
        type_inputs[i]
    }
}

/// The type arguments of the call.
pub open spec fn resolved_type_inputs<C: ObjectCacheRead>(
    cache: &C,
    args: Seq<MoveCallArgView>,
    type_inputs: Seq<MoveTypeView>,
) -> Seq<MoveTypeView> {
    Seq::new(type_inputs.len(), |i: int| resolved_type_input(cache, args, type_inputs, i))
}

/// The transaction that the trigger `auto_tx` becomes once its gas coin is
/// read and its type arguments and arguments are decoded. There is none where
///  - the trigger has more arguments than type arguments;
///  - an object that an argument names cannot be read or has no type;
///  - the call does not name its module and function by identifiers, or the
///    gas coin is not owned by the trigger's own identifier.
pub open spec fn materialized_decoded<C: ObjectCacheRead>(
    cache: &C,
    auto_tx: AutoTxView,
    gas: ObjectView,
    balance: u64,
    gas_price: u64,
    type_inputs: Seq<MoveTypeView>,
    args: Seq<MoveCallArgView>,
) -> Option<AutoExecutableTransactionView> {
    if args.len() > type_inputs.len() || !arguments_resolve(cache, args, args.len() as int) {
        None
    } else {
        transaction_from_trigger(
            auto_tx,
            gas,
            balance,
            gas_price,
            resolved_type_inputs(cache, args, type_inputs),
            resolved_arguments(cache, args),
        )
    }
}

/// The transaction that the trigger `auto_tx` becomes at the gas price
/// `gas_price`, against the objects of `cache`. There is none where
///  - the gas object cannot be read, is no coin of the gas currency, or does
///    not hold the bytes of a coin;
///  - the type arguments or the arguments of the trigger do not decode;
///  - the decoded trigger gives none.
pub open spec fn materialized_trigger<C: ObjectCacheRead>(
    cache: &C,
    auto_tx: AutoTxView,
    gas_price: u64,
) -> Option<AutoExecutableTransactionView> {
    match cache.lookup(auto_tx.gas_id) {
        ReadOutcome::Found(gas) => if !gas.is_gas_coin() {
            None
        } else {
            match gas.coin() {
                None => None,
                Some(coin) => match decoded_type_tags(auto_tx.type_inputs) {
                    None => None,
                    Some(type_inputs) => match decoded_move_call_args(auto_tx.arguments) {
                        None => None,
                        Some(args) => materialized_decoded(
                            cache,
                            auto_tx,
                            gas,
                            coin.balance,
                            gas_price,
                            type_inputs,
                            args,
                        ),
                    },
                },
            }
        },
        _ => None,
    }
}

/// The transaction that the object `id` becomes at the gas price `gas_price`:
/// that of the trigger it holds. There is none where the object cannot be
/// read, or is not the object `id`, or is no trigger, or the trigger gives
/// none.
#[verifier::opaque]
pub open spec fn materialized<C: ObjectCacheRead>(cache: &C, id: ObjectID, gas_price: u64) -> Option<
    AutoExecutableTransactionView,
> {
    match cache.lookup(id) {
        ReadOutcome::Found(object) => match trigger_of(object) {
            Some(auto_tx) => if object.id() == id {
                materialized_trigger(cache, auto_tx, gas_price)
            } else {
                None
            },
            None => None,
        },
        _ => None,
    }
}

/// The transactions that the triggers `ids` become, in the order of `ids`.
/// A trigger that becomes none is left out.
pub open spec fn materialized_bucket<C: ObjectCacheRead>(
    cache: &C,
    ids: Seq<ObjectID>,
    gas_price: u64,
) -> Seq<AutoExecutableTransactionView>
    decreases ids.len(),
{
    if ids.len() == 0 {
        Seq::empty()
    } else {
        match materialized(cache, ids.last(), gas_price) {
            Some(tx) => materialized_bucket(cache, ids.drop_last(), gas_price).push(tx),
            None => materialized_bucket(cache, ids.drop_last(), gas_price),
        }
    }
}

/// The transactions that the triggers due after `from` and not after `to`
/// become: bucket by bucket as the time rises, and within a bucket in the
/// bucket's order.
pub open spec fn materialized_range<C: ObjectCacheRead>(
    cache: &C,
    buckets: Map<u64, Seq<ObjectID>>,
    from: u64,
    to: u64,
    gas_price: u64,
) -> Seq<AutoExecutableTransactionView>
    decreases to,
{
    if to <= from {
        Seq::empty()
    } else {
        materialized_range(cache, buckets, from, (to - 1) as u64, gas_price) + materialized_bucket(
            cache,
            bucket_at(buckets, to),
            gas_price,
        )
    }
}

/// Times without a bucket add nothing: where no time after `a` and not after
/// `b` has a bucket, the range up to `b` gives what the range up to `a` gives.
pub proof fn lemma_materialized_range_gap<C: ObjectCacheRead>(
    cache: &C,
    buckets: Map<u64, Seq<ObjectID>>,
    from: u64,
    a: u64,
    b: u64,
    gas_price: u64,
)
    requires
        from <= a <= b,
        forall|t: u64| a < t <= b ==> !buckets.contains_key(t),
    ensures
        materialized_range(cache, buckets, from, b, gas_price) == materialized_range(
            cache,
            buckets,
            from,
            a,
            gas_price,
        ),
    decreases b,
{
    if a < b {
        lemma_materialized_range_gap(cache, buckets, from, a, (b - 1) as u64, gas_price);
        assert(!buckets.contains_key(b));
        let before = materialized_range(cache, buckets, from, (b - 1) as u64, gas_price);
        assert(before + Seq::<AutoExecutableTransactionView>::empty() =~= before);
    }
}

/// Each transaction of a bucket is that of one of its triggers, and each
/// trigger of the bucket that becomes a transaction has it in the list.
pub proof fn lemma_materialized_bucket<C: ObjectCacheRead>(
    cache: &C,
    ids: Seq<ObjectID>,
    gas_price: u64,
)
    ensures
        forall|tx: AutoExecutableTransactionView| #[trigger]
            materialized_bucket(cache, ids, gas_price).contains(tx) ==> exists|i: int|
                0 <= i < ids.len() && materialized(cache, #[trigger] ids[i], gas_price) == Some(tx),
        forall|i: int|
            0 <= i < ids.len() && materialized(cache, #[trigger] ids[i], gas_price) is Some
                ==> materialized_bucket(cache, ids, gas_price).contains(
                materialized(cache, ids[i], gas_price).unwrap(),
            ),
    decreases ids.len(),
{
    if ids.len() > 0 {
        let front = ids.drop_last();
        let all = materialized_bucket(cache, ids, gas_price);
        let before = materialized_bucket(cache, front, gas_price);
        lemma_materialized_bucket(cache, front, gas_price);
        assert forall|tx: AutoExecutableTransactionView| #[trigger] all.contains(tx) implies exists|
            i: int,
        | 0 <= i < ids.len() && materialized(cache, #[trigger] ids[i], gas_price) == Some(tx) by {
            let k = choose|k: int| 0 <= k < all.len() && all[k] == tx;
            if k < before.len() {
                assert(before[k] == tx);
                assert(before.contains(tx));
                let i = choose|i: int|
                    0 <= i < front.len() && materialized(cache, #[trigger] front[i], gas_price)
                        == Some(tx);
                assert(ids[i] == front[i]);
            } else {
                assert(materialized(cache, ids[ids.len() - 1], gas_price) == Some(tx));
            }
        }
        assert forall|i: int|
            0 <= i < ids.len() && materialized(
                cache,
                #[trigger] ids[i],
                gas_price,
            ) is Some implies all.contains(materialized(cache, ids[i], gas_price).unwrap()) by {
            let tx = materialized(cache, ids[i], gas_price).unwrap();
            if i < ids.len() - 1 {
                assert(front[i] == ids[i]);
                assert(before.contains(tx));
                let k = choose|k: int| 0 <= k < before.len() && before[k] == tx;
                assert(all[k] == tx);
            } else {
                assert(all[before.len() as int] == tx);
            }
        }
    }
}

/// What a range query gives is what it has to give, and nothing else: each
/// transaction it gives is that of a trigger due after `from` and not after
/// `to`, so none comes from a trigger due at `from` itself; and each trigger
/// due in that range that becomes a transaction has it in the list.
pub proof fn lemma_materialized_range<C: ObjectCacheRead>(
    cache: &C,
    buckets: Map<u64, Seq<ObjectID>>,
    from: u64,
    to: u64,
    gas_price: u64,
)
    ensures
        forall|tx: AutoExecutableTransactionView| #[trigger]
            materialized_range(cache, buckets, from, to, gas_price).contains(tx) ==> exists|
                t: u64,
                i: int,
            |
                from < t <= to && buckets.contains_key(t) && 0 <= i < buckets[t].len()
                    && materialized(cache, #[trigger] buckets[t][i], gas_price) == Some(tx),
        forall|t: u64, i: int|
            from < t <= to && buckets.contains_key(t) && 0 <= i < buckets[t].len() && materialized(
                cache,
                #[trigger] buckets[t][i],
                gas_price,
            ) is Some ==> materialized_range(cache, buckets, from, to, gas_price).contains(
                materialized(cache, buckets[t][i], gas_price).unwrap(),
            ),
    decreases to,
{
    if to > from {
        let all = materialized_range(cache, buckets, from, to, gas_price);
        let earlier = materialized_range(cache, buckets, from, (to - 1) as u64, gas_price);
        let last = materialized_bucket(cache, bucket_at(buckets, to), gas_price);
        lemma_materialized_range(cache, buckets, from, (to - 1) as u64, gas_price);
        lemma_materialized_bucket(cache, bucket_at(buckets, to), gas_price);
        assert forall|tx: AutoExecutableTransactionView| #[trigger] all.contains(tx) implies exists|
            t: u64,
            i: int,
        |
            from < t <= to && buckets.contains_key(t) && 0 <= i < buckets[t].len() && materialized(
                cache,
                #[trigger] buckets[t][i],
                gas_price,
            ) == Some(tx) by {
            let k = choose|k: int| 0 <= k < all.len() && all[k] == tx;
            if k < earlier.len() {
                assert(earlier[k] == tx);
                assert(earlier.contains(tx));
                let (t, i) = choose|t: u64, i: int|
                    from < t <= to - 1 && buckets.contains_key(t) && 0 <= i < buckets[t].len()
                        && materialized(cache, #[trigger] buckets[t][i], gas_price) == Some(tx);
                assert(from < t <= to);
            } else {
                assert(last[k - earlier.len()] == tx);
                assert(last.contains(tx));
                let i = choose|i: int|
                    0 <= i < bucket_at(buckets, to).len() && materialized(
                        cache,
                        #[trigger] bucket_at(buckets, to)[i],
                        gas_price,
                    ) == Some(tx);
                assert(buckets.contains_key(to));
                assert(materialized(cache, buckets[to][i], gas_price) == Some(tx));
            }
        }
        assert forall|t: u64, i: int|
            from < t <= to && buckets.contains_key(t) && 0 <= i < buckets[t].len() && materialized(
                cache,
                #[trigger] buckets[t][i],
                gas_price,
            ) is Some implies all.contains(
            materialized(cache, buckets[t][i], gas_price).unwrap(),
        ) by {
            let tx = materialized(cache, buckets[t][i], gas_price).unwrap();
            if t < to {
                assert(earlier.contains(tx));
                let k = choose|k: int| 0 <= k < earlier.len() && earlier[k] == tx;
                assert(all[k] == tx);
            } else {
                assert(bucket_at(buckets, to)[i] == buckets[t][i]);
                assert(last.contains(tx));
                let k = choose|k: int| 0 <= k < last.len() && last[k] == tx;
                assert(all[earlier.len() + k] == tx);
            }
        }
    }
}

/// The identifiers of the triggers that the transactions were made from, in
/// the order of the transactions.
pub open spec fn object_ids(txs: Seq<AutoExecutableTransactionView>) -> Seq<ObjectID> {
    Seq::new(txs.len(), |i: int| txs[i].object_id)
}

/// The transaction that a trigger becomes carries the identifier of the
/// trigger.
pub proof fn lemma_materialized_id<C: ObjectCacheRead>(cache: &C, id: ObjectID, gas_price: u64)
    ensures
        materialized(cache, id, gas_price) is Some ==> materialized(
            cache,
            id,
            gas_price,
        ).unwrap().object_id == id,
{
    reveal(materialized);
    match cache.lookup(id) {
        ReadOutcome::Found(object) => {
            if trigger_of(object) is Some {
                lemma_trigger_has_the_id_of_its_object(object);
            }
        },
        _ => {},
    }
}

/// Each transaction of a bucket is that of the trigger whose identifier it
/// carries, a member of the bucket; and where no trigger is in the bucket
/// twice, no trigger has two transactions.
pub proof fn lemma_materialized_bucket_once<C: ObjectCacheRead>(
    cache: &C,
    ids: Seq<ObjectID>,
    gas_price: u64,
)
    ensures
        forall|k: int|
            0 <= k < materialized_bucket(cache, ids, gas_price).len() ==> ids.contains(
                (#[trigger] materialized_bucket(cache, ids, gas_price)[k]).object_id,
            ) && materialized(
                cache,
                materialized_bucket(cache, ids, gas_price)[k].object_id,
                gas_price,
            ) == Some(materialized_bucket(cache, ids, gas_price)[k]),
        ids.no_duplicates() ==> object_ids(
            materialized_bucket(cache, ids, gas_price),
        ).no_duplicates(),
    decreases ids.len(),
{
    if ids.len() > 0 {
        let front = ids.drop_last();
        let last = ids.last();
        let all = materialized_bucket(cache, ids, gas_price);
        let before = materialized_bucket(cache, front, gas_price);
        lemma_materialized_bucket_once(cache, front, gas_price);
        lemma_materialized_id(cache, last, gas_price);
        assert forall|k: int| 0 <= k < all.len() implies ids.contains(
            (#[trigger] all[k]).object_id,
        ) && materialized(cache, all[k].object_id, gas_price) == Some(all[k]) by {
            if k < before.len() {
                assert(all[k] == before[k]);
                assert(front.contains(before[k].object_id));
                let i = choose|i: int| 0 <= i < front.len() && front[i] == before[k].object_id;
                assert(ids[i] == before[k].object_id);
            } else {
                assert(ids[ids.len() - 1] == last);
            }
        }
        if ids.no_duplicates() {
            assert(front.no_duplicates());
            let a = object_ids(all);
            assert forall|i: int, j: int| 0 <= i < a.len() && 0 <= j < a.len() && i != j implies a[i]
                != a[j] by {
                if i < before.len() && j < before.len() {
                    assert(object_ids(before)[i] != object_ids(before)[j]);
                } else {
                    // one of the two is the transaction of the last trigger
                    let other = if i < before.len() {
                        i
                    } else {
                        j
                    };
                    assert(all[other] == before[other]);
                    assert(front.contains(before[other].object_id));
                    if before[other].object_id == last {
                        let m = choose|m: int| 0 <= m < front.len() && front[m] == last;
                        assert(ids[m] == ids[ids.len() - 1]);
                    }
                }
            }
        }
    }
}

/// In an index, what a range query gives has one transaction for each
/// trigger that is due after `from` and not after `to` and becomes one, and
/// nothing else: each transaction is that of the trigger whose identifier it
/// carries, that trigger is due in the range, and no trigger has two.
pub proof fn lemma_materialized_range_once<C: ObjectCacheRead>(
    cache: &C,
    buckets: Map<u64, Seq<ObjectID>>,
    times: Map<ObjectID, u64>,
    from: u64,
    to: u64,
    gas_price: u64,
)
    requires
        index_wf(buckets, times),
    ensures
        forall|k: int|
            0 <= k < materialized_range(cache, buckets, from, to, gas_price).len() ==> {
                let tx = #[trigger] materialized_range(cache, buckets, from, to, gas_price)[k];
                &&& times.contains_key(tx.object_id)
                &&& from < times[tx.object_id] <= to
                &&& buckets.contains_key(times[tx.object_id])
                &&& buckets[times[tx.object_id]].contains(tx.object_id)
                &&& materialized(cache, tx.object_id, gas_price) == Some(tx)
            },
        object_ids(materialized_range(cache, buckets, from, to, gas_price)).no_duplicates(),
        materialized_range(cache, buckets, from, to, gas_price).no_duplicates(),
    decreases to,
{
    let all = materialized_range(cache, buckets, from, to, gas_price);
    if to > from {
        let earlier = materialized_range(cache, buckets, from, (to - 1) as u64, gas_price);
        let bucket = bucket_at(buckets, to);
        let last = materialized_bucket(cache, bucket, gas_price);
        lemma_materialized_range_once(cache, buckets, times, from, (to - 1) as u64, gas_price);
        lemma_materialized_bucket_once(cache, bucket, gas_price);
        assert forall|k: int| 0 <= k < all.len() implies {
            let tx = #[trigger] all[k];
            &&& times.contains_key(tx.object_id)
            &&& from < times[tx.object_id] <= to
            &&& buckets.contains_key(times[tx.object_id])
            &&& buckets[times[tx.object_id]].contains(tx.object_id)
            &&& materialized(cache, tx.object_id, gas_price) == Some(tx)
        } by {
            if k < earlier.len() {
                assert(all[k] == earlier[k]);
            } else {
                let tx = last[k - earlier.len()];
                assert(all[k] == tx);
                assert(bucket.contains(tx.object_id));
                let i = choose|i: int| 0 <= i < bucket.len() && bucket[i] == tx.object_id;
                assert(buckets.contains_key(to));
                assert(times[buckets[to][i]] == to);
            }
        }
        let a = object_ids(all);
        assert forall|i: int, j: int| 0 <= i < a.len() && 0 <= j < a.len() && i != j implies a[i]
            != a[j] by {
            if i < earlier.len() && j < earlier.len() {
                assert(all[i] == earlier[i] && all[j] == earlier[j]);
                assert(object_ids(earlier)[i] != object_ids(earlier)[j]);
            } else if i >= earlier.len() && j >= earlier.len() {
                assert(object_ids(last)[i - earlier.len()] != object_ids(last)[j - earlier.len()]);
            } else {
                // one is due before `to`, the other at `to`
                let x = if i < earlier.len() {
                    i
                } else {
                    j
                };
                let y = if i < earlier.len() {
                    j
                } else {
                    i
                };
                assert(all[x] == earlier[x]);
                assert(times[earlier[x].object_id] <= to - 1);
                let tx = last[y - earlier.len()];
                assert(all[y] == tx);
                assert(times[all[y].object_id] == to);
            }
        }
    } else {
        assert(object_ids(all) =~= Seq::<ObjectID>::empty());
    }
    assert forall|i: int, j: int| 0 <= i < all.len() && 0 <= j < all.len() && i != j implies all[i]
        != all[j] by {
        assert(object_ids(all)[i] != object_ids(all)[j]);
    }
}

/// What a trigger becomes depends on nothing but the identifier, the gas
/// price and what the object store answers: two stores that answer alike
/// give the same transaction, with the same bytes and the same digest.
pub proof fn lemma_materialized_deterministic<C: ObjectCacheRead, D: ObjectCacheRead>(
    first: &C,
    second: &D,
    id: ObjectID,
    gas_price: u64,
)
    requires
        forall|x: ObjectID| first.lookup(x) == second.lookup(x),
    ensures
        materialized(first, id, gas_price) == materialized(second, id, gas_price),
        materialized(first, id, gas_price) is Some ==> materialized(
            first,
            id,
            gas_price,
        ).unwrap().encoding() == materialized(second, id, gas_price).unwrap().encoding()
            && materialized(first, id, gas_price).unwrap().digest() == materialized(
            second,
            id,
            gas_price,
        ).unwrap().digest(),
{
    reveal(materialized);
    assert(first.lookup(id) == second.lookup(id));
    match first.lookup(id) {
        ReadOutcome::Found(object) => match trigger_of(object) {
            Some(auto_tx) => {
                assert(first.lookup(auto_tx.gas_id) == second.lookup(auto_tx.gas_id));
                match decoded_move_call_args(auto_tx.arguments) {
                    Some(args) => {
                        assert forall|i: int| 0 <= i < args.len() implies read_for(first, args[i])
                            == read_for(second, args[i]) by {
                            match args[i] {
                                MoveCallArgView::Object(wanted) => {
                                    assert(first.lookup(wanted.id) == second.lookup(wanted.id));
                                },
                                _ => {},
                            }
                        }
                        assert(arguments_resolve(first, args, args.len() as int)
                            == arguments_resolve(second, args, args.len() as int)) by {
                            if arguments_resolve(first, args, args.len() as int) {
                                assert forall|i: int| 0 <= i < args.len() implies (
                                #[trigger] resolved_argument(
                                    args[i],
                                    read_for(second, args[i]),
                                )) is Some by {
                                    assert(resolved_argument(args[i], read_for(first, args[i])) is Some);
                                }
                            }
                            if arguments_resolve(second, args, args.len() as int) {
                                assert forall|i: int| 0 <= i < args.len() implies (
                                #[trigger] resolved_argument(
                                    args[i],
                                    read_for(first, args[i]),
                                )) is Some by {
                                    assert(resolved_argument(args[i], read_for(second, args[i])) is Some);
                                }
                            }
                        }
                        assert(resolved_arguments(first, args) =~= resolved_arguments(
                            second,
                            args,
                        ));
                        match decoded_type_tags(auto_tx.type_inputs) {
                            Some(type_inputs) => {
                                assert(resolved_type_inputs(first, args, type_inputs)
                                    =~= resolved_type_inputs(second, args, type_inputs));
                            },
                            None => {},
                        }
                    },
                    None => {},
                }
            },
            None => {},
        },
        _ => {},
    }
}

/// The argument that stands for the object `object`, which a trigger asks for
/// with `wanted`.
pub fn object_argument_for(object: &Object, wanted: &MoveObjectRef) -> (r: ObjectArg)
    ensures
        r@ == object_argument(object@, *wanted),
{
    match object.owner {
        Owner::Shared { initial_shared_version } => ObjectArg::SharedObject {
            id: wanted.id,
            initial_shared_version,
            mutable: wanted.mutable,
        },
        _ => if wanted.receiving {
            ObjectArg::Receiving(object.compute_object_reference())
        } else {
            ObjectArg::ImmOrOwnedObject(object.compute_object_reference())
        },
    }
}

/// Resolves one argument of a trigger against the object store: pure bytes
/// go through as they are, an object is read and becomes an object argument,
/// with its type.
pub fn resolve_argument<C: ObjectCacheRead>(cache: &C, arg: &MoveCallArg) -> (r: Option<
    (CallArg, Option<MoveType>),
>)
    ensures
        match r {
            Some((argument, tag)) => resolved_argument(arg@, read_for(cache, arg@)) == Some(
                (
                    argument@,
                    match tag {
                        Some(tag) => Some(tag@),
                        None => None,
                    },
                ),
            ),
            None => resolved_argument(arg@, read_for(cache, arg@)) is None,
        },
{
    match arg {
        MoveCallArg::Pure(bytes) => Some((CallArg::Pure(copy_bytes(bytes)), None)),
        MoveCallArg::Object(wanted) => {
            let object = match cache.get_object(&wanted.id) {
                Ok(Some(object)) => object,
                _ => { return None },
            };
            // the type of the object takes the place of the declared type
            let tag = match object.get_move_template_type() {
                Some(tag) => tag,
                None => { return None },
            };
            let argument = object_argument_for(&object, wanted);
            Some((CallArg::Object(argument), Some(tag)))
        },
    }
}

/// The transaction that the trigger `auto_tx` becomes, with its gas coin
/// `gas` of balance `balance` read and its type arguments and arguments
/// decoded: each argument is resolved against the object store, the type of
/// each object takes the place of the type argument at its position, and the
/// transaction is built.
pub fn materialize_decoded<C: ObjectCacheRead>(
    cache: &C,
    auto_tx: &AutoTx,
    gas: &Object,
    balance: u64,
    gas_price: u64,
    type_inputs: Vec<MoveType>,
    args: Vec<MoveCallArg>,
) -> (r: Option<AutoExecutableTransaction>)
    ensures
        match r {
            Some(tx) => materialized_decoded(
                cache,
                auto_tx@,
                gas@,
                balance,
                gas_price,
                type_tags_view(type_inputs@),
                move_call_args_view(args@),
            ) == Some(tx@),
            None => materialized_decoded(
                cache,
                auto_tx@,
                gas@,
                balance,
                gas_price,
                type_tags_view(type_inputs@),
                move_call_args_view(args@),
            ) is None,
        },
{
    if args.len() > type_inputs.len() {
        // an argument without a type input: the trigger is not well made
        return None;
    }
    let ghost declared = type_tags_view(type_inputs@);
    let ghost wanted = move_call_args_view(args@);
    let mut type_inputs = type_inputs;
    let mut arguments: Vec<CallArg> = Vec::new();
    let mut i: usize = 0;
    while i < args.len()
        invariant
            i <= args.len() <= type_inputs.len(),
            wanted == move_call_args_view(args@),
            type_inputs.len() == declared.len(),
            arguments_resolve(cache, wanted, i as int),
            arguments@.len() == i,
            forall|j: int|
                0 <= j < i ==> (#[trigger] arguments@[j])@ == resolved_argument(
                    wanted[j],
                    read_for(cache, wanted[j]),
                ).unwrap().0,
            forall|j: int|
                0 <= j < type_inputs.len() ==> (#[trigger] type_inputs@[j])@ == if j < i {
                    resolved_type_input(cache, wanted, declared, j)
                } else {
                    declared[j]
                },
        decreases args.len() - i,
    {
        assert(wanted[i as int] == args@[i as int]@);
        match resolve_argument(cache, &args[i]) {
            Some((argument, tag)) => {
                arguments.push(argument);
                match tag {
                    Some(tag) => {
                        type_inputs.set(i, tag);
                    },
                    None => {},
                }
            },
            None => {
                assert(!arguments_resolve(cache, wanted, wanted.len() as int));
                return None;
            },
        }
        i += 1;
    }
    proof {
        assert(call_args_view(arguments@) =~= resolved_arguments(cache, wanted));
        assert(type_tags_view(type_inputs@) =~= resolved_type_inputs(cache, wanted, declared));
    }
    AutoExecutableTransaction::try_from_obj(
        auto_tx,
        gas,
        balance,
        gas_price,
        type_inputs,
        arguments,
    )
}

} // verus!
