//! The log of the transactions made from triggers, by the time for which
//! they were made.
use crate::auto_executable_transaction::{
    transactions_view, AutoExecutableTransaction, AutoExecutableTransactionView,
};
use crate::error::SuiResult;
use crate::grouping::{peek_bucket, put_bucket, take_bucket, times_in_range};
use crate::wire::{
    be_bytes, bytes_before, lemma_be_bytes_order, lemma_radix_pow_values, write_u64_be,
};
use std::collections::BTreeMap;
use vstd::prelude::*;

verus! {

/// Millisecond timestamp of a log entry.
pub type StateTimestampMs = u64;

/// The transactions logged at the time `t`: none where the log has no entry.
pub open spec fn logged_at(
    entries: Map<StateTimestampMs, Seq<AutoExecutableTransactionView>>,
    t: StateTimestampMs,
) -> Seq<AutoExecutableTransactionView> {
    if entries.contains_key(t) {
        entries[t]
    } else {
        Seq::empty()
    }
}

/// The transactions logged after `t1` and not after `t2`: entry by entry as
/// the time rises, and within an entry in the order in which they were
/// logged.
pub open spec fn logged_range(
    entries: Map<StateTimestampMs, Seq<AutoExecutableTransactionView>>,
    t1: StateTimestampMs,
    t2: StateTimestampMs,
) -> Seq<AutoExecutableTransactionView>
    decreases t2,
{
    if t2 <= t1 {
        Seq::empty()
    } else {
        logged_range(entries, t1, (t2 - 1) as u64) + logged_at(entries, t2)
    }
}

/// Times without an entry add nothing to a range.
pub proof fn lemma_logged_range_gap(
    entries: Map<StateTimestampMs, Seq<AutoExecutableTransactionView>>,
    t1: StateTimestampMs,
    a: StateTimestampMs,
    b: StateTimestampMs,
)
    requires
        t1 <= a <= b,
        forall|t: u64| a < t <= b ==> !entries.contains_key(t),
    ensures
        logged_range(entries, t1, b) == logged_range(entries, t1, a),
    decreases b,
{
    if a < b {
        lemma_logged_range_gap(entries, t1, a, (b - 1) as u64);
        assert(!entries.contains_key(b));
        let before = logged_range(entries, t1, (b - 1) as u64);
        assert(before + Seq::<AutoExecutableTransactionView>::empty() =~= before);
    }
}

/// The entries of a log without those after `t1` and not after `t2`.
pub open spec fn without_range(
    entries: Map<StateTimestampMs, Seq<AutoExecutableTransactionView>>,
    t1: StateTimestampMs,
    t2: StateTimestampMs,
) -> Map<StateTimestampMs, Seq<AutoExecutableTransactionView>> {
    Map::new(|t: u64| entries.contains_key(t) && !(t1 < t <= t2), |t: u64| entries[t])
}

/// The entry that a log holds once `transactions` are logged at a time for
/// which it held `existing`: what it held, then the new ones.
pub fn merged_entry(
    existing: Option<Vec<AutoExecutableTransaction>>,
    transactions: Vec<AutoExecutableTransaction>,
) -> (r: Vec<AutoExecutableTransaction>)
    ensures
        transactions_view(r@) == match existing {
            Some(held) => transactions_view(held@),
            None => Seq::empty(),
        } + transactions_view(transactions@),
{
    let mut new = transactions;
    match existing {
        Some(held) => {
            let mut merged = held;
            merged.append(&mut new);
            proof {
                assert(transactions_view(merged@) =~= transactions_view(held@) + transactions_view(
                    transactions@,
                ));
            }
            merged
        },
        None => {
            proof {
                assert(transactions_view(new@) =~= Seq::<AutoExecutableTransactionView>::empty()
                    + transactions_view(transactions@));
            }
            new
        },
    }
}

/// The transactions of the first `n` entries, one entry after the other.
pub open spec fn entries_joined(
    entries: Seq<Vec<AutoExecutableTransaction>>,
    n: int,
) -> Seq<AutoExecutableTransactionView>
    decreases n,
{
    if n <= 0 || n > entries.len() {
        Seq::empty()
    } else {
        entries_joined(entries, n - 1) + transactions_view(entries[n - 1]@)
    }
}

/// The transactions of the entries that a store handed out for a range, in
/// the order of the entries, and within an entry in the order in which they
/// were logged.
pub fn joined_entries(entries: Vec<Vec<AutoExecutableTransaction>>) -> (r: Vec<
    AutoExecutableTransaction,
>)
    ensures
        transactions_view(r@) == entries_joined(entries@, entries@.len() as int),
{
    let ghost given = entries@;
    let mut rest = entries;
    let mut result: Vec<AutoExecutableTransaction> = Vec::new();
    let mut rows: Vec<Vec<AutoExecutableTransaction>> = Vec::new();
    // the entries are taken from the end, so they are turned round first
    while rest.len() > 0
        invariant
            rest@.len() + rows@.len() == given.len(),
            forall|i: int| 0 <= i < rest@.len() ==> rest@[i] == given[i],
            forall|i: int| 0 <= i < rows@.len() ==> rows@[i] == given[given.len() - 1 - i],
        decreases rest.len(),
    {
        match rest.pop() {
            Some(row) => {
                rows.push(row);
            },
            None => {},
        }
    }
    proof {
        assert(transactions_view(result@) =~= entries_joined(given, 0));
    }
    while rows.len() > 0
        invariant
            rows@.len() <= given.len(),
            forall|i: int| 0 <= i < rows@.len() ==> rows@[i] == given[given.len() - 1 - i],
            transactions_view(result@) == entries_joined(given, given.len() - rows@.len()),
        decreases rows.len(),
    {
        let ghost done = given.len() - rows@.len();
        let ghost before = transactions_view(result@);
        match rows.pop() {
            Some(row) => {
                let ghost added = transactions_view(row@);
                let mut row = row;
                result.append(&mut row);
                proof {
                    assert(transactions_view(result@) =~= before + added);
                }
            },
            None => {},
        }
    }
    result
}

/// The first and the last time after `t1` and not after `t2`, if there is
/// such a time.
pub fn key_range(t1: StateTimestampMs, t2: StateTimestampMs) -> (r: Option<
    (StateTimestampMs, StateTimestampMs),
>)
    ensures
        r == if t1 < t2 {
            Some(((t1 + 1) as u64, t2))
        } else {
            None
        },
{
    if t1 < t2 {
        Some((t1 + 1, t2))
    } else {
        None
    }
}

/// The key under which a store keeps the entry of the time `timestamp`: the
/// eight bytes of the time with the most significant first, so that the keys
/// are ordered as the times are.
pub fn timestamp_key(timestamp: StateTimestampMs) -> (r: Vec<u8>)
    ensures
        r@ == be_bytes(timestamp as nat, 8),
{
    let mut key: Vec<u8> = Vec::new();
    write_u64_be(&mut key, timestamp);
    proof {
        assert(key@ =~= be_bytes(timestamp as nat, 8));
    }
    key
}

/// The keys of two times are ordered, byte by byte, as the times are.
pub proof fn lemma_timestamp_keys_ordered(a: StateTimestampMs, b: StateTimestampMs)
    ensures
        a < b <==> bytes_before(be_bytes(a as nat, 8), be_bytes(b as nat, 8)),
{
    lemma_radix_pow_values();
    lemma_be_bytes_order(a as nat, b as nat, 8);
}

/// The log, held in memory.
pub struct AutoExecutionStore {
    table: BTreeMap<StateTimestampMs, Vec<AutoExecutableTransaction>>,
}

impl AutoExecutionStore {
    /// The entries of the log: for each time that has one, the transactions
    /// logged at that time.
    pub closed spec fn entries(&self) -> Map<StateTimestampMs, Seq<AutoExecutableTransactionView>> {
        Map::new(
            |t: u64| self.table@.contains_key(t),
            |t: u64| transactions_view(self.table@[t]@),
        )
    }

    /// An empty log.
    pub fn new() -> (r: Self)
        ensures
            r.entries() == Map::<StateTimestampMs, Seq<AutoExecutableTransactionView>>::empty(),
    {
        let r = AutoExecutionStore { table: BTreeMap::new() };
        proof {
            assert(r.entries() =~= Map::<
                StateTimestampMs,
                Seq<AutoExecutableTransactionView>,
            >::empty());
        }
        r
    }

    /// An empty log for a test.
    pub fn new_for_test() -> (r: Self)
        ensures
            r.entries() == Map::<StateTimestampMs, Seq<AutoExecutableTransactionView>>::empty(),
    {
        AutoExecutionStore::new()
    }

    /// Logs `transactions` at the time `timestamp`, after those that are
    /// logged there already.
    pub fn insert_transactions(
        &mut self,
        timestamp: StateTimestampMs,
        transactions: Vec<AutoExecutableTransaction>,
    )
        ensures
            final(self).entries() == old(self).entries().insert(
                timestamp,
                logged_at(old(self).entries(), timestamp) + transactions_view(transactions@),
            ),
    {
        // an entry that is there is added to, not replaced
        let existing = take_bucket(&mut self.table, timestamp);
        let merged = merged_entry(existing, transactions);
        put_bucket(&mut self.table, timestamp, merged);
        proof {
            assert(self.entries() =~= old(self).entries().insert(
                timestamp,
                logged_at(old(self).entries(), timestamp) + transactions_view(transactions@),
            ));
        }
    }

    /// The transactions logged after `t1` and not after `t2`.
    pub fn query_transactions(&self, t1: StateTimestampMs, t2: StateTimestampMs) -> (r: SuiResult<
        Vec<AutoExecutableTransaction>,
    >)
        ensures
            r is Ok,
            transactions_view(r.unwrap()@) == logged_range(self.entries(), t1, t2),
    {
        let mut result: Vec<AutoExecutableTransaction> = Vec::new();
        proof {
            assert(transactions_view(result@) =~= Seq::<AutoExecutableTransactionView>::empty());
        }
        if t1 >= t2 {
            return Ok(result);
        }
        let times = times_in_range(&self.table, t1, t2);
        let ghost entries = self.entries();
        let ghost mut done: u64 = t1;
        let mut k: usize = 0;
        while k < times.len()
            invariant
                k <= times.len(),
                t1 < t2,
                entries == self.entries(),
                forall|i: int|
                    0 <= i < times@.len() ==> t1 < (#[trigger] times@[i]) <= t2
                        && self.table@.contains_key(times@[i]),
                forall|i: int, j: int| 0 <= i < j < times@.len() ==> times@[i] < times@[j],
                forall|t: u64|
                    t1 < t <= t2 && #[trigger] self.table@.contains_key(t) ==> times@.contains(t),
                t1 <= done <= t2,
                k == 0 ==> done == t1,
                k > 0 ==> done == times@[k - 1],
                transactions_view(result@) == logged_range(entries, t1, done),
            decreases times.len() - k,
        {
            let t = times[k];
            let txs = match peek_bucket(&self.table, t) {
                Some(txs) => txs,
                None => { vstd::pervasive::unreached() },
            };
            let ghost before = transactions_view(result@);
            proof {
                assert forall|u: u64| done < u <= t - 1 implies !entries.contains_key(u) by {
                    if self.table@.contains_key(u) {
                        let i = choose|i: int| 0 <= i < times@.len() && times@[i] == u;
                        if i < k {
                            if k > 0 && i < k - 1 {
                                assert(times@[i] < times@[k - 1]);
                            }
                        } else if i > k {
                            assert(times@[k as int] < times@[i]);
                        }
                    }
                }
                lemma_logged_range_gap(entries, t1, done, (t - 1) as u64);
                assert(logged_at(entries, t) == transactions_view(txs@));
                assert(before + transactions_view(txs@).take(0) =~= before);
            }
            let mut j: usize = 0;
            while j < txs.len()
                invariant
                    j <= txs.len(),
                    transactions_view(result@) == before + transactions_view(txs@).take(j as int),
                decreases txs.len() - j,
            {
                let ghost so_far = transactions_view(result@);
                result.push(txs[j].duplicate());
                proof {
                    assert(transactions_view(result@) =~= so_far.push(txs@[j as int]@));
                    assert(transactions_view(result@) =~= before + transactions_view(txs@).take(
                        j + 1,
                    ));
                }
                j += 1;
            }
            proof {
                assert(transactions_view(txs@).take(txs@.len() as int) =~= transactions_view(txs@));
                done = t;
            }
            k += 1;
        }
        proof {
            assert forall|u: u64| done < u <= t2 implies !entries.contains_key(u) by {
                if self.table@.contains_key(u) {
                    let i = choose|i: int| 0 <= i < times@.len() && times@[i] == u;
                    if k > 0 && i < k - 1 {
                        assert(times@[i] < times@[k - 1]);
                    }
                }
            }
            lemma_logged_range_gap(entries, t1, done, t2);
        }
        Ok(result)
    }

    /// Takes the entries after `t1` and not after `t2` out of the log.
    pub fn remove_transactions(&mut self, t1: StateTimestampMs, t2: StateTimestampMs) -> (r:
        SuiResult)
        ensures
            r is Ok,
            final(self).entries() == without_range(old(self).entries(), t1, t2),
    {
        if t1 >= t2 {
            proof {
                assert(self.entries() =~= without_range(old(self).entries(), t1, t2));
            }
            return Ok(());
        }
        let times = times_in_range(&self.table, t1, t2);
        let mut k: usize = 0;
        while k < times.len()
            invariant
                k <= times.len(),
                forall|i: int|
                    0 <= i < times@.len() ==> t1 < (#[trigger] times@[i]) <= t2 && old(
                        self,
                    ).table@.contains_key(times@[i]),
                forall|t: u64|
                    t1 < t <= t2 && #[trigger] old(self).table@.contains_key(t) ==> times@.contains(
                        t,
                    ),
                forall|t: u64| #[trigger]
                    self.table@.contains_key(t) <==> old(self).table@.contains_key(t)
                        && !times@.take(k as int).contains(t),
                forall|t: u64| #[trigger]
                    self.table@.contains_key(t) ==> self.table@[t] == old(self).table@[t],
            decreases times.len() - k,
        {
            let t = times[k];
            take_bucket(&mut self.table, t);
            proof {
                let prev = times@.take(k as int);
                let next = times@.take(k + 1);
                assert(next[k as int] == t);
                assert forall|u: u64| next.contains(u) <==> prev.contains(u) || u == t by {
                    if next.contains(u) {
                        let j = choose|j: int| 0 <= j < next.len() && next[j] == u;
                        if j < k {
                            assert(prev[j] == u);
                        }
                    }
                    if prev.contains(u) {
                        let j = choose|j: int| 0 <= j < prev.len() && prev[j] == u;
                        assert(next[j] == u);
                    }
                }
            }
            k += 1;
        }
        proof {
            assert(times@.take(times@.len() as int) =~= times@);
            assert forall|t: u64| #[trigger]
                self.entries().contains_key(t) <==> without_range(
                    old(self).entries(),
                    t1,
                    t2,
                ).contains_key(t) by {
                if times@.contains(t) {
                    let i = choose|i: int| 0 <= i < times@.len() && times@[i] == t;
                }
            }
            assert(self.entries() =~= without_range(old(self).entries(), t1, t2));
        }
        Ok(())
    }
}

} // verus!
