//! The index of the modules that emitted events, checkpoint by checkpoint.
use crate::base_types::{ObjectID, SuiAddress};
use crate::language_storage::{copy_bytes, same_bytes};
use crate::wire::{
    bytes_before, bytes_come_before, lemma_bytes_before_total, lemma_bytes_before_transitive,
};
use vstd::prelude::*;

verus! {

/// An event of a transaction, as far as the index reads it: the package and
/// the module of the event's type, and who sent the transaction.
pub struct Event {
    pub package: ObjectID,
    pub module: Vec<u8>,
    pub sender: SuiAddress,
}

/// A transaction of a checkpoint, with the events it emitted, if it emitted
/// any.
pub struct CheckpointTransaction {
    pub events: Option<Vec<Event>>,
}

/// A checkpoint: its transactions, and the number of transactions that the
/// network has executed up to and with them.
pub struct CheckpointData {
    pub network_total_transactions: u64,
    pub transactions: Vec<CheckpointTransaction>,
}

/// A row of the index: a module, a transaction in which it emitted an event,
/// and the sender of that transaction. Rows are ordered field by field.
#[derive(Debug, Clone, PartialEq, Eq, PartialOrd, Ord)]
pub struct StoredEvStructMod {
    pub package: ObjectID,
    pub module: Vec<u8>,
    pub tx_sequence_number: i64,
    pub sender: SuiAddress,
}

/// What a [`StoredEvStructMod`] stands for.
pub ghost struct StoredEvStructModView {
    pub package: ObjectID,
    pub module: Seq<u8>,
    pub tx_sequence_number: i64,
    pub sender: SuiAddress,
}

impl View for StoredEvStructMod {
    type V = StoredEvStructModView;

    open spec fn view(&self) -> StoredEvStructModView {
        StoredEvStructModView {
            package: self.package,
            module: self.module@,
            tx_sequence_number: self.tx_sequence_number,
            sender: self.sender,
        }
    }
}

/// What a list of rows stands for.
pub open spec fn rows_view(rows: Seq<StoredEvStructMod>) -> Seq<StoredEvStructModView> {
    Seq::new(rows.len(), |i: int| rows[i]@)
}

/// Whether the row `a` comes before the row `b`: by package, then module,
/// then transaction, then sender.
pub open spec fn row_before(a: StoredEvStructModView, b: StoredEvStructModView) -> bool {
    if a.package != b.package {
        a.package.0 < b.package.0
    } else if a.module != b.module {
        bytes_before(a.module, b.module)
    } else if a.tx_sequence_number != b.tx_sequence_number {
        a.tx_sequence_number < b.tx_sequence_number
    } else {
        a.sender.0 < b.sender.0
    }
}

/// Whether each row comes before the next.
pub open spec fn rows_rise(rows: Seq<StoredEvStructModView>) -> bool {
    forall|i: int, j: int| 0 <= i < j < rows.len() ==> row_before(rows[i], rows[j])
}

/// Of two rows that differ, one comes before the other; and none comes
/// before itself.
pub proof fn lemma_row_before_total(a: StoredEvStructModView, b: StoredEvStructModView)
    ensures
        a != b ==> (row_before(a, b) <==> !row_before(b, a)),
        a == b ==> !row_before(a, b),
{
    lemma_bytes_before_total(a.module, b.module);
}

/// A row that comes before a row that comes before a third comes before the
/// third.
pub proof fn lemma_row_before_transitive(
    a: StoredEvStructModView,
    b: StoredEvStructModView,
    c: StoredEvStructModView,
)
    requires
        row_before(a, b),
        row_before(b, c),
    ensures
        row_before(a, c),
{
    lemma_bytes_before_total(a.module, b.module);
    lemma_bytes_before_total(b.module, c.module);
    lemma_bytes_before_total(a.module, c.module);
    if a.package == b.package && b.package == c.package {
        if a.module != b.module && b.module != c.module {
            lemma_bytes_before_transitive(a.module, b.module, c.module);
        }
    }
}

impl StoredEvStructMod {
    /// Whether this row comes before `other`.
    pub fn comes_before(&self, other: &StoredEvStructMod) -> (r: bool)
        ensures
            r == row_before(self@, other@),
    {
        if self.package != other.package {
            self.package.0 < other.package.0
        } else if !same_bytes(&self.module, &other.module) {
            bytes_come_before(&self.module, &other.module)
        } else if self.tx_sequence_number != other.tx_sequence_number {
            self.tx_sequence_number < other.tx_sequence_number
        } else {
            self.sender.0 < other.sender.0
        }
    }
}

/// Puts `row` into rising rows at its place, unless it is there already.
pub fn insert_row(rows: &mut Vec<StoredEvStructMod>, row: StoredEvStructMod)
    requires
        rows_rise(rows_view(old(rows)@)),
    ensures
        rows_rise(rows_view(final(rows)@)),
        forall|v: StoredEvStructModView|
            rows_view(final(rows)@).contains(v) <==> rows_view(old(rows)@).contains(v) || v
                == row@,
{
    let ghost before = rows_view(rows@);
    let mut at: usize = 0;
    while at < rows.len() && rows[at].comes_before(&row)
        invariant
            at <= rows.len(),
            rows@ == old(rows)@,
            forall|k: int| 0 <= k < at ==> row_before(#[trigger] rows@[k]@, row@),
        decreases rows.len() - at,
    {
        at += 1;
    }
    if at < rows.len() && !row.comes_before(&rows[at]) {
        // the row is there
        proof {
            lemma_row_before_total(row@, rows@[at as int]@);
            assert(before[at as int] == row@);
        }
        return ;
    }
    rows.insert(at, row);
    proof {
        let after = rows_view(rows@);
        assert forall|i: int, j: int| 0 <= i < j < after.len() implies row_before(
            after[i],
            after[j],
        ) by {
            // the rows before the new one stayed, those after it moved on by one
            if j < at {
                assert(after[i] == before[i] && after[j] == before[j]);
            } else if j == at {
                assert(after[i] == before[i]);
            } else if i < at {
                assert(after[i] == before[i] && after[j] == before[j - 1]);
            } else if i == at {
                assert(after[j] == before[j - 1]);
                lemma_row_before_total(row@, before[at as int]);
                if j - 1 > at {
                    lemma_row_before_transitive(row@, before[at as int], before[j - 1]);
                }
            } else {
                assert(after[i] == before[i - 1] && after[j] == before[j - 1]);
            }
        }
        assert forall|v: StoredEvStructModView| after.contains(v) <==> before.contains(v) || v
            == row@ by {
            if after.contains(v) {
                let k = choose|k: int| 0 <= k < after.len() && after[k] == v;
                if k < at {
                    assert(before[k] == v);
                } else if k > at {
                    assert(before[k - 1] == v);
                }
            }
            if before.contains(v) {
                let k = choose|k: int| 0 <= k < before.len() && before[k] == v;
                if k < at {
                    assert(after[k] == v);
                } else {
                    assert(after[k + 1] == v);
                }
            }
            if v == row@ {
                assert(after[at as int] == v);
            }
        }
    }
}

/// What a [`CheckpointData`] stands for: for each transaction, the rows of
/// its events but for the number of the transaction.
pub open spec fn event_row(first_tx: int, position: int, event: Event) -> StoredEvStructModView {
    StoredEvStructModView {
        package: event.package,
        module: event.module@,
        tx_sequence_number: (first_tx + position) as i64,
        sender: event.sender,
    }
}

/// Whether `row` is the row of the event `j` of the transaction `i`.
pub open spec fn is_event_of(
    checkpoint: CheckpointData,
    i: int,
    j: int,
    row: StoredEvStructModView,
) -> bool {
    match checkpoint.transactions@[i].events {
        Some(events) => 0 <= j < events@.len() && row == event_row(
            checkpoint.network_total_transactions - checkpoint.transactions@.len(),
            i,
            events@[j],
        ),
        None => false,
    }
}

/// Whether `row` is the row of one of the first `m` events of the transaction
/// `i`.
pub open spec fn is_event_among(
    checkpoint: CheckpointData,
    i: int,
    m: int,
    row: StoredEvStructModView,
) -> bool {
    exists|j: int| 0 <= j < m && #[trigger] is_event_of(checkpoint, i, j, row)
}

/// How many events the transaction `i` has.
pub open spec fn events_of(checkpoint: CheckpointData, i: int) -> int {
    match checkpoint.transactions@[i].events {
        Some(events) => events@.len() as int,
        None => 0,
    }
}

/// Whether `row` is the row of an event of one of the first `n` transactions
/// of the checkpoint.
pub open spec fn is_event_row(
    checkpoint: CheckpointData,
    n: int,
    row: StoredEvStructModView,
) -> bool {
    exists|i: int|
        0 <= i < n && i < checkpoint.transactions@.len() && #[trigger] is_event_among(
            checkpoint,
            i,
            events_of(checkpoint, i),
            row,
        )
}

proof fn lemma_event_among_step(
    checkpoint: CheckpointData,
    i: int,
    m: int,
    row: StoredEvStructModView,
)
    requires
        0 <= m,
    ensures
        is_event_among(checkpoint, i, m + 1, row) <==> is_event_among(checkpoint, i, m, row)
            || is_event_of(checkpoint, i, m, row),
        !is_event_among(checkpoint, i, 0, row),
{
    if is_event_among(checkpoint, i, m + 1, row) {
        let j = choose|j: int| 0 <= j < m + 1 && #[trigger] is_event_of(checkpoint, i, j, row);
        if j < m {
            assert(is_event_among(checkpoint, i, m, row));
        }
    }
    if is_event_among(checkpoint, i, m, row) {
        let j = choose|j: int| 0 <= j < m && #[trigger] is_event_of(checkpoint, i, j, row);
        assert(0 <= j < m + 1);
    }
}

proof fn lemma_event_row_step(checkpoint: CheckpointData, n: int, row: StoredEvStructModView)
    requires
        0 <= n < checkpoint.transactions@.len(),
    ensures
        is_event_row(checkpoint, n + 1, row) <==> is_event_row(checkpoint, n, row)
            || is_event_among(checkpoint, n, events_of(checkpoint, n), row),
{
    if is_event_row(checkpoint, n + 1, row) {
        let i = choose|i: int|
            0 <= i < n + 1 && i < checkpoint.transactions@.len() && #[trigger] is_event_among(
                checkpoint,
                i,
                events_of(checkpoint, i),
                row,
            );
        if i < n {
            assert(is_event_row(checkpoint, n, row));
        }
    }
    if is_event_row(checkpoint, n, row) {
        let i = choose|i: int|
            0 <= i < n && i < checkpoint.transactions@.len() && #[trigger] is_event_among(
                checkpoint,
                i,
                events_of(checkpoint, i),
                row,
            );
        assert(0 <= i < n + 1);
    }
}

/// The handler that fills the index.
pub struct EvStructMod;

/// The name of the index.
pub const NAME: &'static str = "ev_struct_mod";

/// How many rows are written at once.
pub const BATCH_SIZE: usize = 100;

/// How many rows go into one statement.
pub const CHUNK_SIZE: usize = 1000;

/// How many rows may wait to be written.
pub const MAX_PENDING_SIZE: usize = 10000;

impl EvStructMod {
    /// The rows of a checkpoint: one for each module that emitted an event in
    /// a transaction, with the number of that transaction and its sender, in
    /// rising order and none twice. The number of a transaction is the number
    /// of transactions before the checkpoint plus its position in it. There
    /// are no rows for a checkpoint that has more transactions than the
    /// network has executed, or whose last number does not fit 63 bits.
    pub fn handle(checkpoint: &CheckpointData) -> (r: Option<Vec<StoredEvStructMod>>)
        ensures
            r is Some <==> checkpoint.transactions@.len() <= checkpoint.network_total_transactions
                <= i64::MAX,
            r is Some ==> rows_rise(rows_view(r.unwrap()@)) && forall|v: StoredEvStructModView|
                rows_view(r.unwrap()@).contains(v) <==> is_event_row(
                    *checkpoint,
                    checkpoint.transactions@.len() as int,
                    v,
                ),
    {
        let total = checkpoint.network_total_transactions;
        let count = checkpoint.transactions.len();
        if total > i64::MAX as u64 || (count as u64) > total {
            return None;
        }
        let first_tx: u64 = total - count as u64;
        let mut values: Vec<StoredEvStructMod> = Vec::new();
        let mut i: usize = 0;
        proof {
            assert forall|v: StoredEvStructModView| #[trigger]
                rows_view(values@).contains(v) <==> is_event_row(*checkpoint, 0, v) by {
                assert(!is_event_row(*checkpoint, 0, v));
            }
        }
        while i < count
            invariant
                i <= count,
                count == checkpoint.transactions@.len(),
                total == checkpoint.network_total_transactions,
                count <= total <= i64::MAX,
                first_tx == total - count,
                rows_rise(rows_view(values@)),
                forall|v: StoredEvStructModView| #[trigger]
                    rows_view(values@).contains(v) <==> is_event_row(*checkpoint, i as int, v),
            decreases count - i,
        {
            let ghost done = rows_view(values@);
            match &checkpoint.transactions[i].events {
                Some(events) => {
                    let mut j: usize = 0;
                    proof {
                        assert forall|v: StoredEvStructModView| #[trigger]
                            rows_view(values@).contains(v) <==> done.contains(v) || is_event_among(
                                *checkpoint,
                                i as int,
                                0,
                                v,
                            ) by {
                            lemma_event_among_step(*checkpoint, i as int, 0, v);
                        }
                    }
                    while j < events.len()
                        invariant
                            j <= events.len(),
                            i < count,
                            count == checkpoint.transactions@.len(),
                            total == checkpoint.network_total_transactions,
                            count <= total <= i64::MAX,
                            first_tx == total - count,
                            checkpoint.transactions@[i as int].events == Some(*events),
                            rows_rise(rows_view(values@)),
                            forall|v: StoredEvStructModView| #[trigger]
                                rows_view(values@).contains(v) <==> done.contains(v)
                                    || is_event_among(*checkpoint, i as int, j as int, v),
                        decreases events.len() - j,
                    {
                        let event = &events[j];
                        let ghost had = rows_view(values@);
                        let row = StoredEvStructMod {
                            package: event.package,
                            module: copy_bytes(&event.module),
                            tx_sequence_number: (first_tx + i as u64) as i64,
                            sender: event.sender,
                        };
                        insert_row(&mut values, row);
                        proof {
                            assert forall|v: StoredEvStructModView| #[trigger]
                                rows_view(values@).contains(v) <==> done.contains(v)
                                    || is_event_among(*checkpoint, i as int, j + 1, v) by {
                                lemma_event_among_step(*checkpoint, i as int, j as int, v);
                                assert(had.contains(v) <==> done.contains(v) || is_event_among(
                                    *checkpoint,
                                    i as int,
                                    j as int,
                                    v,
                                ));
                                assert(is_event_of(*checkpoint, i as int, j as int, v) <==> v
                                    == row@);
                            }
                        }
                        j += 1;
                    }
                    proof {
                        assert(events_of(*checkpoint, i as int) == events@.len());
                    }
                },
                None => {
                    proof {
                        assert(events_of(*checkpoint, i as int) == 0);
                        assert forall|v: StoredEvStructModView| #[trigger]
                            rows_view(values@).contains(v) <==> done.contains(v) || is_event_among(
                                *checkpoint,
                                i as int,
                                0,
                                v,
                            ) by {
                            lemma_event_among_step(*checkpoint, i as int, 0, v);
                        }
                    }
                },
            }
            proof {
                assert forall|v: StoredEvStructModView| #[trigger]
                    rows_view(values@).contains(v) <==> is_event_row(*checkpoint, i + 1, v) by {
                    lemma_event_row_step(*checkpoint, i as int, v);
                    assert(done.contains(v) <==> is_event_row(*checkpoint, i as int, v));
                }
            }
            i += 1;
        }
        Some(values)
    }
}

} // verus!
