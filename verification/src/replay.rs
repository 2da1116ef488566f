//! WAL replay: the shared per-entry apply rules, the per-table batch
//! driver, and the two interchangeable strategies built on them.
//!
//! The apply rules, per entry and in order: an entry at or below the
//! table's flushed sequence is already durable and is skipped; a DDL entry
//! only advances the observed sequence (its effect is recovered from the
//! manifest); a write carrying another schema version is skipped without
//! advancing; any other write goes to the memtable, where an oversized key
//! drops the entry but replay goes on, while an exhausted buffer aborts
//! this table. After each attempted write the table may ask for a flush,
//! which is recorded for the external flusher. The fold
//! [`replay_entries`] is the mathematical form of this loop and every
//! replay contract below speaks through it.

use vstd::prelude::*;

use crate::memtable::WriteError;
use crate::memtable::mem_insert_spec;
use crate::table::FlushRequest;
use crate::table::TableState;
use crate::table::TableV;
use crate::table::should_flush_spec;
use crate::wal::LogEntry;
use crate::wal::LogEntryV;
use crate::wal::PayloadV;
use crate::wal::Payload;

verus! {

/// Which of the two replay strategies to run.
#[derive(Clone, Copy, Debug, PartialEq, Eq, Structural)]
pub enum ReplayMode {
    RegionBased,
    TableBased,
}

/// What replay needs besides the tables and the log: which shard is being
/// replayed, how many entries one pull may return, and the retry budget
/// handed to each scheduled flush.
#[derive(Clone, Copy, Debug, PartialEq, Eq, Structural)]
pub struct ReplayContext {
    pub shard_id: u32,
    pub wal_replay_batch_size: usize,
    pub max_retry_flush_limit: usize,
}

/// Why one table's replay aborted: its memtable refused a row group at
/// this sequence with a non-recoverable error.
#[derive(Clone, Copy, Debug, PartialEq, Eq, Structural)]
pub struct ReplayError {
    pub table_id: u64,
    pub sequence: u64,
}

/// The table after the recorded sequence advanced to `sequence`.
pub open spec fn set_last(t: TableV, sequence: u64) -> TableV {
    TableV { last_sequence: sequence, ..t }
}

/// The table after a flush was recorded for the external flusher.
pub open spec fn schedule_flush_spec(t: TableV, max_retry_flush_limit: usize) -> TableV {
    TableV {
        in_flush: true,
        flush_requests: t.flush_requests.push(FlushRequest { max_retry_flush_limit }),
        ..t
    }
}

/// The table after one write attempt went through: flush if the buffer
/// asks for it, then record the sequence.
pub open spec fn advance_after_write(t: TableV, sequence: u64, max_retry_flush_limit: usize) -> TableV {
    let t1 = if should_flush_spec(t, t.in_flush) {
        schedule_flush_spec(t, max_retry_flush_limit)
    } else {
        t
    };
    set_last(t1, sequence)
}

/// What applying one log entry does to a table: the state it leaves, and
/// the error that aborts the table's replay, if any.
pub open spec fn apply_entry(t: TableV, e: LogEntryV, max_retry_flush_limit: usize) -> (
    TableV,
    Option<ReplayError>,
) {
    if e.sequence <= t.flushed_sequence {
        (t, None)
    } else {
        match e.payload {
            PayloadV::Write { schema_version, rows } => {
                if schema_version != t.schema_version {
                    (t, None)
                } else {
                    match mem_insert_spec(t.mem, e.sequence, rows) {
                        Ok(mem2) => (
                            advance_after_write(
                                TableV { mem: mem2, ..t },
                                e.sequence,
                                max_retry_flush_limit,
                            ),
                            None,
                        ),
                        Err(WriteError::KeyTooLarge) => (
                            advance_after_write(t, e.sequence, max_retry_flush_limit),
                            None,
                        ),
                        Err(WriteError::Full) => (
                            t,
                            Some(ReplayError { table_id: t.id, sequence: e.sequence }),
                        ),
                    }
                }
            },
            PayloadV::AlterSchema => (set_last(t, e.sequence), None),
            PayloadV::AlterOptions => (set_last(t, e.sequence), None),
        }
    }
}

/// Replay of an entry run, left to right, stopping at the first error.
pub open spec fn replay_entries(t: TableV, es: Seq<LogEntryV>, max_retry_flush_limit: usize) -> (
    TableV,
    Option<ReplayError>,
)
    decreases es.len(),
{
    if es.len() == 0 {
        (t, None)
    } else {
        let step = apply_entry(t, es[0], max_retry_flush_limit);
        if step.1 is Some {
            step
        } else {
            replay_entries(step.0, es.drop_first(), max_retry_flush_limit)
        }
    }
}

/// Replay of a run split in two: the second part only runs if the first
/// part finished clean, and an early error stands whatever follows.
pub proof fn lemma_replay_entries_concat(
    t: TableV,
    a: Seq<LogEntryV>,
    b: Seq<LogEntryV>,
    max_retry_flush_limit: usize,
)
    ensures
        replay_entries(t, a + b, max_retry_flush_limit) == if replay_entries(
            t,
            a,
            max_retry_flush_limit,
        ).1 is Some {
            replay_entries(t, a, max_retry_flush_limit)
        } else {
            replay_entries(replay_entries(t, a, max_retry_flush_limit).0, b, max_retry_flush_limit)
        },
    decreases a.len(),
{
    if a.len() == 0 {
        assert(a + b =~= b);
    } else {
        assert((a + b)[0] == a[0]);
        assert((a + b).drop_first() =~= a.drop_first() + b);
        let step = apply_entry(t, a[0], max_retry_flush_limit);
        if step.1 is None {
            lemma_replay_entries_concat(step.0, a.drop_first(), b, max_retry_flush_limit);
        }
    }
}

/// One more entry at the end of a clean run is one more apply step.
pub proof fn lemma_replay_entries_snoc(
    t: TableV,
    es: Seq<LogEntryV>,
    e: LogEntryV,
    max_retry_flush_limit: usize,
)
    requires
        replay_entries(t, es, max_retry_flush_limit).1 is None,
    ensures
        replay_entries(t, es.push(e), max_retry_flush_limit) == apply_entry(
            replay_entries(t, es, max_retry_flush_limit).0,
            e,
            max_retry_flush_limit,
        ),
{
    assert(es.push(e) =~= es + seq![e]);
    lemma_replay_entries_concat(t, es, seq![e], max_retry_flush_limit);
    let t1 = replay_entries(t, es, max_retry_flush_limit).0;
    assert(seq![e].drop_first() =~= Seq::<LogEntryV>::empty());
    let step = apply_entry(t1, e, max_retry_flush_limit);
    if step.1 is None {
        assert(replay_entries(step.0, Seq::<LogEntryV>::empty(), max_retry_flush_limit) == (
            step.0,
            None::<ReplayError>,
        ));
    }
}

/// An error absorbs whatever entries follow it.
pub proof fn lemma_replay_entries_error_absorbs(
    t: TableV,
    a: Seq<LogEntryV>,
    b: Seq<LogEntryV>,
    max_retry_flush_limit: usize,
)
    requires
        replay_entries(t, a, max_retry_flush_limit).1 is Some,
    ensures
        replay_entries(t, a + b, max_retry_flush_limit) == replay_entries(
            t,
            a,
            max_retry_flush_limit,
        ),
{
    lemma_replay_entries_concat(t, a, b, max_retry_flush_limit);
}

/// Applies one decoded entry to the table, holding its serial executor.
fn apply_one_entry(
    max_retry_flush_limit: usize,
    table: &mut TableState,
    entry: &LogEntry,
) -> (r: Result<(), ReplayError>)
    ensures
        ({
            let step = apply_entry(old(table)@, entry@, max_retry_flush_limit);
            &&& final(table)@ == step.0
            &&& match r {
                Ok(()) => step.1 is None,
                Err(e) => step.1 == Some(e),
            }
        }),
{
    if entry.sequence <= table.flushed_sequence {
        return Ok(());
    }
    match &entry.payload {
        Payload::Write { schema_version, rows } => {
            if *schema_version != table.schema_version {
                return Ok(());
            }
            let wrote = table.mem.insert(entry.sequence, rows);
            match wrote {
                Ok(()) => {},
                Err(WriteError::KeyTooLarge) => {
                    // The oversized entry is dropped; replay continues and
                    // the sequence still advances.
                },
                Err(WriteError::Full) => {
                    return Err(ReplayError { table_id: table.id, sequence: entry.sequence });
                },
            }
            let in_flush = table.in_flush;
            if table.should_flush_table(in_flush) {
                table.in_flush = true;
                table.flush_requests.push(FlushRequest { max_retry_flush_limit });
            }
            table.last_sequence = entry.sequence;
            proof {
                assert(table@ =~= apply_entry(old(table)@, entry@, max_retry_flush_limit).0);
            }
            Ok(())
        },
        Payload::AlterSchema => {
            table.last_sequence = entry.sequence;
            proof {
                assert(table@ =~= set_last(old(table)@, entry@.sequence));
            }
            Ok(())
        },
        Payload::AlterOptions => {
            table.last_sequence = entry.sequence;
            proof {
                assert(table@ =~= set_last(old(table)@, entry@.sequence));
            }
            Ok(())
        },
    }
}

/// Replays a run of log entries (`entries[start..end]`) into the table's
/// memtable, flushing when the table asks for it. The caller holds the
/// table's serial executor for the whole run.
#[verifier::loop_isolation(false)]
pub fn replay_table_log_entries(
    max_retry_flush_limit: usize,
    table: &mut TableState,
    entries: &Vec<LogEntry>,
    start: usize,
    end: usize,
) -> (r: Result<(), ReplayError>)
    requires
        start <= end <= entries@.len(),
    ensures
        ({
            let run = replay_entries(
                old(table)@,
                entries.deep_view().subrange(start as int, end as int),
                max_retry_flush_limit,
            );
            &&& final(table)@ == run.0
            &&& match r {
                Ok(()) => run.1 is None,
                Err(e) => run.1 == Some(e),
            }
        }),
{
    let ghost t0 = table@;
    let mut i: usize = start;
    while i < end
        invariant
            start <= i <= end,
            replay_entries(
                t0,
                entries.deep_view().subrange(start as int, i as int),
                max_retry_flush_limit,
            ) == (table@, None::<ReplayError>),
        decreases end - i,
    {
        let ghost done = entries.deep_view().subrange(start as int, i as int);
        proof {
            assert(entries.deep_view().subrange(start as int, i + 1) =~= done.push(
                entries.deep_view()[i as int],
            ));
            lemma_replay_entries_snoc(
                t0,
                done,
                entries.deep_view()[i as int],
                max_retry_flush_limit,
            );
        }
        let stepped = apply_one_entry(max_retry_flush_limit, table, &entries[i]);
        if let Err(e) = stepped {
            proof {
                assert(entries.deep_view().subrange(start as int, end as int) =~= entries
                    .deep_view().subrange(start as int, i + 1) + entries.deep_view().subrange(
                    i + 1,
                    end as int,
                ));
                lemma_replay_entries_error_absorbs(
                    t0,
                    entries.deep_view().subrange(start as int, i + 1),
                    entries.deep_view().subrange(i + 1, end as int),
                    max_retry_flush_limit,
                );
            }
            return Err(e);
        }
        i = i + 1;
    }
    Ok(())
}

/// A batch of one table's entries inside a pulled log batch: contiguous
/// index runs, preserving the original order.
pub struct TableBatch {
    pub table_id: u64,
    pub ranges: Vec<EntryRange>,
}

/// One contiguous index run `start..end` into a pulled log batch.
#[derive(Clone, Copy, Debug, PartialEq, Eq, Structural)]
pub struct EntryRange {
    pub start: usize,
    pub end: usize,
}

/// Spec-level image of a [`TableBatch`].
#[verifier::ext_equal]
pub struct TableBatchV {
    pub table_id: u64,
    pub ranges: Seq<EntryRange>,
}

impl View for TableBatch {
    type V = TableBatchV;

    open spec fn view(&self) -> TableBatchV {
        TableBatchV { table_id: self.table_id, ranges: self.ranges@ }
    }
}

impl DeepView for TableBatch {
    type V = TableBatchV;

    open spec fn deep_view(&self) -> TableBatchV {
        self@
    }
}

/// The entries a list of ranges selects from a batch, concatenated in
/// range order.
pub open spec fn ranges_slice(es: Seq<LogEntryV>, ranges: Seq<EntryRange>) -> Seq<LogEntryV>
    decreases ranges.len(),
{
    if ranges.len() == 0 {
        Seq::empty()
    } else {
        es.subrange(ranges[0].start as int, ranges[0].end as int) + ranges_slice(
            es,
            ranges.drop_first(),
        )
    }
}

/// One more range at the end selects one more slice.
pub proof fn lemma_ranges_slice_snoc(es: Seq<LogEntryV>, ranges: Seq<EntryRange>, r: EntryRange)
    ensures
        ranges_slice(es, ranges.push(r)) == ranges_slice(es, ranges) + es.subrange(
            r.start as int,
            r.end as int,
        ),
    decreases ranges.len(),
{
    if ranges.len() == 0 {
        assert(ranges.push(r)[0] == r);
        assert(ranges.push(r).drop_first() =~= Seq::<EntryRange>::empty());
        assert(ranges_slice(es, Seq::<EntryRange>::empty()) == Seq::<LogEntryV>::empty());
        assert(ranges_slice(es, ranges.push(r)) =~= ranges_slice(es, ranges) + es.subrange(
            r.start as int,
            r.end as int,
        ));
    } else {
        assert(ranges.push(r)[0] == ranges[0]);
        assert(ranges.push(r).drop_first() =~= ranges.drop_first().push(r));
        lemma_ranges_slice_snoc(es, ranges.drop_first(), r);
        assert(ranges_slice(es, ranges.push(r)) =~= ranges_slice(es, ranges) + es.subrange(
            r.start as int,
            r.end as int,
        ));
    }
}

/// A run made of one table's entries projects to itself.
pub proof fn lemma_entries_of_all_match(es: Seq<LogEntryV>, table_id: u64)
    requires
        forall|k: int| 0 <= k < es.len() ==> es[k].table_id == table_id,
    ensures
        crate::wal::entries_of(es, table_id) == es,
    decreases es.len(),
{
    if es.len() > 0 {
        lemma_entries_of_all_match(es.drop_first(), table_id);
        assert(crate::wal::entries_of(es, table_id) =~= es);
    }
}

/// A run with none of one table's entries projects to nothing.
pub proof fn lemma_entries_of_none_match(es: Seq<LogEntryV>, table_id: u64)
    requires
        forall|k: int| 0 <= k < es.len() ==> es[k].table_id != table_id,
    ensures
        crate::wal::entries_of(es, table_id) == Seq::<LogEntryV>::empty(),
    decreases es.len(),
{
    if es.len() > 0 {
        lemma_entries_of_none_match(es.drop_first(), table_id);
        assert(crate::wal::entries_of(es, table_id) =~= Seq::<LogEntryV>::empty());
    }
}

/// A well-formed run of one table inside a batch: in bounds, nonempty,
/// holding only that table's entries, and maximal on both sides.
pub open spec fn range_in(es: Seq<LogEntryV>, r: EntryRange, table_id: u64) -> bool {
    &&& r.start < r.end <= es.len()
    &&& forall|k: int| r.start <= k < r.end ==> es[k].table_id == table_id
    &&& r.start > 0 ==> es[r.start - 1].table_id != table_id
    &&& r.end < es.len() ==> es[r.end as int].table_id != table_id
}

/// A well-formed table batch: at least one run, every run well formed, and
/// runs ordered and disjoint.
pub open spec fn batch_ranges_wf(es: Seq<LogEntryV>, tb: TableBatchV) -> bool {
    &&& tb.ranges.len() > 0
    &&& forall|q: int| 0 <= q < tb.ranges.len() ==> range_in(es, tb.ranges[q], tb.table_id)
    &&& forall|p: int, q: int|
        0 <= p < q < tb.ranges.len() ==> tb.ranges[p].end <= tb.ranges[q].start
}

/// The splitter's contract: each table of the batch appears in exactly one
/// table batch, whose concatenated runs select exactly that table's
/// entries in the original order. The order of the table batches
/// themselves is not pinned.
pub open spec fn split_ok(es: Seq<LogEntryV>, tbs: Seq<TableBatchV>) -> bool {
    &&& forall|p: int, q: int| 0 <= p < q < tbs.len() ==> tbs[p].table_id != tbs[q].table_id
    &&& forall|b: int| 0 <= b < tbs.len() ==> batch_ranges_wf(es, tbs[b])
    &&& forall|b: int|
        0 <= b < tbs.len() ==> ranges_slice(es, tbs[b].ranges) == crate::wal::entries_of(
            es,
            tbs[b].table_id,
        )
    &&& forall|k: int| 0 <= k < es.len() ==> #[trigger] table_listed(tbs, es[k].table_id)
}

/// First table batch carrying `table_id`, if any.
#[verifier::loop_isolation(false)]
fn find_batch(tbs: &Vec<TableBatch>, table_id: u64) -> (r: Option<usize>)
    ensures
        match r {
            Some(b) => b < tbs@.len() && tbs.deep_view()[b as int].table_id == table_id,
            None => forall|b: int|
                0 <= b < tbs@.len() ==> tbs.deep_view()[b].table_id != table_id,
        },
{
    let mut b: usize = 0;
    while b < tbs.len()
        invariant
            b <= tbs@.len(),
            forall|p: int| 0 <= p < b ==> tbs.deep_view()[p].table_id != table_id,
        decreases tbs@.len() - b,
    {
        if tbs[b].table_id == table_id {
            return Some(b);
        }
        b = b + 1;
    }
    None
}

/// True iff some table batch carries `tid`.
pub open spec fn table_listed(tbs: Seq<TableBatchV>, tid: u64) -> bool {
    exists|b: int| 0 <= b < tbs.len() && #[trigger] tbs[b].table_id == tid
}

/// What the splitter has established once the batch prefix `es[..i]` is
/// consumed: table batches with distinct tables, well-formed runs ending
/// inside the prefix, covering exactly the prefix's entries per table.
pub open spec fn split_prefix_ok(es: Seq<LogEntryV>, tbs: Seq<TableBatchV>, i: int) -> bool {
    &&& forall|p: int, q: int| 0 <= p < q < tbs.len() ==> tbs[p].table_id != tbs[q].table_id
    &&& forall|b: int| 0 <= b < tbs.len() ==> batch_ranges_wf(es, #[trigger] tbs[b])
    &&& forall|b: int, q: int|
        0 <= b < tbs.len() && 0 <= q < tbs[b].ranges.len() ==> #[trigger] tbs[b].ranges[q].end
            <= i
    &&& forall|b: int|
        0 <= b < tbs.len() ==> ranges_slice(es, #[trigger] tbs[b].ranges) == crate::wal::entries_of(
            es.subrange(0, i),
            tbs[b].table_id,
        )
    &&& forall|k: int| 0 <= k < i ==> #[trigger] table_listed(tbs, es[k].table_id)
}

/// Extending a batch's runs with one more well-formed, later run keeps the
/// batch well formed.
proof fn lemma_batch_wf_push(es: Seq<LogEntryV>, tb: TableBatchV, r: EntryRange)
    requires
        batch_ranges_wf(es, tb),
        range_in(es, r, tb.table_id),
        forall|q: int| 0 <= q < tb.ranges.len() ==> #[trigger] tb.ranges[q].end <= r.start,
    ensures
        batch_ranges_wf(es, TableBatchV { table_id: tb.table_id, ranges: tb.ranges.push(r) }),
{
    let tb2 = TableBatchV { table_id: tb.table_id, ranges: tb.ranges.push(r) };
    assert forall|q: int| 0 <= q < tb2.ranges.len() implies range_in(
        es,
        tb2.ranges[q],
        tb2.table_id,
    ) by {
        if q < tb.ranges.len() {
            assert(range_in(es, tb.ranges[q], tb.table_id));
        }
    }
    assert forall|p: int, q: int| 0 <= p < q < tb2.ranges.len() implies tb2.ranges[p].end
        <= tb2.ranges[q].start by {
        if q < tb.ranges.len() {
        } else {
            assert(tb2.ranges[p] == tb.ranges[p]);
        }
    }
}

/// A run of one table adds nothing to the entry streams of the others.
proof fn lemma_coverage_other(es: Seq<LogEntryV>, i: int, j: int, tid: u64, other: u64)
    requires
        0 <= i <= j <= es.len(),
        forall|k: int| i <= k < j ==> es[k].table_id == tid,
        other != tid,
    ensures
        crate::wal::entries_of(es.subrange(0, j), other) == crate::wal::entries_of(
            es.subrange(0, i),
            other,
        ),
{
    let run = es.subrange(i, j);
    assert(es.subrange(0, j) =~= es.subrange(0, i) + run);
    crate::wal::lemma_entries_of_concat(es.subrange(0, i), run, other);
    assert forall|k: int| 0 <= k < run.len() implies run[k].table_id != other by {
        assert(run[k] == es[i + k]);
    }
    lemma_entries_of_none_match(run, other);
    assert(crate::wal::entries_of(es.subrange(0, j), other) =~= crate::wal::entries_of(
        es.subrange(0, i),
        other,
    ));
}

/// A run of one table appends itself, whole, to that table's entry stream.
proof fn lemma_coverage_same(es: Seq<LogEntryV>, i: int, j: int, tid: u64)
    requires
        0 <= i <= j <= es.len(),
        forall|k: int| i <= k < j ==> es[k].table_id == tid,
    ensures
        crate::wal::entries_of(es.subrange(0, j), tid) == crate::wal::entries_of(
            es.subrange(0, i),
            tid,
        ) + es.subrange(i, j),
{
    let run = es.subrange(i, j);
    assert(es.subrange(0, j) =~= es.subrange(0, i) + run);
    crate::wal::lemma_entries_of_concat(es.subrange(0, i), run, tid);
    assert forall|k: int| 0 <= k < run.len() implies run[k].table_id == tid by {
        assert(run[k] == es[i + k]);
    }
    lemma_entries_of_all_match(run, tid);
}

/// Consuming one more run of a table already seen extends that table's
/// batch and nothing else.
#[verifier::rlimit(80)]
proof fn lemma_split_step_update(
    es: Seq<LogEntryV>,
    tbs: Seq<TableBatchV>,
    b: int,
    r: EntryRange,
)
    requires
        split_prefix_ok(es, tbs, r.start as int),
        0 <= b < tbs.len(),
        r.start < r.end <= es.len(),
        forall|k: int| r.start <= k < r.end ==> es[k].table_id == tbs[b].table_id,
        r.start > 0 ==> es[r.start - 1].table_id != tbs[b].table_id,
        r.end < es.len() ==> es[r.end as int].table_id != tbs[b].table_id,
    ensures
        split_prefix_ok(
            es,
            tbs.update(
                b,
                TableBatchV { table_id: tbs[b].table_id, ranges: tbs[b].ranges.push(r) },
            ),
            r.end as int,
        ),
{
    let tid = tbs[b].table_id;
    let i = r.start as int;
    let j = r.end as int;
    let tbs2 = tbs.update(
        b,
        TableBatchV { table_id: tid, ranges: tbs[b].ranges.push(r) },
    );
    assert(range_in(es, r, tid));
    assert(batch_ranges_wf(es, tbs[b]));
    lemma_batch_wf_push(es, tbs[b], r);
    assert forall|b2: int| 0 <= b2 < tbs2.len() implies batch_ranges_wf(
        es,
        #[trigger] tbs2[b2],
    ) by {
        if b2 != b {
            assert(tbs2[b2] == tbs[b2]);
            assert(batch_ranges_wf(es, tbs[b2]));
        }
    }
    assert forall|b2: int| 0 <= b2 < tbs2.len() implies ranges_slice(
        es,
        #[trigger] tbs2[b2].ranges,
    ) == crate::wal::entries_of(es.subrange(0, j), tbs2[b2].table_id) by {
        if b2 == b {
            lemma_ranges_slice_snoc(es, tbs[b].ranges, r);
            lemma_coverage_same(es, i, j, tid);
        } else {
            assert(tbs2[b2] == tbs[b2]);
            assert(ranges_slice(es, tbs[b2].ranges) == crate::wal::entries_of(
                es.subrange(0, i),
                tbs[b2].table_id,
            ));
            lemma_coverage_other(es, i, j, tid, tbs[b2].table_id);
        }
    }
    assert forall|k: int| 0 <= k < j implies #[trigger] table_listed(
        tbs2,
        es[k].table_id,
    ) by {
        if k < i {
            assert(table_listed(tbs, es[k].table_id));
            let b0 = choose|b0: int|
                0 <= b0 < tbs.len() && #[trigger] tbs[b0].table_id == es[k].table_id;
            assert(tbs2[b0].table_id == es[k].table_id);
        } else {
            assert(tbs2[b].table_id == es[k].table_id);
        }
    }
}

/// Consuming the first run of a fresh table opens a new batch for it and
/// touches nothing else.
#[verifier::rlimit(80)]
proof fn lemma_split_step_new(es: Seq<LogEntryV>, tbs: Seq<TableBatchV>, tid: u64, r: EntryRange)
    requires
        split_prefix_ok(es, tbs, r.start as int),
        forall|b: int| 0 <= b < tbs.len() ==> tbs[b].table_id != tid,
        r.start < r.end <= es.len(),
        forall|k: int| r.start <= k < r.end ==> es[k].table_id == tid,
        r.start > 0 ==> es[r.start - 1].table_id != tid,
        r.end < es.len() ==> es[r.end as int].table_id != tid,
    ensures
        split_prefix_ok(
            es,
            tbs.push(TableBatchV { table_id: tid, ranges: seq![r] }),
            r.end as int,
        ),
{
    let i = r.start as int;
    let j = r.end as int;
    let fresh = TableBatchV { table_id: tid, ranges: seq![r] };
    let tbs2 = tbs.push(fresh);
    assert(range_in(es, r, tid));

    // The prefix holds nothing of a table never seen before.
    assert forall|k: int| 0 <= k < i implies es.subrange(0, i)[k].table_id != tid by {
        assert(table_listed(tbs, es[k].table_id));
        let b0 = choose|b0: int|
            0 <= b0 < tbs.len() && #[trigger] tbs[b0].table_id == es[k].table_id;
        assert(tbs[b0].table_id != tid);
        assert(es.subrange(0, i)[k] == es[k]);
    }
    lemma_entries_of_none_match(es.subrange(0, i), tid);
    lemma_coverage_same(es, i, j, tid);
    assert(seq![r].drop_first() =~= Seq::<EntryRange>::empty());
    assert(ranges_slice(es, Seq::<EntryRange>::empty()) == Seq::<LogEntryV>::empty());
    assert(ranges_slice(es, seq![r]) =~= es.subrange(i, j));
    assert(batch_ranges_wf(es, fresh));

    assert forall|b2: int| 0 <= b2 < tbs2.len() implies batch_ranges_wf(
        es,
        #[trigger] tbs2[b2],
    ) by {
        if b2 < tbs.len() {
            assert(tbs2[b2] == tbs[b2]);
            assert(batch_ranges_wf(es, tbs[b2]));
        }
    }
    assert forall|b2: int| 0 <= b2 < tbs2.len() implies ranges_slice(
        es,
        #[trigger] tbs2[b2].ranges,
    ) == crate::wal::entries_of(es.subrange(0, j), tbs2[b2].table_id) by {
        if b2 < tbs.len() {
            assert(tbs2[b2] == tbs[b2]);
            assert(ranges_slice(es, tbs[b2].ranges) == crate::wal::entries_of(
                es.subrange(0, i),
                tbs[b2].table_id,
            ));
            lemma_coverage_other(es, i, j, tid, tbs[b2].table_id);
        } else {
            assert(crate::wal::entries_of(es.subrange(0, j), tid) =~= es.subrange(i, j));
        }
    }
    assert forall|k: int| 0 <= k < j implies #[trigger] table_listed(
        tbs2,
        es[k].table_id,
    ) by {
        if k < i {
            assert(table_listed(tbs, es[k].table_id));
            let b0 = choose|b0: int|
                0 <= b0 < tbs.len() && #[trigger] tbs[b0].table_id == es[k].table_id;
            assert(tbs2[b0].table_id == es[k].table_id);
        } else {
            assert(tbs2[tbs.len() as int].table_id == es[k].table_id);
        }
    }
}

/// Region based wal replay: one scan over the whole shard, with entries
/// split into per-table contiguous runs.
pub struct RegionBasedReplay;

/// A copy of the ranges with one more run at the end.
#[verifier::loop_isolation(false)]
fn copy_push_ranges(ranges: &Vec<EntryRange>, r: EntryRange) -> (out: Vec<EntryRange>)
    ensures
        out@ == ranges@.push(r),
{
    let mut out: Vec<EntryRange> = Vec::new();
    let mut i: usize = 0;
    while i < ranges.len()
        invariant
            i <= ranges@.len(),
            out@ == ranges@.subrange(0, i as int),
        decreases ranges@.len() - i,
    {
        out.push(ranges[i]);
        proof {
            assert(out@ =~= ranges@.subrange(0, i + 1));
        }
        i = i + 1;
    }
    proof {
        assert(ranges@.subrange(0, ranges@.len() as int) =~= ranges@);
    }
    out.push(r);
    out
}

/// Folds one maximal run `start..end` of one table into the table batches
/// built so far: the run extends the table's batch, or opens one.
#[verifier::loop_isolation(false)]
#[verifier::rlimit(100)]
fn consume_run(
    log_batch: &Vec<LogEntry>,
    table_batches: &mut Vec<TableBatch>,
    start: usize,
    end: usize,
)
    requires
        split_prefix_ok(log_batch.deep_view(), old(table_batches).deep_view(), start as int),
        start < end <= log_batch.deep_view().len(),
        forall|k: int|
            start <= k < end ==> log_batch.deep_view()[k].table_id == log_batch.deep_view()[start as int].table_id,
        start > 0 ==> log_batch.deep_view()[start - 1].table_id != log_batch.deep_view()[start as int].table_id,
        end < log_batch.deep_view().len() ==> log_batch.deep_view()[end as int].table_id
            != log_batch.deep_view()[start as int].table_id,
    ensures
        split_prefix_ok(log_batch.deep_view(), final(table_batches).deep_view(), end as int),
{
    let ghost es = log_batch.deep_view();
    let tid = log_batch[start].table_id;
    let r = EntryRange { start, end };
    let ghost old_tbs = table_batches.deep_view();
    match find_batch(table_batches, tid) {
        Some(b) => {
            let ranges2 = copy_push_ranges(&table_batches[b].ranges, r);
            table_batches.set(b, TableBatch { table_id: tid, ranges: ranges2 });
            proof {
                assert(table_batches.deep_view() =~= old_tbs.update(
                    b as int,
                    TableBatchV {
                        table_id: tid,
                        ranges: old_tbs[b as int].ranges.push(r),
                    },
                ));
                lemma_split_step_update(es, old_tbs, b as int, r);
            }
        },
        None => {
            let mut fresh_ranges: Vec<EntryRange> = Vec::new();
            fresh_ranges.push(r);
            proof {
                assert(fresh_ranges@ =~= seq![r]);
            }
            table_batches.push(TableBatch { table_id: tid, ranges: fresh_ranges });
            proof {
                assert(table_batches.deep_view() =~= old_tbs.push(TableBatchV {
                    table_id: tid,
                    ranges: seq![r],
                }));
                lemma_split_step_new(es, old_tbs, tid, r);
            }
        },
    }
}

/// A consumed whole batch means the split is complete.
proof fn lemma_split_prefix_complete(es: Seq<LogEntryV>, tbs: Seq<TableBatchV>)
    requires
        split_prefix_ok(es, tbs, es.len() as int),
    ensures
        split_ok(es, tbs),
{
    assert(es.subrange(0, es.len() as int) =~= es);
    assert forall|b: int| 0 <= b < tbs.len() implies ranges_slice(es, #[trigger] tbs[b].ranges)
        == crate::wal::entries_of(es, tbs[b].table_id) by {
        assert(ranges_slice(es, tbs[b].ranges) == crate::wal::entries_of(
            es.subrange(0, es.len() as int),
            tbs[b].table_id,
        ));
    }
    assert forall|b: int| 0 <= b < tbs.len() implies batch_ranges_wf(es, #[trigger] tbs[b]) by {
    }
    assert forall|k: int| 0 <= k < es.len() implies #[trigger] table_listed(
        tbs,
        es[k].table_id,
    ) by {
        assert(0 <= k < es.len() as int);
    }
}

impl RegionBasedReplay {
    /// Splits a pulled log batch into per-table runs: walking the batch
    /// linearly, a run ends where the table changes, and repeated
    /// appearances of one table accumulate runs in order. The order of the
    /// resulting table batches is not pinned.
    #[verifier::loop_isolation(false)]
    pub fn split_log_batch_by_table(
        log_batch: &Vec<LogEntry>,
        table_batches: &mut Vec<TableBatch>,
    )
        ensures
            split_ok(log_batch.deep_view(), final(table_batches).deep_view()),
    {
        table_batches.clear();
        let ghost es = log_batch.deep_view();
        let n = log_batch.len();
        let mut i: usize = 0;
        while i < n
            invariant
                i <= n,
                i == 0 || i == n || es[i - 1].table_id != es[i as int].table_id,
                split_prefix_ok(es, table_batches.deep_view(), i as int),
            decreases n - i,
        {
            let tid = log_batch[i].table_id;
            let start = i;
            let mut j = i + 1;
            while j < n && log_batch[j].table_id == tid
                invariant
                    start < j <= n,
                    forall|k: int| start <= k < j ==> es[k].table_id == tid,
                decreases n - j,
            {
                j = j + 1;
            }
            consume_run(log_batch, table_batches, start, j);
            i = j;
        }
        proof {
            lemma_split_prefix_complete(es, table_batches.deep_view());
        }
    }
}

/// The failure map a replay pass returns: which tables failed, and why.
/// Entries are keyed by table id; a later record for the same table wins.
pub struct FailedTables {
    entries: Vec<(u64, ReplayError)>,
}

/// The map a record list stands for, later records overwriting earlier
/// ones.
pub open spec fn failed_map_of(entries: Seq<(u64, ReplayError)>) -> Map<u64, ReplayError>
    decreases entries.len(),
{
    if entries.len() == 0 {
        Map::empty()
    } else {
        failed_map_of(entries.drop_last()).insert(entries.last().0, entries.last().1)
    }
}

impl View for FailedTables {
    type V = Map<u64, ReplayError>;

    closed spec fn view(&self) -> Map<u64, ReplayError> {
        failed_map_of(self.entries@)
    }
}

/// A record list's map holds a key iff some record carries it.
proof fn lemma_failed_map_keys(entries: Seq<(u64, ReplayError)>, k: u64)
    ensures
        failed_map_of(entries).contains_key(k) <==> exists|i: int|
            0 <= i < entries.len() && (#[trigger] entries[i]).0 == k,
    decreases entries.len(),
{
    if entries.len() > 0 {
        lemma_failed_map_keys(entries.drop_last(), k);
        if failed_map_of(entries).contains_key(k) {
            if entries.last().0 == k {
                assert((entries[entries.len() - 1]).0 == k);
            } else {
                let i = choose|i: int|
                    0 <= i < entries.drop_last().len() && (#[trigger] entries.drop_last()[i]).0
                        == k;
                assert((entries[i]).0 == k);
            }
        } else {
            assert forall|i: int| 0 <= i < entries.len() implies (#[trigger] entries[i]).0
                != k by {
                if i < entries.len() - 1 {
                    assert(entries.drop_last()[i] == entries[i]);
                }
            }
        }
    }
}

impl FailedTables {
    /// An empty failure map.
    pub fn new() -> (r: FailedTables)
        ensures
            r@ == Map::<u64, ReplayError>::empty(),
    {
        let r = FailedTables { entries: Vec::new() };
        proof {
            assert(r.entries@.len() == 0);
        }
        r
    }

    /// Records a table's failure; an existing record for the table is
    /// superseded.
    pub fn insert(&mut self, table_id: u64, error: ReplayError)
        ensures
            final(self)@ == old(self)@.insert(table_id, error),
    {
        self.entries.push((table_id, error));
        proof {
            assert(self.entries@.drop_last() =~= old(self).entries@);
        }
    }

    /// True iff the table is recorded as failed.
    #[verifier::loop_isolation(false)]
    pub fn contains(&self, table_id: u64) -> (r: bool)
        ensures
            r == self@.contains_key(table_id),
    {
        proof {
            lemma_failed_map_keys(self.entries@, table_id);
        }
        let mut i: usize = 0;
        while i < self.entries.len()
            invariant
                i <= self.entries@.len(),
                forall|j: int| 0 <= j < i ==> (#[trigger] self.entries@[j]).0 != table_id,
            decreases self.entries@.len() - i,
        {
            if self.entries[i].0 == table_id {
                return true;
            }
            i = i + 1;
        }
        false
    }

    /// The recorded failure of a table, if any.
    #[verifier::loop_isolation(false)]
    pub fn get(&self, table_id: u64) -> (r: Option<ReplayError>)
        ensures
            r == if self@.contains_key(table_id) {
                Some(self@[table_id])
            } else {
                None::<ReplayError>
            },
    {
        proof {
            lemma_failed_map_keys(self.entries@, table_id);
            assert(self.entries@.subrange(0, self.entries@.len() as int) =~= self.entries@);
        }
        let mut i: usize = self.entries.len();
        while i > 0
            invariant
                i <= self.entries@.len(),
                self@.contains_key(table_id) <==> failed_map_of(
                    self.entries@.subrange(0, i as int),
                ).contains_key(table_id),
                self@.contains_key(table_id) ==> failed_map_of(
                    self.entries@.subrange(0, i as int),
                )[table_id] == self@[table_id],
            decreases i,
        {
            proof {
                assert(self.entries@.subrange(0, i as int).drop_last() =~= self.entries@
                    .subrange(0, i - 1));
                assert(self.entries@.subrange(0, i as int).last() == self.entries@[i - 1]);
            }
            i = i - 1;
            if self.entries[i].0 == table_id {
                proof {
                    lemma_failed_map_keys(self.entries@, table_id);
                    assert((self.entries@[i as int]).0 == table_id);
                }
                return Some(self.entries[i].1);
            }
        }
        proof {
            assert(self.entries@.subrange(0, 0) =~= Seq::<(u64, ReplayError)>::empty());
        }
        None
    }
}

/// Replay never changes a table's identity, schema, durable bound, limits
/// or thresholds: only the memtable, the observed sequence and the flush
/// bookkeeping move.
pub proof fn lemma_replay_preserves_static(t: TableV, es: Seq<LogEntryV>, max_retry_flush_limit: usize)
    ensures
        ({
            let t2 = replay_entries(t, es, max_retry_flush_limit).0;
            &&& t2.id == t.id
            &&& t2.name == t.name
            &&& t2.schema_version == t.schema_version
            &&& t2.flushed_sequence == t.flushed_sequence
            &&& t2.flush_threshold_rows == t.flush_threshold_rows
            &&& t2.mem.max_key_size == t.mem.max_key_size
            &&& t2.mem.capacity_rows == t.mem.capacity_rows
        }),
    decreases es.len(),
{
    if es.len() > 0 {
        let step = apply_entry(t, es[0], max_retry_flush_limit);
        if step.1 is None {
            lemma_replay_preserves_static(step.0, es.drop_first(), max_retry_flush_limit);
        }
    }
}

/// The WAL read that starts after the table's durable bound feeds replay
/// the same way the full entry stream does: entries at or below the bound
/// are skipped by the apply rules anyway.
pub proof fn lemma_replay_skip_flushed(
    t: TableV,
    es: Seq<LogEntryV>,
    table_id: u64,
    max_retry_flush_limit: usize,
)
    ensures
        replay_entries(
            t,
            crate::wal::entries_of_after(es, table_id, t.flushed_sequence),
            max_retry_flush_limit,
        ) == replay_entries(t, crate::wal::entries_of(es, table_id), max_retry_flush_limit),
    decreases es.len(),
{
    if es.len() > 0 {
        let e = es[0];
        let rest = es.drop_first();
        let fl = t.flushed_sequence;
        if e.table_id == table_id {
            assert(crate::wal::entries_of(es, table_id) =~= seq![e] + crate::wal::entries_of(
                rest,
                table_id,
            ));
            if e.sequence > fl {
                assert(crate::wal::entries_of_after(es, table_id, fl) =~= seq![e]
                    + crate::wal::entries_of_after(rest, table_id, fl));
                lemma_replay_entries_concat(
                    t,
                    seq![e],
                    crate::wal::entries_of(rest, table_id),
                    max_retry_flush_limit,
                );
                lemma_replay_entries_concat(
                    t,
                    seq![e],
                    crate::wal::entries_of_after(rest, table_id, fl),
                    max_retry_flush_limit,
                );
                assert(seq![e].drop_first() =~= Seq::<LogEntryV>::empty());
                assert(seq![e][0] == e);
                let step = apply_entry(t, e, max_retry_flush_limit);
                assert(replay_entries(step.0, Seq::<LogEntryV>::empty(), max_retry_flush_limit)
                    == (step.0, None::<ReplayError>));
                assert(replay_entries(t, seq![e], max_retry_flush_limit) == if step.1 is Some {
                    step
                } else {
                    (step.0, None::<ReplayError>)
                });
                if step.1 is None {
                    assert(step.0.flushed_sequence == fl);
                    lemma_replay_skip_flushed(step.0, rest, table_id, max_retry_flush_limit);
                }
            } else {
                assert(crate::wal::entries_of_after(es, table_id, fl)
                    =~= crate::wal::entries_of_after(rest, table_id, fl));
                lemma_replay_entries_concat(
                    t,
                    seq![e],
                    crate::wal::entries_of(rest, table_id),
                    max_retry_flush_limit,
                );
                assert(seq![e].drop_first() =~= Seq::<LogEntryV>::empty());
                assert(seq![e][0] == e);
                assert(apply_entry(t, e, max_retry_flush_limit) == (t, None::<ReplayError>));
                assert(replay_entries(t, Seq::<LogEntryV>::empty(), max_retry_flush_limit) == (
                    t,
                    None::<ReplayError>,
                ));
                assert(replay_entries(t, seq![e], max_retry_flush_limit) == (
                    t,
                    None::<ReplayError>,
                ));
                lemma_replay_skip_flushed(t, rest, table_id, max_retry_flush_limit);
            }
        } else {
            assert(crate::wal::entries_of(es, table_id) =~= crate::wal::entries_of(
                rest,
                table_id,
            ));
            assert(crate::wal::entries_of_after(es, table_id, fl)
                =~= crate::wal::entries_of_after(rest, table_id, fl));
            lemma_replay_skip_flushed(t, rest, table_id, max_retry_flush_limit);
        }
    }
}

/// What replaying one table against the whole shard log comes to: the fold
/// of the table's own entries, in log order.
pub open spec fn table_outcome(t0: TableV, wal: Seq<LogEntryV>, max_retry_flush_limit: usize) -> (
    TableV,
    Option<ReplayError>,
) {
    replay_entries(t0, crate::wal::entries_of(wal, t0.id), max_retry_flush_limit)
}

/// The contract both replay strategies meet: every table ends in the state
/// its own entries dictate, tables whose fold aborts are recorded in the
/// failure map with exactly that error, and nothing else is recorded.
pub open spec fn replay_run_ok(
    t0s: Seq<TableV>,
    wal: Seq<LogEntryV>,
    max_retry_flush_limit: usize,
    t1s: Seq<TableV>,
    failed: Map<u64, ReplayError>,
) -> bool {
    &&& t1s.len() == t0s.len()
    &&& forall|i: int|
        0 <= i < t0s.len() ==> #[trigger] t1s[i] == table_outcome(
            t0s[i],
            wal,
            max_retry_flush_limit,
        ).0
    &&& forall|i: int|
        0 <= i < t0s.len() ==> match table_outcome(#[trigger] t0s[i], wal, max_retry_flush_limit).1 {
            Some(e) => failed.contains_key(t0s[i].id) && failed[t0s[i].id] == e,
            None => !failed.contains_key(t0s[i].id),
        }
    &&& forall|k: u64|
        #[trigger] failed.contains_key(k) ==> exists|i: int|
            0 <= i < t0s.len() && (#[trigger] t0s[i].id) == k
}

/// Pairwise distinct table identities.
pub open spec fn distinct_table_ids(t0s: Seq<TableV>) -> bool {
    forall|p: int, q: int| 0 <= p < q < t0s.len() ==> t0s[p].id != t0s[q].id
}

/// Table based wal replay: every table reads its own slice of the log,
/// starting after its durable bound.
pub struct TableBasedReplay;

impl TableBasedReplay {
    /// Recovers one table: reads the table's entries with sequence past
    /// its flushed bound, batch by batch, and applies each batch under the
    /// table's serial executor.
    #[verifier::loop_isolation(false)]
    fn recover_table_logs(
        context: &ReplayContext,
        table: &mut TableState,
        wal: &crate::wal::Wal,
    ) -> (r: Result<(), ReplayError>)
        requires
            context.wal_replay_batch_size >= 1,
        ensures
            ({
                let run = replay_entries(
                    old(table)@,
                    crate::wal::entries_of_after(
                        wal@,
                        old(table)@.id,
                        old(table)@.flushed_sequence,
                    ),
                    context.max_retry_flush_limit,
                );
                &&& final(table)@ == run.0
                &&& match r {
                    Ok(()) => run.1 is None,
                    Err(e) => run.1 == Some(e),
                }
            }),
    {
        let ghost t0 = table@;
        let table_id = table.id;
        let flushed = table.flushed_sequence;
        let mut pos: usize = 0;
        loop
            invariant
                pos <= wal@.len(),
                table@.id == table_id,
                table@.flushed_sequence == flushed,
                replay_entries(
                    t0,
                    crate::wal::entries_of_after(
                        wal@.subrange(0, pos as int),
                        table_id,
                        flushed,
                    ),
                    context.max_retry_flush_limit,
                ) == (table@, None::<ReplayError>),
            decreases wal@.len() - pos,
        {
            let ghost done = crate::wal::entries_of_after(
                wal@.subrange(0, pos as int),
                table_id,
                flushed,
            );
            let (batch, new_pos) = crate::wal::read_table_batch(
                wal,
                table_id,
                flushed,
                pos,
                context.wal_replay_batch_size,
            );
            proof {
                assert(wal@.subrange(0, new_pos as int) =~= wal@.subrange(0, pos as int)
                    + wal@.subrange(pos as int, new_pos as int));
                crate::wal::lemma_entries_of_after_concat(
                    wal@.subrange(0, pos as int),
                    wal@.subrange(pos as int, new_pos as int),
                    table_id,
                    flushed,
                );
            }
            if batch.len() == 0 {
                proof {
                    assert(batch.deep_view() =~= Seq::<LogEntryV>::empty());
                    assert(new_pos == wal@.len());
                    assert(wal@.subrange(0, new_pos as int) =~= wal@);
                    assert(crate::wal::entries_of_after(wal@, table_id, flushed) =~= done);
                }
                return Ok(());
            }
            let applied = replay_table_log_entries(
                context.max_retry_flush_limit,
                table,
                &batch,
                0,
                batch.len(),
            );
            proof {
                assert(batch.deep_view().subrange(0, batch@.len() as int) =~= batch
                    .deep_view());
                lemma_replay_entries_concat(
                    t0,
                    done,
                    batch.deep_view(),
                    context.max_retry_flush_limit,
                );
            }
            if let Err(e) = applied {
                proof {
                    assert(wal@ =~= wal@.subrange(0, new_pos as int) + wal@.subrange(
                        new_pos as int,
                        wal@.len() as int,
                    ));
                    crate::wal::lemma_entries_of_after_concat(
                        wal@.subrange(0, new_pos as int),
                        wal@.subrange(new_pos as int, wal@.len() as int),
                        table_id,
                        flushed,
                    );
                    lemma_replay_entries_error_absorbs(
                        t0,
                        crate::wal::entries_of_after(
                            wal@.subrange(0, new_pos as int),
                            table_id,
                            flushed,
                        ),
                        crate::wal::entries_of_after(
                            wal@.subrange(new_pos as int, wal@.len() as int),
                            table_id,
                            flushed,
                        ),
                        context.max_retry_flush_limit,
                    );
                }
                return Err(e);
            }
            pos = new_pos;
            proof {
                lemma_replay_preserves_static(t0, crate::wal::entries_of_after(
                    wal@.subrange(0, pos as int),
                    table_id,
                    flushed,
                ), context.max_retry_flush_limit);
            }
        }
    }
}

impl TableBasedReplay {
    /// Restores every table independently: each table reads its own WAL
    /// slice. A failure of one table never cancels another; failures are
    /// collected per table, and the failure map is the only failure
    /// channel (a shard-wide failure would come from the physical log
    /// device, which stands outside this model). In the running engine up
    /// to twenty recoveries are in flight at once; the outcome per table
    /// is that of this sequential loop.
    #[verifier::loop_isolation(false)]
    #[verifier::rlimit(60)]
    pub fn run(context: &ReplayContext, tables: Vec<TableState>, wal: &crate::wal::Wal) -> (r: (
        Vec<TableState>,
        FailedTables,
    ))
        requires
            context.wal_replay_batch_size >= 1,
            distinct_table_ids(tables.deep_view()),
        ensures
            replay_run_ok(
                tables.deep_view(),
                wal@,
                context.max_retry_flush_limit,
                r.0.deep_view(),
                r.1@,
            ),
    {
        let ghost t0s = tables.deep_view();
        let ghost mr = context.max_retry_flush_limit;
        let mut remaining = tables;
        let mut out: Vec<TableState> = Vec::new();
        let mut failed = FailedTables::new();
        while remaining.len() > 0
            invariant
                out@.len() + remaining@.len() == t0s.len(),
                remaining.deep_view() == t0s.subrange(out@.len() as int, t0s.len() as int),
                forall|i: int|
                    0 <= i < out@.len() ==> #[trigger] out.deep_view()[i] == table_outcome(
                        t0s[i],
                        wal@,
                        mr,
                    ).0,
                forall|i: int|
                    0 <= i < out@.len() ==> match table_outcome(
                        #[trigger] t0s[i],
                        wal@,
                        mr,
                    ).1 {
                        Some(e) => failed@.contains_key(t0s[i].id) && failed@[t0s[i].id] == e,
                        None => !failed@.contains_key(t0s[i].id),
                    },
                forall|k: u64|
                    #[trigger] failed@.contains_key(k) ==> exists|i: int|
                        0 <= i < out@.len() && (#[trigger] t0s[i].id) == k,
            decreases remaining@.len(),
        {
            let ghost idx = out@.len() as int;
            let ghost old_failed = failed@;
            let ghost rem0 = remaining.deep_view();
            let ghost rem0s = remaining@;
            let mut t = remaining.remove(0);
            proof {
                assert(rem0 == t0s.subrange(idx, t0s.len() as int));
                assert(t@ == rem0[0]);
                assert(t@ == t0s[idx]);
                assert forall|j: int| 0 <= j < remaining@.len() implies remaining.deep_view()[j]
                    == t0s.subrange(idx + 1, t0s.len() as int)[j] by {
                    assert(remaining@[j] == rem0s[j + 1]);
                    assert(rem0[j + 1] == t0s[idx + 1 + j]);
                }
                assert(remaining.deep_view() =~= t0s.subrange(idx + 1, t0s.len() as int));
                lemma_replay_skip_flushed(t0s[idx], wal@, t0s[idx].id, mr);
                lemma_replay_preserves_static(
                    t0s[idx],
                    crate::wal::entries_of(wal@, t0s[idx].id),
                    mr,
                );
            }
            let rr = Self::recover_table_logs(context, &mut t, wal);
            match rr {
                Ok(()) => {},
                Err(e) => {
                    failed.insert(t.id, e);
                },
            }
            let ghost out0 = out.deep_view();
            let ghost out0s = out@;
            out.push(t);
            proof {
                assert forall|j: int| 0 <= j < out@.len() implies out.deep_view()[j] == out0
                    .push(t@)[j] by {
                    if j < idx {
                        assert(out@[j] == out0s[j]);
                    }
                }
                assert(out.deep_view() =~= out0.push(t@));
                assert forall|i: int|
                    0 <= i < out@.len() implies match table_outcome(
                    #[trigger] t0s[i],
                    wal@,
                    mr,
                ).1 {
                    Some(e) => failed@.contains_key(t0s[i].id) && failed@[t0s[i].id] == e,
                    None => !failed@.contains_key(t0s[i].id),
                } by {
                    if i < idx {
                        assert(t0s[i].id != t0s[idx].id);
                    }
                }
            }
        }
        (out, failed)
    }
}

/// Slicing by a range list split in two is slicing by each part.
pub proof fn lemma_ranges_slice_concat(es: Seq<LogEntryV>, a: Seq<EntryRange>, b: Seq<EntryRange>)
    ensures
        ranges_slice(es, a + b) == ranges_slice(es, a) + ranges_slice(es, b),
    decreases a.len(),
{
    if a.len() == 0 {
        assert(a + b =~= b);
        assert(ranges_slice(es, a) + ranges_slice(es, b) =~= ranges_slice(es, b));
    } else {
        assert((a + b)[0] == a[0]);
        assert((a + b).drop_first() =~= a.drop_first() + b);
        lemma_ranges_slice_concat(es, a.drop_first(), b);
        assert(ranges_slice(es, a + b) =~= ranges_slice(es, a) + ranges_slice(es, b));
    }
}

/// True iff one of the first `q` table batches carries `tid`.
pub open spec fn listed_in_prefix(tbs: Seq<TableBatchV>, q: int, tid: u64) -> bool {
    exists|b: int| 0 <= b < q && b < tbs.len() && #[trigger] tbs[b].table_id == tid
}

/// What one batch pass owes each table: a table already recorded as failed
/// is left alone; any other ends where the fold of its slice of the batch
/// ends, recorded as failed exactly if that fold aborts.
pub open spec fn batch_step_ok(
    t0: TableV,
    batch: Seq<LogEntryV>,
    max_retry_flush_limit: usize,
    failed0: Map<u64, ReplayError>,
    t1: TableV,
    failed1: Map<u64, ReplayError>,
) -> bool {
    if failed0.contains_key(t0.id) {
        t1 == t0
    } else {
        let r = replay_entries(t0, crate::wal::entries_of(batch, t0.id), max_retry_flush_limit);
        &&& t1 == r.0
        &&& match r.1 {
            Some(e) => failed1.contains_key(t0.id) && failed1[t0.id] == e,
            None => !failed1.contains_key(t0.id),
        }
    }
}

/// First table state carrying `table_id`, if any.
#[verifier::loop_isolation(false)]
fn find_state(states: &Vec<TableState>, table_id: u64) -> (r: Option<usize>)
    ensures
        match r {
            Some(i) => i < states@.len() && states.deep_view()[i as int].id == table_id,
            None => forall|i: int|
                0 <= i < states@.len() ==> states.deep_view()[i].id != table_id,
        },
{
    let mut i: usize = 0;
    while i < states.len()
        invariant
            i <= states@.len(),
            forall|p: int| 0 <= p < i ==> states.deep_view()[p].id != table_id,
        decreases states@.len() - i,
    {
        if states[i].id == table_id {
            return Some(i);
        }
        i = i + 1;
    }
    None
}

/// Replays the runs of one table batch into the table, in order, stopping
/// at the first error.
#[verifier::loop_isolation(false)]
fn replay_table_ranges(
    max_retry_flush_limit: usize,
    table: &mut TableState,
    log_batch: &Vec<LogEntry>,
    ranges: &Vec<EntryRange>,
) -> (r: Result<(), ReplayError>)
    requires
        forall|q: int|
            0 <= q < ranges@.len() ==> (#[trigger] ranges@[q]).start <= ranges@[q].end
                <= log_batch@.len(),
    ensures
        ({
            let run = replay_entries(
                old(table)@,
                ranges_slice(log_batch.deep_view(), ranges@),
                max_retry_flush_limit,
            );
            &&& final(table)@ == run.0
            &&& match r {
                Ok(()) => run.1 is None,
                Err(e) => run.1 == Some(e),
            }
        }),
{
    let ghost t0 = table@;
    let ghost es = log_batch.deep_view();
    let mut q: usize = 0;
    while q < ranges.len()
        invariant
            q <= ranges@.len(),
            replay_entries(
                t0,
                ranges_slice(es, ranges@.subrange(0, q as int)),
                max_retry_flush_limit,
            ) == (table@, None::<ReplayError>),
        decreases ranges@.len() - q,
    {
        let ghost done = ranges@.subrange(0, q as int);
        let rq = ranges[q];
        proof {
            assert(ranges@.subrange(0, q + 1) =~= done.push(ranges@[q as int]));
            lemma_ranges_slice_snoc(es, done, ranges@[q as int]);
            lemma_replay_entries_concat(
                t0,
                ranges_slice(es, done),
                es.subrange(rq.start as int, rq.end as int),
                max_retry_flush_limit,
            );
        }
        let applied = replay_table_log_entries(
            max_retry_flush_limit,
            table,
            log_batch,
            rq.start,
            rq.end,
        );
        if let Err(e) = applied {
            proof {
                assert(ranges@ =~= ranges@.subrange(0, q + 1) + ranges@.subrange(
                    q + 1,
                    ranges@.len() as int,
                ));
                lemma_ranges_slice_concat(
                    es,
                    ranges@.subrange(0, q + 1),
                    ranges@.subrange(q + 1, ranges@.len() as int),
                );
                lemma_replay_entries_error_absorbs(
                    t0,
                    ranges_slice(es, ranges@.subrange(0, q + 1)),
                    ranges_slice(es, ranges@.subrange(q + 1, ranges@.len() as int)),
                    max_retry_flush_limit,
                );
            }
            return Err(e);
        }
        q = q + 1;
    }
    proof {
        assert(ranges@.subrange(0, ranges@.len() as int) =~= ranges@);
    }
    Ok(())
}

/// What the batch pass has established after the first `q` table batches:
/// tables of a consumed batch carry their outcome, the rest stand
/// untouched with their failure record unchanged.
pub open spec fn single_batch_inv(
    t0sb: Seq<TableV>,
    batchv: Seq<LogEntryV>,
    max_retry_flush_limit: usize,
    failed0: Map<u64, ReplayError>,
    tbsv: Seq<TableBatchV>,
    q: int,
    states_v: Seq<TableV>,
    failed_v: Map<u64, ReplayError>,
) -> bool {
    forall|i: int|
        0 <= i < t0sb.len() ==> if listed_in_prefix(tbsv, q, t0sb[i].id) {
            batch_step_ok(
                t0sb[i],
                batchv,
                max_retry_flush_limit,
                failed0,
                #[trigger] states_v[i],
                failed_v,
            )
        } else {
            states_v[i] == t0sb[i] && (failed_v.contains_key(t0sb[i].id)
                <==> failed0.contains_key(t0sb[i].id))
        }
}

/// One pass of region based replay over one pulled batch: split by table,
/// then replay each table's runs, skipping tables already failed.
#[verifier::loop_isolation(false)]
#[verifier::rlimit(100)]
fn replay_single_batch(
    context: &ReplayContext,
    log_batch: &Vec<LogEntry>,
    states: &mut Vec<TableState>,
    failed: &mut FailedTables,
)
    requires
        distinct_table_ids(old(states).deep_view()),
    ensures
        final(states)@.len() == old(states)@.len(),
        forall|i: int|
            0 <= i < old(states)@.len() ==> batch_step_ok(
                old(states).deep_view()[i],
                log_batch.deep_view(),
                context.max_retry_flush_limit,
                old(failed)@,
                #[trigger] final(states).deep_view()[i],
                final(failed)@,
            ),
        forall|i: int|
            0 <= i < old(states)@.len() ==> #[trigger] final(states).deep_view()[i].id == old(
                states,
            ).deep_view()[i].id,
        forall|k: u64|
            #[trigger] final(failed)@.contains_key(k) ==> old(failed)@.contains_key(k)
                || exists|i: int|
                0 <= i < old(states)@.len() && #[trigger] old(states).deep_view()[i].id == k,
        forall|k: u64|
            #[trigger] old(failed)@.contains_key(k) ==> final(failed)@.contains_key(k)
                && final(failed)@[k] == old(failed)@[k],
{
    let ghost t0sb = states.deep_view();
    let ghost failed0 = failed@;
    let ghost batchv = log_batch.deep_view();
    let ghost mr = context.max_retry_flush_limit;
    let ghost n = t0sb.len();

    let mut table_batches: Vec<TableBatch> = Vec::new();
    RegionBasedReplay::split_log_batch_by_table(log_batch, &mut table_batches);
    let ghost tbsv = table_batches.deep_view();

    let mut q: usize = 0;
    while q < table_batches.len()
        invariant
            q <= tbsv.len(),
            table_batches.deep_view() == tbsv,
            states@.len() == n,
            forall|i: int|
                0 <= i < n ==> #[trigger] states.deep_view()[i].id == t0sb[i].id,
            single_batch_inv(
                t0sb,
                batchv,
                mr,
                failed0,
                tbsv,
                q as int,
                states.deep_view(),
                failed@,
            ),
            forall|k: u64|
                #[trigger] failed@.contains_key(k) ==> failed0.contains_key(k) || exists|i: int|
                    0 <= i < n && #[trigger] t0sb[i].id == k,
            forall|k: u64|
                #[trigger] failed0.contains_key(k) ==> failed@.contains_key(k) && failed@[k]
                    == failed0[k],
        decreases tbsv.len() - q,
    {
        let tb_tid = table_batches[q].table_id;
        proof {
            assert(tbsv[q as int].table_id == tb_tid);
            // The splitter lists each table once, so this table is fresh.
            assert(!listed_in_prefix(tbsv, q as int, tb_tid)) by {
                if listed_in_prefix(tbsv, q as int, tb_tid) {
                    let b = choose|b: int|
                        0 <= b < q && b < tbsv.len() && #[trigger] tbsv[b].table_id == tb_tid;
                    assert(tbsv[b].table_id != tbsv[q as int].table_id);
                }
            }
        }
        let ghost failed_pre = failed@;
        let ghost states_pre = states.deep_view();
        let skip = failed.contains(tb_tid);
        if skip {
            proof {
                assert forall|i: int| 0 <= i < n implies if listed_in_prefix(
                    tbsv,
                    (q + 1) as int,
                    t0sb[i].id,
                ) {
                    batch_step_ok(
                        t0sb[i],
                        batchv,
                        mr,
                        failed0,
                        #[trigger] states.deep_view()[i],
                        failed@,
                    )
                } else {
                    states.deep_view()[i] == t0sb[i] && (failed@.contains_key(t0sb[i].id)
                        <==> failed0.contains_key(t0sb[i].id))
                } by {
                    if listed_in_prefix(tbsv, q + 1, t0sb[i].id) {
                        if t0sb[i].id == tb_tid {
                            assert(!listed_in_prefix(tbsv, q as int, t0sb[i].id));
                            assert(states.deep_view()[i] == t0sb[i]);
                            assert(failed@.contains_key(t0sb[i].id) <==> failed0.contains_key(
                                t0sb[i].id,
                            ));
                            assert(failed@.contains_key(tb_tid));
                            assert(failed0.contains_key(tb_tid));
                            assert(batch_step_ok(
                                t0sb[i],
                                batchv,
                                mr,
                                failed0,
                                states.deep_view()[i],
                                failed@,
                            ));
                        } else {
                            let b = choose|b: int|
                                0 <= b < q + 1 && b < tbsv.len() && #[trigger] tbsv[b].table_id
                                    == t0sb[i].id;
                            assert(b < q);
                            assert(listed_in_prefix(tbsv, q as int, t0sb[i].id));
                        }
                    } else {
                        assert(!listed_in_prefix(tbsv, q as int, t0sb[i].id));
                    }
                }
                assert(single_batch_inv(
                    t0sb,
                    batchv,
                    mr,
                    failed0,
                    tbsv,
                    (q + 1) as int,
                    states.deep_view(),
                    failed@,
                ));
            }
        } else {
            let found = find_state(states, tb_tid);
            match found {
                Some(si) => {
                    proof {
                        assert(states.deep_view()[si as int].id == t0sb[si as int].id);
                        // This table was not touched yet in this pass.
                        assert(states.deep_view()[si as int] == t0sb[si as int]);
                        assert forall|qr: int|
                            0 <= qr < tbsv[q as int].ranges.len() implies (
                        #[trigger] tbsv[q as int].ranges[qr]).start <= tbsv[q as int].ranges[qr].end
                            <= batchv.len() by {
                            assert(batch_ranges_wf(batchv, tbsv[q as int]));
                            assert(range_in(batchv, tbsv[q as int].ranges[qr], tb_tid));
                        }
                    }
                    let ghost sts = states@;
                    let mut t = states.remove(si);
                    let rr = replay_table_ranges(
                        context.max_retry_flush_limit,
                        &mut t,
                        log_batch,
                        &table_batches[q].ranges,
                    );
                    proof {
                        // The batch's runs for this table select exactly its entries.
                        assert(ranges_slice(batchv, tbsv[q as int].ranges)
                            == crate::wal::entries_of(batchv, tb_tid));
                        lemma_replay_preserves_static(
                            t0sb[si as int],
                            crate::wal::entries_of(batchv, tb_tid),
                            mr,
                        );
                    }
                    states.insert(si, t);
                    proof {
                        assert forall|j: int| 0 <= j < n implies states.deep_view()[j] == if j
                            == si as int {
                            t@
                        } else {
                            states_pre[j]
                        } by {
                            if j < si as int {
                                assert(states@[j] == sts[j]);
                            } else if j > si as int {
                                assert(states@[j] == sts[j]);
                            }
                        }
                    }
                    if let Err(e) = rr {
                        failed.insert(tb_tid, e);
                    }
                    proof {
                        assert forall|i: int| 0 <= i < n implies if listed_in_prefix(
                            tbsv,
                            q + 1,
                            t0sb[i].id,
                        ) {
                            batch_step_ok(
                                t0sb[i],
                                batchv,
                                mr,
                                failed0,
                                #[trigger] states.deep_view()[i],
                                failed@,
                            )
                        } else {
                            states.deep_view()[i] == t0sb[i] && (failed@.contains_key(
                                t0sb[i].id,
                            ) <==> failed0.contains_key(t0sb[i].id))
                        } by {
                            if i == si as int {
                                assert(!failed0.contains_key(tb_tid));
                                assert(listed_in_prefix(tbsv, q + 1, t0sb[i].id)) by {
                                    assert(tbsv[q as int].table_id == t0sb[i].id);
                                }
                            } else {
                                assert(t0sb[i].id != tb_tid);
                                assert(states.deep_view()[i] == states_pre[i]);
                                if listed_in_prefix(tbsv, q + 1, t0sb[i].id) {
                                    let b = choose|b: int|
                                        0 <= b < q + 1 && b < tbsv.len()
                                            && #[trigger] tbsv[b].table_id == t0sb[i].id;
                                    assert(b < q);
                                    assert(listed_in_prefix(tbsv, q as int, t0sb[i].id));
                                } else {
                                    assert(!listed_in_prefix(tbsv, q as int, t0sb[i].id));
                                }
                            }
                        }
                        assert(single_batch_inv(
                            t0sb,
                            batchv,
                            mr,
                            failed0,
                            tbsv,
                            (q + 1) as int,
                            states.deep_view(),
                            failed@,
                        ));
                    }
                },
                None => {
                    proof {
                        assert forall|i: int| 0 <= i < n implies if listed_in_prefix(
                            tbsv,
                            q + 1,
                            t0sb[i].id,
                        ) {
                            batch_step_ok(
                                t0sb[i],
                                batchv,
                                mr,
                                failed0,
                                #[trigger] states.deep_view()[i],
                                failed@,
                            )
                        } else {
                            states.deep_view()[i] == t0sb[i] && (failed@.contains_key(
                                t0sb[i].id,
                            ) <==> failed0.contains_key(t0sb[i].id))
                        } by {
                            assert(states.deep_view()[i].id != tb_tid);
                            assert(t0sb[i].id != tb_tid);
                            if listed_in_prefix(tbsv, q + 1, t0sb[i].id) {
                                let b = choose|b: int|
                                    0 <= b < q + 1 && b < tbsv.len() && #[trigger] tbsv[b].table_id
                                        == t0sb[i].id;
                                assert(b < q);
                                assert(listed_in_prefix(tbsv, q as int, t0sb[i].id));
                            } else {
                                assert(!listed_in_prefix(tbsv, q as int, t0sb[i].id));
                            }
                        }
                        assert(single_batch_inv(
                            t0sb,
                            batchv,
                            mr,
                            failed0,
                            tbsv,
                            (q + 1) as int,
                            states.deep_view(),
                            failed@,
                        ));
                    }
                },
            }
        }
        q = q + 1;
    }
    proof {
        // Tables of no batch saw no entries: their fold is a no-op.
        assert forall|i: int| 0 <= i < n implies batch_step_ok(
            t0sb[i],
            batchv,
            mr,
            failed0,
            #[trigger] states.deep_view()[i],
            failed@,
        ) by {
            if !listed_in_prefix(tbsv, tbsv.len() as int, t0sb[i].id) {
                assert forall|k: int| 0 <= k < batchv.len() implies batchv[k].table_id
                    != t0sb[i].id by {
                    assert(table_listed(tbsv, batchv[k].table_id));
                    let b = choose|b: int|
                        0 <= b < tbsv.len() && #[trigger] tbsv[b].table_id == batchv[k].table_id;
                    assert(b < tbsv.len() as int);
                }
                lemma_entries_of_none_match(batchv, t0sb[i].id);
                if !failed0.contains_key(t0sb[i].id) {
                    assert(replay_entries(
                        t0sb[i],
                        crate::wal::entries_of(batchv, t0sb[i].id),
                        mr,
                    ) == (t0sb[i], None::<ReplayError>));
                }
            }
        }
    }
}

impl RegionBasedReplay {
    /// Restores a shard with one scan over its whole log: pull a batch,
    /// split it by table, replay each table's runs; tables that failed
    /// once are skipped, not retried, in later batches. The failure map
    /// is the only failure channel, as in the table based strategy. In
    /// the running engine up to twenty per-table applies are in flight at
    /// once; the outcome per table is that of this sequential loop.
    #[verifier::loop_isolation(false)]
    #[verifier::rlimit(100)]
    pub fn run(context: &ReplayContext, tables: Vec<TableState>, wal: &crate::wal::Wal) -> (r: (
        Vec<TableState>,
        FailedTables,
    ))
        requires
            context.wal_replay_batch_size >= 1,
            distinct_table_ids(tables.deep_view()),
        ensures
            replay_run_ok(
                tables.deep_view(),
                wal@,
                context.max_retry_flush_limit,
                r.0.deep_view(),
                r.1@,
            ),
    {
        let ghost t0s = tables.deep_view();
        let ghost mr = context.max_retry_flush_limit;
        let ghost n = t0s.len();

        // Eagerly take every table's serial executor: owning the states
        // for the whole replay is that lock hold.
        let mut ids: Vec<u64> = Vec::new();
        let mut i: usize = 0;
        while i < tables.len()
            invariant
                i <= n,
                ids@.len() == i,
                forall|j: int| 0 <= j < i ==> ids@[j] == t0s[j].id,
            decreases n - i,
        {
            ids.push(tables[i].id);
            i = i + 1;
        }

        let mut states = tables;
        let mut failed = FailedTables::new();
        let mut pos: usize = 0;
        loop
            invariant
                pos <= wal@.len(),
                states@.len() == n,
                forall|j: int| 0 <= j < n ==> #[trigger] states.deep_view()[j].id == t0s[j].id,
                forall|j: int|
                    0 <= j < n ==> ({
                        let run = replay_entries(
                            t0s[j],
                            crate::wal::entries_of(wal@.subrange(0, pos as int), t0s[j].id),
                            mr,
                        );
                        &&& #[trigger] states.deep_view()[j] == run.0
                        &&& match run.1 {
                            Some(e) => failed@.contains_key(t0s[j].id) && failed@[t0s[j].id]
                                == e,
                            None => !failed@.contains_key(t0s[j].id),
                        }
                    }),
                forall|k: u64|
                    #[trigger] failed@.contains_key(k) ==> exists|j: int|
                        0 <= j < n && #[trigger] t0s[j].id == k,
            decreases wal@.len() - pos,
        {
            let ghost prefix = wal@.subrange(0, pos as int);
            let (batch, new_pos) = crate::wal::read_region_batch(
                wal,
                &ids,
                pos,
                context.wal_replay_batch_size,
            );
            let ghost window = wal@.subrange(pos as int, new_pos as int);
            proof {
                assert(wal@.subrange(0, new_pos as int) =~= prefix + window);
            }
            if batch.len() == 0 {
                proof {
                    assert(new_pos == wal@.len());
                    assert(wal@.subrange(0, new_pos as int) =~= wal@);
                    assert forall|j: int| 0 <= j < n implies crate::wal::entries_of(
                        wal@,
                        t0s[j].id,
                    ) == crate::wal::entries_of(prefix, t0s[j].id) by {
                        assert(ids@.contains(t0s[j].id)) by {
                            assert(ids@[j] == t0s[j].id);
                        }
                        crate::wal::lemma_entries_of_tables_project(window, ids@, t0s[j].id);
                        assert(crate::wal::entries_of_tables(window, ids@)
                            =~= Seq::<LogEntryV>::empty());
                        assert(crate::wal::entries_of(
                            Seq::<LogEntryV>::empty(),
                            t0s[j].id,
                        ) =~= Seq::<LogEntryV>::empty());
                        crate::wal::lemma_entries_of_concat(prefix, window, t0s[j].id);
                        assert(crate::wal::entries_of(wal@, t0s[j].id)
                            =~= crate::wal::entries_of(prefix, t0s[j].id));
                    }
                    assert forall|j: int| 0 <= j < n implies #[trigger] states.deep_view()[j]
                        == table_outcome(t0s[j], wal@, mr).0 by {
                        assert(crate::wal::entries_of(wal@, t0s[j].id)
                            == crate::wal::entries_of(prefix, t0s[j].id));
                        assert(states.deep_view()[j] == replay_entries(
                            t0s[j],
                            crate::wal::entries_of(prefix, t0s[j].id),
                            mr,
                        ).0);
                    }
                    assert forall|j: int| 0 <= j < n implies match table_outcome(
                        #[trigger] t0s[j],
                        wal@,
                        mr,
                    ).1 {
                        Some(e) => failed@.contains_key(t0s[j].id) && failed@[t0s[j].id] == e,
                        None => !failed@.contains_key(t0s[j].id),
                    } by {
                        assert(crate::wal::entries_of(wal@, t0s[j].id)
                            == crate::wal::entries_of(prefix, t0s[j].id));
                        assert(states.deep_view()[j] == replay_entries(
                            t0s[j],
                            crate::wal::entries_of(prefix, t0s[j].id),
                            mr,
                        ).0);
                    }
                    assert(replay_run_ok(t0s, wal@, mr, states.deep_view(), failed@));
                }
                return (states, failed);
            }
            let ghost states_pre = states.deep_view();
            let ghost failed_pre = failed@;
            proof {
                assert(distinct_table_ids(states.deep_view()));
            }
            replay_single_batch(context, &batch, &mut states, &mut failed);
            proof {
                assert forall|j: int| 0 <= j < n implies ({
                    let run = replay_entries(
                        t0s[j],
                        crate::wal::entries_of(
                            wal@.subrange(0, new_pos as int),
                            t0s[j].id,
                        ),
                        mr,
                    );
                    &&& #[trigger] states.deep_view()[j] == run.0
                    &&& match run.1 {
                        Some(e) => failed@.contains_key(t0s[j].id) && failed@[t0s[j].id] == e,
                        None => !failed@.contains_key(t0s[j].id),
                    }
                }) by {
                    let tid = t0s[j].id;
                    assert(ids@.contains(tid)) by {
                        assert(ids@[j] == tid);
                    }
                    crate::wal::lemma_entries_of_tables_project(window, ids@, tid);
                    crate::wal::lemma_entries_of_concat(prefix, window, tid);
                    assert(crate::wal::entries_of(wal@.subrange(0, new_pos as int), tid)
                        =~= crate::wal::entries_of(prefix, tid) + crate::wal::entries_of(
                        window,
                        tid,
                    ));
                    let run_old = replay_entries(
                        t0s[j],
                        crate::wal::entries_of(prefix, tid),
                        mr,
                    );
                    assert(states_pre[j] == run_old.0);
                    assert(batch_step_ok(
                        states_pre[j],
                        batch.deep_view(),
                        mr,
                        failed_pre,
                        states.deep_view()[j],
                        failed@,
                    ));
                    assert(states_pre[j].id == tid) by {
                        lemma_replay_preserves_static(
                            t0s[j],
                            crate::wal::entries_of(prefix, tid),
                            mr,
                        );
                    }
                    assert(crate::wal::entries_of(batch.deep_view(), tid)
                        == crate::wal::entries_of(window, tid));
                    if run_old.1 is Some {
                        assert(failed_pre.contains_key(tid));
                        lemma_replay_entries_error_absorbs(
                            t0s[j],
                            crate::wal::entries_of(prefix, tid),
                            crate::wal::entries_of(window, tid),
                            mr,
                        );
                        assert(states.deep_view()[j] == states_pre[j]);
                        assert(failed@.contains_key(tid) && failed@[tid] == failed_pre[tid]);
                    } else {
                        assert(!failed_pre.contains_key(tid));
                        lemma_replay_entries_concat(
                            t0s[j],
                            crate::wal::entries_of(prefix, tid),
                            crate::wal::entries_of(window, tid),
                            mr,
                        );
                    }
                }
                assert forall|j: int| 0 <= j < n implies #[trigger] states.deep_view()[j].id
                    == t0s[j].id by {
                    assert(states.deep_view()[j].id == states_pre[j].id);
                }
                assert forall|k: u64| #[trigger] failed@.contains_key(k) implies exists|j: int|
                    0 <= j < n && #[trigger] t0s[j].id == k by {
                    if !failed_pre.contains_key(k) {
                        let i = choose|i: int|
                            0 <= i < n && #[trigger] states_pre[i].id == k;
                        assert(t0s[i].id == k);
                    }
                }
            }
            pos = new_pos;
        }
    }
}

/// Wal replayer supporting both table based and region based strategies,
/// dispatched statically on the mode.
pub struct WalReplayer {
    pub context: ReplayContext,
    pub mode: ReplayMode,
    pub tables: Vec<TableState>,
}

impl WalReplayer {
    /// Builds a replayer over the tables of one shard.
    pub fn new(
        table_datas: Vec<TableState>,
        shard_id: u32,
        wal_replay_batch_size: usize,
        max_retry_flush_limit: usize,
        replay_mode: ReplayMode,
    ) -> (r: WalReplayer)
        ensures
            r.tables.deep_view() == table_datas.deep_view(),
            r.context == (ReplayContext { shard_id, wal_replay_batch_size, max_retry_flush_limit }),
            r.mode == replay_mode,
    {
        WalReplayer {
            context: ReplayContext { shard_id, wal_replay_batch_size, max_retry_flush_limit },
            mode: replay_mode,
            tables: table_datas,
        }
    }

    /// Replays the tables against the shard's log and returns the restored
    /// tables and the per-table failures. Both strategies meet one
    /// contract: the outcome does not depend on the mode.
    pub fn replay(self, wal: &crate::wal::Wal) -> (r: (Vec<TableState>, FailedTables))
        requires
            self.context.wal_replay_batch_size >= 1,
            distinct_table_ids(self.tables.deep_view()),
        ensures
            replay_run_ok(
                self.tables.deep_view(),
                wal@,
                self.context.max_retry_flush_limit,
                r.0.deep_view(),
                r.1@,
            ),
    {
        match self.mode {
            ReplayMode::RegionBased => RegionBasedReplay::run(&self.context, self.tables, wal),
            ReplayMode::TableBased => TableBasedReplay::run(&self.context, self.tables, wal),
        }
    }
}

/// The two strategies are interchangeable: any two passes meeting the
/// replay contract on the same tables and log leave identical table
/// states and identical failure maps.
pub proof fn lemma_strategy_agreement(
    t0s: Seq<TableV>,
    wal: Seq<LogEntryV>,
    max_retry_flush_limit: usize,
    a_states: Seq<TableV>,
    a_failed: Map<u64, ReplayError>,
    b_states: Seq<TableV>,
    b_failed: Map<u64, ReplayError>,
)
    requires
        replay_run_ok(t0s, wal, max_retry_flush_limit, a_states, a_failed),
        replay_run_ok(t0s, wal, max_retry_flush_limit, b_states, b_failed),
    ensures
        a_states == b_states,
        a_failed == b_failed,
{
    assert(a_states =~= b_states);
    assert forall|k: u64| a_failed.contains_key(k) implies b_failed.contains_key(k)
        && b_failed[k] == a_failed[k] by {
        let i = choose|i: int| 0 <= i < t0s.len() && (#[trigger] t0s[i].id) == k;
        assert(t0s[i].id == k);
    }
    assert forall|k: u64| b_failed.contains_key(k) implies a_failed.contains_key(k) by {
        let i = choose|i: int| 0 <= i < t0s.len() && (#[trigger] t0s[i].id) == k;
        assert(t0s[i].id == k);
    }
    assert(a_failed =~= b_failed);
}

/// Per-table monotonicity: replay of one table's entry stream, when it
/// finishes clean and every write carries the table's schema version,
/// leaves `last_sequence` at the highest sequence past the durable bound,
/// or untouched when no entry lies past it. (A table whose memtable fills
/// mid-replay aborts instead and is excluded here.)
pub proof fn lemma_replay_last_sequence(t: TableV, es: Seq<LogEntryV>, max_retry_flush_limit: usize)
    requires
        forall|p: int, q: int| 0 <= p < q < es.len() ==> es[p].sequence < es[q].sequence,
        forall|k: int|
            0 <= k < es.len() ==> match (#[trigger] es[k]).payload {
                PayloadV::Write { schema_version, rows } => schema_version == t.schema_version,
                PayloadV::AlterSchema => true,
                PayloadV::AlterOptions => true,
            },
        replay_entries(t, es, max_retry_flush_limit).1 is None,
    ensures
        replay_entries(t, es, max_retry_flush_limit).0.last_sequence == if es.len() > 0
            && es.last().sequence > t.flushed_sequence {
            es.last().sequence
        } else {
            t.last_sequence
        },
    decreases es.len(),
{
    if es.len() > 0 {
        let e = es[0];
        let rest = es.drop_first();
        let step = apply_entry(t, e, max_retry_flush_limit);
        assert(step.1 is None);
        assert(step.0.flushed_sequence == t.flushed_sequence);
        assert(step.0.schema_version == t.schema_version);
        assert forall|p: int, q: int| 0 <= p < q < rest.len() implies rest[p].sequence
            < rest[q].sequence by {
            assert(rest[p] == es[p + 1]);
            assert(rest[q] == es[q + 1]);
        }
        assert forall|k: int| 0 <= k < rest.len() implies match (#[trigger] rest[k]).payload {
            PayloadV::Write { schema_version, rows } => schema_version == step.0.schema_version,
            PayloadV::AlterSchema => true,
            PayloadV::AlterOptions => true,
        } by {
            assert(rest[k] == es[k + 1]);
        }
        lemma_replay_last_sequence(step.0, rest, max_retry_flush_limit);
        if rest.len() > 0 {
            assert(es.last() == rest.last());
            assert(es[0].sequence < rest.last().sequence);
        }
    }
}

/// Isolation of failures: a table whose fold aborts appears in the failure
/// map, and every other table ends exactly as it would in a replay where
/// the failing table did not exist.
pub proof fn lemma_failure_isolation(
    t0s: Seq<TableV>,
    wal: Seq<LogEntryV>,
    max_retry_flush_limit: usize,
    t1s: Seq<TableV>,
    failed: Map<u64, ReplayError>,
    without: Seq<TableV>,
    t1s_w: Seq<TableV>,
    failed_w: Map<u64, ReplayError>,
    a: int,
)
    requires
        0 <= a < t0s.len(),
        without == t0s.remove(a),
        replay_run_ok(t0s, wal, max_retry_flush_limit, t1s, failed),
        replay_run_ok(without, wal, max_retry_flush_limit, t1s_w, failed_w),
        table_outcome(t0s[a], wal, max_retry_flush_limit).1 is Some,
    ensures
        failed.contains_key(t0s[a].id),
        forall|i: int| 0 <= i < a ==> #[trigger] t1s_w[i] == t1s[i],
        forall|i: int| a <= i < without.len() ==> #[trigger] t1s_w[i] == t1s[i + 1],
        forall|i: int|
            0 <= i < without.len() ==> (failed_w.contains_key(#[trigger] without[i].id)
                <==> failed.contains_key(without[i].id)),
        forall|i: int|
            0 <= i < without.len() && failed_w.contains_key(#[trigger] without[i].id)
                ==> failed_w[without[i].id] == failed[without[i].id],
{
    assert forall|i: int| 0 <= i < a implies #[trigger] t1s_w[i] == t1s[i] by {
        assert(without[i] == t0s[i]);
    }
    assert forall|i: int| a <= i < without.len() implies #[trigger] t1s_w[i] == t1s[i + 1] by {
        assert(without[i] == t0s[i + 1]);
    }
    assert forall|i: int| 0 <= i < without.len() implies (failed_w.contains_key(
        #[trigger] without[i].id,
    ) <==> failed.contains_key(without[i].id)) && (failed_w.contains_key(without[i].id)
        ==> failed_w[without[i].id] == failed[without[i].id]) by {
        let io = if i < a {
            i
        } else {
            i + 1
        };
        assert(without[i] == t0s[io]);
    }
}

/// The rows a log entry carries, if it is a write.
pub open spec fn entry_rows(e: LogEntryV) -> Seq<crate::wal::RowV> {
    match e.payload {
        PayloadV::Write { schema_version, rows } => rows,
        PayloadV::AlterSchema => Seq::empty(),
        PayloadV::AlterOptions => Seq::empty(),
    }
}

/// Whether the entry advances `last_sequence` under these table facts: it
/// lies past the durable bound and is not a write of another schema. (A
/// write whose key is oversized still advances; only the rows are
/// dropped.)
pub open spec fn entry_advances(e: LogEntryV, flushed: u64, schema: u32) -> bool {
    e.sequence > flushed && match e.payload {
        PayloadV::Write { schema_version, rows } => schema_version == schema,
        PayloadV::AlterSchema => true,
        PayloadV::AlterOptions => true,
    }
}

/// Whether the entry's rows reach the memtable: it advances, and no key
/// is oversized.
pub open spec fn entry_applies_rows(e: LogEntryV, flushed: u64, schema: u32, max_key_size: usize) -> bool {
    e.sequence > flushed && match e.payload {
        PayloadV::Write { schema_version, rows } => schema_version == schema
            && !crate::memtable::group_exceeds_key_size(rows, max_key_size),
        PayloadV::AlterSchema => false,
        PayloadV::AlterOptions => false,
    }
}

/// The sequence of the last entry that advances, if any does.
pub open spec fn last_advanced(es: Seq<LogEntryV>, flushed: u64, schema: u32) -> Option<u64>
    decreases es.len(),
{
    if es.len() == 0 {
        None
    } else {
        let rest = last_advanced(es.drop_first(), flushed, schema);
        if rest is Some {
            rest
        } else if entry_advances(es[0], flushed, schema) {
            Some(es[0].sequence)
        } else {
            None
        }
    }
}

/// A clean replay keeps the memtable's versions unique.
pub proof fn lemma_fold_mem_wf(t: TableV, es: Seq<LogEntryV>, max_retry_flush_limit: usize)
    requires
        crate::memtable::rows_wf(t.mem.rows),
    ensures
        crate::memtable::rows_wf(replay_entries(t, es, max_retry_flush_limit).0.mem.rows),
    decreases es.len(),
{
    if es.len() > 0 {
        let step = apply_entry(t, es[0], max_retry_flush_limit);
        assert(crate::memtable::rows_wf(step.0.mem.rows)) by {
            if step.0.mem.rows != t.mem.rows {
                crate::memtable::lemma_upsert_rows_wf(
                    t.mem.rows,
                    es[0].sequence,
                    entry_rows(es[0]),
                );
            }
        }
        if step.1 is None {
            lemma_fold_mem_wf(step.0, es.drop_first(), max_retry_flush_limit);
        }
    }
}

/// A clean replay never exceeds the buffer's capacity.
pub proof fn lemma_fold_mem_cap(t: TableV, es: Seq<LogEntryV>, max_retry_flush_limit: usize)
    requires
        t.mem.rows.len() <= t.mem.capacity_rows,
    ensures
        replay_entries(t, es, max_retry_flush_limit).0.mem.rows.len() <= replay_entries(
            t,
            es,
            max_retry_flush_limit,
        ).0.mem.capacity_rows,
    decreases es.len(),
{
    if es.len() > 0 {
        let step = apply_entry(t, es[0], max_retry_flush_limit);
        if step.1 is None {
            lemma_fold_mem_cap(step.0, es.drop_first(), max_retry_flush_limit);
        }
    }
}

/// The table never sits past its flush threshold without a flush in
/// flight: the check after every write keeps the discipline.
pub open spec fn flush_disciplined(t: TableV) -> bool {
    t.mem.rows.len() >= t.flush_threshold_rows ==> t.in_flush
}

/// Replay preserves the flush discipline.
pub proof fn lemma_fold_flush_discipline(t: TableV, es: Seq<LogEntryV>, max_retry_flush_limit: usize)
    requires
        flush_disciplined(t),
    ensures
        flush_disciplined(replay_entries(t, es, max_retry_flush_limit).0),
    decreases es.len(),
{
    if es.len() > 0 {
        let step = apply_entry(t, es[0], max_retry_flush_limit);
        if step.1 is None {
            lemma_fold_flush_discipline(step.0, es.drop_first(), max_retry_flush_limit);
        }
    }
}

/// A stored row whose sequence no entry carries survives replay.
pub proof fn lemma_fold_keeps_row(
    t: TableV,
    es: Seq<LogEntryV>,
    max_retry_flush_limit: usize,
    row: crate::memtable::MemRowV,
)
    requires
        crate::memtable::row_in(t.mem.rows, row),
        forall|k: int| 0 <= k < es.len() ==> (#[trigger] es[k]).sequence != row.sequence,
    ensures
        crate::memtable::row_in(
            replay_entries(t, es, max_retry_flush_limit).0.mem.rows,
            row,
        ),
    decreases es.len(),
{
    if es.len() > 0 {
        let step = apply_entry(t, es[0], max_retry_flush_limit);
        assert(crate::memtable::row_in(step.0.mem.rows, row)) by {
            if step.0.mem.rows != t.mem.rows {
                crate::memtable::lemma_upsert_rows_keeps_other_seq(
                    t.mem.rows,
                    es[0].sequence,
                    entry_rows(es[0]),
                    row,
                );
            }
        }
        if step.1 is None {
            assert forall|k: int| 0 <= k < es.drop_first().len() implies (
            #[trigger] es.drop_first()[k]).sequence != row.sequence by {
                assert(es.drop_first()[k] == es[k + 1]);
            }
            lemma_fold_keeps_row(step.0, es.drop_first(), max_retry_flush_limit, row);
        }
    }
}

/// After a clean replay of one table's ascending entry stream, every row
/// a surviving write carried is stored.
pub proof fn lemma_fold_contains(t: TableV, es: Seq<LogEntryV>, max_retry_flush_limit: usize)
    requires
        replay_entries(t, es, max_retry_flush_limit).1 is None,
        forall|p: int, q: int| 0 <= p < q < es.len() ==> es[p].sequence < es[q].sequence,
        forall|k: int|
            0 <= k < es.len() ==> crate::memtable::group_keys_distinct(entry_rows(
                #[trigger] es[k],
            )),
    ensures
        forall|k: int, rk: int|
            0 <= k < es.len() && entry_applies_rows(
                #[trigger] es[k],
                t.flushed_sequence,
                t.schema_version,
                t.mem.max_key_size,
            ) && 0 <= rk < entry_rows(es[k]).len() ==> crate::memtable::row_in(
                replay_entries(t, es, max_retry_flush_limit).0.mem.rows,
                crate::memtable::mem_row_of(es[k].sequence, #[trigger] entry_rows(es[k])[rk]),
            ),
    decreases es.len(),
{
    if es.len() > 0 {
        let e = es[0];
        let rest = es.drop_first();
        let step = apply_entry(t, e, max_retry_flush_limit);
        assert(step.1 is None);
        assert(step.0.flushed_sequence == t.flushed_sequence);
        assert(step.0.schema_version == t.schema_version);
        assert(step.0.mem.max_key_size == t.mem.max_key_size);
        assert forall|p: int, q: int| 0 <= p < q < rest.len() implies rest[p].sequence
            < rest[q].sequence by {
            assert(rest[p] == es[p + 1]);
            assert(rest[q] == es[q + 1]);
        }
        assert forall|k: int|
            0 <= k < rest.len() implies crate::memtable::group_keys_distinct(entry_rows(
            #[trigger] rest[k],
        )) by {
            assert(rest[k] == es[k + 1]);
        }
        lemma_fold_contains(step.0, rest, max_retry_flush_limit);
        assert forall|k: int, rk: int|
            0 <= k < es.len() && entry_applies_rows(
                #[trigger] es[k],
                t.flushed_sequence,
                t.schema_version,
                t.mem.max_key_size,
            ) && 0 <= rk < entry_rows(es[k]).len() implies crate::memtable::row_in(
            replay_entries(t, es, max_retry_flush_limit).0.mem.rows,
            crate::memtable::mem_row_of(es[k].sequence, #[trigger] entry_rows(es[k])[rk]),
        ) by {
            if k == 0 {
                // The entry's rows land now and survive the rest, whose
                // sequences all lie above.
                crate::memtable::lemma_upsert_rows_present(
                    t.mem.rows,
                    e.sequence,
                    entry_rows(e),
                );
                assert(step.0.mem.rows == crate::memtable::upsert_rows(
                    t.mem.rows,
                    e.sequence,
                    entry_rows(e),
                ));
                let stored = crate::memtable::mem_row_of(e.sequence, entry_rows(e)[rk]);
                assert forall|k2: int| 0 <= k2 < rest.len() implies (
                #[trigger] rest[k2]).sequence != stored.sequence by {
                    assert(rest[k2] == es[k2 + 1]);
                }
                lemma_fold_keeps_row(step.0, rest, max_retry_flush_limit, stored);
            } else {
                assert(rest[k - 1] == es[k]);
            }
        }
    }
}

/// A clean replay leaves `last_sequence` at the last advancing entry, or
/// where it stood.
pub proof fn lemma_fold_last(t: TableV, es: Seq<LogEntryV>, max_retry_flush_limit: usize)
    requires
        replay_entries(t, es, max_retry_flush_limit).1 is None,
    ensures
        replay_entries(t, es, max_retry_flush_limit).0.last_sequence == match last_advanced(
            es,
            t.flushed_sequence,
            t.schema_version,
        ) {
            Some(s) => s,
            None => t.last_sequence,
        },
    decreases es.len(),
{
    if es.len() > 0 {
        let step = apply_entry(t, es[0], max_retry_flush_limit);
        assert(step.1 is None);
        assert(step.0.flushed_sequence == t.flushed_sequence);
        assert(step.0.schema_version == t.schema_version);
        lemma_fold_last(step.0, es.drop_first(), max_retry_flush_limit);
    }
}

/// Replaying a stream whose surviving rows are all already stored leaves
/// the table as it stands, except that `last_sequence` is re-walked to
/// the same place the stream dictates.
pub proof fn lemma_replay_reapply(t: TableV, es: Seq<LogEntryV>, max_retry_flush_limit: usize)
    requires
        crate::memtable::rows_wf(t.mem.rows),
        flush_disciplined(t),
        t.mem.rows.len() <= t.mem.capacity_rows,
        forall|k: int, rk: int|
            0 <= k < es.len() && entry_applies_rows(
                #[trigger] es[k],
                t.flushed_sequence,
                t.schema_version,
                t.mem.max_key_size,
            ) && 0 <= rk < entry_rows(es[k]).len() ==> crate::memtable::row_in(
                t.mem.rows,
                crate::memtable::mem_row_of(es[k].sequence, #[trigger] entry_rows(es[k])[rk]),
            ),
    ensures
        replay_entries(t, es, max_retry_flush_limit) == (TableV {
            last_sequence: match last_advanced(es, t.flushed_sequence, t.schema_version) {
                Some(s) => s,
                None => t.last_sequence,
            },
            ..t
        }, None::<ReplayError>),
    decreases es.len(),
{
    if es.len() == 0 {
        assert(replay_entries(t, es, max_retry_flush_limit) == (t, None::<ReplayError>));
        assert((TableV {
            last_sequence: t.last_sequence,
            ..t
        }) =~= t);
    } else {
        let e = es[0];
        let rest = es.drop_first();
        let step = apply_entry(t, e, max_retry_flush_limit);
        assert forall|k: int, rk: int|
            0 <= k < rest.len() && entry_applies_rows(
                #[trigger] rest[k],
                t.flushed_sequence,
                t.schema_version,
                t.mem.max_key_size,
            ) && 0 <= rk < entry_rows(rest[k]).len() implies crate::memtable::row_in(
            t.mem.rows,
            crate::memtable::mem_row_of(rest[k].sequence, #[trigger] entry_rows(rest[k])[rk]),
        ) by {
            assert(rest[k] == es[k + 1]);
            assert(entry_rows(es[k + 1])[rk] == entry_rows(rest[k])[rk]);
        }
        if entry_applies_rows(e, t.flushed_sequence, t.schema_version, t.mem.max_key_size) {
            // The write re-inserts versions already stored: the buffer is
            // unchanged and within capacity, so the insert is accepted.
            assert forall|rk: int| 0 <= rk < entry_rows(e).len() implies crate::memtable::row_in(
                t.mem.rows,
                crate::memtable::mem_row_of(e.sequence, #[trigger] entry_rows(e)[rk]),
            ) by {
                assert(entry_applies_rows(
                    es[0],
                    t.flushed_sequence,
                    t.schema_version,
                    t.mem.max_key_size,
                ));
            }
            crate::memtable::lemma_upsert_rows_identity(t.mem.rows, e.sequence, entry_rows(e));
            assert(crate::memtable::mem_insert_spec(t.mem, e.sequence, entry_rows(e))
                matches Ok(m2) && m2 =~= t.mem);
            assert(step.0 =~= set_last(t, e.sequence));
            assert(step.1 is None);
            lemma_replay_reapply(set_last(t, e.sequence), rest, max_retry_flush_limit);
            assert(replay_entries(t, es, max_retry_flush_limit).0 =~= (TableV {
                last_sequence: match last_advanced(es, t.flushed_sequence, t.schema_version) {
                    Some(s) => s,
                    None => t.last_sequence,
                },
                ..t
            }));
        } else {
            // Skips, DDL entries and oversized-key writes leave the buffer
            // alone.
            assert(step.0.mem == t.mem);
            assert(step.1 is None);
            assert(step.0 =~= if entry_advances(e, t.flushed_sequence, t.schema_version) {
                set_last(t, e.sequence)
            } else {
                t
            });
            if entry_advances(e, t.flushed_sequence, t.schema_version) {
                lemma_replay_reapply(set_last(t, e.sequence), rest, max_retry_flush_limit);
            } else {
                lemma_replay_reapply(t, rest, max_retry_flush_limit);
            }
            assert(replay_entries(t, es, max_retry_flush_limit).0 =~= (TableV {
                last_sequence: match last_advanced(es, t.flushed_sequence, t.schema_version) {
                    Some(s) => s,
                    None => t.last_sequence,
                },
                ..t
            }));
        }
    }
}

/// Idempotence: running a clean replay twice over one table's ascending
/// entry stream leaves the state of the first run untouched — the second
/// run re-writes the same row versions and re-walks `last_sequence` to
/// the same place.
pub proof fn lemma_replay_idempotent(t: TableV, es: Seq<LogEntryV>, max_retry_flush_limit: usize)
    requires
        crate::memtable::rows_wf(t.mem.rows),
        flush_disciplined(t),
        t.mem.rows.len() <= t.mem.capacity_rows,
        forall|p: int, q: int| 0 <= p < q < es.len() ==> es[p].sequence < es[q].sequence,
        forall|k: int|
            0 <= k < es.len() ==> crate::memtable::group_keys_distinct(entry_rows(
                #[trigger] es[k],
            )),
        replay_entries(t, es, max_retry_flush_limit).1 is None,
    ensures
        replay_entries(
            replay_entries(t, es, max_retry_flush_limit).0,
            es,
            max_retry_flush_limit,
        ) == (replay_entries(t, es, max_retry_flush_limit).0, None::<ReplayError>),
{
    let f = replay_entries(t, es, max_retry_flush_limit).0;
    lemma_replay_preserves_static(t, es, max_retry_flush_limit);
    lemma_fold_mem_wf(t, es, max_retry_flush_limit);
    lemma_fold_mem_cap(t, es, max_retry_flush_limit);
    lemma_fold_flush_discipline(t, es, max_retry_flush_limit);
    lemma_fold_contains(t, es, max_retry_flush_limit);
    lemma_fold_last(t, es, max_retry_flush_limit);
    lemma_replay_reapply(f, es, max_retry_flush_limit);
    let relast = match last_advanced(es, f.flushed_sequence, f.schema_version) {
        Some(s) => s,
        None => f.last_sequence,
    };
    assert(f.last_sequence == relast);
    assert((TableV { last_sequence: relast, ..f }) =~= f);
}

/// Per-table monotonicity at the replay entry points: in any pass meeting
/// the replay contract over a WAL honouring its per-table sequence
/// guarantee, a table that is not in the failure map and whose entries
/// all carry its schema version ends with `last_sequence` at the highest
/// sequence past its durable bound — or untouched when nothing lies past
/// it.
pub proof fn lemma_run_last_sequence(
    t0s: Seq<TableV>,
    wal: Seq<LogEntryV>,
    max_retry_flush_limit: usize,
    t1s: Seq<TableV>,
    failed: Map<u64, ReplayError>,
    i: int,
)
    requires
        replay_run_ok(t0s, wal, max_retry_flush_limit, t1s, failed),
        crate::wal::wal_sequences_ascending(wal),
        0 <= i < t0s.len(),
        forall|k: int|
            0 <= k < crate::wal::entries_of(wal, t0s[i].id).len() ==> match (
            #[trigger] crate::wal::entries_of(wal, t0s[i].id)[k]).payload {
                PayloadV::Write { schema_version, rows } => schema_version == t0s[i]
                    .schema_version,
                PayloadV::AlterSchema => true,
                PayloadV::AlterOptions => true,
            },
        !failed.contains_key(t0s[i].id),
    ensures
        ({
            let stream = crate::wal::entries_of(wal, t0s[i].id);
            t1s[i].last_sequence == if stream.len() > 0 && stream.last().sequence > t0s[i]
                .flushed_sequence {
                stream.last().sequence
            } else {
                t0s[i].last_sequence
            }
        }),
{
    let stream = crate::wal::entries_of(wal, t0s[i].id);
    crate::wal::lemma_entries_of_ascending(wal, t0s[i].id);
    assert(table_outcome(t0s[i], wal, max_retry_flush_limit).1 is None) by {
        if table_outcome(t0s[i], wal, max_retry_flush_limit).1 is Some {
            assert(failed.contains_key(t0s[i].id));
        }
    }
    lemma_replay_last_sequence(t0s[i], stream, max_retry_flush_limit);
    assert(t1s[i] == table_outcome(t0s[i], wal, max_retry_flush_limit).0);
}

/// Idempotence at the replay entry points: running a clean replay pass a
/// second time over the same WAL leaves every table exactly where the
/// first pass left it, and records no failure. (A pass with a failed
/// table is excluded: its table aborted mid-stream.)
pub proof fn lemma_run_idempotent(
    t0s: Seq<TableV>,
    wal: Seq<LogEntryV>,
    max_retry_flush_limit: usize,
    t1s: Seq<TableV>,
    failed1: Map<u64, ReplayError>,
    t2s: Seq<TableV>,
    failed2: Map<u64, ReplayError>,
)
    requires
        replay_run_ok(t0s, wal, max_retry_flush_limit, t1s, failed1),
        replay_run_ok(t1s, wal, max_retry_flush_limit, t2s, failed2),
        crate::wal::wal_sequences_ascending(wal),
        forall|i: int|
            0 <= i < t0s.len() ==> crate::memtable::rows_wf((#[trigger] t0s[i]).mem.rows)
                && flush_disciplined(t0s[i]) && t0s[i].mem.rows.len() <= t0s[i]
                .mem.capacity_rows,
        forall|k: int|
            0 <= k < wal.len() ==> crate::memtable::group_keys_distinct(entry_rows(
                #[trigger] wal[k],
            )),
        forall|i: int| 0 <= i < t0s.len() ==> !failed1.contains_key((#[trigger] t0s[i]).id),
    ensures
        t2s == t1s,
        forall|k: u64| !failed2.contains_key(k),
{
    assert forall|i: int| 0 <= i < t0s.len() implies #[trigger] t2s[i] == t1s[i]
        && !failed2.contains_key(t1s[i].id) by {
        let stream = crate::wal::entries_of(wal, t0s[i].id);
        crate::wal::lemma_entries_of_ascending(wal, t0s[i].id);
        assert forall|k: int|
            0 <= k < stream.len() implies crate::memtable::group_keys_distinct(entry_rows(
            #[trigger] stream[k],
        )) by {
            let k0 = choose|k0: int| 0 <= k0 < wal.len() && (#[trigger] wal[k0]) == stream[k];
            assert(crate::memtable::group_keys_distinct(entry_rows(wal[k0])));
        }
        assert(table_outcome(t0s[i], wal, max_retry_flush_limit).1 is None) by {
            if table_outcome(t0s[i], wal, max_retry_flush_limit).1 is Some {
                assert(failed1.contains_key(t0s[i].id));
            }
        }
        lemma_replay_idempotent(t0s[i], stream, max_retry_flush_limit);
        lemma_replay_preserves_static(t0s[i], stream, max_retry_flush_limit);
        assert(t1s[i] == table_outcome(t0s[i], wal, max_retry_flush_limit).0);
        assert(t1s[i].id == t0s[i].id);
        assert(t2s[i] == table_outcome(t1s[i], wal, max_retry_flush_limit).0);
        assert(table_outcome(t1s[i], wal, max_retry_flush_limit) == (
            t1s[i],
            None::<ReplayError>,
        ));
    }
    assert(t2s =~= t1s);
    assert forall|k: u64| !failed2.contains_key(k) by {
        if failed2.contains_key(k) {
            let i = choose|i: int| 0 <= i < t1s.len() && (#[trigger] t1s[i].id) == k;
            assert(!failed2.contains_key(t1s[i].id));
        }
    }
}

} // verus!
