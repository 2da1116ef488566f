//! Model of the write-ahead log for one shard (one region).
//!
//! The log is a sequence of entries ordered by physical position. Per table,
//! the WAL assigns strictly increasing sequence numbers; across tables no
//! order is promised beyond the physical one. Two read shapes are offered,
//! mirroring the two replay strategies: a per-table read that starts after a
//! given sequence, and a region scan that takes every entry whose table the
//! caller knows. Both return batches of a bounded size, and an empty batch
//! signals the end of the stream.

use vstd::prelude::*;

verus! {

/// One row of a write: the encoded primary key and the encoded payload of
/// the remaining columns.
pub struct Row {
    pub key: Vec<u8>,
    pub value: Vec<u8>,
}

/// Spec-level image of a [`Row`].
#[verifier::ext_equal]
pub struct RowV {
    pub key: Seq<u8>,
    pub value: Seq<u8>,
}

impl View for Row {
    type V = RowV;

    open spec fn view(&self) -> RowV {
        RowV { key: self.key@, value: self.value@ }
    }
}

impl DeepView for Row {
    type V = RowV;

    open spec fn deep_view(&self) -> RowV {
        self@
    }
}

impl Clone for Row {
    fn clone(&self) -> (r: Self)
        ensures
            r@ == self@,
    {
        Row { key: self.key.clone(), value: self.value.clone() }
    }
}

/// What one log entry carries. Only `Write` is applied during replay; the
/// DDL variants are recovered from the manifest and skipped here.
pub enum Payload {
    Write { schema_version: u32, rows: Vec<Row> },
    AlterSchema,
    AlterOptions,
}

/// Spec-level image of a [`Payload`].
#[verifier::ext_equal]
pub enum PayloadV {
    Write { schema_version: u32, rows: Seq<RowV> },
    AlterSchema,
    AlterOptions,
}

impl View for Payload {
    type V = PayloadV;

    open spec fn view(&self) -> PayloadV {
        match self {
            Payload::Write { schema_version, rows } => PayloadV::Write {
                schema_version: *schema_version,
                rows: rows.deep_view(),
            },
            Payload::AlterSchema => PayloadV::AlterSchema,
            Payload::AlterOptions => PayloadV::AlterOptions,
        }
    }
}

impl DeepView for Payload {
    type V = PayloadV;

    open spec fn deep_view(&self) -> PayloadV {
        self@
    }
}

impl Clone for Payload {
    #[verifier::loop_isolation(false)]
    fn clone(&self) -> (r: Self)
        ensures
            r@ == self@,
    {
        match self {
            Payload::Write { schema_version, rows } => {
                let mut rows_copy: Vec<Row> = Vec::new();
                let mut i: usize = 0;
                while i < rows.len()
                    invariant
                        i <= rows.len(),
                        rows_copy.deep_view() == rows.deep_view().subrange(0, i as int),
                    decreases rows.len() - i,
                {
                    rows_copy.push(rows[i].clone());
                    proof {
                        assert(rows_copy.deep_view() =~= rows.deep_view().subrange(0, i + 1));
                    }
                    i = i + 1;
                }
                proof {
                    assert(rows_copy.deep_view() =~= rows.deep_view());
                }
                Payload::Write { schema_version: *schema_version, rows: rows_copy }
            },
            Payload::AlterSchema => Payload::AlterSchema,
            Payload::AlterOptions => Payload::AlterOptions,
        }
    }
}

/// One decoded WAL entry: which table it belongs to, the sequence the WAL
/// assigned on append, and the payload.
pub struct LogEntry {
    pub table_id: u64,
    pub sequence: u64,
    pub payload: Payload,
}

/// Spec-level image of a [`LogEntry`].
#[verifier::ext_equal]
pub struct LogEntryV {
    pub table_id: u64,
    pub sequence: u64,
    pub payload: PayloadV,
}

impl View for LogEntry {
    type V = LogEntryV;

    open spec fn view(&self) -> LogEntryV {
        LogEntryV { table_id: self.table_id, sequence: self.sequence, payload: self.payload@ }
    }
}

impl DeepView for LogEntry {
    type V = LogEntryV;

    open spec fn deep_view(&self) -> LogEntryV {
        self@
    }
}

impl Clone for LogEntry {
    fn clone(&self) -> (r: Self)
        ensures
            r@ == self@,
    {
        LogEntry {
            table_id: self.table_id,
            sequence: self.sequence,
            payload: self.payload.clone(),
        }
    }
}

/// The write-ahead log of one shard: every entry of the region, ordered by
/// physical log position.
pub struct Wal {
    pub entries: Vec<LogEntry>,
}

impl View for Wal {
    type V = Seq<LogEntryV>;

    open spec fn view(&self) -> Seq<LogEntryV> {
        self.entries.deep_view()
    }
}

/// The WAL's append-side guarantee: per table, sequences are strictly
/// increasing in physical order. Gaps are permitted only across tables.
pub open spec fn wal_sequences_ascending(es: Seq<LogEntryV>) -> bool {
    forall|i: int, j: int|
        0 <= i < j < es.len() && es[i].table_id == es[j].table_id ==> es[i].sequence
            < es[j].sequence
}

/// The entries of one table, in log order.
pub open spec fn entries_of(es: Seq<LogEntryV>, table_id: u64) -> Seq<LogEntryV>
    decreases es.len(),
{
    if es.len() == 0 {
        Seq::empty()
    } else {
        (if es[0].table_id == table_id {
            seq![es[0]]
        } else {
            Seq::empty()
        }) + entries_of(es.drop_first(), table_id)
    }
}

/// The entries of one table whose sequence lies strictly after
/// `start_exclusive`, in log order.
pub open spec fn entries_of_after(
    es: Seq<LogEntryV>,
    table_id: u64,
    start_exclusive: u64,
) -> Seq<LogEntryV>
    decreases es.len(),
{
    if es.len() == 0 {
        Seq::empty()
    } else {
        (if es[0].table_id == table_id && es[0].sequence > start_exclusive {
            seq![es[0]]
        } else {
            Seq::empty()
        }) + entries_of_after(es.drop_first(), table_id, start_exclusive)
    }
}

/// The entries whose table is one of `ids`, in log order.
pub open spec fn entries_of_tables(es: Seq<LogEntryV>, ids: Seq<u64>) -> Seq<LogEntryV>
    decreases es.len(),
{
    if es.len() == 0 {
        Seq::empty()
    } else {
        (if ids.contains(es[0].table_id) {
            seq![es[0]]
        } else {
            Seq::empty()
        }) + entries_of_tables(es.drop_first(), ids)
    }
}

/// Splitting a log in two splits each table's entry stream at the same
/// point.
pub proof fn lemma_entries_of_concat(a: Seq<LogEntryV>, b: Seq<LogEntryV>, table_id: u64)
    ensures
        entries_of(a + b, table_id) == entries_of(a, table_id) + entries_of(b, table_id),
    decreases a.len(),
{
    if a.len() == 0 {
        assert(a + b =~= b);
        assert(entries_of(a, table_id) + entries_of(b, table_id) =~= entries_of(b, table_id));
    } else {
        assert((a + b).drop_first() =~= a.drop_first() + b);
        lemma_entries_of_concat(a.drop_first(), b, table_id);
        assert(entries_of(a + b, table_id) =~= entries_of(a, table_id) + entries_of(
            b,
            table_id,
        ));
    }
}

/// As [`lemma_entries_of_concat`], for the bounded per-table read.
pub proof fn lemma_entries_of_after_concat(
    a: Seq<LogEntryV>,
    b: Seq<LogEntryV>,
    table_id: u64,
    start_exclusive: u64,
)
    ensures
        entries_of_after(a + b, table_id, start_exclusive) == entries_of_after(
            a,
            table_id,
            start_exclusive,
        ) + entries_of_after(b, table_id, start_exclusive),
    decreases a.len(),
{
    if a.len() == 0 {
        assert(a + b =~= b);
        assert(entries_of_after(a, table_id, start_exclusive) + entries_of_after(
            b,
            table_id,
            start_exclusive,
        ) =~= entries_of_after(b, table_id, start_exclusive));
    } else {
        assert((a + b).drop_first() =~= a.drop_first() + b);
        lemma_entries_of_after_concat(a.drop_first(), b, table_id, start_exclusive);
        assert(entries_of_after(a + b, table_id, start_exclusive) =~= entries_of_after(
            a,
            table_id,
            start_exclusive,
        ) + entries_of_after(b, table_id, start_exclusive));
    }
}

/// As [`lemma_entries_of_concat`], for the region scan.
pub proof fn lemma_entries_of_tables_concat(a: Seq<LogEntryV>, b: Seq<LogEntryV>, ids: Seq<u64>)
    ensures
        entries_of_tables(a + b, ids) == entries_of_tables(a, ids) + entries_of_tables(b, ids),
    decreases a.len(),
{
    if a.len() == 0 {
        assert(a + b =~= b);
        assert(entries_of_tables(a, ids) + entries_of_tables(b, ids) =~= entries_of_tables(
            b,
            ids,
        ));
    } else {
        assert((a + b).drop_first() =~= a.drop_first() + b);
        lemma_entries_of_tables_concat(a.drop_first(), b, ids);
        assert(entries_of_tables(a + b, ids) =~= entries_of_tables(a, ids) + entries_of_tables(
            b,
            ids,
        ));
    }
}

/// Projecting one table out of a region scan gives that table's entries,
/// as long as the table is one the scan keeps.
pub proof fn lemma_entries_of_tables_project(es: Seq<LogEntryV>, ids: Seq<u64>, table_id: u64)
    requires
        ids.contains(table_id),
    ensures
        entries_of(entries_of_tables(es, ids), table_id) == entries_of(es, table_id),
    decreases es.len(),
{
    if es.len() > 0 {
        lemma_entries_of_tables_project(es.drop_first(), ids, table_id);
        if ids.contains(es[0].table_id) {
            assert(entries_of_tables(es, ids) =~= seq![es[0]] + entries_of_tables(
                es.drop_first(),
                ids,
            ));
            lemma_entries_of_concat(
                seq![es[0]],
                entries_of_tables(es.drop_first(), ids),
                table_id,
            );
            assert(seq![es[0]].drop_first() =~= Seq::<LogEntryV>::empty());
            assert(entries_of(Seq::<LogEntryV>::empty(), table_id)
                =~= Seq::<LogEntryV>::empty());
            assert(entries_of(seq![es[0]], table_id) =~= if es[0].table_id == table_id {
                seq![es[0]]
            } else {
                Seq::<LogEntryV>::empty()
            });
            assert(entries_of(entries_of_tables(es, ids), table_id) =~= entries_of(
                es,
                table_id,
            ));
        } else {
            assert(entries_of_tables(es, ids) =~= entries_of_tables(es.drop_first(), ids));
            assert(entries_of(entries_of_tables(es, ids), table_id) =~= entries_of(
                es,
                table_id,
            ));
        }
    }
}

impl Wal {
    /// A log with no entries yet.
    pub fn new() -> (r: Wal)
        ensures
            r@ == Seq::<LogEntryV>::empty(),
    {
        Wal { entries: Vec::new() }
    }

    /// Appends one entry, keeping the per-table sequence guarantee.
    pub fn append(&mut self, entry: LogEntry)
        requires
            forall|i: int|
                0 <= i < old(self)@.len() && old(self)@[i].table_id == entry@.table_id ==> old(
                    self,
                )@[i].sequence < entry@.sequence,
        ensures
            final(self)@ == old(self)@.push(entry@),
            wal_sequences_ascending(old(self)@) ==> wal_sequences_ascending(final(self)@),
    {
        self.entries.push(entry);
        proof {
            assert(self@ =~= old(self)@.push(entry@));
        }

    }
}

/// Pulls the next batch of one table's entries with sequence strictly after
/// `start_exclusive`, scanning the log from `pos`. Returns the batch and the
/// position the scan stopped at. The batch holds up to `batch_size` entries;
/// a batch shorter than `batch_size` means the log is exhausted.
#[verifier::loop_isolation(false)]
pub fn read_table_batch(
    wal: &Wal,
    table_id: u64,
    start_exclusive: u64,
    pos: usize,
    batch_size: usize,
) -> (r: (Vec<LogEntry>, usize))
    requires
        pos <= wal@.len(),
    ensures
        pos <= r.1 <= wal@.len(),
        r.0.deep_view() == entries_of_after(
            wal@.subrange(pos as int, r.1 as int),
            table_id,
            start_exclusive,
        ),
        r.0.len() <= batch_size,
        r.0.len() == batch_size || r.1 == wal@.len(),
        r.0.len() > 0 ==> r.1 > pos,
{
    let mut batch: Vec<LogEntry> = Vec::new();
    let mut i: usize = pos;
    while i < wal.entries.len() && batch.len() < batch_size
        invariant
            pos <= i <= wal@.len(),
            batch.len() <= batch_size,
            batch.deep_view() == entries_of_after(
                wal@.subrange(pos as int, i as int),
                table_id,
                start_exclusive,
            ),
            batch.len() > 0 ==> i > pos,
        decreases wal@.len() - i,
    {
        let e = &wal.entries[i];
        let ghost prev = batch.deep_view();
        proof {
            assert(e@ == wal@[i as int]);
            assert(wal@.subrange(pos as int, i + 1) =~= wal@.subrange(pos as int, i as int)
                + seq![wal@[i as int]]);
            lemma_entries_of_after_concat(
                wal@.subrange(pos as int, i as int),
                seq![wal@[i as int]],
                table_id,
                start_exclusive,
            );
            assert(seq![wal@[i as int]].drop_first() =~= Seq::<LogEntryV>::empty());
            assert(entries_of_after(Seq::<LogEntryV>::empty(), table_id, start_exclusive)
                =~= Seq::<LogEntryV>::empty());
            assert(entries_of_after(seq![wal@[i as int]], table_id, start_exclusive) =~= (
            if wal@[i as int].table_id == table_id && wal@[i as int].sequence > start_exclusive {
                seq![wal@[i as int]]
            } else {
                Seq::<LogEntryV>::empty()
            }));
        }
        if e.table_id == table_id && e.sequence > start_exclusive {
            batch.push(e.clone());
            proof {
                assert(batch.deep_view() =~= prev.push(wal@[i as int]));
                assert(batch.deep_view() =~= entries_of_after(
                    wal@.subrange(pos as int, i + 1),
                    table_id,
                    start_exclusive,
                ));
            }
        } else {
            proof {
                assert(batch.deep_view() =~= entries_of_after(
                    wal@.subrange(pos as int, i + 1),
                    table_id,
                    start_exclusive,
                ));
            }
        }
        i = i + 1;
    }
    (batch, i)
}

/// True iff `ids` holds `id`.
#[verifier::loop_isolation(false)]
pub fn ids_contain(ids: &Vec<u64>, id: u64) -> (r: bool)
    ensures
        r == ids@.contains(id),
{
    let mut i: usize = 0;
    while i < ids.len()
        invariant
            i <= ids@.len(),
            forall|j: int| 0 <= j < i ==> ids@[j] != id,
        decreases ids@.len() - i,
    {
        if ids[i] == id {
            return true;
        }
        i = i + 1;
    }
    false
}

/// Pulls the next batch of the region scan: every entry whose table is one
/// of `ids`, in physical log order, scanning from `pos`. Returns the batch
/// and the position the scan stopped at, as [`read_table_batch`] does.
#[verifier::loop_isolation(false)]
pub fn read_region_batch(wal: &Wal, ids: &Vec<u64>, pos: usize, batch_size: usize) -> (r: (
    Vec<LogEntry>,
    usize,
))
    requires
        pos <= wal@.len(),
    ensures
        pos <= r.1 <= wal@.len(),
        r.0.deep_view() == entries_of_tables(wal@.subrange(pos as int, r.1 as int), ids@),
        r.0.len() <= batch_size,
        r.0.len() == batch_size || r.1 == wal@.len(),
        r.0.len() > 0 ==> r.1 > pos,
{
    let mut batch: Vec<LogEntry> = Vec::new();
    let mut i: usize = pos;
    while i < wal.entries.len() && batch.len() < batch_size
        invariant
            pos <= i <= wal@.len(),
            batch.len() <= batch_size,
            batch.deep_view() == entries_of_tables(
                wal@.subrange(pos as int, i as int),
                ids@,
            ),
            batch.len() > 0 ==> i > pos,
        decreases wal@.len() - i,
    {
        let e = &wal.entries[i];
        let ghost prev = batch.deep_view();
        proof {
            assert(e@ == wal@[i as int]);
            assert(wal@.subrange(pos as int, i + 1) =~= wal@.subrange(pos as int, i as int)
                + seq![wal@[i as int]]);
            lemma_entries_of_tables_concat(
                wal@.subrange(pos as int, i as int),
                seq![wal@[i as int]],
                ids@,
            );
            assert(seq![wal@[i as int]].drop_first() =~= Seq::<LogEntryV>::empty());
            assert(entries_of_tables(Seq::<LogEntryV>::empty(), ids@)
                =~= Seq::<LogEntryV>::empty());
            assert(entries_of_tables(seq![wal@[i as int]], ids@) =~= (
            if ids@.contains(wal@[i as int].table_id) {
                seq![wal@[i as int]]
            } else {
                Seq::<LogEntryV>::empty()
            }));
        }
        if ids_contain(ids, e.table_id) {
            batch.push(e.clone());
            proof {
                assert(batch.deep_view() =~= prev.push(wal@[i as int]));
                assert(batch.deep_view() =~= entries_of_tables(
                    wal@.subrange(pos as int, i + 1),
                    ids@,
                ));
            }
        } else {
            proof {
                assert(batch.deep_view() =~= entries_of_tables(
                    wal@.subrange(pos as int, i + 1),
                    ids@,
                ));
            }
        }
        i = i + 1;
    }
    (batch, i)
}

/// One table's entry stream inherits the WAL guarantee: it holds only
/// that table's entries, each taken from the log, with strictly
/// increasing sequences.
pub proof fn lemma_entries_of_ascending(es: Seq<LogEntryV>, table_id: u64)
    requires
        wal_sequences_ascending(es),
    ensures
        forall|k: int|
            0 <= k < entries_of(es, table_id).len() ==> (#[trigger] entries_of(es, table_id)[k])
                .table_id == table_id,
        forall|j: int|
            0 <= j < entries_of(es, table_id).len() ==> exists|i: int|
                0 <= i < es.len() && (#[trigger] es[i]) == (#[trigger] entries_of(
                    es,
                    table_id,
                )[j]),
        forall|p: int, q: int|
            0 <= p < q < entries_of(es, table_id).len() ==> entries_of(es, table_id)[p].sequence
                < entries_of(es, table_id)[q].sequence,
    decreases es.len(),
{
    if es.len() > 0 {
        let e = es[0];
        let rest = es.drop_first();
        let proj = entries_of(es, table_id);
        let proj_rest = entries_of(rest, table_id);
        assert forall|p: int, q: int|
            0 <= p < q < rest.len() && rest[p].table_id == rest[q].table_id implies rest[p]
            .sequence < rest[q].sequence by {
            assert(rest[p] == es[p + 1]);
            assert(rest[q] == es[q + 1]);
        }
        lemma_entries_of_ascending(rest, table_id);
        if e.table_id == table_id {
            assert(proj =~= seq![e] + proj_rest);
            assert forall|j: int| 0 <= j < proj.len() implies exists|i: int|
                0 <= i < es.len() && (#[trigger] es[i]) == (#[trigger] proj[j]) by {
                if j == 0 {
                    assert(es[0] == proj[0]);
                } else {
                    let i0 = choose|i0: int|
                        0 <= i0 < rest.len() && (#[trigger] rest[i0]) == proj_rest[j - 1];
                    assert(es[i0 + 1] == proj[j]);
                }
            }
            assert forall|p: int, q: int| 0 <= p < q < proj.len() implies proj[p].sequence
                < proj[q].sequence by {
                if p == 0 {
                    let i0 = choose|i0: int|
                        0 <= i0 < rest.len() && (#[trigger] rest[i0]) == proj_rest[q - 1];
                    assert(es[i0 + 1] == proj[q]);
                    assert(es[0].table_id == es[i0 + 1].table_id);
                } else {
                    assert(proj[p] == proj_rest[p - 1]);
                    assert(proj[q] == proj_rest[q - 1]);
                }
            }
        } else {
            assert(proj =~= proj_rest);
            assert forall|j: int| 0 <= j < proj.len() implies exists|i: int|
                0 <= i < es.len() && (#[trigger] es[i]) == (#[trigger] proj[j]) by {
                let i0 = choose|i0: int|
                    0 <= i0 < rest.len() && (#[trigger] rest[i0]) == proj_rest[j];
                assert(es[i0 + 1] == proj[j]);
            }
        }
    }
}

} // verus!
