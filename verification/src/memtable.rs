//! Model of the in-memory buffer of recent writes (the memtable).
//!
//! A memtable holds rows keyed by `(sequence, key)`: multi-version storage
//! keeps one version of a row per write, so re-inserting the same pair
//! overwrites rather than duplicates. Two limits bound an insert: a row
//! whose key is longer than `max_key_size` is refused with `KeyTooLarge`
//! (the replay path drops such an entry and goes on), and a row group that
//! would push the table past `capacity_rows` is refused atomically with
//! `Full` (the arena is exhausted; replay of the table aborts).

use vstd::prelude::*;

use crate::wal::RowV;
use crate::wal::Row;

verus! {

/// One stored row version: the WAL sequence that wrote it, the row key and
/// the encoded columns.
pub struct MemRow {
    pub sequence: u64,
    pub key: Vec<u8>,
    pub value: Vec<u8>,
}

/// Spec-level image of a [`MemRow`].
#[verifier::ext_equal]
pub struct MemRowV {
    pub sequence: u64,
    pub key: Seq<u8>,
    pub value: Seq<u8>,
}

impl View for MemRow {
    type V = MemRowV;

    open spec fn view(&self) -> MemRowV {
        MemRowV { sequence: self.sequence, key: self.key@, value: self.value@ }
    }
}

impl DeepView for MemRow {
    type V = MemRowV;

    open spec fn deep_view(&self) -> MemRowV {
        self@
    }
}

impl Clone for MemRow {
    fn clone(&self) -> (r: Self)
        ensures
            r@ == self@,
    {
        MemRow { sequence: self.sequence, key: self.key.clone(), value: self.value.clone() }
    }
}

/// Why a memtable insert was refused.
#[derive(Clone, Copy, Debug, PartialEq, Eq, Structural)]
pub enum WriteError {
    /// A row key exceeds the key-size limit. Recoverable: the entry is
    /// dropped and replay continues.
    KeyTooLarge,
    /// The row group does not fit in the remaining capacity. Fatal for the
    /// table being replayed.
    Full,
}

/// The in-memory buffer of one table.
pub struct MemTable {
    pub rows: Vec<MemRow>,
    pub max_key_size: usize,
    pub capacity_rows: usize,
}

/// Spec-level image of a [`MemTable`].
#[verifier::ext_equal]
pub struct MemTableV {
    pub rows: Seq<MemRowV>,
    pub max_key_size: usize,
    pub capacity_rows: usize,
}

impl View for MemTable {
    type V = MemTableV;

    open spec fn view(&self) -> MemTableV {
        MemTableV {
            rows: self.rows.deep_view(),
            max_key_size: self.max_key_size,
            capacity_rows: self.capacity_rows,
        }
    }
}

/// First position holding the version `(sequence, key)`, or `-1`.
pub open spec fn find_row(rows: Seq<MemRowV>, sequence: u64, key: Seq<u8>) -> int
    decreases rows.len(),
{
    if rows.len() == 0 {
        -1
    } else if rows[0].sequence == sequence && rows[0].key == key {
        0
    } else {
        let r = find_row(rows.drop_first(), sequence, key);
        if r < 0 {
            -1
        } else {
            r + 1
        }
    }
}

/// The found position is in bounds and holds the version looked for.
pub proof fn lemma_find_row_valid(rows: Seq<MemRowV>, sequence: u64, key: Seq<u8>)
    ensures
        find_row(rows, sequence, key) >= 0 ==> {
            let i = find_row(rows, sequence, key);
            &&& 0 <= i < rows.len()
            &&& rows[i].sequence == sequence
            &&& rows[i].key == key
        },
        find_row(rows, sequence, key) < 0 ==> forall|i: int|
            0 <= i < rows.len() ==> !(rows[i].sequence == sequence && rows[i].key == key),
    decreases rows.len(),
{
    if rows.len() > 0 {
        lemma_find_row_valid(rows.drop_first(), sequence, key);
        if find_row(rows, sequence, key) < 0 {
            assert forall|i: int|
                0 <= i < rows.len() implies !(rows[i].sequence == sequence && rows[i].key
                == key) by {
                if i > 0 {
                    assert(rows.drop_first()[i - 1] == rows[i]);
                }
            }
        }
    }
}

/// One row written at `sequence`, as stored.
pub open spec fn mem_row_of(sequence: u64, row: RowV) -> MemRowV {
    MemRowV { sequence, key: row.key, value: row.value }
}

/// Writes one row version: overwrites the stored version with the same
/// `(sequence, key)`, or appends a fresh one.
pub open spec fn upsert_row(rows: Seq<MemRowV>, row: MemRowV) -> Seq<MemRowV> {
    let i = find_row(rows, row.sequence, row.key);
    if i >= 0 {
        rows.update(i, row)
    } else {
        rows.push(row)
    }
}

/// Writes a whole row group at one sequence, left to right.
pub open spec fn upsert_rows(rows: Seq<MemRowV>, sequence: u64, group: Seq<RowV>) -> Seq<MemRowV>
    decreases group.len(),
{
    if group.len() == 0 {
        rows
    } else {
        upsert_rows(upsert_row(rows, mem_row_of(sequence, group[0])), sequence, group.drop_first())
    }
}

/// True iff some key of the group exceeds the key-size limit.
pub open spec fn group_exceeds_key_size(group: Seq<RowV>, max_key_size: usize) -> bool {
    exists|i: int| 0 <= i < group.len() && group[i].key.len() > max_key_size
}

/// What an insert of a row group returns, and the memtable it leaves
/// behind. An insert that fails leaves the memtable unchanged.
pub open spec fn mem_insert_spec(m: MemTableV, sequence: u64, group: Seq<RowV>) -> Result<
    MemTableV,
    WriteError,
> {
    if group_exceeds_key_size(group, m.max_key_size) {
        Err(WriteError::KeyTooLarge)
    } else {
        let rows2 = upsert_rows(m.rows, sequence, group);
        if rows2.len() > m.capacity_rows {
            Err(WriteError::Full)
        } else {
            Ok(MemTableV { rows: rows2, max_key_size: m.max_key_size, capacity_rows: m.capacity_rows })
        }
    }
}

/// True iff the two byte strings are equal.
#[verifier::loop_isolation(false)]
pub fn bytes_eq(a: &Vec<u8>, b: &Vec<u8>) -> (r: bool)
    ensures
        r == (a@ == b@),
{
    if a.len() != b.len() {
        proof {
            assert(a@.len() != b@.len());
        }
        return false;
    }
    let mut i: usize = 0;
    while i < a.len()
        invariant
            i <= a@.len(),
            forall|j: int| 0 <= j < i ==> a@[j] == b@[j],
        decreases a@.len() - i,
    {
        if a[i] != b[i] {
            return false;
        }
        i = i + 1;
    }
    proof {
        assert(a@ =~= b@);
    }
    true
}

impl MemTable {
    /// A fresh, empty memtable with the given limits.
    pub fn new(max_key_size: usize, capacity_rows: usize) -> (r: MemTable)
        ensures
            r@ == (MemTableV {
                rows: Seq::<MemRowV>::empty(),
                max_key_size,
                capacity_rows,
            }),
    {
        let r = MemTable { rows: Vec::new(), max_key_size, capacity_rows };
        proof {
            assert(r@.rows =~= Seq::<MemRowV>::empty());
            assert(r@ =~= (MemTableV {
                rows: Seq::<MemRowV>::empty(),
                max_key_size,
                capacity_rows,
            }));
        }
        r
    }

    /// How many row versions the table holds.
    pub fn num_rows(&self) -> (r: usize)
        ensures
            r == self@.rows.len(),
    {
        self.rows.len()
    }

    /// Inserts a row group written at `sequence`, atomically: on a refused
    /// insert nothing changes.
    #[verifier::loop_isolation(false)]
    pub fn insert(&mut self, sequence: u64, group: &Vec<Row>) -> (r: Result<(), WriteError>)
        ensures
            match r {
                Ok(()) => mem_insert_spec(old(self)@, sequence, group.deep_view()) == Ok::<
                    MemTableV,
                    WriteError,
                >(final(self)@),
                Err(e) => mem_insert_spec(old(self)@, sequence, group.deep_view()) == Err::<
                    MemTableV,
                    WriteError,
                >(e) && final(self)@ == old(self)@,
            },
    {
        // Key-size screen first: the writer validates keys before it
        // touches the buffer.
        let mut i: usize = 0;
        while i < group.len()
            invariant
                i <= group@.len(),
                forall|j: int| 0 <= j < i ==> group.deep_view()[j].key.len()
                    <= self@.max_key_size,
            decreases group@.len() - i,
        {
            if group[i].key.len() > self.max_key_size {
                proof {
                    assert(group.deep_view()[i as int].key.len() > self@.max_key_size);
                    assert(group_exceeds_key_size(group.deep_view(), self@.max_key_size));
                }
                return Err(WriteError::KeyTooLarge);
            }
            i = i + 1;
        }
        proof {
            assert(!group_exceeds_key_size(group.deep_view(), self@.max_key_size));
        }

        // Build the updated row list aside, so a refused insert leaves the
        // table untouched.
        let mut rows2: Vec<MemRow> = self.clone_rows_inner();
        let mut k: usize = 0;
        while k < group.len()
            invariant
                k <= group@.len(),
                rows2.deep_view() == upsert_rows(
                    self@.rows,
                    sequence,
                    group.deep_view().subrange(0, k as int),
                ),
            decreases group@.len() - k,
        {
            let row = &group[k];
            let stored = MemRow {
                sequence,
                key: row.key.clone(),
                value: row.value.clone(),
            };
            let ghost before = rows2.deep_view();
            let found = find_in(&rows2, sequence, &row.key);
            match found {
                Some(idx) => {
                    proof {
                        lemma_find_row_valid(before, sequence, row@.key);
                    }
                    rows2.set(idx, stored);
                },
                None => {
                    rows2.push(stored);
                },
            }
            proof {
                assert(rows2.deep_view() =~= upsert_row(before, mem_row_of(sequence, group.deep_view()[k as int])));
                lemma_upsert_rows_step(self@.rows, sequence, group.deep_view(), k as int);
            }
            k = k + 1;
        }
        proof {
            assert(group.deep_view().subrange(0, group@.len() as int) =~= group.deep_view());
        }

        if rows2.len() > self.capacity_rows {
            return Err(WriteError::Full);
        }
        self.rows = rows2;
        proof {
            assert(mem_insert_spec(old(self)@, sequence, group.deep_view()) == Ok::<
                MemTableV,
                WriteError,
            >(self@));
        }
        Ok(())
    }
}

/// First position in `rows` holding the version `(sequence, key)`, if any.
#[verifier::loop_isolation(false)]
fn find_in(rows: &Vec<MemRow>, sequence: u64, key: &Vec<u8>) -> (r: Option<usize>)
    ensures
        match r {
            Some(i) => find_row(rows.deep_view(), sequence, key@) == i,
            None => find_row(rows.deep_view(), sequence, key@) < 0,
        },
{
    let mut i: usize = 0;
    while i < rows.len()
        invariant
            i <= rows@.len(),
            find_row(rows.deep_view().subrange(0, i as int), sequence, key@) < 0,
        decreases rows@.len() - i,
    {
        let row = &rows[i];
        let ghost prefix = rows.deep_view().subrange(0, i as int);
        proof {
            assert(rows.deep_view().subrange(0, i + 1) =~= prefix.push(rows.deep_view()[i as int]));
            lemma_find_row_extend(prefix, rows.deep_view()[i as int], sequence, key@);
        }
        if row.sequence == sequence && bytes_eq(&row.key, key) {
            proof {
                lemma_find_row_prefix(rows.deep_view(), i as int, sequence, key@);
            }
            return Some(i);
        }
        i = i + 1;
    }
    proof {
        assert(rows.deep_view().subrange(0, rows@.len() as int) =~= rows.deep_view());
    }
    None
}

/// Extending a list that does not hold a version either finds it at the new
/// last slot or still does not find it.
pub proof fn lemma_find_row_extend(rows: Seq<MemRowV>, row: MemRowV, sequence: u64, key: Seq<u8>)
    requires
        find_row(rows, sequence, key) < 0,
    ensures
        find_row(rows.push(row), sequence, key) == if row.sequence == sequence && row.key == key {
            rows.len() as int
        } else {
            -1
        },
    decreases rows.len(),
{
    if rows.len() == 0 {
        assert(rows.push(row).drop_first() =~= Seq::<MemRowV>::empty());
        assert(find_row(Seq::<MemRowV>::empty(), sequence, key) == -1);
        assert(rows.push(row)[0] == row);
    } else {
        assert(rows.push(row)[0] == rows[0]);
        assert(rows.push(row).drop_first() =~= rows.drop_first().push(row));
        lemma_find_row_extend(rows.drop_first(), row, sequence, key);
    }
}

/// If the version is missing from a prefix and sits at its end, the whole
/// list finds it there.
pub proof fn lemma_find_row_prefix(rows: Seq<MemRowV>, i: int, sequence: u64, key: Seq<u8>)
    requires
        0 <= i < rows.len(),
        find_row(rows.subrange(0, i), sequence, key) < 0,
        rows[i].sequence == sequence,
        rows[i].key == key,
    ensures
        find_row(rows, sequence, key) == i,
    decreases i,
{
    if i == 0 {
    } else {
        assert(rows.subrange(0, i).drop_first() =~= rows.drop_first().subrange(0, i - 1));
        lemma_find_row_prefix(rows.drop_first(), i - 1, sequence, key);
    }
}

/// Unrolls one step of a left-to-right group write.
pub proof fn lemma_upsert_rows_step(rows: Seq<MemRowV>, sequence: u64, group: Seq<RowV>, k: int)
    requires
        0 <= k < group.len(),
    ensures
        upsert_rows(rows, sequence, group.subrange(0, k + 1)) == upsert_row(
            upsert_rows(rows, sequence, group.subrange(0, k)),
            mem_row_of(sequence, group[k]),
        ),
    decreases k,
{
    if k == 0 {
        assert(group.subrange(0, 1).drop_first() =~= Seq::<RowV>::empty());
        assert(group.subrange(0, 0) =~= Seq::<RowV>::empty());
        assert(upsert_rows(rows, sequence, group.subrange(0, 1)) == upsert_rows(
            upsert_row(rows, mem_row_of(sequence, group[0])),
            sequence,
            Seq::<RowV>::empty(),
        ));
    } else {
        assert(group.subrange(0, k + 1).drop_first() =~= group.drop_first().subrange(0, k));
        assert(group.subrange(0, k).drop_first() =~= group.drop_first().subrange(0, k - 1));
        assert(group.subrange(0, k + 1)[0] == group[0]);
        assert(group.subrange(0, k)[0] == group[0]);
        lemma_upsert_rows_step(
            upsert_row(rows, mem_row_of(sequence, group[0])),
            sequence,
            group.drop_first(),
            k - 1,
        );
        assert(group.drop_first()[k - 1] == group[k]);
    }
}

impl MemTable {
    /// A copy of the stored rows (used to stage an atomic insert).
    #[verifier::loop_isolation(false)]
    fn clone_rows_inner(&self) -> (r: Vec<MemRow>)
        ensures
            r.deep_view() == self@.rows,
    {
        let mut out: Vec<MemRow> = Vec::new();
        let mut i: usize = 0;
        while i < self.rows.len()
            invariant
                i <= self@.rows.len(),
                out.deep_view() == self@.rows.subrange(0, i as int),
            decreases self@.rows.len() - i,
        {
            out.push(self.rows[i].clone());
            proof {
                assert(out.deep_view() =~= self@.rows.subrange(0, i + 1));
            }
            i = i + 1;
        }
        proof {
            assert(self@.rows.subrange(0, self@.rows.len() as int) =~= self@.rows);
        }
        out
    }
}

/// No two stored rows share a `(sequence, key)` pair.
pub open spec fn rows_wf(rows: Seq<MemRowV>) -> bool {
    forall|p: int, q: int|
        0 <= p < q < rows.len() ==> !((#[trigger] rows[p]).sequence == (
        #[trigger] rows[q]).sequence && rows[p].key == rows[q].key)
}

/// True iff this exact row version is stored.
pub open spec fn row_in(rows: Seq<MemRowV>, row: MemRowV) -> bool {
    exists|i: int| 0 <= i < rows.len() && #[trigger] rows[i] == row
}

/// Writing one row version keeps versions unique.
pub proof fn lemma_upsert_row_wf(rows: Seq<MemRowV>, row: MemRowV)
    requires
        rows_wf(rows),
    ensures
        rows_wf(upsert_row(rows, row)),
{
    lemma_find_row_valid(rows, row.sequence, row.key);
    let i = find_row(rows, row.sequence, row.key);
    if i >= 0 {
        let upd = rows.update(i, row);
        assert forall|p: int, q: int| 0 <= p < q < upd.len() implies !((
        #[trigger] upd[p]).sequence == (#[trigger] upd[q]).sequence && upd[p].key
            == upd[q].key) by {
            if p != i && q != i {
                assert(upd[p] == rows[p]);
                assert(upd[q] == rows[q]);
            } else if p == i {
                assert(upd[q] == rows[q]);
                assert(rows[i].sequence == row.sequence && rows[i].key == row.key);
            } else {
                assert(upd[p] == rows[p]);
                assert(rows[i].sequence == row.sequence && rows[i].key == row.key);
            }
        }
    } else {
        let pushed = rows.push(row);
        assert forall|p: int, q: int| 0 <= p < q < pushed.len() implies !((
        #[trigger] pushed[p]).sequence == (#[trigger] pushed[q]).sequence && pushed[p].key
            == pushed[q].key) by {
            if q < rows.len() {
                assert(pushed[p] == rows[p]);
                assert(pushed[q] == rows[q]);
            } else {
                assert(pushed[q] == row);
                assert(pushed[p] == rows[p]);
            }
        }
    }
}

/// The version just written is stored afterwards.
pub proof fn lemma_upsert_row_present(rows: Seq<MemRowV>, row: MemRowV)
    ensures
        row_in(upsert_row(rows, row), row),
{
    lemma_find_row_valid(rows, row.sequence, row.key);
    let i = find_row(rows, row.sequence, row.key);
    if i >= 0 {
        assert(rows.update(i, row)[i] == row);
    } else {
        assert(rows.push(row)[rows.len() as int] == row);
    }
}

/// Writing one version leaves every version of another `(sequence, key)`
/// in place.
pub proof fn lemma_upsert_row_keeps_other(rows: Seq<MemRowV>, row: MemRowV, other: MemRowV)
    requires
        row_in(rows, other),
        !(other.sequence == row.sequence && other.key == row.key),
    ensures
        row_in(upsert_row(rows, row), other),
{
    lemma_find_row_valid(rows, row.sequence, row.key);
    let i = find_row(rows, row.sequence, row.key);
    let j = choose|j: int| 0 <= j < rows.len() && #[trigger] rows[j] == other;
    if i >= 0 {
        assert(rows[i].sequence == row.sequence && rows[i].key == row.key);
        assert(j != i);
        assert(rows.update(i, row)[j] == other);
    } else {
        assert(rows.push(row)[j] == other);
    }
}

/// No two rows of a group share a key.
pub open spec fn group_keys_distinct(group: Seq<RowV>) -> bool {
    forall|p: int, q: int|
        0 <= p < q < group.len() ==> (#[trigger] group[p]).key != (#[trigger] group[q]).key
}

/// Writing a whole group keeps versions unique.
pub proof fn lemma_upsert_rows_wf(rows: Seq<MemRowV>, sequence: u64, group: Seq<RowV>)
    requires
        rows_wf(rows),
    ensures
        rows_wf(upsert_rows(rows, sequence, group)),
    decreases group.len(),
{
    if group.len() > 0 {
        lemma_upsert_row_wf(rows, mem_row_of(sequence, group[0]));
        lemma_upsert_rows_wf(
            upsert_row(rows, mem_row_of(sequence, group[0])),
            sequence,
            group.drop_first(),
        );
    }
}

/// Writing a group at one sequence leaves rows of other sequences alone.
pub proof fn lemma_upsert_rows_keeps_other_seq(
    rows: Seq<MemRowV>,
    sequence: u64,
    group: Seq<RowV>,
    other: MemRowV,
)
    requires
        row_in(rows, other),
        other.sequence != sequence,
    ensures
        row_in(upsert_rows(rows, sequence, group), other),
    decreases group.len(),
{
    if group.len() > 0 {
        lemma_upsert_row_keeps_other(rows, mem_row_of(sequence, group[0]), other);
        lemma_upsert_rows_keeps_other_seq(
            upsert_row(rows, mem_row_of(sequence, group[0])),
            sequence,
            group.drop_first(),
            other,
        );
    }
}

/// After a group write, every row of the group is stored, provided the
/// group names each key once.
pub proof fn lemma_upsert_rows_present(rows: Seq<MemRowV>, sequence: u64, group: Seq<RowV>)
    requires
        group_keys_distinct(group),
    ensures
        forall|k: int|
            0 <= k < group.len() ==> row_in(
                upsert_rows(rows, sequence, group),
                mem_row_of(sequence, #[trigger] group[k]),
            ),
    decreases group.len(),
{
    if group.len() > 0 {
        let first = mem_row_of(sequence, group[0]);
        let rows1 = upsert_row(rows, first);
        lemma_upsert_row_present(rows, first);
        assert forall|p: int, q: int|
            0 <= p < q < group.drop_first().len() implies (
        #[trigger] group.drop_first()[p]).key != (#[trigger] group.drop_first()[q]).key by {
            assert(group.drop_first()[p] == group[p + 1]);
            assert(group.drop_first()[q] == group[q + 1]);
        }
        lemma_upsert_rows_present(rows1, sequence, group.drop_first());
        assert forall|k: int| 0 <= k < group.len() implies row_in(
            upsert_rows(rows, sequence, group),
            mem_row_of(sequence, #[trigger] group[k]),
        ) by {
            if k == 0 {
                lemma_upsert_rows_keeps_group_first(rows1, sequence, group, first);
            } else {
                assert(group.drop_first()[k - 1] == group[k]);
            }
        }
    }
}

/// Helper: the first written row survives the rest of its group, whose
/// keys all differ from it.
proof fn lemma_upsert_rows_keeps_group_first(
    rows1: Seq<MemRowV>,
    sequence: u64,
    group: Seq<RowV>,
    first: MemRowV,
)
    requires
        group.len() > 0,
        group_keys_distinct(group),
        first == mem_row_of(sequence, group[0]),
        row_in(rows1, first),
    ensures
        row_in(upsert_rows(rows1, sequence, group.drop_first()), first),
    decreases group.len(),
{
    if group.drop_first().len() > 0 {
        let rest = group.drop_first();
        assert(rest[0] == group[1]);
        assert(group[0].key != group[1].key);
        lemma_upsert_row_keeps_other(rows1, mem_row_of(sequence, rest[0]), first);
        assert forall|p: int, q: int| 0 <= p < q < rest.len() implies (
        #[trigger] rest[p]).key != (#[trigger] rest[q]).key by {
            assert(rest[p] == group[p + 1]);
            assert(rest[q] == group[q + 1]);
        }
        let shifted = seq![group[0]] + rest.drop_first();
        assert(shifted.drop_first() =~= rest.drop_first());
        assert(shifted[0] == group[0]);
        assert forall|p: int, q: int| 0 <= p < q < shifted.len() implies (
        #[trigger] shifted[p]).key != (#[trigger] shifted[q]).key by {
            if p == 0 {
                assert(shifted[q] == group[q + 1]);
            } else {
                assert(shifted[p] == group[p + 1]);
                assert(shifted[q] == group[q + 1]);
            }
        }
        lemma_upsert_rows_keeps_group_first(
            upsert_row(rows1, mem_row_of(sequence, rest[0])),
            sequence,
            shifted,
            first,
        );
    }
}

/// Re-writing versions already stored, with versions unique, changes
/// nothing.
pub proof fn lemma_upsert_rows_identity(rows: Seq<MemRowV>, sequence: u64, group: Seq<RowV>)
    requires
        rows_wf(rows),
        forall|k: int|
            0 <= k < group.len() ==> row_in(rows, mem_row_of(sequence, #[trigger] group[k])),
    ensures
        upsert_rows(rows, sequence, group) == rows,
    decreases group.len(),
{
    if group.len() > 0 {
        let first = mem_row_of(sequence, group[0]);
        lemma_find_row_valid(rows, first.sequence, first.key);
        let i = find_row(rows, first.sequence, first.key);
        let j = choose|j: int| 0 <= j < rows.len() && #[trigger] rows[j] == first;
        assert(i >= 0) by {
            if i < 0 {
                assert(rows[j].sequence == first.sequence && rows[j].key == first.key);
            }
        }
        assert(rows[i].sequence == first.sequence && rows[i].key == first.key);
        assert(i == j) by {
            if i != j {
                assert(rows[j].sequence == first.sequence && rows[j].key == first.key);
            }
        }
        assert(rows.update(i, first) =~= rows);
        assert(upsert_row(rows, first) == rows);
        assert forall|k: int|
            0 <= k < group.drop_first().len() implies row_in(
            rows,
            mem_row_of(sequence, #[trigger] group.drop_first()[k]),
        ) by {
            assert(group.drop_first()[k] == group[k + 1]);
        }
        lemma_upsert_rows_identity(rows, sequence, group.drop_first());
    }
}

} // verus!
