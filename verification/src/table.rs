//! Per-table state: sequence counters, schema version, the memtable, and
//! the flush bookkeeping replay drives.
//!
//! A table's mutation path is single-writer: whoever holds `&mut TableState`
//! stands where the per-table serial executor stands in the running engine,
//! and keeps exclusive write access for the whole time it is held.

use vstd::prelude::*;

use crate::memtable::MemTable;
use crate::memtable::MemTableV;

verus! {

/// A request handed to the external flusher. Scheduling is asynchronous:
/// recording the request stands for queueing it; no result channel is
/// attached during replay.
#[derive(Clone, Copy, Debug, PartialEq, Eq, Structural)]
pub struct FlushRequest {
    pub max_retry_flush_limit: usize,
}

/// The in-memory state of one table.
pub struct TableState {
    /// Stable identity.
    pub id: u64,
    /// Mutable human name.
    pub name: String,
    /// Current schema version; writes carrying another version are skipped
    /// during replay.
    pub schema_version: u32,
    /// Highest sequence ever observed.
    pub last_sequence: u64,
    /// Highest sequence already durable in an SST.
    pub flushed_sequence: u64,
    /// The buffer of recent writes.
    pub mem: MemTable,
    /// True iff a flush is already scheduled or running.
    pub in_flush: bool,
    /// Flush requests recorded for the external flusher, oldest first.
    pub flush_requests: Vec<FlushRequest>,
    /// Row count at which the table asks for a flush.
    pub flush_threshold_rows: usize,
}

/// Spec-level image of a [`TableState`].
#[verifier::ext_equal]
pub struct TableV {
    pub id: u64,
    pub name: Seq<char>,
    pub schema_version: u32,
    pub last_sequence: u64,
    pub flushed_sequence: u64,
    pub mem: MemTableV,
    pub in_flush: bool,
    pub flush_requests: Seq<FlushRequest>,
    pub flush_threshold_rows: usize,
}

impl View for TableState {
    type V = TableV;

    open spec fn view(&self) -> TableV {
        TableV {
            id: self.id,
            name: self.name@,
            schema_version: self.schema_version,
            last_sequence: self.last_sequence,
            flushed_sequence: self.flushed_sequence,
            mem: self.mem@,
            in_flush: self.in_flush,
            flush_requests: self.flush_requests@,
            flush_threshold_rows: self.flush_threshold_rows,
        }
    }
}

impl DeepView for TableState {
    type V = TableV;

    open spec fn deep_view(&self) -> TableV {
        self@
    }
}

/// Whether replayed data must be flushed now: the buffer reached the
/// threshold and no flush is in flight.
pub open spec fn should_flush_spec(t: TableV, in_flush: bool) -> bool {
    !in_flush && t.mem.rows.len() >= t.flush_threshold_rows
}

impl TableState {
    /// A fresh table as the shard opener materializes it: empty memtable,
    /// counters as recovered from the manifest.
    pub fn new(
        id: u64,
        name: String,
        schema_version: u32,
        flushed_sequence: u64,
        max_key_size: usize,
        capacity_rows: usize,
        flush_threshold_rows: usize,
    ) -> (r: TableState)
        ensures
            r@.id == id,
            r@.name == name@,
            r@.schema_version == schema_version,
            r@.last_sequence == flushed_sequence,
            r@.flushed_sequence == flushed_sequence,
            r@.mem.rows == Seq::<crate::memtable::MemRowV>::empty(),
            r@.mem.max_key_size == max_key_size,
            r@.mem.capacity_rows == capacity_rows,
            r@.in_flush == false,
            r@.flush_requests == Seq::<FlushRequest>::empty(),
            r@.flush_threshold_rows == flush_threshold_rows,
    {
        let r = TableState {
            id,
            name,
            schema_version,
            last_sequence: flushed_sequence,
            flushed_sequence,
            mem: MemTable::new(max_key_size, capacity_rows),
            in_flush: false,
            flush_requests: Vec::new(),
            flush_threshold_rows,
        };
        proof {
            assert(r@.flush_requests =~= Seq::<FlushRequest>::empty());
        }
        r
    }

    /// Whether replayed data must be flushed, given whether a flush is
    /// already in flight.
    pub fn should_flush_table(&self, in_flush: bool) -> (r: bool)
        ensures
            r == should_flush_spec(self@, in_flush),
    {
        !in_flush && self.mem.num_rows() >= self.flush_threshold_rows
    }
}

} // verus!
