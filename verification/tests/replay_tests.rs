use horaedb_core::memtable::WriteError;
use horaedb_core::replay::FailedTables;
use horaedb_core::replay::RegionBasedReplay;
use horaedb_core::replay::ReplayContext;
use horaedb_core::replay::ReplayMode;
use horaedb_core::replay::TableBasedReplay;
use horaedb_core::replay::TableBatch;
use horaedb_core::replay::WalReplayer;
use horaedb_core::table::TableState;
use horaedb_core::wal::LogEntry;
use horaedb_core::wal::Payload;
use horaedb_core::wal::Row;
use horaedb_core::wal::Wal;

fn ctx(batch_size: usize) -> ReplayContext {
    ReplayContext {
        shard_id: 0,
        wal_replay_batch_size: batch_size,
        max_retry_flush_limit: 3,
    }
}

fn dummy_entry(table_id: u64, sequence: u64) -> LogEntry {
    LogEntry {
        table_id,
        sequence,
        payload: Payload::AlterOptions,
    }
}

fn write_entry(table_id: u64, sequence: u64, schema_version: u32, key: &[u8]) -> LogEntry {
    LogEntry {
        table_id,
        sequence,
        payload: Payload::Write {
            schema_version,
            rows: vec![Row {
                key: key.to_vec(),
                value: vec![1],
            }],
        },
    }
}

fn table(id: u64, flushed: u64) -> TableState {
    TableState::new(id, format!("table_{id}"), 1, flushed, 1024, 100_000, 100_000)
}

fn split(batch: &Vec<LogEntry>) -> Vec<TableBatch> {
    let mut out = Vec::new();
    RegionBasedReplay::split_log_batch_by_table(batch, &mut out);
    out.sort_by_key(|tb| tb.table_id);
    out
}

fn check_split_result(batch: &Vec<LogEntry>, expected: &[(u64, Vec<(usize, usize)>)]) {
    let got = split(batch);
    assert_eq!(got.len(), expected.len());
    for (tb, (id, ranges)) in got.iter().zip(expected.iter()) {
        assert_eq!(tb.table_id, *id);
        let got_ranges: Vec<(usize, usize)> = tb.ranges.iter().map(|r| (r.start, r.end)).collect();
        assert_eq!(&got_ranges, ranges);
    }
}

#[test]
fn test_split_log_batch_by_table() {
    // Three tables in three runs.
    let batch1 = vec![
        dummy_entry(0, 1),
        dummy_entry(0, 2),
        dummy_entry(0, 3),
        dummy_entry(1, 1),
        dummy_entry(1, 2),
        dummy_entry(2, 1),
    ];
    check_split_result(
        &batch1,
        &[(0, vec![(0, 3)]), (1, vec![(3, 5)]), (2, vec![(5, 6)])],
    );

    // A single entry.
    let batch2 = vec![dummy_entry(0, 1)];
    check_split_result(&batch2, &[(0, vec![(0, 1)])]);

    // The empty batch.
    let batch3: Vec<LogEntry> = Vec::new();
    check_split_result(&batch3, &[]);
}

#[test]
fn split_accumulates_repeated_tables() {
    // |1|1|2|2|2|3|3|3|3|1|1| -> 1:[0..2, 9..11], 2:[2..5], 3:[5..9]
    let batch = vec![
        dummy_entry(1, 1),
        dummy_entry(1, 2),
        dummy_entry(2, 1),
        dummy_entry(2, 2),
        dummy_entry(2, 3),
        dummy_entry(3, 1),
        dummy_entry(3, 2),
        dummy_entry(3, 3),
        dummy_entry(3, 4),
        dummy_entry(1, 3),
        dummy_entry(1, 4),
    ];
    check_split_result(
        &batch,
        &[
            (1, vec![(0, 2), (9, 11)]),
            (2, vec![(2, 5)]),
            (3, vec![(5, 9)]),
        ],
    );
}

fn run_mode(mode: ReplayMode, tables: Vec<TableState>, wal: &Wal) -> (Vec<TableState>, FailedTables) {
    let replayer = WalReplayer::new(tables, 0, 2, 3, mode);
    replayer.replay(wal)
}

#[test]
fn old_log_entries_are_skipped() {
    // flushed_sequence = 100; WAL holds 50, 101, 102: replay ends at 102
    // and the memtable holds only the rows of 101 and 102.
    for mode in [ReplayMode::TableBased, ReplayMode::RegionBased] {
        let wal = Wal {
            entries: vec![
                write_entry(7, 50, 1, b"old"),
                write_entry(7, 101, 1, b"k1"),
                write_entry(7, 102, 1, b"k2"),
            ],
        };
        let (tables, failed) = run_mode(mode, vec![table(7, 100)], &wal);
        assert!(!failed.contains(7));
        assert_eq!(tables[0].last_sequence, 102);
        let seqs: Vec<u64> = tables[0].mem.rows.iter().map(|r| r.sequence).collect();
        assert_eq!(seqs, vec![101, 102]);
    }
}

#[test]
fn replay_advances_to_highest_sequence() {
    // Per-table monotonicity on concrete values.
    let wal = Wal {
        entries: vec![
            write_entry(1, 1, 1, b"a"),
            write_entry(2, 1, 1, b"x"),
            write_entry(1, 2, 1, b"b"),
            write_entry(1, 3, 1, b"c"),
            write_entry(2, 2, 1, b"y"),
        ],
    };
    let (tables, failed) = run_mode(ReplayMode::RegionBased, vec![table(1, 0), table(2, 0)], &wal);
    assert!(!failed.contains(1));
    assert!(!failed.contains(2));
    assert_eq!(tables[0].last_sequence, 3);
    assert_eq!(tables[1].last_sequence, 2);
    assert_eq!(tables[0].mem.rows.len(), 3);
    assert_eq!(tables[1].mem.rows.len(), 2);
}

#[test]
fn ddl_entries_advance_but_write_nothing() {
    let wal = Wal {
        entries: vec![
            LogEntry { table_id: 1, sequence: 1, payload: Payload::AlterSchema },
            LogEntry { table_id: 1, sequence: 2, payload: Payload::AlterOptions },
        ],
    };
    let (tables, failed) = run_mode(ReplayMode::TableBased, vec![table(1, 0)], &wal);
    assert!(!failed.contains(1));
    assert_eq!(tables[0].last_sequence, 2);
    assert!(tables[0].mem.rows.is_empty());
}

#[test]
fn mismatched_schema_version_is_skipped() {
    // A write with another schema version is skipped without advancing.
    let wal = Wal {
        entries: vec![
            write_entry(1, 1, 1, b"good"),
            write_entry(1, 2, 9, b"bad"),
        ],
    };
    let (tables, failed) = run_mode(ReplayMode::TableBased, vec![table(1, 0)], &wal);
    assert!(!failed.contains(1));
    assert_eq!(tables[0].last_sequence, 1);
    assert_eq!(tables[0].mem.rows.len(), 1);
}

#[test]
fn oversized_key_drops_entry_but_advances() {
    let mut t = table(1, 0);
    t.mem.max_key_size = 4;
    let wal = Wal {
        entries: vec![
            write_entry(1, 1, 1, b"toolarge"),
            write_entry(1, 2, 1, b"ok"),
        ],
    };
    let (tables, failed) = run_mode(ReplayMode::TableBased, vec![t], &wal);
    assert!(!failed.contains(1));
    assert_eq!(tables[0].last_sequence, 2);
    let keys: Vec<Vec<u8>> = tables[0].mem.rows.iter().map(|r| r.key.clone()).collect();
    assert_eq!(keys, vec![b"ok".to_vec()]);
}

#[test]
fn full_memtable_fails_only_that_table() {
    // Isolation of failures on concrete values: table 1 overflows its
    // buffer, table 2 succeeds; 1 is in the failure map, 2 ends exactly
    // as in a replay where 1 did not exist.
    for mode in [ReplayMode::TableBased, ReplayMode::RegionBased] {
        let mut a = table(1, 0);
        a.mem.capacity_rows = 1;
        let b = table(2, 0);
        let wal = Wal {
            entries: vec![
                write_entry(1, 1, 1, b"a1"),
                write_entry(2, 1, 1, b"b1"),
                write_entry(1, 2, 1, b"a2"),
                write_entry(2, 2, 1, b"b2"),
            ],
        };
        let (tables, failed) = run_mode(mode, vec![a, b], &wal);
        let err = failed.get(1).expect("table 1 must fail");
        assert_eq!(err.table_id, 1);
        assert_eq!(err.sequence, 2);
        assert!(!failed.contains(2));
        // Table 1 keeps what it applied before the failure.
        assert_eq!(tables[0].last_sequence, 1);
        assert_eq!(tables[0].mem.rows.len(), 1);
        // Table 2 as if alone.
        let wal_b_only = Wal {
            entries: vec![write_entry(2, 1, 1, b"b1"), write_entry(2, 2, 1, b"b2")],
        };
        let (alone, alone_failed) = run_mode(mode, vec![table(2, 0)], &wal_b_only);
        assert!(!alone_failed.contains(2));
        assert_eq!(tables[1].last_sequence, alone[0].last_sequence);
        assert_eq!(tables[1].mem.rows.len(), alone[0].mem.rows.len());
    }
}

#[test]
fn both_strategies_agree() {
    let wal = Wal {
        entries: vec![
            write_entry(1, 1, 1, b"a"),
            write_entry(2, 5, 1, b"x"),
            write_entry(1, 2, 1, b"b"),
            LogEntry { table_id: 2, sequence: 6, payload: Payload::AlterSchema },
            write_entry(3, 9, 9, b"skewed"),
            write_entry(1, 3, 1, b"c"),
        ],
    };
    let mk = || vec![table(1, 0), table(2, 4), table(3, 0)];
    let (ta, fa) = run_mode(ReplayMode::TableBased, mk(), &wal);
    let (tb, fb) = run_mode(ReplayMode::RegionBased, mk(), &wal);
    for (x, y) in ta.iter().zip(tb.iter()) {
        assert_eq!(x.id, y.id);
        assert_eq!(x.last_sequence, y.last_sequence);
        let kx: Vec<(u64, Vec<u8>)> = x.mem.rows.iter().map(|r| (r.sequence, r.key.clone())).collect();
        let ky: Vec<(u64, Vec<u8>)> = y.mem.rows.iter().map(|r| (r.sequence, r.key.clone())).collect();
        assert_eq!(kx, ky);
    }
    for id in [1u64, 2, 3] {
        assert_eq!(fa.get(id), fb.get(id));
    }
}

#[test]
fn replay_twice_leaves_state_unchanged() {
    // Idempotence on concrete values: the second run re-applies the same
    // row versions and ends in the same state.
    let wal = Wal {
        entries: vec![
            write_entry(1, 1, 1, b"a"),
            write_entry(1, 2, 1, b"b"),
            write_entry(1, 3, 1, b"c"),
        ],
    };
    let (once, f1) = run_mode(ReplayMode::TableBased, vec![table(1, 0)], &wal);
    assert!(!f1.contains(1));
    let last = once[0].last_sequence;
    let rows: Vec<(u64, Vec<u8>)> = once[0].mem.rows.iter().map(|r| (r.sequence, r.key.clone())).collect();
    let (twice, f2) = run_mode(ReplayMode::TableBased, once, &wal);
    assert!(!f2.contains(1));
    assert_eq!(twice[0].last_sequence, last);
    let rows2: Vec<(u64, Vec<u8>)> = twice[0].mem.rows.iter().map(|r| (r.sequence, r.key.clone())).collect();
    assert_eq!(rows2, rows);
}

#[test]
fn flush_is_scheduled_once_at_threshold() {
    let mut t = table(1, 0);
    t.flush_threshold_rows = 1;
    let wal = Wal {
        entries: vec![write_entry(1, 1, 1, b"a"), write_entry(1, 2, 1, b"b")],
    };
    let (tables, failed) = run_mode(ReplayMode::TableBased, vec![t], &wal);
    assert!(!failed.contains(1));
    assert!(tables[0].in_flush);
    assert_eq!(tables[0].flush_requests.len(), 1);
    assert_eq!(tables[0].flush_requests[0].max_retry_flush_limit, 3);
}

#[test]
fn memtable_insert_reports_both_errors() {
    let mut t = table(1, 0);
    t.mem.max_key_size = 2;
    let big = vec![Row { key: b"abc".to_vec(), value: vec![] }];
    assert_eq!(t.mem.insert(1, &big), Err(WriteError::KeyTooLarge));
    let mut t2 = table(2, 0);
    t2.mem.capacity_rows = 0;
    let one = vec![Row { key: b"a".to_vec(), value: vec![] }];
    assert_eq!(t2.mem.insert(1, &one), Err(WriteError::Full));
    assert_eq!(t2.mem.rows.len(), 0);
}

#[test]
fn memtable_overwrites_same_version() {
    // Equal (sequence, key) pairs overwrite: re-inserting is harmless.
    let mut t = table(1, 0);
    let row = vec![Row { key: b"k".to_vec(), value: vec![1] }];
    assert_eq!(t.mem.insert(5, &row), Ok(()));
    assert_eq!(t.mem.insert(5, &row), Ok(()));
    assert_eq!(t.mem.rows.len(), 1);
}

#[test]
fn replayer_carries_context() {
    let replayer = WalReplayer::new(Vec::new(), 12, 64, 5, ReplayMode::RegionBased);
    assert_eq!(replayer.context.shard_id, 12);
    assert_eq!(replayer.context.wal_replay_batch_size, 64);
    assert_eq!(replayer.context.max_retry_flush_limit, 5);
    let wal = Wal { entries: Vec::new() };
    let (tables, failed) = replayer.replay(&wal);
    assert!(tables.is_empty());
    assert!(!failed.contains(0));
}

#[test]
fn small_batch_sizes_change_nothing() {
    // The batch size is an I/O knob, not a semantic one.
    let wal = Wal {
        entries: vec![
            write_entry(1, 1, 1, b"a"),
            write_entry(2, 1, 1, b"x"),
            write_entry(1, 2, 1, b"b"),
        ],
    };
    let mut results = Vec::new();
    for batch_size in [1usize, 2, 7] {
        let replayer = WalReplayer::new(
            vec![table(1, 0), table(2, 0)],
            0,
            batch_size,
            3,
            ReplayMode::RegionBased,
        );
        let (tables, _) = replayer.replay(&wal);
        results.push(
            tables
                .iter()
                .map(|t| (t.id, t.last_sequence, t.mem.rows.len()))
                .collect::<Vec<_>>(),
        );
    }
    assert_eq!(results[0], results[1]);
    assert_eq!(results[1], results[2]);
}

#[test]
fn context_is_plain_data() {
    let c = ctx(8);
    assert_eq!(c.wal_replay_batch_size, 8);
    let t = TableBasedReplay;
    let r = RegionBasedReplay;
    let _ = (t, r);
}
