use rust_database::{DatabaseConfig, DatabaseError, EntryType, LogRecord, MyDatabase};

fn config(max_size: u64) -> DatabaseConfig {
    let mut c = DatabaseConfig::new();
    c.max_size = max_size;
    c
}

fn empty_store(max_size: u64) -> MyDatabase {
    match MyDatabase::new(config(max_size), Vec::new()) {
        Ok(db) => db,
        Err(e) => panic!("open failed: {:?}", e),
    }
}

fn records(db: &MyDatabase) -> Vec<LogRecord> {
    let mut it = db.log_iter().unwrap();
    let mut out = Vec::new();
    while let Some(r) = it.next() {
        out.push(r.unwrap());
    }
    out
}

#[test]
fn set_then_get_returns_value() {
    let mut db = empty_store(0);
    db.set(b"nom".to_vec(), b"rustacean".to_vec()).unwrap();
    assert_eq!(db.get(b"nom").unwrap(), Some(b"rustacean".to_vec()));
}

#[test]
fn three_writes_keep_three_data_frames() {
    let mut db = empty_store(1024 * 1024);
    db.set(b"k".to_vec(), b"a".to_vec()).unwrap();
    db.set(b"k".to_vec(), b"bb".to_vec()).unwrap();
    db.set(b"k".to_vec(), b"ccc".to_vec()).unwrap();
    assert_eq!(db.get(b"k").unwrap(), Some(b"ccc".to_vec()));
    let recs = records(&db);
    assert_eq!(recs.len(), 3);
    assert!(recs.iter().all(|r| r.entry_type == EntryType::Data && r.key == b"k".to_vec()));
    let placed: Vec<(u64, u32, usize)> = recs.iter().map(|r| (r.offset, r.size, r.value_len)).collect();
    assert_eq!(placed, vec![(0, 17, 3), (17, 18, 4), (35, 19, 5)]);
    assert!(recs.iter().all(|r| r.checksum_ok));
}

#[test]
fn delete_writes_a_tombstone() {
    let mut db = empty_store(0);
    db.set(b"x".to_vec(), b"1".to_vec()).unwrap();
    db.delete(b"x".to_vec()).unwrap();
    assert_eq!(db.get(b"x").unwrap(), None);
    let recs = records(&db);
    assert_eq!(recs.len(), 2);
    assert_eq!(recs[0].entry_type, EntryType::Data);
    assert_eq!(recs[1].entry_type, EntryType::Tombstone);
    assert_eq!(recs[1].key, b"x".to_vec());
    assert_eq!((recs[0].offset, recs[0].size, recs[0].value_len), (0, 17, 3));
    assert_eq!((recs[1].offset, recs[1].size, recs[1].value_len), (17, 14, 0));
}

#[test]
fn automatic_compaction_bounds_the_log() {
    let mut db = empty_store(128);
    for _ in 0..50 {
        db.set(b"k".to_vec(), b"0123456789".to_vec()).unwrap();
    }
    // A data frame here is 26 bytes: 13 of header and checksum, the key, and
    // a literal chunk of two bytes plus the ten value bytes. The fifth write
    // reaches 130 bytes and compacts the log to one frame; so does every
    // fourth write after it, and the fiftieth leaves two frames.
    assert_eq!(db.log_len(), 52);
    assert!(db.log_len() < 128);
    assert_eq!(db.copy_log()[..26], db.copy_log()[26..]);
    assert_eq!(db.get(b"k").unwrap(), Some(b"0123456789".to_vec()));
}

#[test]
fn reopen_then_compact_keeps_latest_values_in_offset_order() {
    let mut db = empty_store(0);
    db.set(b"a".to_vec(), b"1".to_vec()).unwrap();
    db.set(b"b".to_vec(), b"2".to_vec()).unwrap();
    db.set(b"a".to_vec(), b"3".to_vec()).unwrap();
    let mut db = MyDatabase::new(config(0), db.copy_log()).unwrap();
    assert_eq!(db.get(b"a").unwrap(), Some(b"3".to_vec()));
    assert_eq!(db.get(b"b").unwrap(), Some(b"2".to_vec()));
    db.compact().unwrap();
    let recs = records(&db);
    assert_eq!(recs.len(), 2);
    assert!(recs.iter().all(|r| r.entry_type == EntryType::Data && r.checksum_ok));
    assert_eq!(recs[0].key, b"b".to_vec());
    assert_eq!(recs[1].key, b"a".to_vec());
    assert_eq!((recs[0].offset, recs[0].size), (0, 17));
    assert_eq!((recs[1].offset, recs[1].size), (17, 17));
    assert_eq!(db.get(b"a").unwrap(), Some(b"3".to_vec()));
    assert_eq!(db.get(b"b").unwrap(), Some(b"2".to_vec()));
}

#[test]
fn last_write_wins_over_many_writes() {
    let mut db = empty_store(0);
    for i in 0..20u8 {
        db.set(b"key".to_vec(), vec![i; (i as usize) + 1]).unwrap();
    }
    assert_eq!(db.get(b"key").unwrap(), Some(vec![19u8; 20]));
}

#[test]
fn set_after_delete_reads_new_value() {
    let mut db = empty_store(0);
    db.set(b"k".to_vec(), b"old".to_vec()).unwrap();
    db.delete(b"k".to_vec()).unwrap();
    assert_eq!(db.get(b"k").unwrap(), None);
    db.set(b"k".to_vec(), b"new".to_vec()).unwrap();
    assert_eq!(db.get(b"k").unwrap(), Some(b"new".to_vec()));
}

#[test]
fn reopen_reads_every_key_as_before() {
    let mut db = empty_store(0);
    db.set(b"one".to_vec(), b"1".to_vec()).unwrap();
    db.set(b"two".to_vec(), b"2".to_vec()).unwrap();
    db.delete(b"one".to_vec()).unwrap();
    db.set(b"three".to_vec(), b"3".to_vec()).unwrap();
    let again = MyDatabase::new(config(0), db.copy_log()).unwrap();
    for k in [&b"one"[..], b"two", b"three", b"four"] {
        assert_eq!(again.get(k).unwrap(), db.get(k).unwrap());
    }
    assert_eq!(again.log_len(), db.log_len());
}

#[test]
fn compaction_keeps_reads_and_drops_tombstones() {
    let mut db = empty_store(0);
    db.set(b"a".to_vec(), b"apple".to_vec()).unwrap();
    db.set(b"b".to_vec(), b"banana".to_vec()).unwrap();
    db.set(b"a".to_vec(), b"avocado".to_vec()).unwrap();
    db.delete(b"b".to_vec()).unwrap();
    db.set(b"c".to_vec(), b"cherry".to_vec()).unwrap();
    let before = db.log_len();
    db.compact().unwrap();
    assert!(db.log_len() < before);
    assert_eq!(db.get(b"a").unwrap(), Some(b"avocado".to_vec()));
    assert_eq!(db.get(b"b").unwrap(), None);
    assert_eq!(db.get(b"c").unwrap(), Some(b"cherry".to_vec()));
    let recs = records(&db);
    assert_eq!(recs.len(), 2);
    assert!(recs.iter().all(|r| r.entry_type == EntryType::Data));
    assert_eq!(recs[0].key, b"a".to_vec());
    assert_eq!(recs[1].key, b"c".to_vec());
}

#[test]
fn compaction_of_compacted_log_changes_nothing() {
    let mut db = empty_store(0);
    db.set(b"x".to_vec(), b"1".to_vec()).unwrap();
    db.set(b"y".to_vec(), b"2".to_vec()).unwrap();
    db.compact().unwrap();
    let first = db.copy_log();
    db.compact().unwrap();
    assert_eq!(db.copy_log(), first);
}

#[test]
fn delete_of_unknown_key_writes_tombstone() {
    let mut db = empty_store(0);
    db.delete(b"ghost".to_vec()).unwrap();
    assert_eq!(db.get(b"ghost").unwrap(), None);
    assert_eq!(records(&db).len(), 1);
}

#[test]
fn get_of_unknown_key_is_absent() {
    let db = empty_store(0);
    assert_eq!(db.get(b"missing").unwrap(), None);
}

#[test]
fn corrupted_checksum_refuses_open() {
    let mut db = empty_store(0);
    db.set(b"a".to_vec(), b"1".to_vec()).unwrap();
    let first_end = db.log_len();
    db.set(b"b".to_vec(), b"2".to_vec()).unwrap();
    let second_end = db.log_len();
    db.set(b"c".to_vec(), b"3".to_vec()).unwrap();
    let mut log = db.copy_log();
    // The checksum of the last-but-one frame.
    assert!(second_end - 4 > first_end);
    log[second_end - 1] ^= 0xff;
    match MyDatabase::new(config(0), log) {
        Err(DatabaseError::CorruptedData) => {}
        other => panic!("expected CorruptedData, got {:?}", other.map(|_| ())),
    }
}

#[test]
fn corrupted_payload_refuses_open() {
    let mut db = empty_store(0);
    db.set(b"a".to_vec(), b"hello".to_vec()).unwrap();
    db.set(b"b".to_vec(), b"2".to_vec()).unwrap();
    let mut log = db.copy_log();
    log[11] = log[11].wrapping_add(1);
    assert!(matches!(MyDatabase::new(config(0), log), Err(DatabaseError::CorruptedData)));
}

#[test]
fn torn_tail_is_ignored_on_open() {
    let mut db = empty_store(0);
    db.set(b"a".to_vec(), b"1".to_vec()).unwrap();
    let whole = db.log_len();
    db.set(b"b".to_vec(), b"22".to_vec()).unwrap();
    let log = db.copy_log();
    for cut in [whole + 1, whole + 5, whole + 9, whole + 12, log.len() - 1] {
        let reopened = MyDatabase::new(config(0), log[..cut].to_vec()).unwrap();
        assert_eq!(reopened.log_len(), whole);
        assert_eq!(reopened.get(b"a").unwrap(), Some(b"1".to_vec()));
        assert_eq!(reopened.get(b"b").unwrap(), None);
    }
}

#[test]
fn unknown_kind_byte_refuses_open() {
    let mut db = empty_store(0);
    db.set(b"a".to_vec(), b"1".to_vec()).unwrap();
    let whole = db.log_len();
    db.set(b"b".to_vec(), b"2".to_vec()).unwrap();
    let mut log = db.copy_log();
    log[whole] = 7;
    assert!(matches!(MyDatabase::new(config(0), log), Err(DatabaseError::InvalidFormat)));
}

#[test]
fn log_reader_reports_offsets_sizes_and_stops_after_fault() {
    let mut db = empty_store(0);
    db.set(b"key".to_vec(), b"value".to_vec()).unwrap();
    db.delete(b"key".to_vec()).unwrap();
    let recs = records(&db);
    assert_eq!(recs[0].offset, 0);
    assert_eq!(recs[0].size, 13 + 3 + 7);
    assert_eq!(recs[0].value_len, 7);
    assert_eq!(recs[1].offset, 23);
    assert_eq!(recs[1].size, 16);
    assert_eq!(recs[1].value_len, 0);
    assert!(recs[1].checksum_ok);

    let mut log = db.copy_log();
    log.extend_from_slice(&[9u8; 12]);
    let mut it = rust_database::LogIter::new(log);
    assert!(matches!(it.next(), Some(Ok(_))));
    assert!(matches!(it.next(), Some(Ok(_))));
    assert!(matches!(it.next(), Some(Err(DatabaseError::InvalidFormat))));
    assert!(it.next().is_none());
}

#[test]
fn log_reader_flags_bad_checksum() {
    let mut db = empty_store(0);
    db.set(b"k".to_vec(), b"v".to_vec()).unwrap();
    let mut log = db.copy_log();
    let last = log.len() - 1;
    log[last] ^= 1;
    let mut it = rust_database::LogIter::new(log);
    let rec = it.next().unwrap().unwrap();
    assert!(!rec.checksum_ok);
    assert!(it.next().is_none());
}

#[test]
fn default_configuration() {
    let c = DatabaseConfig::new();
    assert_eq!(c.file_path, "database.db");
    assert_eq!(c.max_size, 1024 * 1024);
    let d = DatabaseConfig::default();
    assert_eq!(d.file_path, c.file_path);
    assert_eq!(d.max_size, c.max_size);
}
