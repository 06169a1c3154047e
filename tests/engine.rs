use largetable::base::Base;
use largetable::config::{default_disktable_limit, default_memtable_size_limit, ApplicationConfig, Mode};
use largetable::mtable::MTable;
use largetable::query::{MUpdate, Query, QueryResult};

fn stub() -> Base {
    Base::new("/tmp/largetable/test", 10485760, 10)
}

fn ups(pairs: &[(&str, &str)]) -> Vec<MUpdate> {
    pairs.iter().map(|(k, v)| MUpdate::new(k, v.as_bytes().to_vec())).collect()
}

fn shown(r: QueryResult) -> String {
    r.to_display_string()
}

fn sel(db: &mut Base, row: &str, cols: &[&str], t: u64) -> String {
    shown(db.query(Query::new_select(row, cols), t))
}

#[test]
fn can_merge_disktables() {
    let mut database = stub();
    assert_eq!(shown(database.query(Query::new_insert("dtable_one", ups(&[("status", "alright")])), 1)), "OK.");
    assert_eq!(shown(database.query(Query::new_insert("dtable_z", ups(&[("status", "working")])), 2)), "OK.");
    database.empty_memtable().unwrap();
    assert_eq!(shown(database.query(Query::new_insert("dtable_two", ups(&[("status", "ok")])), 3)), "OK.");
    database.empty_memtable().unwrap();
    database.merge_disktables().unwrap();
    assert_eq!(
        format!("{:?}", database.disktables[0].lookup.keys),
        r#"["dtable_one", "dtable_two", "dtable_z"]"#
    );
    assert_eq!(sel(&mut database, "dtable_two", &["status"], 4), r#"Data: ["ok"]"#);
}

#[test]
fn can_merge_colliding_disktables() {
    let mut database = stub();
    assert_eq!(shown(database.query(Query::new_insert("test_row", ups(&[("status", "old_status")])), 1)), "OK.");
    database.empty_memtable().unwrap();
    assert_eq!(shown(database.query(Query::new_update("test_row", ups(&[("status", "new_status")])), 2)), "OK.");
    database.empty_memtable().unwrap();
    database.merge_disktables().unwrap();
    assert_eq!(sel(&mut database, "test_row", &["status"], u64::MAX), r#"Data: ["new_status"]"#);
}

#[test]
fn can_multi_merge_disktables() {
    let mut database = stub();
    let mut clock = 1u64;
    for j in 0..4 {
        for i in 0..4 {
            let mut set: Vec<MUpdate> = (0..4)
                .map(|c| MUpdate::new(&format!("junk{}-{}-{}", j, i, c), vec![c as u8; 25]))
                .collect();
            set.push(MUpdate::new("canary", format!("ok:{}", i).into_bytes()));
            database.insert(&format!("row{}x{}", j, i), set, clock);
            clock += 1;
        }
        let t = 1000 + j as u64;
        database.update("zcanary_row", vec![MUpdate::new("canary", format!("ok:{}", t).into_bytes())], t);
        database.empty_memtable().unwrap();
    }
    database.merge_disktables().unwrap();
    for i in 0..4 {
        for j in 0..4 {
            assert_eq!(
                sel(&mut database, &format!("row{}x{}", i, j), &["canary"], u64::MAX),
                format!(r#"Data: ["ok:{}"]"#, j),
                "expected row{}x{} to contain data: ok:{}",
                i,
                j,
                j
            );
        }
    }
    assert_eq!(sel(&mut database, "zcanary_row", &["canary"], u64::MAX), r#"Data: ["ok:1003"]"#);
}

#[test]
fn can_save_and_reload_dtables() {
    let mut database = stub();
    assert_eq!(shown(database.query(Query::new_insert("dtable_checker", ups(&[("status", "alright")])), 1)), "OK.");
    database.empty_memtable().unwrap();
    let table = &database.disktables[0];
    assert_eq!(table.filename, "/tmp/largetable/test/1.dtable");
    let path = table.filename.clone();
    let header = table.header_bytes();
    let data = table.data.clone();
    let mut reloaded = Base::new("/tmp/largetable/test", 32 * (1 << 20), 3);
    reloaded.load_mtable(&database.commit_log).unwrap();
    reloaded.load_dtable(path, &header, data).unwrap();
    assert_eq!(reloaded.disktable_index, 1);
    assert_eq!(sel(&mut reloaded, "dtable_checker", &["status"], 2), r#"Data: ["alright"]"#);
}

#[test]
fn test_insert() {
    let mut database = Base::new("./data", 32 * (1 << 20), 3);
    let done = shown(QueryResult::Done);
    let row_not_found = shown(QueryResult::RowNotFound);
    assert_eq!(sel(&mut database, "non-row", &[], 1), row_not_found);
    assert_eq!(
        shown(database.query(Query::new_insert("non-row", ups(&[("date", "01-01-1970"), ("weight", "12 kg")])), 1)),
        done
    );
    assert_eq!(shown(database.query(Query::new_update("non-row", ups(&[("weight", "15 kg")])), 2)), done);
    assert_eq!(
        sel(&mut database, "non-row", &["date", "fate", "weight"], u64::MAX),
        r#"Data: ["01-01-1970", None, "15 kg"]"#
    );
}

#[test]
fn can_flush_and_query() {
    let mut database = stub();
    database.query(Query::new_insert("write_test", ups(&[("value", "OK")])), 1);
    database.query(Query::new_insert("write_test2", ups(&[("value", "OK")])), 2);
    database.empty_memtable().unwrap();
    assert_eq!(sel(&mut database, "write_test", &["value"], u64::MAX), r#"Data: ["OK"]"#);
}

#[test]
fn check_timestamp_select() {
    let mut database = stub();
    database.query(Query::new_insert("timestamp_test", ups(&[("clock", "dtable")])), 120);
    database.empty_memtable().unwrap();
    database.query(Query::new_update("timestamp_test", ups(&[("clock", "memtable"), ("clock2", "t=100")])), 100);
    assert_eq!(sel(&mut database, "timestamp_test", &["clock"], u64::MAX), r#"Data: ["dtable"]"#);
    assert_eq!(database.disktables[0].len(), 1);
    database.query(Query::new_update("timestamp_test", ups(&[("clock2", "t=90")])), 90);
    database.query(Query::new_update("timestamp_test", ups(&[("clock2", "t=95")])), 95);
    assert_eq!(sel(&mut database, "timestamp_test", &["clock2"], u64::MAX), r#"Data: ["t=100"]"#);
    database.query(Query::new_update("timestamp_test", ups(&[("clock2", "t=110")])), 110);
    assert_eq!(sel(&mut database, "timestamp_test", &["clock2"], u64::MAX), r#"Data: ["t=110"]"#);
    assert_eq!(sel(&mut database, "timestamp_test", &["clock2"], 105), r#"Data: ["t=100"]"#);
}

#[test]
fn can_write_and_restore_commit_log() {
    let mut database = stub();
    assert_eq!(shown(database.query(Query::new_insert("my_test_row", ups(&[("status", "OK")])), 1)), "OK.");
    database.memtable = MTable::new();
    assert_eq!(sel(&mut database, "my_test_row", &["status"], 2), shown(QueryResult::RowNotFound));
    let log = database.commit_log.clone();
    database.load_mtable(&log).unwrap();
    assert_eq!(sel(&mut database, "my_test_row", &["status"], 2), r#"Data: ["OK"]"#);
}

#[test]
fn automatic_minor_compaction() {
    let mut database = stub();
    database.disktable_limit = 2;
    database.memtable_size_limit = 5120;
    database.query(Query::new_insert("nonexistant_row", vec![MUpdate::new("data", vec![0; 1024])]), 1);
    assert_eq!(database.memtable.size, 1028);
    assert_eq!(database.disktables.len(), 0);
    database.query(Query::new_insert("yet another row", vec![MUpdate::new("data", vec![0; 5120])]), 2);
    assert_eq!(database.memtable.size, 0);
    assert_eq!(database.disktables.len(), 1);
}

#[test]
fn automatic_major_compaction() {
    let mut database = stub();
    database.disktable_limit = 2;
    database.memtable_size_limit = 5120;
    for i in 0..10 {
        database.query(Query::new_insert("yet another row", vec![MUpdate::new("data", vec![0; 5120])]), i + 1);
        assert!(database.disktables.len() <= 2, "Disktable limit exceeded.");
        assert!(database.memtable.size <= 5120, "Memtable size limit exceeded.");
    }
}

#[test]
fn select_on_empty_engine_is_row_not_found() {
    let mut database = stub();
    assert!(matches!(database.query(Query::new_select("x", &["a"]), 1), QueryResult::RowNotFound));
}

#[test]
fn select_of_no_columns() {
    let mut database = stub();
    database.insert("present", ups(&[("a", "1")]), 1);
    assert!(matches!(database.select("present", &[], 5), QueryResult::Data { ref columns } if columns.is_empty()));
    assert!(matches!(database.select("absent", &[], 5), QueryResult::RowNotFound));
}

#[test]
fn insert_checks_the_memtable_only() {
    let mut database = stub();
    assert!(matches!(database.insert("r", ups(&[("s", "a")]), 1), QueryResult::Done));
    assert!(matches!(database.insert("r", ups(&[("s", "b")]), 2), QueryResult::RowAlreadyExists));
    database.empty_memtable().unwrap();
    // the row is now only in a disk table: the memtable accepts it again
    assert!(matches!(database.insert("r", ups(&[("s", "c")]), 3), QueryResult::Done));
    assert_eq!(sel(&mut database, "r", &["s"], u64::MAX), r#"Data: ["c"]"#);
    assert_eq!(sel(&mut database, "r", &["s"], 2), r#"Data: ["a"]"#);
}

#[test]
fn timestamped_read_scenario() {
    let mut database = stub();
    database.insert("tt", ups(&[("clock", "dtable")]), 120);
    database.empty_memtable().unwrap();
    database.update("tt", ups(&[("clock", "memtable")]), 100);
    assert_eq!(sel(&mut database, "tt", &["clock"], u64::MAX), r#"Data: ["dtable"]"#);
    assert_eq!(sel(&mut database, "tt", &["clock"], 105), r#"Data: ["memtable"]"#);
    assert_eq!(sel(&mut database, "tt", &["clock"], 99), r#"Data: [None]"#);
}

#[test]
fn major_compaction_merges_colliding_rows() {
    let mut database = stub();
    database.insert("row", ups(&[("s", "old")]), 1);
    database.empty_memtable().unwrap();
    database.update("row", ups(&[("s", "new")]), 2);
    database.empty_memtable().unwrap();
    let before = sel(&mut database, "row", &["s"], 1);
    database.merge_disktables().unwrap();
    assert_eq!(database.disktables.len(), 1);
    assert_eq!(sel(&mut database, "row", &["s"], u64::MAX), r#"Data: ["new"]"#);
    assert_eq!(sel(&mut database, "row", &["s"], 1), before);
}

#[test]
fn second_flush_without_writes_gives_an_empty_table() {
    let mut database = stub();
    database.insert("a", ups(&[("s", "1")]), 1);
    database.empty_memtable().unwrap();
    database.empty_memtable().unwrap();
    assert_eq!(database.disktables.len(), 2);
    assert_eq!(database.disktables[1].len(), 0);
    assert_eq!(database.disktable_index, 2);
    assert_eq!(database.commit_log.len(), 0);
}

#[test]
fn commit_log_frames_each_write() {
    let mut database = stub();
    database.insert("r", ups(&[("s", "OK")]), 7);
    let log = database.commit_log.clone();
    // key (8 + 1), timestamp 8, count 8, column (8 + 1), value (8 + 2)
    let payload = 9 + 8 + 8 + 9 + 10;
    assert_eq!(log.len(), 4 + payload);
    assert_eq!(&log[0..4], &[payload as u8, 0, 0, 0]);
    assert_eq!(&log[4..12], &[1, 0, 0, 0, 0, 0, 0, 0]);
    assert_eq!(log[12], b'r');
    assert_eq!(&log[13..21], &[7, 0, 0, 0, 0, 0, 0, 0]);
}

#[test]
fn truncated_commit_log_is_corrupt() {
    let mut database = stub();
    database.insert("r", ups(&[("s", "OK")]), 1);
    let mut log = database.commit_log.clone();
    log.pop();
    let mut fresh = stub();
    assert!(fresh.load_mtable(&log).is_err());
    let mut fresh2 = stub();
    assert!(fresh2.load_mtable(&[1, 0]).is_err());
    let mut fresh3 = stub();
    assert!(fresh3.load_mtable(&[]).is_ok());
}

#[test]
fn disk_table_paths_are_checked() {
    let mut database = stub();
    database.insert("a", ups(&[("s", "1")]), 1);
    database.empty_memtable().unwrap();
    let t = &database.disktables[0];
    let header = t.header_bytes();
    let data = t.data.clone();
    let mut other = stub();
    assert!(other.load_dtable("/data/x.dtable".to_string(), &header, data.clone()).is_err());
    assert!(other.load_dtable("/data/99999999999.dtable".to_string(), &header, data.clone()).is_err());
    other.load_dtable("/data/17.dtable".to_string(), &header, data.clone()).unwrap();
    other.load_dtable("/data/4.dtable".to_string(), &header, data).unwrap();
    assert_eq!(other.disktable_index, 17);
    assert_eq!(other.disktables.len(), 2);
}

#[test]
fn config_defaults_and_modes() {
    let c = ApplicationConfig::defaults();
    assert_eq!(c.port, 8080);
    assert_eq!(c.datadirectory, "./data");
    assert_eq!(default_memtable_size_limit(), 32 * (1 << 20));
    assert_eq!(default_disktable_limit(), 10);
    assert_eq!(Mode::parse("TESTING"), Some(Mode::Testing));
    assert_eq!(Mode::parse("Production"), Some(Mode::Production));
    assert_eq!(Mode::parse("other"), None);
    assert_eq!(Mode::Testing.name(), "testing");
}

#[test]
fn load_restores_log_and_tables() {
    let mut database = stub();
    database.insert("flushed", ups(&[("s", "disk")]), 1);
    database.empty_memtable().unwrap();
    database.insert("logged", ups(&[("s", "log")]), 2);
    let t = &database.disktables[0];
    let tables = vec![(t.filename.clone(), t.header_bytes(), t.data.clone())];
    let mut reopened = stub();
    reopened.load(&database.commit_log, tables).unwrap();
    assert_eq!(sel(&mut reopened, "flushed", &["s"], 9), r#"Data: ["disk"]"#);
    assert_eq!(sel(&mut reopened, "logged", &["s"], 9), r#"Data: ["log"]"#);
    assert_eq!(reopened.commit_log, database.commit_log);
}

#[test]
fn stale_tables_after_major_compaction() {
    let mut database = stub();
    database.insert("a", ups(&[("s", "1")]), 1);
    database.empty_memtable().unwrap();
    database.insert("b", ups(&[("s", "2")]), 2);
    database.empty_memtable().unwrap();
    let written: Vec<String> = database.disktables.iter().map(|t| t.filename.clone()).collect();
    assert!(database.stale_tables(&written).is_empty());
    database.merge_disktables().unwrap();
    assert_eq!(database.disktables[0].filename, "/tmp/largetable/test/3.dtable");
    assert_eq!(database.stale_tables(&written), written);
    assert!(database.has_table("/tmp/largetable/test/3.dtable"));
}

#[test]
fn compaction_without_table_numbers_is_an_internal_error() {
    let mut database = stub();
    database.memtable_size_limit = 4;
    database.disktable_index = u32::MAX;
    assert!(matches!(database.insert("r", ups(&[("s", "long")]), 1), QueryResult::InternalError));
    assert!(database.memtable.get_row("r").is_some());
    assert_eq!(database.disktables.len(), 0);
    assert!(database.empty_memtable().is_err());
    assert_eq!(database.disktable_index, u32::MAX);
    assert!(database.check_size_limits().is_err());
}

#[test]
fn config_validity() {
    let mut c = ApplicationConfig::defaults();
    assert!(c.is_valid());
    c.disktable_limit = 0;
    assert!(!c.is_valid());
    c.disktable_limit = 1;
    c.memtable_size_limit = 0;
    assert!(!c.is_valid());
}

#[test]
fn config_sources_take_the_first_value_given() {
    let c = ApplicationConfig::from_sources(
        (None, Some(Mode::Testing)),
        (Some(9000), Some(1)),
        (None, None),
        (None, None),
        (Some(3), None),
    );
    assert_eq!(c.mode, Mode::Testing);
    assert_eq!(c.port, 9000);
    assert_eq!(c.datadirectory, "./data");
    assert_eq!(c.memtable_size_limit, 32 * (1 << 20));
    assert_eq!(c.disktable_limit, 3);
}

/// A 25 character printable string, different for each seed.
fn sample_string(seed: u64) -> String {
    (0..25u64).map(|i| (0x21u8 + ((seed * 31 + i * 7 + seed / 3) % 90) as u8) as char).collect()
}

#[test]
fn row_offset_methods_match() {
    let mut database = stub();
    for r in 0..10u64 {
        database.insert(
            sample_string(r * 1000).as_str(),
            (0..10u64)
                .map(|c| MUpdate::new(sample_string(r * 1000 + c + 1).as_str(), vec![(r + c) as u8; 25]))
                .collect::<Vec<_>>(),
            r + 1,
        );
    }
    database.empty_memtable().unwrap();
    let table = &database.disktables[0];
    assert_eq!(table.len(), 10);
    for (i, k) in table.lookup.keys.iter().enumerate() {
        let o1 = table.get_row_offset(k).unwrap();
        let o2 = table.get_offset_from_index(i);
        assert_eq!(o1.start, o2.start);
        assert_eq!(o1.length, o2.length);
        if o1.length.is_some() {
            // this format: key (8 + 25), column count 8, ten names (8 + 25),
            // ten columns of one entry (8 + 8 + 8 + 25)
            assert_eq!(o1.length, Some(861), "Expected each row to be exactly 861 bytes.");
        }
    }
}
