use largetable::dtable::{merge_columns, DColumn, DEntry, DRow, DTable, TError};
use largetable::keys::{compare_keys, search_keys, KeyOrder};
use largetable::mtable::MTable;
use largetable::query::MUpdate;

fn column(ts: &[u64]) -> DColumn {
    DColumn {
        entries: ts.iter().map(|t| DEntry::new(*t, vec![*t as u8])).collect(),
    }
}

#[test]
fn can_merge_columns() {
    let data = vec![230u8, 210, 40, 30, 22];
    let mut cols = vec![];
    for i in 0..10u64 {
        let mut entries = vec![];
        for j in 0..100u64 {
            entries.push(DEntry::new((i * 7919 + j * 104729) % 1000003, data.clone()));
        }
        entries.sort_by_key(|e| std::cmp::Reverse(e.timestamp));
        cols.push(DColumn { entries });
    }
    let refs: Vec<&DColumn> = cols.iter().collect();
    let merged = DColumn::from_vec(refs.as_slice());
    assert_eq!(merged.entries.len(), 1000);
    let mut minimum = u64::MAX;
    for e in &merged.entries {
        let t = e.timestamp;
        assert!(t <= minimum, "t({}) > minimum({})", t, minimum);
        minimum = t;
    }
}

#[test]
fn can_merge_rows() {
    let rows: Vec<DRow> = (0..20)
        .map(|index| DRow {
            keys: vec![format!("hello{}", index % 3)],
            columns: vec![DColumn { entries: vec![DEntry::new(100, vec![])] }],
        })
        .collect();
    let new_row = DRow::from_vec(rows.as_slice());
    new_row.get_column("hello0").unwrap();
    new_row.get_column("hello1").unwrap();
    new_row.get_column("hello2").unwrap();
    assert_eq!(new_row.get_column("hello0").unwrap().entries.len(), 7);
    assert_eq!(new_row.get_column("hello2").unwrap().entries.len(), 6);
}

#[test]
fn column_read_picks_newest_not_after() {
    let c = column(&[10, 20, 20, 30]);
    assert_eq!(c.get_value(25).unwrap().timestamp, 20);
    assert_eq!(c.get_value(30).unwrap().timestamp, 30);
    assert!(matches!(c.get_value(5), Err(TError::NotFound)));
    assert_eq!(c.get_latest_value().unwrap().timestamp, 30);
    // descending order is read the same way
    let d = column(&[30, 20, 10]);
    assert_eq!(d.get_value(25).unwrap().timestamp, 20);
    // among equal timestamps the later position wins
    let e = DColumn {
        entries: vec![DEntry::new(5, vec![1]), DEntry::new(5, vec![2])],
    };
    assert_eq!(e.get_value(5).unwrap().value, vec![2]);
    assert!(matches!(DColumn::new().get_latest_value(), Err(TError::NotFound)));
}

#[test]
fn merged_column_keeps_every_entry() {
    let m = merge_columns(&column(&[9, 5, 1]), &column(&[7, 5, 2]));
    let ts: Vec<u64> = m.entries.iter().map(|e| e.timestamp).collect();
    assert_eq!(ts, vec![9, 7, 5, 5, 2, 1]);
}

#[test]
fn keys_compare_by_bytes() {
    assert_eq!(compare_keys("a", "b"), KeyOrder::Less);
    assert_eq!(compare_keys("ab", "a"), KeyOrder::Greater);
    assert_eq!(compare_keys("", ""), KeyOrder::Equal);
    assert_eq!(compare_keys("Z", "a"), KeyOrder::Less);
    let keys = vec!["b".to_string(), "d".to_string(), "f".to_string()];
    assert_eq!(search_keys(&keys, "d"), Ok(1));
    assert_eq!(search_keys(&keys, "a"), Err(0));
    assert_eq!(search_keys(&keys, "e"), Err(2));
    assert_eq!(search_keys(&keys, "g"), Err(3));
}

#[test]
fn can_insert_update_and_select() {
    let mut m = MTable::new();
    m.insert("colin", &[MUpdate::new("asdf", vec![1])], 1).unwrap();
    m.update("colin", &[MUpdate::new("asdf", vec![5])], 2).unwrap();
    m.update("colin", &[MUpdate::new("fdsa", vec![12, 23])], 3).unwrap();
    assert_eq!(m.select_one("colin", "asdf").unwrap().value, vec![5]);
    assert_eq!(m.select_one("colin", "fdsa").unwrap().value, vec![12, 23]);
    assert!(m.select_one("colin", "fake").is_none());
}

#[test]
fn memtable_insert_twice_fails() {
    let mut m = MTable::new();
    m.insert("r", &[MUpdate::new("c", vec![1])], 1).unwrap();
    assert!(matches!(m.insert("r", &[MUpdate::new("c", vec![2])], 2), Err(TError::AlreadyExists)));
    assert_eq!(m.select_one("r", "c").unwrap().value, vec![1]);
    assert_eq!(m.size, 2);
}

#[test]
fn memtable_update_keeps_timestamp_order() {
    let mut m = MTable::new();
    m.insert("r", &[MUpdate::new("c", vec![1])], 10).unwrap();
    m.update("r", &[MUpdate::new("c", vec![3])], 30).unwrap();
    m.update("r", &[MUpdate::new("c", vec![2])], 20).unwrap();
    m.update("r", &[MUpdate::new("c", vec![4])], 20).unwrap();
    let row = m.get_row("r").unwrap();
    let col = row.columns.get_column("c").unwrap();
    let ts: Vec<u64> = col.entries.iter().map(|e| e.timestamp).collect();
    assert_eq!(ts, vec![10, 20, 20, 30]);
    assert_eq!(col.entries[2].value, vec![4]);
    let got = m.select("r", &["c"], 25).unwrap();
    assert_eq!(got[0].as_ref().unwrap().value, vec![4]);
    assert!(m.select("nope", &["c"], 25).is_none());
}

#[test]
fn can_convert_mtable_to_dtable() {
    let mut m = MTable::new();
    let x = vec![
        "790123889", "5378035978", "7329395933", "7556669891", "8317521945", "5473915008",
        "0540417761", "3783421087", "5583364306", "6454289889",
    ];
    let y = vec![
        "3855519000", "693463382", "0309758752", "6492176736", "9273285817", "2847849405",
        "5745075665", "1626955318", "0691323875", "0694793474",
    ];
    let ux: Vec<MUpdate> = x.iter().enumerate().map(|(i, w)| MUpdate::new(w, vec![i as u8])).collect();
    let uy: Vec<MUpdate> = y.iter().enumerate().map(|(i, w)| MUpdate::new(w, vec![i as u8])).collect();
    m.insert("row1", &ux, 1).unwrap();
    m.insert("row2", &uy, 2).unwrap();
    let mut data = vec![];
    let mut head = vec![];
    m.write_to_writer(&mut data, &mut head);
    let d = DTable::new("./data/0.dtable".to_string(), &head, data).unwrap();
    assert_eq!(d.len(), 2);
    for (index, word) in y.iter().enumerate() {
        assert_eq!(d.select_one("row2", word).unwrap(), vec![index as u8]);
    }
    for word in &y {
        assert!(d.select_one("row1", word).is_none());
    }
    assert_eq!(
        d.get_row("row1").unwrap().to_display_string(),
        "DRow: { 0540417761: [6], 3783421087: [7], 5378035978: [1], 5473915008: [5], 5583364306: [8], 6454289889: [9], 7329395933: [2], 7556669891: [3], 790123889: [0], 8317521945: [4] }"
    );
    assert_eq!(
        d.get_row("row2").unwrap().to_display_string(),
        "DRow: { 0309758752: [2], 0691323875: [8], 0694793474: [9], 1626955318: [7], 2847849405: [5], 3855519000: [0], 5745075665: [6], 6492176736: [3], 693463382: [1], 9273285817: [4] }"
    );
    assert!(matches!(d.get_row("row3"), Err(TError::NotFound)));
    let r1 = d.get_offset_from_index(0);
    let r2 = d.get_row_offset("row1").unwrap();
    assert_eq!(r1.start, r2.start);
    assert_eq!(r1.length, r2.length);
    assert!(d.get_row_offset("row2").unwrap().length.is_none());
}

#[test]
fn corrupt_header_or_row_is_an_error() {
    assert!(matches!(DTable::new("x".to_string(), &[1, 2, 3], vec![]), Err(TError::IoError)));
    let mut m = MTable::new();
    m.insert("a", &[MUpdate::new("c", vec![1])], 1).unwrap();
    let mut data = vec![];
    let mut head = vec![];
    m.write_to_writer(&mut data, &mut head);
    data.truncate(data.len() - 1);
    let d = DTable::new("x".to_string(), &head, data).unwrap();
    assert!(matches!(d.get_row("a"), Err(TError::IoError)));
}

#[test]
fn can_print_mrow() {
    let mut m = MTable::new();
    m.insert(
        "rowname",
        &[MUpdate::new("attr1", vec![1, 2, 3]), MUpdate::new("attr2", vec![4, 5, 6])],
        1,
    )
    .unwrap();
    assert_eq!(
        m.get_row("rowname").unwrap().to_display_string(),
        "MRow: { attr1: [1, 2, 3], attr2: [4, 5, 6] }"
    )
}

#[test]
fn row_display_of_wide_bytes_and_empty_rows() {
    let mut m = MTable::new();
    m.insert("r", &[MUpdate::new("a", vec![0, 9, 10, 99, 100, 255]), MUpdate::new("b", vec![])], 1).unwrap();
    assert_eq!(m.get_row("r").unwrap().to_display_string(), "MRow: { a: [0, 9, 10, 99, 100, 255], b: [] }");
    assert_eq!(DRow::new().to_display_string(), "DRow: {  }");
}

#[test]
fn equal_timestamps_merge_later_column_first() {
    let a = DColumn { entries: vec![DEntry::new(5, b"a".to_vec())] };
    let b = DColumn { entries: vec![DEntry::new(5, b"b".to_vec())] };
    let m = DColumn::from_vec(&[&a, &b]);
    let values: Vec<Vec<u8>> = m.entries.iter().map(|e| e.value.clone()).collect();
    assert_eq!(values, vec![b"b".to_vec(), b"a".to_vec()]);
    // a read sees the first column's entry, as it did before the merge
    assert_eq!(m.get_latest_value().unwrap().value, b"a".to_vec());
}

#[test]
fn merged_rows_hold_merged_columns() {
    let r1 = DRow { keys: vec!["c".to_string(), "x".to_string()], columns: vec![column(&[9, 4]), column(&[1])] };
    let r2 = DRow { keys: vec!["c".to_string()], columns: vec![column(&[7, 4])] };
    let m = DRow::from_vec(&[r1, r2]);
    let ts: Vec<u64> = m.get_column("c").unwrap().entries.iter().map(|e| e.timestamp).collect();
    assert_eq!(ts, vec![9, 7, 4, 4]);
    assert_eq!(m.get_column("x").unwrap().entries.len(), 1);
}
