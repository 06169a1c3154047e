use largetable::query::{MUpdate, Query, QueryResult, QueryString};

#[test]
fn can_print_select() {
    let q = Query::new_select("row1", &["test", "column2", "col3"]);
    assert_eq!(
        q.as_json().unwrap(),
        r#"{"select":{"row":"row1","get":["test","column2","col3"]}}"#
    )
}

#[test]
fn can_display_queryresults() {
    assert_eq!(QueryResult::NotImplemented.to_display_string(), "Not implemented.");
    assert_eq!(QueryResult::RowAlreadyExists.to_display_string(), "Row already exists.");
    assert_eq!(QueryResult::InternalError.to_display_string(), "Internal error.");
    assert_eq!(QueryResult::PartialCommit.to_display_string(), "Partial commit (!)");
}

#[test]
fn can_print_update() {
    let q = Query::new_update("row1", vec![MUpdate::new("test", vec![120, 121])]);
    assert_eq!(q.as_json().unwrap(), r#"{"update":{"row":"row1","set":{"test":"xy"}}}"#);
}

#[test]
fn can_print_insert() {
    let q = Query::new_insert("row1", vec![MUpdate::new("test", vec![120, 121])]);
    assert_eq!(q.as_json().unwrap(), r#"{"insert":{"row":"row1","set":{"test":"xy"}}}"#);
}

#[test]
fn json_escapes_quotes_in_strings() {
    let q = Query::new_select("a\"b", &[]);
    assert_eq!(q.as_json().unwrap(), r#"{"select":{"row":"a\"b","get":[]}}"#);
}

#[test]
fn json_of_non_text_value_fails() {
    let q = Query::new_insert("r", vec![MUpdate::new("c", vec![0xff, 0xfe])]);
    assert!(q.as_json().is_err());
}

#[test]
fn display_of_data_results() {
    let r = QueryResult::Data {
        columns: vec![Some(b"01-01-1970".to_vec()), None, Some(vec![0xff])],
    };
    assert_eq!(r.to_display_string(), r#"Data: ["01-01-1970", None, "Err"]"#);
    assert_eq!(QueryResult::Data { columns: vec![] }.to_display_string(), "Data: []");
    assert_eq!(QueryResult::Done.to_display_string(), "OK.");
    assert_eq!(QueryResult::RowNotFound.to_display_string(), "Row not found.");
    assert_eq!(QueryResult::NetworkError.to_display_string(), "Network error.");
}

#[test]
fn query_string_into_query_keeps_bytes() {
    let qs = QueryString::Insert {
        row: "r".to_string(),
        set: vec![("c".to_string(), "xy".to_string())],
    };
    match qs.into_query() {
        Query::Insert { row, set } => {
            assert_eq!(row, "r");
            assert_eq!(set.len(), 1);
            assert_eq!(set[0].key, "c");
            assert_eq!(set[0].value, vec![120, 121]);
        }
        _ => panic!("wrong kind"),
    }
}

#[test]
fn update_size_counts_name_and_value() {
    assert_eq!(MUpdate::new("data", vec![0; 1024]).size(), 1028);
    assert_eq!(MUpdate::new("é", vec![1]).size(), 3);
}

#[test]
fn json_escapes_control_characters() {
    let q = Query::new_select("a\\b\n\u{1}\t", &["\u{1f}"]);
    assert_eq!(q.as_json().unwrap(), "{\"select\":{\"row\":\"a\\\\b\\n\\u0001\\t\",\"get\":[\"\\u001f\"]}}");
}
