use quickset::database::{Database, DbError};
use quickset::ops::paginate;
use quickset::search::SearchType;
use quickset::table::{Column, Table, TableError};
use quickset::value::{ColumnType, Value};

fn sv(s: &str) -> Value {
    Value::String(s.chars().collect())
}

fn iv(x: i64) -> Value {
    Value::Int(x)
}

fn users_db() -> Database {
    let mut db = Database::new();
    db.create_table(
        "users",
        vec![
            Column { name: "name".into(), col_type: ColumnType::String },
            Column { name: "age".into(), col_type: ColumnType::Int },
        ],
    )
    .unwrap();
    let (ids, count) = db
        .insert_rows(
            "users",
            vec![
                vec![sv("alice"), iv(30)],
                vec![sv("bob"), iv(25)],
                vec![sv("carol"), iv(30)],
            ],
        )
        .unwrap();
    assert_eq!(ids, vec![1, 2, 3]);
    assert_eq!(count, 3);
    db
}

#[test]
fn three_records() {
    let db = users_db();
    let by_age = db
        .search_ids("users", "age", SearchType::Exact(iv(30)))
        .unwrap();
    assert_eq!(by_age, vec![1, 3]);
    let by_prefix = db
        .search_ids("users", "name", SearchType::Prefix("b".to_string()))
        .unwrap();
    assert_eq!(by_prefix, vec![2]);
}

#[test]
fn delete_then_range_and_get() {
    let mut db = users_db();
    assert_eq!(db.delete_rows("users", &vec![2]).unwrap(), 1);
    let in_range = db
        .search_ids("users", "age", SearchType::Range { min: 0, max: 100 })
        .unwrap();
    assert_eq!(in_range, vec![1, 3]);
    let rows = db.get_rows("users", &vec![1, 2, 3]).unwrap();
    assert_eq!(rows.len(), 2);
    assert_eq!(rows[0].0, 1);
    assert_eq!(rows[1].0, 3);
    assert_eq!(rows[0].1[0], sv("alice"));
    assert_eq!(rows[1].1[0], sv("carol"));
}

#[test]
fn fulltext_and_contains() {
    let mut db = users_db();
    let (ids, _) = db
        .insert_rows("users", vec![vec![sv("dave davidson"), iv(40)]])
        .unwrap();
    assert_eq!(ids, vec![4]);
    let ft = db
        .search_ids(
            "users",
            "name",
            SearchType::FullText("davidson dave".to_string()),
        )
        .unwrap();
    assert_eq!(ft, vec![4]);
    let cs = db
        .search_ids("users", "name", SearchType::Contains("DAV".to_string()))
        .unwrap();
    assert_eq!(cs, vec![4]);
}

#[test]
fn update_moves_exact_matches() {
    let mut db = users_db();
    let r = db
        .update_row("users", 1, vec![sv("alicia"), iv(31)])
        .unwrap();
    assert_eq!(r, Ok(true));
    let old = db
        .search_ids("users", "name", SearchType::Exact(sv("alice")))
        .unwrap();
    assert_eq!(old, Vec::<u64>::new());
    let new = db
        .search_ids("users", "name", SearchType::Exact(sv("alicia")))
        .unwrap();
    assert_eq!(new, vec![1]);
    let age30 = db
        .search_ids("users", "age", SearchType::Exact(iv(30)))
        .unwrap();
    assert_eq!(age30, vec![3]);
}

#[test]
fn empty_batch_changes_nothing() {
    let mut db = users_db();
    let (ids, count) = db.insert_rows("users", vec![]).unwrap();
    assert_eq!(ids, Vec::<u64>::new());
    assert_eq!(count, 0);
    // the id counter did not advance
    let (next, _) = db
        .insert_rows("users", vec![vec![sv("dan"), iv(1)]])
        .unwrap();
    assert_eq!(next, vec![4]);
}

#[test]
fn widest_range_returns_all_non_null() {
    let mut db = users_db();
    // a live row with a null age is never matched
    db.insert_rows("users", vec![vec![sv("nul"), Value::Null]])
        .unwrap();
    let all = db
        .search_ids(
            "users",
            "age",
            SearchType::Range { min: i64::MIN, max: i64::MAX },
        )
        .unwrap();
    assert_eq!(all, vec![2, 1, 3]);
}

#[test]
fn nan_float_is_insertable_but_never_matched() {
    let mut db = Database::new();
    db.create_table(
        "m",
        vec![Column { name: "x".into(), col_type: ColumnType::Float }],
    )
    .unwrap();
    let nan = f64::NAN.to_bits();
    let (ids, _) = db.insert_rows("m", vec![vec![Value::Float(nan)]]).unwrap();
    assert_eq!(ids, vec![1]);
    let hits = db
        .search_ids("m", "x", SearchType::Exact(Value::Float(nan)))
        .unwrap();
    assert_eq!(hits, Vec::<u64>::new());
    // an ordinary pattern still matches bit-exactly
    let (ids, _) = db
        .insert_rows("m", vec![vec![Value::Float(1.5f64.to_bits())]])
        .unwrap();
    assert_eq!(ids, vec![2]);
    let hits = db
        .search_ids("m", "x", SearchType::Exact(Value::Float(1.5f64.to_bits())))
        .unwrap();
    assert_eq!(hits, vec![2]);
}

#[test]
fn incompatible_predicate_returns_empty_not_error() {
    let db = users_db();
    // a range against a string column
    let r = db
        .search_ids("users", "name", SearchType::Range { min: 0, max: 10 })
        .unwrap();
    assert_eq!(r, Vec::<u64>::new());
    // a prefix against an int column
    let r = db
        .search_ids("users", "age", SearchType::Prefix("3".to_string()))
        .unwrap();
    assert_eq!(r, Vec::<u64>::new());
    // a full-text query against an int column
    let r = db
        .search_ids("users", "age", SearchType::FullText("30".to_string()))
        .unwrap();
    assert_eq!(r, Vec::<u64>::new());
    // an exact probe of the wrong type
    let r = db
        .search_ids("users", "age", SearchType::Exact(sv("30")))
        .unwrap();
    assert_eq!(r, Vec::<u64>::new());
}

#[test]
fn range_orders_by_value_then_id() {
    let mut db = Database::new();
    db.create_table(
        "t",
        vec![Column { name: "v".into(), col_type: ColumnType::Int }],
    )
    .unwrap();
    db.insert_rows(
        "t",
        vec![vec![iv(30)], vec![iv(10)], vec![iv(30)], vec![iv(20)]],
    )
    .unwrap();
    let r = db
        .search_ids("t", "v", SearchType::Range { min: 0, max: 100 })
        .unwrap();
    assert_eq!(r, vec![2, 4, 1, 3]);
}

#[test]
fn prefix_orders_lexicographically_then_id() {
    let mut db = Database::new();
    db.create_table(
        "t",
        vec![Column { name: "s".into(), col_type: ColumnType::String }],
    )
    .unwrap();
    db.insert_rows(
        "t",
        vec![vec![sv("b")], vec![sv("apple")], vec![sv("apricot")], vec![sv("b")]],
    )
    .unwrap();
    let r = db
        .search_ids("t", "s", SearchType::Prefix("".to_string()))
        .unwrap();
    assert_eq!(r, vec![2, 3, 1, 4]);
    let r = db
        .search_ids("t", "s", SearchType::Prefix("ap".to_string()))
        .unwrap();
    assert_eq!(r, vec![2, 3]);
}

#[test]
fn insert_then_get_verbatim() {
    let mut db = Database::new();
    db.create_table(
        "t",
        vec![
            Column { name: "s".into(), col_type: ColumnType::String },
            Column { name: "b".into(), col_type: ColumnType::Bytes },
        ],
    )
    .unwrap();
    let text = "héllo wörld ≤≥";
    let bytes = vec![0u8, 255, 7];
    let (ids, _) = db
        .insert_rows("t", vec![vec![sv(text), Value::Bytes(bytes.clone())]])
        .unwrap();
    let rows = db.get_rows("t", &ids).unwrap();
    assert_eq!(rows.len(), 1);
    assert_eq!(rows[0].1[0], sv(text));
    assert_eq!(rows[0].1[1], Value::Bytes(bytes));
}

#[test]
fn drop_then_create_forgets_old_rows() {
    let mut db = users_db();
    assert!(db.drop_table("users"));
    assert!(!db.drop_table("users"));
    db.create_table(
        "users",
        vec![Column { name: "name".into(), col_type: ColumnType::String }],
    )
    .unwrap();
    let rows = db.get_rows("users", &vec![1, 2, 3]).unwrap();
    assert_eq!(rows.len(), 0);
}

#[test]
fn table_level_errors() {
    let mut t = Table::new(vec![
        Column { name: "name".into(), col_type: ColumnType::String },
        Column { name: "age".into(), col_type: ColumnType::Int },
    ]);
    assert_eq!(t.insert(vec![iv(1)]), Err(TableError::ArityMismatch));
    assert_eq!(
        t.insert(vec![sv("a"), sv("b")]),
        Err(TableError::TypeMismatch { column: 1 })
    );
    assert_eq!(t.insert(vec![sv("a"), iv(1)]), Ok(1));
    assert_eq!(t.update(9, vec![sv("x"), iv(2)]), Ok(false));
    assert_eq!(t.update(1, vec![sv("x")]), Err(TableError::ArityMismatch));
    assert_eq!(t.update(1, vec![sv("x"), iv(2)]), Ok(true));
    assert!(t.delete(1));
    assert!(!t.delete(1));
    assert!(t.get(1).is_none());
    assert_eq!(t.row_count(), 0);
    assert_eq!(t.column_count(), 2);
    assert_eq!(t.column_index("age"), Some(1));
    assert_eq!(t.column_index("ages"), None);
}

#[test]
fn database_level_errors() {
    let mut db = users_db();
    assert_eq!(
        db.create_table("users", vec![]),
        Err(DbError::DuplicateTable)
    );
    assert_eq!(
        db.search_ids("ghosts", "age", SearchType::Exact(iv(1))),
        Err(DbError::UnknownTable)
    );
    assert_eq!(
        db.search_ids("users", "ghost", SearchType::Exact(iv(1))),
        Err(DbError::UnknownColumn)
    );
    assert_eq!(db.get_rows("ghosts", &vec![1]), Err(DbError::UnknownTable));
    assert_eq!(db.delete_rows("ghosts", &vec![1]), Err(DbError::UnknownTable));
    assert_eq!(
        db.update_row("ghosts", 1, vec![]),
        Err(DbError::UnknownTable)
    );
    assert_eq!(db.insert_rows("ghosts", vec![]), Err(DbError::UnknownTable));
}

#[test]
fn stats_and_names() {
    let db = users_db();
    let names = db.table_names();
    assert_eq!(names, vec!["users".to_string()]);
    let stats = db.stats();
    assert_eq!(stats.len(), 1);
    assert_eq!(stats[0].name, "users");
    assert_eq!(stats[0].row_count, 3);
    assert_eq!(stats[0].column_count, 2);
    assert!(db.get_table("users").is_some());
    assert!(db.get_table("ghosts").is_none());
}

#[test]
fn pagination_semantics() {
    let ids: Vec<u64> = vec![1, 2, 3, 4, 5];
    assert_eq!(paginate(&ids, None, None), vec![1, 2, 3, 4, 5]);
    assert_eq!(paginate(&ids, Some(2), None), vec![3, 4, 5]);
    assert_eq!(paginate(&ids, Some(2), Some(2)), vec![3, 4]);
    assert_eq!(paginate(&ids, None, Some(3)), vec![1, 2, 3]);
    assert_eq!(paginate(&ids, Some(7), None), Vec::<u64>::new());
    assert_eq!(paginate(&ids, Some(5), Some(1)), Vec::<u64>::new());
    assert_eq!(paginate(&ids, Some(4), Some(9)), vec![5]);
}

#[test]
fn fulltext_tokenization_folds_case_and_punctuation() {
    let mut db = Database::new();
    db.create_table(
        "t",
        vec![Column { name: "s".into(), col_type: ColumnType::String }],
    )
    .unwrap();
    db.insert_rows(
        "t",
        vec![vec![sv("Dave, DAVIDSON!")], vec![sv("daverson dave")]],
    )
    .unwrap();
    let r = db
        .search_ids("t", "s", SearchType::FullText("davidson dave".to_string()))
        .unwrap();
    assert_eq!(r, vec![1]);
    // a token is a whole word: a superstring does not count
    let r = db
        .search_ids("t", "s", SearchType::FullText("daverson".to_string()))
        .unwrap();
    assert_eq!(r, vec![2]);
}

#[test]
fn batch_results_are_positional() {
    let mut t = Table::new(vec![Column { name: "v".into(), col_type: ColumnType::Int }]);
    let results = t.insert_batch(vec![
        vec![iv(1)],
        vec![sv("bad")],
        vec![iv(2), iv(3)],
        vec![iv(4)],
    ]);
    assert_eq!(results.len(), 4);
    assert_eq!(results[0], Ok(1));
    assert_eq!(results[1], Err(TableError::TypeMismatch { column: 0 }));
    assert_eq!(results[2], Err(TableError::ArityMismatch));
    // the failed rows consumed no ids
    assert_eq!(results[3], Ok(2));
    assert_eq!(t.row_count(), 2);
}

#[test]
fn empty_queries_match_every_string_row() {
    let db = users_db();
    // every token of an empty query is present vacuously
    let r = db
        .search_ids("users", "name", SearchType::FullText("".to_string()))
        .unwrap();
    assert_eq!(r, vec![1, 2, 3]);
    // the empty string is a substring of everything
    let r = db
        .search_ids("users", "name", SearchType::Contains("".to_string()))
        .unwrap();
    assert_eq!(r, vec![1, 2, 3]);
}

#[test]
fn fulltext_splits_on_non_ascii_punctuation() {
    let mut db = Database::new();
    db.create_table(
        "t",
        vec![Column { name: "s".into(), col_type: ColumnType::String }],
    )
    .unwrap();
    // an ellipsis is not alphanumeric: it separates the two tokens
    db.insert_rows("t", vec![vec![sv("a\u{2026}b")]]).unwrap();
    let r = db
        .search_ids("t", "s", SearchType::FullText("a b".to_string()))
        .unwrap();
    assert_eq!(r, vec![1]);
}

#[test]
fn case_folding_is_unicode() {
    let mut db = Database::new();
    db.create_table(
        "t",
        vec![Column { name: "s".into(), col_type: ColumnType::String }],
    )
    .unwrap();
    db.insert_rows("t", vec![vec![sv("M\u{dc}LLER")]]).unwrap();
    // the non-ASCII capital folds too, for substring and full-text alike
    let r = db
        .search_ids("t", "s", SearchType::Contains("m\u{fc}ller".to_string()))
        .unwrap();
    assert_eq!(r, vec![1]);
    let r = db
        .search_ids("t", "s", SearchType::FullText("m\u{fc}ller".to_string()))
        .unwrap();
    assert_eq!(r, vec![1]);
}
