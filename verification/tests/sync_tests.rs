use std::cell::Cell;
use std::rc::Rc;

use quickset::database::Database;
use quickset::sync::source::{FetchResult, Source, SourceConfig, SourceError, SyncTable};
use quickset::sync::{ClickHouseSource, SyncConfig, SyncManager};
use quickset::value::{ColumnType, Value};

#[test]
fn test_sync_table_builder() {
    let table = SyncTable::new("source_users", "users")
        .with_column("id", "id", ColumnType::Int)
        .with_column("name", "name", ColumnType::String);

    assert_eq!(table.source_table, "source_users");
    assert_eq!(table.target_table, "users");
    assert_eq!(table.columns.len(), 2);
}

#[test]
fn test_source_config_builder() {
    let config = SourceConfig::new("localhost", 9000)
        .with_auth("default", "password")
        .with_database("mydb");

    assert_eq!(config.host, "localhost");
    assert_eq!(config.port, 9000);
    assert_eq!(config.user, Some("default".to_string()));
    assert_eq!(config.database, Some("mydb".to_string()));
}

#[test]
fn test_sync_config_builder() {
    let table = SyncTable::new("source_users", "users").with_column("id", "id", ColumnType::Int);

    let config = SyncConfig::new().with_interval(60).with_table(table);

    assert!(config.enabled);
    assert_eq!(config.interval_secs, 60);
    assert_eq!(config.tables.len(), 1);
}

#[test]
fn test_sync_config_manual_only() {
    let config = SyncConfig::new().with_interval(0);

    assert!(!config.enabled);
}

#[test]
fn test_build_query() {
    let config = SourceConfig::new("localhost", 8123);
    let source = ClickHouseSource::new(config);

    let table = SyncTable::new("users", "users")
        .with_column("id", "id", ColumnType::Int)
        .with_column("name", "name", ColumnType::String);

    let query = source.build_query(&table);
    assert_eq!(query, "SELECT id, name FROM users");
}

#[test]
fn test_build_query_with_override() {
    let config = SourceConfig::new("localhost", 8123);
    let source = ClickHouseSource::new(config);

    let table = SyncTable::new("users", "users").with_query("SELECT * FROM users WHERE active = 1");

    let query = source.build_query(&table);
    assert_eq!(query, "SELECT * FROM users WHERE active = 1");
}

#[test]
fn test_parse_value() {
    assert_eq!(
        ClickHouseSource::parse_value("123", ColumnType::Int, None),
        Value::Int(123)
    );
    assert_eq!(
        ClickHouseSource::parse_value("45.67", ColumnType::Float, Some(45.67f64.to_bits())),
        Value::Float(45.67f64.to_bits())
    );
    assert_eq!(
        ClickHouseSource::parse_value("hello", ColumnType::String, None),
        Value::String("hello".chars().collect())
    );
    assert_eq!(
        ClickHouseSource::parse_value("\\N", ColumnType::Int, None),
        Value::Null
    );
}

#[test]
fn test_parse_value_edges() {
    // integer bounds, exactly as the standard parser treats them
    assert_eq!(
        ClickHouseSource::parse_value("9223372036854775807", ColumnType::Int, None),
        Value::Int(i64::MAX)
    );
    assert_eq!(
        ClickHouseSource::parse_value("-9223372036854775808", ColumnType::Int, None),
        Value::Int(i64::MIN)
    );
    assert_eq!(
        ClickHouseSource::parse_value("9223372036854775808", ColumnType::Int, None),
        Value::Null
    );
    assert_eq!(
        ClickHouseSource::parse_value("+42", ColumnType::Int, None),
        Value::Int(42)
    );
    assert_eq!(
        ClickHouseSource::parse_value("4x", ColumnType::Int, None),
        Value::Null
    );
    // null sentinels
    assert_eq!(
        ClickHouseSource::parse_value("  ", ColumnType::String, None),
        Value::Null
    );
    assert_eq!(
        ClickHouseSource::parse_value("NULL", ColumnType::String, None),
        Value::Null
    );
    // escapes, applied in replacement order
    assert_eq!(
        ClickHouseSource::parse_value("a\\tb", ColumnType::String, None),
        Value::String("a\tb".chars().collect())
    );
    assert_eq!(
        ClickHouseSource::parse_value("a\\nb", ColumnType::String, None),
        Value::String("a\nb".chars().collect())
    );
    assert_eq!(
        ClickHouseSource::parse_value("a\\\\b", ColumnType::String, None),
        Value::String("a\\b".chars().collect())
    );
    // a float field without pre-parsed bits becomes null
    assert_eq!(
        ClickHouseSource::parse_value("45.67", ColumnType::Float, None),
        Value::Null
    );
    // bytes keep the trimmed text's encoding
    assert_eq!(
        ClickHouseSource::parse_value(" ab ", ColumnType::Bytes, None),
        Value::Bytes(b"ab".to_vec())
    );
}

#[test]
fn test_split_and_parse_response() {
    let fields = ClickHouseSource::split_response_fields("1\t10\n2\t20\n\n");
    assert_eq!(fields.len(), 2);
    assert_eq!(fields[0], vec!["1".to_string(), "10".to_string()]);
    assert_eq!(fields[1], vec!["2".to_string(), "20".to_string()]);

    let table = SyncTable::new("src", "dst")
        .with_column("id", "id", ColumnType::Int)
        .with_column("v", "v", ColumnType::Int);
    let bits: Vec<Vec<Option<u64>>> = fields.iter().map(|r| r.iter().map(|_| None).collect()).collect();
    let rows = ClickHouseSource::parse_response(&fields, &table, &bits).unwrap();
    assert_eq!(rows.len(), 2);
    assert_eq!(rows[0], vec![Value::Int(1), Value::Int(10)]);
    assert_eq!(rows[1], vec![Value::Int(2), Value::Int(20)]);
}

#[test]
fn test_parse_response_width_mismatch() {
    let fields = ClickHouseSource::split_response_fields("1\t10\n2\n");
    let table = SyncTable::new("src", "dst")
        .with_column("id", "id", ColumnType::Int)
        .with_column("v", "v", ColumnType::Int);
    let bits: Vec<Vec<Option<u64>>> = fields.iter().map(|r| r.iter().map(|_| None).collect()).collect();
    match ClickHouseSource::parse_response(&fields, &table, &bits) {
        Err(SourceError::Parse(m)) => {
            assert_eq!(m, "column count mismatch: expected 2, got 1");
        }
        other => panic!("expected a parse error, got {:?}", other.is_ok()),
    }
}

#[test]
fn test_parse_response_no_columns_keeps_strings() {
    let fields = ClickHouseSource::split_response_fields("a\tb\n");
    let table = SyncTable::new("src", "dst");
    let bits: Vec<Vec<Option<u64>>> = fields.iter().map(|r| r.iter().map(|_| None).collect()).collect();
    let rows = ClickHouseSource::parse_response(&fields, &table, &bits).unwrap();
    assert_eq!(rows.len(), 1);
    assert_eq!(
        rows[0],
        vec![
            Value::String("a".chars().collect()),
            Value::String("b".chars().collect()),
        ]
    );
}

#[test]
fn test_disconnect_idempotent() {
    let mut source = ClickHouseSource::new(SourceConfig::new("localhost", 8123));
    assert!(!source.is_connected());
    source.mark_connected();
    assert!(source.is_connected());
    source.disconnect();
    assert!(!source.is_connected());
    source.disconnect();
    assert!(!source.is_connected());
}

/// A test double for the pull source: hands back canned rows, or a
/// connection error while the shared flag is set.
struct StubSource {
    rows: Vec<Vec<i64>>,
    fail: Rc<Cell<bool>>,
}

impl Source for StubSource {
    fn connect(&mut self) -> Result<(), SourceError> {
        Ok(())
    }

    fn disconnect(&mut self) {}

    fn is_connected(&self) -> bool {
        true
    }

    fn fetch_table(&self, _table: &SyncTable) -> Result<FetchResult, SourceError> {
        if self.fail.get() {
            return Err(SourceError::Connection("stub down".to_string()));
        }
        let rows: Vec<Vec<Value>> = self
            .rows
            .iter()
            .map(|r| r.iter().map(|x| Value::Int(*x)).collect())
            .collect();
        let row_count = rows.len();
        Ok(FetchResult { rows, row_count })
    }

    fn name(&self) -> &'static str {
        "stub"
    }
}

fn int_sync_setup(fail: Rc<Cell<bool>>) -> (SyncManager<StubSource>, Database) {
    let stub = StubSource {
        rows: vec![vec![1, 10], vec![2, 20]],
        fail,
    };
    let table = SyncTable::new("src", "dst")
        .with_column("id", "id", ColumnType::Int)
        .with_column("v", "v", ColumnType::Int);
    let config = SyncConfig::new().with_interval(60).with_table(table);
    let manager = SyncManager::new(stub, config);
    let db = Database::new();
    (manager, db)
}

#[test]
fn test_sync_all_pulls_rows() {
    let fail = Rc::new(Cell::new(false));
    let (mut manager, mut db) = int_sync_setup(fail);

    let results = manager.sync_all(&mut db);
    assert_eq!(results.len(), 1);
    assert_eq!(results[0].table, "dst");
    assert!(results[0].success);
    assert_eq!(results[0].rows_synced, 2);
    assert_eq!(manager.sync_count(), 1);

    let rows = db.get_rows("dst", &vec![1, 2]).unwrap();
    assert_eq!(rows.len(), 2);
    assert_eq!(rows[0].0, 1);
    assert_eq!(rows[0].1, vec![Value::Int(1), Value::Int(10)]);
    assert_eq!(rows[1].0, 2);
    assert_eq!(rows[1].1, vec![Value::Int(2), Value::Int(20)]);
}

#[test]
fn test_sync_failure_keeps_last_progress() {
    let fail = Rc::new(Cell::new(false));
    let (mut manager, mut db) = int_sync_setup(fail.clone());
    assert!(manager.begin_background_sync());

    let results = manager.sync_all(&mut db);
    assert!(results[0].success);

    // the source goes down: the next sync fails, the old progress stays
    fail.set(true);
    let results = manager.sync_all(&mut db);
    assert!(!results[0].success);
    assert!(results[0].error.is_some());
    let status = manager.table_status("dst").unwrap();
    assert_eq!(status.last_row_count, 2);
    assert!(status.error.is_some());
    assert!(!status.syncing);
    assert!(manager.is_running());
    assert_eq!(manager.sync_count(), 1);
}

#[test]
fn test_stop_idempotent() {
    let fail = Rc::new(Cell::new(false));
    let (mut manager, _db) = int_sync_setup(fail);
    assert!(manager.begin_background_sync());
    assert!(manager.is_running());
    manager.stop();
    assert!(!manager.is_running());
    manager.stop();
    assert!(!manager.is_running());
}

#[test]
fn test_source_error_messages() {
    assert_eq!(
        SourceError::Connection("x".to_string()).message(),
        "connection error: x"
    );
    assert_eq!(SourceError::Query("q".to_string()).message(), "query error: q");
    assert_eq!(SourceError::Parse("p".to_string()).message(), "parse error: p");
    assert_eq!(SourceError::Config("c".to_string()).message(), "config error: c");
}

#[test]
fn test_parse_table_config() {
    let t = quickset::ops::parse_table_config("remote_users:users:id=int,name=string").unwrap();
    assert_eq!(t.source_table, "remote_users");
    assert_eq!(t.target_table, "users");
    assert_eq!(t.columns.len(), 2);
    assert_eq!(t.columns[0].source_name, "id");
    assert_eq!(t.columns[0].col_type, ColumnType::Int);
    assert_eq!(t.columns[1].col_type, ColumnType::String);

    assert!(quickset::ops::parse_table_config("lonely").is_none());

    let bare = quickset::ops::parse_table_config("a:b").unwrap();
    assert_eq!(bare.columns.len(), 0);
}

fn two_table_setup(fail: Rc<Cell<bool>>) -> (SyncManager<StubSource>, Database) {
    let stub = StubSource {
        rows: vec![vec![1, 10], vec![2, 20]],
        fail,
    };
    let one = SyncTable::new("src_one", "dst_one")
        .with_column("id", "id", ColumnType::Int)
        .with_column("v", "v", ColumnType::Int);
    let other = SyncTable::new("src_two", "dst_two")
        .with_column("id", "id", ColumnType::Int)
        .with_column("v", "v", ColumnType::Int);
    let config = SyncConfig::new().with_interval(60).with_table(one).with_table(other);
    (SyncManager::new(stub, config), Database::new())
}

#[test]
fn test_sync_filtered_touches_only_the_named_table() {
    let fail = Rc::new(Cell::new(false));
    let (mut manager, mut db) = two_table_setup(fail);

    let results = manager.sync_filtered(Some("dst_two"), &mut db);
    assert_eq!(results.len(), 1);
    assert_eq!(results[0].table, "dst_two");
    assert!(results[0].success);
    assert_eq!(results[0].rows_synced, 2);

    // the unnamed table was not rebuilt and its status is untouched
    assert!(db.get_table("dst_one").is_none());
    assert!(db.get_table("dst_two").is_some());
    let untouched = manager.table_status("dst_one").unwrap();
    assert_eq!(untouched.last_row_count, 0);
    assert!(untouched.last_sync_ms.is_none());
    assert!(untouched.error.is_none());

    // an unknown name syncs nothing
    let results = manager.sync_filtered(Some("ghost"), &mut db);
    assert_eq!(results.len(), 0);

    // no filter syncs every configured table, in order
    let results = manager.sync_filtered(None, &mut db);
    assert_eq!(results.len(), 2);
    assert_eq!(results[0].table, "dst_one");
    assert_eq!(results[1].table, "dst_two");
    assert!(db.get_table("dst_one").is_some());
}
