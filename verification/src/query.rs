//! Request and response shapes of the operation surface, and the type-name
//! aliases the surface accepts.

use vstd::prelude::*;

use crate::text::{eq_ci, str_eq_ci};
use crate::value::ColumnType;

verus! {

/// A request to create a table.
#[derive(Debug)]
pub struct CreateTableRequest {
    pub name: String,
    pub columns: Vec<ColumnDef>,
    pub capacity: Option<usize>,
}

/// A column as declared by a caller: a name and a type name.
#[derive(Debug)]
pub struct ColumnDef {
    pub name: String,
    pub col_type: String,
}

/// The column type a type name denotes, compared without regard to ASCII
/// case: `int`, `integer` and `i64` for `Int`; `float`, `double` and `f64`
/// for `Float`; `string`, `text` and `varchar` for `String`; `bytes`, `blob`
/// and `binary` for `Bytes`. Anything else denotes no type.
pub open spec fn spec_column_type_of(s: Seq<char>) -> Option<ColumnType> {
    if eq_ci(s, "int"@) || eq_ci(s, "integer"@) || eq_ci(s, "i64"@) {
        Some(ColumnType::Int)
    } else if eq_ci(s, "float"@) || eq_ci(s, "double"@) || eq_ci(s, "f64"@) {
        Some(ColumnType::Float)
    } else if eq_ci(s, "string"@) || eq_ci(s, "text"@) || eq_ci(s, "varchar"@) {
        Some(ColumnType::String)
    } else if eq_ci(s, "bytes"@) || eq_ci(s, "blob"@) || eq_ci(s, "binary"@) {
        Some(ColumnType::Bytes)
    } else {
        None
    }
}

impl ColumnDef {
    /// Resolves the declared type name; `None` for an unknown name.
    pub fn to_column_type(&self) -> (r: Option<ColumnType>)
        ensures
            r == spec_column_type_of(self.col_type@),
    {
        let s = self.col_type.as_str();
        if str_eq_ci(s, "int") || str_eq_ci(s, "integer") || str_eq_ci(s, "i64") {
            Some(ColumnType::Int)
        } else if str_eq_ci(s, "float") || str_eq_ci(s, "double") || str_eq_ci(s, "f64") {
            Some(ColumnType::Float)
        } else if str_eq_ci(s, "string") || str_eq_ci(s, "text") || str_eq_ci(s, "varchar") {
            Some(ColumnType::String)
        } else if str_eq_ci(s, "bytes") || str_eq_ci(s, "blob") || str_eq_ci(s, "binary") {
            Some(ColumnType::Bytes)
        } else {
            None
        }
    }
}

/// A request to fetch rows by id.
#[derive(Debug)]
pub struct GetRequest {
    pub table: String,
    pub ids: Vec<u64>,
}

/// A request to delete rows by id.
#[derive(Debug)]
pub struct DeleteRequest {
    pub table: String,
    pub ids: Vec<u64>,
}

/// The uniform envelope every operation answers with.
#[derive(Debug)]
pub struct ApiResponse<T> {
    pub success: bool,
    pub data: Option<T>,
    pub error: Option<String>,
}

impl<T> ApiResponse<T> {
    /// A successful response carrying data.
    pub fn ok(data: T) -> (r: Self)
        ensures
            r.success,
            r.data == Some(data),
            r.error is None,
    {
        ApiResponse { success: true, data: Some(data), error: None }
    }

    /// A failed response carrying a message.
    pub fn err(msg: &str) -> (r: Self)
        ensures
            !r.success,
            r.data is None,
            r.error matches Some(e) && e@ == msg@,
    {
        ApiResponse { success: false, data: None, error: Some(msg.to_owned()) }
    }
}

/// The answer to an insert: the assigned ids and how many rows went in.
#[derive(Debug)]
pub struct InsertResponse {
    pub ids: Vec<u64>,
    pub count: usize,
}

/// One table's statistics.
#[derive(Debug)]
pub struct TableInfo {
    pub name: String,
    pub row_count: usize,
    pub column_count: usize,
}

/// The answer to a stats request.
#[derive(Debug)]
pub struct StatsResponse {
    pub tables: Vec<TableInfo>,
}

/// A request to configure the sync layer.
#[derive(Debug)]
pub struct SyncConfigRequest {
    pub source_type: Option<String>,
    pub host: String,
    pub port: u16,
    pub user: Option<String>,
    pub password: Option<String>,
    pub database: Option<String>,
    pub interval_secs: Option<u64>,
    pub tables: Vec<SyncTableRequest>,
}

/// One table mapping in a sync configuration request.
#[derive(Debug)]
pub struct SyncTableRequest {
    pub source_table: String,
    pub target_table: String,
    pub columns: Vec<SyncColumnRequest>,
    pub query: Option<String>,
}

/// One column mapping in a sync configuration request.
#[derive(Debug)]
pub struct SyncColumnRequest {
    pub source: String,
    pub target: String,
    pub col_type: String,
}

/// A request to run a sync now; without a table name, all tables sync.
#[derive(Debug)]
pub struct SyncTriggerRequest {
    pub table: Option<String>,
}

/// The answer to a sync status request.
#[derive(Debug)]
pub struct SyncStatusResponse {
    pub tables: Vec<SyncTableStatus>,
    pub running: bool,
    pub total_syncs: u64,
}

/// One table's sync status, as reported outward.
#[derive(Debug)]
pub struct SyncTableStatus {
    pub table: String,
    pub last_sync_ago_secs: Option<u64>,
    pub last_row_count: usize,
    pub last_duration_ms: u64,
    pub error: Option<String>,
    pub syncing: bool,
}

/// The answer to a sync trigger.
#[derive(Debug)]
pub struct SyncResultResponse {
    pub results: Vec<SyncTableResult>,
}

/// One table's outcome in a sync trigger answer.
#[derive(Debug)]
pub struct SyncTableResult {
    pub table: String,
    pub success: bool,
    pub rows_synced: usize,
    pub duration_ms: u64,
    pub error: Option<String>,
}

} // verus!
