//! The source contract: how rows are pulled from an external system, and the
//! descriptors that say which tables and columns to pull.

use vstd::prelude::*;

use crate::value::{ColumnType, Value};

verus! {

use vstd::string::StringExecFns;

/// How one source column maps onto one target column.
#[derive(Debug)]
pub struct ColumnMapping {
    pub source_name: String,
    pub target_name: String,
    pub col_type: ColumnType,
}

/// The mathematical shape of a `ColumnMapping`.
#[verifier::ext_equal]
pub ghost struct ColumnMappingView {
    pub source_name: Seq<char>,
    pub target_name: Seq<char>,
    pub col_type: ColumnType,
}

impl View for ColumnMapping {
    type V = ColumnMappingView;

    open spec fn view(&self) -> ColumnMappingView {
        ColumnMappingView {
            source_name: self.source_name@,
            target_name: self.target_name@,
            col_type: self.col_type,
        }
    }
}

impl DeepView for ColumnMapping {
    type V = ColumnMappingView;

    open spec fn deep_view(&self) -> ColumnMappingView {
        self@
    }
}

impl Clone for ColumnMapping {
    /// A clone carries the same view.
    fn clone(&self) -> (res: Self)
        ensures
            res@ == self@,
    {
        ColumnMapping {
            source_name: self.source_name.clone(),
            target_name: self.target_name.clone(),
            col_type: self.col_type,
        }
    }
}

/// One table to pull: where it lives in the source, what it is called here,
/// the column mappings, and an optional full query override.
#[derive(Debug)]
pub struct SyncTable {
    pub source_table: String,
    pub target_table: String,
    pub columns: Vec<ColumnMapping>,
    pub query_override: Option<String>,
}

/// The mathematical shape of a `SyncTable`.
#[verifier::ext_equal]
pub ghost struct SyncTableView {
    pub source_table: Seq<char>,
    pub target_table: Seq<char>,
    pub columns: Seq<ColumnMappingView>,
    pub query_override: Option<Seq<char>>,
}

impl View for SyncTable {
    type V = SyncTableView;

    open spec fn view(&self) -> SyncTableView {
        SyncTableView {
            source_table: self.source_table@,
            target_table: self.target_table@,
            columns: self.columns.deep_view(),
            query_override: match self.query_override {
                Some(q) => Some(q@),
                None => None,
            },
        }
    }
}

impl SyncTable {
    /// A mapping of one source table onto one target table, with no columns
    /// declared yet.
    pub fn new(source: &str, target: &str) -> (r: Self)
        ensures
            r@.source_table == source@,
            r@.target_table == target@,
            r@.columns.len() == 0,
            r@.query_override is None,
    {
        SyncTable {
            source_table: source.to_owned(),
            target_table: target.to_owned(),
            columns: Vec::new(),
            query_override: None,
        }
    }

    /// Declares one more column mapping.
    pub fn with_column(self, source: &str, target: &str, col_type: ColumnType) -> (r: Self)
        ensures
            r@.source_table == self@.source_table,
            r@.target_table == self@.target_table,
            r@.query_override == self@.query_override,
            r@.columns == self@.columns.push(
                ColumnMappingView { source_name: source@, target_name: target@, col_type },
            ),
    {
        let mut s = self;
        let ghost cols0 = s.columns.deep_view();
        s.columns.push(
            ColumnMapping {
                source_name: source.to_owned(),
                target_name: target.to_owned(),
                col_type,
            },
        );
        proof {
            assert(s.columns.deep_view() =~= cols0.push(
                ColumnMappingView { source_name: source@, target_name: target@, col_type },
            ));
        }
        s
    }

    /// Declares a custom query to run instead of the generated `SELECT`.
    pub fn with_query(self, query: &str) -> (r: Self)
        ensures
            r@.source_table == self@.source_table,
            r@.target_table == self@.target_table,
            r@.columns == self@.columns,
            r@.query_override == Some(query@),
    {
        let mut s = self;
        s.query_override = Some(query.to_owned());
        s
    }
}

impl Clone for SyncTable {
    /// A clone carries the same view.
    fn clone(&self) -> (res: Self)
        ensures
            res@ == self@,
    {
        let mut cols: Vec<ColumnMapping> = Vec::new();
        let n = self.columns.len();
        let mut i: usize = 0;
        while i < n
            invariant
                i <= n,
                n == self.columns@.len(),
                cols@.len() == i,
                forall|k: int| 0 <= k < i ==> #[trigger] cols@[k]@ == self.columns@[k]@,
            decreases n - i,
        {
            let c = self.columns[i].clone();
            let ghost cols0 = cols@;
            cols.push(c);
            proof {
                assert(forall|k: int| 0 <= k < i ==> #[trigger] cols@[k] == cols0[k]);
            }
            i += 1;
        }
        let q = match &self.query_override {
            Some(q) => Some(q.clone()),
            None => None,
        };
        let r = SyncTable {
            source_table: self.source_table.clone(),
            target_table: self.target_table.clone(),
            columns: cols,
            query_override: q,
        };
        proof {
            assert(r.columns.deep_view() =~= self.columns.deep_view());
        }
        r
    }
}

/// How to reach a source: host, port, and optional credentials and database.
#[derive(Debug)]
pub struct SourceConfig {
    pub host: String,
    pub port: u16,
    pub user: Option<String>,
    pub password: Option<String>,
    pub database: Option<String>,
}

impl SourceConfig {
    /// A configuration with only a host and port.
    pub fn new(host: &str, port: u16) -> (r: Self)
        ensures
            r.host@ == host@,
            r.port == port,
            r.user is None,
            r.password is None,
            r.database is None,
    {
        SourceConfig { host: host.to_owned(), port, user: None, password: None, database: None }
    }

    /// Adds credentials.
    pub fn with_auth(self, user: &str, password: &str) -> (r: Self)
        ensures
            r.host == self.host,
            r.port == self.port,
            r.database == self.database,
            r.user matches Some(u) && u@ == user@,
            r.password matches Some(p) && p@ == password@,
    {
        let mut s = self;
        s.user = Some(user.to_owned());
        s.password = Some(password.to_owned());
        s
    }

    /// Names the database to read from.
    pub fn with_database(self, db: &str) -> (r: Self)
        ensures
            r.host == self.host,
            r.port == self.port,
            r.user == self.user,
            r.password == self.password,
            r.database matches Some(d) && d@ == db@,
    {
        let mut s = self;
        s.database = Some(db.to_owned());
        s
    }
}

/// What a fetch produced: the rows, and how many there are.
pub struct FetchResult {
    pub rows: Vec<Vec<Value>>,
    pub row_count: usize,
}

/// Why a source operation failed.
#[derive(Debug)]
pub enum SourceError {
    Connection(String),
    Query(String),
    Parse(String),
    Config(String),
}

impl SourceError {
    /// A readable description: the error kind, then the detail.
    pub fn message(&self) -> (r: String)
        ensures
            r@ == match self {
                SourceError::Connection(s) => "connection error: "@ + s@,
                SourceError::Query(s) => "query error: "@ + s@,
                SourceError::Parse(s) => "parse error: "@ + s@,
                SourceError::Config(s) => "config error: "@ + s@,
            },
    {
        match self {
            SourceError::Connection(s) => String::from_str("connection error: ").concat(
                s.as_str(),
            ),
            SourceError::Query(s) => String::from_str("query error: ").concat(s.as_str()),
            SourceError::Parse(s) => String::from_str("parse error: ").concat(s.as_str()),
            SourceError::Config(s) => String::from_str("config error: ").concat(s.as_str()),
        }
    }
}

/// A pull source. Implementations live with the embedding program, which
/// performs the network work; nothing is promised of what a fetch returns,
/// and the sync manager states what holds whatever comes back.
pub trait Source {
    /// Establishes a connection, or reports why it cannot.
    fn connect(&mut self) -> Result<(), SourceError>;

    /// Forgets the connection; safe to call repeatedly.
    fn disconnect(&mut self);

    /// Whether `connect` has succeeded and `disconnect` has not run since.
    fn is_connected(&self) -> bool;

    /// Pulls all rows for one table descriptor.
    fn fetch_table(&self, table: &SyncTable) -> Result<FetchResult, SourceError>;

    /// A short name for logs.
    fn name(&self) -> &'static str;
}

} // verus!
