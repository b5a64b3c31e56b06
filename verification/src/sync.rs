//! Pull replication: the source contract, the scheduler, and the bundled
//! source binding.

pub mod clickhouse;
pub mod manager;
pub mod source;

pub use clickhouse::ClickHouseSource;
pub use manager::{SyncConfig, SyncManager, SyncResult, SyncStatus};
pub use source::{ColumnMapping, Source, SourceConfig, SyncTable};
