//! The sync coordinator: pulls rows through a `Source`, rebuilds target
//! tables, and publishes per-table progress.

use vstd::prelude::*;

use crate::database::{lemma_others_refl, lemma_others_trans, ok_ids, others_unchanged, Database, DbError};
use crate::table::{ok_count, row_ok, Column, ColumnView};
use crate::value::Value;

use super::source::{ColumnMappingView, Source, SyncTable};

verus! {

use vstd::string::StringExecFns;

/// One table's sync progress. Times are milliseconds since the Unix epoch.
#[derive(Debug)]
pub struct SyncStatus {
    pub table: String,
    pub last_sync_ms: Option<u64>,
    pub last_row_count: usize,
    pub last_duration_ms: u64,
    pub error: Option<String>,
    pub syncing: bool,
}

/// The mathematical shape of a `SyncStatus`.
#[verifier::ext_equal]
pub ghost struct SyncStatusView {
    pub table: Seq<char>,
    pub last_sync_ms: Option<u64>,
    pub last_row_count: usize,
    pub last_duration_ms: u64,
    pub error: Option<Seq<char>>,
    pub syncing: bool,
}

impl View for SyncStatus {
    type V = SyncStatusView;

    open spec fn view(&self) -> SyncStatusView {
        SyncStatusView {
            table: self.table@,
            last_sync_ms: self.last_sync_ms,
            last_row_count: self.last_row_count,
            last_duration_ms: self.last_duration_ms,
            error: match self.error {
                Some(e) => Some(e@),
                None => None,
            },
            syncing: self.syncing,
        }
    }
}

impl Clone for SyncStatus {
    /// A clone carries the same view.
    fn clone(&self) -> (res: Self)
        ensures
            res@ == self@,
    {
        SyncStatus {
            table: self.table.clone(),
            last_sync_ms: self.last_sync_ms,
            last_row_count: self.last_row_count,
            last_duration_ms: self.last_duration_ms,
            error: match &self.error {
                Some(e) => Some(e.clone()),
                None => None,
            },
            syncing: self.syncing,
        }
    }
}

/// One table's outcome of one sync run.
#[derive(Debug)]
pub struct SyncResult {
    pub table: String,
    pub success: bool,
    pub rows_synced: usize,
    pub duration_ms: u64,
    pub error: Option<String>,
}

/// How the manager is set up: how often to run, which tables to pull, and
/// whether a target table is rebuilt from scratch on every sync.
#[derive(Debug)]
pub struct SyncConfig {
    pub enabled: bool,
    pub interval_secs: u64,
    pub tables: Vec<SyncTable>,
    pub clear_before_sync: bool,
}

impl Default for SyncConfig {
    /// Disabled, manual-only, no tables, rebuilding targets on sync.
    fn default() -> (r: Self)
        ensures
            !r.enabled,
            r.interval_secs == 0,
            r.tables@.len() == 0,
            r.clear_before_sync,
    {
        SyncConfig { enabled: false, interval_secs: 0, tables: Vec::new(), clear_before_sync: true }
    }
}

impl SyncConfig {
    /// The default configuration.
    pub fn new() -> (r: Self)
        ensures
            !r.enabled,
            r.interval_secs == 0,
            r.tables@.len() == 0,
            r.clear_before_sync,
    {
        SyncConfig { enabled: false, interval_secs: 0, tables: Vec::new(), clear_before_sync: true }
    }

    /// Sets the interval; a positive interval enables scheduled runs.
    pub fn with_interval(self, secs: u64) -> (r: Self)
        ensures
            r.interval_secs == secs,
            r.enabled == (secs > 0),
            r.tables == self.tables,
            r.clear_before_sync == self.clear_before_sync,
    {
        let mut s = self;
        s.interval_secs = secs;
        s.enabled = secs > 0;
        s
    }

    /// Adds one table to pull.
    pub fn with_table(self, table: SyncTable) -> (r: Self)
        ensures
            r.interval_secs == self.interval_secs,
            r.enabled == self.enabled,
            r.clear_before_sync == self.clear_before_sync,
            r.tables@ == self.tables@.push(table),
    {
        let mut s = self;
        s.tables.push(table);
        s
    }

    /// Chooses whether each sync rebuilds its target table from scratch.
    pub fn clear_before_sync(self, clear: bool) -> (r: Self)
        ensures
            r.interval_secs == self.interval_secs,
            r.enabled == self.enabled,
            r.tables == self.tables,
            r.clear_before_sync == clear,
    {
        let mut s = self;
        s.clear_before_sync = clear;
        s
    }
}

/// Relies on `std::time::SystemTime::now`: the wall clock, as milliseconds
/// since the Unix epoch. Nothing is promised of the value.
#[verifier::external_body]
fn now_millis() -> u64 {
    std::time::SystemTime::now().duration_since(std::time::UNIX_EPOCH).map(
        |d| d.as_millis() as u64,
    ).unwrap_or(0)
}

/// The target columns a sync table's mappings declare, in order.
pub open spec fn mapped_cols(ms: Seq<ColumnMappingView>) -> Seq<ColumnView> {
    Seq::new(ms.len(), |i: int| ColumnView { name: ms[i].target_name, col_type: ms[i].col_type })
}

/// Builds the target column descriptors from the declared mappings.
fn target_columns(table: &SyncTable) -> (r: Vec<Column>)
    ensures
        r.deep_view() == mapped_cols(table@.columns),
{
    let n = table.columns.len();
    let mut r: Vec<Column> = Vec::new();
    let mut i: usize = 0;
    while i < n
        invariant
            i <= n,
            n == table.columns@.len(),
            r@.len() == i,
            forall|k: int|
                0 <= k < i ==> #[trigger] r@[k]@ == (ColumnView {
                    name: table.columns@[k]@.target_name,
                    col_type: table.columns@[k]@.col_type,
                }),
        decreases n - i,
    {
        let m = &table.columns[i];
        let ghost r0 = r@;
        r.push(Column { name: m.target_name.clone(), col_type: m.col_type });
        proof {
            assert(forall|k: int| 0 <= k < i ==> #[trigger] r@[k] == r0[k]);
        }
        i += 1;
    }
    proof {
        assert(r.deep_view() =~= mapped_cols(table.columns.deep_view()));
    }
    r
}

proof fn lemma_ok_count_bounds(cols: Seq<ColumnView>, rows: Seq<Seq<crate::value::ValueView>>, k: int)
    requires
        0 <= k,
    ensures
        0 <= ok_count(cols, rows, k) <= k,
    decreases k,
{
    if k > 0 {
        lemma_ok_count_bounds(cols, rows, k - 1);
    }
}

/// Every slot a batch insert filled comes from some accepted row.
pub proof fn lemma_ok_count_surjective(
    cols: Seq<ColumnView>,
    rows: Seq<Seq<crate::value::ValueView>>,
    m: int,
    s: int,
)
    requires
        0 <= m,
        0 <= s < ok_count(cols, rows, m),
    ensures
        exists|k: int|
            0 <= k < m && row_ok(cols, #[trigger] rows[k]) && ok_count(cols, rows, k) == s,
    decreases m,
{
    lemma_ok_count_bounds(cols, rows, m - 1);
    if s < ok_count(cols, rows, m - 1) {
        lemma_ok_count_surjective(cols, rows, m - 1, s);
    } else {
        assert(row_ok(cols, rows[m - 1]) && ok_count(cols, rows, m - 1) == s);
    }
}

/// Applies fetched rows to the target table: with `clear`, the target is
/// dropped and recreated with the declared columns, then the rows go in;
/// without, the rows are appended to the existing target. Per-row failures
/// are tolerated and counted out. With `clear` the call always succeeds;
/// without, it fails exactly where the target does not exist. After a
/// `clear` rebuild the target holds exactly the accepted rows, in order:
/// each accepted row stands at its assigned slot, and
/// `lemma_ok_count_surjective` says every slot is such a row's.
pub fn apply_sync_rows(
    db: &mut Database,
    table: &SyncTable,
    clear: bool,
    rows: Vec<Vec<Value>>,
) -> (r: Result<usize, DbError>)
    requires
        old(db).wf(),
    ensures
        final(db).wf(),
        match r {
            Ok(inserted) => {
                &&& final(db).has_table(table@.target_table)
                &&& clear ==> {
                    let t = final(db).table_named(table@.target_table);
                    &&& t.spec_columns() == mapped_cols(table@.columns)
                    &&& t.n_slots() == ok_count(
                        mapped_cols(table@.columns),
                        rows.deep_view(),
                        rows@.len() as int,
                    )
                    &&& inserted == t.n_slots()
                    &&& forall|s: int| 0 <= s < t.n_slots() ==> t.live_at(s)
                    &&& forall|k: int|
                        0 <= k < rows@.len() && row_ok(
                            mapped_cols(table@.columns),
                            #[trigger] rows.deep_view()[k],
                        ) ==> t.spec_row(
                            ok_count(mapped_cols(table@.columns), rows.deep_view(), k),
                        ) == rows.deep_view()[k]
                }
                &&& !clear ==> {
                    let t0 = old(db).table_named(table@.target_table);
                    let t = final(db).table_named(table@.target_table);
                    &&& old(db).has_table(table@.target_table)
                    &&& t.spec_columns() == t0.spec_columns()
                    &&& t.n_slots() == t0.n_slots() + ok_count(
                        t0.spec_columns(),
                        rows.deep_view(),
                        rows@.len() as int,
                    )
                    &&& inserted == ok_count(
                        t0.spec_columns(),
                        rows.deep_view(),
                        rows@.len() as int,
                    )
                    &&& forall|k: int|
                        0 <= k < rows@.len() && row_ok(
                            t0.spec_columns(),
                            #[trigger] rows.deep_view()[k],
                        ) ==> t.spec_row(
                            t0.n_slots() + ok_count(t0.spec_columns(), rows.deep_view(), k),
                        ) == rows.deep_view()[k] && t.live_at(
                            t0.n_slots() + ok_count(t0.spec_columns(), rows.deep_view(), k),
                        )
                    &&& forall|s: int| 0 <= s < t0.n_slots() ==> t.live_at(s) == t0.live_at(s)
                    &&& forall|c: int, s: int|
                        0 <= c < t0.n_cols() && 0 <= s < t0.n_slots() ==> t.val(c, s) == t0.val(
                            c,
                            s,
                        )
                }
            },
            Err(e) => {
                &&& e == DbError::UnknownTable
                &&& !clear
                &&& !old(db).has_table(table@.target_table)
                &&& *final(db) == *old(db)
            },
        },
        others_unchanged(*old(db), *final(db), table@.target_table),
    {
        let target = table.target_table.as_str();
        let ghost cols = mapped_cols(table@.columns);
        let ghost rdv = rows.deep_view();
        let n_rows = rows.len();
        if clear {
            let _ = db.drop_table(target);
            let ghost after_drop = *db;
            let columns = target_columns(table);
            match db.create_table_with_capacity(target, columns, n_rows) {
                Ok(_) => {},
                Err(_) => {
                    // unreachable: the name was just freed
                    proof {
                        assert(false);
                    }
                    return Err(DbError::UnknownTable);
                },
            }
            proof {
                lemma_others_trans(*old(db), after_drop, *db, table@.target_table);
            }
        } else {
            match db.table_index(target) {
                Some(_) => {},
                None => {
                    proof {
                        lemma_others_refl(*db, table@.target_table);
                    }
                    return Err(DbError::UnknownTable);
                },
            }
        }
        let ghost mid = *db;
        proof {
            assert(others_unchanged(*old(db), mid, table@.target_table)) by {
                if !clear {
                    lemma_others_refl(*db, table@.target_table);
                }
            }
        }
        let ghost t_mid = mid.table_named(table@.target_table);
        proof {
            if clear {
                assert(t_mid.n_slots() == 0);
                assert(t_mid.spec_columns() == cols);
            }
        }
        match db.insert_rows(target, rows) {
            Ok(p) => {
                let inserted = p.1;
                proof {
                    assert(target@ == table@.target_table);
                    let t = db.table_named(table@.target_table);
                    lemma_ok_ids_len(t_mid.spec_columns(), rdv, t_mid.n_slots(), rdv.len() as int);
                    assert(db.has_table(table@.target_table));
                    assert(inserted == ok_count(t_mid.spec_columns(), rdv, rdv.len() as int));
                    assert(t.spec_columns() == t_mid.spec_columns());
                    assert(t.n_slots() == t_mid.n_slots() + ok_count(
                        t_mid.spec_columns(),
                        rdv,
                        rdv.len() as int,
                    ));
                    if clear {
                        assert(t_mid.spec_columns() == cols);
                        lemma_ok_count_bounds(cols, rdv, rdv.len() as int);
                        assert forall|s: int| 0 <= s < t.n_slots() implies t.live_at(s) by {
                            lemma_ok_count_surjective(cols, rdv, rdv.len() as int, s);
                            let k = choose|k: int|
                                0 <= k < rdv.len() && row_ok(cols, #[trigger] rdv[k]) && ok_count(
                                    cols,
                                    rdv,
                                    k,
                                ) == s;
                            assert(t.live_at(0 + ok_count(cols, rdv, k)));
                        }
                    }
                }
                proof {
                    lemma_others_trans(*old(db), mid, *db, table@.target_table);
                }
                Ok(inserted)
            },
            Err(_) => {
                // unreachable: the target exists at this point
                proof {
                    assert(false);
                }
                Err(DbError::UnknownTable)
            },
        }
    }

/// Whether a target name passes a trigger's filter: no filter admits all.
pub open spec fn matches_filter(target: Seq<char>, filter: Option<Seq<char>>) -> bool {
    match filter {
        None => true,
        Some(f) => target == f,
    }
}

/// The targets among the configured tables that the filter admits, in
/// configuration order.
pub open spec fn filtered_targets(tables: Seq<SyncTable>, filter: Option<Seq<char>>) -> Seq<
    Seq<char>,
>
    decreases tables.len(),
{
    if tables.len() == 0 {
        Seq::empty()
    } else {
        filtered_targets(tables.drop_last(), filter) + if matches_filter(
            tables.last()@.target_table,
            filter,
        ) {
            seq![tables.last()@.target_table]
        } else {
            Seq::empty()
        }
    }
}

/// The first status index bearing this table name, or `-1`.
pub open spec fn find_status(ss: Seq<SyncStatusView>, name: Seq<char>, i: int) -> int
    decreases ss.len() - i,
{
    if i < 0 || i >= ss.len() {
        -1
    } else if ss[i].table == name {
        i
    } else {
        find_status(ss, name, i + 1)
    }
}

proof fn lemma_find_status(ss: Seq<SyncStatusView>, name: Seq<char>, i: int)
    requires
        0 <= i <= ss.len(),
    ensures
        find_status(ss, name, i) == -1 ==> forall|j: int|
            i <= j < ss.len() ==> (#[trigger] ss[j]).table != name,
        find_status(ss, name, i) != -1 ==> i <= find_status(ss, name, i) < ss.len()
            && ss[find_status(ss, name, i)].table == name && forall|j: int|
            i <= j < find_status(ss, name, i) ==> (#[trigger] ss[j]).table != name,
    decreases ss.len() - i,
{
    if i < ss.len() && ss[i].table != name {
        lemma_find_status(ss, name, i + 1);
    }
}

/// The scheduler: owns the source and the per-table status, runs the pull
/// for each configured table, and counts completed syncs.
pub struct SyncManager<S> {
    source: S,
    config: SyncConfig,
    status: Vec<SyncStatus>,
    running: bool,
    sync_count: u64,
}

/// What `stop` leaves behind: the running flag cleared and all else as it
/// was; a second `stop` therefore changes nothing.
pub open spec fn stop_post<S: Source>(pre: SyncManager<S>, post: SyncManager<S>) -> bool {
    &&& !post.spec_running()
    &&& post.spec_source() == pre.spec_source()
    &&& post.spec_config() == pre.spec_config()
    &&& post.spec_status() == pre.spec_status()
    &&& post.spec_sync_count() == pre.spec_sync_count()
}

/// `stop` is idempotent: a second `stop` leaves every observable of the
/// manager exactly as the first left it.
pub proof fn lemma_stop_idempotent<S: Source>(
    a: SyncManager<S>,
    b: SyncManager<S>,
    c: SyncManager<S>,
)
    requires
        stop_post(a, b),
        stop_post(b, c),
    ensures
        c.spec_running() == b.spec_running(),
        c.spec_source() == b.spec_source(),
        c.spec_config() == b.spec_config(),
        c.spec_status() == b.spec_status(),
        c.spec_sync_count() == b.spec_sync_count(),
{
}

impl<S: Source> SyncManager<S> {
    /// The bound source.
    pub closed spec fn spec_source(self) -> S {
        self.source
    }

    /// The configuration the manager was built with.
    pub closed spec fn spec_config(self) -> SyncConfig {
        self.config
    }

    /// The per-table statuses, in configuration order.
    pub closed spec fn spec_status(self) -> Seq<SyncStatusView> {
        Seq::new(self.status@.len(), |i: int| self.status@[i]@)
    }

    /// Whether the background schedule is on.
    pub closed spec fn spec_running(self) -> bool {
        self.running
    }

    /// How many syncs have completed.
    pub closed spec fn spec_sync_count(self) -> int {
        self.sync_count as int
    }

    /// Builds a manager over a source: one fresh status per configured
    /// table, not running, no syncs counted.
    pub fn new(source: S, config: SyncConfig) -> (r: Self)
        ensures
            r.spec_source() == source,
            r.spec_config() == config,
            !r.spec_running(),
            r.spec_sync_count() == 0,
            r.spec_status().len() == config.tables@.len(),
            forall|i: int|
                0 <= i < config.tables@.len() ==> #[trigger] r.spec_status()[i]
                    == (SyncStatusView {
                    table: config.tables@[i]@.target_table,
                    last_sync_ms: None,
                    last_row_count: 0,
                    last_duration_ms: 0,
                    error: None,
                    syncing: false,
                }),
    {
        let n = config.tables.len();
        let mut status: Vec<SyncStatus> = Vec::new();
        let mut i: usize = 0;
        while i < n
            invariant
                i <= n,
                n == config.tables@.len(),
                status@.len() == i,
                forall|k: int|
                    0 <= k < i ==> #[trigger] status@[k]@ == (SyncStatusView {
                        table: config.tables@[k]@.target_table,
                        last_sync_ms: None,
                        last_row_count: 0,
                        last_duration_ms: 0,
                        error: None,
                        syncing: false,
                    }),
            decreases n - i,
        {
            let ghost s0 = status@;
            status.push(
                SyncStatus {
                    table: config.tables[i].target_table.clone(),
                    last_sync_ms: None,
                    last_row_count: 0,
                    last_duration_ms: 0,
                    error: None,
                    syncing: false,
                },
            );
            proof {
                assert(forall|k: int| 0 <= k < i ==> #[trigger] status@[k] == s0[k]);
            }
            i += 1;
        }
        SyncManager { source, config, status, running: false, sync_count: 0 }
    }

    /// Marks the named table as syncing and clears its error; a name with no
    /// status entry changes nothing.
    fn mark_syncing(&mut self, table: &str)
        ensures
            final(self).spec_source() == old(self).spec_source(),
            final(self).spec_config() == old(self).spec_config(),
            final(self).spec_running() == old(self).spec_running(),
            final(self).spec_sync_count() == old(self).spec_sync_count(),
            ({
                let i = find_status(old(self).spec_status(), table@, 0);
                if i == -1 {
                    final(self).spec_status() == old(self).spec_status()
                } else {
                    final(self).spec_status() == old(self).spec_status().update(
                        i,
                        SyncStatusView {
                            syncing: true,
                            error: None,
                            ..old(self).spec_status()[i]
                        },
                    )
                }
            }),
    {
        let n = self.status.len();
        let ghost pre = *self;
        let mut i: usize = 0;
        while i < n
            invariant
                i <= n,
                n == self.status@.len(),
                *self == pre,
                pre == *old(self),
                forall|j: int| 0 <= j < i ==> (#[trigger] pre.spec_status()[j]).table != table@,
            decreases n - i,
        {
            if crate::text::str_eq(self.status[i].table.as_str(), table) {
                proof {
                    assert(pre.spec_status()[i as int].table == table@);
                    lemma_find_status(pre.spec_status(), table@, 0);
                    let r0 = find_status(pre.spec_status(), table@, 0);
                    if r0 == -1 {
                        assert(false);
                    } else if r0 < i {
                        assert(pre.spec_status()[r0].table != table@);
                        assert(false);
                    } else if r0 > i {
                        assert(pre.spec_status()[i as int].table != table@);
                        assert(false);
                    }
                }
                let st = &mut self.status[i];
                st.syncing = true;
                st.error = None;
                proof {
                    assert(final(self).spec_status() =~= pre.spec_status().update(
                        i as int,
                        SyncStatusView { syncing: true, error: None, ..pre.spec_status()[i as int] },
                    ));
                }
                return ;
            }
            proof {
                assert(pre.spec_status()[i as int].table != table@);
            }
            i += 1;
        }
        proof {
            lemma_find_status(pre.spec_status(), table@, 0);
            let r0 = find_status(pre.spec_status(), table@, 0);
            if r0 != -1 {
                assert(pre.spec_status()[r0].table != table@);
                assert(false);
            }
        }
    }

    /// Records a failed sync on the named table: the error text, no longer
    /// syncing; all other progress fields keep their last good values.
    fn record_error(&mut self, table: &str, msg: String)
        ensures
            final(self).spec_source() == old(self).spec_source(),
            final(self).spec_config() == old(self).spec_config(),
            final(self).spec_running() == old(self).spec_running(),
            final(self).spec_sync_count() == old(self).spec_sync_count(),
            ({
                let i = find_status(old(self).spec_status(), table@, 0);
                if i == -1 {
                    final(self).spec_status() == old(self).spec_status()
                } else {
                    final(self).spec_status() == old(self).spec_status().update(
                        i,
                        SyncStatusView {
                            syncing: false,
                            error: Some(msg@),
                            ..old(self).spec_status()[i]
                        },
                    )
                }
            }),
    {
        let n = self.status.len();
        let ghost pre = *self;
        let mut i: usize = 0;
        while i < n
            invariant
                i <= n,
                n == self.status@.len(),
                *self == pre,
                pre == *old(self),
                forall|j: int| 0 <= j < i ==> (#[trigger] pre.spec_status()[j]).table != table@,
            decreases n - i,
        {
            if crate::text::str_eq(self.status[i].table.as_str(), table) {
                proof {
                    assert(pre.spec_status()[i as int].table == table@);
                    lemma_find_status(pre.spec_status(), table@, 0);
                    let r0 = find_status(pre.spec_status(), table@, 0);
                    if r0 == -1 {
                        assert(false);
                    } else if r0 < i {
                        assert(pre.spec_status()[r0].table != table@);
                        assert(false);
                    } else if r0 > i {
                        assert(pre.spec_status()[i as int].table != table@);
                        assert(false);
                    }
                }
                let st = &mut self.status[i];
                st.syncing = false;
                st.error = Some(msg);
                proof {
                    assert(final(self).spec_status() =~= pre.spec_status().update(
                        i as int,
                        SyncStatusView {
                            syncing: false,
                            error: Some(msg@),
                            ..pre.spec_status()[i as int]
                        },
                    ));
                }
                return ;
            }
            proof {
                assert(pre.spec_status()[i as int].table != table@);
            }
            i += 1;
        }
        proof {
            lemma_find_status(pre.spec_status(), table@, 0);
            let r0 = find_status(pre.spec_status(), table@, 0);
            if r0 != -1 {
                assert(pre.spec_status()[r0].table != table@);
                assert(false);
            }
        }
    }

    /// Records a completed sync on the named table: completion time, rows,
    /// duration, no error, no longer syncing.
    fn record_success(&mut self, table: &str, now_ms: u64, rows: usize, duration_ms: u64)
        ensures
            final(self).spec_source() == old(self).spec_source(),
            final(self).spec_config() == old(self).spec_config(),
            final(self).spec_running() == old(self).spec_running(),
            final(self).spec_sync_count() == old(self).spec_sync_count(),
            ({
                let i = find_status(old(self).spec_status(), table@, 0);
                if i == -1 {
                    final(self).spec_status() == old(self).spec_status()
                } else {
                    final(self).spec_status() == old(self).spec_status().update(
                        i,
                        SyncStatusView {
                            table: old(self).spec_status()[i].table,
                            last_sync_ms: Some(now_ms),
                            last_row_count: rows,
                            last_duration_ms: duration_ms,
                            error: None,
                            syncing: false,
                        },
                    )
                }
            }),
    {
        let n = self.status.len();
        let ghost pre = *self;
        let mut i: usize = 0;
        while i < n
            invariant
                i <= n,
                n == self.status@.len(),
                *self == pre,
                pre == *old(self),
                forall|j: int| 0 <= j < i ==> (#[trigger] pre.spec_status()[j]).table != table@,
            decreases n - i,
        {
            if crate::text::str_eq(self.status[i].table.as_str(), table) {
                proof {
                    assert(pre.spec_status()[i as int].table == table@);
                    lemma_find_status(pre.spec_status(), table@, 0);
                    let r0 = find_status(pre.spec_status(), table@, 0);
                    if r0 == -1 {
                        assert(false);
                    } else if r0 < i {
                        assert(pre.spec_status()[r0].table != table@);
                        assert(false);
                    } else if r0 > i {
                        assert(pre.spec_status()[i as int].table != table@);
                        assert(false);
                    }
                }
                let st = &mut self.status[i];
                st.last_sync_ms = Some(now_ms);
                st.last_row_count = rows;
                st.last_duration_ms = duration_ms;
                st.error = None;
                st.syncing = false;
                proof {
                    assert(final(self).spec_status() =~= pre.spec_status().update(
                        i as int,
                        SyncStatusView {
                            table: pre.spec_status()[i as int].table,
                            last_sync_ms: Some(now_ms),
                            last_row_count: rows,
                            last_duration_ms: duration_ms,
                            error: None,
                            syncing: false,
                        },
                    ));
                }
                return ;
            }
            proof {
                assert(pre.spec_status()[i as int].table != table@);
            }
            i += 1;
        }
        proof {
            lemma_find_status(pre.spec_status(), table@, 0);
            let r0 = find_status(pre.spec_status(), table@, 0);
            if r0 != -1 {
                assert(pre.spec_status()[r0].table != table@);
                assert(false);
            }
        }
    }

    /// Pulls one table from the source and applies it: mark the status as
    /// syncing, fetch, rebuild or append, and record the outcome. A fetch or
    /// apply failure leaves the database untouched and records the error;
    /// success records the inserted row count and bumps the sync counter.
    /// What the applied rows look like in the target table is
    /// `apply_sync_rows`'s contract.
    pub fn sync_table(&mut self, table: &SyncTable, db: &mut Database) -> (r: SyncResult)
        requires
            old(db).wf(),
        ensures
            final(db).wf(),
            final(self).spec_source() == old(self).spec_source(),
            final(self).spec_config() == old(self).spec_config(),
            final(self).spec_running() == old(self).spec_running(),
            r.table@ == table@.target_table,
            r.success == (r.error is None),
            others_unchanged(*old(db), *final(db), table@.target_table),
            final(self).spec_status().len() == old(self).spec_status().len(),
            forall|j: int|
                0 <= j < old(self).spec_status().len() && j != find_status(
                    old(self).spec_status(),
                    table@.target_table,
                    0,
                ) ==> final(self).spec_status()[j] == old(self).spec_status()[j],
            !r.success ==> {
                &&& *final(db) == *old(db)
                &&& r.rows_synced == 0
                &&& final(self).spec_sync_count() == old(self).spec_sync_count()
                &&& ({
                    let i = find_status(old(self).spec_status(), table@.target_table, 0);
                    i != -1 ==> {
                        let st = final(self).spec_status()[i];
                        &&& st.table == old(self).spec_status()[i].table
                        &&& !st.syncing
                        &&& st.error is Some
                        &&& st.last_row_count == old(self).spec_status()[i].last_row_count
                        &&& st.last_sync_ms == old(self).spec_status()[i].last_sync_ms
                        &&& st.last_duration_ms == old(self).spec_status()[i].last_duration_ms
                    }
                })
            },
            r.success ==> {
                &&& final(db).has_table(table@.target_table)
                &&& final(self).spec_sync_count() == if old(self).spec_sync_count()
                    < u64::MAX as int {
                    old(self).spec_sync_count() + 1
                } else {
                    old(self).spec_sync_count()
                }
                &&& old(self).spec_config().clear_before_sync ==> {
                    let t = final(db).table_named(table@.target_table);
                    &&& t.spec_columns() == mapped_cols(table@.columns)
                    &&& r.rows_synced == t.n_slots()
                    &&& forall|s: int| 0 <= s < t.n_slots() ==> t.live_at(s)
                }
                &&& ({
                    let i = find_status(old(self).spec_status(), table@.target_table, 0);
                    i != -1 ==> {
                        let st = final(self).spec_status()[i];
                        &&& st.table == old(self).spec_status()[i].table
                        &&& !st.syncing
                        &&& st.error is None
                        &&& st.last_row_count == r.rows_synced
                        &&& st.last_duration_ms == r.duration_ms
                        &&& st.last_sync_ms is Some
                    }
                })
            },
    {
        let start = now_millis();
        self.mark_syncing(table.target_table.as_str());
        let ghost after_mark = *self;
        let fetched = self.source.fetch_table(table);
        match fetched {
            Err(e) => {
                let msg = e.message();
                let end = now_millis();
                let dur = if end >= start {
                    end - start
                } else {
                    0
                };
                self.record_error(table.target_table.as_str(), msg.clone());
                proof {
                    lemma_find_status(old(self).spec_status(), table@.target_table, 0);
                    lemma_find_status(after_mark.spec_status(), table@.target_table, 0);
                    lemma_others_refl(*db, table@.target_table);
                }
                SyncResult {
                    table: table.target_table.clone(),
                    success: false,
                    rows_synced: 0,
                    duration_ms: dur,
                    error: Some(msg),
                }
            },
            Ok(res) => {
                match apply_sync_rows(db, table, self.config.clear_before_sync, res.rows) {
                    Err(_) => {
                        let msg = String::from_str("table not found after creation");
                        let end = now_millis();
                        let dur = if end >= start {
                            end - start
                        } else {
                            0
                        };
                        self.record_error(table.target_table.as_str(), msg.clone());
                        proof {
                            lemma_find_status(old(self).spec_status(), table@.target_table, 0);
                            lemma_find_status(after_mark.spec_status(), table@.target_table, 0);
                        }
                        SyncResult {
                            table: table.target_table.clone(),
                            success: false,
                            rows_synced: 0,
                            duration_ms: dur,
                            error: Some(msg),
                        }
                    },
                    Ok(inserted) => {
                        let end = now_millis();
                        let dur = if end >= start {
                            end - start
                        } else {
                            0
                        };
                        self.record_success(table.target_table.as_str(), end, inserted, dur);
                        if self.sync_count < u64::MAX {
                            self.sync_count = self.sync_count + 1;
                        }
                        proof {
                            lemma_find_status(old(self).spec_status(), table@.target_table, 0);
                            lemma_find_status(after_mark.spec_status(), table@.target_table, 0);
                        }
                        SyncResult {
                            table: table.target_table.clone(),
                            success: true,
                            rows_synced: inserted,
                            duration_ms: dur,
                            error: None,
                        }
                    },
                }
            },
        }
    }

    /// Runs the sync for the configured tables a trigger's filter admits:
    /// every table where no name is given, else exactly the tables whose
    /// target bears that name. Non-matching tables are not synced: their
    /// status entries stay as they were, and with a name given, every
    /// database table not bearing it stays as it was.
    pub fn sync_filtered(&mut self, filter: Option<&str>, db: &mut Database) -> (r: Vec<
        SyncResult,
    >)
        requires
            old(db).wf(),
        ensures
            final(db).wf(),
            final(self).spec_source() == old(self).spec_source(),
            final(self).spec_config() == old(self).spec_config(),
            final(self).spec_running() == old(self).spec_running(),
            final(self).spec_status().len() == old(self).spec_status().len(),
            ({
                let fv = match filter {
                    Some(f) => Some(f@),
                    None => None,
                };
                &&& Seq::new(r@.len(), |k: int| r@[k].table@) == filtered_targets(
                    old(self).spec_config().tables@,
                    fv,
                )
                &&& forall|j: int|
                    0 <= j < old(self).spec_status().len() && !matches_filter(
                        (#[trigger] old(self).spec_status()[j]).table,
                        fv,
                    ) ==> final(self).spec_status()[j] == old(self).spec_status()[j]
            }),
            filter matches Some(f) ==> others_unchanged(*old(db), *final(db), f@),
    {
        let ghost fv: Option<Seq<char>> = match filter {
            Some(f) => Some(f@),
            None => None,
        };
        let ghost tabs = self.config.tables@;
        let n = self.config.tables.len();
        let mut r: Vec<SyncResult> = Vec::new();
        let mut i: usize = 0;
        proof {
            assert(tabs.take(0) =~= Seq::<SyncTable>::empty());
            assert(Seq::new(r@.len(), |k: int| r@[k].table@) =~= filtered_targets(
                tabs.take(0),
                fv,
            ));
            match filter {
                Some(f) => {
                    lemma_others_refl(*db, f@);
                },
                None => {},
            }
        }
        while i < n
            invariant
                i <= n,
                n == self.config.tables@.len(),
                tabs == old(self).spec_config().tables@,
                self.spec_config() == old(self).spec_config(),
                self.spec_source() == old(self).spec_source(),
                self.spec_running() == old(self).spec_running(),
                self.spec_status().len() == old(self).spec_status().len(),
                forall|j: int|
                    0 <= j < old(self).spec_status().len() ==> (#[trigger] self.spec_status()[j]).table
                        == old(self).spec_status()[j].table,
                fv == (match filter {
                    Some(f) => Some(f@),
                    None => None::<Seq<char>>,
                }),
                db.wf(),
                Seq::new(r@.len(), |k: int| r@[k].table@) == filtered_targets(
                    tabs.take(i as int),
                    fv,
                ),
                forall|j: int|
                    0 <= j < old(self).spec_status().len() && !matches_filter(
                        (#[trigger] old(self).spec_status()[j]).table,
                        fv,
                    ) ==> self.spec_status()[j] == old(self).spec_status()[j],
                filter matches Some(f) ==> others_unchanged(*old(db), *db, f@),
            decreases n - i,
        {
            proof {
                assert(tabs.take(i + 1).drop_last() =~= tabs.take(i as int));
                assert(tabs.take(i + 1).last() == tabs[i as int]);
            }
            let t = self.config.tables[i].clone();
            proof {
                assert(t@ == tabs[i as int]@);
            }
            let run = match filter {
                Some(f) => crate::text::str_eq(t.target_table.as_str(), f),
                None => true,
            };
            if run {
                proof {
                    assert(matches_filter(t@.target_table, fv));
                }
                let ghost self_before = *self;
                let ghost db_before = *db;
                let res = self.sync_table(&t, db);
                let ghost r0 = r@;
                r.push(res);
                proof {
                    assert(forall|k: int| 0 <= k < r0.len() ==> #[trigger] r@[k] == r0[k]);
                    assert(res.table@ == t@.target_table);
                    assert(Seq::new(r@.len(), |k: int| r@[k].table@) =~= filtered_targets(
                        tabs.take(i + 1),
                        fv,
                    ));
                    // every status entry keeps its name through the call
                    lemma_find_status(self_before.spec_status(), t@.target_table, 0);
                    let fi = find_status(self_before.spec_status(), t@.target_table, 0);
                    assert forall|j: int|
                        0 <= j < old(self).spec_status().len() implies (
                    #[trigger] self.spec_status()[j]).table == old(self).spec_status()[j].table by {
                        if j != fi {
                            assert(self.spec_status()[j] == self_before.spec_status()[j]);
                        }
                    }
                    // non-matching entries are not the synced one, so untouched
                    assert forall|j: int|
                        0 <= j < old(self).spec_status().len() && !matches_filter(
                            (#[trigger] old(self).spec_status()[j]).table,
                            fv,
                        ) implies self.spec_status()[j] == old(self).spec_status()[j] by {
                        if fi != -1 {
                            assert(self_before.spec_status()[fi].table == t@.target_table);
                            assert(j != fi);
                        }
                        assert(self.spec_status()[j] == self_before.spec_status()[j]);
                    }
                    // with a name given, the synced target bears it, so the
                    // frame composes
                    match filter {
                        Some(f) => {
                            assert(t@.target_table == f@);
                            lemma_others_trans(*old(db), db_before, *db, f@);
                        },
                        None => {},
                    }
                }
            } else {
                proof {
                    assert(!matches_filter(tabs[i as int]@.target_table, fv));
                    assert(filtered_targets(tabs.take(i + 1), fv) =~= filtered_targets(
                        tabs.take(i as int),
                        fv,
                    ));
                }
            }
            i += 1;
        }
        proof {
            assert(tabs.take(n as int) =~= tabs);
        }
        r
    }

    /// Syncs every configured table, in configuration order; one table's
    /// failure does not stop the next.
    pub fn sync_all(&mut self, db: &mut Database) -> (r: Vec<SyncResult>)
        requires
            old(db).wf(),
        ensures
            final(db).wf(),
            final(self).spec_source() == old(self).spec_source(),
            final(self).spec_config() == old(self).spec_config(),
            final(self).spec_running() == old(self).spec_running(),
            r@.len() == old(self).spec_config().tables@.len(),
            forall|i: int|
                0 <= i < r@.len() ==> (#[trigger] r@[i]).table@ == old(
                    self,
                ).spec_config().tables@[i]@.target_table,
    {
        let n = self.config.tables.len();
        let mut r: Vec<SyncResult> = Vec::new();
        let mut i: usize = 0;
        while i < n
            invariant
                i <= n,
                n == self.config.tables@.len(),
                db.wf(),
                self.spec_source() == old(self).spec_source(),
                self.spec_config() == old(self).spec_config(),
                self.spec_running() == old(self).spec_running(),
                r@.len() == i,
                forall|j: int|
                    0 <= j < i ==> (#[trigger] r@[j]).table@ == old(
                        self,
                    ).spec_config().tables@[j]@.target_table,
            decreases n - i,
        {
            let t = self.config.tables[i].clone();
            let res = self.sync_table(&t, db);
            let ghost r0 = r@;
            r.push(res);
            proof {
                assert(forall|j: int| 0 <= j < i ==> #[trigger] r@[j] == r0[j]);
                assert(t@ == old(self).spec_config().tables@[i as int]@);
            }
            i += 1;
        }
        r
    }

    /// Clears the running flag; the background worker exits at its next
    /// check. Stopping an already stopped manager changes nothing.
    pub fn stop(&mut self)
        ensures
            stop_post(*old(self), *final(self)),
            !old(self).spec_running() ==> *final(self) == *old(self),
    {
        self.running = false;
    }

    /// Turns the schedule on: `true` where a worker should start, which is
    /// when an interval is configured and none is running yet.
    pub fn begin_background_sync(&mut self) -> (r: bool)
        ensures
            r == (old(self).spec_config().interval_secs > 0 && !old(self).spec_running()),
            final(self).spec_running() == (old(self).spec_running() || old(
                self,
            ).spec_config().interval_secs > 0),
            final(self).spec_source() == old(self).spec_source(),
            final(self).spec_config() == old(self).spec_config(),
            final(self).spec_status() == old(self).spec_status(),
            final(self).spec_sync_count() == old(self).spec_sync_count(),
    {
        if self.config.interval_secs == 0 {
            return false;
        }
        if self.running {
            return false;
        }
        self.running = true;
        true
    }

    /// The configured interval, in seconds; zero means manual only.
    pub fn interval_secs(&self) -> (r: u64)
        ensures
            r == self.spec_config().interval_secs,
    {
        self.config.interval_secs
    }

    /// A snapshot of every table's status, in configuration order.
    pub fn status(&self) -> (r: Vec<SyncStatus>)
        ensures
            r@.len() == self.spec_status().len(),
            forall|i: int| 0 <= i < r@.len() ==> #[trigger] r@[i]@ == self.spec_status()[i],
    {
        let n = self.status.len();
        let mut r: Vec<SyncStatus> = Vec::new();
        let mut i: usize = 0;
        while i < n
            invariant
                i <= n,
                n == self.status@.len(),
                r@.len() == i,
                forall|k: int| 0 <= k < i ==> #[trigger] r@[k]@ == self.spec_status()[k],
            decreases n - i,
        {
            let st = self.status[i].clone();
            let ghost r0 = r@;
            r.push(st);
            proof {
                assert(forall|k: int| 0 <= k < i ==> #[trigger] r@[k] == r0[k]);
            }
            i += 1;
        }
        r
    }

    /// One table's status, or `None` where the name is not configured.
    pub fn table_status(&self, table: &str) -> (r: Option<SyncStatus>)
        ensures
            match r {
                Some(st) => find_status(self.spec_status(), table@, 0) != -1 && st@
                    == self.spec_status()[find_status(self.spec_status(), table@, 0)],
                None => find_status(self.spec_status(), table@, 0) == -1,
            },
    {
        let n = self.status.len();
        let mut i: usize = 0;
        while i < n
            invariant
                i <= n,
                n == self.status@.len(),
                forall|j: int| 0 <= j < i ==> (#[trigger] self.spec_status()[j]).table != table@,
            decreases n - i,
        {
            if crate::text::str_eq(self.status[i].table.as_str(), table) {
                proof {
                    assert(self.spec_status()[i as int].table == table@);
                    lemma_find_status(self.spec_status(), table@, 0);
                    let r0 = find_status(self.spec_status(), table@, 0);
                    if r0 == -1 {
                        assert(false);
                    } else if r0 < i {
                        assert(self.spec_status()[r0].table != table@);
                        assert(false);
                    } else if r0 > i {
                        assert(self.spec_status()[i as int].table != table@);
                        assert(false);
                    }
                }
                return Some(self.status[i].clone());
            }
            proof {
                assert(self.spec_status()[i as int].table != table@);
            }
            i += 1;
        }
        proof {
            lemma_find_status(self.spec_status(), table@, 0);
            let r0 = find_status(self.spec_status(), table@, 0);
            if r0 != -1 {
                assert(self.spec_status()[r0].table != table@);
                assert(false);
            }
        }
        None
    }

    /// How many syncs have completed.
    pub fn sync_count(&self) -> (r: u64)
        ensures
            r == self.spec_sync_count(),
    {
        self.sync_count
    }

    /// Whether the background schedule is on.
    pub fn is_running(&self) -> (r: bool)
        ensures
            r == self.spec_running(),
    {
        self.running
    }

}

/// The ids a batch assigns are one per accepted row.
proof fn lemma_ok_ids_len(
    cols: Seq<ColumnView>,
    rows: Seq<Seq<crate::value::ValueView>>,
    base: int,
    k: int,
)
    ensures
        ok_ids(cols, rows, base, k).len() == if k <= 0 {
            0int
        } else {
            ok_count(cols, rows, k)
        },
    decreases k,
{
    if k > 0 {
        lemma_ok_ids_len(cols, rows, base, k - 1);
    }
}

} // verus!
