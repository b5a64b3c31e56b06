//! The table engine: a typed columnar store with stable row identifiers.
//!
//! A table owns one dense vector of values per column, indexed by an internal
//! slot. Slots are allocated at insert time and never reused; a deleted slot
//! is tombstoned and retained, so every other live row keeps its slot. Row
//! identifiers are assigned monotonically from 1 — the row in slot `s` has
//! identifier `s + 1` — and are never reused: a failed insert allocates no
//! slot and does not advance the counter.

use vstd::prelude::*;

use crate::search::SearchType;
use crate::sort::{pair_le, sort_pairs, SortKey, SortKeyView};
use crate::value::{spec_type_matches, type_matches, ColumnType, Value, ValueView};

verus! {

use vstd::seq_lib::group_to_multiset_ensures;

/// A column descriptor: a name and a declared type, fixed at table creation.
#[derive(Debug)]
pub struct Column {
    pub name: String,
    pub col_type: ColumnType,
}

/// The mathematical shape of a `Column`.
#[verifier::ext_equal]
pub ghost struct ColumnView {
    pub name: Seq<char>,
    pub col_type: ColumnType,
}

impl View for Column {
    type V = ColumnView;

    open spec fn view(&self) -> ColumnView {
        ColumnView { name: self.name@, col_type: self.col_type }
    }
}

impl DeepView for Column {
    type V = ColumnView;

    open spec fn deep_view(&self) -> ColumnView {
        self@
    }
}

impl Clone for Column {
    /// A clone carries the same view.
    fn clone(&self) -> (res: Self)
        ensures
            res@ == self@,
    {
        Column { name: self.name.clone(), col_type: self.col_type }
    }
}

/// Why an insert or update was rejected.
#[derive(Clone, Copy, Debug, PartialEq, Eq, Structural)]
pub enum TableError {
    /// The row's length differs from the table's column count.
    ArityMismatch,
    /// The value for the named column is non-null and of the wrong type.
    TypeMismatch { column: usize },
}

/// The row has the right arity and every value fits its column's type.
pub open spec fn row_ok(cols: Seq<ColumnView>, row: Seq<ValueView>) -> bool {
    row.len() == cols.len() && forall|c: int|
        0 <= c < cols.len() ==> spec_type_matches(#[trigger] row[c], cols[c].col_type)
}

/// The least column index whose value does not fit, or `-1` where all fit.
pub open spec fn first_mismatch(cols: Seq<ColumnView>, row: Seq<ValueView>, c: int) -> int
    recommends
        row.len() == cols.len(),
        0 <= c <= cols.len(),
    decreases cols.len() - c,
{
    if c < 0 || c >= cols.len() {
        -1
    } else if !spec_type_matches(row[c], cols[c].col_type) {
        c
    } else {
        first_mismatch(cols, row, c + 1)
    }
}

/// How many of the first `k` rows a batch insert accepts.
pub open spec fn ok_count(cols: Seq<ColumnView>, rows: Seq<Seq<ValueView>>, k: int) -> int
    decreases k,
{
    if k <= 0 {
        0
    } else {
        ok_count(cols, rows, k - 1) + if row_ok(cols, rows[k - 1]) {
            1int
        } else {
            0int
        }
    }
}

/// The number of `true` entries: the live-row count.
pub open spec fn count_trues(s: Seq<bool>) -> int
    decreases s.len(),
{
    if s.len() == 0 {
        0
    } else {
        count_trues(s.drop_last()) + if s.last() {
            1int
        } else {
            0int
        }
    }
}

/// A typed columnar table with tombstoned deletion and stable row ids.
pub struct Table {
    cols: Vec<Column>,
    data: Vec<Vec<Value>>,
    live: Vec<bool>,
}

impl Table {
    /// The column descriptors, in declaration order.
    pub closed spec fn spec_columns(self) -> Seq<ColumnView> {
        self.cols.deep_view()
    }

    pub open spec fn n_cols(self) -> int {
        self.spec_columns().len() as int
    }

    /// The number of slots ever allocated; also the largest assigned row id.
    pub closed spec fn n_slots(self) -> int {
        self.live@.len() as int
    }

    /// The slot holds a live (not tombstoned) row.
    pub closed spec fn live_at(self, s: int) -> bool {
        0 <= s < self.live@.len() && self.live@[s]
    }

    /// The value stored for column `c` at slot `s`.
    pub closed spec fn val(self, c: int, s: int) -> ValueView {
        self.data@[c]@[s]@
    }

    /// The id is assigned and its row has not been deleted.
    pub open spec fn is_live_id(self, id: u64) -> bool {
        1 <= id <= self.n_slots() && self.live_at(id - 1)
    }

    /// The full row stored at slot `s`.
    pub open spec fn spec_row(self, s: int) -> Seq<ValueView> {
        Seq::new(self.n_cols() as nat, |c: int| self.val(c, s))
    }

    /// What `get` returns for an id.
    pub open spec fn spec_get(self, id: u64) -> Option<Seq<ValueView>> {
        if self.is_live_id(id) {
            Some(self.spec_row(id - 1))
        } else {
            None
        }
    }

    /// The live-row count.
    pub closed spec fn spec_row_count(self) -> int {
        count_trues(self.live@)
    }

    /// Structural well-formedness: one data vector per column, all of slot
    /// length, and every stored value fits its column's declared type and
    /// its machine range.
    pub closed spec fn wf(self) -> bool {
        &&& self.data@.len() == self.cols@.len()
        &&& forall|c: int| 0 <= c < self.data@.len() ==> #[trigger] self.data@[c]@.len() == self.live@.len()
        &&& forall|c: int, s: int|
            0 <= c < self.data@.len() && 0 <= s < self.live@.len() ==> spec_type_matches(
                #[trigger] self.data@[c]@[s]@,
                self.cols@[c].col_type,
            ) && crate::value::value_in_range(self.data@[c]@[s]@)
    }

    /// Creates an empty table with the given columns.
    pub fn new(columns: Vec<Column>) -> (r: Self)
        ensures
            r.wf(),
            r.n_slots() == 0,
            r.spec_columns() == columns.deep_view(),
    {
        let n = columns.len();
        let mut data: Vec<Vec<Value>> = Vec::new();
        let mut c: usize = 0;
        while c < n
            invariant
                c <= n,
                data@.len() == c,
                forall|k: int| 0 <= k < c ==> #[trigger] data@[k]@.len() == 0,
            decreases n - c,
        {
            data.push(Vec::new());
            c += 1;
        }
        Table { cols: columns, data, live: Vec::new() }
    }

    /// Creates an empty table, pre-sizing each column vector. The capacity is
    /// an optimization hint only: the semantics equal `new`.
    pub fn with_capacity(columns: Vec<Column>, capacity: usize) -> (r: Self)
        ensures
            r.wf(),
            r.n_slots() == 0,
            r.spec_columns() == columns.deep_view(),
    {
        let n = columns.len();
        let mut data: Vec<Vec<Value>> = Vec::new();
        let mut c: usize = 0;
        while c < n
            invariant
                c <= n,
                data@.len() == c,
                forall|k: int| 0 <= k < c ==> #[trigger] data@[k]@.len() == 0,
            decreases n - c,
        {
            data.push(Vec::with_capacity(capacity));
            c += 1;
        }
        Table { cols: columns, data, live: Vec::new() }
    }

    /// The number of declared columns.
    pub fn column_count(&self) -> (r: usize)
        ensures
            r == self.n_cols(),
    {
        self.cols.len()
    }

    /// The number of live rows.
    pub fn row_count(&self) -> (r: usize)
        ensures
            r == self.spec_row_count(),
    {
        let n = self.live.len();
        let mut acc: usize = 0;
        let mut i: usize = 0;
        while i < n
            invariant
                i <= n,
                n == self.live@.len(),
                acc == count_trues(self.live@.take(i as int)),
                acc <= i,
            decreases n - i,
        {
            proof {
                assert(self.live@.take(i + 1).drop_last() =~= self.live@.take(i as int));
                assert(self.live@.take(i + 1).last() == self.live@[i as int]);
            }
            if self.live[i] {
                acc += 1;
            }
            i += 1;
        }
        proof {
            assert(self.live@.take(n as int) =~= self.live@);
        }
        acc
    }

    /// The index of the first column with this name, or `-1`.
    pub open spec fn spec_column_index(self, name: Seq<char>) -> int {
        find_col(self.spec_columns(), name, 0)
    }

    /// The index of the named column; names are compared case-sensitively and
    /// the first match wins.
    pub fn column_index(&self, name: &str) -> (r: Option<usize>)
        ensures
            match r {
                Some(i) => 0 <= i < self.n_cols() && self.spec_columns()[i as int].name == name@
                    && i == self.spec_column_index(name@),
                None => self.spec_column_index(name@) == -1 && forall|j: int|
                    0 <= j < self.n_cols() ==> #[trigger] self.spec_columns()[j].name != name@,
            },
    {
        let n = self.cols.len();
        let mut i: usize = 0;
        while i < n
            invariant
                i <= n,
                n == self.cols@.len(),
                forall|j: int| 0 <= j < i ==> #[trigger] self.spec_columns()[j].name != name@,
            decreases n - i,
    {
            if crate::text::str_eq(self.cols[i].name.as_str(), name) {
                proof {
                    assert(self.spec_columns()[i as int].name == name@);
                    lemma_find_col(self.spec_columns(), name@, 0);
                    let r0 = find_col(self.spec_columns(), name@, 0);
                    if r0 == -1 {
                        assert(false);
                    } else if r0 < i {
                        assert(self.spec_columns()[r0].name != name@);
                        assert(false);
                    } else if r0 > i {
                        assert(self.spec_columns()[i as int].name != name@);
                        assert(false);
                    }
                }
                return Some(i);
            }
            proof {
                assert(self.spec_columns()[i as int].name != name@);
            }
            i += 1;
        }
        proof {
            lemma_find_col(self.spec_columns(), name@, 0);
            let r0 = find_col(self.spec_columns(), name@, 0);
            if r0 != -1 {
                assert(self.spec_columns()[r0].name != name@);
                assert(false);
            }
        }
        None
    }

    /// Inserts one row. On success the new row receives the next id,
    /// `n_slots + 1`; on failure nothing changes and no id is consumed.
    pub fn insert(&mut self, values: Vec<Value>) -> (r: Result<u64, TableError>)
        requires
            old(self).wf(),
        ensures
            final(self).wf(),
            final(self).spec_columns() == old(self).spec_columns(),
            match r {
                Ok(id) => insert_ok_post(*old(self), *final(self), values.deep_view(), id),
                Err(TableError::ArityMismatch) => {
                    &&& values.deep_view().len() != old(self).n_cols()
                    &&& *final(self) == *old(self)
                },
                Err(TableError::TypeMismatch { column }) => {
                    &&& values.deep_view().len() == old(self).n_cols()
                    &&& !row_ok(old(self).spec_columns(), values.deep_view())
                    &&& column == first_mismatch(old(self).spec_columns(), values.deep_view(), 0)
                    &&& *final(self) == *old(self)
                },
            },
    {
        let n = self.cols.len();
        if values.len() != n {
            return Err(TableError::ArityMismatch);
        }
        let mut c: usize = 0;
        while c < n
            invariant
                c <= n,
                *self == *old(self),
                self.wf(),
                n == self.cols@.len(),
                values@.len() == n,
                forall|k: int|
                    0 <= k < c ==> spec_type_matches(
                        #[trigger] values.deep_view()[k],
                        self.spec_columns()[k].col_type,
                    ),
                first_mismatch(self.spec_columns(), values.deep_view(), 0) == first_mismatch(
                    self.spec_columns(),
                    values.deep_view(),
                    c as int,
                ),
            decreases n - c,
        {
            if !type_matches(&values[c], self.cols[c].col_type) {
                proof {
                    assert(values.deep_view()[c as int] == values@[c as int]@);
                    assert(!spec_type_matches(
                        values.deep_view()[c as int],
                        self.spec_columns()[c as int].col_type,
                    ));
                    assert(first_mismatch(self.spec_columns(), values.deep_view(), c as int)
                        == c as int);
                }
                return Err(TableError::TypeMismatch { column: c });
            }
            proof {
                assert(values.deep_view()[c as int] == values@[c as int]@);
            }
            c += 1;
        }
        // all checks passed: allocate the slot and append to every column
        let ghost pre = *self;
        let mut k: usize = 0;
        while k < n
            invariant
                k <= n,
                n == pre.cols@.len(),
                values@.len() == n,
                self.cols == pre.cols,
                self.live == pre.live,
                self.data@.len() == pre.data@.len(),
                pre.wf(),
                forall|c2: int|
                    0 <= c2 < k ==> #[trigger] self.data@[c2]@.len() == pre.live@.len() + 1,
                forall|c2: int, s: int|
                    0 <= c2 < k && 0 <= s < pre.live@.len() ==> #[trigger] self.data@[c2]@[s]
                        == pre.data@[c2]@[s],
                forall|c2: int|
                    0 <= c2 < k ==> #[trigger] self.data@[c2]@[pre.live@.len() as int]@
                        == values@[c2]@,
                forall|c2: int| k <= c2 < n ==> #[trigger] self.data@[c2]@ == pre.data@[c2]@,
                forall|k2: int|
                    0 <= k2 < n ==> spec_type_matches(
                        #[trigger] values.deep_view()[k2],
                        pre.spec_columns()[k2].col_type,
                    ),
            decreases n - k,
        {
            let v = values[k].clone();
            proof {
                assert(pre.data@[k as int]@.len() == pre.live@.len());
            }
            self.data[k].push(v);
            k += 1;
        }
        self.live.push(true);
        let id = self.live.len() as u64;
        proof {
            assert(forall|k2: int|
                0 <= k2 < n ==> pre.spec_columns()[k2].col_type == pre.cols@[k2].col_type);
            assert(forall|k2: int|
                0 <= k2 < n ==> #[trigger] values.deep_view()[k2] == values@[k2]@);
            assert(self.wf()) by {
                assert(forall|c2: int|
                    0 <= c2 < n ==> #[trigger] self.data@[c2]@.len() == self.live@.len());
                assert(forall|c2: int, s: int|
                    0 <= c2 < n && 0 <= s < pre.live@.len() ==> spec_type_matches(
                        #[trigger] self.data@[c2]@[s]@,
                        self.cols@[c2].col_type,
                    ));
                assert forall|c2: int| 0 <= c2 < n implies spec_type_matches(
                    #[trigger] self.data@[c2]@[pre.live@.len() as int]@,
                    self.cols@[c2].col_type,
                ) by {
                    assert(self.data@[c2]@[pre.live@.len() as int]@ == values@[c2]@);
                    assert(spec_type_matches(
                        values.deep_view()[c2],
                        pre.spec_columns()[c2].col_type,
                    ));
                    assert(values.deep_view()[c2] == values@[c2]@);
                    assert(pre.spec_columns()[c2].col_type == pre.cols@[c2].col_type);
                    assert(self.cols@[c2] == pre.cols@[c2]);
                }
            }
            assert(self.spec_row(pre.n_slots()) =~= values.deep_view()) by {
                assert(forall|c2: int|
                    0 <= c2 < n ==> #[trigger] self.data@[c2]@[pre.live@.len() as int]@
                        == values@[c2]@);
            }
        }
        Ok(id)
    }

    /// Inserts a batch of rows; results correspond positionally. A failed row
    /// does not advance the id counter. An empty batch changes nothing.
    pub fn insert_batch(&mut self, rows: Vec<Vec<Value>>) -> (r: Vec<Result<u64, TableError>>)
        requires
            old(self).wf(),
        ensures
            final(self).wf(),
            final(self).spec_columns() == old(self).spec_columns(),
            r@.len() == rows@.len(),
            final(self).n_slots() == old(self).n_slots() + ok_count(
                old(self).spec_columns(),
                rows.deep_view(),
                rows@.len() as int,
            ),
            forall|k: int|
                0 <= k < rows@.len() ==> ((#[trigger] r@[k]) is Ok <==> row_ok(
                    old(self).spec_columns(),
                    rows.deep_view()[k],
                )),
            forall|k: int|
                0 <= k < rows@.len() && row_ok(old(self).spec_columns(), rows.deep_view()[k])
                    ==> #[trigger] r@[k] == Ok::<u64, TableError>(
                    (old(self).n_slots() + 1 + ok_count(
                        old(self).spec_columns(),
                        rows.deep_view(),
                        k,
                    )) as u64,
                ),
            forall|k: int|
                0 <= k < rows@.len() && rows.deep_view()[k].len() != old(self).n_cols()
                    ==> #[trigger] r@[k] == Err::<u64, TableError>(TableError::ArityMismatch),
            forall|k: int|
                0 <= k < rows@.len() && rows.deep_view()[k].len() == old(self).n_cols() && !row_ok(
                    old(self).spec_columns(),
                    rows.deep_view()[k],
                ) ==> #[trigger] r@[k] == Err::<u64, TableError>(
                    TableError::TypeMismatch {
                        column: first_mismatch(
                            old(self).spec_columns(),
                            rows.deep_view()[k],
                            0,
                        ) as usize,
                    },
                ),
            forall|k: int|
                0 <= k < rows@.len() && row_ok(old(self).spec_columns(), rows.deep_view()[k])
                    ==> final(self).spec_row(
                    old(self).n_slots() + ok_count(old(self).spec_columns(), rows.deep_view(), k),
                ) == rows.deep_view()[k] && final(self).live_at(
                    old(self).n_slots() + ok_count(old(self).spec_columns(), rows.deep_view(), k),
                ),
            forall|s: int|
                0 <= s < old(self).n_slots() ==> final(self).live_at(s) == old(self).live_at(s),
            forall|c: int, s: int|
                0 <= c < old(self).n_cols() && 0 <= s < old(self).n_slots() ==> final(self).val(
                    c,
                    s,
                ) == old(self).val(c, s),
            rows@.len() == 0 ==> *final(self) == *old(self),
    {
        let ghost pre = *self;
        let ghost cols = pre.spec_columns();
        let ghost rdv = rows.deep_view();
        let n = rows.len();
        let mut results: Vec<Result<u64, TableError>> = Vec::new();
        let mut k: usize = 0;
        proof {
            assert(rdv.len() == rows@.len());
        }
        while k < n
            invariant
                k <= n,
                n == rows@.len(),
                rdv == rows.deep_view(),
                cols == pre.spec_columns(),
                rdv.len() == n,
                results@.len() == k,
                self.wf(),
                pre.wf(),
                self.spec_columns() == cols,
                self.n_slots() == pre.n_slots() + ok_count(cols, rdv, k as int),
                forall|j: int|
                    0 <= j < k ==> ((#[trigger] results@[j]) is Ok <==> row_ok(cols, rdv[j])),
                forall|j: int|
                    0 <= j < k && row_ok(cols, rdv[j]) ==> #[trigger] results@[j] == Ok::<
                        u64,
                        TableError,
                    >((pre.n_slots() + 1 + ok_count(cols, rdv, j)) as u64),
                forall|j: int|
                    0 <= j < k && rdv[j].len() != cols.len() ==> #[trigger] results@[j] == Err::<
                        u64,
                        TableError,
                    >(TableError::ArityMismatch),
                forall|j: int|
                    0 <= j < k && rdv[j].len() == cols.len() && !row_ok(cols, rdv[j])
                        ==> #[trigger] results@[j] == Err::<u64, TableError>(
                        TableError::TypeMismatch {
                            column: first_mismatch(cols, rdv[j], 0) as usize,
                        },
                    ),
                forall|j: int|
                    0 <= j < k && row_ok(cols, rdv[j]) ==> self.spec_row(
                        pre.n_slots() + ok_count(cols, rdv, j),
                    ) == rdv[j] && self.live_at(pre.n_slots() + ok_count(cols, rdv, j)),
                forall|s: int| 0 <= s < pre.n_slots() ==> self.live_at(s) == pre.live_at(s),
                forall|c: int, s: int|
                    0 <= c < pre.n_cols() && 0 <= s < pre.n_slots() ==> self.val(c, s) == pre.val(
                        c,
                        s,
                    ),
                k == 0 ==> *self == pre,
            decreases n - k,
        {
            let ghost self_before = *self;
            let row = clone_row(&rows[k]);
            proof {
                assert(row.deep_view() =~= rdv[k as int]);
            }
            let res = self.insert(row);
            results.push(res);
            proof {
                assert(ok_count(cols, rdv, k + 1) == ok_count(cols, rdv, k as int) + if row_ok(
                    cols,
                    rdv[k as int],
                ) {
                    1int
                } else {
                    0int
                });
                lemma_ok_count_monotone(cols, rdv, 0, k as int);
                assert(pre.n_slots() + ok_count(cols, rdv, k as int) == self_before.n_slots());
                match res {
                    Ok(id) => {
                        assert(row_ok(cols, rdv[k as int]));
                        assert(id == pre.n_slots() + 1 + ok_count(cols, rdv, k as int));
                    },
                    Err(e) => {
                        assert(!row_ok(cols, rdv[k as int]));
                        assert(*self == self_before);
                    },
                }
                assert(forall|s: int|
                    0 <= s < pre.n_slots() ==> self.live_at(s) == pre.live_at(s)) by {
                    assert(forall|s: int|
                        0 <= s < self_before.n_slots() ==> self.live_at(s) == self_before.live_at(
                            s,
                        ));
                }
                assert(forall|c: int, s: int|
                    0 <= c < pre.n_cols() && 0 <= s < pre.n_slots() ==> self.val(c, s) == pre.val(
                        c,
                        s,
                    )) by {
                    assert(forall|c: int, s: int|
                        0 <= c < self_before.n_cols() && 0 <= s < self_before.n_slots()
                            ==> self.val(c, s) == self_before.val(c, s));
                }
                // earlier inserted rows keep their slots and values
                assert(forall|j: int|
                    0 <= j < k && row_ok(cols, rdv[j]) ==> self.spec_row(
                        pre.n_slots() + ok_count(cols, rdv, j),
                    ) =~= rdv[j] && self.live_at(pre.n_slots() + ok_count(cols, rdv, j))) by {
                    assert forall|j: int| 0 <= j < k && row_ok(cols, rdv[j]) implies self.spec_row(
                        pre.n_slots() + ok_count(cols, rdv, j),
                    ) =~= rdv[j] && self.live_at(pre.n_slots() + ok_count(cols, rdv, j)) by {
                        lemma_ok_count_monotone(cols, rdv, j, k as int);
                        assert(pre.n_slots() + ok_count(cols, rdv, j) < self_before.n_slots());
                        assert(self_before.spec_row(pre.n_slots() + ok_count(cols, rdv, j))
                            =~= rdv[j]);
                    }
                }
            }
            k += 1;
        }
        results
    }

    /// Updates the row with the given id. `Ok(true)` on success, `Ok(false)`
    /// where the id is unassigned or deleted, an error where the new values
    /// fail the same checks as `insert`; only a successful update changes
    /// anything.
    pub fn update(&mut self, id: u64, values: Vec<Value>) -> (r: Result<bool, TableError>)
        requires
            old(self).wf(),
        ensures
            final(self).wf(),
            final(self).spec_columns() == old(self).spec_columns(),
            final(self).n_slots() == old(self).n_slots(),
            match r {
                Ok(true) => update_ok_post(*old(self), *final(self), values.deep_view(), id),
                Ok(false) => {
                    &&& row_ok(old(self).spec_columns(), values.deep_view())
                    &&& !old(self).is_live_id(id)
                    &&& *final(self) == *old(self)
                },
                Err(TableError::ArityMismatch) => {
                    &&& values.deep_view().len() != old(self).n_cols()
                    &&& *final(self) == *old(self)
                },
                Err(TableError::TypeMismatch { column }) => {
                    &&& values.deep_view().len() == old(self).n_cols()
                    &&& !row_ok(old(self).spec_columns(), values.deep_view())
                    &&& column == first_mismatch(old(self).spec_columns(), values.deep_view(), 0)
                    &&& *final(self) == *old(self)
                },
            },
    {
        let n = self.cols.len();
        if values.len() != n {
            return Err(TableError::ArityMismatch);
        }
        let mut c: usize = 0;
        while c < n
            invariant
                c <= n,
                *self == *old(self),
                self.wf(),
                n == self.cols@.len(),
                values@.len() == n,
                forall|k: int|
                    0 <= k < c ==> spec_type_matches(
                        #[trigger] values.deep_view()[k],
                        self.spec_columns()[k].col_type,
                    ),
                first_mismatch(self.spec_columns(), values.deep_view(), 0) == first_mismatch(
                    self.spec_columns(),
                    values.deep_view(),
                    c as int,
                ),
            decreases n - c,
        {
            if !type_matches(&values[c], self.cols[c].col_type) {
                proof {
                    assert(values.deep_view()[c as int] == values@[c as int]@);
                    assert(!spec_type_matches(
                        values.deep_view()[c as int],
                        self.spec_columns()[c as int].col_type,
                    ));
                    assert(first_mismatch(self.spec_columns(), values.deep_view(), c as int)
                        == c as int);
                }
                return Err(TableError::TypeMismatch { column: c });
            }
            proof {
                assert(values.deep_view()[c as int] == values@[c as int]@);
            }
            c += 1;
        }
        if id == 0 || id > self.live.len() as u64 {
            return Ok(false);
        }
        let slot = (id - 1) as usize;
        if !self.live[slot] {
            return Ok(false);
        }
        let ghost pre = *self;
        let mut k: usize = 0;
        while k < n
            invariant
                k <= n,
                n == pre.cols@.len(),
                values@.len() == n,
                slot < pre.live@.len(),
                self.cols == pre.cols,
                self.live == pre.live,
                self.data@.len() == pre.data@.len(),
                pre.wf(),
                forall|c2: int|
                    0 <= c2 < k ==> #[trigger] self.data@[c2]@.len() == pre.live@.len(),
                forall|c2: int, s: int|
                    0 <= c2 < k && 0 <= s < pre.live@.len() && s != slot
                        ==> #[trigger] self.data@[c2]@[s] == pre.data@[c2]@[s],
                forall|c2: int|
                    0 <= c2 < k ==> #[trigger] self.data@[c2]@[slot as int]@ == values@[c2]@,
                forall|c2: int| k <= c2 < n ==> #[trigger] self.data@[c2]@ == pre.data@[c2]@,
                forall|k2: int|
                    0 <= k2 < n ==> spec_type_matches(
                        #[trigger] values.deep_view()[k2],
                        pre.spec_columns()[k2].col_type,
                    ),
            decreases n - k,
        {
            let v = values[k].clone();
            proof {
                assert(pre.data@[k as int]@.len() == pre.live@.len());
            }
            self.data[k].set(slot, v);
            k += 1;
        }
        proof {
            assert(forall|k2: int|
                0 <= k2 < n ==> pre.spec_columns()[k2].col_type == pre.cols@[k2].col_type);
            assert(forall|k2: int|
                0 <= k2 < n ==> #[trigger] values.deep_view()[k2] == values@[k2]@);
            assert(self.wf()) by {
                assert(forall|c2: int|
                    0 <= c2 < n ==> #[trigger] self.data@[c2]@.len() == self.live@.len());
                assert(forall|c2: int, s: int|
                    0 <= c2 < n && 0 <= s < pre.live@.len() && s != slot ==> spec_type_matches(
                        #[trigger] self.data@[c2]@[s]@,
                        self.cols@[c2].col_type,
                    ));
                assert forall|c2: int| 0 <= c2 < n implies spec_type_matches(
                    #[trigger] self.data@[c2]@[slot as int]@,
                    self.cols@[c2].col_type,
                ) by {
                    assert(self.data@[c2]@[slot as int]@ == values@[c2]@);
                    assert(spec_type_matches(
                        values.deep_view()[c2],
                        pre.spec_columns()[c2].col_type,
                    ));
                    assert(values.deep_view()[c2] == values@[c2]@);
                    assert(pre.spec_columns()[c2].col_type == pre.cols@[c2].col_type);
                    assert(self.cols@[c2] == pre.cols@[c2]);
                }
            }
            assert(self.spec_row(id - 1) =~= values.deep_view()) by {
                assert(forall|c2: int|
                    0 <= c2 < n ==> #[trigger] self.data@[c2]@[slot as int]@ == values@[c2]@);
            }
        }
        Ok(true)
    }

    /// Tombstones the row with the given id; `true` iff it was live. A second
    /// delete of the same id returns `false`.
    pub fn delete(&mut self, id: u64) -> (r: bool)
        requires
            old(self).wf(),
        ensures
            final(self).wf(),
            final(self).spec_columns() == old(self).spec_columns(),
            final(self).n_slots() == old(self).n_slots(),
            r == old(self).is_live_id(id),
            !r ==> *final(self) == *old(self),
            r ==> !final(self).live_at(id - 1),
            forall|s: int|
                0 <= s < old(self).n_slots() && s != id - 1 ==> final(self).live_at(s) == old(self).live_at(s),
            forall|c: int, s: int|
                0 <= c < old(self).n_cols() && 0 <= s < old(self).n_slots() ==> final(self).val(
                    c,
                    s,
                ) == old(self).val(c, s),
    {
        if id == 0 || id > self.live.len() as u64 {
            return false;
        }
        let slot = (id - 1) as usize;
        if !self.live[slot] {
            return false;
        }
        self.live.set(slot, false);
        true
    }

    /// Returns the live row with the given id, or `None`.
    pub fn get(&self, id: u64) -> (r: Option<Vec<Value>>)
        requires
            self.wf(),
        ensures
            match r {
                Some(row) => self.spec_get(id) == Some(row.deep_view()),
                None => self.spec_get(id) is None,
            },
    {
        if id == 0 || id > self.live.len() as u64 {
            return None;
        }
        let slot = (id - 1) as usize;
        if !self.live[slot] {
            return None;
        }
        let n = self.cols.len();
        let mut row: Vec<Value> = Vec::new();
        let mut c: usize = 0;
        while c < n
            invariant
                c <= n,
                n == self.cols@.len(),
                self.wf(),
                slot < self.live@.len(),
                row@.len() == c,
                forall|k: int| 0 <= k < c ==> #[trigger] row@[k]@ == self.val(k, slot as int),
            decreases n - c,
        {
            let v = self.data[c][slot].clone();
            let ghost r0 = row@;
            row.push(v);
            proof {
                assert(forall|k: int| 0 <= k < c ==> #[trigger] row@[k] == r0[k]);
            }
            c += 1;
        }
        proof {
            assert(forall|k: int| 0 <= k < n ==> #[trigger] row.deep_view()[k] == row@[k]@);
            assert(row.deep_view() =~= self.spec_row(id - 1));
        }
        Some(row)
    }

    /// Returns the found rows, paired with their ids, in the input order of
    /// the supplied ids; absent ids are dropped.
    pub fn get_many(&self, ids: &Vec<u64>) -> (r: Vec<(u64, Vec<Value>)>)
        requires
            self.wf(),
        ensures
            pairs_deep_view(r@) == self.spec_get_many(ids@),
    {
        let n = ids.len();
        let mut r: Vec<(u64, Vec<Value>)> = Vec::new();
        let mut i: usize = 0;
        proof {
            assert(ids@.skip(0) =~= ids@);
        }
        while i < n
            invariant
                i <= n,
                n == ids@.len(),
                self.wf(),
                self.spec_get_many(ids@) =~= pairs_deep_view(r@) + self.spec_get_many(
                    ids@.skip(i as int),
                ),
            decreases n - i,
        {
            let ghost rest = ids@.skip(i as int);
            proof {
                assert(rest[0] == ids@[i as int]);
                assert(rest.drop_first() =~= ids@.skip(i as int + 1));
            }
            match self.get(ids[i]) {
                Some(row) => {
                    let ghost r0 = r@;
                    r.push((ids[i], row));
                    proof {
                        assert(pairs_deep_view(r@) =~= pairs_deep_view(r0) + seq![
                            (ids@[i as int], self.spec_row(ids@[i as int] - 1)),
                        ]);
                        assert(pairs_deep_view(r0) + self.spec_get_many(rest) =~= pairs_deep_view(
                            r@,
                        ) + self.spec_get_many(ids@.skip(i as int + 1)));
                    }
                },
                None => {},
            }
            i += 1;
        }
        proof {
            assert(ids@.skip(n as int) =~= Seq::<u64>::empty());
            assert(pairs_deep_view(r@) + self.spec_get_many(ids@.skip(n as int)) =~= pairs_deep_view(
                r@,
            ));
        }
        r
    }

    /// What `get_many` returns: the live ids of the input, in input order,
    /// each with its row.
    pub open spec fn spec_get_many(self, ids: Seq<u64>) -> Seq<(u64, Seq<ValueView>)>
        decreases ids.len(),
    {
        if ids.len() == 0 {
            Seq::empty()
        } else {
            let rest = self.spec_get_many(ids.drop_first());
            if self.is_live_id(ids[0]) {
                seq![(ids[0], self.spec_row(ids[0] - 1))] + rest
            } else {
                rest
            }
        }
    }
}

impl Table {
    /// `Exact(v)` returns `id`: the row is live and its value in column `c`
    /// matches `v` exactly.
    pub open spec fn exact_result(self, c: int, v: ValueView, id: u64) -> bool {
        0 <= c < self.n_cols() && self.is_live_id(id) && crate::value::exact_matches(
            self.val(c, id - 1),
            v,
        )
    }

    /// The integer sort key of a row: its value in column `c`.
    pub open spec fn int_key(self, c: int, id: u64) -> int {
        match self.val(c, id - 1) {
            ValueView::Int(x) => x,
            _ => 0,
        }
    }

    /// The string sort key of a row: its value in column `c`.
    pub open spec fn str_key(self, c: int, id: u64) -> Seq<char> {
        match self.val(c, id - 1) {
            ValueView::String(s) => s,
            _ => Seq::empty(),
        }
    }

    /// `Range(min, max)` returns `id`: an `Int` column, a live row, and a
    /// non-null value within the inclusive bounds.
    pub open spec fn range_result(self, c: int, min: int, max: int, id: u64) -> bool {
        &&& 0 <= c < self.n_cols()
        &&& self.spec_columns()[c].col_type == ColumnType::Int
        &&& self.is_live_id(id)
        &&& self.val(c, id - 1) matches ValueView::Int(x) && min <= x <= max
    }

    /// `Prefix(p)` returns `id`: a `String` column, a live row, and a value
    /// that starts with `p`.
    pub open spec fn prefix_result(self, c: int, p: Seq<char>, id: u64) -> bool {
        &&& 0 <= c < self.n_cols()
        &&& self.spec_columns()[c].col_type == ColumnType::String
        &&& self.is_live_id(id)
        &&& self.val(c, id - 1) matches ValueView::String(s) && crate::text::starts_with(s, p)
    }

    /// `FullText(q)` returns `id`: a `String` column, a live row, and a value
    /// whose tokens include every token of `q`.
    pub open spec fn fulltext_result(self, c: int, q: Seq<char>, id: u64) -> bool {
        &&& 0 <= c < self.n_cols()
        &&& self.spec_columns()[c].col_type == ColumnType::String
        &&& self.is_live_id(id)
        &&& self.val(c, id - 1) matches ValueView::String(s) && crate::search::ft_match(s, q)
    }

    /// `Contains(q)` returns `id`: a `String` column, a live row, and a value
    /// containing `q` as a substring, compared case-insensitively through the
    /// Unicode lowercase mapping of both sides.
    pub open spec fn contains_result(self, c: int, q: Seq<char>, id: u64) -> bool {
        &&& 0 <= c < self.n_cols()
        &&& self.spec_columns()[c].col_type == ColumnType::String
        &&& self.is_live_id(id)
        &&& self.val(c, id - 1) matches ValueView::String(s) && crate::text::spec_contains(
            crate::text::lower_of(s),
            crate::text::lower_of(q),
        )
    }

    /// Dispatches a predicate against one column and returns the matching row
    /// ids. `Exact`, `FullText` and `Contains` results come back in ascending
    /// id order; `Range` ascending by value, ties by id; `Prefix` ascending
    /// lexicographically by value, ties by id. A predicate against an
    /// incompatible column, or an out-of-range column index, returns the
    /// empty list.
    pub fn search(&self, col: usize, st: SearchType) -> (r: Vec<u64>)
        requires
            self.wf(),
        ensures
            search_ensures(*self, col as int, st, r@),
    {
        match st {
            SearchType::Exact(v) => self.search_exact(col, &v),
            SearchType::Range { min, max } => self.search_range(col, min, max),
            SearchType::Prefix(pfx) => self.search_prefix(col, &pfx),
            SearchType::FullText(qs) => self.search_fulltext(col, &qs),
            SearchType::Contains(qs) => self.search_contains(col, &qs),
        }
    }

    fn search_exact(&self, c: usize, v: &Value) -> (r: Vec<u64>)
        requires
            self.wf(),
        ensures
            forall|id: u64| r@.contains(id) <==> self.exact_result(c as int, v@, id),
            forall|p: int, q: int| 0 <= p < q < r@.len() ==> r@[p] < r@[q],
    {
        let ncols = self.cols.len();
        let mut r: Vec<u64> = Vec::new();
        if c >= ncols {
            return r;
        }
        let n = self.live.len();
        let mut s: usize = 0;
        while s < n
            invariant
                self.wf(),
                c < ncols,
                ncols == self.n_cols(),
                n == self.n_slots(),
                s <= n,
                forall|k: int|
                    0 <= k < r@.len() ==> self.exact_result(c as int, v@, #[trigger] r@[k]),
                forall|id: u64|
                    self.exact_result(c as int, v@, id) && id as int <= s as int ==> r@.contains(
                        id,
                    ),
                forall|p: int, q: int| 0 <= p < q < r@.len() ==> r@[p] < r@[q],
                forall|k: int| 0 <= k < r@.len() ==> #[trigger] r@[k] as int <= s as int,
            decreases n - s,
        {
            let ghost sid = (s + 1) as u64;
            proof {
                assert(self.val(c as int, s as int) == self.data@[c as int]@[s as int]@);
            }
            if self.live[s] && crate::value::value_exact_match(&self.data[c][s], v) {
                let nid = s as u64 + 1;
                let ghost r0 = r@;
                r.push(nid);
                proof {
                    assert(self.exact_result(c as int, v@, nid));
                    assert(r@[r0.len() as int] == nid);
                    assert forall|id: u64|
                        self.exact_result(c as int, v@, id) && id as int <= s + 1 implies
                        r@.contains(id) by {
                        if id == nid {
                            assert(r@[r0.len() as int] == id);
                        } else {
                            assert(id as int <= s as int);
                            assert(r0.contains(id));
                            let k = choose|k: int| 0 <= k < r0.len() && r0[k] == id;
                            assert(r@[k] == id);
                        }
                    }
                }
            } else {
                proof {
                    assert(!self.exact_result(c as int, v@, sid));
                    assert forall|id: u64|
                        self.exact_result(c as int, v@, id) && id as int <= s + 1 implies
                        r@.contains(id) by {
                        assert(id as int <= s as int);
                    }
                }
            }
            s += 1;
        }
        proof {
            assert forall|id: u64| r@.contains(id) <==> self.exact_result(c as int, v@, id) by {
                if r@.contains(id) {
                    let k = choose|k: int| 0 <= k < r@.len() && r@[k] == id;
                    assert(self.exact_result(c as int, v@, r@[k]));
                }
                if self.exact_result(c as int, v@, id) {
                    assert(id as int <= n as int);
                }
            }
        }
        r
    }

    fn search_fulltext(&self, c: usize, q: &String) -> (r: Vec<u64>)
        requires
            self.wf(),
        ensures
            forall|id: u64| r@.contains(id) <==> self.fulltext_result(c as int, q@, id),
            forall|p: int, q2: int| 0 <= p < q2 < r@.len() ==> r@[p] < r@[q2],
    {
        let ncols = self.cols.len();
        let mut r: Vec<u64> = Vec::new();
        if c >= ncols {
            return r;
        }
        let is_str = match self.cols[c].col_type {
            ColumnType::String => true,
            _ => false,
        };
        proof {
            assert(self.spec_columns()[c as int].col_type == self.cols@[c as int].col_type);
        }
        if !is_str {
            return r;
        }
        let qchars = crate::text::to_chars(q.as_str());
        let qlow = crate::text::lower_chars(&qchars);
        let qtokens = crate::text::tokens_of(&qlow);
        let n = self.live.len();
        let mut s: usize = 0;
        while s < n
            invariant
                self.wf(),
                c < ncols,
                ncols == self.n_cols(),
                self.spec_columns()[c as int].col_type == ColumnType::String,
                n == self.n_slots(),
                s <= n,
                qlow@ == crate::text::lower_of(q@),
                forall|k: int|
                    0 <= k < qtokens@.len() ==> crate::text::has_token(
                        crate::text::lower_of(q@),
                        #[trigger] qtokens@[k]@,
                    ),
                forall|i: int, j: int|
                    #[trigger] crate::text::token_at(crate::text::lower_of(q@), i, j) ==> exists|
                        k: int,
                    |
                        0 <= k < qtokens@.len() && #[trigger] qtokens@[k]@ == crate::text::lower_of(
                            q@,
                        ).subrange(i, j),
                forall|k: int|
                    0 <= k < r@.len() ==> self.fulltext_result(c as int, q@, #[trigger] r@[k]),
                forall|id: u64|
                    self.fulltext_result(c as int, q@, id) && id as int <= s as int
                        ==> r@.contains(id),
                forall|p: int, q2: int| 0 <= p < q2 < r@.len() ==> r@[p] < r@[q2],
                forall|k: int| 0 <= k < r@.len() ==> #[trigger] r@[k] as int <= s as int,
            decreases n - s,
        {
            let ghost sid = (s + 1) as u64;
            let mut matched = false;
            proof {
                assert(self.val(c as int, s as int) == self.data@[c as int]@[s as int]@);
            }
            if self.live[s] {
                match &self.data[c][s] {
                    Value::String(sv) => {
                        let slow = crate::text::lower_chars(sv);
                        let rowtokens = crate::text::tokens_of(&slow);
                        let subset = crate::text::tokens_subset(&qtokens, &rowtokens);
                        proof {
                            let lq = crate::text::lower_of(q@);
                            let ls = crate::text::lower_of(sv@);
                            assert(slow@ == ls);
                            if subset {
                                assert forall|i: int, j: int|
                                    #[trigger] crate::text::token_at(lq, i, j) implies
                                    crate::text::has_token(ls, lq.subrange(i, j)) by {
                                    let k = choose|k: int|
                                        0 <= k < qtokens@.len() && #[trigger] qtokens@[k]@
                                            == lq.subrange(i, j);
                                    assert(crate::text::spec_tokens_subset(qtokens@, rowtokens@));
                                    assert(crate::text::token_found(rowtokens@, qtokens@[k]@));
                                    let m = choose|m: int|
                                        0 <= m < rowtokens@.len() && #[trigger] rowtokens@[m]@
                                            == qtokens@[k]@;
                                    assert(crate::text::has_token(ls, rowtokens@[m]@));
                                }
                                assert(crate::search::ft_match(sv@, q@));
                            } else {
                                assert(!crate::search::ft_match(sv@, q@)) by {
                                    if crate::search::ft_match(sv@, q@) {
                                        assert forall|k: int|
                                            0 <= k < qtokens@.len() implies crate::text::token_found(
                                            rowtokens@,
                                            (#[trigger] qtokens@[k])@,
                                        ) by {
                                            assert(crate::text::has_token(lq, qtokens@[k]@));
                                            let (i, j) = choose|i: int, j: int|
                                                #[trigger] crate::text::token_at(lq, i, j)
                                                    && lq.subrange(i, j) == qtokens@[k]@;
                                            assert(crate::text::has_token(
                                                ls,
                                                lq.subrange(i, j),
                                            ));
                                            let (i2, j2) = choose|i2: int, j2: int|
                                                #[trigger] crate::text::token_at(ls, i2, j2)
                                                    && ls.subrange(i2, j2) == qtokens@[k]@;
                                            assert(exists|k2: int|
                                                0 <= k2 < rowtokens@.len()
                                                    && #[trigger] rowtokens@[k2]@ == ls.subrange(
                                                    i2,
                                                    j2,
                                                ));
                                            let k2 = choose|k2: int|
                                                0 <= k2 < rowtokens@.len()
                                                    && #[trigger] rowtokens@[k2]@ == ls.subrange(
                                                    i2,
                                                    j2,
                                                );
                                            assert(rowtokens@[k2]@ == qtokens@[k]@);
                                        }
                                        assert(crate::text::spec_tokens_subset(
                                            qtokens@,
                                            rowtokens@,
                                        ));
                                        assert(false);
                                    }
                                }
                            }
                        }
                        matched = subset;
                    },
                    _ => {},
                }
            }
            if matched {
                let nid = s as u64 + 1;
                let ghost r0 = r@;
                r.push(nid);
                proof {
                    assert(self.fulltext_result(c as int, q@, nid));
                    assert(r@[r0.len() as int] == nid);
                    assert forall|id: u64|
                        self.fulltext_result(c as int, q@, id) && id as int <= s + 1 implies
                        r@.contains(id) by {
                        if id == nid {
                            assert(r@[r0.len() as int] == id);
                        } else {
                            assert(id as int <= s as int);
                            assert(r0.contains(id));
                            let k = choose|k: int| 0 <= k < r0.len() && r0[k] == id;
                            assert(r@[k] == id);
                        }
                    }
                }
            } else {
                proof {
                    assert(!self.fulltext_result(c as int, q@, sid));
                    assert forall|id: u64|
                        self.fulltext_result(c as int, q@, id) && id as int <= s + 1 implies
                        r@.contains(id) by {
                        assert(id as int <= s as int);
                    }
                }
            }
            s += 1;
        }
        proof {
            assert forall|id: u64| r@.contains(id) <==> self.fulltext_result(c as int, q@, id) by {
                if r@.contains(id) {
                    let k = choose|k: int| 0 <= k < r@.len() && r@[k] == id;
                    assert(self.fulltext_result(c as int, q@, r@[k]));
                }
                if self.fulltext_result(c as int, q@, id) {
                    assert(id as int <= n as int);
                }
            }
        }
        r
    }

    fn search_contains(&self, c: usize, q: &String) -> (r: Vec<u64>)
        requires
            self.wf(),
        ensures
            forall|id: u64| r@.contains(id) <==> self.contains_result(c as int, q@, id),
            forall|p: int, q2: int| 0 <= p < q2 < r@.len() ==> r@[p] < r@[q2],
    {
        let ncols = self.cols.len();
        let mut r: Vec<u64> = Vec::new();
        if c >= ncols {
            return r;
        }
        let is_str = match self.cols[c].col_type {
            ColumnType::String => true,
            _ => false,
        };
        proof {
            assert(self.spec_columns()[c as int].col_type == self.cols@[c as int].col_type);
        }
        if !is_str {
            return r;
        }
        let qchars = crate::text::to_chars(q.as_str());
        let qlow = crate::text::lower_chars(&qchars);
        let n = self.live.len();
        let mut s: usize = 0;
        while s < n
            invariant
                self.wf(),
                c < ncols,
                ncols == self.n_cols(),
                self.spec_columns()[c as int].col_type == ColumnType::String,
                n == self.n_slots(),
                s <= n,
                qlow@ == crate::text::lower_of(q@),
                forall|k: int|
                    0 <= k < r@.len() ==> self.contains_result(c as int, q@, #[trigger] r@[k]),
                forall|id: u64|
                    self.contains_result(c as int, q@, id) && id as int <= s as int
                        ==> r@.contains(id),
                forall|p: int, q2: int| 0 <= p < q2 < r@.len() ==> r@[p] < r@[q2],
                forall|k: int| 0 <= k < r@.len() ==> #[trigger] r@[k] as int <= s as int,
            decreases n - s,
        {
            let ghost sid = (s + 1) as u64;
            let mut matched = false;
            proof {
                assert(self.val(c as int, s as int) == self.data@[c as int]@[s as int]@);
            }
            if self.live[s] {
                match &self.data[c][s] {
                    Value::String(sv) => {
                        let slow = crate::text::lower_chars(sv);
                        matched = crate::text::contains_chars(&slow, &qlow);
                    },
                    _ => {},
                }
            }
            if matched {
                let nid = s as u64 + 1;
                let ghost r0 = r@;
                r.push(nid);
                proof {
                    assert(self.contains_result(c as int, q@, nid));
                    assert(r@[r0.len() as int] == nid);
                    assert forall|id: u64|
                        self.contains_result(c as int, q@, id) && id as int <= s + 1 implies
                        r@.contains(id) by {
                        if id == nid {
                            assert(r@[r0.len() as int] == id);
                        } else {
                            assert(id as int <= s as int);
                            assert(r0.contains(id));
                            let k = choose|k: int| 0 <= k < r0.len() && r0[k] == id;
                            assert(r@[k] == id);
                        }
                    }
                }
            } else {
                proof {
                    assert(!self.contains_result(c as int, q@, sid));
                    assert forall|id: u64|
                        self.contains_result(c as int, q@, id) && id as int <= s + 1 implies
                        r@.contains(id) by {
                        assert(id as int <= s as int);
                    }
                }
            }
            s += 1;
        }
        proof {
            assert forall|id: u64| r@.contains(id) <==> self.contains_result(c as int, q@, id) by {
                if r@.contains(id) {
                    let k = choose|k: int| 0 <= k < r@.len() && r@[k] == id;
                    assert(self.contains_result(c as int, q@, r@[k]));
                }
                if self.contains_result(c as int, q@, id) {
                    assert(id as int <= n as int);
                }
            }
        }
        r
    }
}

impl Table {
    fn search_range(&self, c: usize, min: i64, max: i64) -> (r: Vec<u64>)
        requires
            self.wf(),
        ensures
            forall|id: u64|
                r@.contains(id) <==> self.range_result(c as int, min as int, max as int, id),
            forall|p: int, q: int|
                0 <= p < q < r@.len() ==> self.int_key(c as int, r@[p]) < self.int_key(
                    c as int,
                    r@[q],
                ) || (self.int_key(c as int, r@[p]) == self.int_key(c as int, r@[q]) && r@[p]
                    < r@[q]),
    {
        let ncols = self.cols.len();
        if c >= ncols {
            let r: Vec<u64> = Vec::new();
            return r;
        }
        let is_int = match self.cols[c].col_type {
            ColumnType::Int => true,
            _ => false,
        };
        proof {
            assert(self.spec_columns()[c as int].col_type == self.cols@[c as int].col_type);
        }
        if !is_int {
            let r: Vec<u64> = Vec::new();
            return r;
        }
        let n = self.live.len();
        let mut pairs: Vec<(SortKey, u64)> = Vec::new();
        let mut s: usize = 0;
        while s < n
            invariant
                self.wf(),
                c < ncols,
                ncols == self.n_cols(),
                self.spec_columns()[c as int].col_type == ColumnType::Int,
                n == self.n_slots(),
                s <= n,
                forall|k: int|
                    0 <= k < pairs@.len() ==> self.range_result(
                        c as int,
                        min as int,
                        max as int,
                        (#[trigger] pairs@[k]).1,
                    ) && pairs@[k].0@ == SortKeyView::I(self.int_key(c as int, pairs@[k].1)),
                forall|a: int, b: int| 0 <= a < b < pairs@.len() ==> pairs@[a].1 < pairs@[b].1,
                forall|k: int| 0 <= k < pairs@.len() ==> (#[trigger] pairs@[k]).1 as int <= s as int,
                forall|id: u64|
                    (self.range_result(c as int, min as int, max as int, id) && id as int
                        <= s as int) ==> exists|k: int|
                        0 <= k < pairs@.len() && (#[trigger] pairs@[k]).1 == id,
            decreases n - s,
        {
            let ghost sid = (s + 1) as u64;
            let mut push_val: Option<i64> = None;
            if self.live[s] {
                match &self.data[c][s] {
                    Value::Int(x) => {
                        if min <= *x && *x <= max {
                            push_val = Some(*x);
                        }
                    },
                    _ => {},
                }
            }
            proof {
                assert(self.val(c as int, s as int) == self.data@[c as int]@[s as int]@);
            }
            match push_val {
                Some(x) => {
                    let nid = s as u64 + 1;
                    let ghost p0 = pairs@;
                    pairs.push((SortKey::I(x), nid));
                    proof {
                        assert(self.range_result(c as int, min as int, max as int, nid));
                        assert(self.int_key(c as int, nid) == x as int);
                        assert(pairs@[p0.len() as int].1 == nid);
                        assert forall|id: u64|
                            (self.range_result(c as int, min as int, max as int, id) && id as int
                                <= s + 1) implies exists|k: int|
                            0 <= k < pairs@.len() && (#[trigger] pairs@[k]).1 == id by {
                            if id == nid {
                                assert(pairs@[p0.len() as int].1 == id);
                            } else {
                                let k = choose|k: int|
                                    0 <= k < p0.len() && (#[trigger] p0[k]).1 == id;
                                assert(pairs@[k].1 == id);
                            }
                        }
                    }
                },
                None => {
                    proof {
                        assert(!self.range_result(c as int, min as int, max as int, sid));
                        assert forall|id: u64|
                            (self.range_result(c as int, min as int, max as int, id) && id as int
                                <= s + 1) implies exists|k: int|
                            0 <= k < pairs@.len() && (#[trigger] pairs@[k]).1 == id by {
                            assert(id as int <= s as int);
                        }
                    }
                },
            }
            s += 1;
        }
        let ghost collected = pairs@;
        let sorted = sort_pairs(pairs);
        proof {
            lemma_sorted_transport(collected, sorted@);
        }
        let m = sorted.len();
        let mut r: Vec<u64> = Vec::new();
        let mut k: usize = 0;
        while k < m
            invariant
                m == sorted@.len(),
                k <= m,
                r@.len() == k,
                forall|i: int| 0 <= i < k ==> #[trigger] r@[i] == sorted@[i].1,
            decreases m - k,
        {
            r.push(sorted[k].1);
            k += 1;
        }
        proof {
            assert forall|id: u64|
                r@.contains(id) <==> self.range_result(c as int, min as int, max as int, id) by {
                if r@.contains(id) {
                    let i = choose|i: int| 0 <= i < r@.len() && r@[i] == id;
                    assert(sorted@[i].1 == id);
                    assert(pair_in(collected, sorted@[i]));
                    let kk = choose|kk: int|
                        0 <= kk < collected.len() && #[trigger] collected[kk] == sorted@[i];
                    assert(self.range_result(c as int, min as int, max as int, id));
                }
                if self.range_result(c as int, min as int, max as int, id) {
                    assert(id as int <= n as int);
                    assert(has_id(collected, id));
                    assert(has_id(sorted@, id));
                    let k2 = choose|k2: int|
                        0 <= k2 < sorted@.len() && (#[trigger] sorted@[k2]).1 == id;
                    assert(r@[k2] == id);
                }
            }
            assert forall|p: int, q: int| 0 <= p < q < r@.len() implies self.int_key(
                c as int,
                r@[p],
            ) < self.int_key(c as int, r@[q]) || (self.int_key(c as int, r@[p]) == self.int_key(
                c as int,
                r@[q],
            ) && r@[p] < r@[q]) by {
                let pv = sorted@[p];
                let qv = sorted@[q];
                assert(pair_le(pv, qv));
                assert(pair_in(collected, pv));
                assert(pair_in(collected, qv));
                let kp = choose|kk: int| 0 <= kk < collected.len() && #[trigger] collected[kk] == pv;
                let kq = choose|kk: int| 0 <= kk < collected.len() && #[trigger] collected[kk] == qv;
                assert(pv.0@ == SortKeyView::I(self.int_key(c as int, pv.1)));
                assert(qv.0@ == SortKeyView::I(self.int_key(c as int, qv.1)));
                assert(pv.1 != qv.1);
            }
        }
        r
    }

    fn search_prefix(&self, c: usize, pfx: &String) -> (r: Vec<u64>)
        requires
            self.wf(),
        ensures
            forall|id: u64| r@.contains(id) <==> self.prefix_result(c as int, pfx@, id),
            forall|p: int, q: int|
                0 <= p < q < r@.len() ==> crate::text::chars_lt(
                    self.str_key(c as int, r@[p]),
                    self.str_key(c as int, r@[q]),
                ) || (crate::text::cp_eq(
                    self.str_key(c as int, r@[p]),
                    self.str_key(c as int, r@[q]),
                ) && r@[p] < r@[q]),
    {
        let ncols = self.cols.len();
        if c >= ncols {
            let r: Vec<u64> = Vec::new();
            return r;
        }
        let is_str = match self.cols[c].col_type {
            ColumnType::String => true,
            _ => false,
        };
        proof {
            assert(self.spec_columns()[c as int].col_type == self.cols@[c as int].col_type);
        }
        if !is_str {
            let r: Vec<u64> = Vec::new();
            return r;
        }
        let pchars = crate::text::to_chars(pfx.as_str());
        let n = self.live.len();
        let mut pairs: Vec<(SortKey, u64)> = Vec::new();
        let mut s: usize = 0;
        while s < n
            invariant
                self.wf(),
                c < ncols,
                ncols == self.n_cols(),
                self.spec_columns()[c as int].col_type == ColumnType::String,
                n == self.n_slots(),
                s <= n,
                pchars@ == pfx@,
                forall|k: int|
                    0 <= k < pairs@.len() ==> self.prefix_result(
                        c as int,
                        pfx@,
                        (#[trigger] pairs@[k]).1,
                    ) && pairs@[k].0@ == SortKeyView::S(self.str_key(c as int, pairs@[k].1)),
                forall|a: int, b: int| 0 <= a < b < pairs@.len() ==> pairs@[a].1 < pairs@[b].1,
                forall|k: int| 0 <= k < pairs@.len() ==> (#[trigger] pairs@[k]).1 as int <= s as int,
                forall|id: u64|
                    (self.prefix_result(c as int, pfx@, id) && id as int <= s as int) ==> exists|
                        k: int,
                    |
                        0 <= k < pairs@.len() && (#[trigger] pairs@[k]).1 == id,
            decreases n - s,
        {
            let ghost sid = (s + 1) as u64;
            let mut key: Option<Vec<char>> = None;
            if self.live[s] {
                match &self.data[c][s] {
                    Value::String(sv) => {
                        if crate::text::starts_with_chars(sv, &pchars) {
                            key = Some(sv.clone());
                        }
                    },
                    _ => {},
                }
            }
            proof {
                assert(self.val(c as int, s as int) == self.data@[c as int]@[s as int]@);
            }
            match key {
                Some(kv) => {
                    let nid = s as u64 + 1;
                    let ghost p0 = pairs@;
                    proof {
                        assert(kv@ == self.str_key(c as int, nid));
                    }
                    pairs.push((SortKey::S(kv), nid));
                    proof {
                        assert(self.prefix_result(c as int, pfx@, nid));
                        assert(pairs@[p0.len() as int].1 == nid);
                        assert(pairs@[p0.len() as int].0@ == SortKeyView::S(
                            self.str_key(c as int, nid),
                        ));
                        assert forall|id: u64|
                            (self.prefix_result(c as int, pfx@, id) && id as int <= s + 1) implies
                            exists|k: int|
                            0 <= k < pairs@.len() && (#[trigger] pairs@[k]).1 == id by {
                            if id == nid {
                                assert(pairs@[p0.len() as int].1 == id);
                            } else {
                                let k = choose|k: int|
                                    0 <= k < p0.len() && (#[trigger] p0[k]).1 == id;
                                assert(pairs@[k].1 == id);
                            }
                        }
                    }
                },
                None => {
                    proof {
                        assert(!self.prefix_result(c as int, pfx@, sid));
                        assert forall|id: u64|
                            (self.prefix_result(c as int, pfx@, id) && id as int <= s + 1) implies
                            exists|k: int|
                            0 <= k < pairs@.len() && (#[trigger] pairs@[k]).1 == id by {
                            assert(id as int <= s as int);
                        }
                    }
                },
            }
            s += 1;
        }
        let ghost collected = pairs@;
        let sorted = sort_pairs(pairs);
        proof {
            lemma_sorted_transport(collected, sorted@);
        }
        let m = sorted.len();
        let mut r: Vec<u64> = Vec::new();
        let mut k: usize = 0;
        while k < m
            invariant
                m == sorted@.len(),
                k <= m,
                r@.len() == k,
                forall|i: int| 0 <= i < k ==> #[trigger] r@[i] == sorted@[i].1,
            decreases m - k,
        {
            r.push(sorted[k].1);
            k += 1;
        }
        proof {
            assert forall|id: u64|
                r@.contains(id) <==> self.prefix_result(c as int, pfx@, id) by {
                if r@.contains(id) {
                    let i = choose|i: int| 0 <= i < r@.len() && r@[i] == id;
                    assert(sorted@[i].1 == id);
                    assert(pair_in(collected, sorted@[i]));
                    let kk = choose|kk: int|
                        0 <= kk < collected.len() && #[trigger] collected[kk] == sorted@[i];
                    assert(self.prefix_result(c as int, pfx@, id));
                }
                if self.prefix_result(c as int, pfx@, id) {
                    assert(id as int <= n as int);
                    assert(has_id(collected, id));
                    assert(has_id(sorted@, id));
                    let k2 = choose|k2: int|
                        0 <= k2 < sorted@.len() && (#[trigger] sorted@[k2]).1 == id;
                    assert(r@[k2] == id);
                }
            }
            assert forall|p: int, q: int| 0 <= p < q < r@.len() implies crate::text::chars_lt(
                self.str_key(c as int, r@[p]),
                self.str_key(c as int, r@[q]),
            ) || (crate::text::cp_eq(
                self.str_key(c as int, r@[p]),
                self.str_key(c as int, r@[q]),
            ) && r@[p] < r@[q]) by {
                let pv = sorted@[p];
                let qv = sorted@[q];
                assert(pair_le(pv, qv));
                assert(pair_in(collected, pv));
                assert(pair_in(collected, qv));
                let kp = choose|kk: int| 0 <= kk < collected.len() && #[trigger] collected[kk] == pv;
                let kq = choose|kk: int| 0 <= kk < collected.len() && #[trigger] collected[kk] == qv;
                assert(pv.0@ == SortKeyView::S(self.str_key(c as int, pv.1)));
                assert(qv.0@ == SortKeyView::S(self.str_key(c as int, qv.1)));
                assert(pv.1 != qv.1);
            }
        }
        r
    }
}

/// Some pair in the sequence carries this row id.
spec fn has_id(s: Seq<(SortKey, u64)>, id: u64) -> bool {
    exists|k: int| 0 <= k < s.len() && (#[trigger] s[k]).1 == id
}

/// The pair occurs in the sequence.
spec fn pair_in(s: Seq<(SortKey, u64)>, pv: (SortKey, u64)) -> bool {
    exists|k: int| 0 <= k < s.len() && #[trigger] s[k] == pv
}

/// Carries element facts across a sort: sorted and collected hold the same
/// pairs, and where collected carries strictly ascending ids, no id repeats.
proof fn lemma_sorted_transport(collected: Seq<(SortKey, u64)>, sorted: Seq<(SortKey, u64)>)
    requires
        sorted.to_multiset() == collected.to_multiset(),
        forall|a: int, b: int|
            0 <= a < b < collected.len() ==> (#[trigger] collected[a]).1 < (
            #[trigger] collected[b]).1,
    ensures
        forall|k: int| 0 <= k < sorted.len() ==> pair_in(collected, #[trigger] sorted[k]),
        forall|id: u64| #[trigger] has_id(collected, id) ==> has_id(sorted, id),
        forall|p: int, q: int|
            0 <= p < q < sorted.len() ==> (#[trigger] sorted[p]).1 != (#[trigger] sorted[q]).1,
{
    broadcast use group_to_multiset_ensures;
    broadcast use vstd::multiset::group_multiset_axioms;

    assert(collected.no_duplicates()) by {
        assert forall|a: int, b: int|
            0 <= a < collected.len() && 0 <= b < collected.len() && a != b implies collected[a]
            != collected[b] by {
            if a < b {
                assert(collected[a].1 < collected[b].1);
            } else {
                assert(collected[b].1 < collected[a].1);
            }
        }
    }
    collected.lemma_multiset_has_no_duplicates();
    sorted.lemma_multiset_has_no_duplicates_conv();
    assert forall|k: int| 0 <= k < sorted.len() implies pair_in(
        collected,
        #[trigger] sorted[k],
    ) by {
        assert(sorted.contains(sorted[k]));
        assert(sorted.to_multiset().count(sorted[k]) > 0);
        assert(collected.to_multiset().count(sorted[k]) > 0);
        assert(collected.contains(sorted[k]));
        let kk = choose|kk: int| 0 <= kk < collected.len() && collected[kk] == sorted[k];
        assert(collected[kk] == sorted[k]);
    }
    assert forall|id: u64| #[trigger] has_id(collected, id) implies has_id(sorted, id) by {
        let kk = choose|kk: int| 0 <= kk < collected.len() && (#[trigger] collected[kk]).1 == id;
        let pv = collected[kk];
        assert(collected.contains(pv));
        assert(collected.to_multiset().count(pv) > 0);
        assert(sorted.to_multiset().count(pv) > 0);
        assert(sorted.contains(pv));
        let k = choose|k: int| 0 <= k < sorted.len() && sorted[k] == pv;
        assert(sorted[k].1 == id);
    }
    assert forall|p: int, q: int| 0 <= p < q < sorted.len() implies (#[trigger] sorted[p]).1 != (
    #[trigger] sorted[q]).1 by {
        if sorted[p] == sorted[q] {
            // the same pair twice contradicts distinctness of the collection
            assert(false) by {
                sorted.lemma_multiset_has_no_duplicates_conv();
                assert(sorted.no_duplicates());
            }
        } else if sorted[p].1 == sorted[q].1 {
            // two distinct pairs with one id cannot both come from a
            // collection whose ids strictly ascend
            assert(sorted.contains(sorted[p]));
            assert(sorted.to_multiset().count(sorted[p]) > 0);
            assert(collected.to_multiset().count(sorted[p]) > 0);
            assert(collected.contains(sorted[p]));
            assert(sorted.contains(sorted[q]));
            assert(sorted.to_multiset().count(sorted[q]) > 0);
            assert(collected.to_multiset().count(sorted[q]) > 0);
            assert(collected.contains(sorted[q]));
            let kp = choose|kk: int| 0 <= kk < collected.len() && collected[kk] == sorted[p];
            let kq = choose|kk: int| 0 <= kk < collected.len() && collected[kk] == sorted[q];
            assert(kp != kq);
            if kp < kq {
                assert(collected[kp].1 < collected[kq].1);
            } else {
                assert(collected[kq].1 < collected[kp].1);
            }
            assert(false);
        }
    }
}

/// Membership in a sequence after a push.
proof fn lemma_push_contains<T>(s: Seq<T>, x: T)
    ensures
        forall|y: T| s.push(x).contains(y) <==> s.contains(y) || y == x,
{
    assert forall|y: T| s.push(x).contains(y) <==> s.contains(y) || y == x by {
        if s.contains(y) {
            let k = choose|k: int| 0 <= k < s.len() && s[k] == y;
            assert(s.push(x)[k] == y);
        }
        if y == x {
            assert(s.push(x)[s.len() as int] == y);
        }
        if s.push(x).contains(y) {
            let k = choose|k: int| 0 <= k < s.push(x).len() && s.push(x)[k] == y;
            if k < s.len() {
                assert(s[k] == y);
            }
        }
    }
}

/// What `search` promises: per predicate, which ids the result holds and in
/// what order it holds them.
pub open spec fn search_ensures(t: Table, c: int, st: SearchType, r: Seq<u64>) -> bool {
            match st {
                SearchType::Exact(v) => {
                    &&& forall|id: u64|
                        r.contains(id) <==> t.exact_result(c, v@, id)
                    &&& forall|p: int, q: int| 0 <= p < q < r.len() ==> r[p] < r[q]
                },
                SearchType::Range { min, max } => {
                    &&& forall|id: u64|
                        r.contains(id) <==> t.range_result(c, min as int, max as int, id)
                    &&& forall|p: int, q: int|
                        0 <= p < q < r.len() ==> t.int_key(c, r[p]) < t.int_key(
                            c,
                            r[q],
                        ) || (t.int_key(c, r[p]) == t.int_key(c, r[q])
                            && r[p] < r[q])
                },
                SearchType::Prefix(pfx) => {
                    &&& forall|id: u64|
                        r.contains(id) <==> t.prefix_result(c, pfx@, id)
                    &&& forall|p: int, q: int|
                        0 <= p < q < r.len() ==> crate::text::chars_lt(
                            t.str_key(c, r[p]),
                            t.str_key(c, r[q]),
                        ) || (crate::text::cp_eq(
                            t.str_key(c, r[p]),
                            t.str_key(c, r[q]),
                        ) && r[p] < r[q])
                },
                SearchType::FullText(qs) => {
                    &&& forall|id: u64|
                        r.contains(id) <==> t.fulltext_result(c, qs@, id)
                    &&& forall|p: int, q: int| 0 <= p < q < r.len() ==> r[p] < r[q]
                },
                SearchType::Contains(qs) => {
                    &&& forall|id: u64|
                        r.contains(id) <==> t.contains_result(c, qs@, id)
                    &&& forall|p: int, q: int| 0 <= p < q < r.len() ==> r[p] < r[q]
                },
            }
}

/// What a successful insert leaves behind: the row accepted, the next id
/// assigned, the new slot live and holding the row, and everything prior
/// untouched.
pub open spec fn insert_ok_post(pre: Table, post: Table, vals: Seq<ValueView>, id: u64) -> bool {
    &&& row_ok(pre.spec_columns(), vals)
    &&& id == pre.n_slots() + 1
    &&& post.spec_columns() == pre.spec_columns()
    &&& post.n_slots() == pre.n_slots() + 1
    &&& post.live_at(pre.n_slots())
    &&& post.spec_row(pre.n_slots()) == vals
    &&& forall|s: int| 0 <= s < pre.n_slots() ==> post.live_at(s) == pre.live_at(s)
    &&& forall|c: int, s: int|
        0 <= c < pre.n_cols() && 0 <= s < pre.n_slots() ==> post.val(c, s) == pre.val(c, s)
}

/// What a successful update leaves behind: the row accepted, the row live
/// and rewritten, and every other slot untouched.
pub open spec fn update_ok_post(pre: Table, post: Table, vals: Seq<ValueView>, id: u64) -> bool {
    &&& row_ok(pre.spec_columns(), vals)
    &&& pre.is_live_id(id)
    &&& post.spec_columns() == pre.spec_columns()
    &&& post.n_slots() == pre.n_slots()
    &&& post.spec_row(id - 1) == vals
    &&& forall|s: int| 0 <= s < pre.n_slots() ==> post.live_at(s) == pre.live_at(s)
    &&& forall|c: int, s: int|
        0 <= c < pre.n_cols() && 0 <= s < pre.n_slots() && s != id - 1 ==> post.val(c, s)
            == pre.val(c, s)
}

/// Insert then get yields the inserted row verbatim.
pub proof fn lemma_insert_then_get(pre: Table, post: Table, vals: Seq<ValueView>, id: u64)
    requires
        insert_ok_post(pre, post, vals, id),
    ensures
        post.spec_get(id) == Some(vals),
{
    assert(post.is_live_id(id));
    assert(post.spec_row(id - 1) == vals);
}

/// An insert assigns a fresh id — no id a live row carries is ever handed
/// out again — and every prior live row keeps its id and its values.
pub proof fn lemma_insert_id_fresh(pre: Table, post: Table, vals: Seq<ValueView>, id: u64)
    requires
        insert_ok_post(pre, post, vals, id),
    ensures
        forall|j: u64| pre.is_live_id(j) ==> j != id,
        forall|j: u64|
            pre.is_live_id(j) ==> post.is_live_id(j) && post.spec_get(j) == pre.spec_get(j),
{
    assert forall|j: u64| pre.is_live_id(j) implies post.is_live_id(j) && post.spec_get(j)
        == pre.spec_get(j) by {
        assert(post.live_at(j - 1) == pre.live_at(j - 1));
        assert(post.spec_row(j - 1) =~= pre.spec_row(j - 1));
    }
}

/// Every live row with a searchable value in a column is found by an exact
/// search for that value on that column.
pub proof fn lemma_live_value_found(t: Table, c: int, id: u64)
    requires
        0 <= c < t.n_cols(),
        t.is_live_id(id),
        crate::value::searchable(t.val(c, id - 1)),
    ensures
        t.exact_result(c, t.val(c, id - 1), id),
{
    crate::value::lemma_searchable_matches_self(t.val(c, id - 1));
}

/// With the widest bounds, a range search on an integer column returns
/// exactly the live rows with a non-null value there.
pub proof fn lemma_widest_range_is_all_nonnull(t: Table, c: int, id: u64)
    requires
        t.wf(),
        0 <= c < t.n_cols(),
        t.spec_columns()[c].col_type == ColumnType::Int,
    ensures
        t.range_result(c, i64::MIN as int, i64::MAX as int, id) <==> (t.is_live_id(id) && !(
        t.val(c, id - 1) is Null)),
{
    if t.is_live_id(id) {
        assert(spec_type_matches(t.val(c, id - 1), ColumnType::Int) && crate::value::value_in_range(
            t.val(c, id - 1),
        )) by {
            assert(t.cols@[c]@ == t.spec_columns()[c]);
            assert(t.cols@[c].col_type == ColumnType::Int);
        }
    }
}

/// A predicate against a column whose type cannot satisfy it returns the
/// empty list, not an error: a null or wrongly-typed exact probe, a range
/// against anything but an integer column, and a prefix, full-text or
/// substring query against anything but a string column match no row.
pub proof fn lemma_incompatible_predicate_empty(t: Table, c: int, st: SearchType, r: Seq<u64>)
    requires
        t.wf(),
        search_ensures(t, c, st, r),
        0 <= c < t.n_cols(),
        match st {
            SearchType::Exact(v) => v@ is Null || !spec_type_matches(
                v@,
                t.spec_columns()[c].col_type,
            ),
            SearchType::Range { min, max } => t.spec_columns()[c].col_type != ColumnType::Int,
            SearchType::Prefix(_) => t.spec_columns()[c].col_type != ColumnType::String,
            SearchType::FullText(_) => t.spec_columns()[c].col_type != ColumnType::String,
            SearchType::Contains(_) => t.spec_columns()[c].col_type != ColumnType::String,
        },
    ensures
        r.len() == 0,
{
    if r.len() > 0 {
        let id = r[0];
        assert(r.contains(id));
        match st {
            SearchType::Exact(v) => {
                assert(t.exact_result(c, v@, id));
                assert(t.val(c, id - 1) == t.data@[c]@[id - 1]@);
                assert(spec_type_matches(t.val(c, id - 1), t.spec_columns()[c].col_type)) by {
                    assert(t.cols@[c]@ == t.spec_columns()[c]);
                }
                assert(false);
            },
            SearchType::Range { min, max } => {
                assert(t.range_result(c, min as int, max as int, id));
                assert(false);
            },
            SearchType::Prefix(p) => {
                assert(t.prefix_result(c, p@, id));
                assert(false);
            },
            SearchType::FullText(q) => {
                assert(t.fulltext_result(c, q@, id));
                assert(false);
            },
            SearchType::Contains(q) => {
                assert(t.contains_result(c, q@, id));
                assert(false);
            },
        }
    }
}

/// After an update succeeds, exact search on the changed column no longer
/// returns the row under its old value and does return it under the new
/// one. The new value must be one exact search can see at all: a null, or a
/// float whose pattern is a NaN, is never returned.
pub proof fn lemma_update_then_exact(
    pre: Table,
    post: Table,
    vals: Seq<ValueView>,
    id: u64,
    c: int,
)
    requires
        update_ok_post(pre, post, vals, id),
        0 <= c < pre.n_cols(),
        !crate::value::exact_matches(vals[c], pre.val(c, id - 1)),
        crate::value::exact_matches(vals[c], vals[c]),
    ensures
        !post.exact_result(c, pre.val(c, id - 1), id),
        post.exact_result(c, vals[c], id),
{
    assert(post.val(c, id - 1) == post.spec_row(id - 1)[c]);
    assert(post.val(c, id - 1) == vals[c]);
    assert(post.is_live_id(id)) by {
        assert(post.live_at(id - 1) == pre.live_at(id - 1));
    }
    assert(!crate::value::exact_matches(post.val(c, id - 1), pre.val(c, id - 1)));
}

/// The first column index bearing this name, or `-1`.
pub open spec fn find_col(cols: Seq<ColumnView>, name: Seq<char>, i: int) -> int
    decreases cols.len() - i,
{
    if i < 0 || i >= cols.len() {
        -1
    } else if cols[i].name == name {
        i
    } else {
        find_col(cols, name, i + 1)
    }
}

proof fn lemma_find_col(cols: Seq<ColumnView>, name: Seq<char>, i: int)
    requires
        0 <= i <= cols.len(),
    ensures
        find_col(cols, name, i) == -1 ==> forall|j: int|
            i <= j < cols.len() ==> (#[trigger] cols[j]).name != name,
        find_col(cols, name, i) != -1 ==> i <= find_col(cols, name, i) < cols.len()
            && cols[find_col(cols, name, i)].name == name && forall|j: int|
            i <= j < find_col(cols, name, i) ==> (#[trigger] cols[j]).name != name,
    decreases cols.len() - i,
{
    if i < cols.len() && cols[i].name != name {
        lemma_find_col(cols, name, i + 1);
    }
}

/// The deep view of a sequence of `(id, row)` pairs.
pub open spec fn pairs_deep_view(r: Seq<(u64, Vec<Value>)>) -> Seq<(u64, Seq<ValueView>)> {
    Seq::new(r.len(), |k: int| (r[k].0, r[k].1.deep_view()))
}

proof fn lemma_ok_count_monotone(cols: Seq<ColumnView>, rows: Seq<Seq<ValueView>>, j: int, k: int)
    requires
        0 <= j <= k,
    ensures
        ok_count(cols, rows, j) <= ok_count(cols, rows, k),
        row_ok(cols, rows[j]) && j < k ==> ok_count(cols, rows, j) + 1 <= ok_count(cols, rows, k),
    decreases k - j,
{
    if j < k {
        lemma_ok_count_monotone(cols, rows, j + 1, k);
    }
}

/// Clones a row of values; the clone carries the same views.
pub fn clone_row(r: &Vec<Value>) -> (res: Vec<Value>)
    ensures
        res.deep_view() == r.deep_view(),
{
    let n = r.len();
    let mut res: Vec<Value> = Vec::new();
    let mut i: usize = 0;
    while i < n
        invariant
            i <= n,
            n == r@.len(),
            res@.len() == i,
            forall|k: int| 0 <= k < i ==> #[trigger] res@[k]@ == r@[k]@,
        decreases n - i,
    {
        let v = r[i].clone();
        let ghost r0 = res@;
        res.push(v);
        proof {
            assert(forall|k: int| 0 <= k < i ==> #[trigger] res@[k] == r0[k]);
        }
        i += 1;
    }
    proof {
        assert(forall|k: int| 0 <= k < n ==> #[trigger] res.deep_view()[k] == res@[k]@);
        assert(forall|k: int| 0 <= k < n ==> #[trigger] r.deep_view()[k] == r@[k]@);
        assert(res.deep_view() =~= r.deep_view());
    }
    res
}

} // verus!
