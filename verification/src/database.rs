//! The database: a mapping from table name to table, and the operation
//! surface callers drive it with.

use vstd::prelude::*;

use crate::query::TableInfo;
use crate::search::SearchType;
use crate::table::{ok_count, row_ok, search_ensures, Column, Table, TableError};
use crate::text::str_eq;
use crate::value::{Value, ValueView};

verus! {

/// Why a database operation was rejected.
#[derive(Clone, Copy, Debug, PartialEq, Eq, Structural)]
pub enum DbError {
    /// A table with this name already exists.
    DuplicateTable,
    /// No table has this name.
    UnknownTable,
    /// The table has no column with this name.
    UnknownColumn,
}

struct TableEntry {
    name: String,
    table: Table,
}

/// The first index bearing this name, or `-1`.
pub open spec fn find_name(names: Seq<Seq<char>>, name: Seq<char>, i: int) -> int
    decreases names.len() - i,
{
    if i < 0 || i >= names.len() {
        -1
    } else if names[i] == name {
        i
    } else {
        find_name(names, name, i + 1)
    }
}

proof fn lemma_find_name(names: Seq<Seq<char>>, name: Seq<char>, i: int)
    requires
        0 <= i <= names.len(),
    ensures
        find_name(names, name, i) == -1 ==> forall|j: int|
            i <= j < names.len() ==> #[trigger] names[j] != name,
        find_name(names, name, i) != -1 ==> i <= find_name(names, name, i) < names.len()
            && names[find_name(names, name, i)] == name && forall|j: int|
            i <= j < find_name(names, name, i) ==> #[trigger] names[j] != name,
    decreases names.len() - i,
{
    if i < names.len() && names[i] != name {
        lemma_find_name(names, name, i + 1);
    }
}

/// The row ids a batch insert of `rows` into a table of `base` slots assigns,
/// in input order.
pub open spec fn ok_ids(
    cols: Seq<crate::table::ColumnView>,
    rows: Seq<Seq<ValueView>>,
    base: int,
    k: int,
) -> Seq<u64>
    decreases k,
{
    if k <= 0 {
        Seq::empty()
    } else {
        let rest = ok_ids(cols, rows, base, k - 1);
        if row_ok(cols, rows[k - 1]) {
            rest.push((base + ok_count(cols, rows, k)) as u64)
        } else {
            rest
        }
    }
}

/// The number of live ids a delete of `ids` removes: the distinct live ids.
pub open spec fn del_count(t: Table, ids: Seq<u64>) -> int
    decreases ids.len(),
{
    if ids.len() == 0 {
        0
    } else {
        del_count(t, ids.drop_last()) + if t.is_live_id(ids.last()) && !ids.drop_last().contains(
            ids.last(),
        ) {
            1int
        } else {
            0int
        }
    }
}

/// Every id is live in `cur` exactly where it was live in `t0` and is not
/// among the deleted ids.
pub open spec fn live_after_deletes(cur: Table, t0: Table, done: Seq<u64>) -> bool {
    forall|idv: u64| #[trigger] cur.is_live_id(idv) == (t0.is_live_id(idv) && !done.contains(idv))
}

/// Every table other than the named one keeps its presence and, where
/// present, its content.
pub open spec fn others_unchanged(pre: Database, post: Database, name: Seq<char>) -> bool {
    forall|n: Seq<char>|
        n != name ==> (#[trigger] post.has_table(n)) == pre.has_table(n) && (pre.has_table(n)
            ==> post.table_named(n) == pre.table_named(n))
}

/// An untouched database trivially keeps every other table.
pub proof fn lemma_others_refl(a: Database, name: Seq<char>)
    ensures
        others_unchanged(a, a, name),
{
}

/// The frame composes across consecutive operations on the same name.
pub proof fn lemma_others_trans(a: Database, b: Database, c: Database, name: Seq<char>)
    requires
        others_unchanged(a, b, name),
        others_unchanged(b, c, name),
    ensures
        others_unchanged(a, c, name),
{
    assert forall|n: Seq<char>| n != name implies (#[trigger] c.has_table(n)) == a.has_table(n)
        && (a.has_table(n) ==> c.table_named(n) == a.table_named(n)) by {
        assert(b.has_table(n) == a.has_table(n));
        assert(c.has_table(n) == b.has_table(n));
    }
}

/// Unchanged names and a per-index table frame give the name-based frame.
proof fn lemma_frame_same_names(pre: Database, post: Database, name: Seq<char>)
    requires
        post.spec_names() == pre.spec_names(),
        forall|j: int|
            0 <= j < pre.n_tables() && j != pre.name_index(name) ==> #[trigger] post.spec_tables()[j]
                == pre.spec_tables()[j],
    ensures
        others_unchanged(pre, post, name),
{
    assert forall|n: Seq<char>| n != name implies (#[trigger] post.has_table(n)) == pre.has_table(
        n,
    ) && (pre.has_table(n) ==> post.table_named(n) == pre.table_named(n)) by {
        assert(post.has_table(n) == pre.has_table(n));
        if pre.has_table(n) {
            lemma_find_name(pre.spec_names(), n, 0);
            let j = pre.name_index(n);
            assert(pre.spec_names()[j] == n);
            assert(post.name_index(n) == j);
            if j == pre.name_index(name) {
                lemma_find_name(pre.spec_names(), name, 0);
                assert(false);
            }
            assert(post.spec_tables()[j] == pre.spec_tables()[j]);
        }
    }
}

/// Appending a fresh name leaves every other table as it was.
proof fn lemma_frame_push(pre: Database, post: Database, name: Seq<char>)
    requires
        !pre.has_table(name),
        post.spec_names() == pre.spec_names().push(name),
        forall|i: int|
            0 <= i < pre.n_tables() ==> #[trigger] post.spec_tables()[i] == pre.spec_tables()[i],
    ensures
        others_unchanged(pre, post, name),
{
    assert forall|n: Seq<char>| n != name implies (#[trigger] post.has_table(n)) == pre.has_table(
        n,
    ) && (pre.has_table(n) ==> post.table_named(n) == pre.table_named(n)) by {
        if pre.has_table(n) {
            let j = choose|j: int|
                0 <= j < pre.n_tables() && #[trigger] pre.spec_names()[j] == n;
            assert(post.spec_names()[j] == n);
            assert(post.has_table(n));
            lemma_find_name(pre.spec_names(), n, 0);
            let jp = pre.name_index(n);
            lemma_find_name(post.spec_names(), n, 0);
            let jq = post.name_index(n);
            assert(post.spec_names()[jq] == n);
            if jq == pre.n_tables() {
                assert(post.spec_names()[jq] == name);
                assert(false);
            }
            assert(pre.spec_names()[jq] == n);
            assert(jp <= jq);
            assert(post.spec_names()[jp] == n);
            assert(jq <= jp);
            assert(post.table_named(n) == pre.table_named(n));
        } else {
            if post.has_table(n) {
                let j = choose|j: int|
                    0 <= j < post.n_tables() && #[trigger] post.spec_names()[j] == n;
                if j < pre.n_tables() {
                    assert(pre.spec_names()[j] == n);
                    assert(pre.has_table(n));
                } else {
                    assert(post.spec_names()[j] == name);
                }
                assert(false);
            }
        }
    }
}

/// Removing the (unique) entry of a name leaves every other table as it was.
proof fn lemma_frame_remove(pre: Database, post: Database, name: Seq<char>, i: int)
    requires
        pre.wf(),
        0 <= i < pre.n_tables(),
        pre.spec_names()[i] == name,
        post.spec_names() == pre.spec_names().remove(i),
        post.spec_tables() == pre.spec_tables().remove(i),
    ensures
        others_unchanged(pre, post, name),
{
    assert forall|n: Seq<char>| n != name implies (#[trigger] post.has_table(n)) == pre.has_table(
        n,
    ) && (pre.has_table(n) ==> post.table_named(n) == pre.table_named(n)) by {
        if pre.has_table(n) {
            let j = choose|j: int|
                0 <= j < pre.n_tables() && #[trigger] pre.spec_names()[j] == n;
            assert(j != i);
            if j < i {
                assert(post.spec_names()[j] == n);
            } else {
                assert(post.spec_names()[j - 1] == n);
            }
            assert(post.has_table(n));
            lemma_find_name(pre.spec_names(), n, 0);
            let jp = pre.name_index(n);
            assert(pre.spec_names()[jp] == n);
            lemma_find_name(post.spec_names(), n, 0);
            let jq = post.name_index(n);
            assert(post.spec_names()[jq] == n);
            // the post index maps back to a pre index bearing the same name
            let m = if jq < i {
                jq
            } else {
                jq + 1
            };
            assert(pre.spec_names()[m] == n);
            // names are unique, so the two pre indices coincide
            assert(m == jp) by {
                if m < jp {
                    assert(pre.spec_names()[m] != pre.spec_names()[jp]);
                } else if m > jp {
                    assert(pre.spec_names()[jp] != pre.spec_names()[m]);
                }
            }
            assert(post.spec_tables()[jq] == pre.spec_tables()[m]);
        } else {
            if post.has_table(n) {
                let j = choose|j: int|
                    0 <= j < post.n_tables() && #[trigger] post.spec_names()[j] == n;
                let m = if j < i {
                    j
                } else {
                    j + 1
                };
                assert(pre.spec_names()[m] == n);
                assert(pre.has_table(n));
                assert(false);
            }
        }
    }
}

/// Dropping a table frees its name — `create_table` fails exactly where
/// the name is taken, so a create directly after a drop of the same name
/// succeeds — and a freshly created table answers `get` with nothing for
/// every id, old ids included.
pub proof fn lemma_recreated_table_empty(db: Database, name: Seq<char>, id: u64)
    requires
        db.has_table(name),
        db.table_named(name).n_slots() == 0,
    ensures
        db.table_named(name).spec_get(id) is None,
{
}

/// An in-memory database: uniquely named tables.
pub struct Database {
    entries: Vec<TableEntry>,
}

impl Database {
    /// The table names, in creation order.
    pub closed spec fn spec_names(self) -> Seq<Seq<char>> {
        Seq::new(self.entries@.len(), |i: int| self.entries@[i].name@)
    }

    /// The tables, in creation order.
    pub closed spec fn spec_tables(self) -> Seq<Table> {
        Seq::new(self.entries@.len(), |i: int| self.entries@[i].table)
    }

    pub open spec fn n_tables(self) -> int {
        self.spec_names().len() as int
    }

    /// A table with this name exists.
    pub open spec fn has_table(self, name: Seq<char>) -> bool {
        exists|i: int| 0 <= i < self.n_tables() && #[trigger] self.spec_names()[i] == name
    }

    /// The index of the named table, or `-1`.
    pub open spec fn name_index(self, name: Seq<char>) -> int {
        find_name(self.spec_names(), name, 0)
    }

    /// The named table; meaningful only where `has_table` holds.
    pub open spec fn table_named(self, name: Seq<char>) -> Table {
        self.spec_tables()[self.name_index(name)]
    }

    /// Well-formedness: every table is well-formed and names never repeat.
    pub open spec fn wf(self) -> bool {
        &&& forall|i: int| 0 <= i < self.n_tables() ==> (#[trigger] self.spec_tables()[i]).wf()
        &&& forall|i: int, j: int|
            0 <= i < j < self.n_tables() ==> self.spec_names()[i] != self.spec_names()[j]
    }

    /// Creates an empty database.
    pub fn new() -> (r: Self)
        ensures
            r.wf(),
            r.n_tables() == 0,
    {
        Database { entries: Vec::new() }
    }

    /// The index of the named table.
    pub fn table_index(&self, name: &str) -> (r: Option<usize>)
        ensures
            match r {
                Some(i) => self.has_table(name@) && i == self.name_index(name@) && 0 <= i
                    < self.n_tables() && self.spec_names()[i as int] == name@,
                None => !self.has_table(name@) && self.name_index(name@) == -1,
            },
    {
        let n = self.entries.len();
        let mut i: usize = 0;
        while i < n
            invariant
                i <= n,
                n == self.entries@.len(),
                forall|j: int| 0 <= j < i ==> #[trigger] self.spec_names()[j] != name@,
            decreases n - i,
        {
            if str_eq(self.entries[i].name.as_str(), name) {
                proof {
                    assert(self.spec_names()[i as int] == name@);
                    lemma_find_name(self.spec_names(), name@, 0);
                    let r0 = find_name(self.spec_names(), name@, 0);
                    if r0 == -1 {
                        assert(false);
                    } else if r0 < i {
                        assert(self.spec_names()[r0] != name@);
                        assert(false);
                    } else if r0 > i {
                        assert(self.spec_names()[i as int] != name@);
                        assert(false);
                    }
                }
                return Some(i);
            }
            proof {
                assert(self.spec_names()[i as int] != name@);
            }
            i += 1;
        }
        proof {
            lemma_find_name(self.spec_names(), name@, 0);
            let r0 = find_name(self.spec_names(), name@, 0);
            if r0 != -1 {
                assert(self.spec_names()[r0] != name@);
                assert(false);
            }
        }
        None
    }

    /// Creates a table. Fails iff the name is taken; on success the new table
    /// is appended, empty, with the given columns.
    pub fn create_table(&mut self, name: &str, columns: Vec<Column>) -> (r: Result<(), DbError>)
        requires
            old(self).wf(),
        ensures
            final(self).wf(),
            match r {
                Ok(_) => {
                    &&& !old(self).has_table(name@)
                    &&& final(self).n_tables() == old(self).n_tables() + 1
                    &&& final(self).spec_names() == old(self).spec_names().push(name@)
                    &&& final(self).spec_tables()[old(self).n_tables()].n_slots() == 0
                    &&& final(self).spec_tables()[old(self).n_tables()].spec_columns()
                        == columns.deep_view()
                    &&& forall|i: int|
                        0 <= i < old(self).n_tables() ==> final(self).spec_tables()[i] == old(self).spec_tables()[i]
                    &&& final(self).has_table(name@)
                    &&& final(self).name_index(name@) == old(self).n_tables()
                    &&& final(self).table_named(name@) == final(self).spec_tables()[old(self).n_tables()]
                },
                Err(e) => {
                    &&& e == DbError::DuplicateTable
                    &&& old(self).has_table(name@)
                    &&& *final(self) == *old(self)
                },
            },
            others_unchanged(*old(self), *final(self), name@),
    {
        match self.table_index(name) {
            Some(_) => {
                proof {
                    lemma_others_refl(*self, name@);
                }
                Err(DbError::DuplicateTable)
            },
            None => {
                let ghost pre = *self;
                let t = Table::new(columns);
                self.entries.push(TableEntry { name: name.to_owned(), table: t });
                proof {
                    assert(self.spec_names() =~= pre.spec_names().push(name@));
                    assert(forall|i: int|
                        0 <= i < pre.n_tables() ==> self.spec_tables()[i]
                            == #[trigger] pre.spec_tables()[i]);
                    assert(self.spec_names()[pre.n_tables()] == name@);
                    assert(self.spec_tables()[pre.n_tables()] == t);
                    lemma_find_name(self.spec_names(), name@, 0);
                    let r0 = find_name(self.spec_names(), name@, 0);
                    if r0 == -1 {
                        assert(false);
                    } else if r0 < pre.n_tables() {
                        assert(self.spec_names()[r0] == pre.spec_names()[r0]);
                        assert(pre.has_table(name@));
                        assert(false);
                    }
                    lemma_frame_push(pre, *self, name@);
                    assert(self.wf()) by {
                        assert forall|i: int|
                            0 <= i < self.n_tables() implies (#[trigger] self.spec_tables()[i]).wf()
                        by {
                            if i < pre.n_tables() {
                                assert(self.spec_tables()[i] == pre.spec_tables()[i]);
                                assert(pre.spec_tables()[i].wf());
                            } else {
                                assert(self.spec_tables()[i] == t);
                            }
                        }
                        assert(forall|i: int, j: int|
                            0 <= i < j < self.n_tables() ==> self.spec_names()[i]
                                != self.spec_names()[j]) by {
                            assert(forall|i: int|
                                0 <= i < pre.n_tables() ==> #[trigger] pre.spec_names()[i]
                                    != name@);
                        }
                    }
                }
                Ok(())
            },
        }
    }

    /// As `create_table`, pre-sizing the column vectors; semantics identical.
    pub fn create_table_with_capacity(
        &mut self,
        name: &str,
        columns: Vec<Column>,
        capacity: usize,
    ) -> (r: Result<(), DbError>)
        requires
            old(self).wf(),
        ensures
            final(self).wf(),
            match r {
                Ok(_) => {
                    &&& !old(self).has_table(name@)
                    &&& final(self).n_tables() == old(self).n_tables() + 1
                    &&& final(self).spec_names() == old(self).spec_names().push(name@)
                    &&& final(self).spec_tables()[old(self).n_tables()].n_slots() == 0
                    &&& final(self).spec_tables()[old(self).n_tables()].spec_columns()
                        == columns.deep_view()
                    &&& forall|i: int|
                        0 <= i < old(self).n_tables() ==> final(self).spec_tables()[i] == old(self).spec_tables()[i]
                    &&& final(self).has_table(name@)
                    &&& final(self).name_index(name@) == old(self).n_tables()
                    &&& final(self).table_named(name@) == final(self).spec_tables()[old(self).n_tables()]
                },
                Err(e) => {
                    &&& e == DbError::DuplicateTable
                    &&& old(self).has_table(name@)
                    &&& *final(self) == *old(self)
                },
            },
            others_unchanged(*old(self), *final(self), name@),
    {
        match self.table_index(name) {
            Some(_) => {
                proof {
                    lemma_others_refl(*self, name@);
                }
                Err(DbError::DuplicateTable)
            },
            None => {
                let ghost pre = *self;
                let t = Table::with_capacity(columns, capacity);
                self.entries.push(TableEntry { name: name.to_owned(), table: t });
                proof {
                    assert(self.spec_names() =~= pre.spec_names().push(name@));
                    assert(forall|i: int|
                        0 <= i < pre.n_tables() ==> self.spec_tables()[i]
                            == #[trigger] pre.spec_tables()[i]);
                    assert(self.spec_names()[pre.n_tables()] == name@);
                    assert(self.spec_tables()[pre.n_tables()] == t);
                    lemma_find_name(self.spec_names(), name@, 0);
                    let r0 = find_name(self.spec_names(), name@, 0);
                    if r0 == -1 {
                        assert(false);
                    } else if r0 < pre.n_tables() {
                        assert(self.spec_names()[r0] == pre.spec_names()[r0]);
                        assert(pre.has_table(name@));
                        assert(false);
                    }
                    lemma_frame_push(pre, *self, name@);
                    assert(self.wf()) by {
                        assert forall|i: int|
                            0 <= i < self.n_tables() implies (#[trigger] self.spec_tables()[i]).wf()
                        by {
                            if i < pre.n_tables() {
                                assert(self.spec_tables()[i] == pre.spec_tables()[i]);
                                assert(pre.spec_tables()[i].wf());
                            } else {
                                assert(self.spec_tables()[i] == t);
                            }
                        }
                        assert(forall|i: int, j: int|
                            0 <= i < j < self.n_tables() ==> self.spec_names()[i]
                                != self.spec_names()[j]) by {
                            assert(forall|i: int|
                                0 <= i < pre.n_tables() ==> #[trigger] pre.spec_names()[i]
                                    != name@);
                        }
                    }
                }
                Ok(())
            },
        }
    }

    /// Drops the named table; `true` iff it existed. After a drop the name is
    /// free again.
    pub fn drop_table(&mut self, name: &str) -> (r: bool)
        requires
            old(self).wf(),
        ensures
            final(self).wf(),
            r == old(self).has_table(name@),
            !r ==> *final(self) == *old(self),
            r ==> final(self).spec_names() == old(self).spec_names().remove(
                old(self).name_index(name@),
            ) && final(self).spec_tables() == old(self).spec_tables().remove(
                old(self).name_index(name@),
            ) && !final(self).has_table(name@),
            others_unchanged(*old(self), *final(self), name@),
    {
        match self.table_index(name) {
            None => {
                proof {
                    lemma_others_refl(*self, name@);
                }
                false
            },
            Some(i) => {
                let ghost pre = *self;
                let _ = self.entries.remove(i);
                proof {
                    assert(final(self).spec_names() =~= pre.spec_names().remove(i as int));
                    assert(final(self).spec_tables() =~= pre.spec_tables().remove(i as int));
                    assert(!final(self).has_table(name@)) by {
                        if final(self).has_table(name@) {
                            let j = choose|j: int|
                                0 <= j < final(self).n_tables() && #[trigger] final(self).spec_names()[j] == name@;
                            if j < i {
                                assert(pre.spec_names()[j] == name@);
                                assert(pre.spec_names()[i as int] == name@);
                            } else {
                                assert(pre.spec_names()[j + 1] == name@);
                                assert(pre.spec_names()[i as int] == name@);
                            }
                        }
                    }
                    lemma_frame_remove(pre, *self, name@, i as int);
                }
                true
            },
        }
    }

    /// A read handle to the named table.
    pub fn get_table(&self, name: &str) -> (r: Option<&Table>)
        ensures
            match r {
                Some(t) => self.has_table(name@) && *t == self.table_named(name@),
                None => !self.has_table(name@),
            },
    {
        match self.table_index(name) {
            None => None,
            Some(i) => Some(&self.entries[i].table),
        }
    }

    /// The table names; no order is promised.
    pub fn table_names(&self) -> (r: Vec<String>)
        ensures
            crate::text::views_of(r@) == self.spec_names(),
    {
        let n = self.entries.len();
        let mut r: Vec<String> = Vec::new();
        let mut i: usize = 0;
        while i < n
            invariant
                i <= n,
                n == self.entries@.len(),
                r@.len() == i,
                forall|j: int| 0 <= j < i ==> #[trigger] r@[j]@ == self.spec_names()[j],
            decreases n - i,
        {
            let ghost r0 = r@;
            r.push(self.entries[i].name.clone());
            proof {
                assert(forall|j: int| 0 <= j < i ==> #[trigger] r@[j] == r0[j]);
            }
            i += 1;
        }
        proof {
            assert(crate::text::views_of(r@) =~= self.spec_names());
        }
        r
    }

    /// Inserts a batch of rows into the named table; the assigned ids, in
    /// input order, and their count. Failed rows assign no id.
    pub fn insert_rows(&mut self, table: &str, rows: Vec<Vec<Value>>) -> (r: Result<
        (Vec<u64>, usize),
        DbError,
    >)
        requires
            old(self).wf(),
        ensures
            final(self).wf(),
            final(self).spec_names() == old(self).spec_names(),
            match r {
                Ok(p) => {
                    &&& old(self).has_table(table@)
                    &&& p.0@ == ok_ids(
                        old(self).table_named(table@).spec_columns(),
                        rows.deep_view(),
                        old(self).table_named(table@).n_slots(),
                        rows@.len() as int,
                    )
                    &&& p.1 == p.0@.len()
                    &&& final(self).table_named(table@).n_slots() == old(self).table_named(
                        table@,
                    ).n_slots() + ok_count(
                        old(self).table_named(table@).spec_columns(),
                        rows.deep_view(),
                        rows@.len() as int,
                    )
                    &&& final(self).table_named(table@).spec_columns() == old(self).table_named(
                        table@,
                    ).spec_columns()
                    &&& forall|k: int|
                        0 <= k < rows@.len() && row_ok(
                            old(self).table_named(table@).spec_columns(),
                            rows.deep_view()[k],
                        ) ==> final(self).table_named(table@).spec_row(
                            old(self).table_named(table@).n_slots() + ok_count(
                                old(self).table_named(table@).spec_columns(),
                                rows.deep_view(),
                                k,
                            ),
                        ) == #[trigger] rows.deep_view()[k] && final(self).table_named(
                            table@,
                        ).live_at(
                            old(self).table_named(table@).n_slots() + ok_count(
                                old(self).table_named(table@).spec_columns(),
                                rows.deep_view(),
                                k,
                            ),
                        )
                    &&& forall|s: int|
                        0 <= s < old(self).table_named(table@).n_slots() ==> final(self).table_named(table@).live_at(s) == old(self).table_named(table@).live_at(
                            s,
                        )
                    &&& forall|c: int, s: int|
                        0 <= c < old(self).table_named(table@).n_cols() && 0 <= s < old(self).table_named(table@).n_slots() ==> final(self).table_named(table@).val(
                            c,
                            s,
                        ) == old(self).table_named(table@).val(c, s)
                    &&& forall|j: int|
                        0 <= j < old(self).n_tables() && j != old(self).name_index(table@)
                            ==> final(self).spec_tables()[j] == old(self).spec_tables()[j]
                },
                Err(e) => {
                    &&& e == DbError::UnknownTable
                    &&& !old(self).has_table(table@)
                    &&& *final(self) == *old(self)
                },
            },
            others_unchanged(*old(self), *final(self), table@),
    {
        let idx = match self.table_index(table) {
            None => {
                proof {
                    lemma_others_refl(*self, table@);
                }
                return Err(DbError::UnknownTable);
            },
            Some(i) => i,
        };
        let ghost pre = *self;
        let ghost t0 = pre.table_named(table@);
        proof {
            assert(pre.spec_tables()[idx as int] == pre.entries@[idx as int].table);
            assert(t0 == pre.entries@[idx as int].table);
            assert(t0.wf());
        }
        let ghost cols = t0.spec_columns();
        let ghost rdv = rows.deep_view();
        let n_rows = rows.len();
        let entry = &mut self.entries[idx];
        let results = entry.table.insert_batch(rows);
        proof {
            assert(self.entries@ =~= pre.entries@.update(idx as int, self.entries@[idx as int]));
            assert(self.entries@[idx as int].name == pre.entries@[idx as int].name);
            assert(self.spec_names() =~= pre.spec_names());
            assert(forall|j: int|
                0 <= j < pre.n_tables() && j != idx ==> #[trigger] self.spec_tables()[j]
                    == pre.spec_tables()[j]);
            assert(self.spec_tables()[idx as int] == self.entries@[idx as int].table);
            assert(self.wf()) by {
                assert forall|i: int|
                    0 <= i < self.n_tables() implies (#[trigger] self.spec_tables()[i]).wf() by {
                    if i != idx {
                        assert(self.spec_tables()[i] == pre.spec_tables()[i]);
                    }
                }
            }
            assert(self.table_named(table@) == self.spec_tables()[idx as int]);
        }
        let m = results.len();
        let mut ids: Vec<u64> = Vec::new();
        let mut k: usize = 0;
        while k < m
            invariant
                k <= m,
                m == results@.len(),
                m == rdv.len(),
                forall|j: int|
                    0 <= j < m ==> ((#[trigger] results@[j]) is Ok <==> row_ok(cols, rdv[j])),
                forall|j: int|
                    0 <= j < m && row_ok(cols, rdv[j]) ==> #[trigger] results@[j] == Ok::<
                        u64,
                        TableError,
                    >((t0.n_slots() + 1 + ok_count(cols, rdv, j)) as u64),
                ids@ == ok_ids(cols, rdv, t0.n_slots(), k as int),
            decreases m - k,
        {
            proof {
                assert(ok_ids(cols, rdv, t0.n_slots(), k + 1) == if row_ok(cols, rdv[k as int]) {
                    ok_ids(cols, rdv, t0.n_slots(), k as int).push(
                        (t0.n_slots() + ok_count(cols, rdv, k + 1)) as u64,
                    )
                } else {
                    ok_ids(cols, rdv, t0.n_slots(), k as int)
                });
            }
            match results[k] {
                Ok(id) => {
                    ids.push(id);
                },
                Err(_) => {},
            }
            k += 1;
        }
        let count = ids.len();
        proof {
            lemma_frame_same_names(pre, *self, table@);
        }
        Ok((ids, count))
    }

    /// Fetches the live rows among `ids`, in input order, from the named
    /// table; absent ids are dropped.
    pub fn get_rows(&self, table: &str, ids: &Vec<u64>) -> (r: Result<
        Vec<(u64, Vec<Value>)>,
        DbError,
    >)
        requires
            self.wf(),
        ensures
            match r {
                Ok(rows) => self.has_table(table@) && crate::table::pairs_deep_view(rows@)
                    == self.table_named(table@).spec_get_many(ids@),
                Err(e) => e == DbError::UnknownTable && !self.has_table(table@),
            },
    {
        let idx = match self.table_index(table) {
            None => {
                return Err(DbError::UnknownTable);
            },
            Some(i) => i,
        };
        proof {
            assert(self.spec_tables()[idx as int] == self.entries@[idx as int].table);
            assert(self.spec_tables()[idx as int].wf());
        }
        Ok(self.entries[idx].table.get_many(ids))
    }

    /// Deletes the rows among `ids` from the named table; the count of rows
    /// actually deleted (a repeated id counts once).
    pub fn delete_rows(&mut self, table: &str, ids: &Vec<u64>) -> (r: Result<usize, DbError>)
        requires
            old(self).wf(),
        ensures
            final(self).wf(),
            final(self).spec_names() == old(self).spec_names(),
            match r {
                Ok(count) => {
                    &&& old(self).has_table(table@)
                    &&& count == del_count(old(self).table_named(table@), ids@)
                    &&& final(self).table_named(table@).spec_columns() == old(self).table_named(
                        table@,
                    ).spec_columns()
                    &&& final(self).table_named(table@).n_slots() == old(self).table_named(
                        table@,
                    ).n_slots()
                    &&& live_after_deletes(
                        final(self).table_named(table@),
                        old(self).table_named(table@),
                        ids@,
                    )
                    &&& forall|c: int, s: int|
                        0 <= c < old(self).table_named(table@).n_cols() && 0 <= s < old(
                            self,
                        ).table_named(table@).n_slots() ==> final(self).table_named(table@).val(
                            c,
                            s,
                        ) == old(self).table_named(table@).val(c, s)
                    &&& forall|j: int|
                        0 <= j < old(self).n_tables() && j != old(self).name_index(table@)
                            ==> final(self).spec_tables()[j] == old(self).spec_tables()[j]
                },
                Err(e) => {
                    &&& e == DbError::UnknownTable
                    &&& !old(self).has_table(table@)
                    &&& *final(self) == *old(self)
                },
            },
            others_unchanged(*old(self), *final(self), table@),
    {
        let idx = match self.table_index(table) {
            None => {
                proof {
                    lemma_others_refl(*self, table@);
                }
                return Err(DbError::UnknownTable);
            },
            Some(i) => i,
        };
        let ghost pre = *self;
        let ghost t0 = pre.table_named(table@);
        proof {
            assert(pre.spec_tables()[idx as int] == pre.entries@[idx as int].table);
            assert(t0.wf());
        }
        let n = ids.len();
        let mut count: usize = 0;
        let mut k: usize = 0;
        while k < n
            invariant
                k <= n,
                n == ids@.len(),
                idx < pre.n_tables(),
                pre.wf(),
                t0 == pre.spec_tables()[idx as int],
                self.entries@.len() == pre.entries@.len(),
                forall|j: int|
                    0 <= j < pre.entries@.len() && j != idx ==> #[trigger] self.entries@[j]
                        == pre.entries@[j],
                self.entries@[idx as int].name == pre.entries@[idx as int].name,
                self.entries@[idx as int].table.wf(),
                self.entries@[idx as int].table.spec_columns() == t0.spec_columns(),
                self.entries@[idx as int].table.n_slots() == t0.n_slots(),
                live_after_deletes(self.entries@[idx as int].table, t0, ids@.take(k as int)),
                forall|c: int, s: int|
                    0 <= c < t0.n_cols() && 0 <= s < t0.n_slots()
                        ==> self.entries@[idx as int].table.val(c, s) == t0.val(c, s),
                count == del_count(t0, ids@.take(k as int)),
                count <= k,
            decreases n - k,
        {
            let ghost t_before = self.entries@[idx as int].table;
            let id = ids[k];
            proof {
                assert(live_after_deletes(t_before, t0, ids@.take(k as int)));
            }
            let entry = &mut self.entries[idx];
            let deleted = entry.table.delete(id);
            proof {
                assert(ids@.take(k + 1).drop_last() =~= ids@.take(k as int));
                assert(ids@.take(k + 1).last() == ids@[k as int]);
                let ghost t_after = self.entries@[idx as int].table;
                // the delete succeeds iff the id was live at the start and not
                // yet deleted in this loop
                assert(deleted == t_before.is_live_id(id));
                assert(t_before.is_live_id(id) == (t0.is_live_id(id) && !ids@.take(
                    k as int,
                ).contains(id)));
                assert forall|idv: u64|
                    #[trigger] t_after.is_live_id(idv) == (t0.is_live_id(idv) && !ids@.take(
                        k + 1,
                    ).contains(idv)) by {
                    assert(t_before.is_live_id(idv) == (t0.is_live_id(idv) && !ids@.take(
                        k as int,
                    ).contains(idv)));
                    if idv == id {
                        if deleted {
                            assert(!t_after.live_at(id - 1));
                            assert(!t_after.is_live_id(idv));
                        } else {
                            assert(t_after == t_before);
                        }
                        assert(ids@.take(k + 1)[k as int] == id);
                        assert(ids@.take(k + 1).contains(idv));
                    } else {
                        assert(t_after.is_live_id(idv) == t_before.is_live_id(idv)) by {
                            if deleted {
                                if 1 <= idv <= t_before.n_slots() {
                                    assert(idv - 1 != id - 1);
                                    assert(t_after.live_at(idv - 1) == t_before.live_at(idv - 1));
                                }
                            } else {
                                assert(t_after == t_before);
                            }
                        }
                        assert(ids@.take(k + 1).contains(idv) == ids@.take(k as int).contains(idv))
                            by {
                            if ids@.take(k as int).contains(idv) {
                                let j = choose|j: int|
                                    0 <= j < k && #[trigger] ids@.take(k as int)[j] == idv;
                                assert(ids@.take(k + 1)[j] == idv);
                            }
                            if ids@.take(k + 1).contains(idv) {
                                let j = choose|j: int|
                                    0 <= j < k + 1 && #[trigger] ids@.take(k + 1)[j] == idv;
                                assert(j < k);
                                assert(ids@.take(k as int)[j] == idv);
                            }
                        }
                    }
                }
            }
            if deleted {
                count += 1;
            }
            k += 1;
        }
        proof {
            assert(ids@.take(n as int) =~= ids@);
            assert(self.spec_names() =~= pre.spec_names());
            assert(forall|j: int|
                0 <= j < pre.n_tables() && j != idx ==> #[trigger] self.spec_tables()[j]
                    == pre.spec_tables()[j]);
            assert(self.spec_tables()[idx as int] == self.entries@[idx as int].table);
            assert(self.wf()) by {
                assert forall|i: int|
                    0 <= i < self.n_tables() implies (#[trigger] self.spec_tables()[i]).wf() by {
                    if i != idx {
                        assert(self.spec_tables()[i] == pre.spec_tables()[i]);
                    }
                }
            }
            lemma_frame_same_names(pre, *self, table@);
        }
        Ok(count)
    }

    /// Updates one row of the named table: the inner result is `Ok(true)` on
    /// success, `Ok(false)` where the id is absent or deleted, and an error
    /// where the values fail the insert checks.
    pub fn update_row(&mut self, table: &str, id: u64, values: Vec<Value>) -> (r: Result<
        Result<bool, TableError>,
        DbError,
    >)
        requires
            old(self).wf(),
        ensures
            final(self).wf(),
            final(self).spec_names() == old(self).spec_names(),
            match r {
                Ok(inner) => {
                    &&& old(self).has_table(table@)
                    &&& final(self).table_named(table@).spec_columns() == old(self).table_named(
                        table@,
                    ).spec_columns()
                    &&& final(self).table_named(table@).n_slots() == old(self).table_named(
                        table@,
                    ).n_slots()
                    &&& forall|j: int|
                        0 <= j < old(self).n_tables() && j != old(self).name_index(table@)
                            ==> final(self).spec_tables()[j] == old(self).spec_tables()[j]
                    &&& match inner {
                        Ok(true) => {
                            &&& row_ok(
                                old(self).table_named(table@).spec_columns(),
                                values.deep_view(),
                            )
                            &&& old(self).table_named(table@).is_live_id(id)
                            &&& final(self).table_named(table@).spec_row(id - 1)
                                == values.deep_view()
                            &&& forall|s: int|
                                0 <= s < old(self).table_named(table@).n_slots() ==> final(self).table_named(table@).live_at(s) == old(self).table_named(
                                    table@,
                                ).live_at(s)
                            &&& forall|c: int, s: int|
                                0 <= c < old(self).table_named(table@).n_cols() && 0 <= s < old(self).table_named(table@).n_slots() && s != id - 1 ==> final(self).table_named(table@).val(c, s) == old(self).table_named(
                                    table@,
                                ).val(c, s)
                        },
                        Ok(false) => {
                            &&& !old(self).table_named(table@).is_live_id(id)
                            &&& final(self).spec_tables() == old(self).spec_tables()
                        },
                        Err(_) => final(self).spec_tables() == old(self).spec_tables(),
                    }
                },
                Err(e) => {
                    &&& e == DbError::UnknownTable
                    &&& !old(self).has_table(table@)
                    &&& *final(self) == *old(self)
                },
            },
            others_unchanged(*old(self), *final(self), table@),
    {
        let idx = match self.table_index(table) {
            None => {
                proof {
                    lemma_others_refl(*self, table@);
                }
                return Err(DbError::UnknownTable);
            },
            Some(i) => i,
        };
        let ghost pre = *self;
        proof {
            assert(pre.spec_tables()[idx as int] == pre.entries@[idx as int].table);
            assert(pre.spec_tables()[idx as int].wf());
        }
        let entry = &mut self.entries[idx];
        let inner = entry.table.update(id, values);
        proof {
            assert(self.entries@[idx as int].name == pre.entries@[idx as int].name);
            assert(self.spec_names() =~= pre.spec_names());
            assert(forall|j: int|
                0 <= j < pre.n_tables() && j != idx ==> #[trigger] self.spec_tables()[j]
                    == pre.spec_tables()[j]);
            assert(self.spec_tables()[idx as int] == self.entries@[idx as int].table);
            assert(self.wf()) by {
                assert forall|i: int|
                    0 <= i < self.n_tables() implies (#[trigger] self.spec_tables()[i]).wf() by {
                    if i != idx {
                        assert(self.spec_tables()[i] == pre.spec_tables()[i]);
                    }
                }
            }
            match inner {
                Ok(true) => {},
                _ => {
                    assert(self.entries@[idx as int].table == pre.entries@[idx as int].table);
                    assert(self.spec_tables() =~= pre.spec_tables());
                },
            }
            lemma_frame_same_names(pre, *self, table@);
        }
        Ok(inner)
    }

    /// Searches one column of the named table; the matching row ids, ordered
    /// as `Table::search` orders them.
    pub fn search_ids(&self, table: &str, column: &str, st: SearchType) -> (r: Result<
        Vec<u64>,
        DbError,
    >)
        requires
            self.wf(),
        ensures
            match r {
                Ok(ids) => {
                    &&& self.has_table(table@)
                    &&& self.table_named(table@).spec_column_index(column@) >= 0
                    &&& search_ensures(
                        self.table_named(table@),
                        self.table_named(table@).spec_column_index(column@),
                        st,
                        ids@,
                    )
                },
                Err(e) => (e == DbError::UnknownTable && !self.has_table(table@)) || (e
                    == DbError::UnknownColumn && self.has_table(table@) && self.table_named(
                    table@,
                ).spec_column_index(column@) == -1),
            },
    {
        let idx = match self.table_index(table) {
            None => {
                return Err(DbError::UnknownTable);
            },
            Some(i) => i,
        };
        proof {
            assert(self.spec_tables()[idx as int] == self.entries@[idx as int].table);
            assert(self.spec_tables()[idx as int].wf());
        }
        let t = &self.entries[idx].table;
        let cidx = match t.column_index(column) {
            None => {
                return Err(DbError::UnknownColumn);
            },
            Some(c) => c,
        };
        Ok(t.search(cidx, st))
    }

    /// Per-table statistics: name, live rows, column count.
    pub fn stats(&self) -> (r: Vec<TableInfo>)
        requires
            self.wf(),
        ensures
            r@.len() == self.n_tables(),
            forall|i: int|
                0 <= i < self.n_tables() ==> (#[trigger] r@[i]).name@ == self.spec_names()[i]
                    && r@[i].row_count == self.spec_tables()[i].spec_row_count() && r@[i].column_count
                    == self.spec_tables()[i].n_cols(),
    {
        let n = self.entries.len();
        let mut r: Vec<TableInfo> = Vec::new();
        let mut i: usize = 0;
        while i < n
            invariant
                i <= n,
                n == self.entries@.len(),
                self.wf(),
                r@.len() == i,
                forall|j: int|
                    0 <= j < i ==> (#[trigger] r@[j]).name@ == self.spec_names()[j]
                        && r@[j].row_count == self.spec_tables()[j].spec_row_count()
                        && r@[j].column_count == self.spec_tables()[j].n_cols(),
            decreases n - i,
        {
            proof {
                assert(self.spec_tables()[i as int] == self.entries@[i as int].table);
                assert(self.spec_tables()[i as int].wf());
            }
            let entry = &self.entries[i];
            let info = TableInfo {
                name: entry.name.clone(),
                row_count: entry.table.row_count(),
                column_count: entry.table.column_count(),
            };
            let ghost r0 = r@;
            r.push(info);
            proof {
                assert(forall|j: int| 0 <= j < i ==> #[trigger] r@[j] == r0[j]);
            }
            i += 1;
        }
        r
    }
}

} // verus!
