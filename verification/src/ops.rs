//! Helpers of the operation surface: result pagination, and the parser for
//! table-sync configuration strings.

use vstd::prelude::*;

use crate::sync::source::{ColumnMappingView, SyncTable, SyncTableView};
use crate::text::{eq_ci, spec_split, split_str, str_eq_ci, views_of};
use crate::value::ColumnType;

verus! {

/// Offset-then-limit over a result list: the offset drops that many leading
/// entries (past the end: everything), the limit keeps at most that many of
/// what is left.
pub open spec fn spec_paginate(ids: Seq<u64>, offset: Option<usize>, limit: Option<usize>) -> Seq<
    u64,
> {
    let after = match offset {
        Some(o) => if (o as int) < ids.len() {
            ids.skip(o as int)
        } else {
            Seq::empty()
        },
        None => ids,
    };
    match limit {
        Some(l) => if (l as int) < after.len() {
            after.take(l as int)
        } else {
            after
        },
        None => after,
    }
}

/// Applies offset and limit to a result list.
pub fn paginate(ids: &Vec<u64>, offset: Option<usize>, limit: Option<usize>) -> (r: Vec<u64>)
    ensures
        r@ == spec_paginate(ids@, offset, limit),
{
    let n = ids.len();
    let start = match offset {
        Some(o) => if o < n {
            o
        } else {
            n
        },
        None => 0,
    };
    let end = match limit {
        Some(l) => if l < n - start {
            start + l
        } else {
            n
        },
        None => n,
    };
    let mut r: Vec<u64> = Vec::new();
    let mut i: usize = start;
    while i < end
        invariant
            start <= i <= end <= n,
            n == ids@.len(),
            r@ =~= ids@.subrange(start as int, i as int),
        decreases end - i,
    {
        r.push(ids[i]);
        i += 1;
    }
    proof {
        assert(r@ =~= ids@.subrange(start as int, end as int));
        let after = match offset {
            Some(o) => if (o as int) < ids@.len() {
                ids@.skip(o as int)
            } else {
                Seq::<u64>::empty()
            },
            None => ids@,
        };
        assert(after =~= ids@.subrange(start as int, n as int));
        assert(spec_paginate(ids@, offset, limit) =~= ids@.subrange(start as int, end as int));
    }
    r
}

/// The column type a configuration token denotes; an unknown token falls
/// back to `String`.
pub open spec fn cfg_col_type(t: Seq<char>) -> ColumnType {
    if eq_ci(t, "int"@) || eq_ci(t, "i64"@) {
        ColumnType::Int
    } else if eq_ci(t, "float"@) || eq_ci(t, "f64"@) {
        ColumnType::Float
    } else if eq_ci(t, "string"@) || eq_ci(t, "text"@) {
        ColumnType::String
    } else if eq_ci(t, "bytes"@) {
        ColumnType::Bytes
    } else {
        ColumnType::String
    }
}

/// The column mappings a comma-separated list of `name=type` entries
/// declares; an entry without `=` is skipped, and the one name serves as
/// both source and target.
pub open spec fn cfg_columns(defs: Seq<Seq<char>>) -> Seq<ColumnMappingView>
    decreases defs.len(),
{
    if defs.len() == 0 {
        Seq::empty()
    } else {
        cfg_columns(defs.drop_last()) + {
            let ps = spec_split(defs.last(), '=');
            if ps.len() >= 2 {
                seq![
                    ColumnMappingView {
                        source_name: ps[0],
                        target_name: ps[0],
                        col_type: cfg_col_type(ps[1]),
                    },
                ]
            } else {
                Seq::empty()
            }
        }
    }
}

/// What a `source:target:col1=type1,col2=type2` string declares: `None`
/// without at least a source and a target; pieces past the third are
/// ignored.
pub open spec fn spec_parse_table_config(s: Seq<char>) -> Option<SyncTableView> {
    let parts = spec_split(s, ':');
    if parts.len() < 2 {
        None
    } else {
        Some(
            SyncTableView {
                source_table: parts[0],
                target_table: parts[1],
                columns: if parts.len() >= 3 {
                    cfg_columns(spec_split(parts[2], ','))
                } else {
                    Seq::empty()
                },
                query_override: None,
            },
        )
    }
}

fn cfg_col_type_exec(t: &str) -> (r: ColumnType)
    ensures
        r == cfg_col_type(t@),
{
    if str_eq_ci(t, "int") || str_eq_ci(t, "i64") {
        ColumnType::Int
    } else if str_eq_ci(t, "float") || str_eq_ci(t, "f64") {
        ColumnType::Float
    } else if str_eq_ci(t, "string") || str_eq_ci(t, "text") {
        ColumnType::String
    } else if str_eq_ci(t, "bytes") {
        ColumnType::Bytes
    } else {
        ColumnType::String
    }
}

/// Parses a `source:target:col1=type1,col2=type2` configuration string into
/// a sync-table descriptor.
pub fn parse_table_config(s: &str) -> (r: Option<SyncTable>)
    ensures
        match r {
            Some(t) => spec_parse_table_config(s@) == Some(t@),
            None => spec_parse_table_config(s@) is None,
        },
{
    let parts = split_str(s, ':');
    if parts.len() < 2 {
        return None;
    }
    proof {
        assert(views_of(parts@)[0] == parts@[0]@);
        assert(views_of(parts@)[1] == parts@[1]@);
    }
    let mut table = SyncTable::new(parts[0].as_str(), parts[1].as_str());
    if parts.len() >= 3 {
        proof {
            assert(views_of(parts@)[2] == parts@[2]@);
        }
        let defs = split_str(parts[2].as_str(), ',');
        let ghost dviews = views_of(defs@);
        let m = defs.len();
        let mut j: usize = 0;
        proof {
            assert(dviews.take(0) =~= Seq::<Seq<char>>::empty());
        }
        while j < m
            invariant
                j <= m,
                m == defs@.len(),
                dviews == views_of(defs@),
                dviews == spec_split(parts@[2]@, ','),
                table@.source_table == parts@[0]@,
                table@.target_table == parts@[1]@,
                table@.query_override is None,
                table@.columns == cfg_columns(dviews.take(j as int)),
            decreases m - j,
        {
            proof {
                assert(dviews.take(j + 1).drop_last() =~= dviews.take(j as int));
                assert(dviews.take(j + 1).last() == defs@[j as int]@);
            }
            let cps = split_str(defs[j].as_str(), '=');
            if cps.len() >= 2 {
                proof {
                    assert(views_of(cps@)[0] == cps@[0]@);
                    assert(views_of(cps@)[1] == cps@[1]@);
                }
                let ty = cfg_col_type_exec(cps[1].as_str());
                table = table.with_column(cps[0].as_str(), cps[0].as_str(), ty);
                proof {
                    assert(table@.columns =~= cfg_columns(dviews.take(j + 1)));
                }
            } else {
                proof {
                    assert(cfg_columns(dviews.take(j + 1)) =~= cfg_columns(dviews.take(j as int)));
                }
            }
            j += 1;
        }
        proof {
            assert(dviews.take(m as int) =~= dviews);
        }
    }
    proof {
        assert(spec_parse_table_config(s@) matches Some(tv) && tv =~= table@);
    }
    Some(table)
}

} // verus!
