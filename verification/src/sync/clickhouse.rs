//! The bundled source binding: query generation and response parsing for a
//! line-oriented, tab-separated wire format with a `\N` null sentinel and
//! backslash escapes in strings. The network exchange itself is the
//! embedding program's business; everything here is computation on text.

use vstd::prelude::*;

use crate::text::{
    replace2, spec_digits, spec_parse_i64, spec_replace2, spec_split, spec_trim, split_str,
    to_chars, trim_bounds, u64_to_string, views_of,
};
use crate::value::{ColumnType, Value, ValueView};

use super::source::{ColumnMapping, ColumnMappingView, SourceConfig, SourceError, SyncTable, SyncTableView};

verus! {

use vstd::string::StrSliceExecFns;
use vstd::string::StringExecFns;

/// The field text denotes null: empty, the two-character sequence `\N`, or
/// the word `NULL`.
pub open spec fn is_null_sentinel(tr: Seq<char>) -> bool {
    ||| tr.len() == 0
    ||| (tr.len() == 2 && tr[0] == '\\' && tr[1] == 'N')
    ||| (tr.len() == 4 && tr[0] == 'N' && tr[1] == 'U' && tr[2] == 'L' && tr[3] == 'L')
}

/// The escape passes a string field goes through, in order: `\t`, `\n`,
/// then `\\`.
pub open spec fn spec_unescape(tr: Seq<char>) -> Seq<char> {
    spec_replace2(
        spec_replace2(spec_replace2(tr, '\\', 't', '\t'), '\\', 'n', '\n'),
        '\\',
        '\\',
        '\\',
    )
}

/// What a field parses to: the trimmed text, null where it is a sentinel,
/// else by the column's type. A float column takes the caller's pre-parsed
/// bit pattern, since the engine holds no floating point.
pub open spec fn spec_parse_value(s: Seq<char>, t: ColumnType, fb: Option<u64>) -> ValueView {
    let tr = spec_trim(s);
    if is_null_sentinel(tr) {
        ValueView::Null
    } else {
        match t {
            ColumnType::Int => match spec_parse_i64(tr) {
                Some(x) => ValueView::Int(x as int),
                None => ValueView::Null,
            },
            ColumnType::Float => match fb {
                Some(b) => ValueView::Float(b),
                None => ValueView::Null,
            },
            ColumnType::String => ValueView::String(spec_unescape(tr)),
            ColumnType::Bytes => ValueView::Bytes(vstd::utf8::encode_utf8(tr)),
        }
    }
}

/// The generated column list: source names joined with `, `.
pub open spec fn joined_sources(cs: Seq<ColumnMappingView>) -> Seq<char>
    decreases cs.len(),
{
    if cs.len() == 0 {
        Seq::empty()
    } else if cs.len() == 1 {
        cs[0].source_name
    } else {
        joined_sources(cs.drop_last()) + ", "@ + cs.last().source_name
    }
}

/// The query a descriptor generates: its override verbatim, or a `SELECT`
/// over the declared source columns, or `SELECT *` with no columns declared.
pub open spec fn spec_build_query(t: SyncTableView) -> Seq<char> {
    match t.query_override {
        Some(q) => q,
        None => if t.columns.len() == 0 {
            "SELECT * FROM "@ + t.source_table
        } else {
            "SELECT "@ + joined_sources(t.columns) + " FROM "@ + t.source_table
        },
    }
}

/// The parse error text for a line of the wrong width.
pub open spec fn mismatch_msg(expected: int, got: int) -> Seq<char> {
    "column count mismatch: expected "@ + spec_digits(expected) + ", got "@ + spec_digits(got)
}

/// The trimmed, non-empty lines of a response.
pub open spec fn kept_lines(ls: Seq<Seq<char>>) -> Seq<Seq<char>>
    decreases ls.len(),
{
    if ls.len() == 0 {
        Seq::empty()
    } else {
        kept_lines(ls.drop_last()) + if spec_trim(ls.last()).len() > 0 {
            seq![spec_trim(ls.last())]
        } else {
            Seq::empty()
        }
    }
}

/// The field grid of a response: lines split on newlines, trimmed, empties
/// dropped, each split on tabs.
pub open spec fn spec_response_fields(resp: Seq<char>) -> Seq<Seq<Seq<char>>> {
    let kept = kept_lines(spec_split(resp, '\n'));
    Seq::new(kept.len(), |i: int| spec_split(kept[i], '\t'))
}

/// The first line whose width differs from the declared column count, or
/// `-1`.
pub open spec fn first_bad_line(lines: Seq<Seq<Seq<char>>>, ncols: int, i: int) -> int
    decreases lines.len() - i,
{
    if i < 0 || i >= lines.len() {
        -1
    } else if lines[i].len() != ncols {
        i
    } else {
        first_bad_line(lines, ncols, i + 1)
    }
}

proof fn lemma_first_bad_line(lines: Seq<Seq<Seq<char>>>, ncols: int, i: int)
    requires
        0 <= i <= lines.len(),
    ensures
        first_bad_line(lines, ncols, i) == -1 ==> forall|j: int|
            i <= j < lines.len() ==> (#[trigger] lines[j]).len() == ncols,
        first_bad_line(lines, ncols, i) != -1 ==> i <= first_bad_line(lines, ncols, i)
            < lines.len() && lines[first_bad_line(lines, ncols, i)].len() != ncols && forall|j: int|
            i <= j < first_bad_line(lines, ncols, i) ==> (#[trigger] lines[j]).len() == ncols,
    decreases lines.len() - i,
{
    if i < lines.len() && lines[i].len() == ncols {
        lemma_first_bad_line(lines, ncols, i + 1);
    }
}

/// The bundled source binding: holds how to reach the source and whether a
/// connection is up. The network exchange lives with the embedding program.
#[derive(Debug)]
pub struct ClickHouseSource {
    pub config: SourceConfig,
    connected: bool,
}

impl ClickHouseSource {
    /// Whether `mark_connected` has run and `disconnect` has not since.
    pub closed spec fn spec_connected(self) -> bool {
        self.connected
    }

    /// The configuration the binding was built with.
    pub closed spec fn spec_config(self) -> SourceConfig {
        self.config
    }

    /// A source binding over a configuration, not yet connected.
    pub fn new(config: SourceConfig) -> (r: Self)
        ensures
            r.spec_config() == config,
            !r.spec_connected(),
    {
        ClickHouseSource { config, connected: false }
    }

    /// Records that a connection test succeeded.
    pub fn mark_connected(&mut self)
        ensures
            final(self).spec_connected(),
            final(self).spec_config() == old(self).spec_config(),
    {
        self.connected = true;
    }

    /// Forgets the connection; disconnecting twice changes nothing more than
    /// disconnecting once.
    pub fn disconnect(&mut self)
        ensures
            !final(self).spec_connected(),
            final(self).spec_config() == old(self).spec_config(),
            !old(self).spec_connected() ==> *final(self) == *old(self),
    {
        self.connected = false;
    }

    /// Whether the binding believes it is connected.
    pub fn is_connected(&self) -> (r: bool)
        ensures
            r == self.spec_connected(),
    {
        self.connected
    }

    /// The short name for logs.
    pub fn name(&self) -> (r: &'static str)
        ensures
            r@ == "clickhouse"@,
    {
        "clickhouse"
    }

    /// The query to send for a table descriptor.
    pub fn build_query(&self, table: &SyncTable) -> (r: String)
        ensures
            r@ == spec_build_query(table@),
    {
        match &table.query_override {
            Some(q) => q.clone(),
            None => {
                let n = table.columns.len();
                if n == 0 {
                    String::from_str("SELECT * FROM ").concat(table.source_table.as_str())
                } else {
                    let mut q = String::from_str("SELECT ");
                    let mut i: usize = 0;
                    while i < n
                        invariant
                            i <= n,
                            n == table.columns@.len(),
                            n > 0,
                            q@ == "SELECT "@ + joined_sources(table.columns.deep_view().take(
                                i as int,
                            )),
                        decreases n - i,
                    {
                        let ghost cols = table.columns.deep_view();
                        proof {
                            assert(cols.take(i + 1).drop_last() =~= cols.take(i as int));
                            assert(cols.take(i + 1).last() == cols[i as int]);
                            if i == 0 {
                                assert(cols.take(1).len() == 1);
                                assert(cols.take(1)[0] == cols[0]);
                            }
                        }
                        if i > 0 {
                            q.append(", ");
                        }
                        q.append(table.columns[i].source_name.as_str());
                        proof {
                            assert(table.columns@[i as int]@.source_name
                                == table.columns@[i as int].source_name@);
                            assert(q@ =~= "SELECT "@ + joined_sources(cols.take(i + 1)));
                        }
                        i += 1;
                    }
                    proof {
                        assert(table.columns.deep_view().take(n as int)
                            =~= table.columns.deep_view());
                    }
                    q.append(" FROM ");
                    q.append(table.source_table.as_str());
                    proof {
                        assert(q@ =~= spec_build_query(table@));
                    }
                    q
                }
            },
        }
    }

    /// Parses one field. `float_bits` carries the field's text parsed as an
    /// IEEE-754 double's bit pattern, where the caller has one: the library
    /// holds no floating point, so the binding parses float text before the
    /// call and hands the bits in.
    pub fn parse_value(s: &str, col_type: ColumnType, float_bits: Option<u64>) -> (r: Value)
        ensures
            r@ == spec_parse_value(s@, col_type, float_bits),
    {
        let (a, b) = trim_bounds(s);
        let tr = s.substring_char(a, b);
        let chars = to_chars(tr);
        let n = chars.len();
        let is_null = n == 0 || (n == 2 && chars[0] == '\\' && chars[1] == 'N') || (n == 4
            && chars[0] == 'N' && chars[1] == 'U' && chars[2] == 'L' && chars[3] == 'L');
        if is_null {
            return Value::Null;
        }
        match col_type {
            ColumnType::Int => match crate::text::parse_i64_chars(&chars) {
                Some(x) => Value::Int(x),
                None => Value::Null,
            },
            ColumnType::Float => match float_bits {
                Some(bits) => Value::Float(bits),
                None => Value::Null,
            },
            ColumnType::String => {
                let p1 = replace2(&chars, '\\', 't', '\t');
                let p2 = replace2(&p1, '\\', 'n', '\n');
                let p3 = replace2(&p2, '\\', '\\', '\\');
                Value::String(p3)
            },
            ColumnType::Bytes => Value::Bytes(tr.as_bytes_vec()),
        }
    }

    /// Splits a response into its field grid: lines on newlines, trimmed,
    /// empty lines dropped, fields on tabs.
    pub fn split_response_fields(response: &str) -> (r: Vec<Vec<String>>)
        ensures
            r.deep_view() == spec_response_fields(response@),
    {
        let lines = split_str(response, '\n');
        let ghost lviews = views_of(lines@);
        let n = lines.len();
        let mut out: Vec<Vec<String>> = Vec::new();
        let mut i: usize = 0;
        proof {
            assert(lviews.take(0) =~= Seq::<Seq<char>>::empty());
        }
        while i < n
            invariant
                i <= n,
                n == lines@.len(),
                lviews == views_of(lines@),
                lviews == spec_split(response@, '\n'),
                out.deep_view() =~= Seq::new(
                    kept_lines(lviews.take(i as int)).len(),
                    |k: int| spec_split(kept_lines(lviews.take(i as int))[k], '\t'),
                ),
            decreases n - i,
        {
            proof {
                assert(lviews.take(i + 1).drop_last() =~= lviews.take(i as int));
                assert(lviews.take(i + 1).last() == lines@[i as int]@);
            }
            let line = lines[i].as_str();
            let (a, b) = trim_bounds(line);
            if a < b {
                let tl = line.substring_char(a, b);
                let fs = split_str(tl, '\t');
                let ghost out0 = out.deep_view();
                let ghost ov0 = out@;
                let ghost fsv = views_of(fs@);
                proof {
                    assert(fs.deep_view() =~= fsv);
                }
                out.push(fs);
                proof {
                    assert(tl@ == spec_trim(lines@[i as int]@));
                    assert(kept_lines(lviews.take(i + 1)) =~= kept_lines(lviews.take(i as int))
                        + seq![spec_trim(lines@[i as int]@)]);
                    assert(forall|k: int| 0 <= k < ov0.len() ==> #[trigger] out@[k] == ov0[k]);
                    assert(forall|k: int|
                        0 <= k < out@.len() ==> #[trigger] out.deep_view()[k]
                            == out@[k].deep_view());
                    assert(out.deep_view() =~= out0.push(fsv));
                    assert(fsv == spec_split(spec_trim(lines@[i as int]@), '\t'));
                    assert(out.deep_view() =~= Seq::new(
                        kept_lines(lviews.take(i + 1)).len(),
                        |k: int| spec_split(kept_lines(lviews.take(i + 1))[k], '\t'),
                    ));
                }
            } else {
                proof {
                    assert(spec_trim(lines@[i as int]@).len() == 0);
                    assert(kept_lines(lviews.take(i + 1)) =~= kept_lines(lviews.take(i as int)));
                    assert(out.deep_view() =~= Seq::new(
                        kept_lines(lviews.take(i + 1)).len(),
                        |k: int| spec_split(kept_lines(lviews.take(i + 1))[k], '\t'),
                    ));
                }
            }
            i += 1;
        }
        proof {
            assert(lviews.take(n as int) =~= lviews);
        }
        out
    }

    /// Parses one line of fields against the declared mappings. With no
    /// mappings declared every field becomes a string, untouched; with
    /// mappings, a width mismatch is a parse error, and otherwise each field
    /// parses by its column's type.
    pub fn parse_line(
        fields: &Vec<String>,
        columns: &Vec<ColumnMapping>,
        float_bits: &Vec<Option<u64>>,
    ) -> (r: Result<Vec<Value>, SourceError>)
        requires
            float_bits@.len() == fields@.len(),
        ensures
            columns@.len() == 0 ==> (r matches Ok(row) && row@.len() == fields@.len() && forall|
                i: int,
            |
                0 <= i < fields@.len() ==> #[trigger] row.deep_view()[i] == ValueView::String(
                    fields@[i]@,
                )),
            columns@.len() > 0 && fields@.len() != columns@.len() ==> (r matches Err(e) && (
            e matches SourceError::Parse(m) && m@ == mismatch_msg(
                columns@.len() as int,
                fields@.len() as int,
            ))),
            columns@.len() > 0 && fields@.len() == columns@.len() ==> (r matches Ok(row)
                && row@.len() == fields@.len() && forall|i: int|
                0 <= i < fields@.len() ==> #[trigger] row.deep_view()[i] == spec_parse_value(
                    fields@[i]@,
                    columns@[i].col_type,
                    float_bits@[i],
                )),
    {
        let n = fields.len();
        let ncols = columns.len();
        if ncols == 0 {
            let mut row: Vec<Value> = Vec::new();
            let mut i: usize = 0;
            while i < n
                invariant
                    i <= n,
                    n == fields@.len(),
                    row@.len() == i,
                    forall|k: int|
                        0 <= k < i ==> #[trigger] row@[k]@ == ValueView::String(fields@[k]@),
                decreases n - i,
            {
                let ghost r0 = row@;
                row.push(Value::String(to_chars(fields[i].as_str())));
                proof {
                    assert(forall|k: int| 0 <= k < i ==> #[trigger] row@[k] == r0[k]);
                }
                i += 1;
            }
            proof {
                assert(forall|k: int|
                    0 <= k < n ==> #[trigger] row.deep_view()[k] == row@[k]@);
            }
            return Ok(row);
        }
        if n != ncols {
            let msg = String::from_str("column count mismatch: expected ").concat(
                u64_to_string(ncols as u64).as_str(),
            ).concat(", got ").concat(u64_to_string(n as u64).as_str());
            proof {
                assert(msg@ =~= mismatch_msg(ncols as int, n as int));
            }
            return Err(SourceError::Parse(msg));
        }
        let mut row: Vec<Value> = Vec::new();
        let mut i: usize = 0;
        while i < n
            invariant
                i <= n,
                n == fields@.len(),
                n == columns@.len(),
                float_bits@.len() == n,
                row@.len() == i,
                forall|k: int|
                    0 <= k < i ==> #[trigger] row@[k]@ == spec_parse_value(
                        fields@[k]@,
                        columns@[k].col_type,
                        float_bits@[k],
                    ),
            decreases n - i,
        {
            let v = Self::parse_value(fields[i].as_str(), columns[i].col_type, float_bits[i]);
            let ghost r0 = row@;
            row.push(v);
            proof {
                assert(forall|k: int| 0 <= k < i ==> #[trigger] row@[k] == r0[k]);
                assert(columns@[i as int]@.col_type == columns@[i as int].col_type);
            }
            i += 1;
        }
        proof {
            assert(forall|k: int| 0 <= k < n ==> #[trigger] row.deep_view()[k] == row@[k]@);
        }
        Ok(row)
    }

    /// Parses a whole field grid against a table descriptor, stopping at the
    /// first ill-formed line. `float_bits` mirrors the grid's shape and
    /// carries each field's pre-parsed float bit pattern where one exists.
    pub fn parse_response(
        fields: &Vec<Vec<String>>,
        table: &SyncTable,
        float_bits: &Vec<Vec<Option<u64>>>,
    ) -> (r: Result<Vec<Vec<Value>>, SourceError>)
        requires
            float_bits@.len() == fields@.len(),
            forall|i: int|
                0 <= i < fields@.len() ==> #[trigger] float_bits@[i]@.len() == fields@[i]@.len(),
        ensures
            ({
                let lines = fields.deep_view();
                let ncols = table@.columns.len() as int;
                let bad = if ncols == 0 {
                    -1int
                } else {
                    first_bad_line(lines, ncols, 0)
                };
                if bad == -1 {
                    r matches Ok(rows) && rows@.len() == lines.len() && (forall|i: int, j: int|
                        0 <= i < lines.len() && 0 <= j < lines[i].len()
                            ==> #[trigger] rows.deep_view()[i][j] == (if ncols == 0 {
                            ValueView::String(lines[i][j])
                        } else {
                            spec_parse_value(
                                lines[i][j],
                                table@.columns[j].col_type,
                                float_bits@[i]@[j],
                            )
                        })) && (forall|i: int|
                        0 <= i < lines.len() ==> (#[trigger] rows.deep_view()[i]).len()
                            == lines[i].len())
                } else {
                    r matches Err(e) && (e matches SourceError::Parse(m) && m@ == mismatch_msg(
                        ncols,
                        lines[bad].len() as int,
                    ))
                }
            }),
    {
        let ghost lines = fields.deep_view();
        let ghost ncols = table@.columns.len() as int;
        let n = fields.len();
        let mut rows: Vec<Vec<Value>> = Vec::new();
        let mut i: usize = 0;
        while i < n
            invariant
                i <= n,
                n == fields@.len(),
                lines == fields.deep_view(),
                ncols == table@.columns.len() as int,
                float_bits@.len() == n,
                forall|k: int|
                    0 <= k < n ==> #[trigger] float_bits@[k]@.len() == fields@[k]@.len(),
                rows@.len() == i,
                ncols > 0 ==> forall|k: int| 0 <= k < i ==> (#[trigger] lines[k]).len() == ncols,
                forall|k: int, j: int|
                    0 <= k < i && 0 <= j < lines[k].len() ==> #[trigger] rows@[k].deep_view()[j]
                        == (if ncols == 0 {
                        ValueView::String(lines[k][j])
                    } else {
                        spec_parse_value(
                            lines[k][j],
                            table@.columns[j].col_type,
                            float_bits@[k]@[j],
                        )
                    }),
                forall|k: int|
                    0 <= k < i ==> (#[trigger] rows@[k]).deep_view().len() == lines[k].len(),
            decreases n - i,
        {
            proof {
                assert(lines[i as int] =~= views_of(fields@[i as int]@));
                assert(forall|j: int|
                    0 <= j < fields@[i as int]@.len() ==> #[trigger] lines[i as int][j]
                        == fields@[i as int]@[j]@);
            }
            match Self::parse_line(&fields[i], &table.columns, &float_bits[i]) {
                Ok(row) => {
                    let ghost r0 = rows@;
                    rows.push(row);
                    proof {
                        assert(forall|k: int| 0 <= k < i ==> #[trigger] rows@[k] == r0[k]);
                    }
                },
                Err(e) => {
                    proof {
                        assert(ncols > 0 && lines[i as int].len() != ncols);
                        lemma_first_bad_line(lines, ncols, 0);
                        let b0 = first_bad_line(lines, ncols, 0);
                        if b0 == -1 {
                            assert(false);
                        } else if b0 < i {
                            assert(lines[b0].len() == ncols);
                            assert(false);
                        } else if b0 > i {
                            assert(lines[i as int].len() == ncols);
                            assert(false);
                        }
                    }
                    return Err(e);
                },
            }
            i += 1;
        }
        proof {
            if ncols > 0 {
                lemma_first_bad_line(lines, ncols, 0);
                let b0 = first_bad_line(lines, ncols, 0);
                if b0 != -1 {
                    assert(lines[b0].len() == ncols);
                    assert(false);
                }
            }
            assert(forall|k: int|
                0 <= k < n ==> #[trigger] rows.deep_view()[k] == rows@[k].deep_view());
        }
        Ok(rows)
    }
}

} // verus!
