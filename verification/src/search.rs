//! The search predicate: a typed description of a column-restricted search.

use vstd::prelude::*;

use crate::value::Value;

verus! {

/// A predicate against one column. Exact matching works on any column type;
/// `Range` is meaningful on `Int` columns; `Prefix`, `FullText` and
/// `Contains` on `String` columns. A predicate against a column whose type is
/// incompatible matches nothing: search is a query, not a validation surface.
#[derive(Debug)]
pub enum SearchType {
    Exact(Value),
    Prefix(String),
    FullText(String),
    Range { min: i64, max: i64 },
    Contains(String),
}

/// All tokens of the query occur in the text: the full-text match. Both
/// sides go through the same tokenizer — lowercase the whole text, then take
/// the maximal alphanumeric runs.
pub open spec fn ft_match(text: Seq<char>, q: Seq<char>) -> bool {
    forall|i: int, j: int|
        #[trigger] crate::text::token_at(crate::text::lower_of(q), i, j)
            ==> crate::text::has_token(
            crate::text::lower_of(text),
            crate::text::lower_of(q).subrange(i, j),
        )
}

} // verus!
