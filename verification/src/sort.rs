//! Ordering of search results: `(key, row id)` pairs sorted ascending by key,
//! ties broken by ascending id. A key is an integer or a string, so that one
//! sort serves the range index and the prefix index.

use vstd::prelude::*;

use crate::text::{
    chars_lt, cp_eq, lemma_chars_connex, lemma_chars_le_trans, lemma_chars_lt_asym,
    lemma_chars_lt_congr,
};

verus! {

use vstd::seq_lib::group_to_multiset_ensures;
use vstd::seq_lib::lemma_multiset_commutative;

/// A sort key: an integer column value or a string column value.
pub enum SortKey {
    I(i64),
    S(Vec<char>),
}

/// The mathematical shape of a `SortKey`.
pub ghost enum SortKeyView {
    I(int),
    S(Seq<char>),
}

impl View for SortKey {
    type V = SortKeyView;

    open spec fn view(&self) -> SortKeyView {
        match self {
            SortKey::I(x) => SortKeyView::I(*x as int),
            SortKey::S(s) => SortKeyView::S(s@),
        }
    }
}

/// Strict order on keys. Keys of different shapes never meet in one sort; the
/// arbitrary rule that integers sort first keeps the order total.
pub open spec fn key_lt(a: SortKeyView, b: SortKeyView) -> bool {
    match (a, b) {
        (SortKeyView::I(x), SortKeyView::I(y)) => x < y,
        (SortKeyView::I(_), SortKeyView::S(_)) => true,
        (SortKeyView::S(_), SortKeyView::I(_)) => false,
        (SortKeyView::S(x), SortKeyView::S(y)) => chars_lt(x, y),
    }
}

/// Key equality: same shape, same value (strings by code points).
pub open spec fn key_eq(a: SortKeyView, b: SortKeyView) -> bool {
    match (a, b) {
        (SortKeyView::I(x), SortKeyView::I(y)) => x == y,
        (SortKeyView::S(x), SortKeyView::S(y)) => cp_eq(x, y),
        _ => false,
    }
}

/// The order results come back in: ascending key, ties by ascending id.
pub open spec fn pair_le(a: (SortKey, u64), b: (SortKey, u64)) -> bool {
    key_lt(a.0@, b.0@) || (key_eq(a.0@, b.0@) && a.1 <= b.1)
}

/// Any two pairs are related one way or the other.
pub proof fn lemma_pair_connex(a: (SortKey, u64), b: (SortKey, u64))
    ensures
        pair_le(a, b) || pair_le(b, a),
{
    match (a.0@, b.0@) {
        (SortKeyView::S(x), SortKeyView::S(y)) => {
            lemma_chars_connex(x, y);
            if cp_eq(x, y) && !cp_eq(y, x) {
                assert(cp_eq(y, x));
            }
        },
        _ => {},
    }
}

/// The order is transitive.
pub proof fn lemma_pair_trans(a: (SortKey, u64), b: (SortKey, u64), c: (SortKey, u64))
    requires
        pair_le(a, b),
        pair_le(b, c),
    ensures
        pair_le(a, c),
{
    match (a.0@, b.0@, c.0@) {
        (SortKeyView::S(x), SortKeyView::S(y), SortKeyView::S(z)) => {
            lemma_chars_le_trans(x, y, z);
            if key_lt(a.0@, b.0@) || key_lt(b.0@, c.0@) {
                // at least one strict step: the composite is strict
                assert(chars_lt(x, y) || cp_eq(x, y));
                assert(chars_lt(y, z) || cp_eq(y, z));
                if chars_lt(x, y) && chars_lt(y, z) {
                    if cp_eq(x, z) {
                        lemma_chars_lt_congr(x, z, y);
                        assert(chars_lt(z, y));
                        lemma_chars_lt_asym(y, z);
                        assert(false);
                    }
                    assert(chars_lt(x, z));
                } else if chars_lt(x, y) && cp_eq(y, z) {
                    lemma_chars_lt_congr(y, z, x);
                    assert(chars_lt(x, z));
                } else if cp_eq(x, y) && chars_lt(y, z) {
                    lemma_chars_lt_congr(x, y, z);
                    assert(chars_lt(x, z));
                }
            } else {
                // both steps are ties: code points equal, ids ordered
                assert(cp_eq(x, y) && cp_eq(y, z));
                assert(cp_eq(x, z));
            }
        },
        _ => {},
    }
}

/// Decides `pair_le`.
pub fn pair_le_exec(a: &(SortKey, u64), b: &(SortKey, u64)) -> (r: bool)
    ensures
        r == pair_le(*a, *b),
{
    match (&a.0, &b.0) {
        (SortKey::I(x), SortKey::I(y)) => *x < *y || (*x == *y && a.1 <= b.1),
        (SortKey::I(_), SortKey::S(_)) => true,
        (SortKey::S(_), SortKey::I(_)) => false,
        (SortKey::S(x), SortKey::S(y)) => {
            if crate::text::chars_lt_exec(x, y) {
                true
            } else if crate::text::cp_eq_exec(x, y) {
                a.1 <= b.1
            } else {
                false
            }
        },
    }
}

/// Sorts pairs ascending by key, ties by ascending id: the result carries the
/// same pairs (as a multiset) in sorted order.
pub fn sort_pairs(input: Vec<(SortKey, u64)>) -> (r: Vec<(SortKey, u64)>)
    ensures
        r@.to_multiset() == input@.to_multiset(),
        forall|p: int, q: int| 0 <= p < q < r@.len() ==> pair_le(#[trigger] r@[p], #[trigger] r@[q]),
{
    broadcast use group_to_multiset_ensures;
    broadcast use vstd::multiset::group_multiset_axioms;

    let ghost orig = input@;
    let mut input = input;
    let mut out: Vec<(SortKey, u64)> = Vec::new();
    while input.len() > 0
        invariant
            out@.to_multiset().add(input@.to_multiset()) =~= orig.to_multiset(),
            forall|p: int, q: int|
                0 <= p < q < out@.len() ==> pair_le(#[trigger] out@[p], #[trigger] out@[q]),
        decreases input@.len(),
    {
        let ghost in0 = input@;
        let x = input.remove(0);
        proof {
            in0.to_multiset_ensures();
            assert(in0.remove(0).to_multiset() =~= in0.to_multiset().remove(in0[0]));
            assert(out@.to_multiset().add(input@.to_multiset()).insert(x) =~= orig.to_multiset());
        }
        let n = out.len();
        let mut pos: usize = 0;
        while pos < n && pair_le_exec(&out[pos], &x)
            invariant
                n == out@.len(),
                pos <= n,
                forall|k: int| 0 <= k < pos ==> pair_le(#[trigger] out@[k], x),
            decreases n - pos,
        {
            pos += 1;
        }
        proof {
            if pos < n {
                lemma_pair_connex(out@[pos as int], x);
                assert(pair_le(x, out@[pos as int]));
            }
        }
        let ghost out0 = out@;
        out.insert(pos, x);
        proof {
            // the inserted view decomposes around position pos
            assert(out@ =~= out0.take(pos as int).push(x) + out0.skip(pos as int));
            lemma_multiset_commutative(out0.take(pos as int).push(x), out0.skip(pos as int));
            lemma_multiset_commutative(out0.take(pos as int), out0.skip(pos as int));
            assert(out0.take(pos as int) + out0.skip(pos as int) =~= out0);
            out0.take(pos as int).to_multiset_ensures();
            assert(out0.take(pos as int).push(x).to_multiset() =~= out0.take(
                pos as int,
            ).to_multiset().insert(x));
            assert(out@.to_multiset() =~= out0.to_multiset().insert(x));
            assert(out@.to_multiset().add(input@.to_multiset()) =~= orig.to_multiset()) by {
                assert(out0.to_multiset().insert(x).add(input@.to_multiset())
                    =~= out0.to_multiset().add(input@.to_multiset()).insert(x));
            }
            // sortedness of the new arrangement
            assert(forall|p: int, q: int|
                0 <= p < q < out@.len() ==> pair_le(#[trigger] out@[p], #[trigger] out@[q])) by {
                assert forall|p: int, q: int|
                    0 <= p < q < out@.len() implies pair_le(
                    #[trigger] out@[p],
                    #[trigger] out@[q],
                ) by {
                    let pv = if p < pos {
                        out0[p]
                    } else if p == pos {
                        x
                    } else {
                        out0[p - 1]
                    };
                    let qv = if q < pos {
                        out0[q]
                    } else if q == pos {
                        x
                    } else {
                        out0[q - 1]
                    };
                    assert(out@[p] == pv);
                    assert(out@[q] == qv);
                    if p < pos && q == pos {
                        assert(pair_le(out0[p], x));
                    } else if p < pos && q > pos {
                        assert(pair_le(out0[p], out0[q - 1]));
                    } else if p == pos && q > pos {
                        if pos < n {
                            if q - 1 == pos {
                                assert(pair_le(x, out0[pos as int]));
                            } else {
                                lemma_pair_trans(x, out0[pos as int], out0[q - 1]);
                            }
                        }
                    } else {
                        assert(pair_le(pv, qv));
                    }
                }
            }
        }
    }
    proof {
        assert(input@.to_multiset().len() == 0);
        assert(out@.to_multiset().add(input@.to_multiset()) =~= out@.to_multiset());
    }
    out
}

} // verus!
