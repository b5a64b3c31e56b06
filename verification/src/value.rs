//! The scalar values rows carry, and the types columns are declared with.
//!
//! A `Float` value is carried as the bit pattern of an IEEE-754 double: the
//! engine itself never computes with floating point. Exact matching on floats
//! is bit-pattern equality, and a NaN pattern matches nothing. A `String`
//! value is carried as its sequence of Unicode scalar values.

use vstd::prelude::*;

verus! {

/// The type a column is declared with; stored values must be `Null` or match it.
#[derive(Clone, Copy, Debug, PartialEq, Eq, Structural)]
pub enum ColumnType {
    Int,
    Float,
    String,
    Bytes,
}

/// A scalar value in a row.
#[derive(Debug)]
pub enum Value {
    Null,
    Int(i64),
    /// The bit pattern of an IEEE-754 double.
    Float(u64),
    /// The characters of a UTF-8 string.
    String(Vec<char>),
    Bytes(Vec<u8>),
}

/// The mathematical shape of a `Value`.
#[verifier::ext_equal]
pub ghost enum ValueView {
    Null,
    Int(int),
    Float(u64),
    String(Seq<char>),
    Bytes(Seq<u8>),
}

impl View for Value {
    type V = ValueView;

    open spec fn view(&self) -> ValueView {
        match self {
            Value::Null => ValueView::Null,
            Value::Int(x) => ValueView::Int(*x as int),
            Value::Float(b) => ValueView::Float(*b),
            Value::String(s) => ValueView::String(s@),
            Value::Bytes(b) => ValueView::Bytes(b@),
        }
    }
}

impl DeepView for Value {
    type V = ValueView;

    open spec fn deep_view(&self) -> ValueView {
        self@
    }
}

/// The bit pattern is one of an IEEE-754 NaN: exponent all ones, mantissa
/// non-zero.
pub open spec fn is_nan_bits(b: u64) -> bool {
    (b >> 52) & 0x7ff == 0x7ff && (b & 0xf_ffff_ffff_ffff) != 0
}

/// Executable form of `is_nan_bits`.
pub fn is_nan_bits_exec(b: u64) -> (r: bool)
    ensures
        r == is_nan_bits(b),
{
    (b >> 52) & 0x7ff == 0x7ff && (b & 0xf_ffff_ffff_ffff) != 0
}

/// A stored value may be `Null` or must match the column's declared type.
pub open spec fn spec_type_matches(v: ValueView, t: ColumnType) -> bool {
    match v {
        ValueView::Null => true,
        ValueView::Int(_) => t == ColumnType::Int,
        ValueView::Float(_) => t == ColumnType::Float,
        ValueView::String(_) => t == ColumnType::String,
        ValueView::Bytes(_) => t == ColumnType::Bytes,
    }
}

/// Returns `true` for `Null` or an exact variant match with the declared type.
pub fn type_matches(v: &Value, t: ColumnType) -> (r: bool)
    ensures
        r == spec_type_matches(v@, t),
{
    match v {
        Value::Null => true,
        Value::Int(_) => t == ColumnType::Int,
        Value::Float(_) => t == ColumnType::Float,
        Value::String(_) => t == ColumnType::String,
        Value::Bytes(_) => t == ColumnType::Bytes,
    }
}

/// What `Exact(probe)` matches: structural equality, except that `Null`
/// matches nothing and a NaN float pattern matches nothing, itself included.
pub open spec fn exact_matches(stored: ValueView, probe: ValueView) -> bool {
    match probe {
        ValueView::Null => false,
        ValueView::Int(x) => stored == ValueView::Int(x),
        ValueView::Float(b) => !is_nan_bits(b) && stored == ValueView::Float(b),
        ValueView::String(s) => stored == ValueView::String(s),
        ValueView::Bytes(b) => stored == ValueView::Bytes(b),
    }
}

/// Every integer a value view carries fits the machine integer it came
/// from.
pub open spec fn value_in_range(v: ValueView) -> bool {
    match v {
        ValueView::Int(x) => i64::MIN <= x <= i64::MAX,
        _ => true,
    }
}

/// A value exact search can see: not null, and not a NaN float pattern.
pub open spec fn searchable(v: ValueView) -> bool {
    match v {
        ValueView::Null => false,
        ValueView::Float(b) => !is_nan_bits(b),
        _ => true,
    }
}

/// A searchable value matches itself exactly.
pub proof fn lemma_searchable_matches_self(v: ValueView)
    requires
        searchable(v),
    ensures
        exact_matches(v, v),
{
}

/// Element-wise equality of character vectors.
pub fn chars_eq_exec(a: &Vec<char>, b: &Vec<char>) -> (r: bool)
    ensures
        r == (a@ == b@),
{
    let n = a.len();
    if n != b.len() {
        return false;
    }
    let mut i: usize = 0;
    while i < n
        invariant
            n == a@.len(),
            n == b@.len(),
            i <= n,
            forall|k: int| 0 <= k < i ==> #[trigger] a@[k] == b@[k],
        decreases n - i,
    {
        if a[i] != b[i] {
            return false;
        }
        i += 1;
    }
    proof {
        assert(a@ =~= b@);
    }
    true
}

/// Element-wise equality of byte vectors.
pub fn bytes_eq_exec(a: &Vec<u8>, b: &Vec<u8>) -> (r: bool)
    ensures
        r == (a@ == b@),
{
    let n = a.len();
    if n != b.len() {
        return false;
    }
    let mut i: usize = 0;
    while i < n
        invariant
            n == a@.len(),
            n == b@.len(),
            i <= n,
            forall|k: int| 0 <= k < i ==> #[trigger] a@[k] == b@[k],
        decreases n - i,
    {
        if a[i] != b[i] {
            return false;
        }
        i += 1;
    }
    proof {
        assert(a@ =~= b@);
    }
    true
}

/// Decides `exact_matches`.
pub fn value_exact_match(stored: &Value, probe: &Value) -> (r: bool)
    ensures
        r == exact_matches(stored@, probe@),
{
    match probe {
        Value::Null => false,
        Value::Int(x) => match stored {
            Value::Int(y) => *x == *y,
            _ => false,
        },
        Value::Float(b) => {
            if is_nan_bits_exec(*b) {
                false
            } else {
                match stored {
                    Value::Float(b2) => *b == *b2,
                    _ => false,
                }
            }
        },
        Value::String(s) => match stored {
            Value::String(s2) => chars_eq_exec(s2, s),
            _ => false,
        },
        Value::Bytes(bs) => match stored {
            Value::Bytes(b2) => bytes_eq_exec(b2, bs),
            _ => false,
        },
    }
}

impl Clone for Value {
    /// A clone carries the same view.
    fn clone(&self) -> (res: Self)
        ensures
            res@ == self@,
    {
        match self {
            Value::Null => Value::Null,
            Value::Int(x) => Value::Int(*x),
            Value::Float(b) => Value::Float(*b),
            Value::String(s) => Value::String(s.clone()),
            Value::Bytes(b) => Value::Bytes(b.clone()),
        }
    }
}

impl PartialEq for Value {
    fn eq(&self, other: &Self) -> (r: bool) {
        match (self, other) {
            (Value::Null, Value::Null) => true,
            (Value::Int(x), Value::Int(y)) => *x == *y,
            (Value::Float(a), Value::Float(b)) => *a == *b,
            (Value::String(a), Value::String(b)) => chars_eq_exec(a, b),
            (Value::Bytes(a), Value::Bytes(b)) => bytes_eq_exec(a, b),
            _ => false,
        }
    }
}

impl vstd::std_specs::cmp::PartialEqSpecImpl for Value {
    open spec fn obeys_eq_spec() -> bool {
        true
    }

    open spec fn eq_spec(&self, other: &Self) -> bool {
        self@ == other@
    }
}

} // verus!
