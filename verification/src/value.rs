//! Typed cell values and their mathematical model.
//!
//! A cell is an integer, a fixed-point decimal amount (a whole number of
//! hundredths, so `5000.01` is held as `500001`), a byte string, or null.
//! Contracts speak about the abstract form [`ValSpec`], reached through the
//! `View`/`DeepView` of the executable types.

use vstd::prelude::*;

verus! {

/// The primitive types a schema field can have.
#[derive(Clone, Copy, PartialEq, Eq, Structural, Debug)]
pub enum FieldType {
    /// A signed 64-bit integer.
    IntType,
    /// A fixed-point decimal held as a signed count of hundredths.
    DecType,
    /// An uninterpreted byte string.
    TextType,
}

/// One cell of a row.
#[derive(Debug)]
pub enum Value {
    Int(i64),
    Dec(i64),
    Text(Vec<u8>),
    Null,
}

/// The abstract form of a [`Value`]: unbounded integers and byte sequences.
#[verifier::ext_equal]
pub enum ValSpec {
    Int(int),
    Dec(int),
    Text(Seq<u8>),
    Null,
}

impl View for Value {
    type V = ValSpec;

    open spec fn view(&self) -> ValSpec {
        match self {
            Value::Int(i) => ValSpec::Int(*i as int),
            Value::Dec(d) => ValSpec::Dec(*d as int),
            Value::Text(t) => ValSpec::Text(t@),
            Value::Null => ValSpec::Null,
        }
    }
}

impl DeepView for Value {
    type V = ValSpec;

    open spec fn deep_view(&self) -> ValSpec {
        self.view()
    }
}

impl Clone for Value {
    /// Cloning preserves the abstract value.
    fn clone(&self) -> (r: Value)
        ensures
            r@ == self@,
    {
        match self {
            Value::Int(i) => Value::Int(*i),
            Value::Dec(d) => Value::Dec(*d),
            Value::Text(t) => Value::Text(clone_bytes(t)),
            Value::Null => Value::Null,
        }
    }
}

/// Clone a byte vector, keeping its contents.
pub fn clone_bytes(v: &Vec<u8>) -> (r: Vec<u8>)
    ensures
        r@ == v@,
{
    let mut r: Vec<u8> = Vec::new();
    let mut i: usize = 0;
    while i < v.len()
        invariant
            i <= v.len(),
            r@ == v@.take(i as int),
        decreases v.len() - i,
    {
        r.push(v[i]);
        proof {
            assert(v@.take(i + 1 as int) =~= v@.take(i as int).push(v@[i as int]));
        }
        i = i + 1;
    }
    proof {
        assert(v@.take(v@.len() as int) =~= v@);
    }
    r
}

/// Byte-vector equality by contents.
pub fn bytes_eq(a: &Vec<u8>, b: &Vec<u8>) -> (r: bool)
    ensures
        r == (a@ == b@),
{
    if a.len() != b.len() {
        proof {
            assert(a@.len() != b@.len());
        }
        return false;
    }
    let mut i: usize = 0;
    while i < a.len()
        invariant
            i <= a.len(),
            a@.len() == b@.len(),
            forall|j: int| 0 <= j < i ==> a@[j] == b@[j],
        decreases a.len() - i,
    {
        if a[i] != b[i] {
            return false;
        }
        i = i + 1;
    }
    proof {
        assert(a@ =~= b@);
    }
    true
}

/// Does an abstract value conform to a field's declared type and nullability?
///
/// Numeric values must also fit in the 64-bit machine representation, which
/// every executable [`Value`] does by construction.
pub open spec fn val_ok(v: ValSpec, ftype: FieldType, nullable: bool) -> bool {
    match v {
        ValSpec::Int(i) => ftype == FieldType::IntType && i64::MIN <= i <= i64::MAX,
        ValSpec::Dec(d) => ftype == FieldType::DecType && i64::MIN <= d <= i64::MAX,
        ValSpec::Text(t) => ftype == FieldType::TextType && t.len() < 0x10000000000000000,
        ValSpec::Null => nullable,
    }
}

/// A row, one [`Value`] per schema field.
pub type Row = Vec<Value>;

/// Clone a row, keeping its abstract contents.
pub fn clone_row(r: &Row) -> (out: Row)
    ensures
        out.deep_view() == r.deep_view(),
{
    let mut out: Row = Vec::new();
    let mut i: usize = 0;
    while i < r.len()
        invariant
            i <= r.len(),
            out.deep_view() == r.deep_view().take(i as int),
        decreases r.len() - i,
    {
        out.push(r[i].clone());
        proof {
            assert(r.deep_view().take(i + 1 as int) =~= r.deep_view().take(i as int).push(
                r@[i as int].deep_view(),
            ));
            assert(out.deep_view() =~= r.deep_view().take(i + 1 as int));
        }
        i = i + 1;
    }
    proof {
        assert(r.deep_view().take(r.deep_view().len() as int) =~= r.deep_view());
    }
    out
}

} // verus!
