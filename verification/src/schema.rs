//! The canonical logical schema shared by every physical source.

use vstd::prelude::*;
use crate::value::{bytes_eq, clone_bytes, val_ok, FieldType, ValSpec};

verus! {

/// One field of a schema: a name, a primitive type, and a nullability flag.
#[derive(Debug)]
pub struct Field {
    pub name: Vec<u8>,
    pub ftype: FieldType,
    pub nullable: bool,
}

/// The abstract form of a [`Field`].
#[verifier::ext_equal]
pub struct FieldS {
    pub name: Seq<u8>,
    pub ftype: FieldType,
    pub nullable: bool,
}

impl View for Field {
    type V = FieldS;

    open spec fn view(&self) -> FieldS {
        FieldS { name: self.name@, ftype: self.ftype, nullable: self.nullable }
    }
}

impl DeepView for Field {
    type V = FieldS;

    open spec fn deep_view(&self) -> FieldS {
        self.view()
    }
}

impl Clone for Field {
    /// Cloning preserves the abstract field.
    fn clone(&self) -> (r: Field)
        ensures
            r@ == self@,
    {
        Field { name: clone_bytes(&self.name), ftype: self.ftype, nullable: self.nullable }
    }
}

/// An ordered, immutable field list.
#[derive(Debug)]
pub struct Schema {
    pub fields: Vec<Field>,
}

impl View for Schema {
    type V = Seq<FieldS>;

    open spec fn view(&self) -> Seq<FieldS> {
        self.fields.deep_view()
    }
}

impl Clone for Schema {
    /// Cloning preserves the abstract schema.
    fn clone(&self) -> (r: Schema)
        ensures
            r@ == self@,
    {
        let mut fields: Vec<Field> = Vec::new();
        let mut i: usize = 0;
        while i < self.fields.len()
            invariant
                i <= self.fields.len(),
                fields.deep_view() == self.fields.deep_view().take(i as int),
            decreases self.fields.len() - i,
        {
            fields.push(self.fields[i].clone());
            proof {
                assert(self.fields.deep_view().take(i + 1 as int)
                    =~= self.fields.deep_view().take(i as int).push(self.fields@[i as int]@));
                assert(fields.deep_view() =~= self.fields.deep_view().take(i + 1 as int));
            }
            i = i + 1;
        }
        proof {
            assert(self.fields.deep_view().take(self.fields.deep_view().len() as int)
                =~= self.fields.deep_view());
        }
        Schema { fields }
    }
}

/// A schema definition is rejected when two fields share a name.
#[derive(Clone, Copy, PartialEq, Eq, Structural, Debug)]
pub enum SchemaError {
    DuplicateFieldName,
}

/// Field names are pairwise distinct.
pub open spec fn names_unique(s: Seq<FieldS>) -> bool {
    forall|i: int, j: int| 0 <= i < j < s.len() ==> s[i].name != s[j].name
}

/// A row conforms to a schema: one cell per field, each cell of the field's
/// declared type, null only where the field is nullable.
pub open spec fn row_ok(s: Seq<FieldS>, r: Seq<ValSpec>) -> bool {
    &&& r.len() == s.len()
    &&& forall|j: int| 0 <= j < s.len() ==> val_ok(#[trigger] r[j], s[j].ftype, s[j].nullable)
}

/// Every row of a table conforms to the schema.
pub open spec fn table_ok(s: Seq<FieldS>, t: Seq<Seq<ValSpec>>) -> bool {
    forall|i: int| 0 <= i < t.len() ==> row_ok(s, #[trigger] t[i])
}

/// Index of the first field named `n`, if any.
pub open spec fn field_index(s: Seq<FieldS>, n: Seq<u8>) -> Option<int> {
    find_field(s, n, 0)
}

/// Helper for [`field_index`]: first match at or after position `i`.
pub open spec fn find_field(s: Seq<FieldS>, n: Seq<u8>, i: int) -> Option<int>
    decreases s.len() - i,
{
    if i < 0 || i >= s.len() {
        None
    } else if s[i].name == n {
        Some(i)
    } else {
        find_field(s, n, i + 1)
    }
}

/// Look a field up by name.
pub fn lookup_field(s: &Schema, n: &Vec<u8>) -> (r: Option<usize>)
    ensures
        match r {
            Some(j) => field_index(s@, n@) == Some(j as int) && j < s@.len()
                && s@[j as int].name == n@,
            None => field_index(s@, n@) is None,
        },
{
    let mut i: usize = 0;
    while i < s.fields.len()
        invariant
            i <= s.fields.len(),
            find_field(s@, n@, 0) == find_field(s@, n@, i as int),
        decreases s.fields.len() - i,
    {
        if bytes_eq(&s.fields[i].name, n) {
            proof {
                assert(s@[i as int].name == n@);
            }
            return Some(i);
        }
        i = i + 1;
    }
    None
}

/// Proof that a found field index lies inside the schema.
pub proof fn lemma_find_field_in_range(s: Seq<FieldS>, n: Seq<u8>, i: int)
    requires
        0 <= i,
    ensures
        match find_field(s, n, i) {
            Some(j) => i <= j < s.len() && s[j].name == n,
            None => forall|j: int| i <= j < s.len() ==> s[j].name != n,
        },
    decreases s.len() - i,
{
    if 0 <= i < s.len() {
        if s[i].name == n {
        } else {
            lemma_find_field_in_range(s, n, i + 1);
        }
    }
}

/// Build the canonical schema from a field list.
///
/// Returns the schema exactly when the field names are pairwise distinct;
/// otherwise reports [`SchemaError::DuplicateFieldName`].
pub fn define_schema(fields: Vec<Field>) -> (r: Result<Schema, SchemaError>)
    ensures
        match r {
            Ok(s) => s@ == fields.deep_view() && names_unique(fields.deep_view()),
            Err(_) => !names_unique(fields.deep_view()),
        },
{
    let n = fields.len();
    let mut i: usize = 0;
    while i < n
        invariant
            n == fields.len(),
            i <= n,
            forall|p: int, q: int| 0 <= p < q < i ==> fields.deep_view()[p].name
                != fields.deep_view()[q].name,
        decreases n - i,
    {
        let mut j: usize = 0;
        while j < i
            invariant
                i < n,
                n == fields.len(),
                j <= i,
                forall|q: int| 0 <= q < j ==> fields.deep_view()[q].name
                    != fields.deep_view()[i as int].name,
            decreases i - j,
        {
            if bytes_eq(&fields[j].name, &fields[i].name) {
                proof {
                    assert(fields.deep_view()[j as int].name == fields.deep_view()[i as int].name);
                    assert(!names_unique(fields.deep_view()));
                }
                return Err(SchemaError::DuplicateFieldName);
            }
            j = j + 1;
        }
        i = i + 1;
    }
    Ok(Schema { fields })
}

/// Schema equality by contents.
pub fn schema_eq(a: &Schema, b: &Schema) -> (r: bool)
    ensures
        r == (a@ == b@),
{
    if a.fields.len() != b.fields.len() {
        proof {
            assert(a@.len() != b@.len());
        }
        return false;
    }
    let mut i: usize = 0;
    while i < a.fields.len()
        invariant
            i <= a.fields.len(),
            a@.len() == b@.len(),
            a.fields.len() == a@.len(),
            b.fields.len() == b@.len(),
            forall|j: int| 0 <= j < i ==> a@[j] == b@[j],
        decreases a.fields.len() - i,
    {
        let fa = &a.fields[i];
        let fb = &b.fields[i];
        if !bytes_eq(&fa.name, &fb.name) || fa.ftype != fb.ftype || fa.nullable != fb.nullable {
            proof {
                assert(a@[i as int] != b@[i as int]);
            }
            return false;
        }
        proof {
            assert(a@[i as int] =~= b@[i as int]);
        }
        i = i + 1;
    }
    proof {
        assert(a@ =~= b@);
    }
    true
}

} // verus!
