//! The table catalog: binding physical sources to logical names.
//!
//! Registration is the single-writer phase; once it is over the catalog is
//! only read.  Each registration binds one name to one already-read source
//! (its bytes), parses the source under the canonical schema, and stores the
//! materialized rows.  The catalog is write-once per name: a duplicate name
//! is always a deterministic error, never a silent overwrite.

use vstd::prelude::*;
use crate::bytes::split_spec;
use crate::colbin::{decode_table, parse_container, rows_of_cols, BinError};
use crate::rowtext::{header_ok, line_cells, parse_table_text, parsed_table, text_wf, TextError};
use crate::schema::{table_ok, FieldS, Schema};
use crate::value::{bytes_eq, Row, ValSpec};

verus! {

/// The physical shape of a registered source.
#[derive(Clone, Copy, PartialEq, Eq, Structural, Debug)]
pub enum EncodingKind {
    /// Header line plus comma-separated rows.
    RowText,
    /// Self-describing binary container, cell data grouped by column.
    Columnar,
}

/// One logical table: a name bound to a physical source under the canonical
/// schema, with its rows materialized at registration time.
pub struct LogicalTable {
    pub name: Vec<u8>,
    pub encoding: EncodingKind,
    pub location: Vec<u8>,
    pub rows: Vec<Row>,
}

/// The abstract form of a [`LogicalTable`].
#[verifier::ext_equal]
pub struct TableS {
    pub name: Seq<u8>,
    pub encoding: EncodingKind,
    pub location: Seq<u8>,
    pub rows: Seq<Seq<ValSpec>>,
}

impl View for LogicalTable {
    type V = TableS;

    open spec fn view(&self) -> TableS {
        TableS {
            name: self.name@,
            encoding: self.encoding,
            location: self.location@,
            rows: self.rows.deep_view(),
        }
    }
}

impl DeepView for LogicalTable {
    type V = TableS;

    open spec fn deep_view(&self) -> TableS {
        self.view()
    }
}

/// The catalog: the canonical schema and the tables registered under it.
pub struct Catalog {
    pub schema: Schema,
    pub tables: Vec<LogicalTable>,
}

/// The abstract form of a [`Catalog`].
#[verifier::ext_equal]
pub struct CatalogS {
    pub schema: Seq<FieldS>,
    pub tables: Seq<TableS>,
}

impl View for Catalog {
    type V = CatalogS;

    open spec fn view(&self) -> CatalogS {
        CatalogS { schema: self.schema@, tables: self.tables.deep_view() }
    }
}

/// Table names are unique and every table's rows conform to the schema.
pub open spec fn catalog_wf(c: CatalogS) -> bool {
    &&& forall|i: int, j: int| 0 <= i < j < c.tables.len() ==> c.tables[i].name != c.tables[
        j
    ].name
    &&& forall|i: int| 0 <= i < c.tables.len() ==> table_ok(
        c.schema,
        (#[trigger] c.tables[i]).rows,
    )
}

/// Index of the first table named `n`, if any.
pub open spec fn find_table(ts: Seq<TableS>, n: Seq<u8>, i: int) -> Option<int>
    decreases ts.len() - i,
{
    if i < 0 || i >= ts.len() {
        None
    } else if ts[i].name == n {
        Some(i)
    } else {
        find_table(ts, n, i + 1)
    }
}

impl Catalog {
    /// An empty catalog over the canonical schema.
    pub fn new(schema: Schema) -> (r: Catalog)
        ensures
            r@.schema == schema@,
            r@.tables == Seq::<TableS>::empty(),
            catalog_wf(r@),
    {
        let r = Catalog { schema, tables: Vec::new() };
        proof {
            assert(r@.tables =~= Seq::<TableS>::empty());
        }
        r
    }
}

/// Look a table up by name.
pub fn lookup_table(c: &Catalog, n: &Vec<u8>) -> (r: Option<usize>)
    ensures
        match r {
            Some(j) => find_table(c@.tables, n@, 0) == Some(j as int) && j < c@.tables.len()
                && c@.tables[j as int].name == n@,
            None => find_table(c@.tables, n@, 0) is None,
        },
{
    let mut i: usize = 0;
    while i < c.tables.len()
        invariant
            i <= c.tables@.len(),
            c.tables@.len() == c@.tables.len(),
            find_table(c@.tables, n@, 0) == find_table(c@.tables, n@, i as int),
        decreases c.tables.len() - i,
    {
        proof {
            assert(c.tables@[i as int]@.name == c@.tables[i as int].name);
        }
        if bytes_eq(&c.tables[i].name, n) {
            return Some(i);
        }
        i = i + 1;
    }
    None
}

/// Why a registration was rejected.
#[derive(Clone, Copy, PartialEq, Eq, Structural, Debug)]
pub enum RegistrationError {
    /// The name is already bound; the catalog is write-once per name.
    DuplicateName,
    /// The declared schema disagrees with the canonical schema or with what
    /// the source actually contains.
    SchemaMismatch,
    /// The source bytes are not a well-formed instance of the encoding.
    BadSource,
}

/// What scanning one source under the canonical schema yields.
pub open spec fn scan_source(s: Seq<FieldS>, kind: EncodingKind, src: Seq<u8>) -> Result<
    Seq<Seq<ValSpec>>,
    RegistrationError,
> {
    match kind {
        EncodingKind::RowText => if text_wf(src, s) {
            Ok(parsed_table(src, s))
        } else if !header_ok(s, line_cells(split_spec(src, 10)[0])) {
            Err(RegistrationError::SchemaMismatch)
        } else {
            Err(RegistrationError::BadSource)
        },
        EncodingKind::Columnar => match parse_container(src) {
            Some((fs, rc, cols)) => if fs == s {
                Ok(rows_of_cols(s.len() as int, rc, cols))
            } else {
                Err(RegistrationError::SchemaMismatch)
            },
            None => Err(RegistrationError::BadSource),
        },
    }
}

/// What one registration decides.
pub open spec fn register_spec(
    c: CatalogS,
    name: Seq<u8>,
    kind: EncodingKind,
    location: Seq<u8>,
    declared: Seq<FieldS>,
    src: Seq<u8>,
) -> Result<CatalogS, RegistrationError> {
    if find_table(c.tables, name, 0) is Some {
        Err(RegistrationError::DuplicateName)
    } else if declared != c.schema {
        Err(RegistrationError::SchemaMismatch)
    } else {
        match scan_source(c.schema, kind, src) {
            Ok(rows) => Ok(
                CatalogS {
                    schema: c.schema,
                    tables: c.tables.push(TableS { name, encoding: kind, location, rows }),
                },
            ),
            Err(e) => Err(e),
        }
    }
}

/// Bind one physical source to a logical name under the canonical schema.
///
/// Succeeds exactly when the name is fresh, the declared schema equals the
/// canonical one, and the source bytes parse under that schema; the bound
/// table is appended and its rows conform to the schema.  On any error the
/// catalog is unchanged, and equal inputs always yield the same error.
pub fn register_table(
    catalog: &mut Catalog,
    name: Vec<u8>,
    kind: EncodingKind,
    location: Vec<u8>,
    declared: &Schema,
    src: &Vec<u8>,
) -> (r: Result<(), RegistrationError>)
    ensures
        match r {
            Ok(()) => register_spec(old(catalog)@, name@, kind, location@, declared@, src@)
                == Ok::<CatalogS, RegistrationError>(final(catalog)@),
            Err(e) => register_spec(old(catalog)@, name@, kind, location@, declared@, src@)
                == Err::<CatalogS, RegistrationError>(e) && final(catalog)@ == old(catalog)@,
        },
        catalog_wf(old(catalog)@) && r is Ok ==> catalog_wf(final(catalog)@),
{
    if lookup_table(catalog, &name).is_some() {
        return Err(RegistrationError::DuplicateName);
    }
    if !crate::schema::schema_eq(declared, &catalog.schema) {
        return Err(RegistrationError::SchemaMismatch);
    }
    let rows = match kind {
        EncodingKind::RowText => match parse_table_text(src, &catalog.schema) {
            Ok(rows) => {
                proof {
                    assert(src.len() == src@.len());
                    crate::rowtext::lemma_parsed_table_ok(src@, catalog@.schema);
                }
                rows
            },
            Err(TextError::HeaderMismatch) => {
                return Err(RegistrationError::SchemaMismatch);
            },
            Err(TextError::BadCell) => {
                return Err(RegistrationError::BadSource);
            },
        },
        EncodingKind::Columnar => match decode_table(src, &catalog.schema) {
            Ok(rows) => rows,
            Err(BinError::Malformed) => {
                return Err(RegistrationError::BadSource);
            },
            Err(BinError::SchemaMismatch) => {
                return Err(RegistrationError::SchemaMismatch);
            },
        },
    };
    let ghost prev = catalog@;
    let ghost rv = rows.deep_view();
    let table = LogicalTable { name, encoding: kind, location, rows };
    let ghost tv = table@;
    catalog.tables.push(table);
    proof {
        assert(catalog@.tables =~= prev.tables.push(tv));
        assert(register_spec(prev, tv.name, kind, tv.location, prev.schema, src@) == Ok::<
            CatalogS,
            RegistrationError,
        >(catalog@));
        if catalog_wf(prev) {
            let c2 = catalog@;
            assert forall|i: int, j: int| 0 <= i < j < c2.tables.len() implies c2.tables[i].name
                != c2.tables[j].name by {
                if j < c2.tables.len() - 1 {
                } else {
                    crate::catalog::lemma_find_table_range(prev.tables, tv.name, 0);
                }
            }
            assert forall|i: int| 0 <= i < c2.tables.len() implies table_ok(
                c2.schema,
                (#[trigger] c2.tables[i]).rows,
            ) by {}
        }
    }
    Ok(())
}

/// Proof that an absent table name differs from every registered name.
pub proof fn lemma_find_table_range(ts: Seq<TableS>, n: Seq<u8>, i: int)
    requires
        0 <= i,
    ensures
        match find_table(ts, n, i) {
            Some(j) => i <= j < ts.len() && ts[j].name == n,
            None => forall|j: int| i <= j < ts.len() ==> (#[trigger] ts[j]).name != n,
        },
    decreases ts.len() - i,
{
    if 0 <= i < ts.len() {
        if ts[i].name == n {
        } else {
            lemma_find_table_range(ts, n, i + 1);
        }
    }
}

/// Registering a name twice always fails: after a successful registration,
/// a second registration under the same name is a deterministic
/// [`RegistrationError::DuplicateName`], whatever its source or encoding.
pub proof fn lemma_registration_write_once(
    c: CatalogS,
    name: Seq<u8>,
    kind1: EncodingKind,
    loc1: Seq<u8>,
    declared1: Seq<FieldS>,
    src1: Seq<u8>,
    kind2: EncodingKind,
    loc2: Seq<u8>,
    declared2: Seq<FieldS>,
    src2: Seq<u8>,
)
    requires
        register_spec(c, name, kind1, loc1, declared1, src1) is Ok,
    ensures
        register_spec(
            register_spec(c, name, kind1, loc1, declared1, src1)->Ok_0,
            name,
            kind2,
            loc2,
            declared2,
            src2,
        ) == Err::<CatalogS, RegistrationError>(RegistrationError::DuplicateName),
{
    let c2 = register_spec(c, name, kind1, loc1, declared1, src1)->Ok_0;
    let n2 = c2.tables.len();
    assert(c2.tables[n2 - 1].name == name);
    lemma_find_table_contains(c2.tables, name, 0, n2 - 1);
}

/// Registering any name with a schema other than the canonical one always
/// fails with [`RegistrationError::SchemaMismatch`] (unless the name itself
/// is already taken).
pub proof fn lemma_conflicting_schema_rejected(
    c: CatalogS,
    name: Seq<u8>,
    kind: EncodingKind,
    loc: Seq<u8>,
    declared: Seq<FieldS>,
    src: Seq<u8>,
)
    requires
        declared != c.schema,
        find_table(c.tables, name, 0) is None,
    ensures
        register_spec(c, name, kind, loc, declared, src) == Err::<CatalogS, RegistrationError>(
            RegistrationError::SchemaMismatch,
        ),
{
}

/// Deriving the columnar source from a well-formed row-delimited source
/// preserves the table exactly: scanning the derived container under the
/// same schema yields the very rows the text source denotes.  Since queries
/// depend only on a table's rows (and name), querying the two sources —
/// unfiltered, ordered by the key — must then produce identical rows.
pub proof fn lemma_transcode_roundtrip(s: Seq<FieldS>, src: Seq<u8>)
    requires
        text_wf(src, s),
        1 <= s.len(),
        src.len() < 0x10000000000000000,
        s.len() < 0x10000000000000000,
        forall|j: int| 0 <= j < s.len() ==> (#[trigger] s[j]).name.len() < 0x10000000000000000,
    ensures
        scan_source(
            s,
            EncodingKind::Columnar,
            crate::colbin::enc_table(s, parsed_table(src, s)),
        ) == Ok::<Seq<Seq<ValSpec>>, RegistrationError>(parsed_table(src, s)),
{
    let t = parsed_table(src, s);
    crate::rowtext::lemma_parsed_table_ok(src, s);
    crate::bytes::lemma_split_count(src, 10);
    crate::colbin::lemma_pow256_8();
    crate::colbin::lemma_parse_enc_table(s, t);
    assert forall|r: int| 0 <= r < t.len() implies (#[trigger] t[r]).len() == s.len() by {
        assert(crate::schema::row_ok(s, t[r]));
    }
    crate::colbin::lemma_rows_of_cols_of(s, t);
}

/// A name present at index `j` is found.
pub proof fn lemma_find_table_contains(ts: Seq<TableS>, n: Seq<u8>, i: int, j: int)
    requires
        0 <= i <= j < ts.len(),
        ts[j].name == n,
    ensures
        find_table(ts, n, i) is Some,
    decreases ts.len() - i,
{
    if ts[i].name != n {
        lemma_find_table_contains(ts, n, i + 1, j);
    }
}

} // verus!
