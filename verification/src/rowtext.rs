//! The row-delimited text source.
//!
//! A source is a header line naming the schema fields in order, then one
//! line per row, cells separated by commas.  Coercion is strict: a cell that
//! does not parse as the declared field type aborts the whole parse rather
//! than being read as null.

use vstd::prelude::*;
use crate::bytes::{split_bytes, split_spec};
use crate::num::{parse_dec, parse_dec_spec, parse_int, parse_int_spec};
use crate::schema::{row_ok, table_ok, FieldS, Schema};
use crate::value::{bytes_eq, clone_bytes, FieldType, Row, ValSpec, Value};

verus! {

/// Why a row-delimited source was rejected.
#[derive(Clone, Copy, PartialEq, Eq, Structural, Debug)]
pub enum TextError {
    /// The header line does not name the schema fields in order.
    HeaderMismatch,
    /// Some cell does not parse as its field's declared type.
    BadCell,
}

/// The cells of one line.
pub open spec fn line_cells(l: Seq<u8>) -> Seq<Seq<u8>> {
    split_spec(l, 44)
}

/// Coerce one cell to a field's declared type.
pub open spec fn coerce_cell(cell: Seq<u8>, f: FieldS) -> Option<ValSpec> {
    match f.ftype {
        FieldType::IntType => match parse_int_spec(cell) {
            Some(v) => Some(ValSpec::Int(v)),
            None => None,
        },
        FieldType::DecType => match parse_dec_spec(cell) {
            Some(v) => Some(ValSpec::Dec(v)),
            None => None,
        },
        FieldType::TextType => Some(ValSpec::Text(cell)),
    }
}

/// Every cell of the line coerces, and the cell count matches the schema.
pub open spec fn row_coercible(s: Seq<FieldS>, cells: Seq<Seq<u8>>) -> bool {
    &&& cells.len() == s.len()
    &&& forall|j: int| 0 <= j < s.len() ==> coerce_cell(#[trigger] cells[j], s[j]) is Some
}

/// The row a coercible line denotes.
pub open spec fn coerced_row(s: Seq<FieldS>, cells: Seq<Seq<u8>>) -> Seq<ValSpec> {
    Seq::new(s.len(), |j: int| coerce_cell(cells[j], s[j])->0)
}

/// The header line names the schema fields, in order.
pub open spec fn header_ok(s: Seq<FieldS>, cells: Seq<Seq<u8>>) -> bool {
    &&& cells.len() == s.len()
    &&& forall|j: int| 0 <= j < s.len() ==> #[trigger] cells[j] == s[j].name
}

/// A whole source is well formed for a schema.
pub open spec fn text_wf(b: Seq<u8>, s: Seq<FieldS>) -> bool {
    let lines = split_spec(b, 10);
    &&& header_ok(s, line_cells(lines[0]))
    &&& forall|i: int| 1 <= i < lines.len() ==> row_coercible(s, line_cells(#[trigger] lines[i]))
}

/// The table a well-formed source denotes.
pub open spec fn parsed_table(b: Seq<u8>, s: Seq<FieldS>) -> Seq<Seq<ValSpec>> {
    let lines = split_spec(b, 10);
    Seq::new((lines.len() - 1) as nat, |i: int| coerced_row(s, line_cells(lines[i + 1])))
}

/// A parsed table conforms to its schema.
pub proof fn lemma_parsed_table_ok(b: Seq<u8>, s: Seq<FieldS>)
    requires
        text_wf(b, s),
        b.len() < 0x10000000000000000,
    ensures
        table_ok(s, parsed_table(b, s)),
{
    let t = parsed_table(b, s);
    assert forall|i: int| 0 <= i < t.len() implies row_ok(s, #[trigger] t[i]) by {
        let lines = split_spec(b, 10);
        let cells = line_cells(lines[i + 1]);
        crate::bytes::lemma_split_seg_len(b, 10);
        crate::bytes::lemma_split_seg_len(lines[i + 1], 44);
        assert(row_coercible(s, cells));
        assert forall|j: int| 0 <= j < s.len() implies crate::value::val_ok(
            #[trigger] t[i][j],
            s[j].ftype,
            s[j].nullable,
        ) by {
            assert(coerce_cell(cells[j], s[j]) is Some);
            let c = cells[j];
            match s[j].ftype {
                FieldType::IntType => {
                    assert(parse_int_spec(c) is Some);
                    if c.len() >= 1 && c[0] == 45 {
                        crate::num::lemma_digits_val_nonneg(c.skip(1));
                    } else {
                        crate::num::lemma_digits_val_nonneg(c);
                    }
                },
                FieldType::DecType => {
                    assert(parse_dec_spec(c) is Some);
                    if c.len() >= 1 && c[0] == 45 {
                        lemma_udec_nonneg(c.skip(1));
                    } else {
                        lemma_udec_nonneg(c);
                    }
                },
                FieldType::TextType => {},
            }
        }
    }
}

/// A parsed unsigned fixed-point value is non-negative.
proof fn lemma_udec_nonneg(s: Seq<u8>)
    requires
        crate::num::parse_udec_spec(s) is Some,
    ensures
        crate::num::parse_udec_spec(s)->0 >= 0,
{
    match crate::num::find_dot(s, 0) {
        None => {
            crate::num::lemma_digits_val_nonneg(s);
        },
        Some(d) => {
            crate::num::lemma_find_dot_in_range(s, 0);
            crate::num::lemma_digits_val_nonneg(s.take(d));
            crate::num::lemma_digits_val_nonneg(s.skip(d + 1));
        },
    }
}

/// Coerce one cell.
fn coerce_value(cell: &Vec<u8>, ftype: FieldType) -> (r: Option<Value>)
    ensures
        ({
            let f = FieldS { name: Seq::empty(), ftype, nullable: false };
            match r {
                Some(v) => coerce_cell(cell@, FieldS { name: Seq::empty(), ftype, nullable: false })
                    == Some(v@),
                None => coerce_cell(cell@, FieldS { name: Seq::empty(), ftype, nullable: false })
                    is None,
            }
        }),
        forall|f: FieldS| f.ftype == ftype ==> #[trigger] coerce_cell(cell@, f) == coerce_cell(
            cell@,
            FieldS { name: Seq::empty(), ftype, nullable: false },
        ),
{
    match ftype {
        FieldType::IntType => match parse_int(cell) {
            Some(v) => Some(Value::Int(v)),
            None => None,
        },
        FieldType::DecType => match parse_dec(cell) {
            Some(v) => Some(Value::Dec(v)),
            None => None,
        },
        FieldType::TextType => Some(Value::Text(clone_bytes(cell))),
    }
}

/// Parse one data line against the schema.
fn parse_line(line: &Vec<u8>, schema: &Schema) -> (r: Option<Row>)
    ensures
        match r {
            Some(row) => row_coercible(schema@, line_cells(line@)) && row.deep_view()
                == coerced_row(schema@, line_cells(line@)),
            None => !row_coercible(schema@, line_cells(line@)),
        },
{
    let cells = split_bytes(line, 44);
    let ghost cs = line_cells(line@);
    if cells.len() != schema.fields.len() {
        proof {
            assert(cs.len() == cells.deep_view().len());
            assert(!row_coercible(schema@, cs));
        }
        return None;
    }
    let mut row: Row = Vec::new();
    let mut j: usize = 0;
    while j < cells.len()
        invariant
            j <= cells.len(),
            cs == line_cells(line@),
            cells.deep_view() == cs,
            cells@.len() == cs.len(),
            cs.len() == schema@.len(),
            schema.fields@.len() == schema@.len(),
            forall|k: int| 0 <= k < j ==> coerce_cell(#[trigger] cs[k], schema@[k]) is Some,
            row.deep_view() =~= Seq::new(j as nat, |k: int| coerce_cell(cs[k], schema@[k])->0),
        decreases cells.len() - j,
    {
        proof {
            assert(cells@[j as int]@ =~= cells@[j as int].deep_view());
            assert(cells@[j as int]@ == cs[j as int]);
        }
        match coerce_value(&cells[j], schema.fields[j].ftype) {
            Some(v) => {
                proof {
                    assert(coerce_cell(cs[j as int], schema@[j as int]) == Some(v@));
                }
                let ghost prev = row.deep_view();
                let ghost vv = v@;
                row.push(v);
                proof {
                    assert(row.deep_view() =~= prev.push(vv));
                    assert(row.deep_view() =~= Seq::new((j + 1) as nat, |k: int| coerce_cell(
                        cs[k],
                        schema@[k],
                    )->0));
                }
            },
            None => {
                proof {
                    assert(coerce_cell(cs[j as int], schema@[j as int]) is None);
                    assert(!row_coercible(schema@, cs));
                }
                return None;
            },
        }
        j = j + 1;
    }
    proof {
        assert(row.deep_view() =~= coerced_row(schema@, cs));
    }
    Some(row)
}

/// Parse a whole row-delimited source.
///
/// Succeeds exactly when the header matches the schema and every cell
/// coerces; then the result is the denoted table, which conforms to the
/// schema.  [`TextError::HeaderMismatch`] reports a bad header;
/// [`TextError::BadCell`] a bad cell under a good header.
pub fn parse_table_text(b: &Vec<u8>, schema: &Schema) -> (r: Result<Vec<Row>, TextError>)
    ensures
        match r {
            Ok(rows) => text_wf(b@, schema@) && rows.deep_view() == parsed_table(b@, schema@),
            Err(e) => !text_wf(b@, schema@) && (e == TextError::HeaderMismatch <==> !header_ok(
                schema@,
                line_cells(split_spec(b@, 10)[0]),
            )),
        },
{
    let lines = split_bytes(b, 10);
    let ghost ls = split_spec(b@, 10);
    proof {
        crate::bytes::lemma_split_nonempty(b@, 10);
    }
    proof {
        assert(lines@[0]@ =~= lines@[0].deep_view());
        assert(lines@[0]@ == ls[0]);
    }
    let header = split_bytes(&lines[0], 44);
    let ghost hs = line_cells(ls[0]);
    if header.len() != schema.fields.len() {
        proof {
            assert(hs.len() == header.deep_view().len());
        }
        return Err(TextError::HeaderMismatch);
    }
    let mut j: usize = 0;
    while j < header.len()
        invariant
            j <= header@.len(),
            ls == split_spec(b@, 10),
            hs == line_cells(ls[0]),
            header.deep_view() == hs,
            header@.len() == hs.len(),
            hs.len() == schema@.len(),
            schema.fields@.len() == schema@.len(),
            forall|k: int| 0 <= k < j ==> #[trigger] hs[k] == schema@[k].name,
        decreases header.len() - j,
    {
        proof {
            assert(header@[j as int]@ =~= header@[j as int].deep_view());
            assert(header@[j as int]@ == hs[j as int]);
        }
        if !bytes_eq(&header[j], &schema.fields[j].name) {
            proof {
                assert(hs[j as int] != schema@[j as int].name);
                assert(!header_ok(schema@, hs));
                assert(!text_wf(b@, schema@));
            }
            return Err(TextError::HeaderMismatch);
        }
        j = j + 1;
    }
    proof {
        assert(header_ok(schema@, hs));
    }
    let mut rows: Vec<Row> = Vec::new();
    let mut i: usize = 1;
    while i < lines.len()
        invariant
            1 <= i <= lines@.len(),
            ls == split_spec(b@, 10),
            lines.deep_view() == ls,
            lines@.len() == ls.len(),
            header_ok(schema@, line_cells(ls[0])),
            forall|k: int| 1 <= k < i ==> row_coercible(schema@, line_cells(#[trigger] ls[k])),
            rows.deep_view() =~= Seq::new((i - 1) as nat, |k: int| coerced_row(
                schema@,
                line_cells(ls[k + 1]),
            )),
        decreases lines.len() - i,
    {
        proof {
            assert(lines@[i as int]@ =~= lines@[i as int].deep_view());
            assert(lines@[i as int]@ == ls[i as int]);
        }
        let ghost prev = rows.deep_view();
        match parse_line(&lines[i], schema) {
            Some(row) => {
                let ghost rv = row.deep_view();
                rows.push(row);
                proof {
                    assert(rows.deep_view() =~= prev.push(rv));
                    assert(rv == coerced_row(schema@, line_cells(ls[i as int])));
                    assert(rows.deep_view() =~= Seq::new(i as nat, |k: int| coerced_row(
                        schema@,
                        line_cells(ls[k + 1]),
                    )));
                }
            },
            None => {
                proof {
                    assert(!row_coercible(schema@, line_cells(ls[i as int])));
                    assert(!text_wf(b@, schema@));
                }
                return Err(TextError::BadCell);
            },
        }
        i = i + 1;
    }
    proof {
        assert(text_wf(b@, schema@));
        assert(rows.deep_view() =~= parsed_table(b@, schema@));
    }
    Ok(rows)
}

} // verus!
