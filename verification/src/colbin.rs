//! The columnar binary source.
//!
//! A self-describing container: a field count, the field metadata (name,
//! type tag, nullability), a row count, and then the cell data grouped by
//! column.  Unsigned counts are eight little-endian base-256 bytes; signed
//! numbers are biased by `2^63`; every cell starts with a presence marker so
//! nullable fields can hold nulls.  Decoding checks the embedded metadata
//! against the declared schema and rejects any disagreement rather than
//! reinterpreting the data.

use vstd::prelude::*;
use crate::schema::{table_ok, Field, FieldS, Schema};
use crate::value::{val_ok, FieldType, Row, ValSpec, Value};

verus! {

/// `256 ^ n`.
pub open spec fn pow256(n: nat) -> int
    decreases n,
{
    if n == 0 {
        1
    } else {
        256 * pow256((n - 1) as nat)
    }
}

/// `n` little-endian base-256 bytes of a non-negative number.
pub open spec fn enc_u64(x: int, n: nat) -> Seq<u8>
    decreases n,
{
    if n == 0 {
        Seq::empty()
    } else {
        seq![(x % 256) as u8] + enc_u64(x / 256, (n - 1) as nat)
    }
}

/// The number the first `n` bytes of `b` spell in little-endian base 256.
pub open spec fn dec_u64(b: Seq<u8>, n: nat) -> int
    decreases n,
{
    if n == 0 || b.len() == 0 {
        0
    } else {
        b[0] + 256 * dec_u64(b.skip(1), (n - 1) as nat)
    }
}

/// An encoded number has exactly `n` bytes.
pub proof fn lemma_enc_u64_len(x: int, n: nat)
    ensures
        enc_u64(x, n).len() == n,
    decreases n,
{
    if n > 0 {
        lemma_enc_u64_len(x / 256, (n - 1) as nat);
    }
}

/// Decoding reads only the first `n` bytes.
pub proof fn lemma_dec_u64_depends(a: Seq<u8>, b: Seq<u8>, n: nat)
    requires
        n <= a.len(),
        n <= b.len(),
        a.take(n as int) == b.take(n as int),
    ensures
        dec_u64(a, n) == dec_u64(b, n),
    decreases n,
{
    if n > 0 {
        assert(a[0] == a.take(n as int)[0]);
        assert(b[0] == b.take(n as int)[0]);
        assert(a.skip(1).take(n - 1) =~= a.take(n as int).skip(1));
        assert(b.skip(1).take(n - 1) =~= b.take(n as int).skip(1));
        lemma_dec_u64_depends(a.skip(1), b.skip(1), (n - 1) as nat);
    }
}

/// Decoding inverts encoding for numbers below `256 ^ n`.
pub proof fn lemma_dec_enc_u64(x: int, n: nat)
    requires
        0 <= x < pow256(n),
    ensures
        dec_u64(enc_u64(x, n), n) == x,
    decreases n,
{
    if n > 0 {
        assert(x / 256 < pow256((n - 1) as nat)) by (nonlinear_arith)
            requires
                x < 256 * pow256((n - 1) as nat),
                0 <= x,
        ;
        assert(x / 256 >= 0);
        lemma_dec_enc_u64(x / 256, (n - 1) as nat);
        let e = enc_u64(x, n);
        assert(e.skip(1) =~= enc_u64(x / 256, (n - 1) as nat));
        lemma_enc_u64_len(x / 256, (n - 1) as nat);
        assert(dec_u64(e, n) == x % 256 + 256 * (x / 256));
        assert(x % 256 + 256 * (x / 256) == x) by (nonlinear_arith);
    }
}

/// Read an eight-byte count at offset `i`.
pub open spec fn rd_u64(b: Seq<u8>, i: int) -> Option<(int, int)> {
    if 0 <= i && i + 8 <= b.len() {
        Some((dec_u64(b.skip(i), 8), i + 8))
    } else {
        None
    }
}

/// Reading at an encoded number yields that number.
pub proof fn lemma_rd_u64_at(b: Seq<u8>, i: int, x: int)
    requires
        0 <= i,
        i + 8 <= b.len(),
        0 <= x < pow256(8),
        b.subrange(i, i + 8) == enc_u64(x, 8),
    ensures
        rd_u64(b, i) == Some((x, i + 8)),
{
    lemma_enc_u64_len(x, 8);
    assert(b.skip(i).take(8) =~= b.subrange(i, i + 8));
    assert(enc_u64(x, 8).take(8) =~= enc_u64(x, 8));
    lemma_dec_u64_depends(b.skip(i), enc_u64(x, 8), 8);
    lemma_dec_enc_u64(x, 8);
}

/// The bias applied to signed cell values.
pub open spec fn bias() -> int {
    0x8000000000000000
}

/// One encoded cell: a presence marker, then the payload.
pub open spec fn enc_value(v: ValSpec) -> Seq<u8> {
    match v {
        ValSpec::Null => seq![0u8],
        ValSpec::Int(x) => seq![1u8] + enc_u64(x + bias(), 8),
        ValSpec::Dec(x) => seq![1u8] + enc_u64(x + bias(), 8),
        ValSpec::Text(t) => seq![1u8] + enc_u64(t.len() as int, 8) + t,
    }
}

/// Read one cell of field `f` at offset `i`.
pub open spec fn rd_value(b: Seq<u8>, i: int, f: FieldS) -> Option<(ValSpec, int)> {
    if !(0 <= i && i < b.len()) {
        None
    } else if b[i] == 0 {
        if f.nullable {
            Some((ValSpec::Null, i + 1))
        } else {
            None
        }
    } else if b[i] == 1 {
        match f.ftype {
            FieldType::IntType => match rd_u64(b, i + 1) {
                Some((u, j)) => Some((ValSpec::Int(u - bias()), j)),
                None => None,
            },
            FieldType::DecType => match rd_u64(b, i + 1) {
                Some((u, j)) => Some((ValSpec::Dec(u - bias()), j)),
                None => None,
            },
            FieldType::TextType => match rd_u64(b, i + 1) {
                Some((l, j)) => if j + l <= b.len() {
                    Some((ValSpec::Text(b.subrange(j, j + l)), j + l))
                } else {
                    None
                },
                None => None,
            },
        }
    } else {
        None
    }
}

/// `256 ^ 8` in full.
pub proof fn lemma_pow256_8()
    ensures
        pow256(8) == 0x10000000000000000,
{
    assert(pow256(0) == 1);
    assert(pow256(1) == 256);
    assert(pow256(2) == 0x10000);
    assert(pow256(3) == 0x1000000);
    assert(pow256(4) == 0x100000000);
    assert(pow256(5) == 0x10000000000);
    assert(pow256(6) == 0x1000000000000);
    assert(pow256(7) == 0x100000000000000);
    assert(pow256(8) == 0x10000000000000000);
}

/// A cell read back from its own encoding is itself.
pub proof fn lemma_rd_value_at(b: Seq<u8>, i: int, v: ValSpec, f: FieldS)
    requires
        0 <= i,
        val_ok(v, f.ftype, f.nullable),
        i + enc_value(v).len() <= b.len(),
        b.subrange(i, i + enc_value(v).len() as int) == enc_value(v),
    ensures
        rd_value(b, i, f) == Some((v, i + enc_value(v).len() as int)),
{
    let e = enc_value(v);
    assert(b[i] == e[0]);
    lemma_pow256_8();
    match v {
        ValSpec::Null => {
        },
        ValSpec::Int(x) => {
            lemma_enc_u64_len(x + bias(), 8);
            assert(b.subrange(i + 1, i + 9) =~= e.subrange(1, 9));
            assert(e.subrange(1, 9) =~= enc_u64(x + bias(), 8));
            lemma_rd_u64_at(b, i + 1, x + bias());
        },
        ValSpec::Dec(x) => {
            lemma_enc_u64_len(x + bias(), 8);
            assert(b.subrange(i + 1, i + 9) =~= e.subrange(1, 9));
            assert(e.subrange(1, 9) =~= enc_u64(x + bias(), 8));
            lemma_rd_u64_at(b, i + 1, x + bias());
        },
        ValSpec::Text(t) => {
            let l = t.len() as int;
            lemma_enc_u64_len(l, 8);
            assert(b.subrange(i + 1, i + 9) =~= e.subrange(1, 9));
            assert(e.subrange(1, 9) =~= enc_u64(l, 8));
            lemma_rd_u64_at(b, i + 1, l);
            assert(b.subrange(i + 9, i + 9 + l) =~= e.subrange(9, 9 + l));
            assert(e.subrange(9, 9 + l) =~= t);
        },
    }
}

/// Column `j` of a table, cells from row `i` down, encoded in row order.
pub open spec fn enc_col_from(t: Seq<Seq<ValSpec>>, j: int, i: int) -> Seq<u8>
    decreases t.len() - i,
{
    if i < 0 || i >= t.len() {
        Seq::empty()
    } else {
        enc_value(t[i][j]) + enc_col_from(t, j, i + 1)
    }
}

/// Read `n` cells of field `f` at offset `i`.
pub open spec fn rd_col(b: Seq<u8>, i: int, f: FieldS, n: nat) -> Option<(Seq<ValSpec>, int)>
    decreases n,
{
    if n == 0 {
        Some((Seq::empty(), i))
    } else {
        match rd_value(b, i, f) {
            Some((v, j)) => match rd_col(b, j, f, (n - 1) as nat) {
                Some((rest, k)) => Some((seq![v] + rest, k)),
                None => None,
            },
            None => None,
        }
    }
}

/// All fields of a schema, from field `j` down, encoded in order.
pub open spec fn enc_field(f: FieldS) -> Seq<u8> {
    enc_u64(f.name.len() as int, 8) + f.name + seq![
        match f.ftype {
            FieldType::IntType => 0u8,
            FieldType::DecType => 1u8,
            FieldType::TextType => 2u8,
        },
        if f.nullable {
            1u8
        } else {
            0u8
        },
    ]
}

/// Read one field description at offset `i`.
pub open spec fn rd_field(b: Seq<u8>, i: int) -> Option<(FieldS, int)> {
    match rd_u64(b, i) {
        Some((l, j)) => if j + l + 2 <= b.len() {
            let name = b.subrange(j, j + l);
            let tag = b[j + l];
            let nul = b[j + l + 1];
            if (tag == 0 || tag == 1 || tag == 2) && (nul == 0 || nul == 1) {
                Some(
                    (
                        FieldS {
                            name,
                            ftype: if tag == 0 {
                                FieldType::IntType
                            } else if tag == 1 {
                                FieldType::DecType
                            } else {
                                FieldType::TextType
                            },
                            nullable: nul == 1,
                        },
                        j + l + 2,
                    ),
                )
            } else {
                None
            }
        } else {
            None
        },
        None => None,
    }
}

/// A field description read back from its own encoding is itself.
pub proof fn lemma_rd_field_at(b: Seq<u8>, i: int, f: FieldS)
    requires
        0 <= i,
        f.name.len() < pow256(8),
        i + enc_field(f).len() <= b.len(),
        b.subrange(i, i + enc_field(f).len() as int) == enc_field(f),
    ensures
        rd_field(b, i) == Some((f, i + enc_field(f).len() as int)),
{
    let e = enc_field(f);
    let l = f.name.len() as int;
    lemma_enc_u64_len(l, 8);
    assert(b.subrange(i, i + 8) =~= e.subrange(0, 8));
    assert(e.subrange(0, 8) =~= enc_u64(l, 8));
    lemma_rd_u64_at(b, i, l);
    assert(b.subrange(i + 8, i + 8 + l) =~= e.subrange(8, 8 + l));
    assert(e.subrange(8, 8 + l) =~= f.name);
    assert(b[i + 8 + l] == e[8 + l]);
    assert(b[i + 8 + l + 1] == e[8 + l + 1]);
}

/// The schema's fields, from field `j` down, encoded in order.
pub open spec fn enc_fields_from(s: Seq<FieldS>, j: int) -> Seq<u8>
    decreases s.len() - j,
{
    if j < 0 || j >= s.len() {
        Seq::empty()
    } else {
        enc_field(s[j]) + enc_fields_from(s, j + 1)
    }
}

/// Read `n` field descriptions at offset `i`.
pub open spec fn rd_fields(b: Seq<u8>, i: int, n: nat) -> Option<(Seq<FieldS>, int)>
    decreases n,
{
    if n == 0 {
        Some((Seq::empty(), i))
    } else {
        match rd_field(b, i) {
            Some((f, j)) => match rd_fields(b, j, (n - 1) as nat) {
                Some((rest, k)) => Some((seq![f] + rest, k)),
                None => None,
            },
            None => None,
        }
    }
}

/// The cell data of all columns from `j` down, in column order.
pub open spec fn enc_cols_from(s: Seq<FieldS>, t: Seq<Seq<ValSpec>>, j: int) -> Seq<u8>
    decreases s.len() - j,
{
    if j < 0 || j >= s.len() {
        Seq::empty()
    } else {
        enc_col_from(t, j, 0) + enc_cols_from(s, t, j + 1)
    }
}

/// Read the cell data of fields `fs[j..]`, `n` rows per column.
pub open spec fn rd_cols(b: Seq<u8>, i: int, fs: Seq<FieldS>, j: int, n: nat) -> Option<
    (Seq<Seq<ValSpec>>, int),
>
    decreases fs.len() - j,
{
    if j < 0 || j >= fs.len() {
        Some((Seq::empty(), i))
    } else {
        match rd_col(b, i, fs[j], n) {
            Some((col, k)) => match rd_cols(b, k, fs, j + 1, n) {
                Some((rest, m)) => Some((seq![col] + rest, m)),
                None => None,
            },
            None => None,
        }
    }
}

/// A whole encoded table: field count, fields, row count, column data.
pub open spec fn enc_table(s: Seq<FieldS>, t: Seq<Seq<ValSpec>>) -> Seq<u8> {
    enc_u64(s.len() as int, 8) + enc_fields_from(s, 0) + enc_u64(t.len() as int, 8)
        + enc_cols_from(s, t, 0)
}

/// Parse a whole container: the embedded schema, the row count, and the
/// columns.  `None` when the bytes are not a container (including trailing
/// garbage).
pub open spec fn parse_container(b: Seq<u8>) -> Option<(Seq<FieldS>, int, Seq<Seq<ValSpec>>)> {
    match rd_u64(b, 0) {
        None => None,
        Some((fc, i1)) => if fc == 0 {
            None
        } else {
            match rd_fields(b, i1, fc as nat) {
            None => None,
            Some((fs, i2)) => match rd_u64(b, i2) {
                None => None,
                Some((rc, i3)) => match rd_cols(b, i3, fs, 0, rc as nat) {
                    None => None,
                    Some((cols, i4)) => if i4 == b.len() {
                        Some((fs, rc, cols))
                    } else {
                        None
                    },
                },
            },
            }
        },
    }
}

/// The columns of a table.
pub open spec fn cols_of(t: Seq<Seq<ValSpec>>, ncols: int) -> Seq<Seq<ValSpec>> {
    Seq::new(ncols as nat, |j: int| Seq::new(t.len(), |i: int| t[i][j]))
}

/// The rows a set of equally long columns denotes.
pub open spec fn rows_of_cols(ncols: int, rc: int, cols: Seq<Seq<ValSpec>>) -> Seq<Seq<ValSpec>> {
    Seq::new(rc as nat, |i: int| Seq::new(ncols as nat, |j: int| cols[j][i]))
}

/// Turning a rectangular table into columns and back yields the table.
pub proof fn lemma_rows_of_cols_of(s: Seq<FieldS>, t: Seq<Seq<ValSpec>>)
    requires
        forall|r: int| 0 <= r < t.len() ==> (#[trigger] t[r]).len() == s.len(),
    ensures
        rows_of_cols(s.len() as int, t.len() as int, cols_of(t, s.len() as int)) == t,
{
    let back = rows_of_cols(s.len() as int, t.len() as int, cols_of(t, s.len() as int));
    assert forall|i: int| 0 <= i < t.len() implies back[i] == t[i] by {
        assert(back[i] =~= t[i]);
    }
    assert(back =~= t);
}

/// Reading a column back from its own encoding yields its cells.
pub proof fn lemma_rd_col_at(b: Seq<u8>, i: int, t: Seq<Seq<ValSpec>>, j: int, k: int, f: FieldS)
    requires
        0 <= i,
        0 <= k <= t.len(),
        forall|r: int| k <= r < t.len() ==> val_ok(#[trigger] t[r][j], f.ftype, f.nullable),
        i + enc_col_from(t, j, k).len() <= b.len(),
        b.subrange(i, i + enc_col_from(t, j, k).len() as int) == enc_col_from(t, j, k),
    ensures
        rd_col(b, i, f, (t.len() - k) as nat) == Some(
            (
                Seq::new((t.len() - k) as nat, |r: int| t[r + k][j]),
                i + enc_col_from(t, j, k).len() as int,
            ),
        ),
    decreases t.len() - k,
{
    if k == t.len() {
        assert(Seq::new(0, |r: int| t[r + k][j]) =~= Seq::<ValSpec>::empty());
    } else {
        let ev = enc_value(t[k][j]);
        let rest = enc_col_from(t, j, k + 1);
        assert(enc_col_from(t, j, k) == ev + rest);
        assert(b.subrange(i, i + ev.len() as int) =~= ev);
        lemma_rd_value_at(b, i, t[k][j], f);
        assert(b.subrange(i + ev.len(), i + ev.len() + rest.len() as int) =~= b.subrange(
            i,
            i + ev.len() + rest.len() as int,
        ).skip(ev.len() as int));
        assert((ev + rest).skip(ev.len() as int) =~= rest);
        lemma_rd_col_at(b, i + ev.len() as int, t, j, k + 1, f);
        assert(seq![t[k][j]] + Seq::new((t.len() - k - 1) as nat, |r: int| t[r + k + 1][j])
            =~= Seq::new((t.len() - k) as nat, |r: int| t[r + k][j]));
    }
}

/// Reading the field list back from its own encoding yields the schema tail.
pub proof fn lemma_rd_fields_at(b: Seq<u8>, i: int, s: Seq<FieldS>, k: int)
    requires
        0 <= i,
        0 <= k <= s.len(),
        forall|r: int| k <= r < s.len() ==> (#[trigger] s[r]).name.len() < pow256(8),
        i + enc_fields_from(s, k).len() <= b.len(),
        b.subrange(i, i + enc_fields_from(s, k).len() as int) == enc_fields_from(s, k),
    ensures
        rd_fields(b, i, (s.len() - k) as nat) == Some(
            (s.skip(k), i + enc_fields_from(s, k).len() as int),
        ),
    decreases s.len() - k,
{
    if k == s.len() {
        assert(s.skip(k) =~= Seq::<FieldS>::empty());
    } else {
        let ef = enc_field(s[k]);
        let rest = enc_fields_from(s, k + 1);
        assert(enc_fields_from(s, k) == ef + rest);
        assert(b.subrange(i, i + ef.len() as int) =~= ef);
        lemma_rd_field_at(b, i, s[k]);
        assert(b.subrange(i + ef.len(), i + ef.len() + rest.len() as int) =~= b.subrange(
            i,
            i + ef.len() + rest.len() as int,
        ).skip(ef.len() as int));
        assert((ef + rest).skip(ef.len() as int) =~= rest);
        lemma_rd_fields_at(b, i + ef.len() as int, s, k + 1);
        assert(seq![s[k]] + s.skip(k + 1) =~= s.skip(k));
    }
}

/// Reading all column data back from its own encoding yields the columns.
pub proof fn lemma_rd_cols_at(b: Seq<u8>, i: int, s: Seq<FieldS>, t: Seq<Seq<ValSpec>>, j: int)
    requires
        0 <= i,
        0 <= j <= s.len(),
        table_ok(s, t),
        i + enc_cols_from(s, t, j).len() <= b.len(),
        b.subrange(i, i + enc_cols_from(s, t, j).len() as int) == enc_cols_from(s, t, j),
    ensures
        rd_cols(b, i, s, j, t.len() as nat) == Some(
            (
                Seq::new((s.len() - j) as nat, |c: int| Seq::new(t.len(), |r: int| t[r][c + j])),
                i + enc_cols_from(s, t, j).len() as int,
            ),
        ),
    decreases s.len() - j,
{
    if j == s.len() {
        assert(Seq::new(0, |c: int| Seq::new(t.len(), |r: int| t[r][c + j]))
            =~= Seq::<Seq<ValSpec>>::empty());
    } else {
        let ec = enc_col_from(t, j, 0);
        let rest = enc_cols_from(s, t, j + 1);
        assert(enc_cols_from(s, t, j) == ec + rest);
        assert(b.subrange(i, i + ec.len() as int) =~= ec);
        assert forall|r: int| 0 <= r < t.len() implies val_ok(
            #[trigger] t[r][j],
            s[j].ftype,
            s[j].nullable,
        ) by {
            assert(crate::schema::row_ok(s, t[r]));
        }
        lemma_rd_col_at(b, i, t, j, 0, s[j]);
        assert(b.subrange(i + ec.len(), i + ec.len() + rest.len() as int) =~= b.subrange(
            i,
            i + ec.len() + rest.len() as int,
        ).skip(ec.len() as int));
        assert((ec + rest).skip(ec.len() as int) =~= rest);
        lemma_rd_cols_at(b, i + ec.len() as int, s, t, j + 1);
        assert(Seq::new(t.len(), |r: int| t[r + 0][j]) =~= Seq::new(t.len(), |r: int| t[r][j]));
        assert(seq![Seq::new(t.len(), |r: int| t[r][j])] + Seq::new(
            (s.len() - j - 1) as nat,
            |c: int| Seq::new(t.len(), |r: int| t[r][c + j + 1]),
        ) =~= Seq::new((s.len() - j) as nat, |c: int| Seq::new(t.len(), |r: int| t[r][c + j])));
    }
}

/// Parsing an encoded table yields its schema, row count, and columns.
pub proof fn lemma_parse_enc_table(s: Seq<FieldS>, t: Seq<Seq<ValSpec>>)
    requires
        table_ok(s, t),
        0 < s.len() < pow256(8),
        t.len() < pow256(8),
        forall|r: int| 0 <= r < s.len() ==> (#[trigger] s[r]).name.len() < pow256(8),
    ensures
        parse_container(enc_table(s, t)) == Some(
            (s, t.len() as int, cols_of(t, s.len() as int)),
        ),
{
    let b = enc_table(s, t);
    let p1 = enc_u64(s.len() as int, 8);
    let p2 = enc_fields_from(s, 0);
    let p3 = enc_u64(t.len() as int, 8);
    let p4 = enc_cols_from(s, t, 0);
    lemma_enc_u64_len(s.len() as int, 8);
    lemma_enc_u64_len(t.len() as int, 8);
    let i1: int = 8;
    let i2: int = i1 + p2.len();
    let i3: int = i2 + 8;
    let i4: int = i3 + p4.len();
    assert(b.len() == i4);
    assert(b.subrange(0, 8) =~= p1);
    lemma_rd_u64_at(b, 0, s.len() as int);
    assert(b.subrange(i1, i1 + p2.len() as int) =~= p2);
    lemma_rd_fields_at(b, i1, s, 0);
    assert(s.skip(0) =~= s);
    assert(b.subrange(i2, i2 + 8) =~= p3);
    lemma_rd_u64_at(b, i2, t.len() as int);
    assert(b.subrange(i3, i3 + p4.len() as int) =~= p4);
    lemma_rd_cols_at(b, i3, s, t, 0);
    assert(Seq::new(s.len(), |c: int| Seq::new(t.len(), |r: int| t[r][c + 0])) =~~= cols_of(
        t,
        s.len() as int,
    ));
}

/// Decoded counts are in range.
pub proof fn lemma_dec_u64_bounds(b: Seq<u8>, n: nat)
    ensures
        0 <= dec_u64(b, n) < pow256(n),
    decreases n,
{
    if n == 0 || b.len() == 0 {
        lemma_pow256_pos(n);
    } else {
        lemma_dec_u64_bounds(b.skip(1), (n - 1) as nat);
        assert(b[0] + 256 * dec_u64(b.skip(1), (n - 1) as nat) < 256 * pow256((n - 1) as nat))
            by (nonlinear_arith)
            requires
                b[0] < 256,
                0 <= dec_u64(b.skip(1), (n - 1) as nat),
                dec_u64(b.skip(1), (n - 1) as nat) <= pow256((n - 1) as nat) - 1,
        ;
    }
}

/// Powers of 256 are positive.
pub proof fn lemma_pow256_pos(n: nat)
    ensures
        pow256(n) >= 1,
    decreases n,
{
    if n > 0 {
        lemma_pow256_pos((n - 1) as nat);
    }
}

/// Every cell a reader yields conforms to its field.
pub proof fn lemma_rd_value_ok(b: Seq<u8>, i: int, f: FieldS)
    requires
        rd_value(b, i, f) is Some,
    ensures
        val_ok((rd_value(b, i, f)->0).0, f.ftype, f.nullable),
        i < (rd_value(b, i, f)->0).1 <= b.len(),
{
    lemma_pow256_8();
    if b[i] == 1 {
        match f.ftype {
            FieldType::IntType => {
                lemma_dec_u64_bounds(b.skip(i + 1), 8);
            },
            FieldType::DecType => {
                lemma_dec_u64_bounds(b.skip(i + 1), 8);
            },
            FieldType::TextType => {
                lemma_dec_u64_bounds(b.skip(i + 1), 8);
            },
        }
    }
}

/// Every column a reader yields has `n` conforming cells.
pub proof fn lemma_rd_col_ok(b: Seq<u8>, i: int, f: FieldS, n: nat)
    requires
        rd_col(b, i, f, n) is Some,
    ensures
        (rd_col(b, i, f, n)->0).0.len() == n,
        forall|r: int| 0 <= r < n ==> val_ok(#[trigger] (rd_col(b, i, f, n)->0).0[r], f.ftype, f.nullable),
    decreases n,
{
    if n > 0 {
        let (v, j) = rd_value(b, i, f)->0;
        lemma_rd_value_ok(b, i, f);
        lemma_rd_col_ok(b, j, f, (n - 1) as nat);
    }
}

/// Every column set a reader yields is rectangular and conforming.
pub proof fn lemma_rd_cols_ok(b: Seq<u8>, i: int, fs: Seq<FieldS>, j: int, n: nat)
    requires
        0 <= j <= fs.len(),
        rd_cols(b, i, fs, j, n) is Some,
    ensures
        (rd_cols(b, i, fs, j, n)->0).0.len() == fs.len() - j,
        forall|c: int|
            0 <= c < fs.len() - j ==> (#[trigger] (rd_cols(b, i, fs, j, n)->0).0[c]).len() == n,
        forall|c: int, r: int|
            0 <= c < fs.len() - j && 0 <= r < n ==> val_ok(
                #[trigger] (rd_cols(b, i, fs, j, n)->0).0[c][r],
                fs[c + j].ftype,
                fs[c + j].nullable,
            ),
    decreases fs.len() - j,
{
    if j < fs.len() {
        let (col, k) = rd_col(b, i, fs[j], n)->0;
        lemma_rd_col_ok(b, i, fs[j], n);
        lemma_rd_cols_ok(b, k, fs, j + 1, n);
        let cols = (rd_cols(b, i, fs, j, n)->0).0;
        let rest = (rd_cols(b, k, fs, j + 1, n)->0).0;
        assert(cols == seq![col] + rest);
        assert forall|c: int| 0 <= c < fs.len() - j implies (#[trigger] cols[c]).len() == n by {
            if c == 0 {
                assert(cols[0] == col);
            } else {
                assert(cols[c] == rest[c - 1]);
            }
        }
        assert forall|c: int, r: int|
            0 <= c < fs.len() - j && 0 <= r < n implies val_ok(
            #[trigger] cols[c][r],
            fs[c + j].ftype,
            fs[c + j].nullable,
        ) by {
            if c == 0 {
                assert(cols[0] == col);
            } else {
                assert(cols[c] == rest[c - 1]);
                assert(val_ok(rest[c - 1][r], fs[(c - 1) + (j + 1)].ftype, fs[(c - 1) + (j
                    + 1)].nullable));
            }
        }
    }
}

/// The rows of a parsed container conform to its embedded schema.
pub proof fn lemma_parse_container_ok(b: Seq<u8>)
    requires
        parse_container(b) is Some,
    ensures
        ({
            let (fs, rc, cols) = parse_container(b)->0;
            &&& 0 <= rc
            &&& cols.len() == fs.len()
            &&& table_ok(fs, rows_of_cols(fs.len() as int, rc, cols))
        }),
{
    let (fc, i1) = rd_u64(b, 0)->0;
    let (fs, i2) = rd_fields(b, i1, fc as nat)->0;
    let (rc, i3) = rd_u64(b, i2)->0;
    lemma_dec_u64_bounds(b.skip(i2), 8);
    lemma_rd_fields_len(b, i1, fc as nat);
    lemma_rd_cols_ok(b, i3, fs, 0, rc as nat);
    let cols = (rd_cols(b, i3, fs, 0, rc as nat)->0).0;
    let rows = rows_of_cols(fs.len() as int, rc, cols);
    assert forall|r: int| 0 <= r < rows.len() implies crate::schema::row_ok(
        fs,
        #[trigger] rows[r],
    ) by {
        assert(rows[r].len() == fs.len());
        assert forall|c: int| 0 <= c < fs.len() implies val_ok(
            #[trigger] rows[r][c],
            fs[c].ftype,
            fs[c].nullable,
        ) by {
            assert(rows[r][c] == cols[c][r]);
            assert(val_ok(cols[c + 0][r], fs[c + 0].ftype, fs[c + 0].nullable));
        }
    }
}

/// A field-list reader yields as many fields as asked.
pub proof fn lemma_rd_fields_len(b: Seq<u8>, i: int, n: nat)
    requires
        rd_fields(b, i, n) is Some,
    ensures
        (rd_fields(b, i, n)->0).0.len() == n,
    decreases n,
{
    if n > 0 {
        let (f, j) = rd_field(b, i)->0;
        lemma_rd_fields_len(b, j, (n - 1) as nat);
    }
}


/// Powers of 256 do not decrease.
pub proof fn lemma_pow256_mono(a: nat, b: nat)
    requires
        a <= b,
    ensures
        pow256(a) <= pow256(b),
    decreases b,
{
    if a < b {
        lemma_pow256_mono(a, (b - 1) as nat);
        lemma_pow256_pos((b - 1) as nat);
    }
}

/// Read `n` little-endian bytes at offset `i`.
fn dec_rec(b: &Vec<u8>, i: usize, n: usize) -> (r: u64)
    requires
        n <= 8,
        i + n <= b@.len(),
    ensures
        r as int == dec_u64(b@.skip(i as int), n as nat),
        r < pow256(n as nat),
    decreases n,
{
    proof {
        lemma_pow256_pos(n as nat);
    }
    if n == 0 {
        0
    } else {
        let blen = b.len();
        proof {
            assert(i + 1 <= blen);
        }
        let rest = dec_rec(b, i + 1, n - 1);
        proof {
            lemma_pow256_mono((n - 1) as nat, 7);
            lemma_pow256_8();
            assert(pow256(7) * 256 == pow256(8)) by {
                assert(pow256(8) == 256 * pow256(7));
            }
            assert(b@.skip(i as int).skip(1) =~= b@.skip(i + 1 as int));
            assert(b@.skip(i as int)[0] == b@[i as int]);
        }
        b[i] as u64 + 256 * rest
    }
}

/// Mirror of [`rd_u64`].
fn get_u64(b: &Vec<u8>, i: usize) -> (r: Option<(u64, usize)>)
    ensures
        match r {
            Some(p) => rd_u64(b@, i as int) == Some((p.0 as int, p.1 as int)) && p.1 <= b@.len(),
            None => rd_u64(b@, i as int) is None,
        },
{
    if b.len() < 8 || i > b.len() - 8 {
        return None;
    }
    let v = dec_rec(b, i, 8);
    Some((v, i + 8))
}

/// Copy `b[from..to]`.
fn copy_range(b: &Vec<u8>, from: usize, to: usize) -> (r: Vec<u8>)
    requires
        from <= to <= b@.len(),
    ensures
        r@ == b@.subrange(from as int, to as int),
{
    let mut r: Vec<u8> = Vec::new();
    let mut i: usize = from;
    while i < to
        invariant
            from <= i <= to <= b@.len(),
            r@ == b@.subrange(from as int, i as int),
        decreases to - i,
    {
        r.push(b[i]);
        proof {
            assert(b@.subrange(from as int, i + 1 as int) =~= b@.subrange(from as int, i as int).push(b@[i as int]));
        }
        i = i + 1;
    }
    proof {
        assert(r@ =~= b@.subrange(from as int, to as int));
    }
    r
}

/// Mirror of [`rd_value`].
fn get_value(b: &Vec<u8>, i: usize, f: &Field) -> (r: Option<(Value, usize)>)
    ensures
        match r {
            Some(p) => rd_value(b@, i as int, f@) == Some((p.0@, p.1 as int)) && i < p.1 <= b@.len(),
            None => rd_value(b@, i as int, f@) is None,
        },
{
    if i >= b.len() {
        return None;
    }
    let m = b[i];
    if m == 0 {
        if f.nullable {
            Some((Value::Null, i + 1))
        } else {
            None
        }
    } else if m == 1 {
        match f.ftype {
            FieldType::IntType => match get_u64(b, i + 1) {
                Some((u, j)) => {
                    proof {
                        lemma_dec_u64_bounds(b@.skip(i + 1 as int), 8);
                        lemma_pow256_8();
                    }
                    let v: i64 = (u as i128 - 0x8000000000000000i128) as i64;
                    proof {
                        assert(v as int == u as int - bias());
                    }
                    Some((Value::Int(v), j))
                },
                None => None,
            },
            FieldType::DecType => match get_u64(b, i + 1) {
                Some((u, j)) => {
                    proof {
                        lemma_dec_u64_bounds(b@.skip(i + 1 as int), 8);
                        lemma_pow256_8();
                    }
                    let v: i64 = (u as i128 - 0x8000000000000000i128) as i64;
                    proof {
                        assert(v as int == u as int - bias());
                    }
                    Some((Value::Dec(v), j))
                },
                None => None,
            },
            FieldType::TextType => match get_u64(b, i + 1) {
                Some((l, j)) => {
                    if l > (b.len() - j) as u64 {
                        return None;
                    }
                    let lu = l as usize;
                    let t = copy_range(b, j, j + lu);
                    Some((Value::Text(t), j + lu))
                },
                None => None,
            },
        }
    } else {
        None
    }
}

/// Mirror of [`rd_col`].
fn get_col(b: &Vec<u8>, i0: usize, f: &Field, n0: u64) -> (r: Option<(Vec<Value>, usize)>)
    ensures
        match r {
            Some(p) => rd_col(b@, i0 as int, f@, n0 as nat) == Some((p.0.deep_view(), p.1 as int)),
            None => rd_col(b@, i0 as int, f@, n0 as nat) is None,
        },
{
    let mut out: Vec<Value> = Vec::new();
    let mut i: usize = i0;
    let mut rem: u64 = n0;
    while rem > 0
        invariant
            rd_col(b@, i0 as int, f@, n0 as nat) == (match rd_col(b@, i as int, f@, rem as nat) {
                Some(p) => Some((out.deep_view() + p.0, p.1)),
                None => None::<(Seq<ValSpec>, int)>,
            }),
        decreases rem,
    {
        match get_value(b, i, f) {
            Some((v, j)) => {
                let ghost prev = out.deep_view();
                let ghost vv = v@;
                out.push(v);
                proof {
                    assert(out.deep_view() =~= prev.push(vv));
                    let r2 = rd_col(b@, j as int, f@, (rem - 1) as nat);
                    match r2 {
                        Some(p) => {
                            assert(prev + (seq![vv] + p.0) =~= out.deep_view() + p.0);
                        },
                        None => {},
                    }
                }
                i = j;
                rem = rem - 1;
            },
            None => {
                return None;
            },
        }
    }
    proof {
        assert(out.deep_view() + Seq::<ValSpec>::empty() =~= out.deep_view());
    }
    Some((out, i))
}

/// Mirror of [`rd_field`].
fn get_field(b: &Vec<u8>, i: usize) -> (r: Option<(Field, usize)>)
    ensures
        match r {
            Some(p) => rd_field(b@, i as int) == Some((p.0@, p.1 as int)) && i < p.1 <= b@.len(),
            None => rd_field(b@, i as int) is None,
        },
{
    match get_u64(b, i) {
        Some((l, j)) => {
            if l > (b.len() - j) as u64 || b.len() - j - (l as usize) < 2 {
                return None;
            }
            let lu = l as usize;
            let name = copy_range(b, j, j + lu);
            let tag = b[j + lu];
            let nul = b[j + lu + 1];
            if (tag == 0 || tag == 1 || tag == 2) && (nul == 0 || nul == 1) {
                let ftype = if tag == 0 {
                    FieldType::IntType
                } else if tag == 1 {
                    FieldType::DecType
                } else {
                    FieldType::TextType
                };
                Some((Field { name, ftype, nullable: nul == 1 }, j + lu + 2))
            } else {
                None
            }
        },
        None => None,
    }
}

/// Mirror of [`rd_fields`].
fn get_fields(b: &Vec<u8>, i0: usize, n0: u64) -> (r: Option<(Vec<Field>, usize)>)
    ensures
        match r {
            Some(p) => rd_fields(b@, i0 as int, n0 as nat) == Some((p.0.deep_view(), p.1 as int)),
            None => rd_fields(b@, i0 as int, n0 as nat) is None,
        },
{
    let mut out: Vec<Field> = Vec::new();
    let mut i: usize = i0;
    let mut rem: u64 = n0;
    while rem > 0
        invariant
            rd_fields(b@, i0 as int, n0 as nat) == (match rd_fields(b@, i as int, rem as nat) {
                Some(p) => Some((out.deep_view() + p.0, p.1)),
                None => None::<(Seq<FieldS>, int)>,
            }),
        decreases rem,
    {
        match get_field(b, i) {
            Some((f, j)) => {
                let ghost prev = out.deep_view();
                let ghost fv = f@;
                out.push(f);
                proof {
                    assert(out.deep_view() =~= prev.push(fv));
                    let r2 = rd_fields(b@, j as int, (rem - 1) as nat);
                    match r2 {
                        Some(p) => {
                            assert(prev + (seq![fv] + p.0) =~= out.deep_view() + p.0);
                        },
                        None => {},
                    }
                }
                i = j;
                rem = rem - 1;
            },
            None => {
                return None;
            },
        }
    }
    proof {
        assert(out.deep_view() + Seq::<FieldS>::empty() =~= out.deep_view());
    }
    Some((out, i))
}

/// Mirror of [`rd_cols`]: read every column of the embedded schema.
fn get_cols(b: &Vec<u8>, i0: usize, fields: &Vec<Field>, rc: u64) -> (r: Option<
    (Vec<Vec<Value>>, usize),
>)
    ensures
        match r {
            Some(p) => rd_cols(b@, i0 as int, fields.deep_view(), 0, rc as nat) == Some(
                (p.0.deep_view(), p.1 as int),
            ),
            None => rd_cols(b@, i0 as int, fields.deep_view(), 0, rc as nat) is None,
        },
{
    let ghost fs = fields.deep_view();
    let mut out: Vec<Vec<Value>> = Vec::new();
    let mut i: usize = i0;
    let mut j: usize = 0;
    while j < fields.len()
        invariant
            j <= fields@.len(),
            fs == fields.deep_view(),
            fs.len() == fields@.len(),
            rd_cols(b@, i0 as int, fs, 0, rc as nat) == (match rd_cols(
                b@,
                i as int,
                fs,
                j as int,
                rc as nat,
            ) {
                Some(p) => Some((out.deep_view() + p.0, p.1)),
                None => None::<(Seq<Seq<ValSpec>>, int)>,
            }),
        decreases fields.len() - j,
    {
        proof {
            assert(fields@[j as int]@ == fs[j as int]);
        }
        match get_col(b, i, &fields[j], rc) {
            Some((col, k)) => {
                let ghost prev = out.deep_view();
                let ghost cv = col.deep_view();
                out.push(col);
                proof {
                    assert(out.deep_view() =~~= prev.push(cv));
                    let r2 = rd_cols(b@, k as int, fs, j + 1 as int, rc as nat);
                    match r2 {
                        Some(p) => {
                            assert(prev + (seq![cv] + p.0) =~= out.deep_view() + p.0);
                        },
                        None => {},
                    }
                }
                i = k;
            },
            None => {
                return None;
            },
        }
        j = j + 1;
    }
    proof {
        assert(out.deep_view() + Seq::<Seq<ValSpec>>::empty() =~= out.deep_view());
    }
    Some((out, i))
}

/// Why a columnar source was rejected.
#[derive(Clone, Copy, PartialEq, Eq, Structural, Debug)]
pub enum BinError {
    /// The bytes are not a well-formed container.
    Malformed,
    /// The embedded field metadata differs from the declared schema.
    SchemaMismatch,
}

/// Decode a columnar binary source against a declared schema.
///
/// Succeeds exactly when the bytes are a well-formed container whose embedded
/// metadata equals the declared schema; the result is the contained table,
/// row by row, and it conforms to the schema.  A malformed container and a
/// metadata disagreement are told apart in the error.
pub fn decode_table(b: &Vec<u8>, schema: &Schema) -> (r: Result<Vec<Row>, BinError>)
    ensures
        match r {
            Ok(rows) => {
                &&& parse_container(b@) is Some
                &&& (parse_container(b@)->0).0 == schema@
                &&& rows.deep_view() == rows_of_cols(
                    schema@.len() as int,
                    (parse_container(b@)->0).1,
                    (parse_container(b@)->0).2,
                )
                &&& table_ok(schema@, rows.deep_view())
            },
            Err(BinError::Malformed) => parse_container(b@) is None,
            Err(BinError::SchemaMismatch) => parse_container(b@) is Some && (parse_container(
                b@,
            )->0).0 != schema@,
        },
{
    let (fc, i1) = match get_u64(b, 0) {
        Some(p) => p,
        None => {
            return Err(BinError::Malformed);
        },
    };
    if fc == 0 {
        return Err(BinError::Malformed);
    }
    let (fields, i2) = match get_fields(b, i1, fc) {
        Some(p) => p,
        None => {
            return Err(BinError::Malformed);
        },
    };
    let (rc, i3) = match get_u64(b, i2) {
        Some(p) => p,
        None => {
            return Err(BinError::Malformed);
        },
    };
    let (cols, i4) = match get_cols(b, i3, &fields, rc) {
        Some(p) => p,
        None => {
            return Err(BinError::Malformed);
        },
    };
    if i4 != b.len() {
        return Err(BinError::Malformed);
    }
    let embedded = Schema { fields };
    if !crate::schema::schema_eq(&embedded, schema) {
        return Err(BinError::SchemaMismatch);
    }
    proof {
        assert((parse_container(b@)->0).0 == schema@);
        lemma_parse_container_ok(b@);
        lemma_rd_fields_len(b@, i1 as int, fc as nat);
        lemma_rd_cols_ok(b@, i3 as int, embedded@, 0, rc as nat);
    }
    let ghost cspec = cols.deep_view();
    let nf = embedded.fields.len();
    proof {
        assert(embedded@.len() == fc as int);
        assert(rd_cols(b@, i3 as int, embedded@, 0, rc as nat) is Some);
        assert((rd_cols(b@, i3 as int, embedded@, 0, rc as nat)->0).0 == cspec);
        assert(cspec.len() == nf as int);
        assert((rd_cols(b@, i3 as int, embedded@, 0, rc as nat)->0).0[0].len() == rc as nat);
        assert(cols@[0].deep_view().len() == rc as int);
    }
    let nrows = cols[0].len();
    proof {
        assert(nrows as int == rc as int);
    }
    let mut rows: Vec<Row> = Vec::new();
    let mut i: usize = 0;
    while i < nrows
        invariant
            i <= nrows,
            nf == cols@.len(),
            nf == schema@.len(),
            cspec == cols.deep_view(),
            forall|c: int| 0 <= c < nf ==> (#[trigger] cspec[c]).len() == nrows as int,
            rows.deep_view() =~= Seq::new(i as nat, |r: int| Seq::new(nf as nat, |c: int| cspec[c][r])),
        decreases nrows - i,
    {
        let mut row: Row = Vec::new();
        let mut j: usize = 0;
        while j < nf
            invariant
                j <= nf,
                i < nrows,
                nf == cols@.len(),
                cspec == cols.deep_view(),
                forall|c: int| 0 <= c < nf ==> (#[trigger] cspec[c]).len() == nrows as int,
                row.deep_view() =~= Seq::new(j as nat, |c: int| cspec[c][i as int]),
            decreases nf - j,
        {
            proof {
                assert(cols@[j as int].deep_view() == cspec[j as int]);
                assert(cols@[j as int].deep_view().len() == nrows as int);
                assert(cols@[j as int]@[i as int]@ == cspec[j as int][i as int]);
            }
            let ghost prevr = row.deep_view();
            let v = cols[j][i].clone();
            let ghost vv = v@;
            row.push(v);
            proof {
                assert(row.deep_view() =~= prevr.push(vv));
                assert(row.deep_view() =~= Seq::new((j + 1) as nat, |c: int| cspec[c][i as int]));
            }
            j = j + 1;
        }
        let ghost prev = rows.deep_view();
        let ghost rv = row.deep_view();
        rows.push(row);
        proof {
            assert(rows.deep_view() =~~= prev.push(rv));
            assert(rv =~= Seq::new(nf as nat, |c: int| cspec[c][i as int]));
            assert(rows.deep_view() =~~= Seq::new(
                (i + 1) as nat,
                |r: int| Seq::new(nf as nat, |c: int| cspec[c][r]),
            ));
        }
        i = i + 1;
    }
    proof {
        assert(rows.deep_view() =~~= rows_of_cols(
            schema@.len() as int,
            (parse_container(b@)->0).1,
            (parse_container(b@)->0).2,
        ));
    }
    Ok(rows)
}

/// Append the bytes of `b`.
pub fn push_bytes(out: &mut Vec<u8>, b: &Vec<u8>)
    ensures
        final(out)@ == old(out)@ + b@,
{
    let mut i: usize = 0;
    while i < b.len()
        invariant
            i <= b@.len(),
            out@ == old(out)@ + b@.take(i as int),
        decreases b.len() - i,
    {
        out.push(b[i]);
        proof {
            assert(old(out)@ + b@.take(i + 1 as int) =~= (old(out)@ + b@.take(i as int)).push(
                b@[i as int],
            ));
        }
        i = i + 1;
    }
    proof {
        assert(old(out)@ + b@.take(b@.len() as int) =~= old(out)@ + b@);
    }
}

/// The little-endian bytes of a number.
fn u64_bytes(x: u64, n: usize) -> (r: Vec<u8>)
    ensures
        r@ == enc_u64(x as int, n as nat),
    decreases n,
{
    let mut r: Vec<u8> = Vec::new();
    if n == 0 {
        proof {
            assert(r@ =~= enc_u64(x as int, 0));
        }
        return r;
    }
    r.push((x % 256) as u8);
    let rest = u64_bytes(x / 256, n - 1);
    push_bytes(&mut r, &rest);
    proof {
        assert(r@ =~= enc_u64(x as int, n as nat));
    }
    r
}

/// Append an eight-byte count.
fn push_u64(out: &mut Vec<u8>, x: u64)
    ensures
        final(out)@ == old(out)@ + enc_u64(x as int, 8),
{
    let b = u64_bytes(x, 8);
    push_bytes(out, &b);
}

/// Append one encoded cell.
fn push_value(out: &mut Vec<u8>, v: &Value)
    ensures
        final(out)@ == old(out)@ + enc_value(v@),
{
    match v {
        Value::Null => {
            out.push(0);
            proof {
                assert(old(out)@ + enc_value(ValSpec::Null) =~= old(out)@.push(0u8));
            }
        },
        Value::Int(x) => {
            out.push(1);
            let u: u64 = (*x as i128 + 0x8000000000000000i128) as u64;
            proof {
                assert(u as int == *x as int + bias());
            }
            push_u64(out, u);
            proof {
                assert(old(out)@ + enc_value(v@) =~= old(out)@.push(1u8) + enc_u64(
                    *x as int + bias(),
                    8,
                ));
            }
        },
        Value::Dec(x) => {
            out.push(1);
            let u: u64 = (*x as i128 + 0x8000000000000000i128) as u64;
            proof {
                assert(u as int == *x as int + bias());
            }
            push_u64(out, u);
            proof {
                assert(old(out)@ + enc_value(v@) =~= old(out)@.push(1u8) + enc_u64(
                    *x as int + bias(),
                    8,
                ));
            }
        },
        Value::Text(t) => {
            out.push(1);
            push_u64(out, t.len() as u64);
            push_bytes(out, t);
            proof {
                assert(old(out)@ + enc_value(v@) =~= ((old(out)@.push(1u8)) + enc_u64(
                    t@.len() as int,
                    8,
                )) + t@);
            }
        },
    }
}

/// Encode a conforming table under its schema.
///
/// The result is the canonical container for the table: parsing it yields
/// the schema, the row count, and the table's columns.
pub fn encode_table(schema: &Schema, rows: &Vec<Row>) -> (r: Vec<u8>)
    requires
        schema@.len() >= 1,
        table_ok(schema@, rows.deep_view()),
    ensures
        r@ == enc_table(schema@, rows.deep_view()),
        parse_container(r@) == Some(
            (
                schema@,
                rows.deep_view().len() as int,
                cols_of(rows.deep_view(), schema@.len() as int),
            ),
        ),
{
    let ghost s = schema@;
    let ghost t = rows.deep_view();
    let mut out: Vec<u8> = Vec::new();
    let nf = schema.fields.len();
    push_u64(&mut out, nf as u64);
    proof {
        assert(out@ =~= Seq::<u8>::empty() + enc_u64(s.len() as int, 8));
        assert(out@ =~= enc_u64(s.len() as int, 8));
    }
    let mut j: usize = 0;
    while j < nf
        invariant
            j <= nf,
            nf == schema.fields@.len(),
            s == schema@,
            s.len() == nf as int,
            out@ + enc_fields_from(s, j as int) =~= enc_u64(s.len() as int, 8) + enc_fields_from(
                s,
                0,
            ),
        decreases nf - j,
    {
        let f = &schema.fields[j];
        proof {
            assert(f@ == s[j as int]);
        }
        let ghost before = out@;
        push_u64(&mut out, f.name.len() as u64);
        push_bytes(&mut out, &f.name);
        let tag: u8 = match f.ftype {
            FieldType::IntType => 0,
            FieldType::DecType => 1,
            FieldType::TextType => 2,
        };
        out.push(tag);
        let nul: u8 = if f.nullable {
            1
        } else {
            0
        };
        out.push(nul);
        proof {
            assert(out@ =~= before + enc_field(s[j as int]));
            assert(enc_fields_from(s, j as int) == enc_field(s[j as int]) + enc_fields_from(
                s,
                j + 1 as int,
            ));
            assert(out@ + enc_fields_from(s, j + 1 as int) =~= before + enc_fields_from(
                s,
                j as int,
            ));
        }
        j = j + 1;
    }
    proof {
        assert(enc_fields_from(s, nf as int) =~= Seq::<u8>::empty());
        assert(out@ =~= enc_u64(s.len() as int, 8) + enc_fields_from(s, 0));
    }
    let nrows = rows.len();
    push_u64(&mut out, nrows as u64);
    let ghost head = enc_u64(s.len() as int, 8) + enc_fields_from(s, 0) + enc_u64(
        t.len() as int,
        8,
    );
    proof {
        assert(t.len() == nrows as int);
        assert(out@ =~= head);
    }
    let mut c: usize = 0;
    while c < nf
        invariant
            c <= nf,
            nf == schema.fields@.len(),
            s == schema@,
            t == rows.deep_view(),
            s.len() == nf as int,
            nrows == rows@.len(),
            t.len() == nrows as int,
            table_ok(s, t),
            head == enc_u64(s.len() as int, 8) + enc_fields_from(s, 0) + enc_u64(t.len() as int, 8),
            out@ + enc_cols_from(s, t, c as int) =~= head + enc_cols_from(s, t, 0),
        decreases nf - c,
    {
        let mut i: usize = 0;
        while i < nrows
            invariant
                i <= nrows,
                c < nf,
                nf == schema.fields@.len(),
                s == schema@,
                t == rows.deep_view(),
                s.len() == nf as int,
                nrows == rows@.len(),
                t.len() == nrows as int,
                table_ok(s, t),
                head == enc_u64(s.len() as int, 8) + enc_fields_from(s, 0) + enc_u64(
                    t.len() as int,
                    8,
                ),
                out@ + enc_col_from(t, c as int, i as int) + enc_cols_from(s, t, c + 1 as int)
                    =~= head + enc_cols_from(s, t, 0),
            decreases nrows - i,
        {
            proof {
                assert(crate::schema::row_ok(s, t[i as int]));
                assert(rows@[i as int].deep_view() == t[i as int]);
                assert(rows@[i as int]@.len() == t[i as int].len());
                assert(rows@[i as int]@[c as int]@ == t[i as int][c as int]);
            }
            let ghost before = out@;
            push_value(&mut out, &rows[i][c]);
            proof {
                assert(out@ =~= before + enc_value(t[i as int][c as int]));
                assert(enc_col_from(t, c as int, i as int) == enc_value(t[i as int][c as int])
                    + enc_col_from(t, c as int, i + 1 as int));
                assert(out@ + enc_col_from(t, c as int, i + 1 as int) + enc_cols_from(
                    s,
                    t,
                    c + 1 as int,
                ) =~= before + enc_col_from(t, c as int, i as int) + enc_cols_from(
                    s,
                    t,
                    c + 1 as int,
                ));
            }
            i = i + 1;
        }
        proof {
            assert(enc_col_from(t, c as int, nrows as int) =~= Seq::<u8>::empty());
            assert(out@ + Seq::<u8>::empty() =~= out@);
            assert(enc_cols_from(s, t, c as int) == enc_col_from(t, c as int, 0) + enc_cols_from(
                s,
                t,
                c + 1 as int,
            ));
        }
        c = c + 1;
    }
    proof {
        assert(enc_cols_from(s, t, nf as int) =~= Seq::<u8>::empty());
        assert(out@ =~= head + enc_cols_from(s, t, 0));
        assert(out@ =~= enc_table(s, t));
        lemma_pow256_8();
        assert forall|r2: int| 0 <= r2 < s.len() implies (#[trigger] s[r2]).name.len() < pow256(
            8,
        ) by {
            assert(schema.fields@[r2]@.name == s[r2].name);
            assert(schema.fields@[r2].name.len() <= usize::MAX);
            assert(schema.fields@[r2].name.len() == schema.fields@[r2].name@.len());
        }
        lemma_parse_enc_table(s, t);
    }
    out
}
} // verus!
