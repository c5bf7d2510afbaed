//! The result materializer.
//!
//! Renders an already-computed result batch as display text: one line per
//! row, cells separated by commas, each line ended by a newline.  It
//! filters, coerces, and reorders nothing; writing the text to a sink is
//! the caller's business.

use vstd::prelude::*;
use crate::num::{dec_text, fmt_dec, fmt_int, int_text};
use crate::value::{Row, ValSpec, Value};

verus! {

/// The display text of a null cell.
pub open spec fn null_text() -> Seq<u8> {
    seq![78u8, 85u8, 76u8, 76u8]
}

/// The display text of one cell.
pub open spec fn cell_text(v: ValSpec) -> Seq<u8> {
    match v {
        ValSpec::Int(x) => int_text(x),
        ValSpec::Dec(x) => dec_text(x),
        ValSpec::Text(t) => t,
        ValSpec::Null => null_text(),
    }
}

/// The display text of a row from cell `j` on, cells separated by commas.
pub open spec fn row_text_from(r: Seq<ValSpec>, j: int) -> Seq<u8>
    decreases r.len() - j,
{
    if j < 0 || j >= r.len() {
        Seq::empty()
    } else if j == r.len() - 1 {
        cell_text(r[j])
    } else {
        cell_text(r[j]) + seq![44u8] + row_text_from(r, j + 1)
    }
}

/// The display text of a batch from row `i` on, one line per row.
pub open spec fn batch_text_from(t: Seq<Seq<ValSpec>>, i: int) -> Seq<u8>
    decreases t.len() - i,
{
    if i < 0 || i >= t.len() {
        Seq::empty()
    } else {
        row_text_from(t[i], 0) + seq![10u8] + batch_text_from(t, i + 1)
    }
}

/// The display text of a whole batch.
pub open spec fn batch_text(t: Seq<Seq<ValSpec>>) -> Seq<u8> {
    batch_text_from(t, 0)
}

/// Append one cell's display text.
fn push_cell(out: &mut Vec<u8>, v: &Value)
    ensures
        final(out)@ == old(out)@ + cell_text(v@),
{
    match v {
        Value::Int(x) => {
            let d = fmt_int(*x);
            crate::colbin::push_bytes(out, &d);
        },
        Value::Dec(x) => {
            let d = fmt_dec(*x);
            crate::colbin::push_bytes(out, &d);
        },
        Value::Text(t) => {
            crate::colbin::push_bytes(out, t);
        },
        Value::Null => {
            out.push(78);
            out.push(85);
            out.push(76);
            out.push(76);
            proof {
                assert(out@ =~= old(out)@ + null_text());
            }
        },
    }
}

/// Render a result batch for display.
pub fn render_batch(rows: &Vec<Row>) -> (r: Vec<u8>)
    ensures
        r@ == batch_text(rows.deep_view()),
{
    let ghost rs = rows.deep_view();
    let mut out: Vec<u8> = Vec::new();
    let mut i: usize = 0;
    proof {
        assert(out@ + batch_text_from(rs, 0) =~= batch_text(rs));
    }
    while i < rows.len()
        invariant
            i <= rows@.len(),
            rs == rows.deep_view(),
            rs.len() == rows@.len(),
            out@ + batch_text_from(rs, i as int) =~= batch_text(rs),
        decreases rows.len() - i,
    {
        proof {
            assert(rows@[i as int].deep_view() == rs[i as int]);
        }
        let row = &rows[i];
        let ghost rv = rs[i as int];
        let n = row.len();
        let mut j: usize = 0;
        let ghost base = out@;
        while j < n
            invariant
                j <= n,
                n == row@.len(),
                rv == row.deep_view(),
                rv.len() == n as int,
                (j < n ==> out@ + row_text_from(rv, j as int) =~= base + row_text_from(rv, 0)),
                (j == n ==> out@ =~= base + row_text_from(rv, 0)),
            decreases n - j,
        {
            proof {
                assert(row@[j as int]@ == rv[j as int]);
            }
            push_cell(&mut out, &row[j]);
            if j + 1 < n {
                out.push(44);
                proof {
                    assert(row_text_from(rv, j as int) =~= cell_text(rv[j as int]) + seq![44u8]
                        + row_text_from(rv, j + 1 as int));
                    assert(out@ + row_text_from(rv, j + 1 as int) =~= base + row_text_from(
                        rv,
                        0,
                    ));
                }
            } else {
                proof {
                    if n == 0 {
                    } else {
                        assert(j == n - 1);
                        assert(row_text_from(rv, j as int) =~= cell_text(rv[j as int]));
                        assert(out@ =~= base + row_text_from(rv, 0));
                    }
                }
            }
            j = j + 1;
        }
        proof {
            if n == 0 {
                assert(row_text_from(rv, 0) =~= Seq::<u8>::empty());
                assert(out@ =~= base + row_text_from(rv, 0));
            }
        }
        out.push(10);
        proof {
            assert(batch_text_from(rs, i as int) =~= row_text_from(rv, 0) + seq![10u8]
                + batch_text_from(rs, i + 1 as int));
            assert(out@ + batch_text_from(rs, i + 1 as int) =~= batch_text(rs));
        }
        i = i + 1;
    }
    proof {
        assert(batch_text_from(rs, rows@.len() as int) =~= Seq::<u8>::empty());
        assert(out@ =~= batch_text(rs));
    }
    out
}

} // verus!
