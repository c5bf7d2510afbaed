//! The query planner and executor.
//!
//! A query is declarative text over one fixed shape: project a column list,
//! left-outer join two registered tables on one key column, filter on a
//! numeric comparison, sort on one column, and cap the row count.  The
//! stages always run in that fixed order — join, filter, sort, limit,
//! projection — whatever the textual order.  A projected column may pass
//! through a registered scalar function, written `name(table.column)`.
//!
//! Query text, by example:
//! `select t.id,t.amount,u.category from t join u on id where t.amount > 1000 sort t.amount desc limit 10`

use vstd::prelude::*;
use crate::bytes::{split_bytes, split_spec};
use crate::catalog::{find_table, lookup_table, Catalog, CatalogS, catalog_wf};
use crate::num::{all_digits, digits_val, parse_dec, parse_dec_spec, parse_digits, parse_int,
    parse_int_spec};
use crate::schema::{field_index, lookup_field, FieldS, Schema};
use crate::udf::{apply_kernel, find_func, kernel_cell, lookup_function, FunctionRegistry, Kernel,
    ScalarFunctionS};
use crate::value::{bytes_eq, clone_bytes, clone_row, FieldType, Row, ValSpec, Value};

verus! {

/// A numeric comparison in the filter clause.
#[derive(Clone, Copy, PartialEq, Eq, Structural, Debug)]
pub enum CmpOp {
    Lt,
    Le,
    Gt,
    Ge,
    Equal,
}

/// A qualified column reference, `table.column`.
pub struct ColRef {
    pub table: Vec<u8>,
    pub column: Vec<u8>,
}

/// The abstract form of a [`ColRef`].
#[verifier::ext_equal]
pub struct ColRefS {
    pub table: Seq<u8>,
    pub column: Seq<u8>,
}

impl View for ColRef {
    type V = ColRefS;

    open spec fn view(&self) -> ColRefS {
        ColRefS { table: self.table@, column: self.column@ }
    }
}

/// One item of the projection list: a column, optionally passed through a
/// named scalar function.
pub struct SelectItem {
    pub func: Option<Vec<u8>>,
    pub col: ColRef,
}

/// The abstract form of a [`SelectItem`].
#[verifier::ext_equal]
pub struct SelectItemS {
    pub func: Option<Seq<u8>>,
    pub col: ColRefS,
}

impl View for SelectItem {
    type V = SelectItemS;

    open spec fn view(&self) -> SelectItemS {
        SelectItemS {
            func: match self.func {
                Some(ref f) => Some(f@),
                None => None,
            },
            col: self.col@,
        }
    }
}

impl DeepView for SelectItem {
    type V = SelectItemS;

    open spec fn deep_view(&self) -> SelectItemS {
        self.view()
    }
}

/// A parsed query.
pub struct QueryRequest {
    pub select: Vec<SelectItem>,
    pub left: Vec<u8>,
    pub right: Vec<u8>,
    pub key: Vec<u8>,
    pub filter_col: ColRef,
    pub filter_op: CmpOp,
    pub filter_lit: Vec<u8>,
    pub sort_col: ColRef,
    pub sort_desc: bool,
    pub limit: u64,
}

/// The abstract form of a [`QueryRequest`].
#[verifier::ext_equal]
pub struct QueryS {
    pub select: Seq<SelectItemS>,
    pub left: Seq<u8>,
    pub right: Seq<u8>,
    pub key: Seq<u8>,
    pub filter_col: ColRefS,
    pub filter_op: CmpOp,
    pub filter_lit: Seq<u8>,
    pub sort_col: ColRefS,
    pub sort_desc: bool,
    pub limit: int,
}

impl View for QueryRequest {
    type V = QueryS;

    open spec fn view(&self) -> QueryS {
        QueryS {
            select: self.select.deep_view(),
            left: self.left@,
            right: self.right@,
            key: self.key@,
            filter_col: self.filter_col@,
            filter_op: self.filter_op,
            filter_lit: self.filter_lit@,
            sort_col: self.sort_col@,
            sort_desc: self.sort_desc,
            limit: self.limit as int,
        }
    }
}

/// Why a query failed.
#[derive(Clone, Copy, PartialEq, Eq, Structural, Debug)]
pub enum QueryError {
    /// The query text is malformed.
    Parse,
    /// A referenced table, column, or function name is not registered.
    Plan,
    /// A runtime type fault: a non-numeric filter or sort column, or a
    /// filter literal that does not coerce to the column's type.
    Execution,
    /// A scalar function met a cell that does not match its input type.
    Evaluation,
}

// --- query text ---------------------------------------------------------

/// The keyword `select`.
pub open spec fn kw_select() -> Seq<u8> {
    seq![115u8, 101u8, 108u8, 101u8, 99u8, 116u8]
}

/// The keyword `from`.
pub open spec fn kw_from() -> Seq<u8> {
    seq![102u8, 114u8, 111u8, 109u8]
}

/// The keyword `join`.
pub open spec fn kw_join() -> Seq<u8> {
    seq![106u8, 111u8, 105u8, 110u8]
}

/// The keyword `on`.
pub open spec fn kw_on() -> Seq<u8> {
    seq![111u8, 110u8]
}

/// The keyword `where`.
pub open spec fn kw_where() -> Seq<u8> {
    seq![119u8, 104u8, 101u8, 114u8, 101u8]
}

/// The keyword `sort`.
pub open spec fn kw_sort() -> Seq<u8> {
    seq![115u8, 111u8, 114u8, 116u8]
}

/// The keyword `asc`.
pub open spec fn kw_asc() -> Seq<u8> {
    seq![97u8, 115u8, 99u8]
}

/// The keyword `desc`.
pub open spec fn kw_desc() -> Seq<u8> {
    seq![100u8, 101u8, 115u8, 99u8]
}

/// The keyword `limit`.
pub open spec fn kw_limit() -> Seq<u8> {
    seq![108u8, 105u8, 109u8, 105u8, 116u8]
}

/// The comparison operator a token spells.
pub open spec fn op_of(t: Seq<u8>) -> Option<CmpOp> {
    if t == seq![60u8] {
        Some(CmpOp::Lt)
    } else if t == seq![60u8, 61u8] {
        Some(CmpOp::Le)
    } else if t == seq![62u8] {
        Some(CmpOp::Gt)
    } else if t == seq![62u8, 61u8] {
        Some(CmpOp::Ge)
    } else if t == seq![61u8] {
        Some(CmpOp::Equal)
    } else {
        None
    }
}

/// The column reference a token spells: `table.column`, both parts
/// non-empty.
pub open spec fn colref_of(t: Seq<u8>) -> Option<ColRefS> {
    let parts = split_spec(t, 46);
    if parts.len() == 2 && parts[0].len() >= 1 && parts[1].len() >= 1 {
        Some(ColRefS { table: parts[0], column: parts[1] })
    } else {
        None
    }
}

/// The projection item a token spells: a column reference, or
/// `name(table.column)`.
pub open spec fn item_of(t: Seq<u8>) -> Option<SelectItemS> {
    let parts = split_spec(t, 40);
    if parts.len() == 1 {
        match colref_of(parts[0]) {
            Some(c) => Some(SelectItemS { func: None, col: c }),
            None => None,
        }
    } else if parts.len() == 2 && parts[0].len() >= 1 && parts[1].len() >= 1 && parts[1].last()
        == 41 {
        match colref_of(parts[1].drop_last()) {
            Some(c) => Some(SelectItemS { func: Some(parts[0]), col: c }),
            None => None,
        }
    } else {
        None
    }
}

/// Every comma-separated projection item parses.
pub open spec fn items_wf(t: Seq<u8>) -> bool {
    forall|i: int|
        0 <= i < split_spec(t, 44).len() ==> item_of(#[trigger] split_spec(t, 44)[i]) is Some
}

/// The projection list a token spells.
pub open spec fn items_of(t: Seq<u8>) -> Seq<SelectItemS> {
    Seq::new(split_spec(t, 44).len(), |i: int| item_of(split_spec(t, 44)[i])->0)
}

/// The row limit a token spells: one or more digits, fitting in 64 bits.
pub open spec fn limit_of(t: Seq<u8>) -> Option<int> {
    if t.len() >= 1 && all_digits(t) && digits_val(t) <= u64::MAX {
        Some(digits_val(t))
    } else {
        None
    }
}

/// The query a whole text spells, if it is well formed.
pub open spec fn parse_query_spec(b: Seq<u8>) -> Option<QueryS> {
    let ts = split_spec(b, 32);
    if ts.len() != 17 {
        None
    } else if !(ts[0] == kw_select() && ts[2] == kw_from() && ts[4] == kw_join() && ts[6]
        == kw_on() && ts[8] == kw_where() && ts[12] == kw_sort() && ts[15] == kw_limit()) {
        None
    } else if !items_wf(ts[1]) {
        None
    } else {
        match (colref_of(ts[9]), op_of(ts[10]), colref_of(ts[13]), limit_of(ts[16])) {
            (Some(fc), Some(op), Some(sc), Some(lim)) => if ts[14] == kw_asc() || ts[14]
                == kw_desc() {
                Some(
                    QueryS {
                        select: items_of(ts[1]),
                        left: ts[3],
                        right: ts[5],
                        key: ts[7],
                        filter_col: fc,
                        filter_op: op,
                        filter_lit: ts[11],
                        sort_col: sc,
                        sort_desc: ts[14] == kw_desc(),
                        limit: lim,
                    },
                )
            } else {
                None
            },
            _ => None,
        }
    }
}

// --- semantics ----------------------------------------------------------

/// A row of `w` nulls, standing for the missing right side of an unmatched
/// left row.
pub open spec fn null_row(w: int) -> Seq<ValSpec> {
    Seq::new(w as nat, |i: int| ValSpec::Null)
}

/// The joined rows one left row produces with the right rows from `i` on:
/// one row per right row with an equal key, each the left row extended by
/// the right row.
pub open spec fn matches_from(
    l: Seq<ValSpec>,
    right: Seq<Seq<ValSpec>>,
    k: int,
    i: int,
) -> Seq<Seq<ValSpec>>
    decreases right.len() - i,
{
    if i < 0 || i >= right.len() {
        Seq::empty()
    } else if right[i][k] == l[k] {
        seq![l + right[i]] + matches_from(l, right, k, i + 1)
    } else {
        matches_from(l, right, k, i + 1)
    }
}

/// What one left row contributes to a left-outer join: its matches, or — if
/// it has none — itself padded with nulls.
pub open spec fn join_one(l: Seq<ValSpec>, right: Seq<Seq<ValSpec>>, k: int, w: int) -> Seq<
    Seq<ValSpec>,
> {
    let m = matches_from(l, right, k, 0);
    if m.len() == 0 {
        seq![l + null_row(w)]
    } else {
        m
    }
}

/// The left-outer join of the left rows from `i` on with the right rows.
pub open spec fn join_from(
    left: Seq<Seq<ValSpec>>,
    right: Seq<Seq<ValSpec>>,
    k: int,
    w: int,
    i: int,
) -> Seq<Seq<ValSpec>>
    decreases left.len() - i,
{
    if i < 0 || i >= left.len() {
        Seq::empty()
    } else {
        join_one(left[i], right, k, w) + join_from(left, right, k, w, i + 1)
    }
}

/// The left-outer join of two tables on key column `k`, right rows `w`
/// cells wide.  Every left row appears, in order: once per matching right
/// row, or once with a null right side.
pub open spec fn join_spec(
    left: Seq<Seq<ValSpec>>,
    right: Seq<Seq<ValSpec>>,
    k: int,
    w: int,
) -> Seq<Seq<ValSpec>> {
    join_from(left, right, k, w, 0)
}

/// Numeric comparison of two unbounded integers.
pub open spec fn icmp(op: CmpOp, x: int, y: int) -> bool {
    match op {
        CmpOp::Lt => x < y,
        CmpOp::Le => x <= y,
        CmpOp::Gt => x > y,
        CmpOp::Ge => x >= y,
        CmpOp::Equal => x == y,
    }
}

/// Whether a cell passes the filter against the coerced literal.  A null
/// cell, or one of another type than the literal, passes no comparison.
pub open spec fn cmp_spec(op: CmpOp, a: ValSpec, lit: ValSpec) -> bool {
    match (a, lit) {
        (ValSpec::Int(x), ValSpec::Int(y)) => icmp(op, x, y),
        (ValSpec::Dec(x), ValSpec::Dec(y)) => icmp(op, x, y),
        _ => false,
    }
}

/// The rows from `i` on whose cell at `p` passes the filter.
pub open spec fn filter_from(
    rows: Seq<Seq<ValSpec>>,
    p: int,
    op: CmpOp,
    lit: ValSpec,
    i: int,
) -> Seq<Seq<ValSpec>>
    decreases rows.len() - i,
{
    if i < 0 || i >= rows.len() {
        Seq::empty()
    } else if cmp_spec(op, rows[i][p], lit) {
        seq![rows[i]] + filter_from(rows, p, op, lit, i + 1)
    } else {
        filter_from(rows, p, op, lit, i + 1)
    }
}

/// The rows whose cell at `p` passes the filter, in order.
pub open spec fn filter_spec(rows: Seq<Seq<ValSpec>>, p: int, op: CmpOp, lit: ValSpec) -> Seq<
    Seq<ValSpec>,
> {
    filter_from(rows, p, op, lit, 0)
}

/// The sort rank of a cell: nulls first, then integers, amounts, text.
pub open spec fn rank(v: ValSpec) -> int {
    match v {
        ValSpec::Null => 0,
        ValSpec::Int(_) => 1,
        ValSpec::Dec(_) => 2,
        ValSpec::Text(_) => 3,
    }
}

/// Lexicographic order on byte strings.
pub open spec fn lex_le(s: Seq<u8>, t: Seq<u8>) -> bool
    decreases s.len(),
{
    if s.len() == 0 {
        true
    } else if t.len() == 0 {
        false
    } else if s[0] < t[0] {
        true
    } else if s[0] > t[0] {
        false
    } else {
        lex_le(s.skip(1), t.skip(1))
    }
}

/// The ascending order on cells: by rank, then by value.
pub open spec fn base_le(a: ValSpec, b: ValSpec) -> bool {
    if rank(a) != rank(b) {
        rank(a) < rank(b)
    } else {
        match (a, b) {
            (ValSpec::Int(x), ValSpec::Int(y)) => x <= y,
            (ValSpec::Dec(x), ValSpec::Dec(y)) => x <= y,
            (ValSpec::Text(s), ValSpec::Text(t)) => lex_le(s, t),
            _ => true,
        }
    }
}

/// The requested order on sort keys.
pub open spec fn key_le(a: ValSpec, b: ValSpec, desc: bool) -> bool {
    if desc {
        base_le(b, a)
    } else {
        base_le(a, b)
    }
}

/// Insert a row into a sorted run, before the first row it does not follow.
pub open spec fn insert_spec(
    r: Seq<ValSpec>,
    v: Seq<Seq<ValSpec>>,
    p: int,
    desc: bool,
) -> Seq<Seq<ValSpec>>
    decreases v.len(),
{
    if v.len() == 0 {
        seq![r]
    } else if key_le(r[p], v[0][p], desc) {
        seq![r] + v
    } else {
        seq![v[0]] + insert_spec(r, v.drop_first(), p, desc)
    }
}

/// Insertion sort by the cell at `p`, in the requested direction.
pub open spec fn sort_spec(v: Seq<Seq<ValSpec>>, p: int, desc: bool) -> Seq<Seq<ValSpec>>
    decreases v.len(),
{
    if v.len() == 0 {
        Seq::empty()
    } else {
        insert_spec(v[0], sort_spec(v.drop_first(), p, desc), p, desc)
    }
}

/// Where a column reference falls in a joined row: left columns first, then
/// the right columns shifted by the schema width.
pub open spec fn rpos(s: Seq<FieldS>, left: Seq<u8>, right: Seq<u8>, c: ColRefS) -> Option<int> {
    if c.table == left {
        field_index(s, c.column)
    } else if c.table == right {
        match field_index(s, c.column) {
            Some(j) => Some(j + s.len()),
            None => None,
        }
    } else {
        None
    }
}

/// The plan of one projection item: a joined-row position and perhaps a
/// kernel to run the cell through.
pub open spec fn item_plan(
    s: Seq<FieldS>,
    left: Seq<u8>,
    right: Seq<u8>,
    reg: Seq<ScalarFunctionS>,
    it: SelectItemS,
) -> Option<(int, Option<Kernel>)> {
    match rpos(s, left, right, it.col) {
        Some(p) => match it.func {
            None => Some((p, None)),
            Some(fname) => match find_func(reg, fname, 0) {
                Some(k) => Some((p, Some(reg[k].kernel))),
                None => None,
            },
        },
        None => None,
    }
}

/// Every projection item resolves.
pub open spec fn items_ok(
    s: Seq<FieldS>,
    left: Seq<u8>,
    right: Seq<u8>,
    reg: Seq<ScalarFunctionS>,
    items: Seq<SelectItemS>,
) -> bool {
    forall|i: int| 0 <= i < items.len() ==> item_plan(s, left, right, reg, #[trigger] items[i])
        is Some
}

/// The resolved projection plan.
pub open spec fn items_plan(
    s: Seq<FieldS>,
    left: Seq<u8>,
    right: Seq<u8>,
    reg: Seq<ScalarFunctionS>,
    items: Seq<SelectItemS>,
) -> Seq<(int, Option<Kernel>)> {
    Seq::new(items.len(), |i: int| item_plan(s, left, right, reg, items[i])->0)
}

/// One projected cell: the cell at the planned position, run through the
/// planned kernel if there is one.
pub open spec fn project_cell(row: Seq<ValSpec>, pl: (int, Option<Kernel>)) -> Option<ValSpec> {
    match pl.1 {
        None => Some(row[pl.0]),
        Some(k) => kernel_cell(k, row[pl.0]),
    }
}

/// Every projected cell evaluates; a single fault fails the whole batch.
pub open spec fn project_ok(rows: Seq<Seq<ValSpec>>, plans: Seq<(int, Option<Kernel>)>) -> bool {
    forall|i: int, j: int|
        0 <= i < rows.len() && 0 <= j < plans.len() ==> project_cell(
            #[trigger] rows[i],
            #[trigger] plans[j],
        ) is Some
}

/// The projected result rows.
pub open spec fn projected(rows: Seq<Seq<ValSpec>>, plans: Seq<(int, Option<Kernel>)>) -> Seq<
    Seq<ValSpec>,
> {
    Seq::new(rows.len(), |i: int| Seq::new(plans.len(), |j: int| project_cell(rows[i], plans[j])->0))
}

/// The filter literal coerced to the filter column's type.
pub open spec fn lit_of(ft: FieldType, lit: Seq<u8>) -> Option<ValSpec> {
    match ft {
        FieldType::IntType => match parse_int_spec(lit) {
            Some(v) => Some(ValSpec::Int(v)),
            None => None,
        },
        FieldType::DecType => match parse_dec_spec(lit) {
            Some(v) => Some(ValSpec::Dec(v)),
            None => None,
        },
        FieldType::TextType => None,
    }
}

/// The declared type of the joined-row column at `p`.
pub open spec fn col_type(s: Seq<FieldS>, p: int) -> FieldType {
    if p < s.len() {
        s[p].ftype
    } else {
        s[p - s.len()].ftype
    }
}

/// The eligible rows of a resolved query: the join filtered, before sort
/// and limit.
pub open spec fn eligible_rows(q: QueryS, cat: CatalogS, fp: int, lv: ValSpec) -> Seq<
    Seq<ValSpec>,
> {
    let li = find_table(cat.tables, q.left, 0)->0;
    let ri = find_table(cat.tables, q.right, 0)->0;
    let ki = field_index(cat.schema, q.key)->0;
    filter_spec(
        join_spec(cat.tables[li].rows, cat.tables[ri].rows, ki, cat.schema.len() as int),
        fp,
        q.filter_op,
        lv,
    )
}

/// What a parsed query yields against a catalog and a function registry.
pub open spec fn run_spec(q: QueryS, cat: CatalogS, reg: Seq<ScalarFunctionS>) -> Result<
    Seq<Seq<ValSpec>>,
    QueryError,
> {
    let s = cat.schema;
    let w = s.len() as int;
    if find_table(cat.tables, q.left, 0) is None || find_table(cat.tables, q.right, 0) is None {
        Err(QueryError::Plan)
    } else {
        match field_index(s, q.key) {
            None => Err(QueryError::Plan),
            Some(ki) => if s[ki].ftype != FieldType::IntType {
                Err(QueryError::Plan)
            } else if !items_ok(s, q.left, q.right, reg, q.select) {
                Err(QueryError::Plan)
            } else {
                match rpos(s, q.left, q.right, q.filter_col) {
                    None => Err(QueryError::Plan),
                    Some(fp) => {
                        let ft = col_type(s, fp);
                        if ft == FieldType::TextType {
                            Err(QueryError::Execution)
                        } else {
                            match lit_of(ft, q.filter_lit) {
                                None => Err(QueryError::Execution),
                                Some(lv) => match rpos(s, q.left, q.right, q.sort_col) {
                                    None => Err(QueryError::Plan),
                                    Some(sp) => {
                                        let eligible = eligible_rows(q, cat, fp, lv);
                                        let sorted = sort_spec(eligible, sp, q.sort_desc);
                                        let limited = sorted.take(
                                            if q.limit < sorted.len() {
                                                q.limit
                                            } else {
                                                sorted.len() as int
                                            },
                                        );
                                        let plans = items_plan(s, q.left, q.right, reg, q.select);
                                        if !project_ok(limited, plans) {
                                            Err(QueryError::Evaluation)
                                        } else {
                                            Ok(projected(limited, plans))
                                        }
                                    },
                                },
                            }
                        }
                    },
                }
            },
        }
    }
}


// --- executable parser --------------------------------------------------

/// The keyword `select` as bytes.
fn kw_select_bytes() -> (r: Vec<u8>)
    ensures
        r@ == kw_select(),
{
    let mut r: Vec<u8> = Vec::new();
    r.push(115);
    r.push(101);
    r.push(108);
    r.push(101);
    r.push(99);
    r.push(116);
    proof {
        assert(r@ =~= kw_select());
    }
    r
}

/// The keyword `from` as bytes.
fn kw_from_bytes() -> (r: Vec<u8>)
    ensures
        r@ == kw_from(),
{
    let mut r: Vec<u8> = Vec::new();
    r.push(102);
    r.push(114);
    r.push(111);
    r.push(109);
    proof {
        assert(r@ =~= kw_from());
    }
    r
}

/// The keyword `join` as bytes.
fn kw_join_bytes() -> (r: Vec<u8>)
    ensures
        r@ == kw_join(),
{
    let mut r: Vec<u8> = Vec::new();
    r.push(106);
    r.push(111);
    r.push(105);
    r.push(110);
    proof {
        assert(r@ =~= kw_join());
    }
    r
}

/// The keyword `on` as bytes.
fn kw_on_bytes() -> (r: Vec<u8>)
    ensures
        r@ == kw_on(),
{
    let mut r: Vec<u8> = Vec::new();
    r.push(111);
    r.push(110);
    proof {
        assert(r@ =~= kw_on());
    }
    r
}

/// The keyword `where` as bytes.
fn kw_where_bytes() -> (r: Vec<u8>)
    ensures
        r@ == kw_where(),
{
    let mut r: Vec<u8> = Vec::new();
    r.push(119);
    r.push(104);
    r.push(101);
    r.push(114);
    r.push(101);
    proof {
        assert(r@ =~= kw_where());
    }
    r
}

/// The keyword `sort` as bytes.
fn kw_sort_bytes() -> (r: Vec<u8>)
    ensures
        r@ == kw_sort(),
{
    let mut r: Vec<u8> = Vec::new();
    r.push(115);
    r.push(111);
    r.push(114);
    r.push(116);
    proof {
        assert(r@ =~= kw_sort());
    }
    r
}

/// The keyword `asc` as bytes.
fn kw_asc_bytes() -> (r: Vec<u8>)
    ensures
        r@ == kw_asc(),
{
    let mut r: Vec<u8> = Vec::new();
    r.push(97);
    r.push(115);
    r.push(99);
    proof {
        assert(r@ =~= kw_asc());
    }
    r
}

/// The keyword `desc` as bytes.
fn kw_desc_bytes() -> (r: Vec<u8>)
    ensures
        r@ == kw_desc(),
{
    let mut r: Vec<u8> = Vec::new();
    r.push(100);
    r.push(101);
    r.push(115);
    r.push(99);
    proof {
        assert(r@ =~= kw_desc());
    }
    r
}

/// The keyword `limit` as bytes.
fn kw_limit_bytes() -> (r: Vec<u8>)
    ensures
        r@ == kw_limit(),
{
    let mut r: Vec<u8> = Vec::new();
    r.push(108);
    r.push(105);
    r.push(109);
    r.push(105);
    r.push(116);
    proof {
        assert(r@ =~= kw_limit());
    }
    r
}

/// Mirror of [`op_of`].
fn parse_op(t: &Vec<u8>) -> (r: Option<CmpOp>)
    ensures
        match r {
            Some(op) => op_of(t@) == Some(op),
            None => op_of(t@) is None,
        },
{
    if t.len() == 1 {
        if t[0] == 60 {
            proof {
                assert(t@ =~= seq![60u8]);
            }
            Some(CmpOp::Lt)
        } else if t[0] == 62 {
            proof {
                assert(t@ =~= seq![62u8]);
            }
            Some(CmpOp::Gt)
        } else if t[0] == 61 {
            proof {
                assert(t@ =~= seq![61u8]);
            }
            Some(CmpOp::Equal)
        } else {
            None
        }
    } else if t.len() == 2 {
        if t[0] == 60 && t[1] == 61 {
            proof {
                assert(t@ =~= seq![60u8, 61u8]);
            }
            Some(CmpOp::Le)
        } else if t[0] == 62 && t[1] == 61 {
            proof {
                assert(t@ =~= seq![62u8, 61u8]);
            }
            Some(CmpOp::Ge)
        } else {
            None
        }
    } else {
        None
    }
}

/// Mirror of [`colref_of`].
fn parse_colref(t: &Vec<u8>) -> (r: Option<ColRef>)
    ensures
        match r {
            Some(c) => colref_of(t@) == Some(c@),
            None => colref_of(t@) is None,
        },
{
    let mut parts = split_bytes(t, 46);
    proof {
        crate::bytes::lemma_split_nonempty(t@, 46);
        assert(parts@.len() == split_spec(t@, 46).len());
    }
    if parts.len() != 2 {
        return None;
    }
    proof {
        assert(parts@[0]@ =~= parts@[0].deep_view());
        assert(parts@[1]@ =~= parts@[1].deep_view());
        assert(parts@[0]@ == split_spec(t@, 46)[0]);
        assert(parts@[1]@ == split_spec(t@, 46)[1]);
    }
    if parts[0].len() == 0 || parts[1].len() == 0 {
        return None;
    }
    let column = parts.pop().unwrap();
    let table = parts.pop().unwrap();
    Some(ColRef { table, column })
}

/// Mirror of [`item_of`].
fn parse_item(t: &Vec<u8>) -> (r: Option<SelectItem>)
    ensures
        match r {
            Some(it) => item_of(t@) == Some(it@),
            None => item_of(t@) is None,
        },
{
    let mut parts = split_bytes(t, 40);
    proof {
        crate::bytes::lemma_split_nonempty(t@, 40);
        assert(parts@.len() == split_spec(t@, 40).len());
    }
    if parts.len() == 1 {
        proof {
            assert(parts@[0]@ =~= parts@[0].deep_view());
            assert(parts@[0]@ == split_spec(t@, 40)[0]);
        }
        match parse_colref(&parts[0]) {
            Some(c) => Some(SelectItem { func: None, col: c }),
            None => None,
        }
    } else if parts.len() == 2 {
        proof {
            assert(parts@[0]@ =~= parts@[0].deep_view());
            assert(parts@[1]@ =~= parts@[1].deep_view());
            assert(parts@[0]@ == split_spec(t@, 40)[0]);
            assert(parts@[1]@ == split_spec(t@, 40)[1]);
        }
        let inner = parts.pop().unwrap();
        let fname = parts.pop().unwrap();
        if fname.len() == 0 || inner.len() == 0 {
            return None;
        }
        if inner[inner.len() - 1] != 41 {
            return None;
        }
        let mut arg = inner;
        let ghost inner0 = arg@;
        arg.pop();
        proof {
            assert(arg@ =~= inner0.drop_last());
        }
        match parse_colref(&arg) {
            Some(c) => Some(SelectItem { func: Some(fname), col: c }),
            None => None,
        }
    } else {
        None
    }
}

/// Mirror of [`items_of`].
fn parse_items(t: &Vec<u8>) -> (r: Option<Vec<SelectItem>>)
    ensures
        match r {
            Some(its) => items_wf(t@) && its.deep_view() == items_of(t@),
            None => !items_wf(t@),
        },
{
    let parts = split_bytes(t, 44);
    let ghost ps = split_spec(t@, 44);
    let mut out: Vec<SelectItem> = Vec::new();
    let mut i: usize = 0;
    while i < parts.len()
        invariant
            i <= parts@.len(),
            ps == split_spec(t@, 44),
            parts.deep_view() == ps,
            parts@.len() == ps.len(),
            forall|k: int| 0 <= k < i ==> item_of(#[trigger] ps[k]) is Some,
            out.deep_view() =~= Seq::new(i as nat, |k: int| item_of(ps[k])->0),
        decreases parts.len() - i,
    {
        proof {
            assert(parts@[i as int]@ =~= parts@[i as int].deep_view());
            assert(parts@[i as int]@ == ps[i as int]);
        }
        match parse_item(&parts[i]) {
            Some(it) => {
                let ghost prev = out.deep_view();
                let ghost iv = it@;
                out.push(it);
                proof {
                    assert(out.deep_view() =~= prev.push(iv));
                    assert(out.deep_view() =~= Seq::new((i + 1) as nat, |k: int| item_of(ps[k])->0));
                }
            },
            None => {
                proof {
                    assert(!items_wf(t@));
                }
                return None;
            },
        }
        i = i + 1;
    }
    proof {
        assert(out.deep_view() =~= items_of(t@));
    }
    Some(out)
}

/// Parse declarative query text.
///
/// Succeeds exactly when the text is well formed under the query grammar;
/// the result is the query the text spells.
pub fn parse_query(b: &Vec<u8>) -> (r: Result<QueryRequest, QueryError>)
    ensures
        match r {
            Ok(q) => parse_query_spec(b@) == Some(q@),
            Err(e) => parse_query_spec(b@) is None && e == QueryError::Parse,
        },
{
    let ts = split_bytes(b, 32);
    let ghost tss = split_spec(b@, 32);
    if ts.len() != 17 {
        return Err(QueryError::Parse);
    }
    proof {
        assert forall|k: int| 0 <= k < 17 implies ts@[k]@ == #[trigger] tss[k] by {
            assert(ts@[k]@ =~= ts@[k].deep_view());
        }
    }
    let ok_kw = bytes_eq(&ts[0], &kw_select_bytes()) && bytes_eq(&ts[2], &kw_from_bytes())
        && bytes_eq(&ts[4], &kw_join_bytes()) && bytes_eq(&ts[6], &kw_on_bytes()) && bytes_eq(
        &ts[8],
        &kw_where_bytes(),
    ) && bytes_eq(&ts[12], &kw_sort_bytes()) && bytes_eq(&ts[15], &kw_limit_bytes());
    if !ok_kw {
        return Err(QueryError::Parse);
    }
    let select = match parse_items(&ts[1]) {
        Some(its) => its,
        None => {
            return Err(QueryError::Parse);
        },
    };
    let filter_col = match parse_colref(&ts[9]) {
        Some(c) => c,
        None => {
            return Err(QueryError::Parse);
        },
    };
    let filter_op = match parse_op(&ts[10]) {
        Some(op) => op,
        None => {
            return Err(QueryError::Parse);
        },
    };
    let sort_col = match parse_colref(&ts[13]) {
        Some(c) => c,
        None => {
            return Err(QueryError::Parse);
        },
    };
    let limit = match parse_digits(&ts[16], 0, ts[16].len()) {
        Some(v) => {
            proof {
                assert(tss[16].subrange(0, tss[16].len() as int) =~= tss[16]);
            }
            v
        },
        None => {
            proof {
                assert(tss[16].subrange(0, tss[16].len() as int) =~= tss[16]);
                assert(limit_of(tss[16]) is None);
            }
            return Err(QueryError::Parse);
        },
    };
    let sort_desc = if bytes_eq(&ts[14], &kw_desc_bytes()) {
        true
    } else if bytes_eq(&ts[14], &kw_asc_bytes()) {
        false
    } else {
        return Err(QueryError::Parse);
    };
    let left = clone_bytes(&ts[3]);
    let right = clone_bytes(&ts[5]);
    let key = clone_bytes(&ts[7]);
    let filter_lit = clone_bytes(&ts[11]);
    let q = QueryRequest {
        select,
        left,
        right,
        key,
        filter_col,
        filter_op,
        filter_lit,
        sort_col,
        sort_desc,
        limit,
    };
    proof {
        assert(parse_query_spec(b@) == Some(q@)) by {
            assert(q@ =~~= parse_query_spec(b@)->0);
        }
    }
    Ok(q)
}

// --- executable stages ---------------------------------------------------

/// Cell equality by abstract value.
fn val_eq(a: &Value, b: &Value) -> (r: bool)
    ensures
        r == (a@ == b@),
{
    match (a, b) {
        (Value::Null, Value::Null) => true,
        (Value::Int(x), Value::Int(y)) => x == y,
        (Value::Dec(x), Value::Dec(y)) => x == y,
        (Value::Text(s), Value::Text(t)) => bytes_eq(s, t),
        _ => {
            proof {
                assert(a@ != b@);
            }
            false
        },
    }
}

/// The concatenation of two rows, by abstract value.
fn concat_rows(a: &Row, b: &Row) -> (r: Row)
    ensures
        r.deep_view() == a.deep_view() + b.deep_view(),
{
    let mut r = clone_row(a);
    let mut i: usize = 0;
    while i < b.len()
        invariant
            i <= b@.len(),
            r.deep_view() =~= a.deep_view() + b.deep_view().take(i as int),
        decreases b.len() - i,
    {
        proof {
            assert(b@[i as int]@ == b.deep_view()[i as int]);
        }
        let ghost prev = r.deep_view();
        let v = b[i].clone();
        let ghost vv = v@;
        r.push(v);
        proof {
            assert(r.deep_view() =~= prev.push(vv));
            assert(r.deep_view() =~= a.deep_view() + b.deep_view().take(i + 1 as int));
        }
        i = i + 1;
    }
    proof {
        assert(b.deep_view().take(b.deep_view().len() as int) =~= b.deep_view());
    }
    r
}

/// A row extended by `w` nulls.
fn pad_row(a: &Row, w: usize) -> (r: Row)
    ensures
        r.deep_view() == a.deep_view() + null_row(w as int),
{
    let mut r = clone_row(a);
    let mut i: usize = 0;
    while i < w
        invariant
            i <= w,
            r.deep_view() =~= a.deep_view() + null_row(i as int),
        decreases w - i,
    {
        let ghost prev = r.deep_view();
        r.push(Value::Null);
        proof {
            assert(r.deep_view() =~= prev.push(ValSpec::Null));
            assert(r.deep_view() =~= a.deep_view() + null_row(i + 1 as int));
        }
        i = i + 1;
    }
    r
}

/// Move every row of `more` to the end of `out`.
fn append_rows(out: &mut Vec<Row>, more: Vec<Row>)
    ensures
        final(out).deep_view() == old(out).deep_view() + more.deep_view(),
{
    let ghost all = more.deep_view();
    let n0 = more.len();
    proof {
        assert(all.len() == n0);
    }
    let mut more = more;
    let mut k: usize = 0;
    while more.len() > 0
        invariant
            all.len() <= usize::MAX,
            k <= all.len(),
            k + more@.len() == all.len(),
            more.deep_view() =~= all.skip(k as int),
            out.deep_view() =~= old(out).deep_view() + all.take(k as int),
        decreases more.len(),
    {
        let ghost pre = more.deep_view();
        let r = more.remove(0);
        let ghost rv = r.deep_view();
        proof {
            assert(rv == pre[0]);
            assert(rv == all[k as int]);
            assert(more.deep_view() =~~= pre.skip(1));
            assert(pre.skip(1) =~= all.skip(k as int).skip(1));
            assert(all.skip(k as int).skip(1) =~= all.skip(k + 1 as int));
        }
        let ghost prev = out.deep_view();
        out.push(r);
        proof {
            assert(out.deep_view() =~~= prev.push(rv));
            assert(out.deep_view() =~~= old(out).deep_view() + all.take(k + 1 as int));
        }
        k = k + 1;
    }
    proof {
        assert(all.take(all.len() as int) =~= all);
    }
}

/// Left-outer join of two conforming tables on the key column `k`.
fn join_rows(left: &Vec<Row>, right: &Vec<Row>, k: usize, w: usize) -> (out: Vec<Row>)
    requires
        k < w,
        forall|i: int|
            0 <= i < left.deep_view().len() ==> (#[trigger] left.deep_view()[i]).len() == w as int,
        forall|i: int|
            0 <= i < right.deep_view().len() ==> (#[trigger] right.deep_view()[i]).len()
                == w as int,
    ensures
        out.deep_view() == join_spec(left.deep_view(), right.deep_view(), k as int, w as int),
{
    let ghost lt = left.deep_view();
    let ghost rt = right.deep_view();
    let mut out: Vec<Row> = Vec::new();
    let mut i: usize = 0;
    while i < left.len()
        invariant
            i <= left@.len(),
            k < w,
            lt == left.deep_view(),
            rt == right.deep_view(),
            lt.len() == left@.len(),
            forall|x: int| 0 <= x < lt.len() ==> (#[trigger] lt[x]).len() == w as int,
            forall|x: int| 0 <= x < rt.len() ==> (#[trigger] rt[x]).len() == w as int,
            join_spec(lt, rt, k as int, w as int) =~= out.deep_view() + join_from(
                lt,
                rt,
                k as int,
                w as int,
                i as int,
            ),
        decreases left.len() - i,
    {
        proof {
            assert(left@[i as int].deep_view() == lt[i as int]);
        }
        let l = &left[i];
        let ghost lv = lt[i as int];
        let mut found: Vec<Row> = Vec::new();
        let mut j: usize = 0;
        while j < right.len()
            invariant
                j <= right@.len(),
                k < w,
                lt == left.deep_view(),
                rt == right.deep_view(),
                rt.len() == right@.len(),
                i < left@.len(),
                lt.len() == left@.len(),
                lv == lt[i as int],
                l.deep_view() == lv,
                lv.len() == w as int,
                forall|x: int| 0 <= x < rt.len() ==> (#[trigger] rt[x]).len() == w as int,
                matches_from(lv, rt, k as int, 0) =~= found.deep_view() + matches_from(
                    lv,
                    rt,
                    k as int,
                    j as int,
                ),
            decreases right.len() - j,
        {
            proof {
                assert(right@[j as int].deep_view() == rt[j as int]);
                assert(right@[j as int]@[k as int]@ == rt[j as int][k as int]);
                assert(l@[k as int]@ == lv[k as int]);
            }
            if val_eq(&right[j][k], &l[k]) {
                let nr = concat_rows(l, &right[j]);
                let ghost nv = nr.deep_view();
                let ghost prev = found.deep_view();
                found.push(nr);
                proof {
                    assert(found.deep_view() =~~= prev.push(nv));
                    assert(matches_from(lv, rt, k as int, j as int) == seq![lv + rt[j as int]]
                        + matches_from(lv, rt, k as int, j + 1 as int));
                    assert(matches_from(lv, rt, k as int, 0) =~~= found.deep_view()
                        + matches_from(lv, rt, k as int, j + 1 as int));
                }
            } else {
                proof {
                    assert(matches_from(lv, rt, k as int, j as int) == matches_from(
                        lv,
                        rt,
                        k as int,
                        j + 1 as int,
                    ));
                }
            }
            j = j + 1;
        }
        proof {
            assert(matches_from(lv, rt, k as int, right@.len() as int) =~= Seq::<
                Seq<ValSpec>,
            >::empty());
            assert(found.deep_view() + Seq::<Seq<ValSpec>>::empty() =~= found.deep_view());
            assert(found.deep_view() =~= matches_from(lv, rt, k as int, 0));
            assert(join_from(lt, rt, k as int, w as int, i as int) == join_one(
                lv,
                rt,
                k as int,
                w as int,
            ) + join_from(lt, rt, k as int, w as int, i + 1 as int));
        }
        if found.len() == 0 {
            let padded = pad_row(l, w);
            let ghost pv = padded.deep_view();
            let ghost prev = out.deep_view();
            out.push(padded);
            proof {
                assert(out.deep_view() =~~= prev.push(pv));
                assert(join_one(lv, rt, k as int, w as int) =~= seq![lv + null_row(w as int)]);
                assert(out.deep_view() =~~= prev + join_one(lv, rt, k as int, w as int));
            }
        } else {
            proof {
                assert(join_one(lv, rt, k as int, w as int) == found.deep_view());
            }
            append_rows(&mut out, found);
        }
        proof {
            assert(join_spec(lt, rt, k as int, w as int) =~= out.deep_view() + join_from(
                lt,
                rt,
                k as int,
                w as int,
                i + 1 as int,
            ));
        }
        i = i + 1;
    }
    proof {
        assert(join_from(lt, rt, k as int, w as int, left@.len() as int) =~= Seq::<
            Seq<ValSpec>,
        >::empty());
        assert(out.deep_view() + Seq::<Seq<ValSpec>>::empty() =~= out.deep_view());
    }
    out
}

/// Whether one cell passes the filter.
fn cmp_cell(op: CmpOp, a: &Value, lit: &Value) -> (r: bool)
    ensures
        r == cmp_spec(op, a@, lit@),
{
    match (a, lit) {
        (Value::Int(x), Value::Int(y)) => match op {
            CmpOp::Lt => *x < *y,
            CmpOp::Le => *x <= *y,
            CmpOp::Gt => *x > *y,
            CmpOp::Ge => *x >= *y,
            CmpOp::Equal => *x == *y,
        },
        (Value::Dec(x), Value::Dec(y)) => match op {
            CmpOp::Lt => *x < *y,
            CmpOp::Le => *x <= *y,
            CmpOp::Gt => *x > *y,
            CmpOp::Ge => *x >= *y,
            CmpOp::Equal => *x == *y,
        },
        _ => false,
    }
}

/// The rows whose cell at `p` passes the filter.
fn filter_rows(rows: &Vec<Row>, p: usize, op: CmpOp, lit: &Value) -> (out: Vec<Row>)
    requires
        forall|i: int|
            0 <= i < rows.deep_view().len() ==> (#[trigger] rows.deep_view()[i]).len() > p as int,
    ensures
        out.deep_view() == filter_spec(rows.deep_view(), p as int, op, lit@),
{
    let ghost rs = rows.deep_view();
    let mut out: Vec<Row> = Vec::new();
    let mut i: usize = 0;
    while i < rows.len()
        invariant
            i <= rows@.len(),
            rs == rows.deep_view(),
            rs.len() == rows@.len(),
            forall|x: int| 0 <= x < rs.len() ==> (#[trigger] rs[x]).len() > p as int,
            filter_spec(rs, p as int, op, lit@) =~= out.deep_view() + filter_from(
                rs,
                p as int,
                op,
                lit@,
                i as int,
            ),
        decreases rows.len() - i,
    {
        proof {
            assert(rows@[i as int].deep_view() == rs[i as int]);
            assert(rows@[i as int]@[p as int]@ == rs[i as int][p as int]);
        }
        if cmp_cell(op, &rows[i][p], lit) {
            let nr = clone_row(&rows[i]);
            let ghost nv = nr.deep_view();
            let ghost prev = out.deep_view();
            out.push(nr);
            proof {
                assert(out.deep_view() =~~= prev.push(nv));
                assert(filter_from(rs, p as int, op, lit@, i as int) == seq![rs[i as int]]
                    + filter_from(rs, p as int, op, lit@, i + 1 as int));
                assert(filter_spec(rs, p as int, op, lit@) =~~= out.deep_view() + filter_from(
                    rs,
                    p as int,
                    op,
                    lit@,
                    i + 1 as int,
                ));
            }
        } else {
            proof {
                assert(filter_from(rs, p as int, op, lit@, i as int) == filter_from(
                    rs,
                    p as int,
                    op,
                    lit@,
                    i + 1 as int,
                ));
            }
        }
        i = i + 1;
    }
    proof {
        assert(filter_from(rs, p as int, op, lit@, rows@.len() as int) =~= Seq::<
            Seq<ValSpec>,
        >::empty());
        assert(out.deep_view() + Seq::<Seq<ValSpec>>::empty() =~= out.deep_view());
    }
    out
}

/// Lexicographic byte-string comparison from position `i`.
fn lex_le_from(a: &Vec<u8>, b: &Vec<u8>, i: usize) -> (r: bool)
    requires
        i <= a@.len(),
        i <= b@.len(),
    ensures
        r == lex_le(a@.skip(i as int), b@.skip(i as int)),
    decreases a@.len() - i,
{
    proof {
        assert(a@.skip(i as int).len() == a@.len() - i);
        assert(b@.skip(i as int).len() == b@.len() - i);
    }
    if i == a.len() {
        true
    } else if i == b.len() {
        false
    } else {
        proof {
            assert(a@.skip(i as int)[0] == a@[i as int]);
            assert(b@.skip(i as int)[0] == b@[i as int]);
            assert(a@.skip(i as int).skip(1) =~= a@.skip(i + 1 as int));
            assert(b@.skip(i as int).skip(1) =~= b@.skip(i + 1 as int));
        }
        if a[i] < b[i] {
            true
        } else if a[i] > b[i] {
            false
        } else {
            lex_le_from(a, b, i + 1)
        }
    }
}

/// The requested order on sort keys.
fn le_cells(a: &Value, b: &Value, desc: bool) -> (r: bool)
    ensures
        r == key_le(a@, b@, desc),
{
    if desc {
        base_le_cells(b, a)
    } else {
        base_le_cells(a, b)
    }
}

/// The ascending order on cells.
fn base_le_cells(a: &Value, b: &Value) -> (r: bool)
    ensures
        r == base_le(a@, b@),
{
    match (a, b) {
        (Value::Int(x), Value::Int(y)) => *x <= *y,
        (Value::Dec(x), Value::Dec(y)) => *x <= *y,
        (Value::Text(s), Value::Text(t)) => {
            proof {
                assert(s@.skip(0) =~= s@);
                assert(t@.skip(0) =~= t@);
            }
            lex_le_from(s, t, 0)
        },
        (Value::Null, _) => true,
        (Value::Int(_), Value::Dec(_)) => true,
        (Value::Int(_), Value::Text(_)) => true,
        (Value::Int(_), Value::Null) => false,
        (Value::Dec(_), Value::Text(_)) => true,
        (Value::Dec(_), _) => false,
        (Value::Text(_), _) => false,
    }
}

/// Insert a row into a sorted run.
fn insert_row_sorted(r: Row, v: Vec<Row>, p: usize, desc: bool) -> (out: Vec<Row>)
    requires
        r.deep_view().len() > p as int,
        forall|i: int|
            0 <= i < v.deep_view().len() ==> (#[trigger] v.deep_view()[i]).len() > p as int,
    ensures
        out.deep_view() == insert_spec(r.deep_view(), v.deep_view(), p as int, desc),
        forall|i: int|
            0 <= i < out.deep_view().len() ==> (#[trigger] out.deep_view()[i]).len() > p as int,
    decreases v@.len(),
{
    let ghost rv = r.deep_view();
    let ghost vs = v.deep_view();
    let mut v = v;
    if v.len() == 0 {
        v.push(r);
        proof {
            assert(v.deep_view() =~~= seq![rv]);
            assert(insert_spec(rv, vs, p as int, desc) =~= seq![rv]);
        }
        return v;
    }
    proof {
        assert(v@[0].deep_view() == vs[0]);
        assert(v@[0]@[p as int]@ == vs[0][p as int]);
        assert(r@[p as int]@ == rv[p as int]);
    }
    if le_cells(&r[p], &v[0][p], desc) {
        let ghost prev = v.deep_view();
        v.insert(0, r);
        proof {
            assert(v.deep_view() =~~= seq![rv] + prev);
        }
        v
    } else {
        let head = v.remove(0);
        let ghost hv = head.deep_view();
        proof {
            assert(hv == vs[0]);
            assert(v.deep_view() =~~= vs.drop_first());
        }
        let rest = insert_row_sorted(r, v, p, desc);
        let ghost restv = rest.deep_view();
        let mut rest = rest;
        rest.insert(0, head);
        proof {
            assert(rest.deep_view() =~~= seq![hv] + restv);
            assert(insert_spec(rv, vs, p as int, desc) == seq![vs[0]] + insert_spec(
                rv,
                vs.drop_first(),
                p as int,
                desc,
            ));
        }
        rest
    }
}

/// Insertion sort by the cell at `p`.
fn sort_rows(v: Vec<Row>, p: usize, desc: bool) -> (out: Vec<Row>)
    requires
        forall|i: int|
            0 <= i < v.deep_view().len() ==> (#[trigger] v.deep_view()[i]).len() > p as int,
    ensures
        out.deep_view() == sort_spec(v.deep_view(), p as int, desc),
        forall|i: int|
            0 <= i < out.deep_view().len() ==> (#[trigger] out.deep_view()[i]).len() > p as int,
    decreases v@.len(),
{
    let ghost vs = v.deep_view();
    let mut v = v;
    if v.len() == 0 {
        proof {
            assert(sort_spec(vs, p as int, desc) =~= Seq::<Seq<ValSpec>>::empty());
            assert(v.deep_view() =~= Seq::<Seq<ValSpec>>::empty());
        }
        return v;
    }
    let head = v.remove(0);
    proof {
        assert(head.deep_view() == vs[0]);
        assert(v.deep_view() =~~= vs.drop_first());
    }
    let sorted = sort_rows(v, p, desc);
    insert_row_sorted(head, sorted, p, desc)
}

/// Keep only the first `limit` rows.
fn limit_rows(v: Vec<Row>, limit: u64) -> (out: Vec<Row>)
    ensures
        out.deep_view() == v.deep_view().take(
            if (limit as int) < v.deep_view().len() {
                limit as int
            } else {
                v.deep_view().len() as int
            },
        ),
{
    let ghost vs = v.deep_view();
    let mut v = v;
    let target: usize = if (limit as u64) < (v.len() as u64) {
        limit as usize
    } else {
        v.len()
    };
    while v.len() > target
        invariant
            target <= v@.len() <= vs.len(),
            v.deep_view() =~= vs.take(v@.len() as int),
        decreases v.len(),
    {
        let ghost prev = v.deep_view();
        v.pop();
        proof {
            assert(v.deep_view() =~~= prev.drop_last());
            assert(prev.drop_last() =~= vs.take(v@.len() as int));
        }
    }
    proof {
        assert(v.deep_view() =~= vs.take(target as int));
    }
    v
}

/// One resolved projection item.
pub struct PlanItem {
    pub pos: usize,
    pub kernel: Option<Kernel>,
}

impl View for PlanItem {
    type V = (int, Option<Kernel>);

    open spec fn view(&self) -> (int, Option<Kernel>) {
        (self.pos as int, self.kernel)
    }
}

impl DeepView for PlanItem {
    type V = (int, Option<Kernel>);

    open spec fn deep_view(&self) -> (int, Option<Kernel>) {
        self.view()
    }
}

/// Project the limited rows through the resolved plan.
fn project_rows(rows: &Vec<Row>, plans: &Vec<PlanItem>) -> (r: Result<Vec<Row>, QueryError>)
    requires
        forall|i: int, j: int|
            0 <= i < rows.deep_view().len() && 0 <= j < plans@.len() ==> (
            #[trigger] rows.deep_view()[i]).len() > (#[trigger] plans@[j]).pos as int,
    ensures
        match r {
            Ok(out) => project_ok(rows.deep_view(), plans.deep_view()) && out.deep_view()
                == projected(rows.deep_view(), plans.deep_view()),
            Err(e) => !project_ok(rows.deep_view(), plans.deep_view()) && e
                == QueryError::Evaluation,
        },
{
    let ghost rs = rows.deep_view();
    let ghost ps = plans.deep_view();
    let mut out: Vec<Row> = Vec::new();
    let mut i: usize = 0;
    while i < rows.len()
        invariant
            i <= rows@.len(),
            rs == rows.deep_view(),
            ps == plans.deep_view(),
            rs.len() == rows@.len(),
            ps.len() == plans@.len(),
            forall|x: int, j: int|
                0 <= x < rs.len() && 0 <= j < ps.len() ==> (#[trigger] rs[x]).len() > (
                #[trigger] ps[j]).0,
            forall|x: int, j: int|
                0 <= x < i && 0 <= j < ps.len() ==> project_cell(
                    #[trigger] rs[x],
                    #[trigger] ps[j],
                ) is Some,
            out.deep_view() =~~= Seq::new(
                i as nat,
                |x: int| Seq::new(ps.len(), |j: int| project_cell(rs[x], ps[j])->0),
            ),
        decreases rows.len() - i,
    {
        proof {
            assert(rows@[i as int].deep_view() == rs[i as int]);
        }
        let mut row: Row = Vec::new();
        let mut j: usize = 0;
        while j < plans.len()
            invariant
                j <= plans@.len(),
                i < rows@.len(),
                rs == rows.deep_view(),
                ps == plans.deep_view(),
                rs.len() == rows@.len(),
                ps.len() == plans@.len(),
                forall|x: int, y: int|
                    0 <= x < rs.len() && 0 <= y < ps.len() ==> (#[trigger] rs[x]).len() > (
                    #[trigger] ps[y]).0,
                forall|y: int| 0 <= y < j ==> project_cell(rs[i as int], #[trigger] ps[y]) is Some,
                row.deep_view() =~= Seq::new(
                    j as nat,
                    |y: int| project_cell(rs[i as int], ps[y])->0,
                ),
            decreases plans.len() - j,
        {
            proof {
                assert(plans@[j as int]@ == ps[j as int]);
                assert(rows@[i as int]@[plans@[j as int].pos as int]@ == rs[i as int][ps[
                    j as int
                ].0]);
            }
            let pl = &plans[j];
            let cell = &rows[i][pl.pos];
            let produced: Option<Value> = match pl.kernel {
                None => Some(cell.clone()),
                Some(k) => apply_kernel(k, cell),
            };
            match produced {
                Some(v) => {
                    let ghost prev = row.deep_view();
                    let ghost vv = v@;
                    row.push(v);
                    proof {
                        assert(project_cell(rs[i as int], ps[j as int]) == Some(vv));
                        assert(row.deep_view() =~= prev.push(vv));
                        assert(row.deep_view() =~= Seq::new(
                            (j + 1) as nat,
                            |y: int| project_cell(rs[i as int], ps[y])->0,
                        ));
                    }
                },
                None => {
                    proof {
                        assert(project_cell(rs[i as int], ps[j as int]) is None);
                        assert(!project_ok(rs, ps));
                    }
                    return Err(QueryError::Evaluation);
                },
            }
            j = j + 1;
        }
        let ghost prev = out.deep_view();
        let ghost rv = row.deep_view();
        out.push(row);
        proof {
            assert(out.deep_view() =~~= prev.push(rv));
            assert(rv =~= Seq::new(ps.len(), |y: int| project_cell(rs[i as int], ps[y])->0));
            assert(out.deep_view() =~~= Seq::new(
                (i + 1) as nat,
                |x: int| Seq::new(ps.len(), |j2: int| project_cell(rs[x], ps[j2])->0),
            ));
        }
        i = i + 1;
    }
    proof {
        assert(out.deep_view() =~~= projected(rs, ps));
    }
    Ok(out)
}

// --- widths --------------------------------------------------------------

/// Every matched row is a left row extended by a right row.
pub proof fn lemma_matches_widths(l: Seq<ValSpec>, right: Seq<Seq<ValSpec>>, k: int, i: int, w: int)
    requires
        l.len() == w,
        forall|x: int| 0 <= x < right.len() ==> (#[trigger] right[x]).len() == w,
    ensures
        forall|x: int|
            0 <= x < matches_from(l, right, k, i).len() ==> (#[trigger] matches_from(
                l,
                right,
                k,
                i,
            )[x]).len() == 2 * w,
    decreases right.len() - i,
{
    if 0 <= i < right.len() {
        lemma_matches_widths(l, right, k, i + 1, w);
        if right[i][k] == l[k] {
            assert forall|x: int|
                0 <= x < matches_from(l, right, k, i).len() implies (#[trigger] matches_from(
                l,
                right,
                k,
                i,
            )[x]).len() == 2 * w by {
                if x == 0 {
                    assert(matches_from(l, right, k, i)[0] == l + right[i]);
                } else {
                    assert(matches_from(l, right, k, i)[x] == matches_from(l, right, k, i + 1)[x
                        - 1]);
                }
            }
        } else {
            assert(matches_from(l, right, k, i) == matches_from(l, right, k, i + 1));
        }
    }
}

/// Every joined row is twice the schema width.
pub proof fn lemma_join_widths(
    left: Seq<Seq<ValSpec>>,
    right: Seq<Seq<ValSpec>>,
    k: int,
    w: int,
    i: int,
)
    requires
        forall|x: int| 0 <= x < left.len() ==> (#[trigger] left[x]).len() == w,
        forall|x: int| 0 <= x < right.len() ==> (#[trigger] right[x]).len() == w,
    ensures
        forall|x: int|
            0 <= x < join_from(left, right, k, w, i).len() ==> (#[trigger] join_from(
                left,
                right,
                k,
                w,
                i,
            )[x]).len() == 2 * w,
    decreases left.len() - i,
{
    if 0 <= i < left.len() {
        lemma_join_widths(left, right, k, w, i + 1);
        lemma_matches_widths(left[i], right, k, 0, w);
        let one = join_one(left[i], right, k, w);
        assert forall|x: int|
            0 <= x < join_from(left, right, k, w, i).len() implies (#[trigger] join_from(
            left,
            right,
            k,
            w,
            i,
        )[x]).len() == 2 * w by {
            if x < one.len() {
                assert(join_from(left, right, k, w, i)[x] == one[x]);
                if matches_from(left[i], right, k, 0).len() == 0 {
                    assert(one[0] == left[i] + null_row(w));
                }
            } else {
                assert(join_from(left, right, k, w, i)[x] == join_from(left, right, k, w, i + 1)[
                    x - one.len()]);
            }
        }
    }
}

/// Filtering keeps row widths.
pub proof fn lemma_filter_widths(
    rows: Seq<Seq<ValSpec>>,
    p: int,
    op: CmpOp,
    lit: ValSpec,
    i: int,
    wid: int,
)
    requires
        forall|x: int| 0 <= x < rows.len() ==> (#[trigger] rows[x]).len() == wid,
    ensures
        forall|x: int|
            0 <= x < filter_from(rows, p, op, lit, i).len() ==> (#[trigger] filter_from(
                rows,
                p,
                op,
                lit,
                i,
            )[x]).len() == wid,
    decreases rows.len() - i,
{
    if 0 <= i < rows.len() {
        lemma_filter_widths(rows, p, op, lit, i + 1, wid);
        if cmp_spec(op, rows[i][p], lit) {
            assert forall|x: int|
                0 <= x < filter_from(rows, p, op, lit, i).len() implies (#[trigger] filter_from(
                rows,
                p,
                op,
                lit,
                i,
            )[x]).len() == wid by {
                if x == 0 {
                    assert(filter_from(rows, p, op, lit, i)[0] == rows[i]);
                } else {
                    assert(filter_from(rows, p, op, lit, i)[x] == filter_from(
                        rows,
                        p,
                        op,
                        lit,
                        i + 1,
                    )[x - 1]);
                }
            }
        } else {
            assert(filter_from(rows, p, op, lit, i) == filter_from(rows, p, op, lit, i + 1));
        }
    }
}

/// Insertion keeps row widths.
pub proof fn lemma_insert_widths(
    r: Seq<ValSpec>,
    v: Seq<Seq<ValSpec>>,
    p: int,
    desc: bool,
    wid: int,
)
    requires
        r.len() == wid,
        forall|x: int| 0 <= x < v.len() ==> (#[trigger] v[x]).len() == wid,
    ensures
        forall|x: int|
            0 <= x < insert_spec(r, v, p, desc).len() ==> (#[trigger] insert_spec(
                r,
                v,
                p,
                desc,
            )[x]).len() == wid,
    decreases v.len(),
{
    if v.len() == 0 {
    } else if key_le(r[p], v[0][p], desc) {
    } else {
        assert(forall|x: int|
            0 <= x < v.drop_first().len() ==> (#[trigger] v.drop_first()[x]).len() == wid);
        lemma_insert_widths(r, v.drop_first(), p, desc, wid);
        let out = insert_spec(r, v, p, desc);
        assert forall|x: int| 0 <= x < out.len() implies (#[trigger] out[x]).len() == wid by {
            if x > 0 {
                assert(out[x] == insert_spec(r, v.drop_first(), p, desc)[x - 1]);
            }
        }
    }
}

/// Sorting keeps row widths.
pub proof fn lemma_sort_widths(v: Seq<Seq<ValSpec>>, p: int, desc: bool, wid: int)
    requires
        forall|x: int| 0 <= x < v.len() ==> (#[trigger] v[x]).len() == wid,
    ensures
        forall|x: int|
            0 <= x < sort_spec(v, p, desc).len() ==> (#[trigger] sort_spec(v, p, desc)[x]).len()
                == wid,
    decreases v.len(),
{
    if v.len() > 0 {
        assert(forall|x: int|
            0 <= x < v.drop_first().len() ==> (#[trigger] v.drop_first()[x]).len() == wid);
        lemma_sort_widths(v.drop_first(), p, desc, wid);
        lemma_insert_widths(v[0], sort_spec(v.drop_first(), p, desc), p, desc, wid);
    }
}

/// Sorting keeps the row count.
pub proof fn lemma_sort_len(v: Seq<Seq<ValSpec>>, p: int, desc: bool)
    ensures
        sort_spec(v, p, desc).len() == v.len(),
    decreases v.len(),
{
    if v.len() > 0 {
        lemma_sort_len(v.drop_first(), p, desc);
        lemma_insert_len(v[0], sort_spec(v.drop_first(), p, desc), p, desc);
    }
}

/// Insertion grows a run by one row.
pub proof fn lemma_insert_len(r: Seq<ValSpec>, v: Seq<Seq<ValSpec>>, p: int, desc: bool)
    ensures
        insert_spec(r, v, p, desc).len() == v.len() + 1,
    decreases v.len(),
{
    if v.len() > 0 && !key_le(r[p], v[0][p], desc) {
        lemma_insert_len(r, v.drop_first(), p, desc);
    }
}

// --- resolution and the executor ----------------------------------------

/// Resolve a column reference against the joined-row layout.
fn resolve_colref(schema: &Schema, left: &Vec<u8>, right: &Vec<u8>, c: &ColRef) -> (r: Option<
    usize,
>)
    requires
        2 * schema@.len() <= usize::MAX,
    ensures
        match r {
            Some(p) => rpos(schema@, left@, right@, c@) == Some(p as int) && (p as int) < 2
                * schema@.len(),
            None => rpos(schema@, left@, right@, c@) is None,
        },
{
    if bytes_eq(&c.table, left) {
        match lookup_field(schema, &c.column) {
            Some(j) => {
                proof {
                    crate::schema::lemma_find_field_in_range(schema@, c@.column, 0);
                }
                Some(j)
            },
            None => None,
        }
    } else if bytes_eq(&c.table, right) {
        match lookup_field(schema, &c.column) {
            Some(j) => {
                proof {
                    crate::schema::lemma_find_field_in_range(schema@, c@.column, 0);
                }
                Some(j + schema.fields.len())
            },
            None => None,
        }
    } else {
        None
    }
}

/// Parse and run one query against the catalog and function registry.
///
/// The result mirrors the query's abstract meaning exactly: parse faults,
/// unresolved names, type faults, and scalar evaluation faults are told
/// apart, and a successful query returns the joined, filtered, sorted,
/// limited, projected rows of [`run_spec`].
pub fn execute(query_text: &Vec<u8>, catalog: &Catalog, registry: &FunctionRegistry) -> (r: Result<
    Vec<Row>,
    QueryError,
>)
    requires
        catalog_wf(catalog@),
        2 * catalog@.schema.len() <= usize::MAX,
    ensures
        match parse_query_spec(query_text@) {
            None => r is Err && r->Err_0 == QueryError::Parse,
            Some(q) => match run_spec(q, catalog@, registry@) {
                Ok(rows) => r is Ok && r->Ok_0.deep_view() == rows,
                Err(e) => r is Err && r->Err_0 == e,
            },
        },
{
    let q = match parse_query(query_text) {
        Ok(q) => q,
        Err(e) => {
            return Err(e);
        },
    };
    let ghost qs = q@;
    let w = catalog.schema.fields.len();
    let li = match lookup_table(catalog, &q.left) {
        Some(i) => i,
        None => {
            return Err(QueryError::Plan);
        },
    };
    let ri = match lookup_table(catalog, &q.right) {
        Some(i) => i,
        None => {
            return Err(QueryError::Plan);
        },
    };
    let ki = match lookup_field(&catalog.schema, &q.key) {
        Some(k) => k,
        None => {
            return Err(QueryError::Plan);
        },
    };
    proof {
        assert(catalog.schema.fields@[ki as int]@ == catalog@.schema[ki as int]);
    }
    if !matches!(catalog.schema.fields[ki].ftype, FieldType::IntType) {
        return Err(QueryError::Plan);
    }
    let mut plans: Vec<PlanItem> = Vec::new();
    let mut ii: usize = 0;
    let ghost items = qs.select;
    proof {
        assert(items == q.select.deep_view());
    }
    while ii < q.select.len()
        invariant
            ii <= q.select@.len(),
            qs == q@,
            items == q.select.deep_view(),
            items.len() == q.select@.len(),
            catalog_wf(catalog@),
            2 * catalog@.schema.len() <= usize::MAX,
            parse_query_spec(query_text@) == Some(qs),
            find_table(catalog@.tables, qs.left, 0) is Some,
            find_table(catalog@.tables, qs.right, 0) is Some,
            field_index(catalog@.schema, qs.key) == Some(ki as int),
            ki < catalog@.schema.len(),
            catalog@.schema[ki as int].ftype == FieldType::IntType,
            forall|x: int|
                0 <= x < ii ==> item_plan(
                    catalog@.schema,
                    qs.left,
                    qs.right,
                    registry@,
                    #[trigger] items[x],
                ) is Some,
            plans.deep_view() =~= Seq::new(
                ii as nat,
                |x: int| item_plan(catalog@.schema, qs.left, qs.right, registry@, items[x])->0,
            ),
            forall|x: int|
                0 <= x < plans@.len() ==> (#[trigger] plans@[x]).pos < 2 * catalog@.schema.len(),
        decreases q.select.len() - ii,
    {
        proof {
            assert(q.select@[ii as int].deep_view() == items[ii as int]);
        }
        let it = &q.select[ii];
        let p = match resolve_colref(&catalog.schema, &q.left, &q.right, &it.col) {
            Some(p) => p,
            None => {
                proof {
                    assert(item_plan(catalog@.schema, qs.left, qs.right, registry@, items[
                        ii as int
                    ]) is None);
                    assert(!items_ok(catalog@.schema, qs.left, qs.right, registry@, qs.select));
                }
                return Err(QueryError::Plan);
            },
        };
        let kernel: Option<Kernel> = match it.func {
            None => None,
            Some(ref fname) => match lookup_function(registry, fname) {
                Some(fi) => {
                    proof {
                        assert(registry.funcs@[fi as int]@.kernel == registry@[fi as int].kernel);
                    }
                    Some(registry.funcs[fi].kernel)
                },
                None => {
                    proof {
                        assert(item_plan(catalog@.schema, qs.left, qs.right, registry@, items[
                            ii as int
                        ]) is None);
                        assert(!items_ok(catalog@.schema, qs.left, qs.right, registry@, qs.select));
                    }
                    return Err(QueryError::Plan);
                },
            },
        };
        let ghost prev = plans.deep_view();
        let pit = PlanItem { pos: p, kernel };
        let ghost pv = pit@;
        plans.push(pit);
        proof {
            assert(plans.deep_view() =~= prev.push(pv));
            assert(item_plan(catalog@.schema, qs.left, qs.right, registry@, items[ii as int])
                == Some(pv));
            assert(plans.deep_view() =~= Seq::new(
                (ii + 1) as nat,
                |x: int| item_plan(catalog@.schema, qs.left, qs.right, registry@, items[x])->0,
            ));
        }
        ii = ii + 1;
    }
    proof {
        assert(items_ok(catalog@.schema, qs.left, qs.right, registry@, qs.select));
        assert(plans.deep_view() =~= items_plan(
            catalog@.schema,
            qs.left,
            qs.right,
            registry@,
            qs.select,
        ));
    }
    let fp = match resolve_colref(&catalog.schema, &q.left, &q.right, &q.filter_col) {
        Some(p) => p,
        None => {
            return Err(QueryError::Plan);
        },
    };
    let ft = if fp < w {
        proof {
            assert(catalog.schema.fields@[fp as int]@ == catalog@.schema[fp as int]);
        }
        catalog.schema.fields[fp].ftype
    } else {
        proof {
            assert(catalog.schema.fields@[fp - w]@ == catalog@.schema[fp - w]);
        }
        catalog.schema.fields[fp - w].ftype
    };
    proof {
        assert(ft == col_type(catalog@.schema, fp as int));
    }
    let litv: Value = match ft {
        FieldType::TextType => {
            return Err(QueryError::Execution);
        },
        FieldType::IntType => match parse_int(&q.filter_lit) {
            Some(v) => Value::Int(v),
            None => {
                return Err(QueryError::Execution);
            },
        },
        FieldType::DecType => match parse_dec(&q.filter_lit) {
            Some(v) => Value::Dec(v),
            None => {
                return Err(QueryError::Execution);
            },
        },
    };
    proof {
        assert(lit_of(ft, qs.filter_lit) == Some(litv@));
    }
    let sp = match resolve_colref(&catalog.schema, &q.left, &q.right, &q.sort_col) {
        Some(p) => p,
        None => {
            return Err(QueryError::Plan);
        },
    };
    let ghost lrows = catalog@.tables[li as int].rows;
    let ghost rrows = catalog@.tables[ri as int].rows;
    proof {
        assert(catalog.tables@[li as int]@.rows == lrows);
        assert(catalog.tables@[ri as int]@.rows == rrows);
        assert(table_ok_widths(catalog@.schema, lrows));
        assert(table_ok_widths(catalog@.schema, rrows));
    }
    let joined = join_rows(&catalog.tables[li].rows, &catalog.tables[ri].rows, ki, w);
    proof {
        lemma_join_widths(lrows, rrows, ki as int, w as int, 0);
    }
    let filtered = filter_rows(&joined, fp, q.filter_op, &litv);
    proof {
        lemma_filter_widths(
            join_spec(lrows, rrows, ki as int, w as int),
            fp as int,
            q.filter_op,
            litv@,
            0,
            2 * w as int,
        );
    }
    let ghost eligible = filtered.deep_view();
    let sorted = sort_rows(filtered, sp, q.sort_desc);
    proof {
        lemma_sort_widths(eligible, sp as int, q.sort_desc, 2 * w as int);
    }
    let limited = limit_rows(sorted, q.limit);
    proof {
        assert forall|x: int, j: int|
            0 <= x < limited.deep_view().len() && 0 <= j < plans@.len() implies (
        #[trigger] limited.deep_view()[x]).len() > (#[trigger] plans@[j]).pos as int by {
            assert(limited.deep_view()[x] == sort_spec(eligible, sp as int, q.sort_desc)[x]);
        }
    }
    let out = match project_rows(&limited, &plans) {
        Ok(o) => o,
        Err(e) => {
            proof {
                assert(run_spec(qs, catalog@, registry@) == Err::<Seq<Seq<ValSpec>>, QueryError>(
                    QueryError::Evaluation,
                ));
            }
            return Err(e);
        },
    };
    proof {
        assert(run_spec(qs, catalog@, registry@) == Ok::<Seq<Seq<ValSpec>>, QueryError>(
            out.deep_view(),
        ));
    }
    Ok(out)
}

/// All rows of a conforming table have the schema's width.
pub open spec fn table_ok_widths(s: Seq<FieldS>, t: Seq<Seq<ValSpec>>) -> bool {
    forall|i: int| 0 <= i < t.len() ==> (#[trigger] t[i]).len() == s.len()
}

// --- stated laws ---------------------------------------------------------

/// No right row matches the left row's key from position `j` on.
pub open spec fn unmatched_from(l: Seq<ValSpec>, right: Seq<Seq<ValSpec>>, k: int, j: int) -> bool {
    forall|x: int| j <= x < right.len() ==> (#[trigger] right[x])[k] != l[k]
}

/// A left row with no key match produces no matched rows.
pub proof fn lemma_matches_empty(l: Seq<ValSpec>, right: Seq<Seq<ValSpec>>, k: int, j: int)
    requires
        0 <= j,
        unmatched_from(l, right, k, j),
    ensures
        matches_from(l, right, k, j) == Seq::<Seq<ValSpec>>::empty(),
    decreases right.len() - j,
{
    if j < right.len() {
        lemma_matches_empty(l, right, k, j + 1);
    }
}

/// The join output contains what any one left row contributes.
pub proof fn lemma_join_from_contains(
    left: Seq<Seq<ValSpec>>,
    right: Seq<Seq<ValSpec>>,
    k: int,
    w: int,
    j: int,
    i: int,
    row: Seq<ValSpec>,
)
    requires
        0 <= j <= i < left.len(),
        join_one(left[i], right, k, w).contains(row),
    ensures
        join_from(left, right, k, w, j).contains(row),
    decreases left.len() - j,
{
    let one = join_one(left[j], right, k, w);
    let rest = join_from(left, right, k, w, j + 1);
    if j == i {
        let x = choose|x: int| 0 <= x < one.len() && one[x] == row;
        assert(join_from(left, right, k, w, j)[x] == row);
    } else {
        lemma_join_from_contains(left, right, k, w, j + 1, i, row);
        let x = choose|x: int| 0 <= x < rest.len() && rest[x] == row;
        assert(join_from(left, right, k, w, j)[one.len() + x] == row);
    }
}

/// Join correctness for unmatched keys: a left row whose key appears in no
/// right row is still present in the join output, padded with a null right
/// side — in particular every right-side column of that row, such as its
/// category, is null.
pub proof fn lemma_join_keeps_unmatched_left(
    left: Seq<Seq<ValSpec>>,
    right: Seq<Seq<ValSpec>>,
    k: int,
    w: int,
    i: int,
)
    requires
        0 <= i < left.len(),
        0 <= w,
        unmatched_from(left[i], right, k, 0),
    ensures
        join_spec(left, right, k, w).contains(left[i] + null_row(w)),
        (left[i] + null_row(w)).len() == left[i].len() + w,
        forall|c: int|
            left[i].len() <= c < left[i].len() + w ==> (left[i] + null_row(w))[c] is Null,
{
    lemma_matches_empty(left[i], right, k, 0);
    let padded = left[i] + null_row(w);
    assert(join_one(left[i], right, k, w) == seq![padded]);
    assert(join_one(left[i], right, k, w)[0] == padded);
    assert(join_one(left[i], right, k, w).contains(padded));
    lemma_join_from_contains(left, right, k, w, 0, i, padded);
}

/// Limit boundary: a successful query returns exactly
/// `min(limit, eligible)` rows, so a limit at or above the eligible row
/// count returns the full eligible set.
#[verifier::rlimit(50)]
pub proof fn lemma_limit_beyond_eligible(q: QueryS, cat: CatalogS, reg: Seq<ScalarFunctionS>)
    requires
        q.limit >= 0,
        run_spec(q, cat, reg) is Ok,
    ensures
        ({
            let fp = rpos(cat.schema, q.left, q.right, q.filter_col)->0;
            let lv = lit_of(col_type(cat.schema, fp), q.filter_lit)->0;
            let n = eligible_rows(q, cat, fp, lv).len();
            &&& (run_spec(q, cat, reg)->Ok_0).len() == (if q.limit < n {
                q.limit
            } else {
                n as int
            })
            &&& (q.limit >= n ==> (run_spec(q, cat, reg)->Ok_0).len() == n)
        }),
{
    assert(find_table(cat.tables, q.left, 0) is Some);
    assert(find_table(cat.tables, q.right, 0) is Some);
    assert(field_index(cat.schema, q.key) is Some);
    assert(rpos(cat.schema, q.left, q.right, q.filter_col) is Some);
    assert(rpos(cat.schema, q.left, q.right, q.sort_col) is Some);
    let fp = rpos(cat.schema, q.left, q.right, q.filter_col)->0;
    let lv = lit_of(col_type(cat.schema, fp), q.filter_lit)->0;
    let sp = rpos(cat.schema, q.left, q.right, q.sort_col)->0;
    assert(lit_of(col_type(cat.schema, fp), q.filter_lit) is Some);
    let eligible = eligible_rows(q, cat, fp, lv);
    lemma_sort_len(eligible, sp, q.sort_desc);
    let sorted = sort_spec(eligible, sp, q.sort_desc);
    let limited = sorted.take(
        if q.limit < sorted.len() {
            q.limit
        } else {
            sorted.len() as int
        },
    );
    let plans = items_plan(cat.schema, q.left, q.right, reg, q.select);
    assert(run_spec(q, cat, reg)->Ok_0 == projected(limited, plans));
    assert(projected(limited, plans).len() == limited.len());
}

/// Queries see only the schema, the table names, and the rows: two catalogs
/// that agree on those — however their tables are physically encoded or
/// located — give every query the same answer.  With the columnar source
/// derived from the row-delimited source, both tables hold equal rows, so
/// querying either gives identical results.
pub proof fn lemma_run_ignores_encoding(q: QueryS, cat1: CatalogS, cat2: CatalogS, reg: Seq<
    ScalarFunctionS,
>)
    requires
        cat1.schema == cat2.schema,
        cat1.tables.len() == cat2.tables.len(),
        forall|i: int|
            0 <= i < cat1.tables.len() ==> (#[trigger] cat1.tables[i]).name == cat2.tables[i].name
                && cat1.tables[i].rows == cat2.tables[i].rows,
    ensures
        run_spec(q, cat1, reg) == run_spec(q, cat2, reg),
{
    lemma_find_table_same(cat1.tables, cat2.tables, q.left, 0);
    lemma_find_table_same(cat1.tables, cat2.tables, q.right, 0);
    let li = find_table(cat1.tables, q.left, 0);
    let ri = find_table(cat1.tables, q.right, 0);
    if li is Some && ri is Some {
        crate::catalog::lemma_find_table_range(cat1.tables, q.left, 0);
        crate::catalog::lemma_find_table_range(cat1.tables, q.right, 0);
        assert(cat1.tables[li->0].rows == cat2.tables[li->0].rows);
        assert(cat1.tables[ri->0].rows == cat2.tables[ri->0].rows);
        match field_index(cat1.schema, q.key) {
            None => {},
            Some(ki) => {
                assert(eligible_rows(q, cat1, 0, ValSpec::Null) == eligible_rows(
                    q,
                    cat2,
                    0,
                    ValSpec::Null,
                ));
                assert(forall|fp: int, lv: ValSpec|
                    eligible_rows(q, cat1, fp, lv) == #[trigger] eligible_rows(q, cat2, fp, lv));
            },
        }
    }
}

/// Name lookup agrees on name-equal table lists.
proof fn lemma_find_table_same(a: Seq<crate::catalog::TableS>, b: Seq<crate::catalog::TableS>, n: Seq<u8>, i: int)
    requires
        a.len() == b.len(),
        forall|x: int| 0 <= x < a.len() ==> (#[trigger] a[x]).name == b[x].name,
    ensures
        find_table(a, n, i) == find_table(b, n, i),
    decreases a.len() - i,
{
    if 0 <= i < a.len() {
        lemma_find_table_same(a, b, n, i + 1);
    }
}
} // verus!
