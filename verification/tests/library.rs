use txn_analytics::catalog::{register_table, Catalog, EncodingKind, RegistrationError};
use txn_analytics::colbin::{decode_table, encode_table, BinError};
use txn_analytics::config::{api_port_setting, columnar_location_setting, text_location_setting};
use txn_analytics::num::{parse_dec, parse_int};
use txn_analytics::query::{execute, QueryError};
use txn_analytics::render::render_batch;
use txn_analytics::rowtext::parse_table_text;
use txn_analytics::schema::{define_schema, Field, Schema};
use txn_analytics::udf::{eval_scalar, register_udfs, FunctionRegistry};
use txn_analytics::value::{FieldType, Value};

fn canonical_schema() -> Schema {
    define_schema(vec![
        Field { name: b"id".to_vec(), ftype: FieldType::IntType, nullable: false },
        Field { name: b"amount".to_vec(), ftype: FieldType::DecType, nullable: false },
        Field { name: b"category".to_vec(), ftype: FieldType::TextType, nullable: false },
    ])
    .expect("canonical schema is well formed")
}

const SAMPLE: &[u8] = b"id,amount,category\n1,500,Food\n2,1500,Electronics\n3,3000,Travel\n4,7000,Luxury";

fn cells_equal(a: &Value, b: &Value) -> bool {
    match (a, b) {
        (Value::Int(x), Value::Int(y)) => x == y,
        (Value::Dec(x), Value::Dec(y)) => x == y,
        (Value::Text(s), Value::Text(t)) => s == t,
        (Value::Null, Value::Null) => true,
        _ => false,
    }
}

/// A catalog with the sample data registered twice: once from the
/// row-delimited text, once from the columnar bytes derived from it.
fn sample_catalog() -> Catalog {
    let schema = canonical_schema();
    let rows = parse_table_text(&SAMPLE.to_vec(), &schema).expect("sample parses");
    let colbytes = encode_table(&schema, &rows);
    let mut catalog = Catalog::new(canonical_schema());
    register_table(
        &mut catalog,
        b"transactions".to_vec(),
        EncodingKind::RowText,
        b"data/sample.csv".to_vec(),
        &schema,
        &SAMPLE.to_vec(),
    )
    .expect("text registration succeeds");
    register_table(
        &mut catalog,
        b"analytics".to_vec(),
        EncodingKind::Columnar,
        b"data/sample.col".to_vec(),
        &schema,
        &colbytes,
    )
    .expect("columnar registration succeeds");
    catalog
}


#[test]
fn end_to_end_scenario() {
    let catalog = sample_catalog();
    let mut registry = FunctionRegistry::new();
    register_udfs(&mut registry).expect("fresh registry");
    let query = b"select transactions.id,transactions.amount,analytics.category from transactions join analytics on id where transactions.amount > 1000 sort transactions.amount desc limit 10".to_vec();
    let rows = execute(&query, &catalog, &registry).expect("query runs");
    assert_eq!(rows.len(), 3);
    let expected: [(i64, i64, &[u8]); 3] = [
        (4, 700000, b"Luxury"),
        (3, 300000, b"Travel"),
        (2, 150000, b"Electronics"),
    ];
    for (row, (id, amount, category)) in rows.iter().zip(expected.iter()) {
        assert!(cells_equal(&row[0], &Value::Int(*id)));
        assert!(cells_equal(&row[1], &Value::Dec(*amount)));
        assert!(cells_equal(&row[2], &Value::Text(category.to_vec())));
    }
}

#[test]
fn limit_beyond_eligible_rows() {
    let catalog = sample_catalog();
    let registry = FunctionRegistry::new();
    let generous = b"select transactions.id from transactions join analytics on id where transactions.amount > 1000 sort transactions.amount desc limit 99".to_vec();
    let rows = execute(&generous, &catalog, &registry).expect("query runs");
    assert_eq!(rows.len(), 3);
    let tight = b"select transactions.id from transactions join analytics on id where transactions.amount > 1000 sort transactions.amount desc limit 2".to_vec();
    let rows = execute(&tight, &catalog, &registry).expect("query runs");
    assert_eq!(rows.len(), 2);
}

#[test]
fn left_outer_join_pads_missing_right() {
    let schema = canonical_schema();
    let mut catalog = Catalog::new(canonical_schema());
    register_table(
        &mut catalog,
        b"transactions".to_vec(),
        EncodingKind::RowText,
        b"left".to_vec(),
        &schema,
        &b"id,amount,category\n1,500,Food\n2,1500,Electronics".to_vec(),
    )
    .expect("left registers");
    let partial_rows = parse_table_text(
        &b"id,amount,category\n1,500,Food".to_vec(),
        &schema,
    )
    .expect("partial parses");
    let colbytes = encode_table(&schema, &partial_rows);
    register_table(
        &mut catalog,
        b"analytics".to_vec(),
        EncodingKind::Columnar,
        b"right".to_vec(),
        &schema,
        &colbytes,
    )
    .expect("right registers");
    let registry = FunctionRegistry::new();
    let query = b"select transactions.id,analytics.category from transactions join analytics on id where transactions.amount > 0 sort transactions.id asc limit 10".to_vec();
    let rows = execute(&query, &catalog, &registry).expect("query runs");
    assert_eq!(rows.len(), 2);
    assert!(cells_equal(&rows[0][0], &Value::Int(1)));
    assert!(cells_equal(&rows[0][1], &Value::Text(b"Food".to_vec())));
    assert!(cells_equal(&rows[1][0], &Value::Int(2)));
    assert!(cells_equal(&rows[1][1], &Value::Null));
}

#[test]
fn row_text_and_columnar_sources_agree() {
    let schema = canonical_schema();
    let rows = parse_table_text(&SAMPLE.to_vec(), &schema).expect("sample parses");
    let colbytes = encode_table(&schema, &rows);
    let decoded = decode_table(&colbytes, &schema).expect("round trip decodes");
    assert_eq!(rows.len(), decoded.len());
    for (a, b) in rows.iter().zip(decoded.iter()) {
        assert_eq!(a.len(), b.len());
        for (x, y) in a.iter().zip(b.iter()) {
            assert!(cells_equal(x, y));
        }
    }
    // Querying either source, unfiltered and ordered by id, yields the same
    // logical rows.
    let catalog = sample_catalog();
    let registry = FunctionRegistry::new();
    let from_text = b"select transactions.id,transactions.amount,transactions.category from transactions join analytics on id where transactions.amount > -1 sort transactions.id asc limit 99".to_vec();
    let from_col = b"select analytics.id,analytics.amount,analytics.category from transactions join analytics on id where transactions.amount > -1 sort transactions.id asc limit 99".to_vec();
    let a = execute(&from_text, &catalog, &registry).expect("text query runs");
    let b = execute(&from_col, &catalog, &registry).expect("columnar query runs");
    assert_eq!(a.len(), 4);
    assert_eq!(a.len(), b.len());
    for (ra, rb) in a.iter().zip(b.iter()) {
        for (x, y) in ra.iter().zip(rb.iter()) {
            assert!(cells_equal(x, y));
        }
    }
}

#[test]
fn classify_boundary_values() {
    let mut registry = FunctionRegistry::new();
    register_udfs(&mut registry).expect("fresh registry");
    let f = &registry.funcs[0];
    assert_eq!(f.name, b"classify_transaction".to_vec());
    let exactly_5000 = (5000.00_f64 * 100.0).round() as i64;
    let just_above = (5000.01_f64 * 100.0).round() as i64;
    let column = vec![Value::Dec(exactly_5000), Value::Dec(just_above), Value::Null];
    let out = eval_scalar(f, &column).expect("amount column evaluates");
    assert_eq!(out.len(), 3);
    assert!(cells_equal(&out[0], &Value::Text(b"Regular".to_vec())));
    assert!(cells_equal(&out[1], &Value::Text(b"High Value".to_vec())));
    assert!(cells_equal(&out[2], &Value::Null));
}

#[test]
fn classify_rejects_mismatched_column() {
    let mut registry = FunctionRegistry::new();
    register_udfs(&mut registry).expect("fresh registry");
    let column = vec![Value::Int(1)];
    assert!(eval_scalar(&registry.funcs[0], &column).is_err());
}

#[test]
fn classify_through_query_text() {
    let catalog = sample_catalog();
    let mut registry = FunctionRegistry::new();
    register_udfs(&mut registry).expect("fresh registry");
    let query = b"select transactions.id,classify_transaction(transactions.amount) from transactions join analytics on id where transactions.amount > 1000 sort transactions.amount desc limit 10".to_vec();
    let rows = execute(&query, &catalog, &registry).expect("query runs");
    assert_eq!(rows.len(), 3);
    assert!(cells_equal(&rows[0][1], &Value::Text(b"High Value".to_vec())));
    assert!(cells_equal(&rows[1][1], &Value::Text(b"Regular".to_vec())));
}

#[test]
fn duplicate_registration_always_fails() {
    let schema = canonical_schema();
    let mut catalog = Catalog::new(canonical_schema());
    register_table(
        &mut catalog,
        b"transactions".to_vec(),
        EncodingKind::RowText,
        b"a".to_vec(),
        &schema,
        &SAMPLE.to_vec(),
    )
    .expect("first registration succeeds");
    let again = register_table(
        &mut catalog,
        b"transactions".to_vec(),
        EncodingKind::RowText,
        b"a".to_vec(),
        &schema,
        &SAMPLE.to_vec(),
    );
    assert!(matches!(again, Err(RegistrationError::DuplicateName)));
    assert_eq!(catalog.tables.len(), 1);
}

#[test]
fn conflicting_schema_always_fails() {
    let schema = canonical_schema();
    let other = define_schema(vec![Field {
        name: b"id".to_vec(),
        ftype: FieldType::IntType,
        nullable: false,
    }])
    .expect("one-field schema is well formed");
    let mut catalog = Catalog::new(schema);
    let r = register_table(
        &mut catalog,
        b"transactions".to_vec(),
        EncodingKind::RowText,
        b"a".to_vec(),
        &other,
        &b"id\n1".to_vec(),
    );
    assert!(matches!(r, Err(RegistrationError::SchemaMismatch)));
    assert_eq!(catalog.tables.len(), 0);
}

#[test]
fn registration_rejects_bad_sources() {
    let schema = canonical_schema();
    let mut catalog = Catalog::new(canonical_schema());
    let bad_header = register_table(
        &mut catalog,
        b"t".to_vec(),
        EncodingKind::RowText,
        b"a".to_vec(),
        &schema,
        &b"id,total,category\n1,500,Food".to_vec(),
    );
    assert!(matches!(bad_header, Err(RegistrationError::SchemaMismatch)));
    let bad_cell = register_table(
        &mut catalog,
        b"t".to_vec(),
        EncodingKind::RowText,
        b"a".to_vec(),
        &schema,
        &b"id,amount,category\n1,abc,Food".to_vec(),
    );
    assert!(matches!(bad_cell, Err(RegistrationError::BadSource)));
    let garbage = register_table(
        &mut catalog,
        b"t".to_vec(),
        EncodingKind::Columnar,
        b"a".to_vec(),
        &schema,
        &b"not a container".to_vec(),
    );
    assert!(matches!(garbage, Err(RegistrationError::BadSource)));
}

#[test]
fn columnar_metadata_must_match() {
    let schema = canonical_schema();
    let narrow = define_schema(vec![Field {
        name: b"id".to_vec(),
        ftype: FieldType::IntType,
        nullable: false,
    }])
    .expect("one-field schema is well formed");
    let rows = parse_table_text(&b"id\n1\n2".to_vec(), &narrow).expect("narrow parses");
    let bytes = encode_table(&narrow, &rows);
    assert!(matches!(decode_table(&bytes, &schema), Err(BinError::SchemaMismatch)));
    let mut truncated = bytes.clone();
    truncated.pop();
    assert!(matches!(decode_table(&truncated, &narrow), Err(BinError::Malformed)));
}

#[test]
fn query_error_taxonomy() {
    let catalog = sample_catalog();
    let registry = FunctionRegistry::new();
    let malformed = b"select nothing".to_vec();
    assert!(matches!(execute(&malformed, &catalog, &registry), Err(QueryError::Parse)));
    let unknown_table = b"select ledger.id from ledger join analytics on id where ledger.amount > 1 sort ledger.id asc limit 1".to_vec();
    assert!(matches!(execute(&unknown_table, &catalog, &registry), Err(QueryError::Plan)));
    let unknown_function = b"select flag(transactions.amount) from transactions join analytics on id where transactions.amount > 1 sort transactions.id asc limit 1".to_vec();
    assert!(matches!(execute(&unknown_function, &catalog, &registry), Err(QueryError::Plan)));
    let text_filter = b"select transactions.id from transactions join analytics on id where transactions.category > 1 sort transactions.id asc limit 1".to_vec();
    assert!(matches!(execute(&text_filter, &catalog, &registry), Err(QueryError::Execution)));
    let bad_literal = b"select transactions.id from transactions join analytics on id where transactions.amount > ten sort transactions.id asc limit 1".to_vec();
    assert!(matches!(execute(&bad_literal, &catalog, &registry), Err(QueryError::Execution)));
}

#[test]
fn scalar_fault_aborts_whole_batch() {
    let catalog = sample_catalog();
    let mut registry = FunctionRegistry::new();
    register_udfs(&mut registry).expect("fresh registry");
    // classify_transaction over the integer id column is a type mismatch at
    // call time; the whole batch fails, not just one row.
    let query = b"select classify_transaction(transactions.id) from transactions join analytics on id where transactions.amount > 0 sort transactions.id asc limit 10".to_vec();
    assert!(matches!(execute(&query, &catalog, &registry), Err(QueryError::Evaluation)));
}

#[test]
fn duplicate_function_registration_fails() {
    let mut registry = FunctionRegistry::new();
    register_udfs(&mut registry).expect("fresh registry");
    assert!(register_udfs(&mut registry).is_err());
    assert_eq!(registry.funcs.len(), 1);
}

#[test]
fn numeric_text_round_trips() {
    assert_eq!(parse_int(&b"42".to_vec()), Some(42));
    assert_eq!(parse_int(&b"-7".to_vec()), Some(-7));
    assert_eq!(parse_int(&b"4x".to_vec()), None);
    assert_eq!(parse_dec(&b"5000.01".to_vec()), Some(500001));
    assert_eq!(parse_dec(&b"5000.1".to_vec()), Some(500010));
    assert_eq!(parse_dec(&b"-3".to_vec()), Some(-300));
    assert_eq!(parse_dec(&b"3.141".to_vec()), None);
    assert_eq!(parse_dec(&b".5".to_vec()), None);
}

#[test]
fn render_displays_rows() {
    let rows = vec![
        vec![Value::Int(4), Value::Dec(700000), Value::Text(b"Luxury".to_vec())],
        vec![Value::Int(9), Value::Null, Value::Dec(-150)],
    ];
    let text = render_batch(&rows);
    assert_eq!(text, b"4,7000.00,Luxury\n9,NULL,-1.50\n".to_vec());
}

#[test]
fn configuration_defaults() {
    assert_eq!(text_location_setting(None), b"data/sample.csv".to_vec());
    assert_eq!(columnar_location_setting(None), b"data/sample.col".to_vec());
    assert_eq!(text_location_setting(Some(b"x.csv".to_vec())), b"x.csv".to_vec());
    assert_eq!(api_port_setting(None), 3000);
    assert_eq!(api_port_setting(Some(b"8080".to_vec())), 8080);
    assert_eq!(api_port_setting(Some(b"not-a-port".to_vec())), 3000);
    assert_eq!(api_port_setting(Some(b"70000".to_vec())), 3000);
}

#[test]
fn join_keeps_every_match_of_a_duplicated_key() {
    let schema = canonical_schema();
    let mut catalog = Catalog::new(canonical_schema());
    register_table(
        &mut catalog,
        b"transactions".to_vec(),
        EncodingKind::RowText,
        b"left".to_vec(),
        &schema,
        &b"id,amount,category\n1,500,Food".to_vec(),
    )
    .expect("left registers");
    register_table(
        &mut catalog,
        b"analytics".to_vec(),
        EncodingKind::RowText,
        b"right".to_vec(),
        &schema,
        &b"id,amount,category\n1,10,A\n1,20,B".to_vec(),
    )
    .expect("right registers");
    let registry = FunctionRegistry::new();
    let query = b"select transactions.id,analytics.category from transactions join analytics on id where transactions.amount > 0 sort transactions.id asc limit 10".to_vec();
    let rows = execute(&query, &catalog, &registry).expect("query runs");
    assert_eq!(rows.len(), 2);
    assert!(cells_equal(&rows[0][1], &Value::Text(b"A".to_vec())));
    assert!(cells_equal(&rows[1][1], &Value::Text(b"B".to_vec())));
}

#[test]
fn duplicate_field_names_rejected() {
    let r = define_schema(vec![
        Field { name: b"id".to_vec(), ftype: FieldType::IntType, nullable: false },
        Field { name: b"id".to_vec(), ftype: FieldType::DecType, nullable: false },
    ]);
    assert!(r.is_err());
}
