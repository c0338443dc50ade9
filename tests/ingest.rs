use csv_mem_table::error::IngestError;
use csv_mem_table::infer::{classify, infer_schema, join_types, narrowest_type};
use csv_mem_table::schema::{ColumnType, Field, Schema};
use csv_mem_table::table::{
    ingest, parse_cell, resolve_projection, resolve_schema, to_table, Cell, CsvOptions,
    RecordBatch, Table, TableSource,
};
use csv_mem_table::text::{parse_boolean, split_bytes, split_rows};

fn options(has_header: bool, batch_size: usize) -> CsvOptions {
    CsvOptions { has_header, delimiter: b',', batch_size, projection: None }
}

fn id_name_schema() -> Schema {
    Schema::try_new(vec![Field::new("id", ColumnType::Integer), Field::new("name", ColumnType::Text)])
        .unwrap()
}

fn names(s: &Schema) -> Vec<String> {
    s.fields().iter().map(|f| f.name.clone()).collect()
}

fn types(s: &Schema) -> Vec<ColumnType> {
    s.fields().iter().map(|f| f.column_type).collect()
}

fn texts(b: &RecordBatch, j: usize) -> Vec<String> {
    b.column(j)
        .iter()
        .map(|c| match c {
            Cell::Text(s) => s.clone(),
            other => panic!("not text: {:?}", other),
        })
        .collect()
}

fn ints(b: &RecordBatch, j: usize) -> Vec<i64> {
    b.column(j)
        .iter()
        .map(|c| match c {
            Cell::Integer(n) => *n,
            other => panic!("not an integer: {:?}", other),
        })
        .collect()
}

fn row_counts(t: &Table) -> Vec<usize> {
    t.scan().iter().map(|b| b.num_rows()).collect()
}

#[test]
fn infers_integer_and_text_columns() {
    let text = b"a,b\n1,2.5\n3,x\n";
    let s = infer_schema(text, b',').unwrap();
    assert_eq!(names(&s), vec!["a".to_string(), "b".to_string()]);
    assert_eq!(types(&s), vec![ColumnType::Integer, ColumnType::Text]);
    let t = ingest(text, &s, &options(true, 1)).unwrap();
    assert_eq!(row_counts(&t), vec![1, 1]);
    assert_eq!(ints(&t.scan()[0], 0), vec![1]);
    assert_eq!(texts(&t.scan()[1], 1), vec!["x".to_string()]);
}

#[test]
fn declared_schema_in_batches_of_two() {
    let s = id_name_schema();
    let t = ingest(b"1,Alice\n2,Bob\n3,Cara\n", &s, &options(false, 2)).unwrap();
    assert_eq!(row_counts(&t), vec![2, 1]);
    let mut all = Vec::new();
    for b in t.scan() {
        all.extend(texts(b, 1));
    }
    assert_eq!(all, vec!["Alice".to_string(), "Bob".to_string(), "Cara".to_string()]);
    let mut ids = Vec::new();
    for b in t.scan() {
        ids.extend(ints(b, 0));
    }
    assert_eq!(ids, vec![1, 2, 3]);
}

#[test]
fn extra_field_is_a_row_shape_error() {
    let s = id_name_schema();
    let r = ingest(b"1,Alice\n2,Bob,extra\n", &s, &options(false, 8));
    assert!(matches!(r, Err(IngestError::RowShapeError { row: 1, expected: 2, found: 3 })));
}

#[test]
fn missing_projected_column_is_a_projection_error() {
    let s = id_name_schema();
    let mut o = options(false, 8);
    o.projection = Some(vec!["name".to_string(), "age".to_string()]);
    // The rows would fail too; the projection is checked first.
    match ingest(b"1,Alice,x\n", &s, &o) {
        Err(IngestError::ProjectionError { name }) => assert_eq!(name, "age"),
        other => panic!("unexpected: {:?}", other),
    }
}

#[test]
fn projection_keeps_the_named_columns_in_order() {
    let s = id_name_schema();
    let mut o = options(false, 8);
    o.projection = Some(vec!["name".to_string(), "id".to_string()]);
    let t = ingest(b"1,Alice\n2,Bob\n", &s, &o).unwrap();
    assert_eq!(names(t.schema()), vec!["name".to_string(), "id".to_string()]);
    assert_eq!(texts(&t.scan()[0], 0), vec!["Alice".to_string(), "Bob".to_string()]);
    assert_eq!(ints(&t.scan()[0], 1), vec![1, 2]);
    assert_eq!(resolve_projection(&s, &o.projection).unwrap(), vec![1, 0]);
}

#[test]
fn bad_integer_is_a_field_type_error() {
    let s = id_name_schema();
    let r = ingest(b"1,Alice\nzwei,Bob\n", &s, &options(false, 8));
    assert!(matches!(r, Err(IngestError::FieldTypeError { row: 1, column: 0 })));
}

#[test]
fn schema_is_kept_by_ingestion() {
    let s = id_name_schema();
    let t = ingest(b"id,name\n7,Ann\n", &s, &options(true, 4)).unwrap();
    assert_eq!(names(t.schema()), names(&s));
    assert_eq!(types(t.schema()), types(&s));
}

#[test]
fn batch_sizes_add_up_to_the_rows() {
    let s = id_name_schema();
    let text = b"id,name\n1,a\n2,b\n3,c\n4,d\n5,e\n6,f\n7,g\n";
    let t = ingest(text, &s, &options(true, 3)).unwrap();
    assert_eq!(row_counts(&t), vec![3, 3, 1]);
    assert_eq!(row_counts(&t).iter().sum::<usize>(), 7);
    assert_eq!(t.partitions().len(), 1);
    let t = ingest(text, &s, &options(true, 7)).unwrap();
    assert_eq!(row_counts(&t), vec![7]);
}

#[test]
fn no_data_rows_make_no_batches() {
    let s = id_name_schema();
    let t = ingest(b"id,name\n", &s, &options(true, 3)).unwrap();
    assert_eq!(row_counts(&t), Vec::<usize>::new());
    let t = ingest(b"", &s, &options(false, 3)).unwrap();
    assert_eq!(row_counts(&t), Vec::<usize>::new());
}

#[test]
fn column_order_is_kept_across_batches() {
    let s = Schema::try_new(vec![Field::new("n", ColumnType::Integer)]).unwrap();
    let t = ingest(b"5\n4\n3\n2\n1\n", &s, &options(false, 2)).unwrap();
    let mut all = Vec::new();
    for b in t.scan() {
        all.extend(ints(b, 0));
    }
    assert_eq!(all, vec![5, 4, 3, 2, 1]);
}

#[test]
fn ingesting_twice_gives_the_same_table() {
    let s = id_name_schema();
    let text = b"id,name\n1,a\n2,b\n3,c\n";
    let a = ingest(text, &s, &options(true, 2)).unwrap();
    let b = ingest(text, &s, &options(true, 2)).unwrap();
    assert_eq!(format!("{:?}", a), format!("{:?}", b));
}

#[test]
fn inference_is_deterministic() {
    let text = b"x,y,z\ntrue,1,1\nFALSE,2,2.5\n";
    let a = infer_schema(text, b',').unwrap();
    let b = infer_schema(text, b',').unwrap();
    assert_eq!(types(&a), types(&b));
    assert_eq!(types(&a), vec![ColumnType::Boolean, ColumnType::Integer, ColumnType::Float]);
}

#[test]
fn inference_widens_mixed_columns() {
    let s = infer_schema(b"p;q;r\ntrue;1;1.5\n7;x;2\n", b';').unwrap();
    assert_eq!(types(&s), vec![ColumnType::Text, ColumnType::Text, ColumnType::Float]);
    let s = infer_schema(b"only\n", b',').unwrap();
    assert_eq!(types(&s), vec![ColumnType::Boolean]);
}

#[test]
fn inference_failures_are_schema_errors() {
    assert!(matches!(infer_schema(b"", b','), Err(IngestError::SchemaError)));
    assert!(matches!(infer_schema(b"a,b\n1\n", b','), Err(IngestError::SchemaError)));
    assert!(matches!(infer_schema(b"a,a\n1,2\n", b','), Err(IngestError::SchemaError)));
}

#[test]
fn duplicate_declared_names_are_refused() {
    let r = Schema::try_new(vec![Field::new("a", ColumnType::Integer), Field::new("a", ColumnType::Text)]);
    assert!(matches!(r, Err(IngestError::SchemaError)));
}

#[test]
fn resolve_prefers_the_declared_schema() {
    let declared = TableSource {
        uri: "people.csv".to_string(),
        schema: Some(vec![Field::new("id", ColumnType::Text), Field::new("name", ColumnType::Text)]),
    };
    let s = resolve_schema(&declared, b"id,name\n1,Ann\n", b',').unwrap();
    assert_eq!(types(&s), vec![ColumnType::Text, ColumnType::Text]);
    let inferred = TableSource { uri: "people.csv".to_string(), schema: None };
    let s = resolve_schema(&inferred, b"id,name\n1,Ann\n", b',').unwrap();
    assert_eq!(types(&s), vec![ColumnType::Integer, ColumnType::Text]);
}

#[test]
fn to_table_infers_then_ingests() {
    let source = TableSource { uri: "t.csv".to_string(), schema: None };
    let t = to_table(&source, b"k,v\n1,true\n2,false\n3,TRUE\n", &CsvOptions::default()).unwrap();
    assert_eq!(types(t.schema()), vec![ColumnType::Integer, ColumnType::Boolean]);
    assert_eq!(row_counts(&t), vec![3]);
    let flags: Vec<bool> = t.scan()[0]
        .column(1)
        .iter()
        .map(|c| match c {
            Cell::Boolean(b) => *b,
            other => panic!("not a boolean: {:?}", other),
        })
        .collect();
    assert_eq!(flags, vec![true, false, true]);
}

#[test]
fn default_options() {
    let o = CsvOptions::default();
    assert!(o.has_header);
    assert_eq!(o.delimiter, b',');
    assert_eq!(o.batch_size, 1024);
    assert!(o.projection.is_none());
}

#[test]
fn cells_are_read_by_type() {
    assert!(matches!(parse_cell(ColumnType::Integer, b"42"), Some(Cell::Integer(42))));
    assert!(matches!(parse_cell(ColumnType::Integer, b"-7"), Some(Cell::Integer(-7))));
    assert!(parse_cell(ColumnType::Integer, b"4.2").is_none());
    assert!(parse_cell(ColumnType::Integer, b"99999999999999999999").is_none());
    match parse_cell(ColumnType::Float, b"2.5") {
        Some(Cell::Float(s)) => assert_eq!(s, "2.5"),
        other => panic!("unexpected: {:?}", other),
    }
    assert!(parse_cell(ColumnType::Float, b"x").is_none());
    match parse_cell(ColumnType::Text, b"Alice") {
        Some(Cell::Text(s)) => assert_eq!(s, "Alice"),
        other => panic!("unexpected: {:?}", other),
    }
    assert!(matches!(parse_cell(ColumnType::Boolean, b"True"), Some(Cell::Boolean(true))));
    assert!(parse_cell(ColumnType::Boolean, b"yes").is_none());
}

#[test]
fn tokens_are_classified_narrowest_first() {
    assert_eq!(classify(b"false"), ColumnType::Boolean);
    assert_eq!(classify(b"12"), ColumnType::Integer);
    assert_eq!(classify(b"1.25"), ColumnType::Float);
    assert_eq!(classify(b"abc"), ColumnType::Text);
    assert_eq!(parse_boolean(b"tRuE"), Some(true));
    assert_eq!(parse_boolean(b"truth"), None);
}

#[test]
fn text_is_split_into_rows_and_fields() {
    assert_eq!(split_bytes(b"a,,b", b','), vec![b"a".to_vec(), b"".to_vec(), b"b".to_vec()]);
    assert_eq!(split_bytes(b"", b','), vec![Vec::<u8>::new()]);
    let rows = split_rows(b"a,b\n1,2\n", b',');
    assert_eq!(rows, vec![vec![b"a".to_vec(), b"b".to_vec()], vec![b"1".to_vec(), b"2".to_vec()]]);
    assert_eq!(split_rows(b"x\n\ny", b',').len(), 3);
}

#[test]
fn types_widen_as_the_order_says() {
    assert_eq!(narrowest_type(true, false, false), ColumnType::Boolean);
    assert_eq!(narrowest_type(false, true, true), ColumnType::Integer);
    assert_eq!(narrowest_type(false, false, true), ColumnType::Float);
    assert_eq!(narrowest_type(false, false, false), ColumnType::Text);
    assert_eq!(join_types(ColumnType::Integer, ColumnType::Float), ColumnType::Float);
    assert_eq!(join_types(ColumnType::Float, ColumnType::Integer), ColumnType::Float);
    assert_eq!(join_types(ColumnType::Boolean, ColumnType::Integer), ColumnType::Text);
    assert_eq!(join_types(ColumnType::Boolean, ColumnType::Boolean), ColumnType::Boolean);
}

#[test]
fn float_column_keeps_its_text() {
    let s = Schema::try_new(vec![Field::new("v", ColumnType::Float)]).unwrap();
    let t = ingest(b"v
1
2.5
-3e2
", &s, &options(true, 10)).unwrap();
    let got: Vec<String> = t.scan()[0]
        .column(0)
        .iter()
        .map(|c| match c {
            Cell::Float(s) => s.clone(),
            other => panic!("not a float: {:?}", other),
        })
        .collect();
    assert_eq!(got, vec!["1".to_string(), "2.5".to_string(), "-3e2".to_string()]);
    let r = ingest(b"v
1
abc
", &s, &options(true, 10));
    assert!(matches!(r, Err(IngestError::FieldTypeError { row: 1, column: 0 })));
}

#[test]
fn header_only_file_infers_boolean_columns() {
    let s = infer_schema(b"a,b\n", b',').unwrap();
    assert_eq!(names(&s), vec!["a".to_string(), "b".to_string()]);
    assert_eq!(types(&s), vec![ColumnType::Boolean, ColumnType::Boolean]);
    let t = ingest(b"a,b\n", &s, &options(true, 4)).unwrap();
    assert_eq!(row_counts(&t), Vec::<usize>::new());
}

#[test]
fn carriage_return_line_feed_ends_a_line() {
    let text = b"k,flag,name\r\n1,true,Ann\r\n2,FALSE,Bo\r\n";
    let s = infer_schema(text, b',').unwrap();
    assert_eq!(names(&s), vec!["k".to_string(), "flag".to_string(), "name".to_string()]);
    assert_eq!(types(&s), vec![ColumnType::Integer, ColumnType::Boolean, ColumnType::Text]);
    let t = ingest(text, &s, &options(true, 8)).unwrap();
    assert_eq!(texts(&t.scan()[0], 2), vec!["Ann".to_string(), "Bo".to_string()]);
    let rows = split_rows(b"a,b\r\nc\n", b',');
    assert_eq!(rows, vec![vec![b"a".to_vec(), b"b".to_vec()], vec![b"c".to_vec()]]);
}
