use csvplot::{CmpOp, DataError, Filter, Table};

fn iris_bytes() -> Vec<u8> {
    b"species,sepal_length,petal_length\nsetosa,5.1,1.4\nvirginica,6.3,6.0\nsetosa,4.9,1.3".to_vec()
}

fn load_iris() -> Table {
    Table::load(&iris_bytes()).unwrap()
}

#[test]
fn load_dimensions_and_names() {
    let t = load_iris();
    assert_eq!(t.width(), 3);
    assert_eq!(t.num_rows(), 3);
    assert_eq!(t.column_name(0).as_slice(), b"species");
    assert_eq!(t.column_name(1).as_slice(), b"sepal_length");
    assert_eq!(t.column_name(2).as_slice(), b"petal_length");
}

#[test]
fn load_infers_column_types_and_values() {
    let t = load_iris();
    assert!(!t.is_numeric(0));
    assert!(t.is_numeric(1));
    assert!(t.is_numeric(2));
    assert_eq!(t.text_value(0, 0).as_slice(), b"setosa");
    assert_eq!(t.text_value(1, 0).as_slice(), b"virginica");
    assert_eq!(t.text_value(2, 0).as_slice(), b"setosa");
    assert_eq!(t.num_value(0, 1), 5100);
    assert_eq!(t.num_value(1, 1), 6300);
    assert_eq!(t.num_value(2, 1), 4900);
    assert_eq!(t.num_value(0, 2), 1400);
    assert_eq!(t.num_value(1, 2), 6000);
    assert_eq!(t.num_value(2, 2), 1300);
}

#[test]
fn load_accepts_trailing_newline() {
    let mut bytes = iris_bytes();
    bytes.push(b'\n');
    let t = Table::load(&bytes).unwrap();
    assert_eq!(t.num_rows(), 3);
    assert_eq!(t.width(), 3);
}

#[test]
fn load_header_only_gives_zero_rows() {
    let t = Table::load(&b"a,b,c\n".to_vec()).unwrap();
    assert_eq!(t.width(), 3);
    assert_eq!(t.num_rows(), 0);
}

#[test]
fn load_ragged_row_fails() {
    let r = Table::load(&b"a,b\n1,2\n3".to_vec());
    assert!(matches!(r, Err(DataError::ParseError)));
}

#[test]
fn load_mixed_column_fails() {
    let r = Table::load(&b"a\n1\nx".to_vec());
    assert!(matches!(r, Err(DataError::ParseError)));
}

#[test]
fn load_invalid_utf8_fails() {
    let r = Table::load(&vec![b'a', b'\n', 0xFF]);
    assert!(matches!(r, Err(DataError::ParseError)));
}

#[test]
fn load_duplicate_names_fails() {
    let r = Table::load(&b"a,a\n1,2".to_vec());
    assert!(matches!(r, Err(DataError::ParseError)));
}

#[test]
fn load_parses_signs_and_fractions() {
    let t = Table::load(&b"v\n-1.5\n0.25\n3\n-0.001".to_vec()).unwrap();
    assert!(t.is_numeric(0));
    assert_eq!(t.num_value(0, 0), -1500);
    assert_eq!(t.num_value(1, 0), 250);
    assert_eq!(t.num_value(2, 0), 3000);
    assert_eq!(t.num_value(3, 0), -1);
}

#[test]
fn load_malformed_decimals_are_text() {
    // A trailing point, a bare point, too many fraction digits, a bare
    // minus, and an inner space are all non-numeric fields.
    let t = Table::load(&b"v\n5.\n.5\n1.2345\n-\n1 2".to_vec()).unwrap();
    assert!(!t.is_numeric(0));
    assert_eq!(t.text_value(0, 0).as_slice(), b"5.");
    assert_eq!(t.text_value(2, 0).as_slice(), b"1.2345");
}

fn gt(column: &[u8], threshold: i64) -> Filter {
    Filter { column: column.to_vec(), op: CmpOp::GreaterThan, threshold }
}

#[test]
fn query_filters_groups_and_sums() {
    // Filtering on sepal_length > 5 keeps the 5.1 and 6.3 rows, so both
    // species appear, each with the sums over its kept rows alone.
    let t = load_iris();
    let q = t.query(&gt(b"sepal_length", 5000), &b"species".to_vec()).unwrap();
    assert_eq!(q.width(), 3);
    assert_eq!(q.num_rows(), 2);
    assert_eq!(q.column_name(0).as_slice(), b"species");
    assert_eq!(q.column_name(1).as_slice(), b"sepal_length");
    assert_eq!(q.column_name(2).as_slice(), b"petal_length");
    assert_eq!(q.text_value(0, 0).as_slice(), b"setosa");
    assert_eq!(q.text_value(1, 0).as_slice(), b"virginica");
    assert_eq!(q.num_value(0, 1), 5100);
    assert_eq!(q.num_value(0, 2), 1400);
    assert_eq!(q.num_value(1, 1), 6300);
    assert_eq!(q.num_value(1, 2), 6000);
}

#[test]
fn query_excludes_rows_at_threshold() {
    // With the threshold at 5.1 the strict comparison drops the setosa rows.
    let t = load_iris();
    let q = t.query(&gt(b"sepal_length", 5100), &b"species".to_vec()).unwrap();
    assert_eq!(q.num_rows(), 1);
    assert_eq!(q.text_value(0, 0).as_slice(), b"virginica");
    assert_eq!(q.num_value(0, 1), 6300);
    assert_eq!(q.num_value(0, 2), 6000);
}

#[test]
fn query_merges_rows_of_one_group() {
    let t = load_iris();
    let q = t.query(&gt(b"sepal_length", 0), &b"species".to_vec()).unwrap();
    assert_eq!(q.num_rows(), 2);
    assert_eq!(q.text_value(0, 0).as_slice(), b"setosa");
    assert_eq!(q.num_value(0, 1), 5100 + 4900);
    assert_eq!(q.num_value(0, 2), 1400 + 1300);
    assert_eq!(q.num_value(1, 1), 6300);
}

#[test]
fn query_is_deterministic() {
    let t = load_iris();
    let f = gt(b"sepal_length", 5000);
    let key = b"species".to_vec();
    let q1 = t.query(&f, &key).unwrap();
    let q2 = t.query(&f, &key).unwrap();
    assert_eq!(q1, q2);
}

#[test]
fn query_other_comparisons() {
    let t = load_iris();
    let f = Filter { column: b"sepal_length".to_vec(), op: CmpOp::LessEq, threshold: 5100 };
    let q = t.query(&f, &b"species".to_vec()).unwrap();
    assert_eq!(q.num_rows(), 1);
    assert_eq!(q.text_value(0, 0).as_slice(), b"setosa");
    assert_eq!(q.num_value(0, 1), 5100 + 4900);
}

#[test]
fn query_missing_filter_column_fails() {
    let t = load_iris();
    let r = t.query(&gt(b"absent", 0), &b"species".to_vec());
    assert!(matches!(r, Err(DataError::SchemaError)));
}

#[test]
fn query_missing_key_column_fails() {
    let t = load_iris();
    let r = t.query(&gt(b"sepal_length", 0), &b"absent".to_vec());
    assert!(matches!(r, Err(DataError::SchemaError)));
}

#[test]
fn query_text_filter_column_fails() {
    let t = load_iris();
    let r = t.query(&gt(b"species", 0), &b"species".to_vec());
    assert!(matches!(r, Err(DataError::SchemaError)));
}

#[test]
fn query_empty_table_fails() {
    let t = Table::load(&b"species,sepal_length\n".to_vec()).unwrap();
    let r = t.query(&gt(b"sepal_length", 0), &b"species".to_vec());
    assert!(matches!(r, Err(DataError::SchemaError)));
}

#[test]
fn query_sum_overflow_fails() {
    let big = b"k,v\na,9223372036854775.807\na,9223372036854775.807".to_vec();
    let t = Table::load(&big).unwrap();
    assert_eq!(t.num_value(0, 1), i64::MAX);
    let r = t.query(&gt(b"v", 0), &b"k".to_vec());
    assert!(matches!(r, Err(DataError::ValueError)));
}

#[test]
fn scatter_ranges_and_points() {
    // The plot reads the unfiltered table: one point per source row, and
    // each axis ranged to its own column's minimum and maximum.
    let t = load_iris();
    let sd = t.scatter_data(&b"sepal_length".to_vec(), &b"petal_length".to_vec()).unwrap();
    assert_eq!(sd.points.len(), t.num_rows());
    assert_eq!(sd.points, vec![(5100, 1400), (6300, 6000), (4900, 1300)]);
    assert_eq!(sd.x_min, 4900);
    assert_eq!(sd.x_max, 6300);
    assert_eq!(sd.y_min, 1300);
    assert_eq!(sd.y_max, 6000);
    for &(px, py) in sd.points.iter() {
        assert!(sd.x_min <= px && px <= sd.x_max);
        assert!(sd.y_min <= py && py <= sd.y_max);
    }
}

#[test]
fn scatter_ignores_filtering() {
    // The rendered point count stays the row count of the unfiltered table,
    // even though a query on the same table would keep fewer rows.
    let t = load_iris();
    let q = t.query(&gt(b"sepal_length", 5000), &b"species".to_vec()).unwrap();
    assert_eq!(q.num_rows(), 2);
    let sd = t.scatter_data(&b"sepal_length".to_vec(), &b"petal_length".to_vec()).unwrap();
    assert_eq!(sd.points.len(), 3);
}

#[test]
fn scatter_missing_column_fails() {
    let t = load_iris();
    let r = t.scatter_data(&b"absent".to_vec(), &b"petal_length".to_vec());
    assert!(matches!(r, Err(DataError::SchemaError)));
    let r2 = t.scatter_data(&b"sepal_length".to_vec(), &b"absent".to_vec());
    assert!(matches!(r2, Err(DataError::SchemaError)));
}

#[test]
fn scatter_text_column_fails() {
    let t = load_iris();
    let r = t.scatter_data(&b"species".to_vec(), &b"petal_length".to_vec());
    assert!(matches!(r, Err(DataError::ValueError)));
}

#[test]
fn scatter_empty_table_fails() {
    let t = Table::load(&b"x,y\n".to_vec()).unwrap();
    let r = t.scatter_data(&b"x".to_vec(), &b"y".to_vec());
    assert!(matches!(r, Err(DataError::ValueError)));
}

#[test]
fn error_descriptions() {
    assert_eq!(DataError::NetworkError.describe(), "network error");
    assert_eq!(DataError::ParseError.describe(), "parse error");
    assert_eq!(DataError::SchemaError.describe(), "schema error");
    assert_eq!(DataError::ValueError.describe(), "value error");
    assert_eq!(DataError::IoError.describe(), "i/o error");
}
