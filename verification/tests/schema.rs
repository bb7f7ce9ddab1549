use minihouse::data_type::DataType;
use minihouse::schema::{Schema, SchemaError};

fn col(name: &str, dt: DataType) -> (String, DataType) {
    (name.to_string(), dt)
}

fn sample() -> Schema {
    Schema::new(vec![
        col("id", DataType::Int64),
        col("name", DataType::String),
        col("score", DataType::Float64),
    ])
    .unwrap()
}

fn err(columns: Vec<(String, DataType)>) -> SchemaError {
    Schema::new(columns).unwrap_err()
}

fn names(schema: &Schema) -> Vec<&str> {
    schema.iter().map(|(n, _)| n.as_str()).collect()
}

#[test]
fn new_accepts_a_single_column() {
    let schema = Schema::new(vec![col("id", DataType::Int64)]).unwrap();

    assert_eq!(schema.len(), 1);
    assert_eq!(*schema.index(0), col("id", DataType::Int64));
}

#[test]
fn new_accepts_several_distinct_columns() {
    assert_eq!(sample().len(), 3);
}

#[test]
fn new_preserves_declaration_order() {
    let schema = Schema::new(vec![
        col("zulu", DataType::Float64),
        col("alpha", DataType::String),
        col("mike", DataType::Int64),
    ])
    .unwrap();

    assert_eq!(names(&schema), ["zulu", "alpha", "mike"]);
    assert_eq!(schema.index(0).1, DataType::Float64);
    assert_eq!(schema.index(1).1, DataType::String);
    assert_eq!(schema.index(2).1, DataType::Int64);
}

#[test]
fn new_treats_column_names_case_sensitively() {
    let schema =
        Schema::new(vec![col("id", DataType::Int64), col("ID", DataType::Int64)]).unwrap();

    assert_eq!(names(&schema), ["id", "ID"]);
}

#[test]
fn new_does_not_trim_column_names() {
    assert!(Schema::new(vec![col(" ", DataType::Int64)]).is_ok());

    let schema = Schema::new(vec![
        col("id", DataType::Int64),
        col(" id", DataType::Int64),
    ])
    .unwrap();

    assert_eq!(names(&schema), ["id", " id"]);
}

#[test]
fn new_accepts_names_containing_schema_file_delimiters() {
    let schema = Schema::new(vec![
        col("a=b", DataType::Int64),
        col("c:d", DataType::String),
    ])
    .unwrap();

    assert_eq!(names(&schema), ["a=b", "c:d"]);
}

#[test]
fn new_rejects_an_empty_schema() {
    let e = err(vec![]);

    assert!(matches!(e, SchemaError::Empty), "{e:?}");
    assert_eq!(e.to_string(), "schema is empty");
}

#[test]
fn new_rejects_an_empty_name_in_the_first_column() {
    let e = err(vec![col("", DataType::Int64)]);

    assert!(matches!(e, SchemaError::EmptyColumnName), "{e:?}");
    assert_eq!(e.to_string(), "column name is empty");
}

#[test]
fn new_rejects_an_empty_name_in_a_later_column() {
    let e = err(vec![
        col("id", DataType::Int64),
        col("name", DataType::String),
        col("", DataType::Float64),
    ]);

    assert!(matches!(e, SchemaError::EmptyColumnName), "{e:?}");
}

#[test]
fn new_rejects_a_duplicate_column_name() {
    let e = err(vec![col("id", DataType::Int64), col("id", DataType::Int64)]);

    assert!(
        matches!(e, SchemaError::DuplicateColumnName(ref n) if n == "id"),
        "{e:?}"
    );
    assert_eq!(e.to_string(), "duplicate column name 'id'");
}

#[test]
fn new_rejects_a_duplicate_name_with_a_different_type() {
    let e = err(vec![
        col("id", DataType::Int64),
        col("id", DataType::String),
    ]);

    assert!(
        matches!(e, SchemaError::DuplicateColumnName(ref n) if n == "id"),
        "{e:?}"
    );
}

#[test]
fn new_rejects_a_non_adjacent_duplicate() {
    let e = err(vec![
        col("id", DataType::Int64),
        col("name", DataType::String),
        col("id", DataType::Float64),
    ]);

    assert!(
        matches!(e, SchemaError::DuplicateColumnName(ref n) if n == "id"),
        "{e:?}"
    );
}

#[test]
fn new_reports_the_first_duplicate_when_several_names_repeat() {
    let e = err(vec![
        col("id", DataType::Int64),
        col("name", DataType::String),
        col("id", DataType::Float64),
        col("name", DataType::Int64),
    ]);

    assert_eq!(e.to_string(), "duplicate column name 'id'");
}

#[test]
fn new_reports_an_empty_name_before_a_later_duplicate() {
    let e = err(vec![
        col("a", DataType::Int64),
        col("", DataType::Int64),
        col("a", DataType::Int64),
    ]);

    assert!(matches!(e, SchemaError::EmptyColumnName), "{e:?}");
}

#[test]
fn iter_yields_every_column_in_declaration_order() {
    let schema = sample();

    let columns: Vec<&(String, DataType)> = schema.iter().collect();

    assert_eq!(
        columns,
        [
            &col("id", DataType::Int64),
            &col("name", DataType::String),
            &col("score", DataType::Float64),
        ]
    );
}

#[test]
fn iter_borrows_and_can_be_called_repeatedly() {
    let schema = sample();

    assert_eq!(schema.iter().count(), schema.len());
    assert_eq!(schema.iter().count(), schema.len());
    assert_eq!(names(&schema), ["id", "name", "score"]);
}

#[test]
fn len_matches_the_number_of_declared_columns() {
    assert_eq!(
        Schema::new(vec![col("id", DataType::Int64)]).unwrap().len(),
        1
    );
    assert_eq!(sample().len(), 3);
}

#[test]
fn index_returns_each_column_and_agrees_with_iter() {
    let schema = sample();

    for (i, column) in schema.iter().enumerate() {
        assert_eq!(schema.index(i), column);
    }
}

#[test]
fn clone_equals_the_original() {
    let schema = sample();

    assert_eq!(schema.clone(), schema);
}

#[test]
fn schemas_differing_only_in_column_order_are_not_equal() {
    let a = Schema::new(vec![
        col("id", DataType::Int64),
        col("name", DataType::String),
    ])
    .unwrap();
    let b = Schema::new(vec![
        col("name", DataType::String),
        col("id", DataType::Int64),
    ])
    .unwrap();

    assert_ne!(a, b);
}

#[test]
fn schemas_differing_only_in_a_column_type_are_not_equal() {
    let a = Schema::new(vec![col("id", DataType::Int64)]).unwrap();
    let b = Schema::new(vec![col("id", DataType::Float64)]).unwrap();

    assert_ne!(a, b);
}

#[test]
fn columns_exposes_the_declarations_in_order() {
    let schema = sample();
    assert_eq!(
        schema.columns(),
        &[
            col("id", DataType::Int64),
            col("name", DataType::String),
            col("score", DataType::Float64),
        ][..]
    );
}
