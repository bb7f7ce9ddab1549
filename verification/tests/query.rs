use minihouse::aggregate::AggKind;
use minihouse::block::Block;
use minihouse::column::Column;
use minihouse::data_type::DataType;
use minihouse::query::{
    aggregate_column_type, aggregate_input, check_filter, cmp_loop, eval_predicate, projection,
    CmpOp, FilterCheck, SimpleQuery,
};
use minihouse::schema::Schema;
use minihouse::string_column::StringColumn;
use minihouse::value::Value;

fn strings(values: &[&str]) -> Column {
    let mut c = StringColumn::new();
    for v in values {
        c.push(v);
    }
    Column::String(c)
}

fn sample_block() -> Block {
    Block::new(
        vec![
            ("id".to_string(), Column::Int64(vec![1, 2, 3, 4])),
            ("url".to_string(), strings(&["/a", "/b", "/a", "/c"])),
            (
                "score".to_string(),
                Column::Float64([1.5f64, 2.5, 3.5, 4.5].iter().map(|v| v.to_bits()).collect()),
            ),
        ],
        4,
    )
}

#[test]
fn integer_predicates_compare_each_row_with_the_literal() {
    let col = Column::Int64(vec![5, 1, 3, 3]);
    assert_eq!(
        eval_predicate(&col, CmpOp::Gt, &Value::Int64(2)),
        vec![true, false, true, true]
    );
    assert_eq!(
        eval_predicate(&col, CmpOp::Lt, &Value::Int64(3)),
        vec![false, true, false, false]
    );
    assert_eq!(
        eval_predicate(&col, CmpOp::Eq, &Value::Int64(3)),
        vec![false, false, true, true]
    );
}

#[test]
fn string_equality_compares_bytes_exactly() {
    let col = strings(&["/a", "/A", "", "/a "]);
    assert_eq!(
        eval_predicate(&col, CmpOp::Eq, &Value::String("/a".to_string())),
        vec![true, false, false, false]
    );
    assert_eq!(
        eval_predicate(&col, CmpOp::Eq, &Value::String(String::new())),
        vec![false, false, true, false]
    );
}

#[test]
fn a_predicate_over_an_empty_column_is_empty() {
    assert!(eval_predicate(&Column::Int64(vec![]), CmpOp::Gt, &Value::Int64(0)).is_empty());
}

#[test]
fn cmp_loop_applies_the_comparison_to_every_element() {
    assert_eq!(
        cmp_loop(&[1i64, 9, 4], |a: &i64| *a > 3),
        vec![false, true, true]
    );
}

#[test]
fn projection_reads_the_aggregate_column_then_a_distinct_filter_column() {
    let q = SimpleQuery {
        filter: Some(("id", CmpOp::Gt, Value::Int64(1))),
        aggregate: ("score", AggKind::Sum),
    };
    assert_eq!(projection(&q), vec!["score", "id"]);

    let q = SimpleQuery {
        filter: Some(("id", CmpOp::Gt, Value::Int64(1))),
        aggregate: ("id", AggKind::Count),
    };
    assert_eq!(projection(&q), vec!["id"]);

    let q = SimpleQuery {
        filter: None,
        aggregate: ("url", AggKind::Count),
    };
    assert_eq!(projection(&q), vec!["url"]);
}

#[test]
fn the_aggregate_column_must_exist() {
    let schema = Schema::new(vec![
        ("id".to_string(), DataType::Int64),
        ("score".to_string(), DataType::Float64),
    ])
    .unwrap();
    let q = SimpleQuery {
        filter: None,
        aggregate: ("score", AggKind::Max),
    };
    assert_eq!(aggregate_column_type(&schema, &q).unwrap(), DataType::Float64);

    let q = SimpleQuery {
        filter: None,
        aggregate: ("nope", AggKind::Max),
    };
    assert_eq!(
        aggregate_column_type(&schema, &q).unwrap_err().to_string(),
        "column 'nope' not found"
    );
}

#[test]
fn aggregate_input_keeps_the_rows_that_pass_the_filter() {
    let block = sample_block();
    let q = SimpleQuery {
        filter: Some(("id", CmpOp::Gt, Value::Int64(2))),
        aggregate: ("url", AggKind::Count),
    };
    assert_eq!(aggregate_input(&block, &q), strings(&["/a", "/c"]));

    let q = SimpleQuery {
        filter: Some(("url", CmpOp::Eq, Value::String("/a".to_string()))),
        aggregate: ("id", AggKind::Sum),
    };
    assert_eq!(aggregate_input(&block, &q), Column::Int64(vec![1, 3]));
}

#[test]
fn aggregate_input_without_a_filter_is_the_whole_column() {
    let block = sample_block();
    let q = SimpleQuery {
        filter: None,
        aggregate: ("id", AggKind::Sum),
    };
    assert_eq!(aggregate_input(&block, &q), Column::Int64(vec![1, 2, 3, 4]));
}

#[test]
fn a_filter_on_the_aggregate_column_itself_filters_it() {
    let block = sample_block();
    let q = SimpleQuery {
        filter: Some(("id", CmpOp::Lt, Value::Int64(3))),
        aggregate: ("id", AggKind::Max),
    };
    assert_eq!(aggregate_input(&block, &q), Column::Int64(vec![1, 2]));
}

#[test]
fn filters_are_checked_type_first_then_operator_then_floats() {
    assert_eq!(check_filter(DataType::Int64, CmpOp::Gt, &Value::Int64(1)), FilterCheck::Evaluable);
    assert_eq!(
        check_filter(DataType::String, CmpOp::Eq, &Value::String("a".to_string())),
        FilterCheck::Evaluable
    );
    assert_eq!(
        check_filter(DataType::Int64, CmpOp::Eq, &Value::String("a".to_string())),
        FilterCheck::TypeMismatch
    );
    assert_eq!(
        check_filter(DataType::String, CmpOp::Lt, &Value::Int64(3)),
        FilterCheck::TypeMismatch
    );
    assert_eq!(
        check_filter(DataType::String, CmpOp::Lt, &Value::String("a".to_string())),
        FilterCheck::UnsupportedStringOp
    );
    assert_eq!(
        check_filter(DataType::Float64, CmpOp::Gt, &Value::Float64(1.5f64.to_bits())),
        FilterCheck::FloatCompare
    );
}
