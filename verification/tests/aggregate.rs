use minihouse::aggregate::{plan_aggregate, AggKind, AggPlan, Count, MaxI64, MinI64, SumI64};
use minihouse::column::Column;
use minihouse::data_type::DataType;
use minihouse::string_column::StringColumn;
use minihouse::value::Value;

fn floats(values: &[f64]) -> Column {
    Column::Float64(values.iter().map(|v| v.to_bits()).collect())
}

fn strings(values: &[&str]) -> Column {
    let mut c = StringColumn::new();
    for v in values {
        c.push(v);
    }
    Column::String(c)
}

#[test]
fn count_default_result_is_zero() {
    let count = Count::default();
    assert_eq!(count.result(), Some(Value::Int64(0)));
}

#[test]
fn count_update_int64_column_adds_len() {
    let mut count = Count::default();
    count.update(&Column::Int64(vec![1, 2, 3]));
    assert_eq!(count.result(), Some(Value::Int64(3)));
}

#[test]
fn count_update_float64_column_adds_len() {
    let mut count = Count::default();
    count.update(&floats(&[1.0, 2.0]));
    assert_eq!(count.result(), Some(Value::Int64(2)));
}

#[test]
fn count_update_string_column_adds_len() {
    let mut count = Count::default();
    count.update(&strings(&[
        "a",
        "b",
        "c",
        "d",
    ]));
    assert_eq!(count.result(), Some(Value::Int64(4)));
}

#[test]
fn count_update_accumulates_across_multiple_calls() {
    let mut count = Count::default();
    count.update(&Column::Int64(vec![1, 2, 3]));
    count.update(&Column::Int64(vec![4, 5]));
    assert_eq!(count.result(), Some(Value::Int64(5)));
}

#[test]
fn count_update_with_empty_column_is_noop() {
    let mut count = Count::default();
    count.update(&Column::Int64(vec![1, 2]));
    count.update(&Column::new(DataType::Int64));
    assert_eq!(count.result(), Some(Value::Int64(2)));
}

#[test]
fn count_result_is_idempotent_without_update() {
    let mut count = Count::default();
    count.update(&Column::Int64(vec![1, 2, 3]));
    assert_eq!(count.result(), Some(Value::Int64(3)));
    assert_eq!(count.result(), Some(Value::Int64(3)));
}

#[test]
fn aggregate_sum_i64_default_result_is_zero() {
    let sum = SumI64::default();
    assert_eq!(sum.result(), Some(Value::Int64(0)));
}

#[test]
fn aggregate_sum_i64_update_int64_column_computes_sum() {
    let mut sum = SumI64::default();
    sum.update(&Column::Int64(vec![1, 2, 3]));
    assert_eq!(sum.result(), Some(Value::Int64(6)));
}

#[test]
fn aggregate_sum_i64_update_accumulates_across_multiple_calls() {
    let mut sum = SumI64::default();
    sum.update(&Column::Int64(vec![1, 2, 3]));
    sum.update(&Column::Int64(vec![4, 5]));
    assert_eq!(sum.result(), Some(Value::Int64(15)));
}

#[test]
fn aggregate_sum_i64_update_with_negative_numbers() {
    let mut sum = SumI64::default();
    sum.update(&Column::Int64(vec![10, -3, -2]));
    assert_eq!(sum.result(), Some(Value::Int64(5)));
}

#[test]
fn aggregate_sum_i64_update_with_empty_column_is_noop() {
    let mut sum = SumI64::default();
    sum.update(&Column::Int64(vec![1, 2]));
    sum.update(&Column::new(DataType::Int64));
    assert_eq!(sum.result(), Some(Value::Int64(3)));
}

#[test]
fn aggregate_sum_i64_result_is_idempotent_without_update() {
    let mut sum = SumI64::default();
    sum.update(&Column::Int64(vec![1, 2, 3]));
    assert_eq!(sum.result(), Some(Value::Int64(6)));
    assert_eq!(sum.result(), Some(Value::Int64(6)));
}

#[test]
fn aggregate_min_i64_default_result_is_none() {
    let min = MinI64::default();
    assert_eq!(min.result(), None);
}

#[test]
fn aggregate_min_i64_update_single_column_computes_min() {
    let mut min = MinI64::default();
    min.update(&Column::Int64(vec![3, 1, 2]));
    assert_eq!(min.result(), Some(Value::Int64(1)));
}

#[test]
fn aggregate_min_i64_update_accumulates_across_multiple_calls() {
    let mut min = MinI64::default();
    min.update(&Column::Int64(vec![5, 3]));
    min.update(&Column::Int64(vec![4, 1, 9]));
    assert_eq!(min.result(), Some(Value::Int64(1)));
}

#[test]
fn aggregate_min_i64_update_with_negative_numbers() {
    let mut min = MinI64::default();
    min.update(&Column::Int64(vec![10, -3, -2]));
    assert_eq!(min.result(), Some(Value::Int64(-3)));
}

#[test]
fn aggregate_min_i64_update_with_empty_column_is_noop() {
    let mut min = MinI64::default();
    min.update(&Column::Int64(vec![5, 2]));
    min.update(&Column::new(DataType::Int64));
    assert_eq!(min.result(), Some(Value::Int64(2)));
}

#[test]
fn aggregate_min_i64_update_empty_column_before_data_is_none_then_updates() {
    let mut min = MinI64::default();
    min.update(&Column::new(DataType::Int64));
    assert_eq!(min.result(), None);
    min.update(&Column::Int64(vec![7, 2, 9]));
    assert_eq!(min.result(), Some(Value::Int64(2)));
}

#[test]
fn aggregate_min_i64_result_is_idempotent_without_update() {
    let mut min = MinI64::default();
    min.update(&Column::Int64(vec![3, 1, 2]));
    assert_eq!(min.result(), Some(Value::Int64(1)));
    assert_eq!(min.result(), Some(Value::Int64(1)));
}

#[test]
fn aggregate_max_i64_default_result_is_none() {
    let max = MaxI64::default();
    assert_eq!(max.result(), None);
}

#[test]
fn aggregate_max_i64_update_single_column_computes_max() {
    let mut max = MaxI64::default();
    max.update(&Column::Int64(vec![3, 1, 2]));
    assert_eq!(max.result(), Some(Value::Int64(3)));
}

#[test]
fn aggregate_max_i64_update_accumulates_across_multiple_calls() {
    let mut max = MaxI64::default();
    max.update(&Column::Int64(vec![5, 3]));
    max.update(&Column::Int64(vec![4, 9, 1]));
    assert_eq!(max.result(), Some(Value::Int64(9)));
}

#[test]
fn aggregate_max_i64_update_with_negative_numbers() {
    let mut max = MaxI64::default();
    max.update(&Column::Int64(vec![-10, -3, -2]));
    assert_eq!(max.result(), Some(Value::Int64(-2)));
}

#[test]
fn aggregate_max_i64_update_with_empty_column_is_noop() {
    let mut max = MaxI64::default();
    max.update(&Column::Int64(vec![5, 2]));
    max.update(&Column::new(DataType::Int64));
    assert_eq!(max.result(), Some(Value::Int64(5)));
}

#[test]
fn aggregate_max_i64_update_empty_column_before_data_is_none_then_updates() {
    let mut max = MaxI64::default();
    max.update(&Column::new(DataType::Int64));
    assert_eq!(max.result(), None);
    max.update(&Column::Int64(vec![7, 2, 9]));
    assert_eq!(max.result(), Some(Value::Int64(9)));
}

#[test]
fn aggregate_max_i64_result_is_idempotent_without_update() {
    let mut max = MaxI64::default();
    max.update(&Column::Int64(vec![3, 1, 2]));
    assert_eq!(max.result(), Some(Value::Int64(3)));
    assert_eq!(max.result(), Some(Value::Int64(3)));
}

#[test]
fn max_i64_max_i64_default_result_is_none() {
    let max = MaxI64::default();
    assert_eq!(max.result(), None);
}

#[test]
fn max_i64_max_i64_update_single_column_computes_max() {
    let mut max = MaxI64::default();
    max.update(&Column::Int64(vec![3, 1, 2]));
    assert_eq!(max.result(), Some(Value::Int64(3)));
}

#[test]
fn max_i64_max_i64_update_accumulates_across_multiple_calls() {
    let mut max = MaxI64::default();
    max.update(&Column::Int64(vec![5, 3]));
    max.update(&Column::Int64(vec![4, 9, 1]));
    assert_eq!(max.result(), Some(Value::Int64(9)));
}

#[test]
fn max_i64_max_i64_update_with_negative_numbers() {
    let mut max = MaxI64::default();
    max.update(&Column::Int64(vec![-10, -3, -2]));
    assert_eq!(max.result(), Some(Value::Int64(-2)));
}

#[test]
fn max_i64_max_i64_update_with_empty_column_is_noop() {
    let mut max = MaxI64::default();
    max.update(&Column::Int64(vec![5, 2]));
    max.update(&Column::new(DataType::Int64));
    assert_eq!(max.result(), Some(Value::Int64(5)));
}

#[test]
fn max_i64_max_i64_update_empty_column_before_data_is_none_then_updates() {
    let mut max = MaxI64::default();
    max.update(&Column::new(DataType::Int64));
    assert_eq!(max.result(), None);
    max.update(&Column::Int64(vec![7, 2, 9]));
    assert_eq!(max.result(), Some(Value::Int64(9)));
}

#[test]
fn max_i64_max_i64_result_is_idempotent_without_update() {
    let mut max = MaxI64::default();
    max.update(&Column::Int64(vec![3, 1, 2]));
    assert_eq!(max.result(), Some(Value::Int64(3)));
    assert_eq!(max.result(), Some(Value::Int64(3)));
}

#[test]
fn min_i64_min_i64_default_result_is_none() {
    let min = MinI64::default();
    assert_eq!(min.result(), None);
}

#[test]
fn min_i64_min_i64_update_single_column_computes_min() {
    let mut min = MinI64::default();
    min.update(&Column::Int64(vec![3, 1, 2]));
    assert_eq!(min.result(), Some(Value::Int64(1)));
}

#[test]
fn min_i64_min_i64_update_accumulates_across_multiple_calls() {
    let mut min = MinI64::default();
    min.update(&Column::Int64(vec![5, 3]));
    min.update(&Column::Int64(vec![4, 1, 9]));
    assert_eq!(min.result(), Some(Value::Int64(1)));
}

#[test]
fn min_i64_min_i64_update_with_negative_numbers() {
    let mut min = MinI64::default();
    min.update(&Column::Int64(vec![10, -3, -2]));
    assert_eq!(min.result(), Some(Value::Int64(-3)));
}

#[test]
fn min_i64_min_i64_update_with_empty_column_is_noop() {
    let mut min = MinI64::default();
    min.update(&Column::Int64(vec![5, 2]));
    min.update(&Column::new(DataType::Int64));
    assert_eq!(min.result(), Some(Value::Int64(2)));
}

#[test]
fn min_i64_min_i64_update_empty_column_before_data_is_none_then_updates() {
    let mut min = MinI64::default();
    min.update(&Column::new(DataType::Int64));
    assert_eq!(min.result(), None);
    min.update(&Column::Int64(vec![7, 2, 9]));
    assert_eq!(min.result(), Some(Value::Int64(2)));
}

#[test]
fn min_i64_min_i64_result_is_idempotent_without_update() {
    let mut min = MinI64::default();
    min.update(&Column::Int64(vec![3, 1, 2]));
    assert_eq!(min.result(), Some(Value::Int64(1)));
    assert_eq!(min.result(), Some(Value::Int64(1)));
}

#[test]
fn sum_i64_sum_i64_default_result_is_zero() {
    let sum = SumI64::default();
    assert_eq!(sum.result(), Some(Value::Int64(0)));
}

#[test]
fn sum_i64_sum_i64_update_int64_column_computes_sum() {
    let mut sum = SumI64::default();
    sum.update(&Column::Int64(vec![1, 2, 3]));
    assert_eq!(sum.result(), Some(Value::Int64(6)));
}

#[test]
fn sum_i64_sum_i64_update_accumulates_across_multiple_calls() {
    let mut sum = SumI64::default();
    sum.update(&Column::Int64(vec![1, 2, 3]));
    sum.update(&Column::Int64(vec![4, 5]));
    assert_eq!(sum.result(), Some(Value::Int64(15)));
}

#[test]
fn sum_i64_sum_i64_update_with_negative_numbers() {
    let mut sum = SumI64::default();
    sum.update(&Column::Int64(vec![10, -3, -2]));
    assert_eq!(sum.result(), Some(Value::Int64(5)));
}

#[test]
fn sum_i64_sum_i64_update_with_empty_column_is_noop() {
    let mut sum = SumI64::default();
    sum.update(&Column::Int64(vec![1, 2]));
    sum.update(&Column::new(DataType::Int64));
    assert_eq!(sum.result(), Some(Value::Int64(3)));
}

#[test]
fn sum_i64_sum_i64_result_is_idempotent_without_update() {
    let mut sum = SumI64::default();
    sum.update(&Column::Int64(vec![1, 2, 3]));
    assert_eq!(sum.result(), Some(Value::Int64(6)));
    assert_eq!(sum.result(), Some(Value::Int64(6)));
}

#[test]
fn plan_aggregate_picks_the_aggregator_for_each_kind_and_type() {
    assert_eq!(plan_aggregate(AggKind::Count, DataType::String), AggPlan::Count);
    assert_eq!(plan_aggregate(AggKind::Count, DataType::Float64), AggPlan::Count);
    assert_eq!(plan_aggregate(AggKind::Sum, DataType::Int64), AggPlan::SumI64);
    assert_eq!(plan_aggregate(AggKind::Sum, DataType::Float64), AggPlan::SumF64);
    assert_eq!(plan_aggregate(AggKind::Min, DataType::Int64), AggPlan::MinI64);
    assert_eq!(plan_aggregate(AggKind::Min, DataType::Float64), AggPlan::MinF64);
    assert_eq!(plan_aggregate(AggKind::Max, DataType::Int64), AggPlan::MaxI64);
    assert_eq!(plan_aggregate(AggKind::Max, DataType::Float64), AggPlan::MaxF64);
}

#[test]
fn sum_i64_reports_overflow_and_keeps_its_sum() {
    let mut sum = SumI64::new();
    assert!(sum.update(&Column::Int64(vec![5])));
    assert!(!sum.update(&Column::Int64(vec![i64::MAX, 1])));
    assert_eq!(sum.result(), Some(Value::Int64(5)));
}

#[test]
fn sum_i64_tolerates_a_partial_sum_that_comes_back_into_range() {
    let mut sum = SumI64::new();
    assert!(sum.update(&Column::Int64(vec![i64::MAX, -1, 1])));
    assert_eq!(sum.result(), Some(Value::Int64(i64::MAX)));
}

#[test]
fn folding_block_by_block_equals_folding_everything_at_once() {
    let all = vec![4, -7, 12, 0, 3, -2];
    let mut sum_all = SumI64::new();
    let mut min_all = MinI64::new();
    let mut max_all = MaxI64::new();
    sum_all.update(&Column::Int64(all.clone()));
    min_all.update(&Column::Int64(all.clone()));
    max_all.update(&Column::Int64(all.clone()));

    let mut sum_parts = SumI64::new();
    let mut min_parts = MinI64::new();
    let mut max_parts = MaxI64::new();
    for part in [&all[..2], &all[2..2], &all[2..5], &all[5..]] {
        sum_parts.update(&Column::Int64(part.to_vec()));
        min_parts.update(&Column::Int64(part.to_vec()));
        max_parts.update(&Column::Int64(part.to_vec()));
    }
    assert_eq!(sum_parts.result(), sum_all.result());
    assert_eq!(min_parts.result(), min_all.result());
    assert_eq!(max_parts.result(), max_all.result());
    assert_eq!(sum_all.result(), Some(Value::Int64(10)));
    assert_eq!(min_all.result(), Some(Value::Int64(-7)));
    assert_eq!(max_all.result(), Some(Value::Int64(12)));
}

#[test]
fn count_reports_the_rows_counted() {
    let mut count = Count::new();
    count.update(&Column::Int64(vec![1, 2]));
    count.update(&strings(&["a"]));
    assert_eq!(count.count(), 3);
}
