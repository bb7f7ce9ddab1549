use minihouse::data_type::DataType;
use minihouse::value::Value;

#[test]
fn value_data_type_matches_variant() {
    assert_eq!(Value::Int64(1).data_type(), DataType::Int64);
    assert_eq!(Value::Float64(1.0f64.to_bits()).data_type(), DataType::Float64);
    assert_eq!(Value::String("a".into()).data_type(), DataType::String);
}
