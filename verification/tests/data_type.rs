use minihouse::data_type::DataType;

const ALL: [DataType; 3] = [DataType::Int64, DataType::Float64, DataType::String];

fn err(s: &str) -> String {
    s.parse::<DataType>().unwrap_err()
}

#[test]
fn as_str_matches_on_disk_schema_tokens() {
    assert_eq!(DataType::Int64.as_str(), "Int64");
    assert_eq!(DataType::Float64.as_str(), "Float64");
    assert_eq!(DataType::String.as_str(), "String");
}

#[test]
fn from_str_parses_every_on_disk_schema_token() {
    assert_eq!("Int64".parse::<DataType>().unwrap(), DataType::Int64);
    assert_eq!("Float64".parse::<DataType>().unwrap(), DataType::Float64);
    assert_eq!("String".parse::<DataType>().unwrap(), DataType::String);
}

#[test]
fn from_str_rejects_an_unknown_token() {
    assert_eq!(err("Int32"), "invalid data type: Int32");
}

#[test]
fn from_str_rejects_the_empty_string() {
    assert_eq!(err(""), "invalid data type: ");
}

#[test]
fn from_str_is_case_sensitive() {
    for s in ["int64", "INT64", "float64", "string", "STRING"] {
        assert_eq!(err(s), format!("invalid data type: {s}"));
    }
}

#[test]
fn from_str_rejects_surrounding_whitespace() {
    for s in [" Int64", "Int64 ", "\tInt64", "Int64\n"] {
        assert!(s.parse::<DataType>().is_err(), "{s:?} should not parse");
    }
}

#[test]
fn every_data_type_round_trips_through_as_str() {
    for dt in ALL {
        assert_eq!(dt.as_str().parse::<DataType>().unwrap(), dt);
    }
}

#[test]
fn data_types_have_distinct_on_disk_tokens() {
    let mut tokens: Vec<&str> = ALL.iter().map(|dt| dt.as_str()).collect();
    tokens.sort_unstable();
    let count = tokens.len();
    tokens.dedup();

    assert_eq!(tokens.len(), count, "duplicate token in {tokens:?}");
}

#[test]
fn parse_token_reports_the_token_it_rejects() {
    assert_eq!(DataType::parse_token("Int64"), Ok(DataType::Int64));
    assert_eq!(
        DataType::parse_token("Str"),
        Err("invalid data type: Str".to_string())
    );
}
