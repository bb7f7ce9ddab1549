//! The element types a column can hold, and their tokens in schema files.
use crate::text::{push_str, str_is, string_of};
use vstd::prelude::*;

verus! {

/// The element type of a column.
#[derive(Debug, Clone, Copy, PartialEq, Eq, Structural)]
pub enum DataType {
    Int64,
    Float64,
    String,
}

impl DataType {
    /// The token that names this type in a schema file.
    pub open spec fn token(self) -> Seq<char> {
        match self {
            DataType::Int64 => "Int64"@,
            DataType::Float64 => "Float64"@,
            DataType::String => "String"@,
        }
    }

    /// The type whose token is exactly `cs`, if any.
    pub open spec fn from_token(cs: Seq<char>) -> Option<DataType> {
        if cs == DataType::Int64.token() {
            Some(DataType::Int64)
        } else if cs == DataType::Float64.token() {
            Some(DataType::Float64)
        } else if cs == DataType::String.token() {
            Some(DataType::String)
        } else {
            None
        }
    }

    /// The token of this type as written in schema files.
    pub fn as_str(&self) -> (r: &'static str)
        ensures
            r@ == self.token(),
    {
        match self {
            DataType::Int64 => "Int64",
            DataType::Float64 => "Float64",
            DataType::String => "String",
        }
    }

    /// Reads a type token. The match is exact: case and surrounding
    /// whitespace count. An unknown token is reported as
    /// `invalid data type: <token>`.
    pub fn parse_token(s: &str) -> (r: Result<DataType, String>)
        ensures
            match r {
                Ok(dt) => DataType::from_token(s@) == Some(dt),
                Err(msg) => DataType::from_token(s@) is None && msg@ == "invalid data type: "@
                    + s@,
            },
    {
        if str_is(s, "Int64") {
            Ok(DataType::Int64)
        } else if str_is(s, "Float64") {
            Ok(DataType::Float64)
        } else if str_is(s, "String") {
            Ok(DataType::String)
        } else {
            let mut msg = string_of("invalid data type: ");
            push_str(&mut msg, s);
            Err(msg)
        }
    }
}

impl std::str::FromStr for DataType {
    type Err = String;

    fn from_str(s: &str) -> (r: Result<Self, Self::Err>)
        ensures
            match r {
                Ok(dt) => DataType::from_token(s@) == Some(dt),
                Err(msg) => DataType::from_token(s@) is None && msg@ == "invalid data type: "@
                    + s@,
            },
    {
        DataType::parse_token(s)
    }
}

/// The three tokens are pairwise distinct.
pub proof fn lemma_tokens_distinct()
    ensures
        DataType::Int64.token() != DataType::Float64.token(),
        DataType::Int64.token() != DataType::String.token(),
        DataType::Float64.token() != DataType::String.token(),
{
    reveal_strlit("Int64");
    reveal_strlit("Float64");
    reveal_strlit("String");
    assert(DataType::Int64.token().len() != DataType::Float64.token().len());
    assert(DataType::Float64.token().len() != DataType::String.token().len());
    assert(DataType::Int64.token()[0] != DataType::String.token()[0]);
}

/// Reading back the token that `as_str` writes gives the same type: every
/// type round-trips through its schema-file token.
/// A type token is a nonempty run of letters and digits.
pub proof fn lemma_token_plain(dt: DataType)
    ensures
        dt.token().len() > 0,
        forall|i: int|
            0 <= i < dt.token().len() ==> (#[trigger] dt.token()[i] != ':') && dt.token()[i] != '\n'
                && dt.token()[i] != '\r',
{
    reveal_strlit("Int64");
    reveal_strlit("Float64");
    reveal_strlit("String");
}

pub proof fn lemma_token_round_trip(dt: DataType)
    ensures
        DataType::from_token(dt.token()) == Some(dt),
{
    lemma_tokens_distinct();
}

} // verus!
