//! Error types of the storage layer and their rendered messages.
use crate::data_type::DataType;
use crate::text::{decimal, push_decimal, push_str, string_of};
use vstd::prelude::*;

verus! {

/// The operating-system error type, carried through unchanged.
#[verifier::external_type_specification]
#[verifier::external_body]
pub struct ExIoError(std::io::Error);

/// A filesystem path, carried through unchanged.
#[verifier::external_type_specification]
#[verifier::external_body]
pub struct ExPathBuf(std::path::PathBuf);

/// The text of an operating-system error (`io::Error`'s `Display`). What the
/// text says depends on the platform, so no clause is stated about it.
#[verifier::external_body]
fn io_error_text(e: &std::io::Error) -> String {
    e.to_string()
}

/// The text of a path (`Path::display`). How a path is rendered depends on
/// the platform, so no clause is stated about it.
#[verifier::external_body]
fn path_text(p: &std::path::PathBuf) -> String {
    p.display().to_string()
}

/// An error while framing or unframing one block.
#[derive(Debug)]
pub enum CodecError {
    Io(std::io::Error),
    Corrupt(String),
}

impl CodecError {
    /// The message of a corruption error, if this is one.
    pub open spec fn corrupt_message(self) -> Option<Seq<char>> {
        match self {
            CodecError::Corrupt(m) => Some(m@),
            _ => None,
        }
    }

    /// The rendered message: `corrupt block: <detail>` for a corruption,
    /// `io error: <os text>` otherwise.
    pub fn to_string(&self) -> (r: String)
        ensures
            self.corrupt_message() matches Some(m) ==> r@ == "corrupt block: "@ + m,
            self is Io ==> exists|t: Seq<char>| r@ == "io error: "@ + t,
    {
        match self {
            CodecError::Io(e) => {
                let mut s = string_of("io error: ");
                let t = io_error_text(e);
                push_str(&mut s, t.as_str());
                assert(s@ == "io error: "@ + t@);
                s
            },
            CodecError::Corrupt(m) => {
                let mut s = string_of("corrupt block: ");
                push_str(&mut s, m.as_str());
                s
            },
        }
    }
}

/// An error of the table, part and query layers.
#[derive(Debug)]
pub enum StorageError {
    NotFound(std::path::PathBuf),
    UnsupportedVersion { found: String, expected: u32 },
    Corrupt(String),
    ColumnNotFound(String),
    AlreadyExists(std::path::PathBuf),
    Codec(CodecError),
    Io(std::io::Error),
    InvalidSortKey { key: String, got: DataType },
}

impl StorageError {
    /// The message of a corruption error, if this is one.
    pub open spec fn corrupt_message(self) -> Option<Seq<char>> {
        match self {
            StorageError::Corrupt(m) => Some(m@),
            _ => None,
        }
    }

    /// The rendered message of the error, for every variant whose text does
    /// not come from the operating system.
    pub open spec fn message(self) -> Option<Seq<char>> {
        match self {
            StorageError::UnsupportedVersion { found, expected } => Some(
                "unsupported format version "@ + found@ + ", expected "@ + decimal(expected as nat),
            ),
            StorageError::Corrupt(m) => Some("corrupt: "@ + m@),
            StorageError::ColumnNotFound(n) => Some("column '"@ + n@ + "' not found"@),
            StorageError::Codec(e) => match e {
                CodecError::Corrupt(m) => Some("corrupt block: "@ + m@),
                _ => None,
            },
            StorageError::InvalidSortKey { key, got } => Some(
                "sort key '"@ + key@ + "' must be Int64, got "@ + got.token(),
            ),
            _ => None,
        }
    }

    /// The rendered message of the error.
    pub fn to_string(&self) -> (r: String)
        ensures
            self.message() matches Some(m) ==> r@ == m,
            self is NotFound ==> exists|t: Seq<char>| r@ == "not found: "@ + t,
            self is AlreadyExists ==> exists|t: Seq<char>| r@ == "already exists: "@ + t,
            self is Io ==> exists|t: Seq<char>| r@ == "io error: "@ + t,
            self matches StorageError::Codec(e) && e is Io ==> exists|t: Seq<char>| r@
                == "io error: "@ + t,
    {
        match self {
            StorageError::NotFound(p) => {
                let mut s = string_of("not found: ");
                let t = path_text(p);
                push_str(&mut s, t.as_str());
                assert(s@ == "not found: "@ + t@);
                s
            },
            StorageError::UnsupportedVersion { found, expected } => {
                let mut s = string_of("unsupported format version ");
                push_str(&mut s, found.as_str());
                push_str(&mut s, ", expected ");
                push_decimal(&mut s, *expected as u64);
                s
            },
            StorageError::Corrupt(m) => {
                let mut s = string_of("corrupt: ");
                push_str(&mut s, m.as_str());
                s
            },
            StorageError::ColumnNotFound(n) => {
                let mut s = string_of("column '");
                push_str(&mut s, n.as_str());
                push_str(&mut s, "' not found");
                s
            },
            StorageError::AlreadyExists(p) => {
                let mut s = string_of("already exists: ");
                let t = path_text(p);
                push_str(&mut s, t.as_str());
                assert(s@ == "already exists: "@ + t@);
                s
            },
            StorageError::Codec(e) => e.to_string(),
            StorageError::Io(e) => {
                let mut s = string_of("io error: ");
                let t = io_error_text(e);
                push_str(&mut s, t.as_str());
                assert(s@ == "io error: "@ + t@);
                s
            },
            StorageError::InvalidSortKey { key, got } => {
                let mut s = string_of("sort key '");
                push_str(&mut s, key.as_str());
                push_str(&mut s, "' must be Int64, got ");
                push_str(&mut s, got.as_str());
                s
            },
        }
    }
}

} // verus!
