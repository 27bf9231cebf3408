use vstd::prelude::*;

verus! {

/// Declares std's I/O error so that the error type below can carry it.
#[verifier::external_type_specification]
#[verifier::external_body]
pub struct ExIoError(std::io::Error);

/// Declares std's UTF-8 conversion error so that the error type below can carry it.
#[verifier::external_type_specification]
#[verifier::external_body]
pub struct ExFromUtf8Error(std::string::FromUtf8Error);

/// Errors reported by the store.
#[derive(Debug)]
pub enum DatabaseError {
    Io(std::io::Error),
    CorruptedData,
    InvalidFormat,
    KeyNotFound(String),
    ParseError(String),
    Utf8(std::string::FromUtf8Error),
    LockPoisoned(&'static str),
}

impl From<std::io::Error> for DatabaseError {
    fn from(err: std::io::Error) -> (r: Self) {
        DatabaseError::Io(err)
    }
}

impl vstd::std_specs::convert::FromSpecImpl<std::io::Error> for DatabaseError {
    open spec fn obeys_from_spec() -> bool {
        true
    }

    open spec fn from_spec(err: std::io::Error) -> DatabaseError {
        DatabaseError::Io(err)
    }
}

impl From<std::string::FromUtf8Error> for DatabaseError {
    fn from(err: std::string::FromUtf8Error) -> (r: Self) {
        DatabaseError::Utf8(err)
    }
}

impl vstd::std_specs::convert::FromSpecImpl<std::string::FromUtf8Error> for DatabaseError {
    open spec fn obeys_from_spec() -> bool {
        true
    }

    open spec fn from_spec(err: std::string::FromUtf8Error) -> DatabaseError {
        DatabaseError::Utf8(err)
    }
}

} // verus!
