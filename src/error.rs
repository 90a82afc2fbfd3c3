use vstd::prelude::*;

verus! {

/// Relies on std::io::Error only as an opaque value carried to the caller.
#[verifier::external_type_specification]
#[verifier::external_body]
pub struct ExIoError(std::io::Error);

/// The store's error type.
#[derive(Debug)]
pub enum KvsError {
    /// A file-system operation failed.
    IoError(std::io::Error),
    /// `remove` was asked for a key that is not live.
    KeyNotFound,
    /// A record at an indexed position is not a `Set`.
    UnexpectedCommandType,
    /// A record body does not follow the record format.
    Deserialize,
    /// A record's checksum does not match its payload, or it names no command.
    CorruptedData,
}

impl From<std::io::Error> for KvsError {
    fn from(value: std::io::Error) -> (r: KvsError)
        ensures
            r == KvsError::IoError(value),
    {
        KvsError::IoError(value)
    }
}

impl vstd::std_specs::convert::FromSpecImpl<std::io::Error> for KvsError {
    open spec fn obeys_from_spec() -> bool {
        true
    }

    open spec fn from_spec(v: std::io::Error) -> KvsError {
        KvsError::IoError(v)
    }
}

/// Result type of the store.
pub type Result<T> = std::result::Result<T, KvsError>;

} // verus!
