//! Errors that the library reports.
use vstd::prelude::*;

verus! {

/// What went wrong.
#[derive(Debug, Clone, PartialEq, Eq)]
pub enum SuiError {
    /// A signature or an authenticator was not accepted.
    InvalidSignature { error: String },
    /// An object's contents do not decode as its type says they must.
    ObjectDeserializationError { error: String },
    /// The object store could not answer.
    StorageError { error: String },
}

/// What a call gives that may fail.
pub type SuiResult<T = ()> = Result<T, SuiError>;

} // verus!
