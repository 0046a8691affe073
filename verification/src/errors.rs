//! Common error type for loading and processing word vectors and clusters.

use vstd::prelude::*;

verus! {

/// The three failure kinds a loader can report.
///
/// `Io` is reserved for byte-source failures discovered by callers that read
/// from files or sockets before handing bytes to this crate; the in-memory
/// loaders themselves only produce `Decode` and `WrongHeader`.
#[derive(Debug, Clone, Copy, PartialEq, Eq, Structural)]
pub enum Word2VecError {
    /// An underlying byte-source read failed.
    Io,
    /// Bytes that should have formed a word or a record could not be decoded.
    Decode,
    /// The vector-file header held fewer than two parseable integers.
    WrongHeader,
}

impl Word2VecError {
    /// A short human-readable description of the error.
    pub fn description(&self) -> (r: String)
        ensures
            self is Io ==> r@ == "IO error"@,
            self is Decode ==> r@ == "Decode error"@,
            self is WrongHeader ==> r@ == "Wrong header format"@,
    {
        match self {
            Word2VecError::Io => "IO error".to_owned(),
            Word2VecError::Decode => "Decode error".to_owned(),
            Word2VecError::WrongHeader => "Wrong header format".to_owned(),
        }
    }
}

} // verus!
