//! The errors of this crate.
use vstd::prelude::*;
use vstd::std_specs::convert::FromSpecImpl;

verus! {

#[verifier::external_type_specification]
#[verifier::external_body]
pub struct ExIoError(std::io::Error);

/// Errors that can occur while reading word pieces.
#[derive(Debug)]
pub enum WordPiecesError {
    /// Finite state automaton error.
    FstError(fst::Error),
    /// IO error.
    IOError(std::io::Error),
}

impl From<fst::Error> for WordPiecesError {
    fn from(error: fst::Error) -> (r: WordPiecesError) {
        WordPiecesError::FstError(error)
    }
}

impl FromSpecImpl<fst::Error> for WordPiecesError {
    open spec fn obeys_from_spec() -> bool {
        true
    }

    open spec fn from_spec(error: fst::Error) -> WordPiecesError {
        WordPiecesError::FstError(error)
    }
}

impl From<std::io::Error> for WordPiecesError {
    fn from(error: std::io::Error) -> (r: WordPiecesError) {
        WordPiecesError::IOError(error)
    }
}

impl FromSpecImpl<std::io::Error> for WordPiecesError {
    open spec fn obeys_from_spec() -> bool {
        true
    }

    open spec fn from_spec(error: std::io::Error) -> WordPiecesError {
        WordPiecesError::IOError(error)
    }
}

} // verus!
