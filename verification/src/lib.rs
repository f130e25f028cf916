//! Tokenize words into word pieces.
//!
//! A vocabulary holds two classes of pieces: *initial* pieces, which may
//! start a word, and *continuation* pieces, which may only follow another
//! piece and are written with a leading `##` in a vocabulary listing. A word
//! is split greedily: the longest initial piece that is a prefix of the word,
//! then the longest continuation piece that is a prefix of what is left, and
//! so on. What cannot be matched is reported as missing; the pieces found
//! before it are kept.
//!
//! Pieces and words are byte strings in UTF-8, and every contract of this
//! crate is stated over those bytes.
pub mod automaton;
mod entries;
pub mod error;
pub mod laws;
pub mod lex;
pub mod listing;
pub mod matcher;
pub mod text;
pub mod transducer;
pub mod word_pieces;

pub use crate::error::WordPiecesError;
pub use crate::word_pieces::{WordPiece, WordPieceIter, WordPieces, WordPiecesBuilder};
