//! Vocabularies of word pieces and the splitting of words.
use vstd::prelude::*;
use vstd::std_specs::convert::FromSpecImpl;
use vstd::string::StringSliceAdditionalSpecFns;
use vstd::utf8::{
    encode_utf8, encode_utf8_valid_utf8, is_char_boundary_start_end_of_seq, valid_utf8,
    valid_utf8_concat,
};
use crate::entries::{build_map, lemma_pieces_of, pieces_of, put, sorted};
use crate::error::WordPiecesError;
use crate::listing::{
    last_in, lemma_last_in_is_last_with, lemma_lists_count, listed, listing, lists, pairs, texts,
    with_piece,
};
use crate::matcher::{lemma_longest_match, lemma_longest_upto, longest_match, split_from, Step};
use crate::text::{
    keys_are_text, lemma_empty_text, lemma_marker_boundary, lemma_marker_is_text,
    lemma_prefix_is_boundary, marker, text_of,
};
use crate::transducer::{
    leads, map_entries, map_get, map_pieces, node_final_output, node_is_final, node_step, pieces_at,
    root_addr,
};

verus! {

/// A node that is reached from the root of a map by the bytes `prefix`, on
/// transitions whose outputs add up to `sum`, holds `here`: what is left of
/// the keys of `all` that start with `prefix`, each with its value less `sum`.
spec fn reached(all: Map<Seq<u8>, u64>, prefix: Seq<u8>, sum: u64, here: Map<Seq<u8>, u64>) -> bool {
    &&& forall|s: Seq<u8>| #[trigger] here.dom().contains(s) <==> all.dom().contains(prefix + s)
    &&& forall|s: Seq<u8>| #[trigger] here.dom().contains(s) ==> all[prefix + s] == sum + here[s]
}

/// The root is reached by no bytes.
proof fn lemma_reached_root(all: Map<Seq<u8>, u64>)
    ensures
        reached(all, Seq::empty(), 0, all),
{
    assert forall|s: Seq<u8>| Seq::<u8>::empty() + s == s by {
        assert(Seq::<u8>::empty() + s =~= s);
    }
}

/// One more transition reaches a node by one more byte, and the outputs on
/// the way there still add up to no more than a value of the map.
proof fn lemma_reached_next(
    all: Map<Seq<u8>, u64>,
    prefix: Seq<u8>,
    sum: u64,
    here: Map<Seq<u8>, u64>,
    byte: u8,
    out: u64,
    next: Map<Seq<u8>, u64>,
)
    requires
        reached(all, prefix, sum, here),
        leads(here, byte, out, next),
    ensures
        sum + out <= u64::MAX,
        reached(all, prefix.push(byte), (sum + out) as u64, next),
{
    assert forall|s: Seq<u8>| prefix.push(byte) + s == prefix + (seq![byte] + s) by {
        assert(prefix.push(byte) + s =~= prefix + (seq![byte] + s));
    }
    let witness = choose|s: Seq<u8>| next.dom().contains(s);
    assert(here.dom().contains(seq![byte] + witness));
    assert(all[prefix + (seq![byte] + witness)] == sum + here[seq![byte] + witness]);
    assert forall|s: Seq<u8>| #[trigger] next.dom().contains(s) implies all[prefix.push(byte) + s]
        == sum + out + next[s] by {
        assert(here.dom().contains(seq![byte] + s));
    }
    assert forall|s: Seq<u8>| #[trigger]
        next.dom().contains(s) <==> all.dom().contains(prefix.push(byte) + s) by {
        assert(next.dom().contains(s) <==> here.dom().contains(seq![byte] + s));
    }
}

/// Where no key goes on with the next byte of `word`, no piece is longer
/// than the bytes read so far.
proof fn lemma_reached_end(
    all: Map<Seq<u8>, u64>,
    word: Seq<u8>,
    read: int,
    sum: u64,
    here: Map<Seq<u8>, u64>,
)
    requires
        0 <= read < word.len(),
        reached(all, word.subrange(0, read), sum, here),
        forall|s: Seq<u8>| !(#[trigger] here.dom().contains(seq![word[read]] + s)),
    ensures
        forall|j: int| read < j <= word.len() ==> !all.dom().contains(#[trigger] word.subrange(0, j)),
{
    assert forall|j: int| read < j <= word.len() implies !all.dom().contains(
        #[trigger] word.subrange(0, j),
    ) by {
        let rest = word.subrange(read + 1, j);
        assert(word.subrange(0, j) =~= word.subrange(0, read) + (seq![word[read]] + rest));
        assert(!here.dom().contains(seq![word[read]] + rest));
    }
}

/// The byte `#`, two of which mark a continuation piece.
const MARKER_BYTE: u8 = 0x23;

/// Collects the pieces of a vocabulary.
pub struct WordPiecesBuilder {
    word_initial: Vec<(String, u64)>,
    continuation: Vec<(String, u64)>,
}

impl Default for WordPiecesBuilder {
    fn default() -> (r: Self)
        ensures
            r.initial_pieces() == (Map::<Seq<u8>, u64>::empty()),
            r.continuation_pieces() == (Map::<Seq<u8>, u64>::empty()),
    {
        Self::new()
    }
}

impl WordPiecesBuilder {
    #[verifier::type_invariant]
    spec fn well_formed(&self) -> bool {
        sorted(self.word_initial@) && sorted(self.continuation@)
    }

    /// The initial pieces that were inserted, each with its index.
    pub closed spec fn initial_pieces(&self) -> Map<Seq<u8>, u64> {
        pieces_of(self.word_initial@)
    }

    /// The continuation pieces that were inserted, each without its marker
    /// and with its index.
    pub closed spec fn continuation_pieces(&self) -> Map<Seq<u8>, u64> {
        pieces_of(self.continuation@)
    }

    /// A builder that holds no piece.
    pub fn new() -> (r: Self)
        ensures
            r.initial_pieces() == (Map::<Seq<u8>, u64>::empty()),
            r.continuation_pieces() == (Map::<Seq<u8>, u64>::empty()),
    {
        let r = WordPiecesBuilder { word_initial: Vec::new(), continuation: Vec::new() };
        proof {
            assert(r.initial_pieces() =~= Map::empty());
            assert(r.continuation_pieces() =~= Map::empty());
        }
        r
    }

    /// The word pieces that hold what was inserted.
    pub fn build(self) -> (r: Result<WordPieces, WordPiecesError>)
        ensures
            r matches Ok(word_pieces) && word_pieces.initial_pieces() == self.initial_pieces()
                && word_pieces.continuation_pieces() == self.continuation_pieces(),
    {
        proof {
            use_type_invariant(&self);
            lemma_pieces_of(self.word_initial@);
            lemma_pieces_of(self.continuation@);
        }
        let word_initial = match build_map(&self.word_initial) {
            Ok(map) => map,
            Err(error) => {
                return Err(WordPiecesError::FstError(error));
            },
        };
        let continuation = match build_map(&self.continuation) {
            Ok(map) => map,
            Err(error) => {
                return Err(WordPiecesError::FstError(error));
            },
        };
        Ok(WordPieces::new(word_initial, continuation))
    }

    /// Stores a piece with its index: as a continuation piece and without
    /// the marker where `piece` starts with `##`, as an initial piece where
    /// it does not. What was stored for the same text in the same class is
    /// replaced.
    pub fn insert(&mut self, piece: &str, idx: u64)
        ensures
            (final(self).initial_pieces(), final(self).continuation_pieces()) == with_piece(
                old(self).initial_pieces(),
                old(self).continuation_pieces(),
                piece.spec_bytes(),
                idx,
            ),
    {
        proof {
            use_type_invariant(&*self);
            encode_utf8_valid_utf8(piece@);
        }
        let bytes = piece.as_bytes();
        if bytes.len() >= 2 && bytes[0] == MARKER_BYTE && bytes[1] == MARKER_BYTE {
            proof {
                lemma_marker_boundary(bytes@);
            }
            let (_, stripped) = piece.split_at(2);
            let mut continuation: Vec<(String, u64)> = Vec::new();
            std::mem::swap(&mut self.continuation, &mut continuation);
            put(&mut continuation, stripped, idx);
            std::mem::swap(&mut self.continuation, &mut continuation);
        } else {
            let mut word_initial: Vec<(String, u64)> = Vec::new();
            std::mem::swap(&mut self.word_initial, &mut word_initial);
            put(&mut word_initial, piece, idx);
            std::mem::swap(&mut self.word_initial, &mut word_initial);
        }
    }
}

/// A set of word pieces.
pub struct WordPieces {
    word_initial: fst::Map<Vec<u8>>,
    continuation: fst::Map<Vec<u8>>,
}

impl WordPieces {
    #[verifier::type_invariant]
    spec fn well_formed(&self) -> bool {
        &&& map_pieces(self.word_initial) is Some
        &&& map_pieces(self.continuation) is Some
        &&& keys_are_text(map_pieces(self.word_initial)->0)
        &&& keys_are_text(map_pieces(self.continuation)->0)
    }

    /// The pieces that may start a word, each with its index.
    pub closed spec fn initial_pieces(&self) -> Map<Seq<u8>, u64> {
        map_pieces(self.word_initial)->0
    }

    /// The pieces that may follow another piece, each without its marker and
    /// with its index.
    pub closed spec fn continuation_pieces(&self) -> Map<Seq<u8>, u64> {
        map_pieces(self.continuation)->0
    }

    /// The pieces that the split of `word` yields.
    pub open spec fn split_spec(&self, word: Seq<u8>) -> Seq<Step> {
        split_from(self.initial_pieces(), self.continuation_pieces(), word, true)
    }

    /// Construct new word pieces instance.
    ///
    /// The arguments are the map of word-initial pieces and the map of
    /// continuation pieces, each written by a builder of the `fst` crate
    /// from keys that are text. The continuation pieces must not have
    /// continuation markers (such as `##`).
    pub fn new(word_initial: fst::Map<Vec<u8>>, continuation: fst::Map<Vec<u8>>) -> (r: Self)
        requires
            map_pieces(word_initial) is Some,
            map_pieces(continuation) is Some,
            keys_are_text(map_pieces(word_initial)->0),
            keys_are_text(map_pieces(continuation)->0),
        ensures
            r.initial_pieces() == map_pieces(word_initial)->0,
            r.continuation_pieces() == map_pieces(continuation)->0,
    {
        WordPieces { word_initial, continuation }
    }

    /// The word pieces that `lines` list: the piece on each line is stored
    /// with the number of lines before it for its index.
    pub fn from_lines(lines: &[String]) -> (r: Result<Self, WordPiecesError>)
        ensures
            r matches Ok(word_pieces) && (
                word_pieces.initial_pieces(),
                word_pieces.continuation_pieces(),
            ) == listed(texts(lines@)),
    {
        let mut builder = WordPiecesBuilder::new();
        let mut idx: usize = 0;
        proof {
            assert(texts(lines@).take(0) =~= Seq::empty());
        }
        while idx < lines.len()
            invariant
                idx <= lines@.len(),
                (builder.initial_pieces(), builder.continuation_pieces()) == listed(
                    texts(lines@).take(idx as int),
                ),
            decreases lines@.len() - idx,
        {
            builder.insert(lines[idx].as_str(), idx as u64);
            proof {
                let now = texts(lines@).take(idx + 1);
                assert(now.drop_last() =~= texts(lines@).take(idx as int));
                assert(now.last() == encode_utf8(lines@[idx as int]@));
            }
            idx = idx + 1;
        }
        proof {
            assert(texts(lines@).take(idx as int) =~= texts(lines@));
        }
        builder.build()
    }

    /// The listing of the vocabulary by index: as many lines as there are
    /// pieces, and on line `i` the piece with the index `i`, a continuation
    /// piece behind its marker. A line whose number is the index of no piece
    /// is empty, and a piece whose index is not below the number of pieces
    /// is left out.
    pub fn pieces_by_index(&self) -> (r: Vec<String>)
        ensures
            texts(r@) == listing(self.initial_pieces(), self.continuation_pieces()),
    {
        proof {
            use_type_invariant(self);
        }
        let initial = map_entries(&self.word_initial);
        let continuation = map_entries(&self.continuation);
        let ghost initial_pieces = self.initial_pieces();
        let ghost continuation_pieces = self.continuation_pieces();
        proof {
            assert(lists(pairs(initial@), initial_pieces)) by {
                assert forall|k: Seq<u8>| #[trigger] initial_pieces.dom().contains(k) implies exists|
                    i: int,
                | 0 <= i < pairs(initial@).len() && (#[trigger] pairs(initial@)[i]).0 == k by {
                    let i = choose|i: int| 0 <= i < initial@.len() && (#[trigger] initial@[i]).0@ == k;
                    assert(pairs(initial@)[i].0 == k);
                }
            }
            assert(lists(pairs(continuation@), continuation_pieces)) by {
                assert forall|k: Seq<u8>| #[trigger]
                    continuation_pieces.dom().contains(k) implies exists|i: int|
                    0 <= i < pairs(continuation@).len() && (#[trigger] pairs(continuation@)[i]).0
                        == k by {
                    let i = choose|i: int|
                        0 <= i < continuation@.len() && (#[trigger] continuation@[i]).0@ == k;
                    assert(pairs(continuation@)[i].0 == k);
                }
            }
            lemma_lists_count(pairs(initial@), initial_pieces);
            lemma_lists_count(pairs(continuation@), continuation_pieces);
        }

        let mut pieces: Vec<String> = Vec::new();
        grow(&mut pieces, initial.len());
        grow(&mut pieces, continuation.len());
        let ghost blank = pieces@;

        fill(&mut pieces, &initial, false);
        fill(&mut pieces, &continuation, true);

        proof {
            let lines = listing(initial_pieces, continuation_pieces);
            assert(texts(pieces@).len() == lines.len());
            assert forall|i: int| 0 <= i < lines.len() implies texts(pieces@)[i] == lines[i] by {
                lemma_last_in_is_last_with(pairs(initial@), initial_pieces, i as u64);
                lemma_last_in_is_last_with(pairs(continuation@), continuation_pieces, i as u64);
                assert(encode_utf8(blank[i]@) =~= Seq::<u8>::empty());
            }
            assert(texts(pieces@) =~= lines);
        }
        pieces
    }

    /// Finds the longest piece of `piece_map` that `word` starts with: its
    /// length in bytes and its index, or `(0, 0)` where `word` starts with no
    /// piece.
    fn longest_prefix_len(piece_map: &fst::Map<Vec<u8>>, word: &str) -> (r: (usize, u64))
        requires
            map_pieces(*piece_map) is Some,
        ensures
            r.0 == longest_match(map_pieces(*piece_map)->0, word.spec_bytes()),
            r.0 > 0 ==> r.1 == map_pieces(*piece_map)->0[word.spec_bytes().subrange(0, r.0 as int)],
            r.0 == 0 ==> r.1 == 0,
    {
        let bytes = word.as_bytes();
        let ghost all = map_pieces(*piece_map)->0;

        let mut addr = root_addr(piece_map);
        let mut out: u64 = 0;
        let mut longest_prefix: usize = 0;
        let mut longest_prefix_out: u64 = 0;

        proof {
            lemma_reached_root(all);
            assert(bytes@.subrange(0, 0) =~= Seq::<u8>::empty());
        }

        let mut idx: usize = 0;
        while idx < bytes.len()
            invariant
                bytes@ == word.spec_bytes(),
                all == map_pieces(*piece_map)->0,
                idx <= bytes.len(),
                pieces_at(*piece_map, addr) is Some,
                reached(all, bytes@.subrange(0, idx as int), out, pieces_at(*piece_map, addr)->0),
                longest_prefix <= idx,
                longest_prefix > 0 ==> all.dom().contains(bytes@.subrange(0, longest_prefix as int))
                    && longest_prefix_out == all[bytes@.subrange(0, longest_prefix as int)],
                longest_prefix == 0 ==> longest_prefix_out == 0,
                forall|j: int|
                    longest_prefix < j <= idx ==> !all.dom().contains(#[trigger] bytes@.subrange(0, j)),
            decreases bytes.len() - idx,
        {
            let ghost here = pieces_at(*piece_map, addr)->0;
            let ghost read = bytes@.subrange(0, idx as int);
            let byte = bytes[idx];
            // Attempt to move to the next state.
            match node_step(piece_map, addr, byte) {
                Some((trans_out, next)) => {
                    proof {
                        lemma_reached_next(
                            all,
                            read,
                            out,
                            here,
                            byte,
                            trans_out,
                            pieces_at(*piece_map, next)->0,
                        );
                        assert(bytes@.subrange(0, idx + 1) =~= read.push(byte));
                    }
                    out = out + trans_out;
                    addr = next;
                },
                None => {
                    proof {
                        lemma_reached_end(all, bytes@, idx as int, out, here);
                        lemma_longest_match(all, bytes@, longest_prefix as int);
                    }
                    return (longest_prefix, longest_prefix_out);
                },
            }

            proof {
                let now = bytes@.subrange(0, idx + 1);
                assert(now + Seq::<u8>::empty() =~= now);
            }
            // We have found the next prefix, save it.
            if node_is_final(piece_map, addr) {
                longest_prefix = idx + 1;
                longest_prefix_out = node_final_output(piece_map, addr) + out;
            }
            idx = idx + 1;
        }

        proof {
            lemma_longest_match(all, bytes@, longest_prefix as int);
        }
        (longest_prefix, longest_prefix_out)
    }

    /// Look up the index of a continuation word piece.
    pub fn get_continuation(&self, piece: &str) -> (r: Option<u64>)
        ensures
            r is Some <==> self.continuation_pieces().dom().contains(piece.spec_bytes()),
            r matches Some(idx) ==> self.continuation_pieces()[piece.spec_bytes()] == idx,
    {
        proof {
            use_type_invariant(self);
        }
        map_get(&self.continuation, piece.as_bytes())
    }

    /// Look up the index of an initial word piece.
    pub fn get_initial(&self, piece: &str) -> (r: Option<u64>)
        ensures
            r is Some <==> self.initial_pieces().dom().contains(piece.spec_bytes()),
            r matches Some(idx) ==> self.initial_pieces()[piece.spec_bytes()] == idx,
    {
        proof {
            use_type_invariant(self);
        }
        map_get(&self.word_initial, piece.as_bytes())
    }
    /// Split a string into word pieces.
    ///
    /// Returns an iterator over the word pieces. The string must not be
    /// empty: there is no way to break an empty string into word pieces.
    pub fn split<'a, 'b>(&'a self, word: &'b str) -> (r: WordPieceIter<'a, 'b>)
        requires
            word@.len() > 0,
        ensures
            r.vocabulary() == *self,
            r.rest() == word.spec_bytes(),
            r.at_start(),
            r.pending() == self.split_spec(word.spec_bytes()),
    {
        proof {
            lemma_empty_text(word@);
        }
        WordPieceIter { word_pieces: self, word, initial: true }
    }
}

/// A piece as a line of a listing shows it: behind the marker if `marked`.
spec fn shown(k: Seq<u8>, marked: bool) -> Seq<u8> {
    if marked {
        marker() + k
    } else {
        k
    }
}

/// Appends `n` empty lines to `lines`.
fn grow(lines: &mut Vec<String>, n: usize)
    ensures
        final(lines)@.len() == old(lines)@.len() + n,
        forall|i: int| 0 <= i < old(lines)@.len() ==> final(lines)@[i] == old(lines)@[i],
        forall|i: int| old(lines)@.len() <= i < final(lines)@.len() ==> final(lines)@[i]@.len() == 0,
{
    let mut added: usize = 0;
    while added < n
        invariant
            added <= n,
            lines@.len() == old(lines)@.len() + added,
            forall|i: int| 0 <= i < old(lines)@.len() ==> lines@[i] == old(lines)@[i],
            forall|i: int| old(lines)@.len() <= i < lines@.len() ==> lines@[i]@.len() == 0,
        decreases n - added,
    {
        lines.push(String::new());
        added = added + 1;
    }
}

/// The bytes of `key` behind the marker.
fn marked_line(key: &[u8]) -> (r: Vec<u8>)
    ensures
        r@ == marker() + key@,
{
    let mut line: Vec<u8> = Vec::new();
    line.push(MARKER_BYTE);
    line.push(MARKER_BYTE);
    let mut i: usize = 0;
    while i < key.len()
        invariant
            i <= key@.len(),
            line@ == marker() + key@.take(i as int),
        decreases key@.len() - i,
    {
        line.push(key[i]);
        proof {
            assert(key@.take(i + 1) =~= key@.take(i as int).push(key@[i as int]));
            assert(line@ =~= marker() + key@.take(i + 1));
        }
        i = i + 1;
    }
    proof {
        assert(key@.take(i as int) =~= key@);
    }
    line
}

/// Writes each of `entries` on the line that has its index for its number,
/// behind the marker if `marked`; an entry whose index is the number of no
/// line is passed over. Of several entries with one index the last stays.
fn fill(lines: &mut Vec<String>, entries: &Vec<(Vec<u8>, u64)>, marked: bool)
    requires
        forall|e: int| 0 <= e < entries@.len() ==> valid_utf8((#[trigger] entries@[e]).0@),
    ensures
        final(lines)@.len() == old(lines)@.len(),
        forall|i: int|
            0 <= i < old(lines)@.len() ==> encode_utf8(#[trigger] final(lines)@[i]@) == (match last_in(
                pairs(entries@),
                entries@.len() as int,
                i as u64,
            ) {
                Some(k) => shown(k, marked),
                None => encode_utf8(old(lines)@[i]@),
            }),
{
    let mut j: usize = 0;
    while j < entries.len()
        invariant
            j <= entries@.len(),
            lines@.len() == old(lines)@.len(),
            forall|e: int| 0 <= e < entries@.len() ==> valid_utf8((#[trigger] entries@[e]).0@),
            forall|i: int|
                0 <= i < lines@.len() ==> encode_utf8(#[trigger] lines@[i]@) == (match last_in(
                    pairs(entries@),
                    j as int,
                    i as u64,
                ) {
                    Some(k) => shown(k, marked),
                    None => encode_utf8(old(lines)@[i]@),
                }),
        decreases entries@.len() - j,
    {
        let idx = entries[j].1;
        let ghost key = entries@[j as int].0@;
        assert(pairs(entries@)[j as int] == (key, idx));
        if idx < lines.len() as u64 {
            let text = if marked {
                let line = marked_line(entries[j].0.as_slice());
                proof {
                    lemma_marker_is_text();
                    valid_utf8_concat(marker(), key);
                }
                text_of(line.as_slice())
            } else {
                text_of(entries[j].0.as_slice())
            };
            lines[idx as usize] = text.unwrap();
        }
        j = j + 1;
    }
}

impl From<&WordPieces> for Vec<String> {
    /// The listing of the vocabulary by index.
    fn from(word_pieces: &WordPieces) -> (r: Self)
        ensures
            texts(r@) == listing(word_pieces.initial_pieces(), word_pieces.continuation_pieces()),
    {
        word_pieces.pieces_by_index()
    }
}

impl FromSpecImpl<&WordPieces> for Vec<String> {
    open spec fn obeys_from_spec() -> bool {
        false
    }

    open spec fn from_spec(word_pieces: &WordPieces) -> Self {
        arbitrary()
    }
}

/// A single word piece.
#[derive(Debug, Eq, PartialEq)]
pub enum WordPiece<'a> {
    /// The next found word piece.
    Found { piece: &'a str, idx: u64 },
    /// No piece was found for the (remaining part of) the word.
    Missing,
}

impl<'a> View for WordPiece<'a> {
    type V = Step;

    /// The text and the index of a piece that was found; `None` of a
    /// missing piece.
    open spec fn view(&self) -> Step {
        match *self {
            WordPiece::Found { piece, idx } => Some((piece.spec_bytes(), idx)),
            WordPiece::Missing => None,
        }
    }
}

impl<'a> WordPiece<'a> {
    /// Unwrap an index if present.
    pub fn idx(&self) -> (r: Option<u64>)
        ensures
            r == match *self {
                WordPiece::Found { idx, .. } => Some(idx),
                WordPiece::Missing => None,
            },
    {
        match self {
            WordPiece::Found { idx, .. } => Some(*idx),
            WordPiece::Missing => None,
        }
    }

    /// Unwrap a piece if present.
    pub fn piece(&self) -> (r: Option<&'a str>)
        ensures
            r == match *self {
                WordPiece::Found { piece, .. } => Some(piece),
                WordPiece::Missing => None,
            },
    {
        match self {
            WordPiece::Found { piece, .. } => Some(*piece),
            WordPiece::Missing => None,
        }
    }
}

impl<'a> From<&WordPiece<'a>> for Option<&'a str> {
    fn from(word_piece: &WordPiece<'a>) -> (r: Self)
        ensures
            r == match *word_piece {
                WordPiece::Found { piece, .. } => Some(piece),
                WordPiece::Missing => None,
            },
    {
        word_piece.piece()
    }
}

impl<'a> FromSpecImpl<&WordPiece<'a>> for Option<&'a str> {
    open spec fn obeys_from_spec() -> bool {
        true
    }

    open spec fn from_spec(word_piece: &WordPiece<'a>) -> Self {
        match *word_piece {
            WordPiece::Found { piece, .. } => Some(piece),
            WordPiece::Missing => None,
        }
    }
}

/// What each of `pieces` stands for.
pub open spec fn steps_of(pieces: Seq<WordPiece<'_>>) -> Seq<Step> {
    Seq::new(pieces.len(), |i: int| pieces[i]@)
}

/// Iterator over word pieces.
pub struct WordPieceIter<'a, 'b> {
    word_pieces: &'a WordPieces,
    /// The remaining word.
    word: &'b str,
    /// Is this the initial word piece?
    initial: bool,
}

impl<'a, 'b> WordPieceIter<'a, 'b> {
    #[verifier::type_invariant]
    spec fn well_formed(&self) -> bool {
        self.initial ==> self.word.spec_bytes().len() > 0
    }

    /// The word pieces that the word is split into.
    pub closed spec fn vocabulary(&self) -> WordPieces {
        *self.word_pieces
    }

    /// The part of the word that no piece has been looked up for yet.
    pub closed spec fn rest(&self) -> Seq<u8> {
        self.word.spec_bytes()
    }

    /// Whether the next piece is the first of the word.
    pub closed spec fn at_start(&self) -> bool {
        self.initial
    }

    /// The pieces among which the next one is looked up: the initial pieces
    /// at the start of the word, the continuation pieces after that.
    pub open spec fn class(&self) -> Map<Seq<u8>, u64> {
        if self.at_start() {
            self.vocabulary().initial_pieces()
        } else {
            self.vocabulary().continuation_pieces()
        }
    }

    /// The length of the longest piece that the rest of the word starts
    /// with; 0 where it starts with none.
    pub open spec fn longest(&self) -> int {
        longest_match(self.class(), self.rest())
    }

    /// The pieces that are still to come.
    pub open spec fn pending(&self) -> Seq<Step> {
        split_from(
            self.vocabulary().initial_pieces(),
            self.vocabulary().continuation_pieces(),
            self.rest(),
            self.at_start(),
        )
    }

    /// The next piece of the word, or `None` when the word is used up.
    ///
    /// The piece is the longest one that the rest of the word starts with:
    /// an initial piece at the start of the word, a continuation piece after
    /// that. Where the rest starts with no piece, the result is
    /// `WordPiece::Missing`, and the rest of the word is given up.
    pub fn next(&mut self) -> (r: Option<WordPiece<'b>>)
        ensures
            final(self).vocabulary() == old(self).vocabulary(),
            (match r {
                None => {
                    &&& old(self).rest().len() == 0
                    &&& final(self).rest() == old(self).rest()
                    &&& final(self).at_start() == old(self).at_start()
                },
                Some(WordPiece::Missing) => {
                    &&& old(self).rest().len() > 0
                    &&& old(self).longest() == 0
                    &&& final(self).rest().len() == 0
                    &&& !final(self).at_start()
                },
                Some(WordPiece::Found { piece, idx }) => {
                    &&& old(self).rest().len() > 0
                    &&& old(self).longest() > 0
                    &&& piece.spec_bytes() == old(self).rest().subrange(0, old(self).longest())
                    &&& old(self).class().contains_pair(piece.spec_bytes(), idx)
                    &&& final(self).rest() == old(self).rest().skip(old(self).longest())
                    &&& !final(self).at_start()
                },
            }),
            r is None <==> old(self).pending().len() == 0,
            r matches Some(piece) ==> piece@ == old(self).pending()[0] && final(self).pending() == old(
                self,
            ).pending().drop_first(),
    {
        proof {
            use_type_invariant(&*self);
            use_type_invariant(self.word_pieces);
            encode_utf8_valid_utf8(self.word@);
        }
        let word_len = self.word.as_bytes().len();
        if word_len == 0 {
            return None;
        }
        // Pick the word-initial or continuation set.

        let was_initial = self.initial;
        self.initial = false;
        let set = if was_initial {
            &self.word_pieces.word_initial
        } else {
            &self.word_pieces.continuation
        };
        let ghost word = self.word.spec_bytes();
        let ghost pieces = map_pieces(*set)->0;

        // Find the word's prefix in the set.
        let (prefix_len, prefix_idx) = WordPieces::longest_prefix_len(set, self.word);

        proof {
            lemma_longest_upto(pieces, word, word.len() as int);
        }
        if prefix_len == 0 {
            // If there is no matching set, empty the word.
            proof {
                is_char_boundary_start_end_of_seq(word);
            }
            let (_, rest) = self.word.split_at(word_len);
            self.word = rest;
            proof {
                assert(split_from(
                    self.vocabulary().initial_pieces(),
                    self.vocabulary().continuation_pieces(),
                    word,
                    was_initial,
                ) =~= seq![None]);
            }
            return Some(WordPiece::Missing);
        }
        proof {
            lemma_prefix_is_boundary(word.subrange(0, prefix_len as int), word);
        }
        let (piece, rest) = self.word.split_at(prefix_len);

        self.word = rest;

        Some(WordPiece::Found { piece, idx: prefix_idx })
    }

    /// All the pieces that are still to come, in their order.
    pub fn collect(self) -> (r: Vec<WordPiece<'b>>)
        ensures
            steps_of(r@) == self.pending(),
    {
        let mut iter = self;
        let mut pieces: Vec<WordPiece<'b>> = Vec::new();
        loop
            invariant
                self.pending() == steps_of(pieces@) + iter.pending(),
            ensures
                steps_of(pieces@) == self.pending(),
            decreases iter.pending().len(),
        {
            let ghost before = iter.pending();
            let ghost taken = steps_of(pieces@);
            match iter.next() {
                Some(piece) => {
                    pieces.push(piece);
                    proof {
                        assert(steps_of(pieces@) =~= taken.push(before[0]));
                        assert(taken.push(before[0]) + before.drop_first() =~= taken + before);
                    }
                },
                None => {
                    proof {
                        assert(taken + before =~= taken);
                    }
                    break ;
                },
            }
        }
        pieces
    }
}

} // verus!
