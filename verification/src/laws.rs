//! What holds of every vocabulary and every word.
use vstd::prelude::*;
use vstd::utf8::{encode_utf8, is_char_boundary, valid_utf8, valid_utf8_concat};
use crate::listing::{lemma_line_at_listed, lemma_listed, listed, listing, texts};
use crate::matcher::{joined, lemma_longest_match, lemma_longest_upto, longest_match, split_from, Step};
use crate::text::{keys_are_text, lemma_prefix_is_boundary, lemma_same_bytes_same_text};
use crate::word_pieces::{WordPieceIter, WordPieces};

verus! {

/// A word that is an initial piece is split into that piece alone, with the
/// index that is stored for it.
pub proof fn lemma_split_of_initial_piece(vocabulary: WordPieces, word: Seq<u8>)
    requires
        word.len() > 0,
        vocabulary.initial_pieces().dom().contains(word),
    ensures
        vocabulary.split_spec(word) == seq![Some((word, vocabulary.initial_pieces()[word]))],
{
    let initial = vocabulary.initial_pieces();
    let continuation = vocabulary.continuation_pieces();
    assert(word.subrange(0, word.len() as int) =~= word);
    assert(longest_match(initial, word) == word.len());
    let rest = word.subrange(word.len() as int, word.len() as int);
    assert(split_from(initial, continuation, rest, false) =~= Seq::empty());
    assert(vocabulary.split_spec(word) =~= seq![Some((word, initial[word]))]);
}

/// A word that starts with no initial piece is split into one missing
/// piece.
pub proof fn lemma_split_without_match(vocabulary: WordPieces, word: Seq<u8>)
    requires
        word.len() > 0,
        forall|n: int|
            0 < n <= word.len() ==> !vocabulary.initial_pieces().dom().contains(
                #[trigger] word.subrange(0, n),
            ),
    ensures
        vocabulary.split_spec(word) == seq![None::<(Seq<u8>, u64)>],
{
    lemma_longest_match(vocabulary.initial_pieces(), word, 0);
}

/// The first piece of a split is an initial piece with its index, and every
/// other piece a continuation piece with its index: a piece that is stored
/// as a continuation piece only never starts a split.
pub proof fn lemma_split_classes(vocabulary: WordPieces, word: Seq<u8>)
    ensures
        forall|i: int|
            0 <= i < vocabulary.split_spec(word).len() ==> (
            #[trigger] vocabulary.split_spec(word)[i] matches Some((text, idx)) ==> if i == 0 {
                vocabulary.initial_pieces().contains_pair(text, idx)
            } else {
                vocabulary.continuation_pieces().contains_pair(text, idx)
            }),
{
    lemma_split_from_classes(
        vocabulary.initial_pieces(),
        vocabulary.continuation_pieces(),
        word,
        true,
    );
}

proof fn lemma_split_from_classes(
    initial: Map<Seq<u8>, u64>,
    continuation: Map<Seq<u8>, u64>,
    word: Seq<u8>,
    first: bool,
)
    ensures
        forall|i: int|
            0 <= i < split_from(initial, continuation, word, first).len() ==> (
            #[trigger] split_from(initial, continuation, word, first)[i] matches Some(
                (text, idx),
            ) ==> if i == 0 && first {
                initial.contains_pair(text, idx)
            } else {
                continuation.contains_pair(text, idx)
            }),
    decreases word.len(),
{
    let pieces = if first {
        initial
    } else {
        continuation
    };
    let n = longest_match(pieces, word);
    lemma_longest_upto(pieces, word, word.len() as int);
    if word.len() > 0 && n > 0 {
        let rest = word.subrange(n, word.len() as int);
        lemma_split_from_classes(initial, continuation, rest, false);
        let tail = split_from(initial, continuation, rest, false);
        let all = split_from(initial, continuation, word, first);
        assert forall|i: int| 0 <= i < all.len() implies (#[trigger] all[i] matches Some(
            (text, idx),
        ) ==> if i == 0 && first {
            initial.contains_pair(text, idx)
        } else {
            continuation.contains_pair(text, idx)
        }) by {
            if i > 0 {
                assert(all[i] == tail[i - 1]);
            }
        }
    }
}

/// A split is never empty, only its last piece can be missing, and the
/// pieces found are the first bytes of the word: all of its bytes where no
/// piece is missing.
pub proof fn lemma_split_covers(vocabulary: WordPieces, word: Seq<u8>)
    requires
        word.len() > 0,
    ensures
        vocabulary.split_spec(word).len() > 0,
        forall|i: int|
            0 <= i < vocabulary.split_spec(word).len() - 1 ==> (
            #[trigger] vocabulary.split_spec(word)[i]) is Some,
        joined(vocabulary.split_spec(word)).len() <= word.len(),
        word.subrange(0, joined(vocabulary.split_spec(word)).len() as int) == joined(
            vocabulary.split_spec(word),
        ),
        vocabulary.split_spec(word).last() is Some ==> joined(vocabulary.split_spec(word)) == word,
{
    lemma_split_from_covers(
        vocabulary.initial_pieces(),
        vocabulary.continuation_pieces(),
        word,
        true,
    );
}

proof fn lemma_split_from_covers(
    initial: Map<Seq<u8>, u64>,
    continuation: Map<Seq<u8>, u64>,
    word: Seq<u8>,
    first: bool,
)
    ensures
        word.len() > 0 ==> split_from(initial, continuation, word, first).len() > 0,
        forall|i: int|
            0 <= i < split_from(initial, continuation, word, first).len() - 1 ==> (
            #[trigger] split_from(initial, continuation, word, first)[i]) is Some,
        joined(split_from(initial, continuation, word, first)).len() <= word.len(),
        word.subrange(0, joined(split_from(initial, continuation, word, first)).len() as int)
            == joined(split_from(initial, continuation, word, first)),
        word.len() == 0 || split_from(initial, continuation, word, first).last() is Some ==> joined(
            split_from(initial, continuation, word, first),
        ) == word,
    decreases word.len(),
{
    let pieces = if first {
        initial
    } else {
        continuation
    };
    let n = longest_match(pieces, word);
    let all = split_from(initial, continuation, word, first);
    lemma_longest_upto(pieces, word, word.len() as int);
    if word.len() == 0 {
        assert(word.subrange(0, 0) =~= joined(all));
        assert(word =~= joined(all));
    } else if n > 0 {
        let rest = word.subrange(n, word.len() as int);
        let tail = split_from(initial, continuation, rest, false);
        lemma_split_from_covers(initial, continuation, rest, false);
        assert(all.drop_first() =~= tail);
        let found = joined(tail);
        assert(joined(all) == word.subrange(0, n) + found);
        assert(word.subrange(0, n + found.len()) =~= word.subrange(0, n) + rest.subrange(
            0,
            found.len() as int,
        ));
        assert forall|i: int| 0 <= i < all.len() - 1 implies (#[trigger] all[i]) is Some by {
            if i > 0 {
                assert(all[i] == tail[i - 1]);
            }
        }
        if all.last() is Some {
            if tail.len() > 0 {
                assert(all.last() == tail.last());
            }
            assert(word =~= word.subrange(0, n) + rest);
        }
    } else {
        assert(all =~= seq![None]);
        assert(all.drop_first() =~= Seq::<Step>::empty());
        assert(joined(all.drop_first()) =~= Seq::<u8>::empty());
        assert(joined(all) =~= Seq::<u8>::empty());
        assert(word.subrange(0, 0) =~= joined(all));
    }
}

/// Where pieces and a word are text, a piece that the word starts with ends
/// at a code point boundary of the word. So the longest match never ends
/// inside a code point, nor does any shorter match that is passed on the way
/// to it.
pub proof fn lemma_match_at_boundary(pieces: Map<Seq<u8>, u64>, word: Seq<u8>, n: int)
    requires
        keys_are_text(pieces),
        valid_utf8(word),
        0 <= n <= word.len(),
        pieces.dom().contains(word.subrange(0, n)),
    ensures
        is_char_boundary(word, n),
        is_char_boundary(word, longest_match(pieces, word)),
{
    lemma_prefix_is_boundary(word.subrange(0, n), word);
    lemma_longest_upto(pieces, word, word.len() as int);
    let longest = longest_match(pieces, word);
    if longest > 0 {
        lemma_prefix_is_boundary(word.subrange(0, longest), word);
    }
}

/// Where the pieces of a vocabulary and a word are text, a split cuts the
/// word at code point boundaries only: each piece found is text, and so is
/// what any number of its first pieces add up to, which ends at a code point
/// boundary of the word.
pub proof fn lemma_split_at_boundaries(vocabulary: WordPieces, word: Seq<u8>, taken: int)
    requires
        keys_are_text(vocabulary.initial_pieces()),
        keys_are_text(vocabulary.continuation_pieces()),
        valid_utf8(word),
        0 <= taken <= vocabulary.split_spec(word).len(),
    ensures
        valid_utf8(joined(vocabulary.split_spec(word).take(taken))),
        is_char_boundary(word, joined(vocabulary.split_spec(word).take(taken)).len() as int),
        joined(vocabulary.split_spec(word).take(taken)).len() <= word.len(),
        word.subrange(0, joined(vocabulary.split_spec(word).take(taken)).len() as int) == joined(
            vocabulary.split_spec(word).take(taken),
        ),
        taken > 0 ==> (vocabulary.split_spec(word)[taken - 1] matches Some((text, _)) ==> valid_utf8(
            text,
        )),
{
    let initial = vocabulary.initial_pieces();
    let continuation = vocabulary.continuation_pieces();
    lemma_split_from_taken(initial, continuation, word, true, taken);
    lemma_prefix_is_boundary(joined(vocabulary.split_spec(word).take(taken)), word);
    if taken > 0 {
        lemma_split_from_classes(initial, continuation, word, true);
    }
}

proof fn lemma_split_from_taken(
    initial: Map<Seq<u8>, u64>,
    continuation: Map<Seq<u8>, u64>,
    word: Seq<u8>,
    first: bool,
    taken: int,
)
    requires
        keys_are_text(initial),
        keys_are_text(continuation),
        0 <= taken <= split_from(initial, continuation, word, first).len(),
    ensures
        valid_utf8(joined(split_from(initial, continuation, word, first).take(taken))),
        joined(split_from(initial, continuation, word, first).take(taken)).len() <= word.len(),
        word.subrange(
            0,
            joined(split_from(initial, continuation, word, first).take(taken)).len() as int,
        ) == joined(split_from(initial, continuation, word, first).take(taken)),
    decreases word.len(),
{
    let pieces = if first {
        initial
    } else {
        continuation
    };
    let n = longest_match(pieces, word);
    let all = split_from(initial, continuation, word, first);
    lemma_longest_upto(pieces, word, word.len() as int);
    if taken == 0 {
        assert(all.take(0) =~= Seq::<Step>::empty());
        assert(word.subrange(0, 0) =~= joined(all.take(0)));
    } else if n > 0 {
        let rest = word.subrange(n, word.len() as int);
        let tail = split_from(initial, continuation, rest, false);
        lemma_split_from_taken(initial, continuation, rest, false, taken - 1);
        assert(all.take(taken).drop_first() =~= tail.take(taken - 1));
        let found = joined(tail.take(taken - 1));
        assert(joined(all.take(taken)) == word.subrange(0, n) + found);
        assert(word.subrange(0, n + found.len()) =~= word.subrange(0, n) + rest.subrange(
            0,
            found.len() as int,
        ));
        valid_utf8_concat(word.subrange(0, n), found);
    } else {
        assert(all =~= seq![None]);
        assert(all.take(taken) =~= seq![None]);
        assert(all.take(taken).drop_first() =~= Seq::<Step>::empty());
        assert(joined(all.take(taken).drop_first()) =~= Seq::<u8>::empty());
        assert(joined(all.take(taken)) =~= Seq::<u8>::empty());
        assert(word.subrange(0, 0) =~= joined(all.take(taken)));
    }
}

/// The listing by index of a vocabulary that was read from `lines` is
/// `lines` again, where no line occurs twice. (Of two equal lines the
/// vocabulary keeps one piece, with the index of the later line.)
pub proof fn lemma_listing_round_trip(lines: Seq<Seq<u8>>)
    requires
        lines.no_duplicates(),
        lines.len() <= u64::MAX,
    ensures
        listing(listed(lines).0, listed(lines).1) == lines,
{
    lemma_listed(lines);
    let listing = listing(listed(lines).0, listed(lines).1);
    assert(listing.len() == lines.len());
    assert forall|i: int| 0 <= i < lines.len() implies listing[i] == lines[i] by {
        lemma_line_at_listed(lines, i);
    }
    assert(listing =~= lines);
}

/// Lines with the same bytes are the same lines: what is stated of the bytes
/// of a listing holds of its characters.
pub proof fn lemma_same_texts(a: Seq<String>, b: Seq<String>)
    requires
        texts(a) == texts(b),
    ensures
        a.len() == b.len(),
        forall|i: int| 0 <= i < a.len() ==> (#[trigger] a[i])@ == b[i]@,
{
    assert(texts(a).len() == a.len());
    assert(texts(b).len() == b.len());
    assert forall|i: int| 0 <= i < a.len() implies (#[trigger] a[i])@ == b[i]@ by {
        assert(texts(a)[i] == encode_utf8(a[i]@));
        assert(texts(b)[i] == encode_utf8(b[i]@));
        lemma_same_bytes_same_text(a[i]@, b[i]@);
    }
}

/// Splitting depends on the vocabulary and the word alone: two iterators
/// over one word and one vocabulary yield the same pieces.
pub proof fn lemma_split_repeats(a: WordPieceIter, b: WordPieceIter)
    requires
        a.vocabulary() == b.vocabulary(),
        a.rest() == b.rest(),
        a.at_start() == b.at_start(),
    ensures
        a.pending() == b.pending(),
{
}

} // verus!
