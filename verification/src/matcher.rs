//! What it means to split a word: the longest piece that a word starts with,
//! and the pieces that the greedy split yields.
use vstd::prelude::*;

verus! {

/// The length of the longest key of `pieces` among the first `n`, `n - 1`,
/// ..., `1` bytes of `word`; 0 where none of them is a key.
pub open spec fn longest_upto(pieces: Map<Seq<u8>, u64>, word: Seq<u8>, n: int) -> int
    decreases n,
{
    if n <= 0 {
        0
    } else if pieces.dom().contains(word.subrange(0, n)) {
        n
    } else {
        longest_upto(pieces, word, n - 1)
    }
}

/// The length of the longest piece that `word` starts with, the empty piece
/// left aside; 0 where `word` starts with no piece.
pub open spec fn longest_match(pieces: Map<Seq<u8>, u64>, word: Seq<u8>) -> int {
    longest_upto(pieces, word, word.len() as int)
}

/// `n` bytes of `word` are the longest piece that `word` starts with: they
/// are a piece, unless `n` is 0, and no more than `n` bytes of `word` are one.
pub open spec fn is_longest_match(pieces: Map<Seq<u8>, u64>, word: Seq<u8>, n: int) -> bool {
    &&& 0 <= n <= word.len()
    &&& n > 0 ==> pieces.dom().contains(word.subrange(0, n))
    &&& forall|j: int| n < j <= word.len() ==> !pieces.dom().contains(#[trigger] word.subrange(0, j))
}

/// What one step of a split yields: the text and the index of a piece that
/// was found, or `None` where no piece matched.
pub type Step = Option<(Seq<u8>, u64)>;

/// The pieces that the greedy split of `word` yields. The first piece is
/// looked up in `initial` if `first` holds; every other piece in
/// `continuation`. The split ends when `word` is used up, or with `None` at
/// the first place where no piece matches.
pub open spec fn split_from(
    initial: Map<Seq<u8>, u64>,
    continuation: Map<Seq<u8>, u64>,
    word: Seq<u8>,
    first: bool,
) -> Seq<Step>
    decreases word.len(),
{
    let pieces = if first {
        initial
    } else {
        continuation
    };
    let n = longest_match(pieces, word);
    if word.len() == 0 {
        Seq::empty()
    } else if 0 < n <= word.len() {
        let piece = word.subrange(0, n);
        seq![Some((piece, pieces[piece]))] + split_from(
            initial,
            continuation,
            word.subrange(n, word.len() as int),
            false,
        )
    } else {
        seq![None]
    }
}

/// The texts of the pieces that were found among `steps`, one behind the
/// other.
pub open spec fn joined(steps: Seq<Step>) -> Seq<u8>
    decreases steps.len(),
{
    if steps.len() == 0 {
        Seq::empty()
    } else {
        (match steps[0] {
            Some((text, _)) => text,
            None => Seq::empty(),
        }) + joined(steps.drop_first())
    }
}

/// `longest_upto` is the longest match among the first `n` bytes.
pub proof fn lemma_longest_upto(pieces: Map<Seq<u8>, u64>, word: Seq<u8>, n: int)
    requires
        0 <= n <= word.len(),
    ensures
        0 <= longest_upto(pieces, word, n) <= n,
        longest_upto(pieces, word, n) > 0 ==> pieces.dom().contains(
            word.subrange(0, longest_upto(pieces, word, n)),
        ),
        forall|j: int|
            longest_upto(pieces, word, n) < j <= n ==> !pieces.dom().contains(
                #[trigger] word.subrange(0, j),
            ),
    decreases n,
{
    if n > 0 && !pieces.dom().contains(word.subrange(0, n)) {
        lemma_longest_upto(pieces, word, n - 1);
    }
}

/// `longest_match` is the one length that is the longest match.
pub proof fn lemma_longest_match(pieces: Map<Seq<u8>, u64>, word: Seq<u8>, n: int)
    ensures
        is_longest_match(pieces, word, n) <==> n == longest_match(pieces, word),
{
    lemma_longest_upto(pieces, word, word.len() as int);
    let m = longest_match(pieces, word);
    if is_longest_match(pieces, word, n) && n != m {
        if n < m {
            assert(!pieces.dom().contains(word.subrange(0, m)));
        } else {
            assert(!pieces.dom().contains(word.subrange(0, n)));
        }
    }
}

} // verus!
