//! Facts about UTF-8 that splitting a word relies on.
use vstd::prelude::*;
use vstd::utf8::*;

verus! {

/// The two bytes `##`, which mark a continuation piece in a vocabulary
/// listing.
pub open spec fn marker() -> Seq<u8> {
    seq![0x23u8, 0x23u8]
}

/// `s` starts with the marker.
pub open spec fn has_marker(s: Seq<u8>) -> bool {
    s.len() >= 2 && s[0] == 0x23 && s[1] == 0x23
}

/// Every key of `pieces` is valid UTF-8.
pub open spec fn keys_are_text(pieces: Map<Seq<u8>, u64>) -> bool {
    forall|k: Seq<u8>| #[trigger] pieces.dom().contains(k) ==> valid_utf8(k)
}

/// A text that another text starts with ends at a code point boundary of the
/// longer one.
pub proof fn lemma_prefix_is_boundary(key: Seq<u8>, word: Seq<u8>)
    requires
        valid_utf8(key),
        valid_utf8(word),
        key.len() <= word.len(),
        word.subrange(0, key.len() as int) == key,
    ensures
        is_char_boundary(word, key.len() as int),
    decreases key.len(),
{
    if key.len() > 0 {
        let n = length_of_first_scalar(key);
        assert(key[0] == word.subrange(0, key.len() as int)[0]);
        assert(n == length_of_first_scalar(word));
        let key_rest = pop_first_scalar(key);
        let word_rest = pop_first_scalar(word);
        assert(word_rest.subrange(0, key_rest.len() as int) =~= key_rest) by {
            assert forall|i: int| 0 <= i < key_rest.len() implies word_rest[i] == key_rest[i] by {
                assert(word[i + n] == word.subrange(0, key.len() as int)[i + n]);
            }
        }
        lemma_prefix_is_boundary(key_rest, word_rest);
    }
}

/// The marker is a text of its own.
pub proof fn lemma_marker_is_text()
    ensures
        valid_utf8(marker()),
{
    reveal_with_fuel(valid_utf8, 3);
    let m = marker();
    assert(pop_first_scalar(m) =~= seq![0x23u8]);
    assert(pop_first_scalar(pop_first_scalar(m)) =~= Seq::<u8>::empty());
}

/// What follows the marker in a text is a text, and starts at a code point
/// boundary.
pub proof fn lemma_marker_boundary(s: Seq<u8>)
    requires
        valid_utf8(s),
        has_marker(s),
    ensures
        is_char_boundary(s, 2),
        valid_utf8(s.subrange(2, s.len() as int)),
{
    lemma_marker_is_text();
    assert(s.subrange(0, 2) =~= marker());
    lemma_prefix_is_boundary(marker(), s);
    valid_utf8_split(s, 2);
}

/// Two texts with the same bytes have the same characters.
pub proof fn lemma_same_bytes_same_text(a: Seq<char>, b: Seq<char>)
    requires
        encode_utf8(a) == encode_utf8(b),
    ensures
        a == b,
{
    encode_utf8_decode_utf8(a);
    encode_utf8_decode_utf8(b);
}

/// `String::from_utf8`: the text that `bytes` encode, or `None` where
/// `bytes` are not valid UTF-8.
#[verifier::external_body]
pub(crate) fn text_of(bytes: &[u8]) -> (r: Option<String>)
    ensures
        r is Some <==> valid_utf8(bytes@),
        r matches Some(text) ==> encode_utf8(text@) == bytes@,
{
    String::from_utf8(bytes.to_vec()).ok()
}

/// A text has no bytes only if it has no characters.
pub proof fn lemma_empty_text(a: Seq<char>)
    ensures
        (encode_utf8(a).len() == 0) == (a.len() == 0),
{
    if a.len() > 0 {
        encode_utf8_first_scalar(a);
    }
}

} // verus!
