//! Pieces of one class, kept in the lexicographic order of their texts, as a
//! transducer has to be built from them.
use vstd::prelude::*;
use vstd::string::StringSliceAdditionalSpecFns;
use vstd::utf8::{encode_utf8, encode_utf8_valid_utf8};
use crate::lex::{
    lemma_lex_irreflexive, lemma_lex_total, lemma_lex_transitive, lex_lt, rank, Rank,
};
use crate::text::keys_are_text;
use crate::transducer::{
    builder_finish, builder_insert, builder_last, builder_new, builder_pieces, map_pieces,
};

verus! {

/// The bytes of the text of a piece.
pub open spec fn key_of(entry: (String, u64)) -> Seq<u8> {
    encode_utf8(entry.0@)
}

/// The texts of `entries` stand in strictly rising order, so that no text
/// occurs twice.
pub open spec fn sorted(entries: Seq<(String, u64)>) -> bool {
    forall|i: int, j: int|
        0 <= i < j < entries.len() ==> lex_lt(
            key_of(#[trigger] entries[i]),
            key_of(#[trigger] entries[j]),
        )
}

/// `k` is the text of one of `entries`.
pub open spec fn holds(entries: Seq<(String, u64)>, k: Seq<u8>) -> bool {
    exists|i: int| 0 <= i < entries.len() && key_of(#[trigger] entries[i]) == k
}

/// The map from the text of each of `entries` to its index.
pub open spec fn pieces_of(entries: Seq<(String, u64)>) -> Map<Seq<u8>, u64> {
    Map::new(
        |k: Seq<u8>| holds(entries, k),
        |k: Seq<u8>| entries[choose|i: int| 0 <= i < entries.len() && key_of(#[trigger] entries[i]) == k].1,
    )
}

/// In a sorted list each entry is the one that the map has for its text.
pub proof fn lemma_pieces_of(entries: Seq<(String, u64)>)
    requires
        sorted(entries),
    ensures
        forall|i: int|
            0 <= i < entries.len() ==> pieces_of(entries).contains_pair(
                key_of(#[trigger] entries[i]),
                entries[i].1,
            ),
        keys_are_text(pieces_of(entries)),
{
    assert forall|i: int| 0 <= i < entries.len() implies pieces_of(entries).contains_pair(
        key_of(#[trigger] entries[i]),
        entries[i].1,
    ) by {
        let k = key_of(entries[i]);
        assert(holds(entries, k));
        let c = choose|c: int| 0 <= c < entries.len() && key_of(#[trigger] entries[c]) == k;
        lemma_lex_irreflexive(k);
        assert(c == i);
    }
    assert forall|k: Seq<u8>| #[trigger] pieces_of(entries).dom().contains(k) implies vstd::utf8::valid_utf8(
        k,
    ) by {
        let c = choose|c: int| 0 <= c < entries.len() && key_of(#[trigger] entries[c]) == k;
        encode_utf8_valid_utf8(entries[c].0@);
    }
}

/// Where `key` stands in the sorted `entries`: the number of entries whose
/// text comes before `key`, and whether the entry at that place has `key`
/// for its text.
pub fn find(entries: &Vec<(String, u64)>, key: &[u8]) -> (r: (usize, bool))
    requires
        sorted(entries@),
    ensures
        r.0 <= entries@.len(),
        forall|i: int| 0 <= i < r.0 ==> lex_lt(key_of(#[trigger] entries@[i]), key@),
        r.1 ==> r.0 < entries@.len() && key_of(entries@[r.0 as int]) == key@,
        !r.1 ==> forall|i: int| r.0 <= i < entries@.len() ==> lex_lt(key@, key_of(#[trigger] entries@[i])),
{
    let mut lo: usize = 0;
    let mut hi: usize = entries.len();
    while lo < hi
        invariant
            sorted(entries@),
            lo <= hi <= entries@.len(),
            forall|i: int| 0 <= i < lo ==> lex_lt(key_of(#[trigger] entries@[i]), key@),
            forall|i: int| hi <= i < entries@.len() ==> lex_lt(key@, key_of(#[trigger] entries@[i])),
        decreases hi - lo,
    {
        let mid = lo + (hi - lo) / 2;
        match rank(entries[mid].0.as_str().as_bytes(), key) {
            Rank::Before => {
                proof {
                    assert forall|i: int| 0 <= i < mid + 1 implies lex_lt(
                        key_of(#[trigger] entries@[i]),
                        key@,
                    ) by {
                        if i < mid {
                            lemma_lex_transitive(key_of(entries@[i]), key_of(entries@[mid as int]), key@);
                        }
                    }
                }
                lo = mid + 1;
            },
            Rank::Same => {
                return (mid, true);
            },
            Rank::After => {
                proof {
                    lemma_lex_total(key_of(entries@[mid as int]), key@);
                    assert forall|i: int| mid <= i < entries@.len() implies lex_lt(
                        key@,
                        key_of(#[trigger] entries@[i]),
                    ) by {
                        if mid < i {
                            lemma_lex_transitive(key@, key_of(entries@[mid as int]), key_of(entries@[i]));
                        }
                    }
                }
                hi = mid;
            },
        }
    }
    (lo, false)
}

/// Stores `idx` for the text `key`, in place of what was stored for it
/// before.
pub fn put(entries: &mut Vec<(String, u64)>, key: &str, idx: u64)
    requires
        sorted(old(entries)@),
    ensures
        sorted(final(entries)@),
        pieces_of(final(entries)@) == pieces_of(old(entries)@).insert(key.spec_bytes(), idx),
{
    let (pos, found) = find(entries, key.as_bytes());
    let ghost before = entries@;
    let ghost k = key.spec_bytes();
    if found {
        entries[pos].1 = idx;
        proof {
            let after = entries@;
            assert forall|i: int| 0 <= i < after.len() implies key_of(#[trigger] after[i]) == key_of(
                before[i],
            ) by {}
            assert(sorted(after)) by {
                assert forall|i: int, j: int| 0 <= i < j < after.len() implies lex_lt(
                    key_of(#[trigger] after[i]),
                    key_of(#[trigger] after[j]),
                ) by {
                    assert(lex_lt(key_of(before[i]), key_of(before[j])));
                }
            }
            lemma_pieces_of(before);
            lemma_pieces_of(after);
            assert forall|x: Seq<u8>| holds(after, x) == holds(before, x) by {
                if holds(before, x) {
                    let c = choose|c: int| 0 <= c < before.len() && key_of(#[trigger] before[c]) == x;
                    assert(key_of(after[c]) == x);
                }
                if holds(after, x) {
                    let c = choose|c: int| 0 <= c < after.len() && key_of(#[trigger] after[c]) == x;
                    assert(key_of(before[c]) == x);
                }
            }
            assert(holds(before, k)) by {
                assert(key_of(before[pos as int]) == k);
            }
            assert(pieces_of(after) =~= pieces_of(before).insert(k, idx)) by {
                assert forall|x: Seq<u8>| pieces_of(before).insert(k, idx).dom().contains(x) implies #[trigger]
                    pieces_of(after)[x] == pieces_of(before).insert(k, idx)[x] by {
                    let c = choose|c: int| 0 <= c < after.len() && key_of(#[trigger] after[c]) == x;
                    assert(pieces_of(after).contains_pair(key_of(after[c]), after[c].1));
                    assert(pieces_of(before).contains_pair(key_of(before[c]), before[c].1));
                    if x == k {
                        lemma_lex_irreflexive(k);
                        assert(c == pos);
                    }
                }
            }
        }
    } else {
        entries.insert(pos, (key.to_owned(), idx));
        proof {
            let after = entries@;
            assert(after.len() == before.len() + 1);
            assert forall|j: int| 0 <= j < after.len() implies #[trigger] after[j] == (if j < pos {
                before[j]
            } else if j == pos {
                (after[pos as int].0, idx)
            } else {
                before[j - 1]
            }) by {}
            assert(key_of(after[pos as int]) == k);
            assert(sorted(after)) by {
                assert forall|i: int, j: int| 0 <= i < j < after.len() implies lex_lt(
                    key_of(#[trigger] after[i]),
                    key_of(#[trigger] after[j]),
                ) by {
                    if j < pos {
                        assert(lex_lt(key_of(before[i]), key_of(before[j])));
                    } else if j == pos {
                        assert(lex_lt(key_of(before[i]), k));
                    } else if i < pos {
                        assert(lex_lt(key_of(before[i]), key_of(before[j - 1])));
                    } else if i == pos {
                        assert(lex_lt(k, key_of(before[j - 1])));
                    } else {
                        assert(lex_lt(key_of(before[i - 1]), key_of(before[j - 1])));
                    }
                }
            }
            lemma_pieces_of(before);
            lemma_pieces_of(after);
            assert forall|x: Seq<u8>| holds(after, x) == (x == k || holds(before, x)) by {
                if holds(before, x) {
                    let c = choose|c: int| 0 <= c < before.len() && key_of(#[trigger] before[c]) == x;
                    if c < pos {
                        assert(key_of(after[c]) == x);
                    } else {
                        assert(key_of(after[c + 1]) == x);
                    }
                }
                if holds(after, x) {
                    let c = choose|c: int| 0 <= c < after.len() && key_of(#[trigger] after[c]) == x;
                    if c < pos {
                        assert(key_of(before[c]) == x);
                    } else if c > pos {
                        assert(key_of(before[c - 1]) == x);
                    }
                }
                if x == k {
                    assert(key_of(after[pos as int]) == x);
                }
            }
            assert(pieces_of(after) =~= pieces_of(before).insert(k, idx)) by {
                assert forall|x: Seq<u8>| pieces_of(before).insert(k, idx).dom().contains(x) implies #[trigger]
                    pieces_of(after)[x] == pieces_of(before).insert(k, idx)[x] by {
                    if x == k {
                        assert(pieces_of(after).contains_pair(key_of(after[pos as int]), after[pos as int].1));
                    } else {
                        let c = choose|c: int|
                            0 <= c < before.len() && key_of(#[trigger] before[c]) == x;
                        assert(pieces_of(before).contains_pair(key_of(before[c]), before[c].1));
                        if c < pos {
                            assert(pieces_of(after).contains_pair(key_of(after[c]), after[c].1));
                        } else {
                            assert(pieces_of(after).contains_pair(
                                key_of(after[c + 1]),
                                after[c + 1].1,
                            ));
                        }
                    }
                }
            }
        }
    }
}

/// Builds the transducer that holds `entries`.
pub fn build_map(entries: &Vec<(String, u64)>) -> (r: Result<fst::Map<Vec<u8>>, fst::Error>)
    requires
        sorted(entries@),
    ensures
        r matches Ok(m) && map_pieces(m) == Some(pieces_of(entries@)),
{
    let mut builder = builder_new();
    let mut i: usize = 0;
    proof {
        assert(pieces_of(entries@.take(0)) =~= Map::empty());
    }
    while i < entries.len()
        invariant
            sorted(entries@),
            i <= entries@.len(),
            builder_pieces(builder) == pieces_of(entries@.take(i as int)),
            i == 0 ==> builder_last(builder) is None,
            i > 0 ==> builder_last(builder) == Some(key_of(entries@[i - 1])),
        decreases entries@.len() - i,
    {
        let ghost before = entries@.take(i as int);
        let ghost after = entries@.take(i + 1);
        proof {
            if i > 0 {
                assert(lex_lt(key_of(entries@[i - 1]), key_of(entries@[i as int])));
            }
        }
        match builder_insert(&mut builder, entries[i].0.as_str().as_bytes(), entries[i].1) {
            Ok(()) => {},
            Err(error) => {
                return Err(error);
            },
        }
        proof {
            let k = key_of(entries@[i as int]);
            assert(sorted(after)) by {
                assert forall|a: int, b: int| 0 <= a < b < after.len() implies lex_lt(
                    key_of(#[trigger] after[a]),
                    key_of(#[trigger] after[b]),
                ) by {
                    assert(lex_lt(key_of(entries@[a]), key_of(entries@[b])));
                }
            }
            assert(sorted(before)) by {
                assert forall|a: int, b: int| 0 <= a < b < before.len() implies lex_lt(
                    key_of(#[trigger] before[a]),
                    key_of(#[trigger] before[b]),
                ) by {
                    assert(lex_lt(key_of(entries@[a]), key_of(entries@[b])));
                }
            }
            lemma_pieces_of(before);
            lemma_pieces_of(after);
            assert forall|x: Seq<u8>| holds(after, x) == (x == k || holds(before, x)) by {
                if holds(before, x) {
                    let c = choose|c: int| 0 <= c < before.len() && key_of(#[trigger] before[c]) == x;
                    assert(key_of(after[c]) == x);
                }
                if holds(after, x) {
                    let c = choose|c: int| 0 <= c < after.len() && key_of(#[trigger] after[c]) == x;
                    if c < i {
                        assert(key_of(before[c]) == x);
                    }
                }
                if x == k {
                    assert(key_of(after[i as int]) == x);
                }
            }
            assert(pieces_of(after) =~= pieces_of(before).insert(k, entries@[i as int].1)) by {
                assert forall|x: Seq<u8>|
                    pieces_of(before).insert(k, entries@[i as int].1).dom().contains(x) implies #[trigger]
                    pieces_of(after)[x] == pieces_of(before).insert(k, entries@[i as int].1)[x] by {
                    if x == k {
                        assert(pieces_of(after).contains_pair(key_of(after[i as int]), after[i as int].1));
                    } else {
                        let c = choose|c: int|
                            0 <= c < before.len() && key_of(#[trigger] before[c]) == x;
                        assert(pieces_of(before).contains_pair(key_of(before[c]), before[c].1));
                        assert(pieces_of(after).contains_pair(key_of(after[c]), after[c].1));
                    }
                }
            }
        }
        i = i + 1;
    }
    proof {
        assert(entries@.take(i as int) =~= entries@);
    }
    Ok(builder_finish(builder))
}

} // verus!
