//! Vocabulary listings: one piece on each line, a continuation piece behind
//! the marker `##`, and the index of a piece the number of its line.
use vstd::prelude::*;
use vstd::utf8::encode_utf8;
use crate::lex::{lemma_lex_asymmetric, lemma_lex_irreflexive, lex_lt};
use crate::text::{has_marker, marker};

verus! {

/// The two classes of a vocabulary, `(initial, continuation)`, after the
/// piece on `line` was stored with `idx`: in the continuation pieces and
/// without its marker where the line starts with the marker, among the
/// initial pieces as it stands where it does not. What was stored for the
/// same text before is replaced.
pub open spec fn with_piece(
    initial: Map<Seq<u8>, u64>,
    continuation: Map<Seq<u8>, u64>,
    line: Seq<u8>,
    idx: u64,
) -> (Map<Seq<u8>, u64>, Map<Seq<u8>, u64>) {
    if has_marker(line) {
        (initial, continuation.insert(line.skip(2), idx))
    } else {
        (initial.insert(line, idx), continuation)
    }
}

/// The two classes of the vocabulary that `lines` list, `(initial,
/// continuation)`: each line stored in turn with the number of lines before
/// it.
pub open spec fn listed(lines: Seq<Seq<u8>>) -> (Map<Seq<u8>, u64>, Map<Seq<u8>, u64>)
    decreases lines.len(),
{
    if lines.len() == 0 {
        (Map::empty(), Map::empty())
    } else {
        let before = listed(lines.drop_last());
        with_piece(before.0, before.1, lines.last(), (lines.len() - 1) as u64)
    }
}

/// The bytes of each of `lines`.
pub open spec fn texts(lines: Seq<String>) -> Seq<Seq<u8>> {
    Seq::new(lines.len(), |i: int| encode_utf8(lines[i]@))
}

/// `k` is the last of the texts that `pieces` hold with the index `idx`, in
/// the lexicographic order of the texts.
pub open spec fn is_last_with(pieces: Map<Seq<u8>, u64>, k: Seq<u8>, idx: u64) -> bool {
    &&& pieces.contains_pair(k, idx)
    &&& forall|other: Seq<u8>| #[trigger]
        pieces.contains_pair(other, idx) ==> other == k || lex_lt(other, k)
}

/// The last of the texts that `pieces` hold with the index `idx`, if there
/// is one.
pub open spec fn last_with(pieces: Map<Seq<u8>, u64>, idx: u64) -> Option<Seq<u8>> {
    if exists|k: Seq<u8>| is_last_with(pieces, k, idx) {
        Some(choose|k: Seq<u8>| is_last_with(pieces, k, idx))
    } else {
        None
    }
}

/// The line of a listing that has the number `idx`: the continuation piece
/// with that index behind the marker; where there is none, the initial piece
/// with that index; where there is none either, an empty line. Of several
/// pieces of a class with that index, the last is taken.
pub open spec fn line_at(initial: Map<Seq<u8>, u64>, continuation: Map<Seq<u8>, u64>, idx: u64) -> Seq<
    u8,
> {
    match last_with(continuation, idx) {
        Some(k) => marker() + k,
        None => match last_with(initial, idx) {
            Some(k) => k,
            None => Seq::empty(),
        },
    }
}

/// The listing of a vocabulary by index: as many lines as it has pieces, and
/// on each the piece that has the number of the line for its index. A piece
/// whose index is not below the number of pieces is on no line.
pub open spec fn listing(initial: Map<Seq<u8>, u64>, continuation: Map<Seq<u8>, u64>) -> Seq<Seq<u8>> {
    Seq::new(
        initial.dom().len() + continuation.dom().len(),
        |i: int| line_at(initial, continuation, i as u64),
    )
}

/// `entries` are the pairs of `pieces`, each once, in the lexicographic
/// order of their texts.
pub open spec fn lists(entries: Seq<(Seq<u8>, u64)>, pieces: Map<Seq<u8>, u64>) -> bool {
    &&& forall|i: int|
        0 <= i < entries.len() ==> pieces.contains_pair((#[trigger] entries[i]).0, entries[i].1)
    &&& forall|k: Seq<u8>| #[trigger]
        pieces.dom().contains(k) ==> exists|i: int|
            0 <= i < entries.len() && (#[trigger] entries[i]).0 == k
    &&& forall|i: int, j: int|
        0 <= i < j < entries.len() ==> lex_lt((#[trigger] entries[i]).0, (#[trigger] entries[j]).0)
}

/// Each of `entries` with the bytes of its text.
pub open spec fn pairs(entries: Seq<(Vec<u8>, u64)>) -> Seq<(Seq<u8>, u64)> {
    Seq::new(entries.len(), |i: int| (entries[i].0@, entries[i].1))
}

/// The text of the last of the first `n` of `entries` that has the index
/// `idx`.
pub open spec fn last_in(entries: Seq<(Seq<u8>, u64)>, n: int, idx: u64) -> Option<Seq<u8>>
    decreases n,
{
    if n <= 0 {
        None
    } else if entries[n - 1].1 == idx {
        Some(entries[n - 1].0)
    } else {
        last_in(entries, n - 1, idx)
    }
}

/// A map has as many pieces as a list of its pairs has entries.
pub proof fn lemma_lists_count(entries: Seq<(Seq<u8>, u64)>, pieces: Map<Seq<u8>, u64>)
    requires
        lists(entries, pieces),
    ensures
        pieces.dom().finite(),
        pieces.dom().len() == entries.len(),
{
    let keys = Seq::new(entries.len(), |i: int| entries[i].0);
    assert(keys.no_duplicates()) by {
        assert forall|i: int, j: int|
            0 <= i < keys.len() && 0 <= j < keys.len() && i != j implies keys[i] != keys[j] by {
            lemma_lex_irreflexive(keys[i]);
            if i < j {
                assert(lex_lt(entries[i].0, entries[j].0));
            } else {
                assert(lex_lt(entries[j].0, entries[i].0));
            }
        }
    }
    assert(keys.to_set() =~= pieces.dom()) by {
        assert forall|k: Seq<u8>| keys.to_set().contains(k) == pieces.dom().contains(k) by {
            if keys.contains(k) {
                let i = choose|i: int| 0 <= i < keys.len() && keys[i] == k;
                assert(pieces.contains_pair(entries[i].0, entries[i].1));
            }
            if pieces.dom().contains(k) {
                let i = choose|i: int| 0 <= i < entries.len() && (#[trigger] entries[i]).0 == k;
                assert(keys[i] == k);
            }
        }
    }
    keys.unique_seq_to_set();
    vstd::seq_lib::seq_to_set_is_finite(keys);
}

/// What `last_in` finds is a text of the first `n` entries with the index,
/// and every later one of them with the index has an earlier place.
proof fn lemma_last_in(entries: Seq<(Seq<u8>, u64)>, n: int, idx: u64)
    requires
        0 <= n <= entries.len(),
    ensures
        last_in(entries, n, idx) is None ==> forall|i: int|
            0 <= i < n ==> (#[trigger] entries[i]).1 != idx,
        last_in(entries, n, idx) matches Some(k) ==> exists|p: int|
            0 <= p < n && (#[trigger] entries[p]) == (k, idx) && forall|i: int|
                p < i < n ==> (#[trigger] entries[i]).1 != idx,
    decreases n,
{
    if n > 0 {
        if entries[n - 1].1 == idx {
            assert(entries[n - 1] == (entries[n - 1].0, idx));
        } else {
            lemma_last_in(entries, n - 1, idx);
            if last_in(entries, n, idx) is Some {
                let k = last_in(entries, n, idx)->0;
                let p = choose|p: int|
                    0 <= p < n - 1 && (#[trigger] entries[p]) == (k, idx) && forall|i: int|
                        p < i < n - 1 ==> (#[trigger] entries[i]).1 != idx;
                assert(0 <= p < n && entries[p] == (k, idx) && forall|i: int|
                    p < i < n ==> (#[trigger] entries[i]).1 != idx);
            }
        }
    }
}

/// Going through a list of the pairs of a map, the last entry with an index
/// has the last text that the map holds with it.
pub proof fn lemma_last_in_is_last_with(
    entries: Seq<(Seq<u8>, u64)>,
    pieces: Map<Seq<u8>, u64>,
    idx: u64,
)
    requires
        lists(entries, pieces),
    ensures
        last_in(entries, entries.len() as int, idx) == last_with(pieces, idx),
{
    let n = entries.len() as int;
    lemma_last_in(entries, n, idx);
    match last_in(entries, n, idx) {
        None => {
            assert forall|k: Seq<u8>| !is_last_with(pieces, k, idx) by {
                if pieces.contains_pair(k, idx) {
                    let i = choose|i: int| 0 <= i < entries.len() && (#[trigger] entries[i]).0 == k;
                    assert(pieces.contains_pair(entries[i].0, entries[i].1));
                }
            }
        },
        Some(k) => {
            let p = choose|p: int|
                0 <= p < n && (#[trigger] entries[p]) == (k, idx) && forall|i: int|
                    p < i < n ==> (#[trigger] entries[i]).1 != idx;
            assert(pieces.contains_pair(entries[p].0, entries[p].1));
            assert(is_last_with(pieces, k, idx)) by {
                assert forall|other: Seq<u8>| #[trigger]
                    pieces.contains_pair(other, idx) implies other == k || lex_lt(other, k) by {
                    let i = choose|i: int|
                        0 <= i < entries.len() && (#[trigger] entries[i]).0 == other;
                    assert(pieces.contains_pair(entries[i].0, entries[i].1));
                    if i < p {
                        assert(lex_lt(entries[i].0, entries[p].0));
                    }
                }
            }
            lemma_last_with_unique(pieces, k, idx);
        },
    }
}

/// Only one text is the last with an index.
pub proof fn lemma_last_with_unique(pieces: Map<Seq<u8>, u64>, k: Seq<u8>, idx: u64)
    requires
        is_last_with(pieces, k, idx),
    ensures
        last_with(pieces, idx) == Some(k),
{
    let c = choose|c: Seq<u8>| is_last_with(pieces, c, idx);
    if c != k {
        assert(pieces.contains_pair(c, idx));
        assert(pieces.contains_pair(k, idx));
        assert(lex_lt(c, k));
        assert(lex_lt(k, c));
        lemma_lex_asymmetric(c, k);
    }
}

/// Line `i` of `lines` holds the initial piece `k` and gives it the index
/// `v`.
pub open spec fn lists_initial(lines: Seq<Seq<u8>>, i: int, k: Seq<u8>, v: u64) -> bool {
    0 <= i < lines.len() && !has_marker(lines[i]) && lines[i] == k && v == i
}

/// Line `i` of `lines` holds the continuation piece `k` behind the marker
/// and gives it the index `v`.
pub open spec fn lists_continuation(lines: Seq<Seq<u8>>, i: int, k: Seq<u8>, v: u64) -> bool {
    0 <= i < lines.len() && has_marker(lines[i]) && lines[i].skip(2) == k && v == i
}

/// A listing in which no line occurs twice gives a vocabulary one piece for
/// each line: a pair stands in a class if and only if a line holds it.
pub proof fn lemma_listed(lines: Seq<Seq<u8>>)
    requires
        lines.no_duplicates(),
        lines.len() <= u64::MAX,
    ensures
        listed(lines).0.dom().finite(),
        listed(lines).1.dom().finite(),
        listed(lines).0.dom().len() + listed(lines).1.dom().len() == lines.len(),
        forall|k: Seq<u8>, v: u64| #[trigger]
            listed(lines).0.contains_pair(k, v) <==> exists|i: int| lists_initial(lines, i, k, v),
        forall|k: Seq<u8>, v: u64| #[trigger]
            listed(lines).1.contains_pair(k, v) <==> exists|i: int|
                lists_continuation(lines, i, k, v),
    decreases lines.len(),
{
    if lines.len() > 0 {
        let front = lines.drop_last();
        let last = lines.last();
        let idx = (lines.len() - 1) as u64;
        let before = listed(front);
        let after = listed(lines);
        lemma_listed(front);
        assert forall|i: int, k: Seq<u8>, v: u64| lists_initial(front, i, k, v) implies lists_initial(
            lines,
            i,
            k,
            v,
        ) by {
            assert(front[i] == lines[i]);
        }
        assert forall|i: int, k: Seq<u8>, v: u64|
            lists_continuation(front, i, k, v) implies lists_continuation(lines, i, k, v) by {
            assert(front[i] == lines[i]);
        }
        assert forall|i: int, k: Seq<u8>, v: u64|
            lists_initial(lines, i, k, v) && i < front.len() implies lists_initial(front, i, k, v) by {
            assert(front[i] == lines[i]);
        }
        assert forall|i: int, k: Seq<u8>, v: u64|
            lists_continuation(lines, i, k, v) && i < front.len() implies lists_continuation(
                front,
                i,
                k,
                v,
            ) by {
            assert(front[i] == lines[i]);
        }
        if has_marker(last) {
            let key = last.skip(2);
            assert(last =~= marker() + key);
            if before.1.dom().contains(key) {
                let v = before.1[key];
                assert(before.1.contains_pair(key, v));
                let i = choose|i: int| lists_continuation(front, i, key, v);
                assert(front[i] =~= marker() + key);
                assert(lines[i] == lines[lines.len() - 1]);
            }
            assert(after.1.dom() =~= before.1.dom().insert(key));
            assert forall|k: Seq<u8>, v: u64| #[trigger]
                after.1.contains_pair(k, v) <==> exists|i: int|
                    lists_continuation(lines, i, k, v) by {
                if after.1.contains_pair(k, v) {
                    if k == key {
                        assert(lists_continuation(lines, lines.len() - 1, k, v));
                    } else {
                        assert(before.1.contains_pair(k, v));
                        let i = choose|i: int| lists_continuation(front, i, k, v);
                        assert(lists_continuation(lines, i, k, v));
                    }
                }
                if exists|i: int| lists_continuation(lines, i, k, v) {
                    let i = choose|i: int| lists_continuation(lines, i, k, v);
                    if i < front.len() {
                        assert(lists_continuation(front, i, k, v));
                        assert(before.1.contains_pair(k, v));
                    }
                }
            }
            assert forall|k: Seq<u8>, v: u64| #[trigger]
                after.0.contains_pair(k, v) <==> exists|i: int| lists_initial(lines, i, k, v) by {
                if after.0.contains_pair(k, v) {
                    let i = choose|i: int| lists_initial(front, i, k, v);
                    assert(lists_initial(lines, i, k, v));
                }
                if exists|i: int| lists_initial(lines, i, k, v) {
                    let i = choose|i: int| lists_initial(lines, i, k, v);
                    assert(lists_initial(front, i, k, v));
                }
            }
        } else {
            if before.0.dom().contains(last) {
                let v = before.0[last];
                assert(before.0.contains_pair(last, v));
                let i = choose|i: int| lists_initial(front, i, last, v);
                assert(lines[i] == lines[lines.len() - 1]);
            }
            assert(after.0.dom() =~= before.0.dom().insert(last));
            assert forall|k: Seq<u8>, v: u64| #[trigger]
                after.0.contains_pair(k, v) <==> exists|i: int| lists_initial(lines, i, k, v) by {
                if after.0.contains_pair(k, v) {
                    if k == last {
                        assert(lists_initial(lines, lines.len() - 1, k, v));
                    } else {
                        assert(before.0.contains_pair(k, v));
                        let i = choose|i: int| lists_initial(front, i, k, v);
                        assert(lists_initial(lines, i, k, v));
                    }
                }
                if exists|i: int| lists_initial(lines, i, k, v) {
                    let i = choose|i: int| lists_initial(lines, i, k, v);
                    if i < front.len() {
                        assert(lists_initial(front, i, k, v));
                        assert(before.0.contains_pair(k, v));
                    }
                }
            }
            assert forall|k: Seq<u8>, v: u64| #[trigger]
                after.1.contains_pair(k, v) <==> exists|i: int|
                    lists_continuation(lines, i, k, v) by {
                if after.1.contains_pair(k, v) {
                    let i = choose|i: int| lists_continuation(front, i, k, v);
                    assert(lists_continuation(lines, i, k, v));
                }
                if exists|i: int| lists_continuation(lines, i, k, v) {
                    let i = choose|i: int| lists_continuation(lines, i, k, v);
                    assert(lists_continuation(front, i, k, v));
                }
            }
        }
    }
}

/// The line with the number `i` of the listing of a vocabulary that was
/// read from `lines`, none of which occurs twice, is line `i` of `lines`.
pub proof fn lemma_line_at_listed(lines: Seq<Seq<u8>>, i: int)
    requires
        lines.no_duplicates(),
        lines.len() <= u64::MAX,
        0 <= i < lines.len(),
    ensures
        line_at(listed(lines).0, listed(lines).1, i as u64) == lines[i],
{
    let initial = listed(lines).0;
    let continuation = listed(lines).1;
    let idx = i as u64;
    lemma_listed(lines);
    if has_marker(lines[i]) {
        let key = lines[i].skip(2);
        assert(lines[i] =~= marker() + key);
        assert(lists_continuation(lines, i, key, idx));
        assert(is_last_with(continuation, key, idx)) by {
            assert forall|other: Seq<u8>| #[trigger]
                continuation.contains_pair(other, idx) implies other == key || lex_lt(other, key) by {
                let j = choose|j: int| lists_continuation(lines, j, other, idx);
                assert(j == i);
            }
        }
        lemma_last_with_unique(continuation, key, idx);
    } else {
        assert forall|k: Seq<u8>| !is_last_with(continuation, k, idx) by {
            if continuation.contains_pair(k, idx) {
                let j = choose|j: int| lists_continuation(lines, j, k, idx);
                assert(j == i);
            }
        }
        assert(lists_initial(lines, i, lines[i], idx));
        assert(is_last_with(initial, lines[i], idx)) by {
            assert forall|other: Seq<u8>| #[trigger]
                initial.contains_pair(other, idx) implies other == lines[i] || lex_lt(
                other,
                lines[i],
            ) by {
                let j = choose|j: int| lists_initial(lines, j, other, idx);
                assert(j == i);
            }
        }
        lemma_last_with_unique(initial, lines[i], idx);
    }
}

} // verus!
