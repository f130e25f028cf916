use std::collections::BTreeMap;
use std::iter::FromIterator;

use fst::MapBuilder;

use wordpieces::error::WordPiecesError;
use wordpieces::word_pieces::{WordPiece, WordPieces, WordPiecesBuilder};

fn pieces_to_map(pieces: &[(&str, u64)]) -> fst::Map<Vec<u8>> {
    let pieces = BTreeMap::from_iter(pieces.iter().map(|(piece, idx)| (piece.to_string(), *idx)));
    let mut builder = MapBuilder::memory();
    builder.extend_iter(pieces).unwrap();
    fst::Map::new(builder.into_inner().unwrap()).unwrap()
}

fn example_word_pieces() -> WordPieces {
    WordPieces::new(
        pieces_to_map(&[("voor", 0), ("coördina", 2)]),
        pieces_to_map(&[("tie", 1), ("kom", 3), ("en", 4), ("komt", 1)]),
    )
}

fn example_lines() -> Vec<String> {
    ["voor", "##tie", "coördina", "##en", "##komt", "##", "", " spaced ", "##ë"]
        .iter()
        .map(|line| line.to_string())
        .collect()
}

#[test]
fn test_word_pieces() {
    let word_pieces = example_word_pieces();

    assert_eq!(
        word_pieces.split("voor").collect(),
        vec![WordPiece::Found {
            piece: "voor",
            idx: 0
        }]
    );
    assert_eq!(
        word_pieces.split("unknown").collect(),
        vec![WordPiece::Missing]
    );
    assert_eq!(
        word_pieces.split("voorman").collect(),
        vec![
            WordPiece::Found {
                piece: "voor",
                idx: 0
            },
            WordPiece::Missing
        ]
    );
    assert_eq!(
        word_pieces.split("coördinatie").collect(),
        vec![
            WordPiece::Found {
                piece: "coördina",
                idx: 2
            },
            WordPiece::Found {
                piece: "tie",
                idx: 1
            }
        ]
    );
    assert_eq!(
        word_pieces.split("voorkomen").collect(),
        vec![
            WordPiece::Found {
                piece: "voor",
                idx: 0,
            },
            WordPiece::Found {
                piece: "kom",
                idx: 3
            },
            WordPiece::Found {
                piece: "en",
                idx: 4
            },
        ]
    );
}

#[test]
fn longest_prefix_used() {
    let word_pieces = WordPieces::new(
        pieces_to_map(&[("foo", 0), ("fo", 2)]),
        pieces_to_map(&[("o", 1), ("bar", 3), ("b", 4), ("a", 5), ("r", 6)]),
    );

    assert_eq!(
        word_pieces.split("foobar").collect(),
        vec![
            WordPiece::Found {
                piece: "foo",
                idx: 0
            },
            WordPiece::Found {
                piece: "bar",
                idx: 3
            }
        ]
    );
}

#[test]
fn test_original_pieces_are_returned() {
    let pieces = example_lines();
    let mut builder = WordPiecesBuilder::default();
    for (idx, piece) in pieces.iter().enumerate() {
        builder.insert(piece, idx as u64);
    }
    let wordpieces = builder.build().unwrap();
    assert_eq!(Vec::from(&wordpieces), pieces);
}

#[test]
fn test_word_pieces_file() {
    let word_pieces = WordPieces::from_lines(&example_lines()).unwrap();

    assert_eq!(
        word_pieces.split("voor").collect(),
        vec![WordPiece::Found {
            piece: "voor",
            idx: 0
        }]
    );
    assert_eq!(
        word_pieces.split("unknown").collect(),
        vec![WordPiece::Missing]
    );
    assert_eq!(
        word_pieces.split("voorman").collect(),
        vec![
            WordPiece::Found {
                piece: "voor",
                idx: 0
            },
            WordPiece::Missing
        ]
    );
    assert_eq!(
        word_pieces.split("coördinatie").collect(),
        vec![
            WordPiece::Found {
                piece: "coördina",
                idx: 2
            },
            WordPiece::Found {
                piece: "tie",
                idx: 1
            }
        ]
    );
}

#[test]
fn word_that_is_an_initial_piece_is_one_piece() {
    let word_pieces = example_word_pieces();
    for (piece, idx) in [("voor", 0u64), ("coördina", 2)] {
        assert_eq!(word_pieces.get_initial(piece), Some(idx));
        assert_eq!(
            word_pieces.split(piece).collect(),
            vec![WordPiece::Found { piece, idx }]
        );
    }
}

#[test]
fn continuation_piece_is_looked_up_but_never_first() {
    let word_pieces = example_word_pieces();
    assert_eq!(word_pieces.get_continuation("tie"), Some(1));
    assert_eq!(word_pieces.get_continuation("kom"), Some(3));
    assert_eq!(word_pieces.get_continuation("en"), Some(4));
    assert_eq!(word_pieces.get_continuation("komt"), Some(1));
    assert_eq!(word_pieces.get_continuation("voor"), None);
    assert_eq!(word_pieces.get_continuation("ti"), None);
    assert_eq!(word_pieces.get_continuation(""), None);
    assert_eq!(word_pieces.get_initial("tie"), None);
    assert_eq!(word_pieces.get_initial("voo"), None);
    for word in ["tie", "kom", "en", "komt"] {
        assert_eq!(word_pieces.split(word).collect(), vec![WordPiece::Missing]);
    }
}

#[test]
fn longest_match_wins_over_shorter_pieces() {
    let mut builder = WordPiecesBuilder::new();
    for (idx, piece) in ["fo", "foo", "##o", "##bar", "##b", "##a", "##r"]
        .iter()
        .enumerate()
    {
        builder.insert(piece, idx as u64);
    }
    let word_pieces = builder.build().unwrap();
    assert_eq!(
        word_pieces.split("foobar").collect(),
        vec![
            WordPiece::Found {
                piece: "foo",
                idx: 1
            },
            WordPiece::Found {
                piece: "bar",
                idx: 3
            }
        ]
    );
    // A shorter piece is taken where the longer one does not match.
    assert_eq!(
        word_pieces.split("fobar").collect(),
        vec![
            WordPiece::Found {
                piece: "fo",
                idx: 0
            },
            WordPiece::Found {
                piece: "bar",
                idx: 3
            }
        ]
    );
    // The split does not go back on a piece that it has taken.
    assert_eq!(
        word_pieces.split("foob").collect(),
        vec![
            WordPiece::Found {
                piece: "foo",
                idx: 1
            },
            WordPiece::Found {
                piece: "b",
                idx: 4
            }
        ]
    );
    assert_eq!(
        word_pieces.split("fooba").collect(),
        vec![
            WordPiece::Found {
                piece: "foo",
                idx: 1
            },
            WordPiece::Found {
                piece: "b",
                idx: 4
            },
            WordPiece::Found {
                piece: "a",
                idx: 5
            }
        ]
    );
}

#[test]
fn missing_piece_ends_the_split_and_keeps_what_was_found() {
    let word_pieces = WordPieces::new(pieces_to_map(&[("voor", 0)]), pieces_to_map(&[("n", 1)]));
    assert_eq!(
        word_pieces.split("voorman").collect(),
        vec![
            WordPiece::Found {
                piece: "voor",
                idx: 0
            },
            WordPiece::Missing
        ]
    );
}

#[test]
fn word_without_any_match_is_one_missing_piece() {
    let word_pieces = example_word_pieces();
    assert_eq!(
        word_pieces.split("unknown").collect(),
        vec![WordPiece::Missing]
    );
    let empty = WordPieces::new(pieces_to_map(&[]), pieces_to_map(&[]));
    assert_eq!(empty.split("unknown").collect(), vec![WordPiece::Missing]);
    assert_eq!(empty.get_initial("unknown"), None);
}

#[test]
fn listing_is_reproduced_from_lines() {
    let lines = example_lines();
    let word_pieces = WordPieces::from_lines(&lines).unwrap();
    assert_eq!(word_pieces.pieces_by_index(), lines);
    assert_eq!(Vec::from(&word_pieces), lines);

    assert_eq!(word_pieces.get_initial("voor"), Some(0));
    assert_eq!(word_pieces.get_continuation("tie"), Some(1));
    assert_eq!(word_pieces.get_initial("coördina"), Some(2));
    assert_eq!(word_pieces.get_continuation(""), Some(5));
    assert_eq!(word_pieces.get_initial(""), Some(6));
    assert_eq!(word_pieces.get_initial(" spaced "), Some(7));
    assert_eq!(word_pieces.get_initial("spaced"), None);
    assert_eq!(word_pieces.get_continuation("ë"), Some(8));
    assert_eq!(word_pieces.get_initial("##tie"), None);

    let none: Vec<String> = Vec::new();
    let word_pieces = WordPieces::from_lines(&none).unwrap();
    assert_eq!(word_pieces.pieces_by_index(), none);
}

#[test]
fn listing_has_empty_lines_for_gaps() {
    let mut builder = WordPiecesBuilder::new();
    builder.insert("a", 5);
    let word_pieces = builder.build().unwrap();
    assert_eq!(word_pieces.pieces_by_index(), vec![String::new()]);

    let mut builder = WordPiecesBuilder::new();
    builder.insert("b", 0);
    builder.insert("a", 0);
    builder.insert("##c", 2);
    builder.insert("d", 7);
    let word_pieces = builder.build().unwrap();
    assert_eq!(
        word_pieces.pieces_by_index(),
        vec!["b".to_string(), String::new(), "##c".to_string(), String::new()]
    );

    let mut builder = WordPiecesBuilder::new();
    builder.insert("a", 0);
    builder.insert("##a", 0);
    let word_pieces = builder.build().unwrap();
    assert_eq!(
        word_pieces.pieces_by_index(),
        vec!["##a".to_string(), String::new()]
    );
}

#[test]
fn line_that_occurs_twice_is_one_piece() {
    let lines = vec!["a".to_string(), "a".to_string()];
    let word_pieces = WordPieces::from_lines(&lines).unwrap();
    assert_eq!(word_pieces.get_initial("a"), Some(1));
    assert_eq!(word_pieces.pieces_by_index(), vec![String::new()]);

    let lines = vec!["##a".to_string(), "b".to_string(), "##a".to_string()];
    let word_pieces = WordPieces::from_lines(&lines).unwrap();
    assert_eq!(word_pieces.get_continuation("a"), Some(2));
    assert_eq!(
        word_pieces.pieces_by_index(),
        vec![String::new(), "b".to_string()]
    );
}

#[test]
fn later_insert_replaces_the_index() {
    let mut builder = WordPiecesBuilder::new();
    builder.insert("voor", 0);
    builder.insert("##tie", 1);
    builder.insert("voor", 2);
    builder.insert("##tie", 3);
    builder.insert("aap", 4);
    builder.insert("zebra", 5);
    builder.insert("##", 6);
    builder.insert("#", 7);
    builder.insert("###", 8);
    let word_pieces = builder.build().unwrap();
    assert_eq!(word_pieces.get_initial("voor"), Some(2));
    assert_eq!(word_pieces.get_continuation("tie"), Some(3));
    assert_eq!(word_pieces.get_initial("aap"), Some(4));
    assert_eq!(word_pieces.get_initial("zebra"), Some(5));
    assert_eq!(word_pieces.get_continuation(""), Some(6));
    assert_eq!(word_pieces.get_initial("#"), Some(7));
    assert_eq!(word_pieces.get_continuation("#"), Some(8));
    assert_eq!(word_pieces.get_initial("##"), None);
    assert_eq!(word_pieces.get_initial("tie"), None);
    assert_eq!(word_pieces.get_continuation("voor"), None);
}

#[test]
fn pieces_are_built_from_any_order_of_inserts() {
    let pieces = ["m", "z", "a", "mm", "b", "y", "ma", "c", "x", "mz", "é", "e"];
    let mut builder = WordPiecesBuilder::new();
    for (idx, piece) in pieces.iter().enumerate() {
        builder.insert(piece, idx as u64);
        builder.insert(&format!("##{}", piece), 100 + idx as u64);
    }
    let word_pieces = builder.build().unwrap();
    for (idx, piece) in pieces.iter().enumerate() {
        assert_eq!(word_pieces.get_initial(piece), Some(idx as u64));
        assert_eq!(word_pieces.get_continuation(piece), Some(100 + idx as u64));
    }
    assert_eq!(
        word_pieces.split("mzé").collect(),
        vec![
            WordPiece::Found {
                piece: "mz",
                idx: 9
            },
            WordPiece::Found {
                piece: "é",
                idx: 110
            }
        ]
    );
}

#[test]
fn split_cuts_at_code_point_boundaries() {
    let word_pieces = WordPieces::new(
        pieces_to_map(&[("ä", 0), ("e", 1), ("日", 2), ("\u{10348}x", 3)]),
        pieces_to_map(&[("ë", 4), ("本", 5), ("\u{10348}", 6)]),
    );
    // "é" starts with no piece, though its first byte is not far from "e".
    assert_eq!(word_pieces.split("é").collect(), vec![WordPiece::Missing]);
    // "ã" shares its first byte with "ä".
    assert_eq!(word_pieces.split("ã").collect(), vec![WordPiece::Missing]);
    assert_eq!(
        word_pieces.split("äë").collect(),
        vec![
            WordPiece::Found {
                piece: "ä",
                idx: 0
            },
            WordPiece::Found {
                piece: "ë",
                idx: 4
            }
        ]
    );
    assert_eq!(
        word_pieces.split("äï").collect(),
        vec![
            WordPiece::Found {
                piece: "ä",
                idx: 0
            },
            WordPiece::Missing
        ]
    );
    for word in ["日本", "日本\u{10348}", "\u{10348}x本ë", "äëë本"] {
        let pieces = word_pieces.split(word).collect();
        let mut joined = String::new();
        for piece in pieces.iter() {
            joined.push_str(piece.piece().unwrap());
        }
        assert_eq!(joined, word);
    }
    let pieces = word_pieces.split("日本語").collect();
    assert_eq!(
        pieces,
        vec![
            WordPiece::Found {
                piece: "日",
                idx: 2
            },
            WordPiece::Found {
                piece: "本",
                idx: 5
            },
            WordPiece::Missing
        ]
    );
}

#[test]
fn splitting_twice_gives_the_same_pieces() {
    let word_pieces = example_word_pieces();
    for word in ["voor", "unknown", "voorman", "coördinatie", "voorkomen"] {
        let first = word_pieces.split(word).collect();
        let second = word_pieces.split(word).collect();
        assert_eq!(first, second);
    }
}

#[test]
fn iterator_yields_one_piece_at_a_time() {
    let word_pieces = example_word_pieces();
    let mut iter = word_pieces.split("voorkomt");
    assert_eq!(
        iter.next(),
        Some(WordPiece::Found {
            piece: "voor",
            idx: 0
        })
    );
    assert_eq!(
        iter.next(),
        Some(WordPiece::Found {
            piece: "komt",
            idx: 1
        })
    );
    assert_eq!(iter.next(), None);
    assert_eq!(iter.next(), None);

    let mut iter = word_pieces.split("voorx");
    assert_eq!(
        iter.next(),
        Some(WordPiece::Found {
            piece: "voor",
            idx: 0
        })
    );
    assert_eq!(iter.next(), Some(WordPiece::Missing));
    assert_eq!(iter.next(), None);

    let mut iter = word_pieces.split("voorkomen");
    iter.next();
    assert_eq!(
        iter.collect(),
        vec![
            WordPiece::Found {
                piece: "kom",
                idx: 3
            },
            WordPiece::Found {
                piece: "en",
                idx: 4
            }
        ]
    );
}

#[test]
fn piece_and_index_are_unwrapped() {
    let found = WordPiece::Found {
        piece: "voor",
        idx: 7,
    };
    assert_eq!(found.idx(), Some(7));
    assert_eq!(found.piece(), Some("voor"));
    assert_eq!(Option::<&str>::from(&found), Some("voor"));
    assert_eq!(WordPiece::Missing.idx(), None);
    assert_eq!(WordPiece::Missing.piece(), None);
    assert_eq!(Option::<&str>::from(&WordPiece::Missing), None);
}

#[test]
fn empty_piece_is_never_a_match() {
    let word_pieces = WordPieces::new(pieces_to_map(&[("", 0), ("a", 1)]), pieces_to_map(&[("", 2)]));
    assert_eq!(word_pieces.get_initial(""), Some(0));
    assert_eq!(word_pieces.get_continuation(""), Some(2));
    assert_eq!(word_pieces.split("b").collect(), vec![WordPiece::Missing]);
    assert_eq!(
        word_pieces.split("ab").collect(),
        vec![
            WordPiece::Found {
                piece: "a",
                idx: 1
            },
            WordPiece::Missing
        ]
    );
}

#[test]
fn large_indices_are_kept() {
    let word_pieces = WordPieces::new(
        pieces_to_map(&[("a", u64::MAX), ("ab", 1 << 40), ("abc", 3)]),
        pieces_to_map(&[("d", u64::MAX - 1)]),
    );
    assert_eq!(
        word_pieces.split("a").collect(),
        vec![WordPiece::Found {
            piece: "a",
            idx: u64::MAX
        }]
    );
    assert_eq!(
        word_pieces.split("abd").collect(),
        vec![
            WordPiece::Found {
                piece: "ab",
                idx: 1 << 40
            },
            WordPiece::Found {
                piece: "d",
                idx: u64::MAX - 1
            }
        ]
    );
    assert_eq!(
        word_pieces.split("abc").collect(),
        vec![WordPiece::Found {
            piece: "abc",
            idx: 3
        }]
    );
}

#[test]
fn errors_are_made_from_their_sources() {
    let fst_error = fst::Map::new(Vec::<u8>::new()).err().unwrap();
    assert!(matches!(
        WordPiecesError::from(fst_error),
        WordPiecesError::FstError(_)
    ));
    let io_error = std::io::Error::new(std::io::ErrorKind::Other, "no more lines");
    assert!(matches!(
        WordPiecesError::from(io_error),
        WordPiecesError::IOError(_)
    ));
}
