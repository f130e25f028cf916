use wordpieces::lex::{rank, Rank};

#[test]
fn rank_orders_byte_strings() {
    assert_eq!(rank(b"fo", b"foo"), Rank::Before);
    assert_eq!(rank(b"foo", b"fo"), Rank::After);
    assert_eq!(rank(b"foo", b"foo"), Rank::Same);
    assert_eq!(rank(b"", b""), Rank::Same);
    assert_eq!(rank(b"", b"a"), Rank::Before);
    assert_eq!(rank(b"b", b"ab"), Rank::After);
    assert_eq!(rank("ë".as_bytes(), "z".as_bytes()), Rank::After);
}
