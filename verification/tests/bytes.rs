use fuel_database::bytes::{bytes_eq, bytes_lt, starts_with};

#[test]
fn lexicographic_order() {
    assert!(bytes_lt(b"a", b"b"));
    assert!(bytes_lt(b"a", b"ab"));
    assert!(bytes_lt(b"", b"a"));
    assert!(!bytes_lt(b"ab", b"a"));
    assert!(!bytes_lt(b"a", b"a"));
    assert!(bytes_lt(&[0, 255], &[1]));
}

#[test]
fn equality_and_prefix() {
    assert!(bytes_eq(b"abc", b"abc"));
    assert!(!bytes_eq(b"abc", b"abd"));
    assert!(!bytes_eq(b"ab", b"abc"));
    assert!(starts_with(b"abc", b"ab"));
    assert!(starts_with(b"abc", b""));
    assert!(!starts_with(b"ab", b"abc"));
    assert!(!starts_with(b"abc", b"b"));
}
