use protohackers::text::{
    bytes_equal, find_byte, format_usize, parse_usize, replace_bytes, rfind_byte, split_bytes,
    starts_with_at,
};

#[test]
fn parse_usize_accepts_digits_and_plus() {
    assert_eq!(parse_usize(b"12"), Some(12));
    assert_eq!(parse_usize(b"+7"), Some(7));
    assert_eq!(parse_usize(b"0"), Some(0));
}

#[test]
fn parse_usize_refuses_other_text() {
    assert_eq!(parse_usize(b""), None);
    assert_eq!(parse_usize(b"+"), None);
    assert_eq!(parse_usize(b"12a"), None);
    assert_eq!(parse_usize(b"-1"), None);
    assert_eq!(parse_usize(b"99999999999999999999999"), None);
}

#[test]
fn format_then_parse() {
    for n in [0usize, 9, 10, 12345, usize::MAX] {
        let s = format_usize(n);
        assert_eq!(s, n.to_string().into_bytes());
        assert_eq!(parse_usize(&s), Some(n));
    }
}

#[test]
fn split_and_find() {
    let parts = split_bytes(b"a,b,,c", b',');
    assert_eq!(parts, vec![b"a".to_vec(), b"b".to_vec(), b"".to_vec(), b"c".to_vec()]);
    assert_eq!(split_bytes(b"", b','), vec![Vec::<u8>::new()]);
    assert_eq!(find_byte(b"a/b/c", b'/'), Some(1));
    assert_eq!(rfind_byte(b"a/b/c", b'/'), Some(3));
    assert_eq!(find_byte(b"abc", b'/'), None);
}

#[test]
fn replace_and_compare() {
    assert_eq!(replace_bytes(b"a/b/c", b"/", b"\\/"), b"a\\/b\\/c".to_vec());
    assert_eq!(replace_bytes(b"aaa", b"aa", b"b"), b"ba".to_vec());
    assert!(starts_with_at(b"hello", 1, b"ell"));
    assert!(!starts_with_at(b"hello", 2, b"lx"));
    assert!(bytes_equal(b"xy", b"xy"));
    assert!(!bytes_equal(b"xy", b"xz"));
}
