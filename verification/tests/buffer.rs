use red_string::RedString;

#[test]
fn test_empty() {
    let s = RedString::new();
    assert_eq!(s.len(), 0);
    assert_eq!(s.as_str(), "");
}

#[test]
fn test_with_capacity() {
    let s = RedString::with_capacity(16);
    assert_eq!(s.len(), 0);
    assert_eq!(s.as_str(), "");
}

#[test]
fn test_push() {
    let mut s = RedString::new();
    s.push('a');
    s.push('b');
    s.push('c');
    assert_eq!(s.len(), 3);
    assert_eq!(s.as_str(), "abc");
}

#[test]
fn test_push_str() {
    let mut s = RedString::new();
    s.push_str("abc");
    assert_eq!(s.len(), 3);
    assert_eq!(s.as_str(), "abc");
}

#[test]
fn test_insert() {
    let mut s = RedString::from_str("abc");
    s.insert(0, 'd');
    assert_eq!(s.len(), 4);
    assert_eq!(s.as_str(), "dabc");
}

#[test]
fn test_insert_str() {
    let mut s = RedString::from_str("abc");
    s.insert_str(0, "d");
    assert_eq!(s.len(), 4);
    assert_eq!(s.as_str(), "dabc");
}

#[test]
fn test_remove() {
    let mut s = RedString::from_str("abc");
    assert_eq!(s.remove(0), 'a');
    assert_eq!(s.len(), 2);
    assert_eq!(s.as_str(), "bc");
}

#[test]
fn test_pop() {
    let mut s = RedString::from_str("abc");
    assert_eq!(s.pop(), Some('c'));
    assert_eq!(s.len(), 2);
    assert_eq!(s.as_str(), "ab");
    assert_eq!(s.pop(), Some('b'));
    assert_eq!(s.pop(), Some('a'));
    assert_eq!(s.pop(), None);
    assert_eq!(s.len(), 0);
}

#[test]
fn test_clear() {
    let mut s = RedString::from_str("abc");
    s.clear();
    assert_eq!(s.len(), 0);
    assert_eq!(s.as_str(), "");
    s.push('x');
    assert_eq!(s.as_str(), "x");
}

#[test]
fn test_drop() {
    let mut s = RedString::from_str("abc");
    s.push('d');
    assert_eq!(s.len(), 4);
    assert_eq!(s.as_str(), "abcd");
    drop(s);
}

#[test]
fn test_round_trip_all_widths() {
    // one-, two-, three- and four-byte encoded scalars, and the empty string
    for input in ["", "a", "\u{e9}", "\u{4e2d}", "\u{1f600}", "a\u{e9}\u{4e2d}\u{1f600}b"] {
        let s = RedString::from_str(input);
        assert_eq!(s.as_str(), input);
        assert_eq!(s.len(), input.len());
    }
}

#[test]
fn test_push_multibyte() {
    let mut s = RedString::new();
    s.push('a');
    s.push('\u{e9}');
    s.push('\u{4e2d}');
    s.push('\u{1f600}');
    assert_eq!(s.as_str(), "a\u{e9}\u{4e2d}\u{1f600}");
    assert_eq!(s.len(), 1 + 2 + 3 + 4);
}

#[test]
fn test_remove_multibyte() {
    let mut s = RedString::from_str("\u{e9}\u{4e2d}\u{1f600}");
    assert_eq!(s.remove(0), '\u{e9}');
    assert_eq!(s.as_str(), "\u{4e2d}\u{1f600}");
    assert_eq!(s.remove(3), '\u{1f600}');
    assert_eq!(s.as_str(), "\u{4e2d}");
    assert_eq!(s.remove(0), '\u{4e2d}');
    assert_eq!(s.as_str(), "");
    assert_eq!(s.len(), 0);
}

#[test]
fn test_pop_multibyte() {
    let mut s = RedString::from_str("a\u{1f600}\u{4e2d}");
    assert_eq!(s.pop(), Some('\u{4e2d}'));
    assert_eq!(s.pop(), Some('\u{1f600}'));
    assert_eq!(s.pop(), Some('a'));
    assert_eq!(s.pop(), None);
}

#[test]
fn test_insert_remove_inverse() {
    let mut s = RedString::from_str("a\u{e9}c");
    s.insert(1, '\u{1f600}');
    assert_eq!(s.as_str(), "a\u{1f600}\u{e9}c");
    assert_eq!(s.remove(1), '\u{1f600}');
    assert_eq!(s.as_str(), "a\u{e9}c");
    assert_eq!(s.len(), 4);
}

#[test]
fn test_push_pop_inverse() {
    let mut s = RedString::from_str("ab");
    let before = s.len();
    s.push('\u{1f600}');
    assert_eq!(s.pop(), Some('\u{1f600}'));
    assert_eq!(s.len(), before);
    assert_eq!(s.as_str(), "ab");
}

#[test]
fn test_insert_str_middle() {
    let mut s = RedString::from_str("ad");
    s.insert_str(1, "b\u{e9}c");
    assert_eq!(s.as_str(), "ab\u{e9}cd");
    assert_eq!(s.len(), 6);
}

#[test]
fn test_is_boundary() {
    let s = RedString::from_str("a\u{e9}b");
    assert!(s.is_boundary(0));
    assert!(s.is_boundary(1));
    assert!(!s.is_boundary(2));
    assert!(s.is_boundary(3));
    assert!(s.is_boundary(4));
    assert!(!s.is_boundary(5));
}

#[test]
fn test_into_bytes() {
    let s = RedString::from_str("abc");
    let v = s.into_bytes();
    assert_eq!(v.vec.as_slice(), b"abc");
}

#[test]
fn test_into_bytes_multibyte() {
    let mut s = RedString::new();
    s.push('\u{e9}');
    let v = s.into_bytes();
    assert_eq!(v.vec.as_slice(), [0xC3u8, 0xA9].as_slice());
}

#[test]
fn test_as_mut_str() {
    let mut s = red_string::RedString::from_str("abc");
    s.as_mut_str().make_ascii_uppercase();
    assert_eq!(s.as_str(), "ABC");
    assert_eq!(s.len(), 3);
}
