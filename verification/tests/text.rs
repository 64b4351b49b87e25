//! Splitting, searching and reading text.

use isayes::ignore;
use isayes::text::{
    append_decimal, chars_of, contains, push_decimal, read_text, same_bytes, split_bytes,
    tail_lines,
};

#[test]
fn the_last_lines() {
    assert_eq!(tail_lines("a\nb\nc", 2), "b\nc");
    assert_eq!(tail_lines("a\nb\nc\n", 2), "c\n");
    assert_eq!(tail_lines("a\nb", 5), "a\nb");
    assert_eq!(tail_lines("", 3), "");
    assert_eq!(tail_lines("a\nb", 0), "");
    assert_eq!(tail_lines("é\nü", 1), "ü");
}

#[test]
fn words_are_found_anywhere() {
    let chars = chars_of("say • Yes now");
    assert!(contains(&chars, "• Yes"));
    assert!(contains(&chars, "say"));
    assert!(contains(&chars, "now"));
    assert!(contains(&chars, ""));
    assert!(!contains(&chars, "yes"));
    assert!(!contains(&chars_of("No"), "Nope"));
}

#[test]
fn decimals() {
    for (n, want) in [(0u16, "0"), (9, "9"), (10, "10"), (307, "307"), (65_535, "65535")] {
        let mut bytes: Vec<u8> = b"x".to_vec();
        push_decimal(&mut bytes, n);
        assert_eq!(bytes, format!("x{want}").into_bytes());
    }
    let mut text = String::from("n=");
    append_decimal(&mut text, u128::from(u32::MAX));
    assert_eq!(text, "n=4294967295");
}

#[test]
fn bytes_are_split_and_compared() {
    assert_eq!(
        split_bytes(&b"1;;49".to_vec(), b';'),
        vec![b"1".to_vec(), Vec::new(), b"49".to_vec()]
    );
    assert_eq!(split_bytes(&Vec::new(), b';'), vec![Vec::<u8>::new()]);
    assert!(same_bytes(b"ab", b"ab"));
    assert!(!same_bytes(b"ab", b"abc"));
    assert!(!same_bytes(b"ab", b"ac"));
}

/// Bytes that are not UTF-8 are repaired, and what is UTF-8 after them reads as
/// it would alone.
#[test]
fn raw_bytes_read_as_text() {
    assert_eq!(read_text(&"é•".as_bytes().to_vec()), "é•");
    assert_eq!(read_text(&Vec::new()), "");
    assert_eq!(read_text(&b"\xa9ok".to_vec()), "\u{fffd}ok");
    for junk in [&b"\xe2\x82"[..], &b"\xf0\x90\x80"[..], &b"\xff\xc3"[..], &b"\x80a\xed"[..]] {
        for clean in ["é", "W", "•\n", ""] {
            let whole = [junk, clean.as_bytes()].concat();
            let alone = read_text(&junk.to_vec());
            assert_eq!(read_text(&whole), format!("{alone}{clean}"), "{whole:?}");
        }
    }
}

#[test]
fn a_result_can_be_ignored() {
    ignore::<u8, String>(Ok(1));
    ignore::<u8, String>(Err("gone".to_string()));
}
