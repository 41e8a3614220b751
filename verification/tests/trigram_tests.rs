use codesearch::extract_trigrams;
use codesearch::is_printable;
use codesearch::window_kept;
use codesearch::is_utf8;
use codesearch::to_hex;
use codesearch::IndexError;
use codesearch::Trigram;

fn tri(s: &[u8; 3]) -> Trigram {
    Trigram { b0: s[0], b1: s[1], b2: s[2] }
}

fn views(v: &[Trigram]) -> Vec<[u8; 3]> {
    v.iter().map(|t| [t.b0, t.b1, t.b2]).collect()
}

#[test]
fn printable_covers_tab_through_cr_and_space_through_tilde() {
    assert!(is_printable(&[0x20]));
    assert!(!is_printable(&[0x7f]));
    assert!(is_printable(&[0x09, 0x0a, 0x0b, 0x0c, 0x0d]));
    assert!(!is_printable(&[0x00]));
    assert!(is_printable(&[0x7e]));
    assert!(!is_printable(&[0x08]));
    assert!(!is_printable(&[0x0e]));
    assert!(is_printable(&[]));
}

#[test]
fn utf8_prefix_classes_accept_lead_and_continuation_bytes() {
    assert!(is_utf8(b"abc"));
    assert!(is_utf8(&[0xc3, 0xa9]));
    assert!(is_utf8(&[0xe2, 0x82, 0xac]));
    assert!(is_utf8(&[0xf0, 0x9f, 0x92, 0x96]));
    assert!(!is_utf8(&[0xff]));
    assert!(!is_utf8(&[0xfe]));
    assert!(!is_utf8(&[0xf8]));
}

#[test]
fn hex_renders_two_digits_per_byte() {
    assert_eq!(to_hex(&[]), "");
    assert_eq!(to_hex(&[0x00, 0xff, 0x4b]), "00ff4b");
    assert_eq!(to_hex(&[0x12, 0x34, 0xab, 0xcd]), "1234abcd");
}

#[test]
fn hello_world_yields_six_distinct_trigrams() {
    let got = extract_trigrams(b"hello world").unwrap();
    assert_eq!(
        views(&got),
        vec![*b"hel", *b"ell", *b"llo", *b"wor", *b"orl", *b"rld"]
    );
}

#[test]
fn mixed_case_is_lowercased() {
    let got = extract_trigrams(b"Hello").unwrap();
    assert_eq!(views(&got), vec![*b"hel", *b"ell", *b"llo"]);
}

#[test]
fn short_files_yield_nothing() {
    assert!(extract_trigrams(b"").unwrap().is_empty());
    assert!(extract_trigrams(b"a").unwrap().is_empty());
    assert!(extract_trigrams(b"ab").unwrap().is_empty());
}

#[test]
fn a_zero_byte_marks_the_file_binary() {
    let r = extract_trigrams(b"abc\x00def");
    assert_eq!(r.unwrap_err(), IndexError::BinaryFile);
}

#[test]
fn elf_magic_fails_the_printable_test() {
    let r = extract_trigrams(&[0x7f, 0x45, 0x4c, 0x46, 0x02, 0x01]);
    assert_eq!(r.unwrap_err(), IndexError::BinaryFile);
}

#[test]
fn duplicates_are_kept_once_per_file() {
    let got = extract_trigrams(b"aaaa").unwrap();
    assert_eq!(views(&got), vec![*b"aaa"]);
}

#[test]
fn all_alphanumeric_input_keeps_every_distinct_window() {
    let got = extract_trigrams(b"AbC9z").unwrap();
    assert_eq!(views(&got), vec![*b"abc", *b"bc9", *b"c9z"]);
}

#[test]
fn non_ascii_bytes_fail_the_printable_test() {
    // the printable ranges are ASCII, so a two-byte letter marks the
    // whole file binary before any window is decoded
    let r = extract_trigrams(&[b'e', 0xc3, 0xa9, b'x']);
    assert_eq!(r.unwrap_err(), IndexError::BinaryFile);
}

#[test]
fn non_alphanumeric_characters_break_windows() {
    let spaced = extract_trigrams(b"ab cd").unwrap();
    assert!(spaced.is_empty());
    let dotted = extract_trigrams(b"a.b.c").unwrap();
    assert!(dotted.is_empty());
}

#[test]
fn window_keeps_only_complete_alphanumeric_decodings() {
    // three ASCII alphanumerics
    assert!(window_kept(b'a', b'B', b'9'));
    // an ASCII punctuation character is not alphanumeric
    assert!(!window_kept(b'a', b'.', b'c'));
    // an ASCII letter followed by a two-byte letter
    assert!(window_kept(b'f', 0xc3, 0xa9));
    // a two-byte letter followed by an ASCII letter
    assert!(window_kept(0xc3, 0xa9, b'x'));
    // a two-byte sign that is not alphanumeric
    assert!(!window_kept(b'a', 0xc2, 0xa7));
    // a three-byte letter
    assert!(window_kept(0xe4, 0xb8, 0xad));
    // a three-byte punctuation character
    assert!(!window_kept(0xe3, 0x80, 0x82));
    // incomplete decodings are not kept
    assert!(!window_kept(b'a', b'b', 0xc3));
    assert!(!window_kept(b'a', b'b', 0xbf));
    assert!(!window_kept(0xbf, b'a', b'b'));
    // an overlong two-byte encoding is invalid
    assert!(!window_kept(0xc0, 0x80, b'a'));
}

#[test]
fn query_trigrams_keep_duplicates_and_lowercase() {
    let mut buf: Vec<Trigram> = Vec::new();
    codesearch::get_trigrams(b"AbAbA", &mut buf);
    assert_eq!(views(&buf), vec![*b"aba", *b"bab", *b"aba"]);
    let mut buf2: Vec<Trigram> = Vec::new();
    codesearch::get_trigrams(b"a-b", &mut buf2);
    assert!(buf2.is_empty());
    let t = tri(b"aba");
    assert_eq!(buf[0], t);
}
