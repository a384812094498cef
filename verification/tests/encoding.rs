use nexus_core::encoding::{ascii_icontains, sanitize, to_ascii_lower};

#[test]
fn clean_utf8_passthrough() {
    assert_eq!(sanitize(b"hello world"), "hello world");
}

#[test]
fn strips_nul_bytes() {
    assert_eq!(sanitize(b"a\0b\0c"), "abc");
}

#[test]
fn windows_1252_fallback() {
    assert_eq!(sanitize(b"caf\xE9"), "caf\u{e9}");
}

#[test]
fn icontains_folds_ascii() {
    assert!(ascii_icontains(b"ERROR: disk full", b"error"));
    assert!(ascii_icontains(b"Timeout", b"out"));
    assert!(!ascii_icontains(b"ok", b"error"));
    assert!(ascii_icontains(b"anything", b""));
}

#[test]
fn sanitize_nul_then_cp1252() {
    // NULs go first; what remains is not UTF-8, so it decodes as Windows-1252.
    assert_eq!(sanitize(b"\0\x93q\x94\0"), "\u{201c}q\u{201d}");
}

#[test]
fn sanitize_valid_multibyte_utf8() {
    assert_eq!(sanitize("d\u{e9}j\u{e0}".as_bytes()), "d\u{e9}j\u{e0}");
}

#[test]
fn icontains_needle_longer_than_haystack() {
    assert!(!ascii_icontains(b"ab", b"abc"));
}

#[test]
fn icontains_does_not_fold_the_needle() {
    // The needle is expected lower-cased; an upper-case needle never matches.
    assert!(!ascii_icontains(b"ERROR", b"ERROR"));
}

#[test]
fn to_ascii_lower_only_touches_letters() {
    assert_eq!(to_ascii_lower(b'Q'), b'q');
    assert_eq!(to_ascii_lower(b'['), b'[');
    assert_eq!(to_ascii_lower(0xC9), 0xC9);
}
