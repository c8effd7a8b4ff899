use fastloop_guard::hash::{fingerprint, normalize};

#[test]
fn same_query_same_hash() {
    let a = fingerprint("check disk usage");
    let b = fingerprint("check disk usage");
    assert_eq!(a, b);
}

#[test]
fn whitespace_normalization() {
    let a = fingerprint("check   disk\tusage");
    let b = fingerprint("check disk usage");
    assert_eq!(a, b);
}

#[test]
fn case_insensitive() {
    let a = fingerprint("Check Disk Usage");
    let b = fingerprint("check disk usage");
    assert_eq!(a, b);
}

#[test]
fn different_queries_differ() {
    let a = fingerprint("check disk usage");
    let b = fingerprint("check memory usage");
    assert_ne!(a, b);
}

#[test]
fn normalize_collapses_and_lowers() {
    assert_eq!(normalize("  Check \t\n Disk   USAGE  "), "check disk usage");
    assert_eq!(normalize(""), "");
    assert_eq!(normalize(" \u{a0}\u{3000} "), "");
    assert_eq!(normalize("A\u{2003}B"), "a b");
}

#[test]
fn fingerprint_is_truncated_blake2b512() {
    // BLAKE2b-512 of the empty input, first 32 bytes.
    let expected: [u8; 32] = [
        0x78, 0x6a, 0x02, 0xf7, 0x42, 0x01, 0x59, 0x03, 0xc6, 0xc6, 0xfd, 0x85, 0x25, 0x52, 0xd2, 0x72,
        0x91, 0x2f, 0x47, 0x40, 0xe1, 0x58, 0x47, 0x61, 0x8a, 0x86, 0xe2, 0x17, 0xf7, 0x1f, 0x54, 0x19,
    ];
    assert_eq!(fingerprint(""), expected);
    assert_eq!(fingerprint("   \t "), expected);
    // BLAKE2b-512 of "hello world", first 32 bytes.
    let hello: [u8; 32] = [
        0x02, 0x1c, 0xed, 0x87, 0x99, 0x29, 0x6c, 0xec, 0xa5, 0x57, 0x83, 0x2a, 0xb9, 0x41, 0xa5, 0x0b,
        0x4a, 0x11, 0xf8, 0x34, 0x78, 0xcf, 0x14, 0x1f, 0x51, 0xf9, 0x33, 0xf6, 0x53, 0xab, 0x9f, 0xbc,
    ];
    assert_eq!(fingerprint("Hello   World"), hello);
}

#[test]
fn normalize_is_idempotent() {
    for q in ["  Check \t Disk   Usage ", "a", "", "MiXeD   case\nlines", " x  y "] {
        let once = normalize(q);
        assert_eq!(normalize(&once), once);
    }
}

#[test]
fn digest_truncation_keeps_prefix() {
    let digest: Vec<u8> = (0u8..64).collect();
    let fp = fastloop_guard::hash::truncate_digest(&digest);
    assert_eq!(fp[0], 0);
    assert_eq!(fp[31], 31);
}

#[test]
fn unicode_whitespace_separates_words() {
    assert!(fastloop_guard::text::is_whitespace('\u{85}'));
    assert!(fastloop_guard::text::is_whitespace('\u{202f}'));
    assert!(!fastloop_guard::text::is_whitespace('\u{200b}'));
    assert_eq!(fastloop_guard::text::collapse_whitespace("\u{3000}a\u{2028}\u{2029}b "), "a b");
}
