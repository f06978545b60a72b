use ragamuffin::scan::{ext_lower, is_hidden, keep_candidate, looks_like_text, ScanOpts, SNIFF_BYTES};

#[test]
fn looks_like_text_accepts_utf8_rejects_binary() {
    assert!(looks_like_text(b"hello world"));
    assert!(looks_like_text("caf\u{e9}".as_bytes())); // multibyte UTF-8
    assert!(looks_like_text(b"")); // empty prefix counts as text
    assert!(!looks_like_text(b"abc\0def")); // NUL byte
    assert!(!looks_like_text(&[0xff, 0xfe, 0x41])); // invalid UTF-8
}

#[test]
fn looks_like_text_allows_truncated_multibyte_tail() {
    // Valid UTF-8 then a cut-off multibyte lead byte (as if the 8 KiB sniff
    // sliced through a character). Must still count as text.
    let mut bytes = b"hello ".to_vec();
    bytes.push(0xe2); // first byte of a 3-byte char, truncated
    assert!(looks_like_text(&bytes));
}

#[test]
fn looks_like_text_edge_cases() {
    // Two of three bytes of a character: still a truncation.
    assert!(looks_like_text(&[b'a', 0xe2, 0x82]));
    // A truncated character that is not at the end is invalid.
    assert!(!looks_like_text(&[0xe2, b'a']));
    // A lone continuation byte at the end is invalid, not truncated.
    assert!(!looks_like_text(&[b'a', 0x80]));
    // A NUL rejects even otherwise valid text.
    assert!(!looks_like_text(&[b'a', 0]));
    assert_eq!(SNIFF_BYTES, 8192);
}

#[test]
fn ext_lower_lowercases_the_extension() {
    assert_eq!(ext_lower("dir/Notes.MD"), Some("md".to_string()));
    assert_eq!(ext_lower("archive.tar.GZ"), Some("gz".to_string()));
    assert_eq!(ext_lower("Makefile"), None);
    assert_eq!(ext_lower(".bashrc"), None);
    assert_eq!(ext_lower("x.ÉTÉ"), Some("été".to_string()));
}

#[test]
fn hidden_entries_below_the_root_only() {
    assert!(is_hidden(1, &Some(".git".to_string())));
    assert!(!is_hidden(0, &Some(".config".to_string())));
    assert!(!is_hidden(2, &Some("visible".to_string())));
    assert!(!is_hidden(3, &None));
}

#[test]
fn keep_candidate_applies_filter_and_size() {
    let any = ScanOpts { exts: None, max_bytes: 50 };
    assert!(keep_candidate(&any, "a/b.txt", 50));
    assert!(!keep_candidate(&any, "a/b.txt", 51));
    let md = ScanOpts { exts: Some(vec!["md".to_string()]), max_bytes: 1_000_000 };
    assert!(keep_candidate(&md, "a.MD", 10));
    assert!(!keep_candidate(&md, "b.txt", 10));
    assert!(!keep_candidate(&md, "README", 10));
}

/// Whether a regular file at `depth` below the root, named `name`, with
/// `contents`, is kept by the selection rules.
fn kept(opts: &ScanOpts, depth: usize, path: &str, contents: &[u8]) -> bool {
    let name = path.rsplit('/').next().map(str::to_string);
    !is_hidden(depth, &name)
        && keep_candidate(opts, path, contents.len() as u64)
        && looks_like_text(&contents[..contents.len().min(SNIFF_BYTES)])
}

#[test]
fn collect_filters_hidden_binary_oversized() {
    let opts = ScanOpts { exts: None, max_bytes: 50 };
    assert!(kept(&opts, 1, "a.md", b"# Title\nbody"));
    assert!(kept(&opts, 1, "b.txt", b"plain text"));
    assert!(!is_hidden(1, &Some("sub".to_string())));
    assert!(kept(&opts, 2, "sub/c.md", b"nested"));
    assert!(!kept(&opts, 1, "img.png", &[0u8, 1, 2, 3])); // binary skipped
    assert!(!kept(&opts, 1, ".secret", b"hidden text")); // hidden skipped
    assert!(!kept(&opts, 1, "big.txt", "x".repeat(100).as_bytes())); // oversized skipped
}

#[test]
fn collect_ext_filter_narrows_to_markdown() {
    let opts = ScanOpts { exts: Some(vec!["md".to_string()]), max_bytes: 1_000_000 };
    assert!(kept(&opts, 1, "a.md", b"# md"));
    assert!(!kept(&opts, 1, "b.txt", b"txt"));
}

#[test]
fn cut_characters_follow_the_utf8_table() {
    // Cut after an allowed second byte: still text.
    assert!(looks_like_text(&[0xf0, 0x9f, 0x98]));
    assert!(looks_like_text(&[b'x', 0xed, 0x9f]));
    // Second bytes outside the allowed ranges are errors, not cuts.
    assert!(!looks_like_text(&[0xe0, 0x80])); // overlong
    assert!(!looks_like_text(&[0xed, 0xa0])); // surrogate
    assert!(!looks_like_text(&[0xf4, 0x90])); // above U+10FFFF
    assert!(!looks_like_text(&[0xc1])); // overlong lead byte
    assert!(!looks_like_text(&[0xff]));
}

#[test]
fn text_cut_anywhere_stays_text() {
    let text = "naïve café — 😀 done".as_bytes();
    for i in 0..=text.len() {
        assert!(looks_like_text(&text[..i]));
    }
}
