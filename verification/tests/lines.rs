use delta::line::{begins_with_triple, classify, Kind};
use delta::prepare::{content, file_extension, header_language};
use delta::token::{classify_byte, tokenize, TokenKind};
use delta::span::Span;

#[test]
fn hunk_headers_are_recognised() {
    assert_eq!(classify(b"@@ -1,3 +1,4 @@"), Kind::HunkHeader);
    assert_eq!(classify(b"@@ -10,7 +10,8 @@ fn main() {"), Kind::HunkHeader);
    assert_eq!(classify(b"@@@@"), Kind::HunkHeader);
    assert_eq!(classify(b"@@@ -1,2 -1,2 +1,3 @@@"), Kind::HunkHeader);
}

#[test]
fn a_lone_marker_is_no_hunk_header() {
    assert_eq!(classify(b"@@"), Kind::Other);
    assert_eq!(classify(b"@@ -1,3 +1,4"), Kind::Other);
    assert_eq!(classify(b"@@@"), Kind::Other);
    assert_eq!(classify(b" @@ -1 +1 @@"), Kind::Context);
}

#[test]
fn file_headers_are_recognised() {
    assert_eq!(classify(b"diff --git a/src/lib.rs b/src/lib.rs"), Kind::Header);
    assert_eq!(classify(b"index 83db48f..bf12a3d 100644"), Kind::Header);
    assert_eq!(classify(b"--- a/src/lib.rs"), Kind::Header);
    assert_eq!(classify(b"+++ b/src/lib.rs"), Kind::Header);
    assert_eq!(classify(b"--- "), Kind::Header);
}

#[test]
fn changed_lines_go_by_their_first_byte() {
    assert_eq!(classify(b"-let x = 1;"), Kind::Removed);
    assert_eq!(classify(b"+let x = 2;"), Kind::Added);
    assert_eq!(classify(b" let y = 3;"), Kind::Context);
    assert_eq!(classify(b"-"), Kind::Removed);
    assert_eq!(classify(b"+"), Kind::Added);
    assert_eq!(classify(b" "), Kind::Context);
    assert_eq!(classify(b"---"), Kind::Removed);
    assert_eq!(classify(b"+++"), Kind::Added);
    assert_eq!(classify(b"---x"), Kind::Removed);
}

#[test]
fn anything_else_is_other() {
    assert_eq!(classify(b""), Kind::Other);
    assert_eq!(classify(b"\\ No newline at end of file"), Kind::Other);
    assert_eq!(classify(b"commit 1f2e3d"), Kind::Other);
    assert_eq!(classify(b"diff"), Kind::Other);
    assert_eq!(classify(b"indexed"), Kind::Other);
    assert_eq!(classify(&[0xff, 0x00, 0x80]), Kind::Other);
}

#[test]
fn bytes_fall_in_three_classes() {
    assert_eq!(classify_byte(b'a'), TokenKind::Word);
    assert_eq!(classify_byte(b'Z'), TokenKind::Word);
    assert_eq!(classify_byte(b'0'), TokenKind::Word);
    assert_eq!(classify_byte(b'_'), TokenKind::Word);
    assert_eq!(classify_byte(0x80), TokenKind::Word);
    assert_eq!(classify_byte(0xff), TokenKind::Word);
    assert_eq!(classify_byte(b' '), TokenKind::Whitespace);
    assert_eq!(classify_byte(b'\t'), TokenKind::Whitespace);
    assert_eq!(classify_byte(b'\r'), TokenKind::Whitespace);
    assert_eq!(classify_byte(b'='), TokenKind::Punctuation);
    assert_eq!(classify_byte(b'/'), TokenKind::Punctuation);
    assert_eq!(classify_byte(b'@'), TokenKind::Punctuation);
    assert_eq!(classify_byte(0x00), TokenKind::Punctuation);
    assert_eq!(classify_byte(0x7f), TokenKind::Punctuation);
    assert_eq!(classify_byte(0x08), TokenKind::Punctuation);
    assert_eq!(classify_byte(0x0e), TokenKind::Punctuation);
}

#[test]
fn a_line_splits_into_runs() {
    assert_eq!(
        tokenize(b"foo = 1"),
        vec![
            Span { start: 0, end: 3, tag: TokenKind::Word },
            Span { start: 3, end: 4, tag: TokenKind::Whitespace },
            Span { start: 4, end: 5, tag: TokenKind::Punctuation },
            Span { start: 5, end: 6, tag: TokenKind::Whitespace },
            Span { start: 6, end: 7, tag: TokenKind::Word },
        ]
    );
}

#[test]
fn runs_of_punctuation_and_space_are_one_token_each() {
    assert_eq!(
        tokenize(b"a_b1 +=\t  x();"),
        vec![
            Span { start: 0, end: 4, tag: TokenKind::Word },
            Span { start: 4, end: 5, tag: TokenKind::Whitespace },
            Span { start: 5, end: 7, tag: TokenKind::Punctuation },
            Span { start: 7, end: 10, tag: TokenKind::Whitespace },
            Span { start: 10, end: 11, tag: TokenKind::Word },
            Span { start: 11, end: 14, tag: TokenKind::Punctuation },
        ]
    );
}

#[test]
fn the_empty_line_has_no_token() {
    assert_eq!(tokenize(b""), vec![]);
}

#[test]
fn a_character_of_several_bytes_stays_in_its_word() {
    let line = "caf\u{e9}s ok".as_bytes();
    assert_eq!(
        tokenize(line),
        vec![
            Span { start: 0, end: 6, tag: TokenKind::Word },
            Span { start: 6, end: 7, tag: TokenKind::Whitespace },
            Span { start: 7, end: 9, tag: TokenKind::Word },
        ]
    );
}

#[test]
fn tokens_read_in_order_give_the_line_back() {
    let line = b"  if (a[i] != b) { return -1; }\t// done";
    let tokens = tokenize(line);
    let mut read = Vec::new();
    let mut at = 0;
    for (k, token) in tokens.iter().enumerate() {
        assert_eq!(token.start, at);
        assert!(token.start < token.end);
        for p in token.start..token.end {
            assert_eq!(classify_byte(line[p]), token.tag);
        }
        if k > 0 {
            assert_ne!(tokens[k - 1].tag, token.tag);
        }
        read.extend_from_slice(&line[token.start..token.end]);
        at = token.end;
    }
    assert_eq!(read, line.to_vec());
}

#[test]
fn content_drops_the_marker() {
    assert_eq!(content(b"-foo = 1", 4), b"foo = 1".to_vec());
    assert_eq!(content(b"+", 4), Vec::<u8>::new());
    assert_eq!(content(b"", 4), Vec::<u8>::new());
}

#[test]
fn content_expands_tabs() {
    assert_eq!(content(b" \tx\ty", 2), b"  x  y".to_vec());
    assert_eq!(content(b"\t\t", 3), b"   ".to_vec());
    assert_eq!(content(b"+a\t", 1), b"a ".to_vec());
}

#[test]
fn a_tab_width_of_zero_keeps_tabs() {
    assert_eq!(content(b" \tx\ty", 0), b"\tx\ty".to_vec());
}

#[test]
fn the_extension_follows_the_last_dot() {
    assert_eq!(file_extension(b"+++ b/src/main.rs"), b"rs".to_vec());
    assert_eq!(file_extension(b"--- a/archive.tar.gz"), b"gz".to_vec());
    assert_eq!(file_extension(b"--- a/.gitignore"), b"gitignore".to_vec());
    assert_eq!(file_extension(b"+++ b/notes.txt\t2024-01-01 10:00:00"), b"txt".to_vec());
}

#[test]
fn a_name_without_a_dot_has_no_extension() {
    assert_eq!(file_extension(b"+++ /dev/null"), Vec::<u8>::new());
    assert_eq!(file_extension(b"--- a/Makefile"), Vec::<u8>::new());
    assert_eq!(file_extension(b"--- a/v1.2/Makefile"), Vec::<u8>::new());
    assert_eq!(file_extension(b"--- a/name."), Vec::<u8>::new());
    assert_eq!(file_extension(b"+++ "), Vec::<u8>::new());
    assert_eq!(file_extension(b"+++"), Vec::<u8>::new());
    assert_eq!(file_extension(b"--- .rs"), b"rs".to_vec());
}

#[test]
fn headers_name_the_language() {
    assert_eq!(header_language(b"--- a/lib.rs"), Some(b"rs".to_vec()));
    assert_eq!(header_language(b"--- /dev/null"), Some(Vec::new()));
    assert_eq!(header_language(b"+++ b/lib.py"), Some(b"py".to_vec()));
    assert_eq!(header_language(b"+++ /dev/null"), None);
    assert_eq!(header_language(b"diff --git a/lib.rs b/lib.rs"), None);
    assert_eq!(header_language(b"index 1..2"), None);
}

#[test]
fn three_marks_and_a_space_open_a_file_header() {
    assert!(begins_with_triple(b"--- a/x", b'-'));
    assert!(begins_with_triple(b"+++ b/x", b'+'));
    assert!(begins_with_triple(b"--- ", b'-'));
    assert!(!begins_with_triple(b"--- a/x", b'+'));
    assert!(!begins_with_triple(b"---", b'-'));
    assert!(!begins_with_triple(b"---a", b'-'));
    assert!(!begins_with_triple(b"-- - a", b'-'));
    assert!(!begins_with_triple(b"", b'-'));
}
