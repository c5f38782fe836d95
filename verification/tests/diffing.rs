use delta::align::{align_tokens, lcs_length, lcs_table, same_text};
use delta::edit::{diff_lines, edit_spans, EditSpan, EditTag};
use delta::span::Span;
use delta::token::{tokenize, TokenKind};

fn unchanged(start: usize, end: usize) -> EditSpan {
    Span { start, end, tag: EditTag::Unchanged }
}

fn changed(start: usize, end: usize) -> EditSpan {
    Span { start, end, tag: EditTag::Changed }
}

#[test]
fn tokens_are_held_against_each_other_by_their_bytes() {
    let left = b"foo bar";
    let right = b"bar foo!";
    let word = |start, end| Span { start, end, tag: TokenKind::Word };
    assert!(same_text(left, word(0, 3), right, word(4, 7)));
    assert!(same_text(left, word(4, 7), right, word(0, 3)));
    assert!(!same_text(left, word(0, 3), right, word(0, 3)));
    assert!(!same_text(left, word(0, 3), right, word(4, 8)));
    assert!(same_text(left, word(2, 2), right, word(5, 5)));
}

#[test]
fn the_table_holds_the_lengths_for_all_prefixes() {
    let left = b"a b c";
    let right = b"a c";
    let table = lcs_table(left, &tokenize(left), right, &tokenize(right));
    // rows: a, ' ', b, ' ', c; columns: a, ' ', c
    assert_eq!(
        table,
        vec![vec![1, 1, 1], vec![1, 2, 2], vec![1, 2, 2], vec![1, 2, 2], vec![1, 2, 3]]
    );
}

#[test]
fn the_longest_common_subsequence_has_its_length() {
    let length = |l: &[u8], r: &[u8]| lcs_length(l, &tokenize(l), r, &tokenize(r));
    assert_eq!(length(b"foo = 1", b"foo = 2"), 4);
    assert_eq!(length(b"a b c", b"a c"), 3);
    assert_eq!(length(b"", b"a c"), 0);
    assert_eq!(length(b"a c", b""), 0);
    assert_eq!(length(b"x", b"y"), 0);
    assert_eq!(length(b"a b", b"b a"), 1);
    assert_eq!(length(b"f(x, y)", b"f(y, x)"), 5);
}

#[test]
fn the_alignment_keeps_the_common_tokens() {
    let left = b"foo = 1";
    let right = b"foo = 2";
    let (keep_left, keep_right) = align_tokens(left, &tokenize(left), right, &tokenize(right));
    assert_eq!(keep_left, vec![true, true, true, true, false]);
    assert_eq!(keep_right, vec![true, true, true, true, false]);
}

#[test]
fn where_two_alignments_are_as_long_the_last_left_token_is_let_go() {
    // "a b" against "b a": either "a", " " or "b" can be kept. Walking back
    // from the ends, the left token is let go first, so that "a" is kept.
    let left = b"a b";
    let right = b"b a";
    let (keep_left, keep_right) = align_tokens(left, &tokenize(left), right, &tokenize(right));
    assert_eq!(keep_left, vec![true, false, false]);
    assert_eq!(keep_right, vec![false, false, true]);
}

#[test]
fn kept_tokens_join_into_spans() {
    let line = b"foo = 1";
    let tokens = tokenize(line);
    assert_eq!(
        edit_spans(&tokens, &vec![true, true, true, true, false]),
        vec![unchanged(0, 6), changed(6, 7)]
    );
    assert_eq!(
        edit_spans(&tokens, &vec![false, true, false, false, true]),
        vec![changed(0, 3), unchanged(3, 4), changed(4, 6), unchanged(6, 7)]
    );
    assert_eq!(edit_spans(&tokens, &vec![false; 5]), vec![changed(0, 7)]);
    assert_eq!(edit_spans(&tokens, &vec![true; 5]), vec![unchanged(0, 7)]);
    assert_eq!(edit_spans(&vec![], &vec![]), vec![unchanged(0, 0)]);
}

#[test]
fn one_changed_token_gives_one_changed_span() {
    let (removed, added) = diff_lines(b"foo = 1", b"foo = 2");
    assert_eq!(removed, vec![unchanged(0, 6), changed(6, 7)]);
    assert_eq!(added, vec![unchanged(0, 6), changed(6, 7)]);
}

#[test]
fn an_inserted_word_is_the_only_change() {
    // Walking back from the ends, the space before `x` is matched with the
    // space behind `mut`, so that the change is the word and the space before
    // it.
    let (removed, added) = diff_lines(b"let x = y;", b"let mut x = y;");
    assert_eq!(removed, vec![unchanged(0, 10)]);
    assert_eq!(added, vec![unchanged(0, 3), changed(3, 7), unchanged(7, 14)]);
}

#[test]
fn equal_lines_are_unchanged() {
    let (removed, added) = diff_lines(b"return 0;", b"return 0;");
    assert_eq!(removed, vec![unchanged(0, 9)]);
    assert_eq!(added, vec![unchanged(0, 9)]);
}

#[test]
fn lines_with_nothing_in_common_are_changed() {
    let (removed, added) = diff_lines(b"alpha", b"beta+gamma");
    assert_eq!(removed, vec![changed(0, 5)]);
    assert_eq!(added, vec![changed(0, 10)]);
}

#[test]
fn an_empty_line_has_one_span_of_no_length() {
    let (removed, added) = diff_lines(b"", b"");
    assert_eq!(removed, vec![unchanged(0, 0)]);
    assert_eq!(added, vec![unchanged(0, 0)]);
    let (removed, added) = diff_lines(b"", b"x = 1");
    assert_eq!(removed, vec![unchanged(0, 0)]);
    assert_eq!(added, vec![changed(0, 5)]);
}

#[test]
fn swapped_arguments() {
    // f ( x ,_ y ) against f ( y ,_ x ): tokens f, "(", x, ",", " ", y, ")"
    let (removed, added) = diff_lines(b"f(x, y)", b"f(y, x)");
    assert_eq!(
        removed,
        vec![unchanged(0, 2), changed(2, 3), unchanged(3, 5), changed(5, 6), unchanged(6, 7)]
    );
    assert_eq!(
        added,
        vec![unchanged(0, 2), changed(2, 3), unchanged(3, 5), changed(5, 6), unchanged(6, 7)]
    );
}

#[test]
fn diffing_twice_gives_the_same_spans() {
    let removed = b"  total += price * count; // sum";
    let added = b"  total += price * (count + 1); // sum up";
    assert_eq!(diff_lines(removed, added), diff_lines(removed, added));
}

#[test]
fn edit_spans_cover_their_line_once() {
    let removed = b"if a == b { c(d, e); }";
    let added = b"if a != b { c(e); f(); }";
    let (left, right) = diff_lines(removed, added);
    for (spans, len) in [(left, removed.len()), (right, added.len())] {
        assert_eq!(spans[0].start, 0);
        assert_eq!(spans[spans.len() - 1].end, len);
        for k in 0..spans.len() {
            assert!(spans[k].start < spans[k].end);
            if k > 0 {
                assert_eq!(spans[k - 1].end, spans[k].start);
                assert_ne!(spans[k - 1].tag, spans[k].tag);
            }
        }
    }
}
